//! The backtracking search for word squares.
//!
//! The first word goes in row 0. After that the next slot to fill is the
//! most constrained one: the partly filled slot with the fewest dictionary
//! words that fit it. Each candidate word is placed, the branch is pruned
//! if a crossing slot can no longer be filled or a rule is broken, and
//! otherwise the search goes deeper; the placement is undone either way.

use vstd::prelude::*;
use crate::appstate::AppState;
use crate::dict::{fits_pattern, has_match, has_word, matching, words_full, Dict};
use crate::squares::{
    crossing, grid_double, grid_empty, grid_full, grid_ok, grid_transposed, half,
    lemma_place_ok, lemma_place_restore, place, Square,
};
use crate::words::{
    after_from, field, fits, full_spec, lemma_full_fits_eq, lemma_same_fields,
    present, word_ok, Word,
};

verus! {

/// Ways in which the search finds its own invariants broken.
#[derive(Debug, Clone, Copy, PartialEq, Eq, Structural)]
pub enum SearchError {
    /// The most constrained slot has no word that fits it. The pruning
    /// tests keep this from happening below the first step; it comes when
    /// the first word put in row 0 leaves a column that no word fits.
    NoMatch,
    /// A completed square repeats a word although repeats are not allowed.
    Repeated,
}

/// The slot has some letters and some blanks.
pub open spec fn partial(v: u32) -> bool {
    v != 0 && !full_spec(v)
}

/// Number of dictionary words that fit slot `p`.
pub open spec fn slot_count(words: Seq<Word>, g: Seq<u32>, p: int) -> int {
    matching(words, g[p]).len() as int
}

/// The slots that cross slot `pos`.
pub open spec fn crosses(pos: int, q: int) -> bool {
    0 <= q < 10 && crossing(pos, q)
}

/// A placement at `pos` leaves every crossing slot fillable and breaks no
/// rule.
pub open spec fn cross_ok(g: Seq<u32>, words: Seq<Word>, pos: int, doubled: bool, transposed: bool) -> bool {
    &&& !(!transposed && grid_transposed(g))
    &&& forall|q: int| crosses(pos, q) ==> has_match(words, #[trigger] g[q])
    &&& !(!doubled && grid_double(g))
}

/// A completed square whose ten slots are dictionary words and which keeps
/// the rules on repeats and transposition.
pub open spec fn solution(t: Seq<u32>, words: Seq<Word>, doubled: bool, transposed: bool) -> bool {
    &&& grid_ok(t)
    &&& grid_full(t)
    &&& forall|p: int| 0 <= p < 10 ==> has_word(words, #[trigger] t[p])
    &&& !doubled ==> !grid_double(t)
    &&& !transposed ==> !grid_transposed(t)
}

/// `t` keeps every letter of `g`.
pub open spec fn extends(t: Seq<u32>, g: Seq<u32>) -> bool {
    forall|p: int, i: int|
        0 <= p < 10 && 0 <= i < 5 && present(#[trigger] field(g[p], i)) ==> field(t[p], i) == field(
            g[p],
            i,
        )
}

/// Every full slot is a dictionary word and the rules hold so far.
pub open spec fn sound_so_far(g: Seq<u32>, words: Seq<Word>, doubled: bool, transposed: bool) -> bool {
    &&& forall|p: int| 0 <= p < 10 && full_spec(#[trigger] g[p]) ==> has_word(words, g[p])
    &&& !doubled ==> !grid_double(g)
    &&& !transposed ==> !grid_transposed(g)
}

/// A grid from which the search yields only solutions: the empty grid, or
/// one whose first row is full and which is sound so far.
pub open spec fn search_start(g: Seq<u32>, words: Seq<Word>, doubled: bool, transposed: bool) -> bool {
    grid_empty(g) || (full_spec(g[0]) && sound_so_far(g, words, doubled, transposed))
}

/// Blank fields of one slot.
pub open spec fn blank(v: u32, j: int) -> nat {
    if present(field(v, j)) {
        0
    } else {
        1
    }
}

/// Blank cells of one row.
pub open spec fn row_blanks(v: u32) -> nat {
    blank(v, 0) + blank(v, 1) + blank(v, 2) + blank(v, 3) + blank(v, 4)
}

/// Blank cells of the grid.
pub open spec fn blanks(g: Seq<u32>) -> nat {
    row_blanks(g[0]) + row_blanks(g[1]) + row_blanks(g[2]) + row_blanks(g[3]) + row_blanks(g[4])
}

/// Every solution that keeps the letters of `g` is among `results`.
pub open spec fn all_found(results: Seq<Square>, g: Seq<u32>, words: Seq<Word>, doubled: bool, transposed: bool) -> bool {
    forall|t: Seq<u32>|
        solution(t, words, doubled, transposed) && extends(t, g) ==> exists|k: int|
            0 <= k < results.len() && (#[trigger] results[k])@ == t
}

/// Every solution that keeps the letters of `g` and has in slot `p` one of
/// the first `k` candidates is among `results`.
#[verifier::opaque]
pub open spec fn found_among(
    results: Seq<Square>,
    g: Seq<u32>,
    words: Seq<Word>,
    doubled: bool,
    transposed: bool,
    cands: Seq<Word>,
    p: int,
    k: int,
) -> bool {
    forall|t: Seq<u32>|
        solution(t, words, doubled, transposed) && extends(t, g) && (exists|j: int|
            0 <= j < k && (#[trigger] cands[j]).0 == t[p]) ==> exists|i: int|
            0 <= i < results.len() && (#[trigger] results[i])@ == t
}

/// Every partly filled slot has a word that fits it.
pub open spec fn matchable(g: Seq<u32>, words: Seq<Word>) -> bool {
    forall|q: int| 0 <= q < 10 && partial(#[trigger] g[q]) ==> has_match(words, g[q])
}

/// The first step of the search from `g` leaves every partly filled slot
/// with a fitting word: on a grid whose first row is empty, each way of
/// putting a dictionary word there does; otherwise `g` itself does.
pub open spec fn start_ok(g: Seq<u32>, words: Seq<Word>) -> bool {
    if g[0] == 0 {
        forall|k: int| 0 <= k < words.len() ==> matchable(place(g, 0, #[trigger] words[k].0), words)
    } else {
        matchable(g, words)
    }
}

/// Under a limit of `l` squares, a search that started below it with `n0`
/// results ends with at most `l`, and stops early exactly when it has `l`.
pub open spec fn limit_kept(limit: Option<usize>, n0: int, n: int, r: Result<bool, SearchError>) -> bool {
    match limit {
        Some(l) => n0 < l ==> (n <= l && ((r == Ok::<bool, SearchError>(false)) <==> n == l)),
        None => true,
    }
}

/// Below the limit, if the search started below it.
pub open spec fn below_limit(limit: Option<usize>, n0: int, n: int) -> bool {
    match limit {
        Some(l) => n0 < l ==> n < l,
        None => true,
    }
}

/// No two words are the same.
pub open spec fn distinct_words(words: Seq<Word>) -> bool {
    forall|a: int, b: int| 0 <= a < b < words.len() ==> (#[trigger] words[a]).0 != (#[trigger] words[b]).0
}

/// No square appears twice among `results` from index `n` on.
pub open spec fn distinct_from(results: Seq<Square>, n: int) -> bool {
    forall|a: int, b: int| n <= a < b < results.len() ==> (#[trigger] results[a])@ != (#[trigger] results[b])@
}

/// The squares of `results` from index `n` on are well formed and keep
/// every letter of `g`.
pub open spec fn extend_from(results: Seq<Square>, n: int, g: Seq<u32>) -> bool {
    forall|j: int| n <= j < results.len() ==> (#[trigger] results[j]).wf() && extends(results[j]@, g)
}

/// The squares found from index `n0` on keep the letters of `g`, each has
/// in slot `p` one of the first `k` candidates, and when `uniq` none appears
/// twice.
#[verifier::opaque]
pub open spec fn batch_ok(results: Seq<Square>, n0: int, g: Seq<u32>, cands: Seq<Word>, p: int, k: int, uniq: bool) -> bool {
    &&& extend_from(results, n0, g)
    &&& uniq ==> distinct_from(results, n0)
    &&& forall|j: int|
        n0 <= j < results.len() ==> exists|i: int| 0 <= i < k && cands[i].0 == (#[trigger] results[j])@[p]
}

/// `b` starts with `a`.
pub open spec fn prefix_of(a: Seq<Square>, b: Seq<Square>) -> bool {
    a.len() <= b.len() && forall|i: int| 0 <= i < a.len() ==> #[trigger] b[i] == a[i]
}

/// The entries of `results` from `n` on are solutions.
pub open spec fn sound_from(results: Seq<Square>, n: int, words: Seq<Word>, doubled: bool, transposed: bool) -> bool {
    forall|j: int| n <= j < results.len() ==> solution(#[trigger] results[j]@, words, doubled, transposed)
}

proof fn lemma_found_none(
    results: Seq<Square>,
    g: Seq<u32>,
    words: Seq<Word>,
    doubled: bool,
    transposed: bool,
    cands: Seq<Word>,
    p: int,
)
    ensures
        found_among(results, g, words, doubled, transposed, cands, p, 0),
{
    reveal(found_among);
}

/// One more candidate has been tried: either the search below it found all
/// its solutions, or the pruning tests showed it has none.
proof fn lemma_found_step(
    before: Seq<Square>,
    after: Seq<Square>,
    g: Seq<u32>,
    words: Seq<Word>,
    doubled: bool,
    transposed: bool,
    cands: Seq<Word>,
    p: int,
    k: int,
    recursed: bool,
)
    requires
        grid_ok(g),
        0 <= p < 10,
        0 <= k < cands.len(),
        cands[k].wf(),
        found_among(before, g, words, doubled, transposed, cands, p, k),
        prefix_of(before, after),
        recursed ==> all_found(after, place(g, p, cands[k].0), words, doubled, transposed),
        !recursed ==> !cross_ok(place(g, p, cands[k].0), words, p, doubled, transposed),
    ensures
        found_among(after, g, words, doubled, transposed, cands, p, k + 1),
{
    reveal(found_among);
    let w = cands[k].0;
    assert forall|t: Seq<u32>|
        solution(t, words, doubled, transposed) && extends(t, g) && (exists|j: int|
            0 <= j < k + 1 && (#[trigger] cands[j]).0 == t[p]) implies exists|i: int|
        0 <= i < after.len() && (#[trigger] after[i])@ == t by {
        let j = choose|j: int| 0 <= j < k + 1 && (#[trigger] cands[j]).0 == t[p];
        if j == k {
            lemma_extends_place(g, t, p, w);
            if !recursed {
                lemma_place_ok(g, p, w);
                lemma_solution_passes(place(g, p, w), t, words, p, doubled, transposed);
            }
        } else {
            let i = choose|i: int| 0 <= i < before.len() && (#[trigger] before[i])@ == t;
            assert(after[i] == before[i]);
        }
    }
}

/// Once every solution's word in slot `p` is among the candidates and all
/// candidates were tried, every solution was found.
proof fn lemma_found_all(
    results: Seq<Square>,
    g: Seq<u32>,
    words: Seq<Word>,
    doubled: bool,
    transposed: bool,
    cands: Seq<Word>,
    p: int,
)
    requires
        found_among(results, g, words, doubled, transposed, cands, p, cands.len() as int),
        forall|t: Seq<u32>|
            solution(t, words, doubled, transposed) && extends(t, g) ==> exists|j: int|
                0 <= j < cands.len() && (#[trigger] cands[j]).0 == t[p],
    ensures
        all_found(results, g, words, doubled, transposed),
{
    reveal(found_among);
}

/// Appending solutions keeps the prefix and the tail of solutions.
proof fn lemma_sound_step(
    r0: Seq<Square>,
    before: Seq<Square>,
    after: Seq<Square>,
    n0: int,
    words: Seq<Word>,
    doubled: bool,
    transposed: bool,
)
    requires
        n0 == r0.len(),
        prefix_of(r0, before),
        prefix_of(before, after),
    ensures
        prefix_of(r0, after),
        sound_from(before, n0, words, doubled, transposed) && sound_from(
            after,
            before.len() as int,
            words,
            doubled,
            transposed,
        ) ==> sound_from(after, n0, words, doubled, transposed),
{
    assert forall|i: int| 0 <= i < r0.len() implies #[trigger] after[i] == r0[i] by {
        assert(after[i] == before[i]);
    }
    if sound_from(before, n0, words, doubled, transposed) && sound_from(after, before.len() as int, words, doubled, transposed) {
        assert forall|j: int| n0 <= j < after.len() implies solution(#[trigger] after[j]@, words, doubled, transposed) by {
            if j < before.len() {
                assert(after[j] == before[j]);
            }
        }
    }
}

/// A grid with a full first row that is not complete has a partly filled
/// slot: so the search always finds a slot to fill next.
proof fn lemma_partial_exists(g: Seq<u32>)
    requires
        grid_ok(g),
        full_spec(g[0]),
        !grid_full(g),
    ensures
        exists|q: int| 0 <= q < 10 && partial(#[trigger] g[q]),
{
    let q = choose|q: int| 0 <= q < 10 && !full_spec(#[trigger] g[q]);
    let c: int = if q >= 5 {
        q
    } else {
        let j = choose|j: int| 0 <= j < 5 && !present(#[trigger] field(g[q], j));
        assert(field(g[q], j) == field(g[5 + j], q));
        5 + j
    };
    assert(field(g[0], c - 5) == field(g[5 + (c - 5)], 0));
    assert(present(field(g[c], 0)));
    if g[c] == 0 {
        crate::words::lemma_fld_zero(crate::words::shift(0));
    }
    if q < 5 {
        assert(!full_spec(g[c]));
    }
    assert(partial(g[c]));
}

/// A placement that passes the pruning tests keeps every partly filled
/// slot fillable, and the first row non-blank.
proof fn lemma_matchable_step(g: Seq<u32>, p: int, w: u32, words: Seq<Word>, doubled: bool, transposed: bool)
    requires
        grid_ok(g),
        matchable(g, words),
        g[0] != 0,
        0 <= p < 10,
        word_ok(w),
        full_spec(w),
        cross_ok(place(g, p, w), words, p, doubled, transposed),
    ensures
        matchable(place(g, p, w), words),
        place(g, p, w)[0] != 0,
{
    let h = place(g, p, w);
    lemma_place_ok(g, p, w);
    assert forall|q: int| 0 <= q < 10 && partial(#[trigger] h[q]) implies has_match(words, h[q]) by {
        if q != p && !crossing(p, q) {
            assert(h[q] == g[q]);
        } else if q != p {
            assert(crosses(p, q));
        }
    }
    lemma_nonzero_row(g, p, w);
}

/// Writing a full word keeps a non-blank first row non-blank.
proof fn lemma_nonzero_row(g: Seq<u32>, p: int, w: u32)
    requires
        grid_ok(g),
        g[0] != 0 || p == 0,
        0 <= p < 10,
        word_ok(w),
        full_spec(w),
    ensures
        place(g, p, w)[0] != 0,
{
    let h = place(g, p, w);
    lemma_place_ok(g, p, w);
    crate::words::lemma_fld_zero(crate::words::shift(0));
    if p == 0 {
        assert(present(field(w, 0)));
    } else if p >= 5 {
        assert(field(h[0], p - 5) == field(w, 0));
        assert(present(field(w, 0)));
        crate::words::lemma_fld_zero(crate::words::shift(p - 5));
    } else {
        assert(h[0] == g[0]);
    }
}

/// A slot without fitting words counts none.
proof fn lemma_no_match_count(words: Seq<Word>, g: Seq<u32>, q: int)
    ensures
        (slot_count(words, g, q) == 0) == !has_match(words, g[q]),
{
    crate::dict::lemma_filter_empty(words, g[q]);
}

proof fn lemma_batch_none(results: Seq<Square>, n0: int, g: Seq<u32>, cands: Seq<Word>, p: int, uniq: bool)
    requires
        results.len() == n0,
    ensures
        batch_ok(results, n0, g, cands, p, 0, uniq),
{
    reveal(batch_ok);
}

proof fn lemma_batch_done(results: Seq<Square>, n0: int, g: Seq<u32>, cands: Seq<Word>, p: int, k: int, uniq: bool)
    requires
        batch_ok(results, n0, g, cands, p, k, uniq),
    ensures
        extend_from(results, n0, g),
        uniq ==> distinct_from(results, n0),
{
    reveal(batch_ok);
}

/// Keeping letters is transitive.
proof fn lemma_extends_trans(t: Seq<u32>, h: Seq<u32>, g: Seq<u32>)
    requires
        extends(t, h),
        extends(h, g),
    ensures
        extends(t, g),
{
    assert forall|p: int, i: int| 0 <= p < 10 && 0 <= i < 5 && present(#[trigger] field(g[p], i)) implies field(t[p], i) == field(g[p], i) by {
        assert(present(field(h[p], i)));
    }
}

/// Writing a full word that fits a slot keeps every letter of the grid.
proof fn lemma_place_extends(g: Seq<u32>, p: int, w: u32)
    requires
        grid_ok(g),
        0 <= p < 10,
        word_ok(w),
        full_spec(w),
        fits(g[p], w),
    ensures
        extends(place(g, p, w), g),
{
    let h = place(g, p, w);
    lemma_place_ok(g, p, w);
    assert forall|q: int, i: int| 0 <= q < 10 && 0 <= i < 5 && present(#[trigger] field(g[q], i)) implies field(h[q], i) == field(g[q], i) by {
        if q == p {
            assert(present(field(w, i)));
        } else if crossing(p, q) && i == half(p) {
            if p < 5 {
                assert(field(g[p], q - 5) == field(g[5 + (q - 5)], p));
                assert(present(field(w, q - 5)));
            } else {
                assert(field(g[q], p - 5) == field(g[5 + (p - 5)], q));
                assert(present(field(w, q)));
            }
        }
    }
}

/// One more candidate has been tried: the squares found below it keep its
/// word in slot `p`, so they differ from those found before.
proof fn lemma_batch_step(
    before: Seq<Square>,
    after: Seq<Square>,
    n0: int,
    g: Seq<u32>,
    cands: Seq<Word>,
    p: int,
    k: int,
    uniq: bool,
)
    requires
        grid_ok(g),
        0 <= p < 10,
        0 <= k < cands.len(),
        cands[k].wf(),
        full_spec(cands[k].0),
        fits(g[p], cands[k].0),
        0 <= n0 <= before.len(),
        batch_ok(before, n0, g, cands, p, k, uniq),
        prefix_of(before, after),
        extend_from(after, before.len() as int, place(g, p, cands[k].0)),
        uniq ==> distinct_words(cands),
        uniq ==> distinct_from(after, before.len() as int),
    ensures
        batch_ok(after, n0, g, cands, p, k + 1, uniq),
        extend_from(after, n0, g),
        uniq ==> distinct_from(after, n0),
{
    reveal(batch_ok);
    let w = cands[k].0;
    let g1 = place(g, p, w);
    assert forall|i: int| 0 <= i < before.len() implies #[trigger] after[i] == before[i] by {
        assert(prefix_of(before, after));
    }
    lemma_place_ok(g, p, w);
    lemma_place_extends(g, p, w);
    assert forall|j: int| before.len() <= j < after.len() implies extends((#[trigger] after[j])@, g) && after[j]@[p] == w by {
        lemma_extends_trans(after[j]@, g1, g);
        lemma_full_kept(g1, after[j]@, p);
    }
    assert forall|j: int| n0 <= j < after.len() implies (#[trigger] after[j]).wf() && extends(after[j]@, g) && exists|i: int| 0 <= i < k + 1 && cands[i].0 == after[j]@[p] by {
        if j < before.len() {
            assert(after[j] == before[j]);
            assert(exists|i: int| 0 <= i < k && cands[i].0 == before[j]@[p]);
        } else {
            assert(cands[k].0 == after[j]@[p]);
        }
    }
    if uniq {
        assert forall|a: int, b: int| n0 <= a < b < after.len() implies (#[trigger] after[a])@ != (#[trigger] after[b])@ by {
            if b < before.len() {
                assert(after[a] == before[a] && after[b] == before[b]);
            } else if a < before.len() {
                assert(after[a] == before[a]);
                let i = choose|i: int| 0 <= i < k && cands[i].0 == before[a]@[p];
                assert(cands[i].0 != cands[k].0);
            }
        }
    }
}

/// Filtering keeps words distinct.
proof fn lemma_filter_distinct(s: Seq<Word>, pr: spec_fn(Word) -> bool)
    requires
        distinct_words(s),
    ensures
        distinct_words(s.filter(pr)),
    decreases s.len(),
{
    if s.len() == 0 {
        reveal(Seq::filter);
    } else {
        let t = s.drop_last();
        let x = s.last();
        assert(s =~= t.push(x));
        assert forall|a: int, b: int| 0 <= a < b < t.len() implies (#[trigger] t[a]).0 != (#[trigger] t[b]).0 by {
            assert(t[a] == s[a] && t[b] == s[b]);
        }
        lemma_filter_distinct(t, pr);
        t.lemma_filter_push(x, pr);
        if pr(x) {
            let f = t.filter(pr);
            assert forall|a: int, b: int| 0 <= a < b < f.push(x).len() implies (#[trigger] f.push(x)[a]).0
                != (#[trigger] f.push(x)[b]).0 by {
                if b == f.len() {
                    assert(f.contains(f[a]));
                    t.lemma_filter_contains_rev(pr, f[a]);
                    let j = choose|j: int| 0 <= j < t.len() && t[j] == f[a];
                    assert(s[j] == t[j]);
                    assert(s[s.len() - 1] == x);
                }
            }
        }
    }
}

/// The grid with rows and columns swapped.
pub open spec fn transpose(g: Seq<u32>) -> Seq<u32> {
    Seq::new(10, |q: int| if q < 5 { g[q + 5] } else { g[q - 5] })
}

/// Of two different full words, exactly one is lexically after the other.
proof fn lemma_after_total(a: u32, d: u32, i: int)
    requires
        0 <= i <= 5,
        full_spec(a),
        full_spec(d),
        exists|j: int| i <= j < 5 && #[trigger] field(a, j) != field(d, j),
    ensures
        after_from(a, d, i) != after_from(d, a, i),
    decreases 5 - i,
{
    assert(present(field(a, i)) && present(field(d, i)));
    if field(a, i) == field(d, i) {
        let j = choose|j: int| i <= j < 5 && #[trigger] field(a, j) != field(d, j);
        assert(j != i);
        lemma_after_total(a, d, i + 1);
    }
}

/// A square and its transposition are both solutions when transposition is
/// allowed; and when its first row and first column differ, exactly one of
/// the two has its first row lexically after its first column, so exactly
/// one of them is a solution when transposition is not allowed.
pub proof fn lemma_transpose_pair(q: Seq<u32>, words: Seq<Word>, doubled: bool)
    requires
        solution(q, words, doubled, true),
    ensures
        solution(transpose(q), words, doubled, true),
        q[0] != q[5] ==> grid_transposed(q) != grid_transposed(transpose(q)),
        q[0] != q[5] ==> solution(q, words, doubled, false) != solution(transpose(q), words, doubled, false),
{
    let t = transpose(q);
    assert forall|i: int, j: int| 0 <= i < 5 && 0 <= j < 5 implies #[trigger] field(t[i], j) == #[trigger] field(t[5 + j], i) by {
        assert(field(q[j], i) == field(q[5 + i], j));
    }
    assert forall|p: int| 0 <= p < 10 implies word_ok(#[trigger] t[p]) && full_spec(t[p]) && has_word(words, t[p]) by {
        if p < 5 {
            assert(t[p] == q[p + 5]);
        } else {
            assert(t[p] == q[p - 5]);
        }
    }
    if grid_double(t) {
        let (a, b) = choose|a: int, b: int| 0 <= a < b < 10 && full_spec(#[trigger] t[a]) && t[a] == #[trigger] t[b];
        let a2 = if a < 5 { a + 5 } else { a - 5 };
        let b2 = if b < 5 { b + 5 } else { b - 5 };
        if a2 < b2 {
            assert(full_spec(q[a2]) && q[a2] == q[b2]);
        } else {
            assert(full_spec(q[b2]) && q[b2] == q[a2]);
        }
        assert(grid_double(q));
    }
    if q[0] != q[5] {
        if forall|j: int| 0 <= j < 5 ==> #[trigger] field(q[0], j) == field(q[5], j) {
            lemma_same_fields(q[0], q[5]);
        }
        lemma_after_total(q[0], q[5], 0);
        assert(t[0] == q[5] && t[5] == q[0]);
    }
}

/// Every letter of every word begins some word.
pub open spec fn initials_closed(words: Seq<Word>) -> bool {
    forall|k: int, j: int|
        0 <= k < words.len() && 0 <= j < 5 ==> exists|m: int|
            0 <= m < words.len() && field(words[m].0, 0) == #[trigger] field(words[k].0, j)
}

/// When every letter of every word begins some word, the first step from
/// the empty grid leaves every column fillable; so, by the contract of
/// `AppState::find_all`, the search from the empty grid does not fail.
pub proof fn lemma_initials_start_ok(g: Seq<u32>, words: Seq<Word>)
    requires
        grid_ok(g),
        grid_empty(g),
        words_full(words),
        initials_closed(words),
    ensures
        start_ok(g, words),
{
    assert forall|k: int| 0 <= k < words.len() implies matchable(place(g, 0, #[trigger] words[k].0), words) by {
        let w = words[k].0;
        let h = place(g, 0, w);
        lemma_place_ok(g, 0, w);
        assert forall|q: int| 0 <= q < 10 && partial(#[trigger] h[q]) implies has_match(words, h[q]) by {
            if q == 0 {
                assert(full_spec(h[0]));
            } else if q < 5 {
                assert(h[q] == g[q]);
            } else {
                assert(field(h[q], 0) == field(w, q - 5));
                let m = choose|m: int| 0 <= m < words.len() && field(words[m].0, 0) == #[trigger] field(words[k].0, q - 5);
                assert forall|i: int| 0 <= i < 5 && present(#[trigger] field(h[q], i)) && present(field(words[m].0, i)) implies field(h[q], i) == field(words[m].0, i) by {
                    if i != 0 {
                        assert(g[q] == 0);
                        crate::words::lemma_fld_zero(crate::words::shift(i));
                    }
                }
                assert(fits(h[q], words[m].0));
            }
        }
    }
    assert(g[0] == 0);
}

/// A candidate is a full dictionary word.
proof fn lemma_candidate(words: Seq<Word>, target: u32, k: int)
    requires
        words_full(words),
        0 <= k < matching(words, target).len(),
    ensures
        has_word(words, matching(words, target)[k].0),
        matching(words, target)[k].wf(),
        full_spec(matching(words, target)[k].0),
{
    broadcast use vstd::seq_lib::group_filter_ensures;

    let w = matching(words, target)[k];
    assert(matching(words, target).contains(w));
    words.lemma_filter_contains_rev(fits_pattern(target), w);
    let i = choose|i: int| 0 <= i < words.len() && words[i] == w;
    assert(words[i].0 == w.0);
}

// ---------------------------------------------------------------------------
/// A row that gains letters loses blanks.
proof fn lemma_row_blanks(a: u32, b: u32)
    requires
        forall|j: int| 0 <= j < 5 && present(#[trigger] field(a, j)) ==> present(field(b, j)),
    ensures
        row_blanks(b) <= row_blanks(a),
        (exists|j: int| 0 <= j < 5 && !present(#[trigger] field(a, j)) && present(field(b, j)))
            ==> row_blanks(b) < row_blanks(a),
{
    assert(present(field(a, 0)) ==> present(field(b, 0)));
    assert(present(field(a, 1)) ==> present(field(b, 1)));
    assert(present(field(a, 2)) ==> present(field(b, 2)));
    assert(present(field(a, 3)) ==> present(field(b, 3)));
    assert(present(field(a, 4)) ==> present(field(b, 4)));
}

/// Writing a full word to a slot with a blank leaves fewer blank cells.
proof fn lemma_place_blanks(g: Seq<u32>, p: int, w: u32)
    requires
        grid_ok(g),
        0 <= p < 10,
        word_ok(w),
        full_spec(w),
        !full_spec(g[p]),
    ensures
        blanks(place(g, p, w)) < blanks(g),
{
    let h = place(g, p, w);
    lemma_place_ok(g, p, w);
    let j0 = choose|j: int| 0 <= j < 5 && !present(#[trigger] field(g[p], j));
    assert forall|i: int| 0 <= i < 5 implies row_blanks(#[trigger] h[i]) <= row_blanks(g[i])
        && (((p < 5 && i == p) || (p >= 5 && i == j0)) ==> row_blanks(h[i]) < row_blanks(g[i])) by {
        if p < 5 {
            if i == p {
                assert(present(field(w, j0)));
                lemma_row_blanks(g[i], h[i]);
            } else {
                assert(h[i] == g[i]);
            }
        } else {
            assert forall|j: int| 0 <= j < 5 && present(#[trigger] field(g[i], j)) implies present(
                field(h[i], j),
            ) by {
                if j == p - 5 {
                    assert(present(field(w, i)));
                }
            }
            if i == j0 {
                assert(field(g[i], p - 5) == field(g[5 + (p - 5)], i));
                assert(present(field(w, i)));
                assert(!present(field(g[i], p - 5)) && present(field(h[i], p - 5)));
            }
            lemma_row_blanks(g[i], h[i]);
        }
    }
    assert(row_blanks(h[0]) <= row_blanks(g[0]));
    assert(row_blanks(h[1]) <= row_blanks(g[1]));
    assert(row_blanks(h[2]) <= row_blanks(g[2]));
    assert(row_blanks(h[3]) <= row_blanks(g[3]));
    assert(row_blanks(h[4]) <= row_blanks(g[4]));
    if p < 5 {
        assert(row_blanks(h[p]) < row_blanks(g[p]));
    } else {
        assert(row_blanks(h[j0]) < row_blanks(g[j0]));
    }
}

/// A completion of a grid whose first row is lexically after its first
/// column (on the column's leading letters) is so too.
proof fn lemma_after_kept(a: u32, d: u32, ta: u32, td: u32, i: int)
    requires
        0 <= i <= 5,
        after_from(a, d, i),
        forall|j: int| 0 <= j < 5 && present(#[trigger] field(a, j)) ==> field(ta, j) == field(a, j),
        forall|j: int| 0 <= j < 5 && present(#[trigger] field(d, j)) ==> field(td, j) == field(d, j),
    ensures
        after_from(ta, td, i),
    decreases 5 - i,
{
    if i < 5 {
        assert(present(field(d, i)));
        assert(field(a, i) >= field(d, i));
        assert(present(field(a, i)));
        if field(a, i) == field(d, i) {
            lemma_after_kept(a, d, ta, td, i + 1);
        }
    }
}

/// A completion of a grid keeps its full slots, and with them any repeat.
proof fn lemma_double_kept(g: Seq<u32>, t: Seq<u32>)
    requires
        grid_ok(g),
        grid_ok(t),
        extends(t, g),
        grid_double(g),
    ensures
        grid_double(t),
{
    let (p, q) = choose|p: int, q: int|
        0 <= p < q < 10 && full_spec(#[trigger] g[p]) && g[p] == #[trigger] g[q];
    lemma_full_kept(g, t, p);
    lemma_full_kept(g, t, q);
    assert(full_spec(t[p]) && t[p] == t[q]);
}

/// A full slot of a grid is the same in every completion.
proof fn lemma_full_kept(g: Seq<u32>, t: Seq<u32>, p: int)
    requires
        grid_ok(g),
        grid_ok(t),
        extends(t, g),
        0 <= p < 10,
        full_spec(g[p]),
    ensures
        t[p] == g[p],
{
    assert forall|i: int| 0 <= i < 5 implies #[trigger] field(t[p], i) == field(g[p], i) by {
        assert(present(field(g[p], i)));
    }
    lemma_same_fields(t[p], g[p]);
}

/// A solution that keeps the letters of a grid shows that a placement
/// leading to that grid passes the pruning tests.
proof fn lemma_solution_passes(
    g: Seq<u32>,
    t: Seq<u32>,
    words: Seq<Word>,
    pos: int,
    doubled: bool,
    transposed: bool,
)
    requires
        grid_ok(g),
        solution(t, words, doubled, transposed),
        extends(t, g),
        0 <= pos < 10,
    ensures
        cross_ok(g, words, pos, doubled, transposed),
{
    if grid_transposed(g) {
        lemma_after_kept(g[0], g[5], t[0], t[5], 0);
    }
    assert forall|q: int| crosses(pos, q) implies has_match(words, #[trigger] g[q]) by {
        assert(has_word(words, t[q]));
        let k = choose|k: int| 0 <= k < words.len() && #[trigger] words[k].0 == t[q];
        assert(fits(g[q], words[k].0));
    }
    if grid_double(g) {
        lemma_double_kept(g, t);
    }
}

/// A solution that keeps the letters of a grid and has `w` in slot `p`
/// keeps the letters of the grid with `w` written there.
proof fn lemma_extends_place(g: Seq<u32>, t: Seq<u32>, p: int, w: u32)
    requires
        grid_ok(g),
        grid_ok(t),
        word_ok(w),
        0 <= p < 10,
        extends(t, g),
        t[p] == w,
    ensures
        extends(t, place(g, p, w)),
{
    let h = place(g, p, w);
    lemma_place_ok(g, p, w);
    assert forall|q: int, i: int| 0 <= q < 10 && 0 <= i < 5 && present(#[trigger] field(h[q], i)) implies field(t[q], i) == field(h[q], i) by {
        if q != p && crossing(p, q) && i == half(p) {
            if p < 5 {
                assert(field(t[p], q - 5) == field(t[5 + (q - 5)], p));
            } else {
                assert(field(t[q], p - 5) == field(t[5 + (p - 5)], q));
            }
        }
    }
}

/// A complete grid is the only completion of itself.
proof fn lemma_full_extends(g: Seq<u32>, t: Seq<u32>)
    requires
        grid_ok(g),
        grid_ok(t),
        grid_full(g),
        extends(t, g),
    ensures
        t == g,
{
    assert forall|p: int| 0 <= p < 10 implies #[trigger] t[p] == g[p] by {
        lemma_full_kept(g, t, p);
    }
    assert(t =~= g);
}

/// Placing a full dictionary word in row 0 of the empty grid starts a
/// search that yields only solutions.
proof fn lemma_first_row(g: Seq<u32>, w: u32, words: Seq<Word>, doubled: bool, transposed: bool)
    requires
        grid_ok(g),
        grid_empty(g),
        word_ok(w),
        full_spec(w),
        has_word(words, w),
    ensures
        search_start(place(g, 0, w), words, doubled, transposed),
{
    let h = place(g, 0, w);
    lemma_place_ok(g, 0, w);
    assert forall|p: int| 1 <= p < 10 implies !full_spec(#[trigger] h[p]) by {
        assert(g[p] == 0);
        if p < 5 {
            assert(h[p] == 0);
            crate::words::lemma_fld_zero(crate::words::shift(0));
            assert(!present(field(h[p], 0)));
        } else {
            crate::words::lemma_fld_zero(crate::words::shift(1));
            assert(!present(field(h[p], 1)));
        }
    }
    if grid_double(h) {
        let (p, q) = choose|p: int, q: int| 0 <= p < q < 10 && full_spec(#[trigger] h[p]) && h[p] == #[trigger] h[q];
        assert(false);
    }
    assert(g[5] == 0);
    crate::words::lemma_fld_zero(crate::words::shift(1));
    assert(field(h[5], 0) == field(w, 0));
    assert(!present(field(h[5], 1)));
    assert(!after_from(h[0], h[5], 1));
}

/// Placing a dictionary word at a partly filled slot of a grid from which
/// the search yields only solutions, when the placement passes the pruning
/// tests, gives such a grid again.
proof fn lemma_step_sound(g: Seq<u32>, p: int, w: u32, words: Seq<Word>, doubled: bool, transposed: bool)
    requires
        grid_ok(g),
        search_start(g, words, doubled, transposed),
        0 < p < 10,
        !full_spec(g[p]),
        word_ok(w),
        full_spec(w),
        has_word(words, w),
        words_full(words),
        cross_ok(place(g, p, w), words, p, doubled, transposed),
        !grid_empty(g),
    ensures
        search_start(place(g, p, w), words, doubled, transposed),
{
    let h = place(g, p, w);
    lemma_place_ok(g, p, w);
    assert(full_spec(g[0]));
    assert forall|q: int| 0 <= q < 10 && full_spec(#[trigger] h[q]) implies has_word(words, h[q]) by {
        if q != p && crossing(p, q) {
            assert(has_match(words, h[q]));
            let k = choose|k: int| 0 <= k < words.len() && fits(h[q], #[trigger] words[k].0);
            lemma_full_fits_eq(h[q], words[k].0);
        }
    }
    assert forall|i: int| 0 <= i < 5 implies present(#[trigger] field(h[0], i)) by {
        assert(present(field(g[0], i)));
        if p >= 5 {
            assert(present(field(w, 0)));
        }
    }
}

/// A dictionary word that fits the pattern is among the words that match
/// it.
proof fn lemma_in_matching(words: Seq<Word>, target: u32, v: u32)
    requires
        has_word(words, v),
        fits(target, v),
    ensures
        exists|j: int| 0 <= j < matching(words, target).len() && (#[trigger] matching(words, target)[j]).0 == v,
{
    let k = choose|k: int| 0 <= k < words.len() && #[trigger] words[k].0 == v;
    words.lemma_filter_contains(fits_pattern(target), k);
    let j = choose|j: int| 0 <= j < matching(words, target).len() && matching(words, target)[j] == words[k];
    assert(matching(words, target)[j].0 == v);
}

// ---------------------------------------------------------------------------
/// The most constrained partly filled slot: the fewest words fit it, the
/// lowest slot among equals. Returns that number and the slot, or `None` if
/// no slot is partly filled.
pub fn best_pos(s: &Square, dict: &mut Dict) -> (r: Option<(usize, usize)>)
    requires
        s.wf(),
        old(dict).wf(),
    ensures
        final(dict).wf(),
        final(dict).words() == old(dict).words(),
        match r {
            None => forall|q: int| 0 <= q < 10 ==> !partial(#[trigger] s@[q]),
            Some((m, p)) => {
                &&& p < 10
                &&& partial(s@[p as int])
                &&& m == slot_count(old(dict).words(), s@, p as int)
                &&& forall|q: int|
                    0 <= q < 10 && partial(#[trigger] s@[q]) ==> m < slot_count(old(dict).words(), s@, q)
                        || (m == slot_count(old(dict).words(), s@, q) && p <= q)
            },
        },
{
    let ghost words = dict.words();
    let mut best: Option<(usize, usize)> = None;
    let mut p: usize = 0;
    while p < 10
        invariant
            s.wf(),
            dict.wf(),
            dict.words() == words,
            words == old(dict).words(),
            0 <= p <= 10,
            match best {
                None => forall|q: int| 0 <= q < p ==> !partial(#[trigger] s@[q]),
                Some((m, b)) => {
                    &&& b < p
                    &&& partial(s@[b as int])
                    &&& m == slot_count(words, s@, b as int)
                    &&& forall|q: int|
                        0 <= q < p && partial(#[trigger] s@[q]) ==> m < slot_count(words, s@, q) || (m
                            == slot_count(words, s@, q) && b <= q)
                },
            },
        decreases 10 - p,
    {
        let target = s.get_pos(p);
        if !target.is_empty() && !target.is_full() {
            let m = dict.match_count(target);
            let better = match best {
                None => true,
                Some((bm, _)) => m < bm,
            };
            if better {
                best = Some((m, p));
            }
        }
        p += 1;
    }
    best
}

/// The pruning tests after a word was placed at `pos`: transposition when
/// it is not allowed, then the crossing slots, then repeats when they are
/// not allowed.
pub fn cross_fit(s: &Square, dict: &mut Dict, pos: usize, doubled: bool, transposed: bool) -> (r: bool)
    requires
        s.wf(),
        old(dict).wf(),
        pos < 10,
    ensures
        final(dict).wf(),
        final(dict).words() == old(dict).words(),
        r == cross_ok(s@, old(dict).words(), pos as int, doubled, transposed),
{
    if !transposed && s.is_transposed() {
        return false;
    }
    let start: usize = if pos < 5 {
        5
    } else {
        0
    };
    let mut targets: Vec<Word> = Vec::new();
    let mut k: usize = 0;
    while k < 5
        invariant
            s.wf(),
            0 <= k <= 5,
            start == if pos < 5 { 5usize } else { 0usize },
            targets@.len() == k,
            forall|j: int| 0 <= j < k ==> (#[trigger] targets@[j]).0 == s@[start + j],
            forall|j: int| 0 <= j < k ==> (#[trigger] targets@[j]).wf(),
        decreases 5 - k,
    {
        targets.push(s.get_pos(start + k));
        k += 1;
    }
    let fit = dict.is_fit(targets.as_slice());
    proof {
        let words = old(dict).words();
        if fit {
            assert forall|q: int| crosses(pos as int, q) implies has_match(words, #[trigger] s@[q]) by {
                assert(has_match(words, targets@[q - start].0));
            }
        } else {
            let j = choose|j: int| 0 <= j < 5 && !has_match(words, #[trigger] targets@[j].0);
            assert(crosses(pos as int, start + j));
        }
    }
    if !fit {
        return false;
    }
    if !doubled && s.has_double() {
        return false;
    }
    true
}

impl AppState {
    /// Adds to `results`, in the order found, the squares that complete `s`
    /// under the rules of this search, each once when the dictionary's words
    /// are distinct. Returns `Ok(false)` when the limit was reached and the
    /// search stopped early, `Ok(true)` otherwise. The grid is left as it
    /// was given.
    ///
    /// `Err(SearchError::NoMatch)` comes exactly when the first step leaves
    /// a partly filled slot that no word fits (`start_ok` fails): from a
    /// valid start every later step is pruned so that this cannot happen.
    #[verifier::rlimit(60)]
    pub fn find_all(&mut self, s: &mut Square, dict: &mut Dict, results: &mut Vec<Square>) -> (r:
        Result<bool, SearchError>)
        requires
            old(s).wf(),
            old(dict).wf(),
            words_full(old(dict).words()),
        ensures
            final(s)@ == old(s)@,
            final(s).wf(),
            final(dict).wf(),
            final(dict).words() == old(dict).words(),
            final(self).limit == old(self).limit,
            final(self).trace == old(self).trace,
            final(self).doubled == old(self).doubled,
            final(self).transposed == old(self).transposed,
            final(self).nodes >= old(self).nodes,
            old(self).nodes < usize::MAX ==> final(self).nodes > old(self).nodes,
            prefix_of(old(results)@, final(results)@),
            search_start(old(s)@, old(dict).words(), old(self).doubled, old(self).transposed)
                ==> sound_from(
                final(results)@,
                old(results)@.len() as int,
                old(dict).words(),
                old(self).doubled,
                old(self).transposed,
            ),
            r == Ok::<bool, SearchError>(true) ==> all_found(
                final(results)@,
                old(s)@,
                old(dict).words(),
                old(self).doubled,
                old(self).transposed,
            ),
            r == Ok::<bool, SearchError>(false) ==> (old(self).limit matches Some(l) && final(results)@.len() >= l),
            search_start(old(s)@, old(dict).words(), old(self).doubled, old(self).transposed)
                ==> !(r matches Err(SearchError::Repeated)),
            search_start(old(s)@, old(dict).words(), old(self).doubled, old(self).transposed)
                && start_ok(old(s)@, old(dict).words()) ==> r is Ok,
            r == Ok::<bool, SearchError>(true) ==> start_ok(old(s)@, old(dict).words()),
            old(s)@[0] != 0 && !matchable(old(s)@, old(dict).words()) ==> r == Err::<
                bool,
                SearchError,
            >(SearchError::NoMatch),
            limit_kept(old(self).limit, old(results)@.len() as int, final(results)@.len() as int, r),
            extend_from(final(results)@, old(results)@.len() as int, old(s)@),
            distinct_words(old(dict).words()) ==> distinct_from(final(results)@, old(results)@.len() as int),
        decreases blanks(old(s)@),
    {
        if self.nodes < usize::MAX {
            self.nodes = self.nodes + 1;
        }
        let ghost g0 = s@;
        let ghost words = dict.words();
        let ghost doubled = self.doubled;
        let ghost transposed = self.transposed;
        let ghost n0 = results@.len();
        let ghost r0 = results@;
        let ghost entry_nodes = self.nodes;

        // The first word goes in row 0.
        let first = s.get_pos(0);
        if first.is_empty() {
            let n = dict.len();
            proof {
                lemma_found_none(results@, g0, words, doubled, transposed, words, 0);
                lemma_batch_none(results@, n0 as int, g0, words, 0, distinct_words(words));
                crate::words::lemma_fld_zero(crate::words::shift(0));
            }
            let mut k: usize = 0;
            while k < n
                invariant
                    s@ == g0,
                    s.wf(),
                    dict.wf(),
                    dict.words() == words,
                    n == words.len(),
                    0 <= k <= n,
                    first.0 == g0[0],
                    first.0 == 0,
                    self.limit == old(self).limit,
                    self.trace == old(self).trace,
                    self.doubled == doubled,
                    self.transposed == transposed,
                    self.nodes >= entry_nodes,
                    entry_nodes >= old(self).nodes,
                    old(self).nodes < usize::MAX ==> entry_nodes > old(self).nodes,
                    prefix_of(r0, results@),
                    n0 == r0.len(),
                    g0 == old(s)@,
                    r0 == old(results)@,
                    words == old(dict).words(),
                    doubled == old(self).doubled,
                    transposed == old(self).transposed,
                    search_start(g0, words, doubled, transposed) ==> sound_from(results@, n0 as int, words, doubled, transposed),
                    found_among(results@, g0, words, doubled, transposed, words, 0, k as int),
                    words_full(words),
                    forall|j: int| 0 <= j < k ==> matchable(place(g0, 0, #[trigger] words[j].0), words),
                    below_limit(self.limit, n0 as int, results@.len() as int),
                    batch_ok(results@, n0 as int, g0, words, 0, k as int, distinct_words(words)),
                decreases n - k,
            {
                let w = dict.word_at(k);
                proof {
                    crate::words::lemma_fld_zero(crate::words::shift(0));
                    assert(!present(field(g0[0], 0)));
                    lemma_place_ok(g0, 0, w.0);
                    lemma_place_blanks(g0, 0, w.0);
                    assert(has_word(words, w.0));
                    if search_start(g0, words, doubled, transposed) {
                        assert(!full_spec(g0[0]));
                        lemma_first_row(g0, w.0, words, doubled, transposed);
                    }
                    lemma_nonzero_row(g0, 0, w.0);
                    if start_ok(g0, words) {
                        assert(matchable(place(g0, 0, words[k as int].0), words));
                    }
                }
                s.set_pos(0, w);
                let ghost before = results@;
                let res = self.find_all(s, dict, results);
                proof {
                    lemma_place_restore(g0, 0, w.0);
                    lemma_sound_step(r0, before, results@, n0 as int, words, doubled, transposed);
                    assert forall|i: int| 0 <= i < 5 implies !present(#[trigger] field(g0[0], i)) by {
                        crate::words::lemma_fld_zero(crate::words::shift(i));
                    }
                    assert(words[k as int] == w);
                    lemma_batch_step(before, results@, n0 as int, g0, words, 0, k as int, distinct_words(words));
                }
                s.set_pos(0, first);
                match res {
                    Ok(true) => {},
                    _ => {
                        return res;
                    },
                }
                proof {
                    lemma_found_step(before, results@, g0, words, doubled, transposed, words, 0, k as int, true);
                    assert(matchable(place(g0, 0, words[k as int].0), words));
                }
                k += 1;
            }
            proof {
                lemma_batch_done(results@, n0 as int, g0, words, 0, k as int, distinct_words(words));
                assert forall|t: Seq<u32>| solution(t, words, doubled, transposed) && extends(t, g0) implies exists|j: int|
                    0 <= j < words.len() && (#[trigger] words[j]).0 == t[0] by {
                    assert(has_word(words, t[0]));
                }
                lemma_found_all(results@, g0, words, doubled, transposed, words, 0);
            }
            return Ok(true);
        }

        // A completed square.
        proof {
            if first.0 != 0 && search_start(g0, words, doubled, transposed) {
                assert(!grid_empty(g0));
            }
        }
        if s.is_full() {
            proof {
                assert forall|q: int| 0 <= q < 10 implies !partial(#[trigger] g0[q]) by {
                    assert(full_spec(g0[q]));
                }
            }
            if !self.doubled && s.has_double() {
                return Err(SearchError::Repeated);
            }
            results.push(*s);
            proof {
                assert(results@[n0 as int] == *s);
                assert(extends(g0, g0));
                assert forall|t: Seq<u32>| solution(t, words, doubled, transposed) && extends(t, g0) implies exists|i: int|
                    0 <= i < results@.len() && (#[trigger] results@[i])@ == t by {
                    lemma_full_extends(g0, t);
                    assert(results@[n0 as int]@ == t);
                }
                if search_start(g0, words, doubled, transposed) {
                    assert(!grid_empty(g0)) by {
                        assert(full_spec(g0[0]));
                        assert(present(field(g0[0], 0)));
                        if g0[0] == 0 {
                            crate::words::lemma_fld_zero(crate::words::shift(0));
                        }
                    }
                    assert(solution(results@[n0 as int]@, words, doubled, transposed));
                }
            }
            return match self.limit {
                Some(limit) => Ok(results.len() < limit),
                None => Ok(true),
            };
        }

        // The most constrained slot, and each word that fits it.
        let (m, p) = match best_pos(s, dict) {
            Some(b) => b,
            None => {
                proof {
                    if full_spec(g0[0]) {
                        lemma_partial_exists(g0);
                    } else {
                        assert(partial(g0[0]));
                    }
                }
                return vstd::pervasive::unreached();
            },
        };
        if m == 0 {
            proof {
                lemma_no_match_count(words, g0, p as int);
            }
            return Err(SearchError::NoMatch);
        }
        proof {
            assert forall|q: int| 0 <= q < 10 && partial(#[trigger] g0[q]) implies has_match(words, g0[q]) by {
                lemma_no_match_count(words, g0, q);
            }
        }
        let target = s.get_pos(p);
        let candidates = dict.matches(target);
        proof {
            assert(target.wf());
            lemma_found_none(results@, g0, words, doubled, transposed, candidates@, p as int);
            lemma_batch_none(results@, n0 as int, g0, candidates@, p as int, distinct_words(words));
            if distinct_words(words) {
                lemma_filter_distinct(words, fits_pattern(target.0));
            }
        }
        let mut k: usize = 0;
        while k < candidates.len()
            invariant
                s@ == g0,
                s.wf(),
                dict.wf(),
                dict.words() == words,
                words_full(words),
                candidates@ == matching(words, target.0),
                target.0 == g0[p as int],
                p < 10,
                partial(g0[p as int]),
                0 <= k <= candidates@.len(),
                self.limit == old(self).limit,
                self.trace == old(self).trace,
                self.doubled == doubled,
                self.transposed == transposed,
                self.nodes >= entry_nodes,
                entry_nodes >= old(self).nodes,
                old(self).nodes < usize::MAX ==> entry_nodes > old(self).nodes,
                prefix_of(r0, results@),
                n0 == r0.len(),
                g0 == old(s)@,
                r0 == old(results)@,
                words == old(dict).words(),
                doubled == old(self).doubled,
                transposed == old(self).transposed,
                search_start(g0, words, doubled, transposed) ==> sound_from(results@, n0 as int, words, doubled, transposed),
                found_among(results@, g0, words, doubled, transposed, candidates@, p as int, k as int),
                matchable(g0, words),
                g0[0] != 0,
                below_limit(self.limit, n0 as int, results@.len() as int),
                batch_ok(results@, n0 as int, g0, candidates@, p as int, k as int, distinct_words(words)),
                distinct_words(words) ==> distinct_words(candidates@),
            decreases candidates@.len() - k,
        {
            let w = candidates[k];
            proof {
                lemma_candidate(words, target.0, k as int);
                lemma_place_ok(g0, p as int, w.0);
                lemma_place_blanks(g0, p as int, w.0);
            }
            s.set_pos(p, w);
            let fit = cross_fit(s, dict, p, self.doubled, self.transposed);
            let ghost before = results@;
            if fit {
                proof {
                    if search_start(g0, words, doubled, transposed) {
                        if grid_empty(g0) {
                            assert(g0[p as int] == 0);
                        }
                        assert(p != 0);
                        lemma_step_sound(g0, p as int, w.0, words, doubled, transposed);
                    }
                    lemma_matchable_step(g0, p as int, w.0, words, doubled, transposed);
                }
                let res = self.find_all(s, dict, results);
                proof {
                    lemma_sound_step(r0, before, results@, n0 as int, words, doubled, transposed);
                    lemma_batch_step(before, results@, n0 as int, g0, candidates@, p as int, k as int, distinct_words(words));
                }
                match res {
                    Ok(true) => {},
                    _ => {
                        proof {
                            lemma_place_restore(g0, p as int, w.0);
                        }
                        s.set_pos(p, target);
                        return res;
                    },
                }
            }
            proof {
                lemma_place_restore(g0, p as int, w.0);
            }
            s.set_pos(p, target);
            proof {
                lemma_found_step(before, results@, g0, words, doubled, transposed, candidates@, p as int, k as int, fit);
                if !fit {
                    lemma_batch_step(before, results@, n0 as int, g0, candidates@, p as int, k as int, distinct_words(words));
                }
            }
            k += 1;
        }
        proof {
            assert forall|t: Seq<u32>| solution(t, words, doubled, transposed) && extends(t, g0) implies exists|j: int|
                0 <= j < candidates@.len() && (#[trigger] candidates@[j]).0 == t[p as int] by {
                assert(has_word(words, t[p as int]));
                assert(fits(g0[p as int], t[p as int]));
                lemma_in_matching(words, target.0, t[p as int]);
            }
            lemma_found_all(results@, g0, words, doubled, transposed, candidates@, p as int);
            lemma_batch_done(results@, n0 as int, g0, candidates@, p as int, k as int, distinct_words(words));
        }
        Ok(true)
    }
}

} // verus!
