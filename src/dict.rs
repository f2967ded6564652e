//! The dictionary: full five-letter words, indexed by the letter at each
//! position, with caches of recent answers by pattern.

use vstd::prelude::*;
use std::collections::HashSet;
use crate::lfu::{
    count_cache_get, count_cache_put, count_entries, hit_cache_get, hit_cache_put, hit_entries,
    new_count_cache, new_hit_cache, CountCache, HitCache,
};
use crate::words::{
    field, field_ok, fits, full_spec, lemma_full_fits_eq, parse_spec, present,
    Word, WordError,
};

verus! {

broadcast use vstd::std_specs::hash::group_hash_axioms;

/// Entries in each cache.
const CACHE_SIZE: usize = 40000;

/// Admission samples of each cache.
const CACHE_SAMPLES: usize = 2000;

/// The word has letter number `c` at position `i`.
pub open spec fn letter_at(i: int, c: int) -> spec_fn(Word) -> bool {
    |w: Word| field(w.0, i) == 0x20 + c
}

/// The word fits the pattern `t`.
pub open spec fn fits_pattern(t: u32) -> spec_fn(Word) -> bool {
    |w: Word| fits(t, w.0)
}

/// The words that fit `t`, in order.
pub open spec fn matching(words: Seq<Word>, t: u32) -> Seq<Word> {
    words.filter(fits_pattern(t))
}

/// Some word fits `t`.
pub open spec fn has_match(words: Seq<Word>, t: u32) -> bool {
    exists|k: int| 0 <= k < words.len() && fits(t, #[trigger] words[k].0)
}

/// Some word is exactly `v`.
pub open spec fn has_word(words: Seq<Word>, v: u32) -> bool {
    exists|k: int| 0 <= k < words.len() && #[trigger] words[k].0 == v
}

/// Every word is well formed and full.
pub open spec fn words_full(words: Seq<Word>) -> bool {
    forall|k: int| 0 <= k < words.len() ==> (#[trigger] words[k]).wf() && full_spec(words[k].0)
}

/// Every word is well formed.
pub open spec fn words_wf(words: Seq<Word>) -> bool {
    forall|k: int| 0 <= k < words.len() ==> (#[trigger] words[k]).wf()
}

/// Ascending by packed value.
pub open spec fn sorted_words(words: Seq<Word>) -> bool {
    forall|a: int, b: int| 0 <= a < b < words.len() ==> (#[trigger] words[a]).0 <= (#[trigger] words[b]).0
}

/// The outcome of reading one dictionary entry: a pattern without blanks.
pub open spec fn dict_parse(s: Seq<char>) -> Result<Word, WordError> {
    match parse_spec(s) {
        Ok(w) => if full_spec(w.0) {
            Ok(w)
        } else {
            Err(WordError::Incomplete)
        },
        Err(e) => Err(e),
    }
}

/// Every entry of `texts` reads as a dictionary word.
pub open spec fn all_parse(texts: Seq<&str>) -> bool {
    forall|k: int| 0 <= k < texts.len() ==> (#[trigger] dict_parse(texts[k]@)) is Ok
}

/// The words that the entries of `texts` read as.
pub open spec fn parsed(texts: Seq<&str>) -> Seq<Word> {
    Seq::new(texts.len(), |k: int| dict_parse(texts[k]@)->Ok_0)
}

/// Filtering by a condition that `q` implies, then by `q`, is filtering by `q`.
proof fn lemma_filter_filter(s: Seq<Word>, p: spec_fn(Word) -> bool, q: spec_fn(Word) -> bool)
    requires
        forall|k: int| 0 <= k < s.len() && q(#[trigger] s[k]) ==> p(s[k]),
    ensures
        s.filter(p).filter(q) == s.filter(q),
    decreases s.len(),
{
    if s.len() == 0 {
        reveal(Seq::filter);
        assert(s.filter(p) =~= s);
    } else {
        let t = s.drop_last();
        let x = s.last();
        assert forall|k: int| 0 <= k < t.len() && q(#[trigger] t[k]) implies p(t[k]) by {
            assert(t[k] == s[k]);
        }
        lemma_filter_filter(t, p, q);
        assert(s =~= t.push(x));
        t.lemma_filter_push(x, p);
        t.lemma_filter_push(x, q);
        t.filter(p).lemma_filter_push(x, q);
    }
}

/// A filtered sequence is empty exactly when no element passes.
pub(crate) proof fn lemma_filter_empty(s: Seq<Word>, t: u32)
    ensures
        (matching(s, t).len() > 0) == has_match(s, t),
{
    broadcast use vstd::seq_lib::group_filter_ensures;

    if matching(s, t).len() > 0 {
        let x = matching(s, t)[0];
        assert(matching(s, t).contains(x));
        s.lemma_filter_contains_rev(fits_pattern(t), x);
        let k = choose|k: int| 0 <= k < s.len() && s[k] == x;
        assert(fits(t, s[k].0));
    }
    if has_match(s, t) {
        let k = choose|k: int| 0 <= k < s.len() && fits(t, #[trigger] s[k].0);
        s.lemma_filter_contains(fits_pattern(t), k);
    }
}

/// Filtering keeps ascending order.
proof fn lemma_filter_sorted(s: Seq<Word>, p: spec_fn(Word) -> bool)
    requires
        sorted_words(s),
    ensures
        sorted_words(s.filter(p)),
    decreases s.len(),
{
    if s.len() == 0 {
        reveal(Seq::filter);
    } else {
        let t = s.drop_last();
        let x = s.last();
        assert(s =~= t.push(x));
        lemma_filter_sorted(t, p);
        t.lemma_filter_push(x, p);
        if p(x) {
            let f = t.filter(p);
            assert forall|a: int, b: int| 0 <= a < b < f.push(x).len() implies (#[trigger] f.push(x)[a]).0
                <= (#[trigger] f.push(x)[b]).0 by {
                if b == f.len() {
                    assert(f.contains(f[a]));
                    t.lemma_filter_contains_rev(p, f[a]);
                    let j = choose|j: int| 0 <= j < t.len() && t[j] == f[a];
                    assert(s[j] == t[j]);
                }
            }
        }
    }
}

/// Whether the words are in ascending order.
fn is_sorted(v: &Vec<Word>) -> (r: bool)
    ensures
        r == sorted_words(v@),
{
    let mut i: usize = 1;
    if v.len() == 0 {
        return true;
    }
    while i < v.len()
        invariant
            1 <= i <= v@.len(),
            forall|a: int, b: int| 0 <= a < b < i ==> (#[trigger] v@[a]).0 <= (#[trigger] v@[b]).0,
        decreases v@.len() - i,
    {
        if v[i - 1].0 > v[i].0 {
            return false;
        }
        proof {
            assert forall|a: int, b: int| 0 <= a < b < i + 1 implies (#[trigger] v@[a]).0 <= (
            #[trigger] v@[b]).0 by {
                if b == i && a < i - 1 {
                    assert(v@[a].0 <= v@[i - 1].0);
                }
            }
        }
        i += 1;
    }
    true
}

impl Word {
    /// For each position and letter, the words with that letter there, in
    /// ascending order.
    pub fn build_word_index(words: &[Word]) -> (r: Vec<Vec<Vec<Word>>>)
        ensures
            r@.len() == 5,
            forall|i: int| 0 <= i < 5 ==> (#[trigger] r@[i])@.len() == 26,
            forall|i: int, c: int|
                0 <= i < 5 && 0 <= c < 26 ==> sorted_words((#[trigger] r@[i]@[c])@),
            exists|v: Seq<Word>|
                #[trigger] v.to_multiset() == words@.to_multiset() && forall|i: int, c: int|
                    0 <= i < 5 && 0 <= c < 26 ==> (#[trigger] r@[i]@[c])@ == v.filter(letter_at(i, c)),
            sorted_words(words@) ==> forall|i: int, c: int|
                0 <= i < 5 && 0 <= c < 26 ==> (#[trigger] r@[i]@[c])@ == words@.filter(
                    letter_at(i, c),
                ),
    {
        let mut v: Vec<Word> = Vec::new();
        let mut k: usize = 0;
        while k < words.len()
            invariant
                0 <= k <= words@.len(),
                v@ == words@.take(k as int),
            decreases words@.len() - k,
        {
            v.push(words[k]);
            assert(words@.take(k as int).push(words@[k as int]) =~= words@.take(k as int + 1));
            k += 1;
        }
        assert(words@.take(words@.len() as int) =~= words@);
        if !is_sorted(&v) {
            sort_words(&mut v);
        }
        let r = Self::index_of_sorted(v.as_slice());
        proof {
            assert forall|i: int, c: int| 0 <= i < 5 && 0 <= c < 26 implies sorted_words((#[trigger] r@[i]@[c])@) by {
                lemma_filter_sorted(v@, letter_at(i, c));
            }
            assert(v@.to_multiset() == words@.to_multiset());
        }
        r
    }

    /// For each position and letter, the words with that letter there, in
    /// their order in `words`.
    fn index_of_sorted(words: &[Word]) -> (r: Vec<Vec<Vec<Word>>>)
        ensures
            r@.len() == 5,
            forall|i: int| 0 <= i < 5 ==> (#[trigger] r@[i])@.len() == 26,
            forall|i: int, c: int|
                0 <= i < 5 && 0 <= c < 26 ==> (#[trigger] r@[i]@[c])@ == words@.filter(
                    letter_at(i, c),
                ),
    {
        let mut index: Vec<Vec<Vec<Word>>> = Vec::new();
        let mut i: usize = 0;
        while i < 5
            invariant
                0 <= i <= 5,
                index@.len() == i,
                forall|a: int| 0 <= a < i ==> (#[trigger] index@[a])@.len() == 26,
                forall|a: int, c: int|
                    0 <= a < i && 0 <= c < 26 ==> (#[trigger] index@[a]@[c])@ == words@.filter(
                        letter_at(a, c),
                    ),
            decreases 5 - i,
        {
            let mut row: Vec<Vec<Word>> = Vec::new();
            let mut c: usize = 0;
            while c < 26
                invariant
                    0 <= i < 5,
                    0 <= c <= 26,
                    row@.len() == c,
                    forall|b: int| 0 <= b < c ==> (#[trigger] row@[b])@ == words@.filter(
                        letter_at(i as int, b),
                    ),
                decreases 26 - c,
            {
                let want: u8 = 0x20 + c as u8;
                let mut bucket: Vec<Word> = Vec::new();
                let mut k: usize = 0;
                while k < words.len()
                    invariant
                        0 <= i < 5,
                        0 <= c < 26,
                        want == 0x20 + c,
                        0 <= k <= words@.len(),
                        bucket@ == words@.take(k as int).filter(letter_at(i as int, c as int)),
                    decreases words@.len() - k,
                {
                    let w = words[k];
                    proof {
                        assert(words@.take(k as int + 1) =~= words@.take(k as int).push(w));
                        words@.take(k as int).lemma_filter_push(w, letter_at(i as int, c as int));
                    }
                    if w.get_bits(i) == want {
                        bucket.push(w);
                    }
                    k += 1;
                }
                assert(words@.take(words@.len() as int) =~= words@);
                row.push(bucket);
                c += 1;
            }
            index.push(row);
            i += 1;
        }
        index
    }
}

/// A dictionary entry that is not a word: its index and what is wrong.
#[derive(Debug, Clone, Copy, PartialEq, Eq, Structural)]
pub struct BadEntry {
    /// Index of the entry in the input.
    pub index: usize,
    /// Why it was refused.
    pub error: WordError,
}

/// The dictionary.
pub struct Dict {
    /// The words, ascending.
    word_list: Vec<Word>,
    /// The words' packed values, for membership.
    word_set: HashSet<u32>,
    /// For each position and letter, the words with that letter there.
    word_index: Vec<Vec<Vec<Word>>>,
    /// Remembered answers of whether a pattern has a match.
    hit_cache: HitCache,
    /// Remembered counts of matches by pattern.
    count_cache: CountCache,
    /// No word has a blank, so the index buckets hold every word that fits
    /// a letter of a pattern.
    all_full: bool,
}

impl Dict {
    /// The words, ascending.
    pub closed spec fn words(&self) -> Seq<Word> {
        self.word_list@
    }

    /// The derived structures agree with the word list.
    pub closed spec fn derived_ok(&self) -> bool {
        let words = self.word_list@;
        &&& self.all_full == words_full(words)
        &&& forall|v: u32| #[trigger] self.word_set@.contains(v) <==> has_word(words, v)
        &&& self.word_index@.len() == 5
        &&& forall|i: int| 0 <= i < 5 ==> (#[trigger] self.word_index@[i])@.len() == 26
        &&& forall|i: int, c: int|
            0 <= i < 5 && 0 <= c < 26 ==> (#[trigger] self.word_index@[i]@[c])@ == words.filter(
                letter_at(i, c),
            )
        &&& forall|t: u32| #[trigger]
            hit_entries(self.hit_cache).contains_key(t) ==> hit_entries(self.hit_cache)[t]
                == has_match(words, t)
        &&& forall|t: u32| #[trigger]
            count_entries(self.count_cache).contains_key(t) ==> count_entries(self.count_cache)[t]
                == matching(words, t).len()
    }

    /// Well-formed words in ascending order, with their derived structures.
    pub open spec fn wf(&self) -> bool {
        &&& words_wf(self.words())
        &&& sorted_words(self.words())
        &&& self.derived_ok()
    }

    /// The number of words that fit `t`.
    pub open spec fn count_spec(&self, t: u32) -> int {
        matching(self.words(), t).len() as int
    }

    /// A count depends on the words alone: two dictionaries with the same
    /// words give the same count for every pattern, whatever their caches
    /// hold.
    pub proof fn lemma_count_ignores_cache(a: &Dict, b: &Dict, t: Word)
        requires
            a.wf(),
            b.wf(),
            a.words() == b.words(),
        ensures
            a.count_spec(t.0) == b.count_spec(t.0),
    {
    }

    /// A count cache that holds only correct entries keeps the dictionary
    /// well formed.
    proof fn lemma_count_cache_shrunk(&self, before: Map<u32, usize>)
        requires
            count_entries(self.count_cache).submap_of(before),
            forall|t: u32| #[trigger] before.contains_key(t) ==> before[t] == matching(self.words(), t).len(),
        ensures
            forall|t: u32| #[trigger]
                count_entries(self.count_cache).contains_key(t) ==> count_entries(self.count_cache)[t]
                    == matching(self.words(), t).len(),
    {
        assert forall|t: u32| #[trigger] count_entries(self.count_cache).contains_key(t) implies count_entries(self.count_cache)[t]
                    == matching(self.words(), t).len() by {
            assert(before.contains_key(t));
        }
    }

    /// A hit cache that holds only correct entries keeps the dictionary
    /// well formed.
    proof fn lemma_hit_cache_shrunk(&self, before: Map<u32, bool>)
        requires
            hit_entries(self.hit_cache).submap_of(before),
            forall|t: u32| #[trigger] before.contains_key(t) ==> before[t] == has_match(self.words(), t),
        ensures
            forall|t: u32| #[trigger]
                hit_entries(self.hit_cache).contains_key(t) ==> hit_entries(self.hit_cache)[t]
                    == has_match(self.words(), t),
    {
        assert forall|t: u32| #[trigger] hit_entries(self.hit_cache).contains_key(t) implies hit_entries(self.hit_cache)[t]
                    == has_match(self.words(), t) by {
            assert(before.contains_key(t));
        }
    }

    /// Builds the derived structures of a sorted list of words.
    fn init(word_list: Vec<Word>) -> (r: Self)
        requires
            words_wf(word_list@),
            sorted_words(word_list@),
        ensures
            r.wf(),
            r.words() == word_list@,
    {
        let mut word_set: HashSet<u32> = HashSet::new();
        let mut k: usize = 0;
        while k < word_list.len()
            invariant
                0 <= k <= word_list@.len(),
                forall|v: u32| #[trigger]
                    word_set@.contains(v) <==> has_word(word_list@.take(k as int), v),
            decreases word_list@.len() - k,
        {
            let w = word_list[k];
            word_set.insert(w.0);
            proof {
                let before = word_list@.take(k as int);
                let after = word_list@.take(k as int + 1);
                assert forall|v: u32| #[trigger] word_set@.contains(v) <==> has_word(after, v) by {
                    if has_word(after, v) {
                        let j = choose|j: int| 0 <= j < after.len() && #[trigger] after[j].0 == v;
                        if j < k {
                            assert(before[j] == after[j]);
                        }
                    }
                    if has_word(before, v) {
                        let j = choose|j: int| 0 <= j < before.len() && #[trigger] before[j].0 == v;
                        assert(after[j] == before[j]);
                    }
                    if v == w.0 {
                        assert(after[k as int] == w);
                    }
                }
            }
            k += 1;
        }
        assert(word_list@.take(word_list@.len() as int) =~= word_list@);
        let word_index = Word::build_word_index(word_list.as_slice());
        assert(sorted_words(word_list@));
        let hit_cache = new_hit_cache(CACHE_SIZE, CACHE_SAMPLES);
        let count_cache = new_count_cache(CACHE_SIZE, CACHE_SAMPLES);
        let all_full = all_words_full(&word_list);
        Dict { word_list, word_set, word_index, hit_cache, count_cache, all_full }
    }

    /// Reads each text as a dictionary word, failing on the first that is
    /// not five lowercase letters, with its index.
    pub fn new(words: &[&str]) -> (r: Result<Self, BadEntry>)
        ensures
            match r {
                Ok(d) => {
                    &&& d.wf()
                    &&& words_full(d.words())
                    &&& all_parse(words@)
                    &&& d.words().to_multiset() == parsed(words@).to_multiset()
                },
                Err(e) => {
                    &&& e.index < words@.len()
                    &&& dict_parse(words@[e.index as int]@) == Err::<Word, WordError>(e.error)
                    &&& forall|j: int| 0 <= j < e.index ==> (#[trigger] dict_parse(words@[j]@)) is Ok
                },
            },
    {
        let mut word_list: Vec<Word> = Vec::new();
        let mut k: usize = 0;
        while k < words.len()
            invariant
                0 <= k <= words@.len(),
                word_list@.len() == k,
                forall|j: int| 0 <= j < k ==> (#[trigger] dict_parse(words@[j]@)) is Ok,
                forall|j: int| 0 <= j < k ==> #[trigger] word_list@[j] == dict_parse(words@[j]@)->Ok_0,
                words_full(word_list@),
            decreases words@.len() - k,
        {
            let w = match Word::from_str(words[k]) {
                Ok(w) => w,
                Err(e) => {
                    proof {
                        assert(dict_parse(words@[k as int]@) == Err::<Word, WordError>(e));
                    }
                    return Err(BadEntry { index: k, error: e });
                },
            };
            if !w.is_full() {
                proof {
                    assert(dict_parse(words@[k as int]@) == Err::<Word, WordError>(WordError::Incomplete));
                }
                return Err(BadEntry { index: k, error: WordError::Incomplete });
            }
            word_list.push(w);
            k += 1;
        }
        proof {
            assert(word_list@ =~= parsed(words@));
        }
        sort_words(&mut word_list);
        proof {
            lemma_multiset_full(parsed(words@), word_list@);
        }
        Ok(Self::init(word_list))
    }

    /// Builds a dictionary from well-formed words, blanks allowed.
    pub fn from_words(words: &[Word]) -> (r: Self)
        requires
            words_wf(words@),
        ensures
            r.wf(),
            r.words().to_multiset() == words@.to_multiset(),
    {
        let mut word_list: Vec<Word> = Vec::new();
        let mut k: usize = 0;
        while k < words.len()
            invariant
                0 <= k <= words@.len(),
                word_list@ == words@.take(k as int),
            decreases words@.len() - k,
        {
            word_list.push(words[k]);
            assert(words@.take(k as int).push(words@[k as int]) =~= words@.take(k as int + 1));
            k += 1;
        }
        assert(words@.take(words@.len() as int) =~= words@);
        sort_words(&mut word_list);
        proof {
            lemma_multiset_full(words@, word_list@);
        }
        Self::init(word_list)
    }

    /// The number of words.
    pub fn len(&self) -> (r: usize)
        ensures
            r == self.words().len(),
    {
        self.word_list.len()
    }

    /// The word at index `k`, in ascending order.
    pub fn word_at(&self, k: usize) -> (r: Word)
        requires
            k < self.words().len(),
        ensures
            r == self.words()[k as int],
    {
        self.word_list[k]
    }

    /// The words that fit `target`, ascending. Only the index bucket of one
    /// of the target's letters is scanned: the smallest.
    pub fn matches(&self, target: Word) -> (r: Vec<Word>)
        requires
            self.wf(),
            target.wf(),
        ensures
            r@ == matching(self.words(), target.0),
    {
        let mut best: Option<(usize, usize)> = None;
        let mut best_len: usize = 0;
        let mut i: usize = 0;
        while i < 5
            invariant
                self.wf(),
                target.wf(),
                0 <= i <= 5,
                match best {
                    Some((a, c)) => a < 5 && c < 26 && field(target.0, a as int) == 0x20 + c,
                    None => true,
                },
            decreases 5 - i,
        {
            let f = target.get_bits(i);
            if f >= 0x20 {
                proof {
                    assert(field_ok(field(target.0, i as int)));
                }
                let c = (f - 0x20) as usize;
                let n = self.word_index[i][c].len();
                let better = match best {
                    Some(_) => n < best_len,
                    None => true,
                };
                if better {
                    best = Some((i, c));
                    best_len = n;
                }
            }
            i += 1;
        }
        if !self.all_full {
            best = None;
        }
        let source: &Vec<Word> = match best {
            Some((a, c)) => &self.word_index[a][c],
            None => &self.word_list,
        };
        let ghost pred = fits_pattern(target.0);
        let mut r: Vec<Word> = Vec::new();
        let mut k: usize = 0;
        while k < source.len()
            invariant
                0 <= k <= source@.len(),
                r@ == source@.take(k as int).filter(pred),
                pred == fits_pattern(target.0),
            decreases source@.len() - k,
        {
            let w = source[k];
            proof {
                assert(source@.take(k as int + 1) =~= source@.take(k as int).push(w));
                source@.take(k as int).lemma_filter_push(w, pred);
            }
            if target.is_fit(w) {
                r.push(w);
            }
            k += 1;
        }
        assert(source@.take(source@.len() as int) =~= source@);
        proof {
            let words = self.words();
            match best {
                Some((a, c)) => {
                    assert forall|j: int| 0 <= j < words.len() && pred(#[trigger] words[j]) implies letter_at(
                        a as int,
                        c as int,
                    )(words[j]) by {
                        assert(words[j].wf() && full_spec(words[j].0));
                        assert(present(field(words[j].0, a as int)));
                    }
                    lemma_filter_filter(words, letter_at(a as int, c as int), pred);
                },
                None => {},
            }
        }
        r
    }

    /// The number of words that fit `target`.
    pub fn match_count(&mut self, target: Word) -> (r: usize)
        requires
            old(self).wf(),
            target.wf(),
        ensures
            final(self).wf(),
            final(self).words() == old(self).words(),
            r == old(self).count_spec(target.0),
    {
        let ghost old_counts = count_entries(self.count_cache);
        let cached = count_cache_get(&mut self.count_cache, target.0);
        proof {
            self.lemma_count_cache_shrunk(old_counts);
        }
        match cached {
            Some(n) => {
                return n;
            },
            None => {},
        }
        let n = self.matches(target).len();
        let ghost mid_counts = count_entries(self.count_cache);
        count_cache_put(&mut self.count_cache, target.0, n);
        proof {
            self.lemma_count_cache_shrunk(mid_counts.insert(target.0, n));
        }
        n
    }

    /// Every target has at least one word that fits it.
    pub fn is_fit(&mut self, targets: &[Word]) -> (r: bool)
        requires
            old(self).wf(),
            forall|k: int| 0 <= k < targets@.len() ==> (#[trigger] targets@[k]).wf(),
        ensures
            final(self).wf(),
            final(self).words() == old(self).words(),
            r == forall|k: int|
                0 <= k < targets@.len() ==> has_match(old(self).words(), #[trigger] targets@[k].0),
    {
        let ghost words = self.words();
        let mut k: usize = 0;
        while k < targets.len()
            invariant
                self.wf(),
                self.words() == words,
                words == old(self).words(),
                forall|j: int| 0 <= j < targets@.len() ==> (#[trigger] targets@[j]).wf(),
                0 <= k <= targets@.len(),
                forall|j: int| 0 <= j < k ==> has_match(words, #[trigger] targets@[j].0),
            decreases targets@.len() - k,
        {
            let target = targets[k];
            let ghost old_hits = hit_entries(self.hit_cache);
            let cached = hit_cache_get(&mut self.hit_cache, target.0);
            proof {
                self.lemma_hit_cache_shrunk(old_hits);
            }
            let status = match cached {
                Some(status) => status,
                None => {
                    let status = if self.all_full && target.is_full() {
                        let found = self.word_set.contains(&target.0);
                        proof {
                            assert(self.word_set@.contains(target.0) == has_word(words, target.0));
                            if found {
                                let j = choose|j: int| 0 <= j < words.len() && #[trigger] words[j].0 == target.0;
                                lemma_full_fits_eq(target.0, words[j].0);
                            }
                            if has_match(words, target.0) {
                                let j = choose|j: int| 0 <= j < words.len() && fits(target.0, #[trigger] words[j].0);
                                lemma_full_fits_eq(target.0, words[j].0);
                            }
                        }
                        found
                    } else {
                        let m = self.matches(target);
                        proof {
                            lemma_filter_empty(words, target.0);
                        }
                        m.len() > 0
                    };
                    let ghost mid_hits = hit_entries(self.hit_cache);
                    hit_cache_put(&mut self.hit_cache, target.0, status);
                    proof {
                        self.lemma_hit_cache_shrunk(mid_hits.insert(target.0, status));
                    }
                    status
                },
            };
            if !status {
                return false;
            }
            k += 1;
        }
        true
    }

    /// Adds one word, read as `new` reads its entries, and rebuilds the
    /// derived structures.
    pub fn add_str(&mut self, word: &str) -> (r: Result<(), WordError>)
        requires
            old(self).wf(),
        ensures
            final(self).wf(),
            words_full(old(self).words()) ==> words_full(final(self).words()),
            match dict_parse(word@) {
                Ok(w) => r is Ok && final(self).words().to_multiset() == old(self).words().to_multiset().insert(w),
                Err(e) => r == Err::<(), WordError>(e) && final(self).words() == old(self).words(),
            },
    {
        let w = match Word::from_str(word) {
            Ok(w) => w,
            Err(e) => {
                return Err(e);
            },
        };
        if !w.is_full() {
            return Err(WordError::Incomplete);
        }
        let mut word_list: Vec<Word> = Vec::new();
        let mut k: usize = 0;
        while k < self.word_list.len()
            invariant
                0 <= k <= self.words().len(),
                word_list@ == self.words().take(k as int),
            decreases self.words().len() - k,
        {
            word_list.push(self.word_list[k]);
            assert(self.words().take(k as int).push(self.words()[k as int]) =~= self.words().take(k as int + 1));
            k += 1;
        }
        assert(self.words().take(self.words().len() as int) =~= self.words());
        let ghost before = word_list@;
        word_list.push(w);
        proof {
            assert forall|j: int| 0 <= j < word_list@.len() implies (#[trigger] word_list@[j]).wf() && (words_full(self.words()) ==> full_spec(word_list@[j].0)) by {
                if j < before.len() {
                    assert(word_list@[j] == before[j]);
                }
            }
            vstd::seq_lib::to_multiset_build(before, w);
        }
        let ghost unsorted = word_list@;
        sort_words(&mut word_list);
        proof {
            lemma_multiset_full(unsorted, word_list@);
        }
        *self = Self::init(word_list);
        Ok(())
    }
}

/// Sorting keeps the words, their well-formedness and their fullness.
proof fn lemma_multiset_full(a: Seq<Word>, b: Seq<Word>)
    requires
        words_wf(a),
        a.to_multiset() == b.to_multiset(),
    ensures
        words_wf(b),
        words_full(a) ==> words_full(b),
{
    broadcast use vstd::seq_lib::to_multiset_contains;

    assert forall|k: int| 0 <= k < b.len() implies (#[trigger] b[k]).wf() && (words_full(a) ==> full_spec(b[k].0)) by {
        assert(b.contains(b[k]));
        assert(b.to_multiset().count(b[k]) > 0);
        assert(a.contains(b[k]));
    }
}

/// Whether no word has a blank.
fn all_words_full(v: &Vec<Word>) -> (r: bool)
    requires
        words_wf(v@),
    ensures
        r == words_full(v@),
{
    let mut k: usize = 0;
    while k < v.len()
        invariant
            words_wf(v@),
            0 <= k <= v@.len(),
            forall|j: int| 0 <= j < k ==> full_spec((#[trigger] v@[j]).0),
        decreases v@.len() - k,
    {
        if !v[k].is_full() {
            return false;
        }
        k += 1;
    }
    true
}

/// Relies on `slice::sort_unstable_by_key`: afterwards the words are in
/// ascending order of their packed values, and are the same words.
#[verifier::external_body]
fn sort_words(v: &mut Vec<Word>)
    ensures
        sorted_words(final(v)@),
        final(v)@.to_multiset() == old(v)@.to_multiset(),
{
    v.sort_unstable_by_key(|w| w.0)
}

} // verus!
