//! The word square grid: five rows and five columns kept consistent.
//!
//! Slots `0..5` are the rows, top to bottom; slots `5..10` are the columns,
//! left to right. The letter of row `i` at position `j` is also the letter
//! of column `j` at position `i`.

use vstd::prelude::*;
use crate::words::{
    after, char_of, enc_char, field, field_ok, fits, full_spec, lemma_field_bound,
    lemma_same_fields, lemma_set_field, lemma_text_of_encode, encode, present, push_char,
    set_bits, set_fld, shift, text, valid_char, valid_pattern, word_ok, Word,
};

verus! {

broadcast use vstd::array::group_array_axioms;

/// Index of a slot within its half: the row number or the column number.
pub open spec fn half(p: int) -> int {
    if p < 5 {
        p
    } else {
        p - 5
    }
}

/// The two slots are one a row and the other a column.
pub open spec fn crossing(p: int, q: int) -> bool {
    (p < 5) != (q < 5)
}

/// Every row agrees with every column at the cell they share.
pub open spec fn consistent(g: Seq<u32>) -> bool {
    forall|i: int, j: int|
        0 <= i < 5 && 0 <= j < 5 ==> #[trigger] field(g[i], j) == #[trigger] field(g[5 + j], i)
}

/// Ten well-formed slots that agree at every cell.
pub open spec fn grid_ok(g: Seq<u32>) -> bool {
    &&& g.len() == 10
    &&& forall|p: int| 0 <= p < 10 ==> word_ok(#[trigger] g[p])
    &&& consistent(g)
}

/// All ten slots are full.
pub open spec fn grid_full(g: Seq<u32>) -> bool {
    forall|p: int| 0 <= p < 10 ==> full_spec(#[trigger] g[p])
}

/// All ten slots are empty.
pub open spec fn grid_empty(g: Seq<u32>) -> bool {
    forall|p: int| 0 <= p < 10 ==> #[trigger] g[p] == 0
}

/// Two different slots hold the same full word.
pub open spec fn grid_double(g: Seq<u32>) -> bool {
    exists|p: int, q: int| 0 <= p < q < 10 && full_spec(#[trigger] g[p]) && g[p] == #[trigger] g[q]
}

/// The first row is lexically after the first column.
pub open spec fn grid_transposed(g: Seq<u32>) -> bool {
    after(g[0], g[5])
}

/// The grid after word `w` is written to slot `p`: the slot takes `w`, and
/// each crossing slot takes the matching letter of `w` at the shared cell.
pub open spec fn place(g: Seq<u32>, p: int, w: u32) -> Seq<u32> {
    Seq::new(
        10,
        |q: int|
            if q == p {
                w
            } else if crossing(p, q) {
                set_fld(g[q], shift(half(p)), field(w, half(q)))
            } else {
                g[q]
            },
    )
}

/// The grid after the cell at row `i`, column `j` is set to field `f`.
pub open spec fn set_cell(g: Seq<u32>, i: int, j: int, f: u32) -> Seq<u32> {
    g.update(i, set_fld(g[i], shift(j), f)).update(5 + j, set_fld(g[5 + j], shift(i), f))
}

/// The rows `0..n` as text, separated by newlines.
pub open spec fn rows_text(g: Seq<u32>, n: int) -> Seq<char>
    decreases n,
{
    if n <= 0 {
        Seq::empty()
    } else if n == 1 {
        text(g[0])
    } else {
        rows_text(g, n - 1) + seq!['\n'] + text(g[n - 1])
    }
}

/// The grid's five rows as text, separated by newlines.
pub open spec fn grid_text(g: Seq<u32>) -> Seq<char> {
    rows_text(g, 5)
}

/// Writing a well-formed word to a consistent grid keeps it consistent.
pub(crate) proof fn lemma_place_ok(g: Seq<u32>, p: int, w: u32)
    requires
        grid_ok(g),
        0 <= p < 10,
        word_ok(w),
    ensures
        grid_ok(place(g, p, w)),
        forall|q: int, k: int|
            0 <= q < 10 && 0 <= k < 5 && crossing(p, q) ==> #[trigger] field(place(g, p, w)[q], k)
                == if k == half(p) {
                field(w, half(q))
            } else {
                field(g[q], k)
            },
{
    let h = place(g, p, w);
    lemma_field_bound(w);
    assert forall|q: int| 0 <= q < 10 && crossing(p, q) implies forall|k: int|
        0 <= k < 5 ==> #[trigger] field(h[q], k) == if k == half(p) {
            field(w, half(q))
        } else {
            field(g[q], k)
        } by {
        lemma_set_field(g[q], half(p), field(w, half(q)));
    }
    assert forall|q: int| 0 <= q < 10 implies word_ok(#[trigger] h[q]) by {
        if q != p && crossing(p, q) {
            lemma_set_field(g[q], half(p), field(w, half(q)));
            assert forall|k: int| 0 <= k < 5 implies field_ok(#[trigger] field(h[q], k)) by {
                if k == half(p) {
                    assert(field_ok(field(w, half(q))));
                } else {
                    assert(field_ok(field(g[q], k)));
                }
            }
        }
    }
    assert forall|i: int, j: int| 0 <= i < 5 && 0 <= j < 5 implies #[trigger] field(h[i], j)
        == #[trigger] field(h[5 + j], i) by {
        assert(field(g[i], j) == field(g[5 + j], i));
        if p < 5 {
            lemma_set_field(g[5 + j], p, field(w, j));
        } else {
            lemma_set_field(g[i], p - 5, field(w, i));
        }
    }
}

/// Writing back the word that a slot held before undoes a write to it.
pub(crate) proof fn lemma_place_restore(g: Seq<u32>, p: int, w: u32)
    requires
        grid_ok(g),
        0 <= p < 10,
        word_ok(w),
    ensures
        place(place(g, p, w), p, g[p]) == g,
{
    let h = place(g, p, w);
    lemma_place_ok(g, p, w);
    lemma_place_ok(h, p, g[p]);
    let r = place(h, p, g[p]);
    assert forall|q: int| 0 <= q < 10 implies #[trigger] r[q] == g[q] by {
        if q != p && crossing(p, q) {
            assert forall|k: int| 0 <= k < 5 implies #[trigger] field(r[q], k) == field(g[q], k) by {
                if k == half(p) {
                    if p < 5 {
                        assert(field(g[p], q - 5) == field(g[5 + (q - 5)], p));
                    } else {
                        assert(field(g[q], p - 5) == field(g[5 + (p - 5)], q));
                    }
                }
            }
            lemma_same_fields(r[q], g[q]);
        }
    }
    assert(r =~= g);
}

/// In a consistent grid, a letter of a row is never contradicted by the
/// column that crosses it, whatever sequence of writes built the grid.
pub proof fn lemma_grid_consistent(s: Square)
    requires
        s.wf(),
    ensures
        forall|i: int, j: int|
            0 <= i < 5 && 0 <= j < 5 && present(#[trigger] field(s@[i], j)) && present(
                #[trigger] field(s@[5 + j], i),
            ) ==> field(s@[i], j) == field(s@[5 + j], i),
{
}

/// A word square in progress.
#[derive(Debug, Clone, Copy, PartialEq, Eq)]
pub struct Square([u32; 10]);

impl View for Square {
    type V = Seq<u32>;

    closed spec fn view(&self) -> Seq<u32> {
        self.0@
    }
}

impl Default for Square {
    /// The grid with all ten slots empty.
    fn default() -> (r: Self)
        ensures
            r.wf(),
            grid_empty(r@),
    {
        let r = Square([0u32; 10]);
        proof {
            assert forall|p: int, i: int| 0 <= p < 10 implies #[trigger] field(r@[p], i) == 0 by {
                assert(r@[p] == 0);
                crate::words::lemma_fld_zero(shift(i));
            }
        }
        r
    }
}

impl Square {
    /// Ten well-formed slots that agree at every cell.
    pub open spec fn wf(&self) -> bool {
        grid_ok(self@)
    }

    /// The word in slot `pos`.
    pub fn get_pos(&self, pos: usize) -> (r: Word)
        requires
            pos < 10,
        ensures
            r.0 == self@[pos as int],
    {
        Word(self.0[pos])
    }

    /// Writes `w` to slot `pos`, and each of its letters to the crossing
    /// slot at the shared cell. Earlier contents there are overwritten.
    pub fn set_pos(&mut self, pos: usize, w: Word)
        requires
            old(self).wf(),
            pos < 10,
            w.wf(),
        ensures
            final(self)@ == place(old(self)@, pos as int, w.0),
            final(self).wf(),
    {
        let ghost g = self@;
        proof {
            lemma_place_ok(g, pos as int, w.0);
            lemma_field_bound(w.0);
        }
        self.0[pos] = w.0;
        let (xoffset, yoffset): (usize, usize) = if pos < 5 {
            (0, 5)
        } else {
            (5, 0)
        };
        let k = pos - xoffset;
        let mut i: usize = 0;
        while i < 5
            invariant
                0 <= i <= 5,
                pos < 10,
                k < 5,
                k == half(pos as int),
                yoffset == if pos < 5 { 5usize } else { 0usize },
                self@.len() == 10,
                forall|q: int|
                    0 <= q < 10 ==> #[trigger] self@[q] == if q == pos {
                        w.0
                    } else if crossing(pos as int, q) && half(q) < i {
                        place(g, pos as int, w.0)[q]
                    } else {
                        g[q]
                    },
            decreases 5 - i,
        {
            let x = w.get_bits(i) as u32;
            proof {
                lemma_field_bound(w.0);
            }
            let t = self.0[i + yoffset];
            self.0[i + yoffset] = set_bits(t, k, x);
            i += 1;
        }
        assert(self@ =~= place(g, pos as int, w.0));
    }

    /// The five rows as text, separated by newlines, with no newline at the
    /// end.
    pub fn as_string(&self) -> (r: String)
        requires
            self.wf(),
        ensures
            r@ == grid_text(self@),
    {
        let mut result = String::new();
        let mut i: usize = 0;
        while i < 5
            invariant
                self.wf(),
                0 <= i <= 5,
                result@ == rows_text(self@, i as int),
            decreases 5 - i,
        {
            if i > 0 {
                push_char(&mut result, '\n');
            }
            let cs = self.get_pos(i).chars();
            let ghost before = result@;
            let mut j: usize = 0;
            while j < 5
                invariant
                    0 <= j <= 5,
                    cs@.len() == 5,
                    result@ == before + cs@.take(j as int),
                decreases 5 - j,
            {
                push_char(&mut result, cs[j]);
                assert(cs@.take(j as int).push(cs@[j as int]) =~= cs@.take(j as int + 1));
                j += 1;
            }
            assert(cs@.take(5) =~= cs@);
            proof {
                if i == 0 {
                    assert(result@ =~= rows_text(self@, 1));
                } else {
                    assert(result@ =~= rows_text(self@, i as int + 1));
                }
            }
            i += 1;
        }
        result
    }

    /// The five rows as text, top to bottom.
    pub fn render_rows(&self) -> (r: Vec<String>)
        requires
            self.wf(),
        ensures
            r@.len() == 5,
            forall|i: int| 0 <= i < 5 ==> (#[trigger] r@[i])@ == text(self@[i]),
    {
        let mut r: Vec<String> = Vec::new();
        let mut i: usize = 0;
        while i < 5
            invariant
                self.wf(),
                0 <= i <= 5,
                r@.len() == i,
                forall|j: int| 0 <= j < i ==> (#[trigger] r@[j])@ == text(self@[j]),
            decreases 5 - i,
        {
            r.push(self.get_pos(i).as_string());
            i += 1;
        }
        r
    }

    /// All ten slots are full.
    pub fn is_full(&self) -> (r: bool)
        requires
            self.wf(),
        ensures
            r == grid_full(self@),
    {
        let mut p: usize = 0;
        while p < 5
            invariant
                self.wf(),
                0 <= p <= 5,
                forall|q: int| 0 <= q < p ==> full_spec(#[trigger] self@[q]),
            decreases 5 - p,
        {
            if !self.get_pos(p).is_full() {
                return false;
            }
            p += 1;
        }
        proof {
            assert forall|q: int| 0 <= q < 10 implies full_spec(#[trigger] self@[q]) by {
                if q >= 5 {
                    assert forall|i: int| 0 <= i < 5 implies present(
                        #[trigger] field(self@[q], i),
                    ) by {
                        assert(full_spec(self@[i]));
                        assert(field(self@[i], q - 5) == field(self@[5 + (q - 5)], i));
                    }
                }
            }
        }
        true
    }

    /// Some full word stands in two different slots.
    pub fn has_double(&self) -> (r: bool)
        ensures
            r == grid_double(self@),
    {
        let mut p: usize = 0;
        while p < 10
            invariant
                0 <= p <= 10,
                self@.len() == 10,
                forall|a: int, b: int|
                    0 <= a < p && a < b < 10 ==> !(full_spec(#[trigger] self@[a]) && self@[a]
                        == #[trigger] self@[b]),
            decreases 10 - p,
        {
            let wp = self.get_pos(p);
            if wp.is_full() {
                let mut q: usize = p + 1;
                while q < 10
                    invariant
                        p < q <= 10,
                        self@.len() == 10,
                        wp.0 == self@[p as int],
                        full_spec(wp.0),
                        forall|b: int| p < b < q ==> self@[p as int] != #[trigger] self@[b],
                    decreases 10 - q,
                {
                    if self.0[q] == wp.0 {
                        assert(full_spec(self@[p as int]) && self@[p as int] == self@[q as int]);
                        return true;
                    }
                    q += 1;
                }
            }
            p += 1;
        }
        false
    }

    /// The first row is lexically after the first column.
    pub fn is_transposed(&self) -> (r: bool)
        ensures
            r == grid_transposed(self@),
    {
        let across = self.get_pos(0);
        let down = self.get_pos(5);
        across.is_transposed(down)
    }

    /// The grid whose rows read `rows`.
    pub fn from_rows(rows: [&str; 5]) -> (r: Self)
        requires
            forall|i: int| 0 <= i < 5 ==> valid_pattern(#[trigger] rows@[i]@),
        ensures
            r.wf(),
            forall|i: int| 0 <= i < 5 ==> #[trigger] r@[i] == encode(rows@[i]@),
    {
        let mut s = Square::default();
        proof {
            assert forall|a: int, b: int| 0 <= a < 5 && 0 <= b < 5 implies #[trigger] field(s@[a], b)
                == 0 by {
                assert(s@[a] == 0);
                crate::words::lemma_fld_zero(shift(b));
            }
        }
        let mut i: usize = 0;
        while i < 5
            invariant
                0 <= i <= 5,
                s.wf(),
                forall|k: int| 0 <= k < 5 ==> valid_pattern(#[trigger] rows@[k]@),
                forall|a: int, b: int|
                    0 <= a < 5 && 0 <= b < 5 ==> #[trigger] field(s@[a], b) == if a < i {
                        field(encode(rows@[a]@), b)
                    } else {
                        0
                    },
            decreases 5 - i,
        {
            let w = match Word::from_str(rows[i]) {
                Ok(w) => w,
                Err(_) => {
                    proof {
                        assert(valid_pattern(rows@[i as int]@));
                    }
                    return s;
                },
            };
            proof {
                lemma_text_of_encode(rows@[i as int]@);
            }
            let mut j: usize = 0;
            while j < 5
                invariant
                    0 <= i < 5,
                    0 <= j <= 5,
                    s.wf(),
                    w.wf(),
                    w.0 == encode(rows@[i as int]@),
                    forall|a: int, b: int|
                        0 <= a < 5 && 0 <= b < 5 ==> #[trigger] field(s@[a], b) == if a < i || (a
                            == i && b < j) {
                            field(encode(rows@[a]@), b)
                        } else {
                            0
                        },
                decreases 5 - j,
            {
                let f = w.get_bits(j);
                s.put_cell(i, j, f as u32);
                j += 1;
            }
            i += 1;
        }
        proof {
            assert forall|a: int| 0 <= a < 5 implies #[trigger] s@[a] == encode(rows@[a]@) by {
                lemma_text_of_encode(rows@[a]@);
                assert forall|b: int| 0 <= b < 5 implies #[trigger] field(s@[a], b) == field(
                    encode(rows@[a]@),
                    b,
                ) by {}
                lemma_same_fields(s@[a], encode(rows@[a]@));
            }
        }
        s
    }

    /// Sets the cell at row `i`, column `j` to field `f`, in the row and in
    /// the column.
    fn put_cell(&mut self, i: usize, j: usize, f: u32)
        requires
            old(self).wf(),
            i < 5,
            j < 5,
            field_ok(f),
        ensures
            final(self)@ == set_cell(old(self)@, i as int, j as int, f),
            final(self).wf(),
            forall|a: int, b: int|
                0 <= a < 5 && 0 <= b < 5 ==> #[trigger] field(final(self)@[a], b) == if a == i
                    && b == j {
                    f
                } else {
                    field(old(self)@[a], b)
                },
    {
        let ghost g = self@;
        let r = self.0[i];
        self.0[i] = set_bits(r, j, f);
        let c = self.0[5 + j];
        self.0[5 + j] = set_bits(c, i, f);
        proof {
            let h = self@;
            assert(h =~= set_cell(g, i as int, j as int, f));
            lemma_set_field(g[i as int], j as int, f);
            lemma_set_field(g[5 + j], i as int, f);
            assert forall|q: int| 0 <= q < 10 implies word_ok(#[trigger] h[q]) by {
                if q == i || q == 5 + j {
                    assert forall|k: int| 0 <= k < 5 implies field_ok(#[trigger] field(h[q], k)) by {
                        assert(field_ok(field(g[q], k)));
                    }
                }
            }
            assert forall|a: int, b: int| 0 <= a < 5 && 0 <= b < 5 implies #[trigger] field(h[a], b)
                == #[trigger] field(h[5 + b], a) by {
                assert(field(g[a], b) == field(g[5 + b], a));
            }
        }
    }

    /// Sets one cell, named by a slot and a position in it, to a letter or
    /// to blank (`.`); the crossing slot is updated too.
    pub fn set_coord(&mut self, pos: usize, offset: usize, value: char)
        requires
            old(self).wf(),
            pos < 10,
            offset < 5,
            valid_char(value),
        ensures
            final(self).wf(),
            final(self)@ == if pos < 5 {
                set_cell(old(self)@, pos as int, offset as int, enc_char(value))
            } else {
                set_cell(old(self)@, offset as int, pos - 5, enc_char(value))
            },
    {
        let bit_v: u32 = if value == '.' {
            0
        } else {
            0x20 + (value as u32 - 97)
        };
        proof {
            crate::words::lemma_char_round_trip(value);
        }
        if pos < 5 {
            self.put_cell(pos, offset, bit_v);
        } else {
            self.put_cell(offset, pos - 5, bit_v);
        }
    }

    /// The letter code (`'a' == 0`) at one cell, or `None` for a blank.
    fn get_coord(&self, pos: usize, offset: usize) -> (r: Option<u8>)
        requires
            pos < 10,
            offset < 5,
        ensures
            r == if present(field(self@[pos as int], offset as int)) {
                Some((field(self@[pos as int], offset as int) - 32) as u8)
            } else {
                None::<u8>
            },
    {
        let v = Word(self.0[pos]).get_bits(offset);
        if v >= 0x20 {
            Some(v - 0x20)
        } else {
            None
        }
    }

    /// The character at one cell, `.` for a blank.
    pub fn get_char(&self, pos: usize, offset: usize) -> (r: char)
        requires
            self.wf(),
            pos < 10,
            offset < 5,
        ensures
            r == char_of(field(self@[pos as int], offset as int)),
    {
        proof {
            assert(field_ok(field(self@[pos as int], offset as int)));
        }
        match self.get_coord(pos, offset) {
            Some(v) => (v + 97u8) as char,
            None => '.',
        }
    }

    /// The word could stand in slot `pos`: they agree wherever both have a
    /// letter. Crossing slots are not looked at.
    pub fn is_fit(&self, pos: usize, word: Word) -> (r: bool)
        requires
            pos < 10,
        ensures
            r == fits(self@[pos as int], word.0),
    {
        Word(self.0[pos]).is_fit(word)
    }

    /// Every row agrees with every column at the cell they share.
    pub fn fsck_square(&self) -> (r: bool)
        ensures
            r == consistent(self@),
    {
        let mut i: usize = 0;
        while i < 5
            invariant
                0 <= i <= 5,
                self@.len() == 10,
                forall|a: int, b: int|
                    0 <= a < i && 0 <= b < 5 ==> #[trigger] field(self@[a], b) == #[trigger] field(
                        self@[5 + b],
                        a,
                    ),
            decreases 5 - i,
        {
            let mut j: usize = 0;
            while j < 5
                invariant
                    0 <= i < 5,
                    0 <= j <= 5,
                    self@.len() == 10,
                    forall|a: int, b: int|
                        0 <= a < 5 && 0 <= b < 5 && (a < i || (a == i && b < j))
                            ==> #[trigger] field(self@[a], b) == #[trigger] field(self@[5 + b], a),
                decreases 5 - j,
            {
                let x = Word(self.0[i]).get_bits(j);
                let y = Word(self.0[5 + j]).get_bits(i);
                if x != y {
                    return false;
                }
                j += 1;
            }
            i += 1;
        }
        true
    }
}

} // verus!
