//! Packed five-letter words.
//!
//! A word is held in the low 30 bits of a `u32`, as five six-bit fields with
//! the first letter in the most significant one. A field is either `0`
//! (no letter known there) or `0x20 | c`, where `c` is the letter's index in
//! the alphabet (`'a' == 0`).

use vstd::prelude::*;

verus! {

/// Bit pattern of a field that holds a letter.
pub const PRESENT: u32 = 0x20;

/// Mask selecting one six-bit field.
pub const FIELD_MASK: u32 = 0x3f;

/// Mask of the five presence bits.
pub const FULL_MASK: u32 = 0x2082_0820;

/// Shift that brings field `i` down to the low bits.
pub open spec fn shift(i: int) -> u32 {
    (24 - 6 * i) as u32
}

/// The six-bit field of `v` that starts `sh` bits up.
pub open spec fn fld(v: u32, sh: u32) -> u32 {
    (v >> sh) & 0x3f
}

/// `v` with the field `sh` bits up replaced by `x`.
pub open spec fn set_fld(v: u32, sh: u32, x: u32) -> u32 {
    (v & !(0x3fu32 << sh)) | (x << sh)
}

/// Field `i` (0 for the first letter) of the packed value `v`.
pub open spec fn field(v: u32, i: int) -> u32 {
    fld(v, shift(i))
}

/// A field holds a letter.
pub open spec fn present(f: u32) -> bool {
    f >= PRESENT
}

/// A field is blank or holds one of the 26 letters.
pub open spec fn field_ok(f: u32) -> bool {
    f == 0 || (PRESENT <= f && f < PRESENT + 26)
}

/// Every field of `v` has a letter.
pub open spec fn full_spec(v: u32) -> bool {
    forall|i: int| 0 <= i < 5 ==> present(#[trigger] field(v, i))
}

/// No field of `v` has a letter.
pub open spec fn empty_spec(v: u32) -> bool {
    forall|i: int| 0 <= i < 5 ==> #[trigger] field(v, i) == 0
}

/// Two packed words agree wherever both have a letter.
pub open spec fn fits(a: u32, b: u32) -> bool {
    forall|i: int|
        0 <= i < 5 ==> (present(#[trigger] field(a, i)) && present(field(b, i)) ==> field(a, i)
            == field(b, i))
}

/// The field that encodes one character of a pattern.
pub open spec fn enc_char(c: char) -> u32 {
    if c == '.' {
        0
    } else {
        (PRESENT + (c as u32 - 97)) as u32
    }
}

/// The character that a well-formed field stands for.
pub open spec fn char_of(f: u32) -> char {
    if f == 0 {
        '.'
    } else {
        ((f - PRESENT) + 97) as char
    }
}

/// A character allowed in a pattern: a lowercase ASCII letter or `.`.
pub open spec fn valid_char(c: char) -> bool {
    c == '.' || (97 <= c as u32 && c as u32 <= 122)
}

/// A lowercase ASCII letter.
pub open spec fn letter_char(c: char) -> bool {
    97 <= c as u32 && c as u32 <= 122
}

/// Every character of `s` is allowed in a pattern.
pub open spec fn valid_chars(s: Seq<char>) -> bool {
    forall|i: int| 0 <= i < s.len() ==> valid_char(#[trigger] s[i])
}

/// A five-character pattern over `a..z` and `.`.
pub open spec fn valid_pattern(s: Seq<char>) -> bool {
    s.len() == 5 && valid_chars(s)
}

/// Five fields packed into one value, first field highest.
pub open spec fn pack(e0: u32, e1: u32, e2: u32, e3: u32, e4: u32) -> u32 {
    (e0 << 24u32) | (e1 << 18u32) | (e2 << 12u32) | (e3 << 6u32) | e4
}

/// The packed value of a valid pattern.
pub open spec fn encode(s: Seq<char>) -> u32 {
    pack(enc_char(s[0]), enc_char(s[1]), enc_char(s[2]), enc_char(s[3]), enc_char(s[4]))
}

/// The text of a packed word: a letter or `.` for each field.
pub open spec fn text(v: u32) -> Seq<char> {
    Seq::new(5, |i: int| char_of(field(v, i)))
}

/// Lexical comparison of `a` against `d` from field `i` on, over the
/// fields where `d` has a letter, stopping at the first blank of `d`:
/// true when `a` is found to be greater.
pub open spec fn after_from(a: u32, d: u32, i: int) -> bool
    decreases 5 - i,
{
    if i >= 5 || !present(field(d, i)) {
        false
    } else if field(a, i) < field(d, i) {
        false
    } else if field(a, i) > field(d, i) {
        true
    } else {
        after_from(a, d, i + 1)
    }
}

/// `a` is lexically after `d`, judged on the leading letters of `d`.
pub open spec fn after(a: u32, d: u32) -> bool {
    after_from(a, d, 0)
}

/// The fields of a packed value that are blank or hold a letter, and
/// nothing above the fifth field.
pub open spec fn word_ok(v: u32) -> bool {
    v < 0x4000_0000 && forall|i: int| 0 <= i < 5 ==> field_ok(#[trigger] field(v, i))
}

// ---------------------------------------------------------------------------
// Bit-level facts.
/// A field is six bits.
pub(crate) proof fn lemma_fld_bound(v: u32, sh: u32)
    by (bit_vector)
    ensures
        fld(v, sh) < 64,
{
}

/// Every field of zero is blank.
pub(crate) proof fn lemma_fld_zero(sh: u32)
    by (bit_vector)
    ensures
        fld(0, sh) == 0,
{
}

/// Replacing one field leaves the other fields, and the bits above them,
/// as they were.
pub(crate) proof fn lemma_set_fld(t: u32, x: u32, s1: u32, s2: u32)
    by (bit_vector)
    requires
        x < 64,
        s1 <= 24,
        s2 <= 24,
        s1 % 6 == 0,
        s2 % 6 == 0,
    ensures
        fld(set_fld(t, s1, x), s2) == if s1 == s2 {
            x
        } else {
            fld(t, s2)
        },
        t < 0x4000_0000 ==> set_fld(t, s1, x) < 0x4000_0000,
{
}

/// Values within 30 bits that agree on all five fields are equal.
pub(crate) proof fn lemma_fields_determine(a: u32, b: u32)
    by (bit_vector)
    requires
        a < 0x4000_0000,
        b < 0x4000_0000,
        fld(a, 0) == fld(b, 0),
        fld(a, 6) == fld(b, 6),
        fld(a, 12) == fld(b, 12),
        fld(a, 18) == fld(b, 18),
        fld(a, 24) == fld(b, 24),
    ensures
        a == b,
{
}

/// Packing puts each field where `fld` reads it back.
pub(crate) proof fn lemma_pack_fields(e0: u32, e1: u32, e2: u32, e3: u32, e4: u32)
    by (bit_vector)
    requires
        e0 < 64,
        e1 < 64,
        e2 < 64,
        e3 < 64,
        e4 < 64,
    ensures
        fld(pack(e0, e1, e2, e3, e4), 24) == e0,
        fld(pack(e0, e1, e2, e3, e4), 18) == e1,
        fld(pack(e0, e1, e2, e3, e4), 12) == e2,
        fld(pack(e0, e1, e2, e3, e4), 6) == e3,
        fld(pack(e0, e1, e2, e3, e4), 0) == e4,
        pack(e0, e1, e2, e3, e4) < 0x4000_0000,
{
}

/// The presence mask finds a letter in every field, or not.
pub(crate) proof fn lemma_full_mask(v: u32)
    by (bit_vector)
    ensures
        (v & 0x2082_0820 == 0x2082_0820) == (fld(v, 24) >= 32 && fld(v, 18) >= 32 && fld(v, 12)
            >= 32 && fld(v, 6) >= 32 && fld(v, 0) >= 32),
{
}

/// A value within 30 bits is zero exactly when all its fields are.
pub(crate) proof fn lemma_zero(v: u32)
    by (bit_vector)
    requires
        v < 0x4000_0000,
    ensures
        (v == 0) == (fld(v, 24) == 0 && fld(v, 18) == 0 && fld(v, 12) == 0 && fld(v, 6) == 0
            && fld(v, 0) == 0),
{
}

/// Each field of a packed value is below 64.
pub(crate) proof fn lemma_field_bound(v: u32)
    ensures
        forall|i: int| #[trigger] field(v, i) < 64,
{
    assert forall|i: int| #[trigger] field(v, i) < 64 by {
        lemma_fld_bound(v, shift(i));
    }
}

/// Two values within 30 bits are equal when all their fields are.
pub(crate) proof fn lemma_same_fields(a: u32, b: u32)
    requires
        a < 0x4000_0000,
        b < 0x4000_0000,
        forall|i: int| 0 <= i < 5 ==> #[trigger] field(a, i) == field(b, i),
    ensures
        a == b,
{
    assert(field(a, 0) == field(b, 0));
    assert(field(a, 1) == field(b, 1));
    assert(field(a, 2) == field(b, 2));
    assert(field(a, 3) == field(b, 3));
    assert(field(a, 4) == field(b, 4));
    lemma_fields_determine(a, b);
}

/// Replacing field `i` changes that field alone.
pub(crate) proof fn lemma_set_field(t: u32, i: int, x: u32)
    requires
        0 <= i < 5,
        x < 64,
    ensures
        forall|j: int|
            0 <= j < 5 ==> #[trigger] field(set_fld(t, shift(i), x), j) == if j == i {
                x
            } else {
                field(t, j)
            },
        t < 0x4000_0000 ==> set_fld(t, shift(i), x) < 0x4000_0000,
{
    assert forall|j: int| 0 <= j < 5 implies #[trigger] field(set_fld(t, shift(i), x), j) == if j
        == i {
        x
    } else {
        field(t, j)
    } by {
        lemma_set_fld(t, x, shift(i), shift(j));
    }
    lemma_set_fld(t, x, shift(i), shift(i));
}

/// The fields of an encoded pattern are those of its characters.
pub(crate) proof fn lemma_encode_fields(s: Seq<char>)
    requires
        valid_pattern(s),
    ensures
        forall|i: int| 0 <= i < 5 ==> #[trigger] field(encode(s), i) == enc_char(s[i]),
        word_ok(encode(s)),
{
    assert(valid_char(s[0]) && valid_char(s[1]) && valid_char(s[2]) && valid_char(s[3])
        && valid_char(s[4]));
    lemma_pack_fields(
        enc_char(s[0]),
        enc_char(s[1]),
        enc_char(s[2]),
        enc_char(s[3]),
        enc_char(s[4]),
    );
    assert(field(encode(s), 0) == enc_char(s[0]));
    assert(field(encode(s), 1) == enc_char(s[1]));
    assert(field(encode(s), 2) == enc_char(s[2]));
    assert(field(encode(s), 3) == enc_char(s[3]));
    assert(field(encode(s), 4) == enc_char(s[4]));
}

/// A valid character survives encoding and decoding.
pub(crate) proof fn lemma_char_round_trip(c: char)
    requires
        valid_char(c),
    ensures
        char_of(enc_char(c)) == c,
        field_ok(enc_char(c)),
{
    if c != '.' {
        let n = c as u32;
        assert(enc_char(c) == 32 + (n - 97));
        assert(char_of(enc_char(c)) == (n as int) as char);
        assert((c as u32) as char == c);
    }
}

/// Encoding a valid pattern and reading its text back gives the pattern.
pub(crate) proof fn lemma_text_of_encode(s: Seq<char>)
    requires
        valid_pattern(s),
    ensures
        text(encode(s)) == s,
        word_ok(encode(s)),
{
    lemma_encode_fields(s);
    assert forall|i: int| 0 <= i < 5 implies #[trigger] text(encode(s))[i] == s[i] by {
        assert(valid_char(s[i]));
        lemma_char_round_trip(s[i]);
    }
    assert(text(encode(s)) =~= s);
}

/// Reading the text of a well-formed word and encoding it gives the word.
pub proof fn lemma_encode_of_text(v: u32)
    requires
        word_ok(v),
    ensures
        valid_pattern(text(v)),
        encode(text(v)) == v,
{
    let s = text(v);
    assert forall|i: int| 0 <= i < 5 implies valid_char(#[trigger] s[i]) && enc_char(s[i])
        == field(v, i) by {
        assert(field_ok(field(v, i)));
    }
    lemma_encode_fields(s);
    lemma_same_fields(encode(s), v);
}

/// Parsing a valid pattern and writing the word back as text gives the
/// pattern.
pub proof fn lemma_round_trip(s: Seq<char>)
    requires
        valid_pattern(s),
    ensures
        parse_spec(s) matches Ok(w) && w.wf() && w.text() == s,
{
    lemma_text_of_encode(s);
}

/// Compatibility of two words does not depend on their order.
pub proof fn lemma_fits_symmetric(a: Word, b: Word)
    ensures
        fits(a.0, b.0) == fits(b.0, a.0),
{
}

/// A word with all five letters is never empty; one with none is never
/// full.
pub proof fn lemma_full_not_empty(a: Word)
    ensures
        !(full_spec(a.0) && empty_spec(a.0)),
        empty_spec(a.0) ==> !full_spec(a.0),
{
    if full_spec(a.0) && empty_spec(a.0) {
        assert(present(field(a.0, 0)));
    }
}

/// Two full words fit exactly when they are equal.
pub proof fn lemma_full_fits_eq(a: u32, b: u32)
    requires
        word_ok(a),
        word_ok(b),
        full_spec(a),
        full_spec(b),
    ensures
        fits(a, b) <==> a == b,
{
    if fits(a, b) {
        assert forall|i: int| 0 <= i < 5 implies #[trigger] field(a, i) == field(b, i) by {
            assert(present(field(a, i)) && present(field(b, i)));
        }
        lemma_same_fields(a, b);
    }
}

// ---------------------------------------------------------------------------
/// Ways in which text fails to be a word or a pattern.
#[derive(Debug, Clone, Copy, PartialEq, Eq, Structural)]
pub enum WordError {
    /// The text is not five characters long.
    BadLength,
    /// A character is neither a lowercase ASCII letter nor `.`.
    BadChar,
    /// A dictionary word has a blank.
    Incomplete,
}

/// The outcome of parsing a pattern.
pub open spec fn parse_spec(s: Seq<char>) -> Result<Word, WordError> {
    if s.len() != 5 {
        Err(WordError::BadLength)
    } else if !valid_chars(s) {
        Err(WordError::BadChar)
    } else {
        Ok(Word(encode(s)))
    }
}

/// A packed word, possibly with blanks.
#[derive(Debug, Clone, Copy, PartialEq, Eq, Structural, PartialOrd, Ord, Hash, Default)]
pub struct Word(pub u32);

impl Word {
    /// The packed value is made of five blank-or-letter fields.
    pub open spec fn wf(self) -> bool {
        word_ok(self.0)
    }

    /// The word's text, `.` for each blank.
    pub open spec fn text(self) -> Seq<char> {
        text(self.0)
    }

    /// Parses five characters, each a lowercase ASCII letter or `.`.
    pub fn from_str(word: &str) -> (r: Result<Self, WordError>)
        ensures
            r == parse_spec(word@),
            r matches Ok(w) ==> w.wf() && w.text() == word@,
    {
        let n = word.unicode_len();
        if n != 5 {
            return Err(WordError::BadLength);
        }
        let mut result: u32 = 0;
        let mut i: usize = 0;
        proof {
            lemma_fld_bound(0, 0);
            assert forall|j: int| 0 <= j < 5 implies #[trigger] field(0u32, j) == 0 by {
                lemma_fld_zero(shift(j));
            }
        }
        while i < 5
            invariant
                0 <= i <= 5,
                word@.len() == 5,
                result < 0x4000_0000,
                forall|j: int| 0 <= j < i ==> valid_char(#[trigger] word@[j]),
                forall|j: int| 0 <= j < i ==> #[trigger] field(result, j) == enc_char(word@[j]),
                forall|j: int| i <= j < 5 ==> #[trigger] field(result, j) == 0,
            decreases 5 - i,
        {
            let c = word.get_char(i);
            if c != '.' {
                if !(c >= 'a' && c <= 'z') {
                    proof {
                        assert(!valid_char(word@[i as int]));
                    }
                    return Err(WordError::BadChar);
                }
            }
            let code: u32 = if c == '.' {
                0
            } else {
                PRESENT | (c as u32 - 97)
            };
            proof {
                if c != '.' {
                    let d = (c as u32 - 97) as u32;
                    assert(d < 26);
                    assert(PRESENT | d == PRESENT + d) by (bit_vector)
                        requires
                            d < 26,
                    ;
                }
                assert(code == enc_char(c));
                lemma_set_field(result, i as int, code);
            }
            result = set_bits(result, i, code);
            i += 1;
        }
        proof {
            lemma_encode_fields(word@);
            lemma_text_of_encode(word@);
            lemma_same_fields(result, encode(word@));
        }
        Ok(Word(result))
    }

    /// The five fields, first letter first.
    pub fn bits(self) -> (r: Vec<u8>)
        ensures
            r@.len() == 5,
            forall|i: int| 0 <= i < 5 ==> r@[i] == field(self.0, i),
    {
        let mut r: Vec<u8> = Vec::new();
        let mut i: usize = 0;
        while i < 5
            invariant
                0 <= i <= 5,
                r@.len() == i,
                forall|j: int| 0 <= j < i ==> r@[j] == field(self.0, j),
            decreases 5 - i,
        {
            let b = self.get_bits(i);
            r.push(b);
            i += 1;
        }
        r
    }

    /// Field `i` of the word.
    pub fn get_bits(self, i: usize) -> (r: u8)
        requires
            i < 5,
        ensures
            r == field(self.0, i as int),
    {
        proof {
            lemma_fld_bound(self.0, shift(i as int));
        }
        let sh: u32 = (6 * (4 - i)) as u32;
        ((self.0 >> sh) & FIELD_MASK) as u8
    }

    /// The word's characters, `.` for each blank.
    pub fn chars(self) -> (r: Vec<char>)
        requires
            self.wf(),
        ensures
            r@ == self.text(),
    {
        let mut r: Vec<char> = Vec::new();
        let mut i: usize = 0;
        while i < 5
            invariant
                self.wf(),
                0 <= i <= 5,
                r@.len() == i,
                forall|j: int| 0 <= j < i ==> r@[j] == char_of(field(self.0, j)),
            decreases 5 - i,
        {
            let b = self.get_bits(i) as u32;
            proof {
                assert(field_ok(field(self.0, i as int)));
            }
            let c: char = if b == 0 {
                '.'
            } else {
                ((b - PRESENT) as u8 + 97u8) as char
            };
            r.push(c);
            i += 1;
        }
        assert(r@ =~= self.text());
        r
    }

    /// The word's text, `.` for each blank.
    pub fn as_string(self) -> (r: String)
        requires
            self.wf(),
        ensures
            r@ == self.text(),
    {
        let cs = self.chars();
        let mut r = String::new();
        let mut i: usize = 0;
        while i < cs.len()
            invariant
                0 <= i <= cs@.len(),
                r@ == cs@.take(i as int),
            decreases cs@.len() - i,
        {
            push_char(&mut r, cs[i]);
            assert(cs@.take(i as int).push(cs@[i as int]) =~= cs@.take(i as int + 1));
            i += 1;
        }
        assert(cs@.take(cs@.len() as int) =~= cs@);
        r
    }

    /// The two words agree wherever both have a letter.
    pub fn is_fit(self, word: Self) -> (r: bool)
        ensures
            r == fits(self.0, word.0),
    {
        let mut i: usize = 0;
        while i < 5
            invariant
                0 <= i <= 5,
                forall|j: int|
                    0 <= j < i ==> (present(#[trigger] field(self.0, j)) && present(
                        field(word.0, j),
                    ) ==> field(self.0, j) == field(word.0, j)),
            decreases 5 - i,
        {
            let a = self.get_bits(i);
            let b = word.get_bits(i);
            if a >= 0x20 && b >= 0x20 && a != b {
                return false;
            }
            i += 1;
        }
        true
    }

    /// No field has a letter.
    pub fn is_empty(self) -> (r: bool)
        ensures
            r == (self.0 == 0),
            self.wf() ==> (r == empty_spec(self.0)),
    {
        proof {
            if self.wf() {
                lemma_zero(self.0);
                assert(field(self.0, 0) == fld(self.0, 24));
                assert(field(self.0, 1) == fld(self.0, 18));
                assert(field(self.0, 2) == fld(self.0, 12));
                assert(field(self.0, 3) == fld(self.0, 6));
                assert(field(self.0, 4) == fld(self.0, 0));
            }
        }
        self.0 == 0
    }

    /// Every field has a letter.
    pub fn is_full(self) -> (r: bool)
        ensures
            r == full_spec(self.0),
    {
        proof {
            lemma_full_mask(self.0);
            assert(field(self.0, 0) == fld(self.0, 24));
            assert(field(self.0, 1) == fld(self.0, 18));
            assert(field(self.0, 2) == fld(self.0, 12));
            assert(field(self.0, 3) == fld(self.0, 6));
            assert(field(self.0, 4) == fld(self.0, 0));
        }
        self.0 & FULL_MASK == FULL_MASK
    }

    /// Whether this word, read across, is lexically after `down`, judged on
    /// the leading letters of `down`.
    pub fn is_transposed(self, down: Word) -> (r: bool)
        ensures
            r == after(self.0, down.0),
    {
        let mut i: usize = 0;
        while i < 5
            invariant
                0 <= i <= 5,
                after(self.0, down.0) == after_from(self.0, down.0, i as int),
            decreases 5 - i,
        {
            let a = self.get_bits(i);
            let d = down.get_bits(i);
            if d < 0x20 {
                return false;
            }
            if a < d {
                return false;
            }
            if a > d {
                return true;
            }
            i += 1;
        }
        false
    }
}

/// `v` with field `i` replaced by `x`.
pub(crate) fn set_bits(v: u32, i: usize, x: u32) -> (r: u32)
    requires
        i < 5,
        x < 64,
    ensures
        r == set_fld(v, shift(i as int), x),
        forall|j: int|
            0 <= j < 5 ==> #[trigger] field(r, j) == if j == i as int {
                x
            } else {
                field(v, j)
            },
        v < 0x4000_0000 ==> r < 0x4000_0000,
{
    proof {
        lemma_set_field(v, i as int, x);
    }
    let sh: u32 = (6 * (4 - i)) as u32;
    (v & !(FIELD_MASK << sh)) | (x << sh)
}

/// Relies on `String::push`: the character is appended.
#[verifier::external_body]
pub(crate) fn push_char(s: &mut String, c: char)
    ensures
        final(s)@ == old(s)@.push(c),
{
    s.push(c)
}

} // verus!
