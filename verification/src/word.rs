//! Words.
//!
//! A [`Word`] is a five-letter sequence of lower-case ASCII letters;
//! raw input is case-normalised on construction.  The lexicographic
//! order defined here underlies both the dictionaries' sorting and the
//! ranking's tie-break.

use vstd::prelude::*;

verus! {

/// A lower-case ASCII letter (`a..=z`).
pub open spec fn is_lower_letter(b: u8) -> bool {
    97 <= b && b <= 122
}

/// An ASCII letter of either case.
pub open spec fn is_ascii_letter(b: u8) -> bool {
    (65 <= b && b <= 90) || (97 <= b && b <= 122)
}

/// Lower-casing of a single byte; bytes outside `A..=Z` are unchanged.
pub open spec fn lower_byte(b: u8) -> u8 {
    if 65 <= b && b <= 90 {
        (b + 32) as u8
    } else {
        b
    }
}

/// A raw input line that can become a word: exactly five ASCII letters.
pub open spec fn valid_letters(s: Seq<u8>) -> bool {
    s.len() == 5 && (forall|i: int| 0 <= i < s.len() ==> is_ascii_letter(#[trigger] s[i]))
}

/// Case-normalisation of a raw line.
pub open spec fn normalized(s: Seq<u8>) -> Seq<u8> {
    s.map_values(|b: u8| lower_byte(b))
}

/// Lexicographic order on byte sequences.
pub open spec fn lex_le(a: Seq<u8>, b: Seq<u8>) -> bool
    decreases a.len(),
{
    if a.len() == 0 {
        true
    } else if b.len() == 0 {
        false
    } else if a[0] < b[0] {
        true
    } else if a[0] > b[0] {
        false
    } else {
        lex_le(a.drop_first(), b.drop_first())
    }
}

/// Strict lexicographic order.
pub open spec fn lex_lt(a: Seq<u8>, b: Seq<u8>) -> bool {
    lex_le(a, b) && a != b
}

/// Any two byte sequences are ordered one way or the other.
pub proof fn lemma_lex_le_total(a: Seq<u8>, b: Seq<u8>)
    ensures
        lex_le(a, b) || lex_le(b, a),
    decreases a.len(),
{
    if a.len() == 0 || b.len() == 0 {
    } else if a[0] == b[0] {
        lemma_lex_le_total(a.drop_first(), b.drop_first());
    }
}

/// The lexicographic order is transitive.
pub proof fn lemma_lex_le_trans(a: Seq<u8>, b: Seq<u8>, c: Seq<u8>)
    requires
        lex_le(a, b),
        lex_le(b, c),
    ensures
        lex_le(a, c),
    decreases a.len(),
{
    if a.len() == 0 {
    } else {
        // lex_le(a, b) with a non-empty forces b non-empty, and so on for c.
        if a[0] == b[0] && b[0] == c[0] {
            lemma_lex_le_trans(a.drop_first(), b.drop_first(), c.drop_first());
        }
    }
}

/// Two sequences ordered both ways are equal.
pub proof fn lemma_lex_le_antisym(a: Seq<u8>, b: Seq<u8>)
    requires
        lex_le(a, b),
        lex_le(b, a),
    ensures
        a == b,
    decreases a.len(),
{
    if a.len() == 0 {
        // lex_le(b, a) with a empty forces b empty too.
        assert(a =~= b);
    } else {
        // Both are non-empty with equal heads.
        lemma_lex_le_antisym(a.drop_first(), b.drop_first());
        assert(a =~= b) by {
            assert(forall|i: int|
                1 <= i < a.len() ==> #[trigger] a[i] == a.drop_first()[i - 1] && b[i]
                    == b.drop_first()[i - 1]);
        }
    }
}

/// A five-letter word, case-normalised to lower case.
pub struct Word {
    letters: Vec<u8>,
}

impl View for Word {
    type V = Seq<u8>;

    closed spec fn view(&self) -> Seq<u8> {
        self.letters@
    }
}

impl Word {
    /// Invariant: exactly five letters, all lower-case ASCII.
    pub open spec fn wf(&self) -> bool {
        self@.len() == 5 && (forall|i: int|
            0 <= i < self@.len() ==> is_lower_letter(#[trigger] self@[i]))
    }

    /// Builds a word from a raw line, normalising case; rejects anything
    /// that is not exactly five ASCII letters.
    pub fn new(bytes: &Vec<u8>) -> (r: Option<Word>)
        ensures
            r is Some <==> valid_letters(bytes@),
            r matches Some(w) ==> w.wf() && w@ == normalized(bytes@),
    {
        if bytes.len() != 5 {
            return None;
        }
        let mut letters: Vec<u8> = Vec::new();
        let mut i: usize = 0;
        while i < 5
            invariant
                i <= 5,
                bytes@.len() == 5,
                letters@.len() == i,
                forall|j: int| 0 <= j < i ==> is_ascii_letter(#[trigger] bytes@[j]),
                forall|j: int| 0 <= j < i ==> #[trigger] letters@[j] == lower_byte(bytes@[j]),
            decreases 5 - i,
        {
            let b = bytes[i];
            if 65 <= b && b <= 90 {
                letters.push(b + 32);
            } else if 97 <= b && b <= 122 {
                letters.push(b);
            } else {
                return None;
            }
            i += 1;
        }
        let w = Word { letters };
        proof {
            assert(w@ =~= normalized(bytes@));
        }
        Some(w)
    }

    /// The letters of the word, in order.
    pub fn letters(&self) -> (r: &Vec<u8>)
        ensures
            r@ == self@,
    {
        &self.letters
    }

    /// Byte-for-byte equality of two words.
    pub fn eq_word(&self, other: &Word) -> (r: bool)
        requires
            self.wf(),
            other.wf(),
        ensures
            r <==> self@ == other@,
    {
        let mut i: usize = 0;
        while i < 5
            invariant
                i <= 5,
                self.wf(),
                other.wf(),
                forall|j: int| 0 <= j < i ==> #[trigger] self@[j] == other@[j],
            decreases 5 - i,
        {
            if self.letters[i] != other.letters[i] {
                return false;
            }
            i += 1;
        }
        proof {
            assert(self@ =~= other@);
        }
        true
    }

    /// Strict lexicographic comparison of two words.
    pub fn lt_word(&self, other: &Word) -> (r: bool)
        requires
            self.wf(),
            other.wf(),
        ensures
            r <==> lex_lt(self@, other@),
    {
        if self.eq_word(other) {
            false
        } else {
            self.le_word(other)
        }
    }

    /// Lexicographic comparison of two words.
    pub fn le_word(&self, other: &Word) -> (r: bool)
        requires
            self.wf(),
            other.wf(),
        ensures
            r <==> lex_le(self@, other@),
    {
        lex_le_bytes(&self.letters, &other.letters)
    }
}

impl Clone for Word {
    /// Cloning preserves the letters exactly.
    fn clone(&self) -> (r: Self)
        ensures
            r@ == self@,
    {
        Word { letters: self.letters.clone() }
    }
}

/// Compares two byte vectors in lexicographic order.
pub fn lex_le_bytes(a: &Vec<u8>, b: &Vec<u8>) -> (r: bool)
    ensures
        r <==> lex_le(a@, b@),
{
    let a_len = a.len();
    let b_len = b.len();
    let mut i: usize = 0;
    proof {
        assert(a@.skip(0) =~= a@);
        assert(b@.skip(0) =~= b@);
    }
    loop
        invariant
            i <= a_len,
            i <= b_len,
            a_len == a@.len(),
            b_len == b@.len(),
            forall|j: int| 0 <= j < i ==> #[trigger] a@[j] == b@[j],
            lex_le(a@, b@) <==> lex_le(a@.skip(i as int), b@.skip(i as int)),
        decreases a_len - i,
    {
        if i == a_len {
            proof {
                assert(a@.skip(i as int).len() == 0);
            }
            return true;
        }
        if i == b_len {
            proof {
                assert(b@.skip(i as int).len() == 0);
                assert(a@.skip(i as int).len() > 0);
            }
            return false;
        }
        let x = a[i];
        let y = b[i];
        proof {
            assert(a@.skip(i as int)[0] == a@[i as int]);
            assert(b@.skip(i as int)[0] == b@[i as int]);
        }
        if x < y {
            return true;
        }
        if x > y {
            return false;
        }
        proof {
            assert(a@.skip(i as int).drop_first() =~= a@.skip(i + 1));
            assert(b@.skip(i as int).drop_first() =~= b@.skip(i + 1));
        }
        i += 1;
    }
}

} // verus!
