//! The feedback engine.
//!
//! `score` compares a guess against a secret word and produces a
//! five-symbol feedback pattern.  The algorithm is the standard two-pass
//! one that handles duplicated letters correctly: exact matches are
//! consumed first, and a letter is marked `Present` only while the secret
//! still has unconsumed occurrences of it.

use vstd::prelude::*;
use crate::word::Word;

verus! {

/// Per-position feedback: exact match, correct letter elsewhere, or not
/// available in the secret once duplicates are accounted for.
#[derive(Clone, Copy, Debug, PartialEq, Eq, Structural)]
pub enum FeedbackSymbol {
    Hit,
    Present,
    Absent,
}

/// Number of occurrences of byte `c` among the first `n` letters of `s`.
pub open spec fn count_upto(s: Seq<u8>, c: u8, n: int) -> nat
    decreases n,
{
    if n <= 0 {
        0
    } else {
        count_upto(s, c, n - 1) + (if s[n - 1] == c {
            1nat
        } else {
            0nat
        })
    }
}

/// Number of occurrences of byte `c` in all of `s`.
pub open spec fn count_letter(s: Seq<u8>, c: u8) -> nat {
    count_upto(s, c, s.len() as int)
}

/// Number of exact matches carrying letter `c` before position `n`.
pub open spec fn hits_upto(secret: Seq<u8>, guess: Seq<u8>, c: u8, n: int) -> nat
    decreases n,
{
    if n <= 0 {
        0
    } else {
        hits_upto(secret, guess, c, n - 1) + (if guess[n - 1] == secret[n - 1] && guess[n - 1] == c {
            1nat
        } else {
            0nat
        })
    }
}

/// Number of non-exact positions of `guess` carrying letter `c` before
/// position `n`.
pub open spec fn misses_upto(secret: Seq<u8>, guess: Seq<u8>, c: u8, n: int) -> nat
    decreases n,
{
    if n <= 0 {
        0
    } else {
        misses_upto(secret, guess, c, n - 1) + (if guess[n - 1] != secret[n - 1] && guess[n - 1]
            == c {
            1nat
        } else {
            0nat
        })
    }
}

/// Occurrences of `c` in the secret not consumed by exact matches: the
/// budget available for `Present` marks of that letter.
pub open spec fn spare(secret: Seq<u8>, guess: Seq<u8>, c: u8) -> int {
    count_letter(secret, c) - hits_upto(secret, guess, c, 5)
}

/// The feedback symbol at one position.  A non-exact position is
/// `Present` exactly when the earlier non-exact positions of the same
/// letter have not yet used up the secret's budget for it.
pub open spec fn symbol_at(secret: Seq<u8>, guess: Seq<u8>, i: int) -> FeedbackSymbol {
    if guess[i] == secret[i] {
        FeedbackSymbol::Hit
    } else if misses_upto(secret, guess, guess[i], i) < spare(secret, guess, guess[i]) {
        FeedbackSymbol::Present
    } else {
        FeedbackSymbol::Absent
    }
}

/// The full feedback pattern of a guess against a secret.
pub open spec fn spec_score(secret: Seq<u8>, guess: Seq<u8>) -> Seq<FeedbackSymbol> {
    Seq::new(5, |i: int| symbol_at(secret, guess, i))
}

/// Counting a prefix never exceeds its length.
pub proof fn lemma_count_upto_bound(s: Seq<u8>, c: u8, n: int)
    ensures
        count_upto(s, c, n) <= if n <= 0 {
            0int
        } else {
            n
        },
    decreases n,
{
    if n > 0 {
        lemma_count_upto_bound(s, c, n - 1);
    }
}

/// Exact matches of a letter are occurrences of it in the secret.
pub proof fn lemma_hits_le_count(secret: Seq<u8>, guess: Seq<u8>, c: u8, n: int)
    ensures
        hits_upto(secret, guess, c, n) <= count_upto(secret, c, n),
    decreases n,
{
    if n > 0 {
        lemma_hits_le_count(secret, guess, c, n - 1);
    }
}

/// Counting over a longer prefix never shrinks.
pub proof fn lemma_count_upto_mono(s: Seq<u8>, c: u8, n: int, m: int)
    requires
        n <= m,
    ensures
        count_upto(s, c, n) <= count_upto(s, c, m),
    decreases m - n,
{
    if n < m {
        lemma_count_upto_mono(s, c, n, m - 1);
    }
}

/// A guess scored against itself is all exact matches.
pub proof fn lemma_score_self(w: Seq<u8>)
    requires
        w.len() == 5,
    ensures
        spec_score(w, w) == seq![
            FeedbackSymbol::Hit,
            FeedbackSymbol::Hit,
            FeedbackSymbol::Hit,
            FeedbackSymbol::Hit,
            FeedbackSymbol::Hit,
        ],
{
    assert(spec_score(w, w) =~= seq![
        FeedbackSymbol::Hit,
        FeedbackSymbol::Hit,
        FeedbackSymbol::Hit,
        FeedbackSymbol::Hit,
        FeedbackSymbol::Hit,
    ]);
}

/// A five-symbol feedback pattern.
pub struct Pattern {
    symbols: Vec<FeedbackSymbol>,
}

impl View for Pattern {
    type V = Seq<FeedbackSymbol>;

    closed spec fn view(&self) -> Seq<FeedbackSymbol> {
        self.symbols@
    }
}

impl Pattern {
    /// Invariant: exactly five symbols.
    pub open spec fn wf(&self) -> bool {
        self@.len() == 5
    }

    /// Builds a pattern from five symbols.
    pub fn from_symbols(symbols: Vec<FeedbackSymbol>) -> (r: Option<Pattern>)
        ensures
            r is Some <==> symbols@.len() == 5,
            r matches Some(p) ==> p.wf() && p@ == symbols@,
    {
        if symbols.len() == 5 {
            Some(Pattern { symbols })
        } else {
            None
        }
    }

    /// The symbol at a position.
    pub fn symbol(&self, i: usize) -> (r: FeedbackSymbol)
        requires
            self.wf(),
            i < 5,
        ensures
            r == self@[i as int],
    {
        self.symbols[i]
    }

    /// Symbol-for-symbol equality of two patterns.
    pub fn eq_pattern(&self, other: &Pattern) -> (r: bool)
        requires
            self.wf(),
            other.wf(),
        ensures
            r <==> self@ == other@,
    {
        let mut i: usize = 0;
        while i < 5
            invariant
                i <= 5,
                self.wf(),
                other.wf(),
                forall|j: int| 0 <= j < i ==> #[trigger] self@[j] == other@[j],
            decreases 5 - i,
        {
            if self.symbols[i] != other.symbols[i] {
                return false;
            }
            i += 1;
        }
        proof {
            assert(self@ =~= other@);
        }
        true
    }

    /// Whether every position is an exact match.
    pub fn all_hits(&self) -> (r: bool)
        requires
            self.wf(),
        ensures
            r <==> (forall|j: int| 0 <= j < 5 ==> self@[j] == FeedbackSymbol::Hit),
    {
        let mut i: usize = 0;
        while i < 5
            invariant
                i <= 5,
                self.wf(),
                forall|j: int| 0 <= j < i ==> self@[j] == FeedbackSymbol::Hit,
            decreases 5 - i,
        {
            if self.symbols[i] != FeedbackSymbol::Hit {
                return false;
            }
            i += 1;
        }
        true
    }
}

impl Clone for Pattern {
    /// Cloning preserves the symbols exactly.
    fn clone(&self) -> (r: Self)
        ensures
            r@ == self@,
    {
        let mut symbols: Vec<FeedbackSymbol> = Vec::new();
        let mut i: usize = 0;
        while i < self.symbols.len()
            invariant
                i <= self.symbols@.len(),
                symbols@.len() == i,
                forall|j: int| 0 <= j < i ==> #[trigger] symbols@[j] == self@[j],
            decreases self.symbols@.len() - i,
        {
            symbols.push(self.symbols[i]);
            i += 1;
        }
        proof {
            assert(symbols@ =~= self@);
        }
        Pattern { symbols }
    }
}

/// Scores a guess against a secret word: pass one marks exact matches and
/// consumes their letters; pass two marks each remaining position
/// `Present` while the secret still has that letter to give, `Absent`
/// otherwise.
pub fn score(secret: &Word, guess: &Word) -> (r: Pattern)
    requires
        secret.wf(),
        guess.wf(),
    ensures
        r.wf(),
        r@ == spec_score(secret@, guess@),
{
    let secret_letters = secret.letters();
    let guess_letters = guess.letters();
    // Per-letter remaining counts for the secret, indexed by letter.
    let mut counts: Vec<u8> = vec![0u8; 26];
    let mut i: usize = 0;
    while i < 5
        invariant
            i <= 5,
            secret.wf(),
            secret_letters@ == secret@,
            counts@.len() == 26,
            forall|k: int|
                0 <= k < 26 ==> #[trigger] counts@[k] == count_upto(secret@, (k + 97) as u8, i as int),
        decreases 5 - i,
    {
        let c = secret_letters[i];
        let idx = (c - 97) as usize;
        proof {
            lemma_count_upto_bound(secret@, c, i as int);
        }
        let v = counts[idx];
        counts.set(idx, v + 1);
        i += 1;
    }
    // Pass one: exact matches.
    let mut show: Vec<FeedbackSymbol> = vec![FeedbackSymbol::Absent; 5];
    let mut i: usize = 0;
    while i < 5
        invariant
            i <= 5,
            secret.wf(),
            guess.wf(),
            secret_letters@ == secret@,
            guess_letters@ == guess@,
            counts@.len() == 26,
            show@.len() == 5,
            forall|k: int|
                0 <= k < 26 ==> #[trigger] counts@[k] == count_letter(secret@, (k + 97) as u8)
                    - hits_upto(secret@, guess@, (k + 97) as u8, i as int),
            forall|j: int|
                0 <= j < i ==> #[trigger] show@[j] == (if guess@[j] == secret@[j] {
                    FeedbackSymbol::Hit
                } else {
                    FeedbackSymbol::Absent
                }),
            forall|j: int| i <= j < 5 ==> #[trigger] show@[j] == FeedbackSymbol::Absent,
        decreases 5 - i,
    {
        let g = guess_letters[i];
        if g == secret_letters[i] {
            show.set(i, FeedbackSymbol::Hit);
            let idx = (g - 97) as usize;
            proof {
                lemma_hits_le_count(secret@, guess@, g, i as int + 1);
                lemma_count_upto_mono(secret@, g, i as int + 1, 5);
            }
            let v = counts[idx];
            counts.set(idx, v - 1);
        }
        i += 1;
    }
    // Pass two: presence within the remaining budget.
    let mut i: usize = 0;
    while i < 5
        invariant
            i <= 5,
            secret.wf(),
            guess.wf(),
            secret_letters@ == secret@,
            guess_letters@ == guess@,
            counts@.len() == 26,
            show@.len() == 5,
            forall|k: int|
                0 <= k < 26 ==> #[trigger] counts@[k] == (if spare(secret@, guess@, (k + 97) as u8)
                    >= misses_upto(secret@, guess@, (k + 97) as u8, i as int) {
                    spare(secret@, guess@, (k + 97) as u8) - misses_upto(
                        secret@,
                        guess@,
                        (k + 97) as u8,
                        i as int,
                    )
                } else {
                    0int
                }),
            forall|j: int| 0 <= j < i ==> #[trigger] show@[j] == symbol_at(secret@, guess@, j),
            forall|j: int|
                i <= j < 5 ==> #[trigger] show@[j] == (if guess@[j] == secret@[j] {
                    FeedbackSymbol::Hit
                } else {
                    FeedbackSymbol::Absent
                }),
        decreases 5 - i,
    {
        let g = guess_letters[i];
        if g != secret_letters[i] {
            let idx = (g - 97) as usize;
            if counts[idx] > 0 {
                show.set(i, FeedbackSymbol::Present);
                let v = counts[idx];
                counts.set(idx, v - 1);
            }
        }
        i += 1;
    }
    let r = Pattern { symbols: show };
    proof {
        assert(r@ =~= spec_score(secret@, guess@));
    }
    r
}

/// Base-3 value of a feedback symbol.
pub open spec fn sym_val(s: FeedbackSymbol) -> nat {
    match s {
        FeedbackSymbol::Hit => 2,
        FeedbackSymbol::Present => 1,
        FeedbackSymbol::Absent => 0,
    }
}

/// Base-3 encoding of the first `n` symbols, position 0 most significant.
pub open spec fn encode_upto(p: Seq<FeedbackSymbol>, n: int) -> nat
    decreases n,
{
    if n <= 0 {
        0
    } else {
        encode_upto(p, n - 1) * 3 + sym_val(p[n - 1])
    }
}

/// Base-3 encoding of a whole pattern: an integer below 243.
pub open spec fn encode_pattern(p: Seq<FeedbackSymbol>) -> nat {
    encode_upto(p, 5)
}

/// Base-3 value of a feedback symbol, executable form.
fn sym_byte(s: FeedbackSymbol) -> (r: u8)
    ensures
        r == sym_val(s),
        r <= 2,
{
    match s {
        FeedbackSymbol::Hit => 2,
        FeedbackSymbol::Present => 1,
        FeedbackSymbol::Absent => 0,
    }
}

/// Encodes a pattern as its base-3 index.
pub fn encode(p: &Pattern) -> (r: u8)
    requires
        p.wf(),
    ensures
        r == encode_pattern(p@),
        r < 243,
{
    let a = sym_byte(p.symbol(0));
    let b = sym_byte(p.symbol(1));
    let c = sym_byte(p.symbol(2));
    let d = sym_byte(p.symbol(3));
    let e = sym_byte(p.symbol(4));
    let r = (((a * 3 + b) * 3 + c) * 3 + d) * 3 + e;
    proof {
        reveal_with_fuel(encode_upto, 6);
    }
    r
}

} // verus!
