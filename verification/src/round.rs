//! Round state.
//!
//! A round threads an explicit state value: the secret answer, the
//! number of valid attempts so far, the per-letter keyboard status with
//! its monotonic promotion rule, and the constraints hard mode places on
//! later guesses.  One guess is one step of the state machine; an
//! invalid guess is rejected without changing anything or consuming an
//! attempt.

use vstd::prelude::*;
use vstd::math::max;
use crate::word::{Word, is_lower_letter};
use crate::dict::{Dict, dict_contains, lemma_dict_contains_views, word_views};
use crate::feedback::{FeedbackSymbol, Pattern, score, spec_score};

verus! {

/// The maximum number of valid guesses in a round.
pub const MAX_ATTEMPTS: u32 = 6;

/// The aggregate status of one letter across a round: the best feedback
/// the letter has received so far, never downgraded.
#[derive(Clone, Copy, Debug, PartialEq, Eq, Structural)]
pub enum LetterStatus {
    Unseen,
    AbsentAll,
    PresentSome,
    HitExact,
}

/// Rank of a status in the promotion order.
pub open spec fn status_rank(s: LetterStatus) -> int {
    match s {
        LetterStatus::Unseen => 0,
        LetterStatus::AbsentAll => 1,
        LetterStatus::PresentSome => 2,
        LetterStatus::HitExact => 3,
    }
}

/// The status at a given rank.
pub open spec fn status_of_rank(r: int) -> LetterStatus {
    if r == 0 {
        LetterStatus::Unseen
    } else if r == 1 {
        LetterStatus::AbsentAll
    } else if r == 2 {
        LetterStatus::PresentSome
    } else {
        LetterStatus::HitExact
    }
}

/// The status a feedback symbol confers on its letter.
pub open spec fn symbol_status(s: FeedbackSymbol) -> LetterStatus {
    match s {
        FeedbackSymbol::Hit => LetterStatus::HitExact,
        FeedbackSymbol::Present => LetterStatus::PresentSome,
        FeedbackSymbol::Absent => LetterStatus::AbsentAll,
    }
}

/// The best status rank letter `c` earns from the first `n` positions
/// of a scored guess.
pub open spec fn best_upto(guess: Seq<u8>, pattern: Seq<FeedbackSymbol>, c: u8, n: int) -> int
    decreases n,
{
    if n <= 0 {
        0
    } else {
        let prev = best_upto(guess, pattern, c, n - 1);
        if guess[n - 1] == c {
            max(prev, status_rank(symbol_status(pattern[n - 1])))
        } else {
            prev
        }
    }
}

/// The per-letter status board: one status for each of the 26 letters.
pub struct Alphabet {
    status: Vec<LetterStatus>,
}

impl View for Alphabet {
    type V = Seq<LetterStatus>;

    closed spec fn view(&self) -> Seq<LetterStatus> {
        self.status@
    }
}

impl Alphabet {
    /// Invariant: one entry per letter.
    pub open spec fn wf(&self) -> bool {
        self@.len() == 26
    }

    /// A fresh board: every letter unseen.
    pub fn new() -> (r: Alphabet)
        ensures
            r.wf(),
            forall|k: int| 0 <= k < 26 ==> r@[k] == LetterStatus::Unseen,
    {
        let status: Vec<LetterStatus> = vec![LetterStatus::Unseen; 26];
        Alphabet { status }
    }

    /// The status of one letter.
    pub fn status_of(&self, letter: u8) -> (r: LetterStatus)
        requires
            self.wf(),
            is_lower_letter(letter),
        ensures
            r == self@[letter - 97],
    {
        self.status[(letter - 97) as usize]
    }

    /// Folds one scored guess into the board.  Each letter of the guess
    /// is promoted to the best status it earned; no letter is ever
    /// downgraded.
    pub fn update(&mut self, guess: &Word, pattern: &Pattern)
        requires
            old(self).wf(),
            guess.wf(),
            pattern.wf(),
        ensures
            final(self).wf(),
            forall|k: int|
                0 <= k < 26 ==> final(self)@[k] == status_of_rank(
                    max(
                        status_rank(old(self)@[k]),
                        best_upto(guess@, pattern@, (k + 97) as u8, 5),
                    ),
                ),
            forall|k: int|
                0 <= k < 26 ==> status_rank(old(self)@[k]) <= status_rank(final(self)@[k]),
    {
        let guess_letters = guess.letters();
        let mut i: usize = 0;
        proof {
            assert forall|k: int| 0 <= k < 26 implies self@[k] == status_of_rank(
                max(status_rank(old(self)@[k]), best_upto(guess@, pattern@, (k + 97) as u8, 0)),
            ) by {
                assert(status_of_rank(status_rank(old(self)@[k])) == old(self)@[k]);
            }
        }
        while i < 5
            invariant
                i <= 5,
                guess.wf(),
                pattern.wf(),
                guess_letters@ == guess@,
                self@.len() == 26,
                forall|k: int|
                    0 <= k < 26 ==> #[trigger] self@[k] == status_of_rank(
                        max(
                            status_rank(old(self)@[k]),
                            best_upto(guess@, pattern@, (k + 97) as u8, i as int),
                        ),
                    ),
            decreases 5 - i,
        {
            let c = guess_letters[i];
            let idx = (c - 97) as usize;
            let earned = match pattern.symbol(i) {
                FeedbackSymbol::Hit => LetterStatus::HitExact,
                FeedbackSymbol::Present => LetterStatus::PresentSome,
                FeedbackSymbol::Absent => LetterStatus::AbsentAll,
            };
            let current = self.status[idx];
            let promote = match (current, earned) {
                (LetterStatus::Unseen, _) => true,
                (LetterStatus::AbsentAll, LetterStatus::PresentSome) => true,
                (LetterStatus::AbsentAll, LetterStatus::HitExact) => true,
                (LetterStatus::PresentSome, LetterStatus::HitExact) => true,
                _ => false,
            };
            if promote {
                self.status.set(idx, earned);
            }
            proof {
                assert(earned == symbol_status(pattern@[i as int]));
                assert forall|k: int| 0 <= k < 26 implies self@[k] == status_of_rank(
                    max(
                        status_rank(old(self)@[k]),
                        best_upto(guess@, pattern@, (k + 97) as u8, i + 1),
                    ),
                ) by {
                    if k != idx {
                        assert((k + 97) as u8 != c);
                        assert(best_upto(guess@, pattern@, (k + 97) as u8, i + 1) == best_upto(
                            guess@,
                            pattern@,
                            (k + 97) as u8,
                            i as int,
                        ));
                    }
                }
            }
            i += 1;
        }
        proof {
            assert forall|k: int| 0 <= k < 26 implies status_rank(old(self)@[k]) <= status_rank(
                self@[k],
            ) by {
                assert(self@[k] == status_of_rank(
                    max(
                        status_rank(old(self)@[k]),
                        best_upto(guess@, pattern@, (k + 97) as u8, 5),
                    ),
                ));
            }
        }
    }
}

/// Why a guess was rejected without consuming an attempt.
#[derive(Clone, Copy, Debug, PartialEq, Eq, Structural)]
pub enum GuessError {
    /// The guess is not in the acceptable list.
    NotInDictionary,
    /// Hard mode: a previously hit position changed, or a previously
    /// present letter is missing.
    HardModeViolation,
}

/// Every position already hit must keep its letter (0 marks a position
/// not hit yet).
pub open spec fn greens_ok(greens: Seq<u8>, guess: Seq<u8>) -> bool {
    forall|i: int| 0 <= i < 5 ==> #[trigger] greens[i] == 0 || greens[i] == guess[i]
}

/// Every letter already found present must be used again.
pub open spec fn yellows_ok(yellows: Seq<u8>, guess: Seq<u8>) -> bool {
    forall|j: int| 0 <= j < yellows.len() ==> guess.contains(#[trigger] yellows[j])
}

/// The letters marked `Present` by a scored guess, in position order.
pub open spec fn presents_of(guess: Seq<u8>, pattern: Seq<FeedbackSymbol>, n: int) -> Seq<u8>
    decreases n,
{
    if n <= 0 {
        Seq::empty()
    } else {
        let prev = presents_of(guess, pattern, n - 1);
        if pattern[n - 1] == FeedbackSymbol::Present {
            prev.push(guess[n - 1])
        } else {
            prev
        }
    }
}

/// The constraints hard mode has accumulated: letters locked in place
/// by hits, and letters that must keep appearing after presents.
pub struct HardState {
    pub greens: Vec<u8>,
    pub yellows: Vec<u8>,
}

impl HardState {
    /// Invariant: one green slot per position.
    pub open spec fn wf(&self) -> bool {
        self.greens@.len() == 5
    }

    /// No constraints yet.
    pub fn new() -> (r: HardState)
        ensures
            r.wf(),
            forall|i: int| 0 <= i < 5 ==> r.greens@[i] == 0,
            r.yellows@.len() == 0,
    {
        let greens: Vec<u8> = vec![0u8; 5];
        HardState { greens, yellows: Vec::new() }
    }

    /// Whether a guess honours the accumulated constraints.
    pub fn check(&self, guess: &Word) -> (r: bool)
        requires
            self.wf(),
            guess.wf(),
        ensures
            r == (greens_ok(self.greens@, guess@) && yellows_ok(self.yellows@, guess@)),
    {
        let guess_letters = guess.letters();
        let mut i: usize = 0;
        while i < 5
            invariant
                i <= 5,
                self.wf(),
                guess.wf(),
                guess_letters@ == guess@,
                forall|j: int| 0 <= j < i ==> #[trigger] self.greens@[j] == 0 || self.greens@[j]
                    == guess@[j],
            decreases 5 - i,
        {
            let gsl = self.greens[i];
            if gsl != 0 && gsl != guess_letters[i] {
                return false;
            }
            i += 1;
        }
        let m = self.yellows.len();
        let mut j: usize = 0;
        while j < m
            invariant
                j <= m,
                m == self.yellows@.len(),
                self.wf(),
                guess.wf(),
                guess_letters@ == guess@,
                greens_ok(self.greens@, guess@),
                forall|t: int| 0 <= t < j ==> guess@.contains(#[trigger] self.yellows@[t]),
            decreases m - j,
        {
            let y = self.yellows[j];
            let mut found = false;
            let mut p: usize = 0;
            while p < 5
                invariant
                    p <= 5,
                    guess.wf(),
                    guess_letters@ == guess@,
                    found <==> (exists|q: int| 0 <= q < p && guess@[q] == y),
                decreases 5 - p,
            {
                if guess_letters[p] == y {
                    found = true;
                }
                p += 1;
            }
            if !found {
                proof {
                    assert(!guess@.contains(y));
                }
                return false;
            }
            j += 1;
        }
        true
    }

    /// Folds one scored guess into the constraints: hits lock their
    /// position, presents append their letter.
    pub fn update(&mut self, guess: &Word, pattern: &Pattern)
        requires
            old(self).wf(),
            guess.wf(),
            pattern.wf(),
        ensures
            final(self).wf(),
            forall|i: int|
                0 <= i < 5 ==> #[trigger] final(self).greens@[i] == (if pattern@[i]
                    == FeedbackSymbol::Hit {
                    guess@[i]
                } else {
                    old(self).greens@[i]
                }),
            final(self).yellows@ == old(self).yellows@ + presents_of(guess@, pattern@, 5),
    {
        let guess_letters = guess.letters();
        let mut i: usize = 0;
        proof {
            assert(self.yellows@ =~= old(self).yellows@ + presents_of(guess@, pattern@, 0));
        }
        while i < 5
            invariant
                i <= 5,
                guess.wf(),
                pattern.wf(),
                guess_letters@ == guess@,
                self.greens@.len() == 5,
                forall|j: int|
                    0 <= j < i ==> #[trigger] self.greens@[j] == (if pattern@[j]
                        == FeedbackSymbol::Hit {
                        guess@[j]
                    } else {
                        old(self).greens@[j]
                    }),
                forall|j: int| i <= j < 5 ==> #[trigger] self.greens@[j] == old(self).greens@[j],
                self.yellows@ == old(self).yellows@ + presents_of(guess@, pattern@, i as int),
            decreases 5 - i,
        {
            let sym = pattern.symbol(i);
            if sym == FeedbackSymbol::Hit {
                self.greens.set(i, guess_letters[i]);
            } else if sym == FeedbackSymbol::Present {
                self.yellows.push(guess_letters[i]);
                proof {
                    assert(self.yellows@ =~= old(self).yellows@ + presents_of(
                        guess@,
                        pattern@,
                        i + 1,
                    ));
                }
            }
            i += 1;
        }
    }
}

/// A mathematical image of the round state, over plain sequences.
#[verifier::ext_equal]
pub struct RoundModel {
    pub answer: Seq<u8>,
    pub difficult: bool,
    pub attempts: int,
    pub won: bool,
    pub finished: bool,
    pub alphabet: Seq<LetterStatus>,
    pub greens: Seq<u8>,
    pub yellows: Seq<u8>,
    pub guesses: Seq<Seq<u8>>,
}

/// The model of a round that has not seen any guess.
pub open spec fn fresh_round(answer: Seq<u8>, difficult: bool) -> RoundModel {
    RoundModel {
        answer,
        difficult,
        attempts: 0,
        won: false,
        finished: false,
        alphabet: Seq::new(26, |k: int| LetterStatus::Unseen),
        greens: Seq::new(5, |i: int| 0u8),
        yellows: Seq::empty(),
        guesses: Seq::empty(),
    }
}

/// One step of the round: an unacceptable or hard-mode-violating guess
/// changes nothing; a valid guess is scored, recorded, folded into the
/// letter board and the hard-mode constraints, and ends the round when
/// it hits the answer or uses the last attempt.
pub open spec fn spec_guess(m: RoundModel, g: Seq<u8>, acceptable: Seq<Seq<u8>>) -> RoundModel {
    if !acceptable.contains(g) || (m.difficult && !(greens_ok(m.greens, g) && yellows_ok(
        m.yellows,
        g,
    ))) {
        m
    } else {
        let p = spec_score(m.answer, g);
        let won = g == m.answer;
        RoundModel {
            attempts: m.attempts + 1,
            won,
            finished: won || m.attempts + 1 == MAX_ATTEMPTS,
            alphabet: Seq::new(
                26,
                |k: int|
                    status_of_rank(
                        max(status_rank(m.alphabet[k]), best_upto(g, p, (k + 97) as u8, 5)),
                    ),
            ),
            greens: Seq::new(
                5,
                |i: int|
                    if p[i] == FeedbackSymbol::Hit {
                        g[i]
                    } else {
                        m.greens[i]
                    },
            ),
            yellows: m.yellows + presents_of(g, p, 5),
            guesses: m.guesses.push(g),
            ..m
        }
    }
}

/// The state of one round in play.
pub struct RoundState {
    pub answer: Word,
    pub difficult: bool,
    pub attempts: u32,
    pub won: bool,
    pub finished: bool,
    pub alphabet: Alphabet,
    pub hard: HardState,
    pub guesses: Vec<Word>,
}

impl View for RoundState {
    type V = RoundModel;

    open spec fn view(&self) -> RoundModel {
        RoundModel {
            answer: self.answer@,
            difficult: self.difficult,
            attempts: self.attempts as int,
            won: self.won,
            finished: self.finished,
            alphabet: self.alphabet@,
            greens: self.hard.greens@,
            yellows: self.hard.yellows@,
            guesses: word_views(self.guesses@),
        }
    }
}

impl RoundState {
    /// Invariant tying the pieces together.
    pub open spec fn wf(&self) -> bool {
        &&& self.answer.wf()
        &&& self.alphabet.wf()
        &&& self.hard.wf()
        &&& self.attempts <= MAX_ATTEMPTS
        &&& self.guesses@.len() == self.attempts
        &&& (forall|i: int| 0 <= i < self.guesses@.len() ==> (#[trigger] self.guesses@[i]).wf())
        &&& self.finished == (self.won || self.attempts == MAX_ATTEMPTS)
    }

    /// Starts a round with the given answer.
    pub fn new(answer: Word, difficult: bool) -> (r: RoundState)
        requires
            answer.wf(),
        ensures
            r.wf(),
            r@ == fresh_round(answer@, difficult),
    {
        let r = RoundState {
            answer,
            difficult,
            attempts: 0,
            won: false,
            finished: false,
            alphabet: Alphabet::new(),
            hard: HardState::new(),
            guesses: Vec::new(),
        };
        proof {
            assert(r@ =~= fresh_round(r.answer@, difficult));
        }
        r
    }

    /// Plays one guess.  A guess outside the acceptable list, or one
    /// that breaks hard mode, is rejected: the state is unchanged and
    /// no attempt is consumed.  A valid guess is scored against the
    /// answer and folded into the round.
    pub fn guess(&mut self, g: &Word, acceptable: &Dict) -> (r: Result<Pattern, GuessError>)
        requires
            old(self).wf(),
            !old(self).finished,
            g.wf(),
            acceptable.wf(),
        ensures
            final(self).wf(),
            final(self)@ == spec_guess(old(self)@, g@, word_views(acceptable@)),
            r is Ok <==> dict_contains(acceptable@, g@) && (!old(self).difficult || (greens_ok(
                old(self).hard.greens@,
                g@,
            ) && yellows_ok(old(self).hard.yellows@, g@))),
            r matches Ok(p) ==> p.wf() && p@ == spec_score(old(self).answer@, g@),
            r matches Err(e) ==> (e == GuessError::NotInDictionary <==> !dict_contains(
                acceptable@,
                g@,
            )),
    {
        proof {
            lemma_dict_contains_views(acceptable@, g@);
        }
        if !acceptable.contains(g) {
            return Err(GuessError::NotInDictionary);
        }
        if self.difficult && !self.hard.check(g) {
            return Err(GuessError::HardModeViolation);
        }
        let pat = score(&self.answer, g);
        self.alphabet.update(g, &pat);
        self.hard.update(g, &pat);
        self.guesses.push(g.clone());
        self.attempts = self.attempts + 1;
        let won = g.eq_word(&self.answer);
        self.won = won;
        self.finished = won || self.attempts == MAX_ATTEMPTS;
        proof {
            assert(word_views(self.guesses@) =~= word_views(old(self).guesses@).push(g@));
            assert(self@.alphabet =~= spec_guess(
                old(self)@,
                g@,
                word_views(acceptable@),
            ).alphabet);
            assert(self@.greens =~= spec_guess(old(self)@, g@, word_views(acceptable@)).greens);
            assert(self@ =~= spec_guess(old(self)@, g@, word_views(acceptable@)));
        }
        Ok(pat)
    }
}

/// The outcome of a finished (or abandoned) round.
pub struct GameResult {
    pub win: bool,
    pub attempts: u32,
    pub guesses: Vec<Word>,
}

/// The model after replaying a list of guesses from a state: each guess
/// steps the round, and the replay stops when the round finishes.
pub open spec fn spec_replay(m: RoundModel, inputs: Seq<Seq<u8>>, acceptable: Seq<Seq<u8>>) -> RoundModel
    decreases inputs.len(),
{
    if inputs.len() == 0 || m.finished {
        m
    } else {
        spec_replay(spec_guess(m, inputs.first(), acceptable), inputs.drop_first(), acceptable)
    }
}

/// Replays one scripted round: the guesses are played in order against
/// the answer until the round is won, the attempts run out, or the
/// input ends.  Rejected guesses consume nothing, exactly as in
/// interactive play.
pub fn game_round(answer: &Word, inputs: &Vec<Word>, acceptable: &Dict, difficult: bool) -> (r:
    GameResult)
    requires
        answer.wf(),
        acceptable.wf(),
        forall|i: int| 0 <= i < inputs@.len() ==> (#[trigger] inputs@[i]).wf(),
    ensures
        ({
            let end = spec_replay(
                fresh_round(answer@, difficult),
                word_views(inputs@),
                word_views(acceptable@),
            );
            &&& r.win == end.won
            &&& r.attempts == end.attempts
            &&& word_views(r.guesses@) == end.guesses
        }),
{
    let ghost acc = word_views(acceptable@);
    let ghost all = word_views(inputs@);
    let mut state = RoundState::new(answer.clone(), difficult);
    let n = inputs.len();
    let mut i: usize = 0;
    proof {
        assert(all.skip(0) =~= all);
    }
    while i < n
        invariant
            i <= n,
            n == inputs@.len(),
            acceptable.wf(),
            acc == word_views(acceptable@),
            all == word_views(inputs@),
            forall|j: int| 0 <= j < inputs@.len() ==> (#[trigger] inputs@[j]).wf(),
            state.wf(),
            spec_replay(fresh_round(answer@, difficult), all, acc) == spec_replay(
                state@,
                all.skip(i as int),
                acc,
            ),
        ensures
            state.finished || i == n,
        decreases n - i,
    {
        if state.finished {
            break ;
        }
        let ghost before = state@;
        let _ = state.guess(&inputs[i], acceptable);
        proof {
            assert(all.skip(i as int).len() > 0);
            assert(all.skip(i as int).first() == inputs@[i as int]@);
            assert(all.skip(i as int).drop_first() =~= all.skip(i + 1));
            assert(spec_replay(before, all.skip(i as int), acc) == spec_replay(
                state@,
                all.skip(i + 1),
                acc,
            ));
        }
        i += 1;
    }
    proof {
        if !state.finished {
            assert(all.skip(n as int).len() == 0);
        }
        assert(spec_replay(state@, all.skip(i as int), acc) == state@);
    }
    let r = GameResult { win: state.won, attempts: state.attempts, guesses: state.guesses };
    r
}

} // verus!
