//! Decision core of a five-letter word-guessing game.
//!
//! Three pure components, used in sequence each round: a feedback engine
//! that scores a guess against a secret word, a candidate filter that
//! prunes the set of words still consistent with the observed feedback,
//! and an entropy ranker that orders candidate guesses by the information
//! they are expected to reveal.  Round state (attempt counting, per-letter
//! keyboard status, hard-mode constraints) is kept in an explicit value
//! threaded through the round.

pub mod auto;
pub mod dict;
pub mod entropy;
pub mod feedback;
pub mod filter;
pub mod order;
pub mod round;
pub mod spawn;
pub mod word;

pub use dict::Dict;
pub use word::Word;
