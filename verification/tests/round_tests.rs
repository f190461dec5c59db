use wordle_core::auto::{best_suggestion, play_auto_round};
use wordle_core::dict::Dict;
use wordle_core::round::{game_round, GuessError, LetterStatus, RoundState};
use wordle_core::spawn::random_spawn;
use wordle_core::word::Word;

fn word(s: &str) -> Word {
    Word::new(&s.as_bytes().to_vec()).unwrap()
}

fn dict(words: &[&str]) -> Dict {
    let mut d = Dict::new();
    for w in words {
        d.insert(&word(w));
    }
    d
}

fn words(list: &[&str]) -> Vec<Word> {
    list.iter().map(|w| word(w)).collect()
}

#[test]
fn scripted_round_win() {
    let acceptable = dict(&["crane", "crate", "trace", "grace", "apple"]);
    let result = game_round(&word("crane"), &words(&["trace", "crane"]), &acceptable, false);
    assert!(result.win);
    assert_eq!(result.attempts, 2);
    assert_eq!(result.guesses.len(), 2);
    assert_eq!(result.guesses[0].letters().clone(), b"trace".to_vec());
    assert_eq!(result.guesses[1].letters().clone(), b"crane".to_vec());
}

#[test]
fn rejected_guess_consumes_no_attempt() {
    let acceptable = dict(&["crane", "trace"]);
    // "zzzzz" is not acceptable: it is skipped without using a try.
    let result = game_round(&word("crane"), &words(&["zzzzz", "crane"]), &acceptable, false);
    assert!(result.win);
    assert_eq!(result.attempts, 1);
    assert_eq!(result.guesses.len(), 1);
}

#[test]
fn replay_with_no_input_plays_nothing() {
    let acceptable = dict(&["crane", "trace"]);
    let result = game_round(&word("crane"), &words(&[]), &acceptable, false);
    assert!(!result.win);
    assert_eq!(result.attempts, 0);
    assert_eq!(result.guesses.len(), 0);
}

#[test]
fn round_is_lost_after_six_misses() {
    let acceptable = dict(&["crane", "slate", "pious", "mount", "beach", "dwarf", "fjord"]);
    let inputs = words(&["slate", "pious", "mount", "beach", "dwarf", "fjord"]);
    let result = game_round(&word("crane"), &inputs, &acceptable, false);
    assert!(!result.win);
    assert_eq!(result.attempts, 6);
}

#[test]
fn hard_mode_locks_hits_and_presents() {
    let acceptable = dict(&["crane", "trace", "brace", "bride"]);
    let mut state = RoundState::new(word("crane"), true);
    // "trace" against "crane": R, A, E hit in place; C is present.
    let first = state.guess(&word("trace"), &acceptable);
    assert!(first.is_ok());
    assert_eq!(state.attempts, 1);
    // "bride" drops the hit A in position 2: rejected, nothing consumed.
    let violation = state.guess(&word("bride"), &acceptable);
    assert!(matches!(violation, Err(GuessError::HardModeViolation)));
    assert_eq!(state.attempts, 1);
    // "brace" keeps R, A, E in place and still uses the C.
    let ok = state.guess(&word("brace"), &acceptable);
    assert!(ok.is_ok());
    assert_eq!(state.attempts, 2);
}

#[test]
fn guess_outside_dictionary_is_rejected() {
    let acceptable = dict(&["crane", "trace"]);
    let mut state = RoundState::new(word("crane"), false);
    let r = state.guess(&word("slate"), &acceptable);
    assert!(matches!(r, Err(GuessError::NotInDictionary)));
    assert_eq!(state.attempts, 0);
    assert!(!state.finished);
}

#[test]
fn alphabet_promotes_and_never_downgrades() {
    let acceptable = dict(&["trace", "cable", "track", "crane"]);
    let mut state = RoundState::new(word("crane"), false);

    state.guess(&word("trace"), &acceptable).unwrap();
    assert_eq!(state.alphabet.status_of(b't'), LetterStatus::AbsentAll);
    assert_eq!(state.alphabet.status_of(b'r'), LetterStatus::HitExact);
    assert_eq!(state.alphabet.status_of(b'a'), LetterStatus::HitExact);
    assert_eq!(state.alphabet.status_of(b'c'), LetterStatus::PresentSome);
    assert_eq!(state.alphabet.status_of(b'e'), LetterStatus::HitExact);
    assert_eq!(state.alphabet.status_of(b'q'), LetterStatus::Unseen);

    // "cable" hits its C, promoting it past present.
    state.guess(&word("cable"), &acceptable).unwrap();
    assert_eq!(state.alphabet.status_of(b'c'), LetterStatus::HitExact);

    // "track" only finds C present again: no downgrade.
    state.guess(&word("track"), &acceptable).unwrap();
    assert_eq!(state.alphabet.status_of(b'c'), LetterStatus::HitExact);
}

#[test]
fn winning_guess_finishes_the_round() {
    let acceptable = dict(&["crane", "trace"]);
    let mut state = RoundState::new(word("crane"), false);
    let p = state.guess(&word("crane"), &acceptable).unwrap();
    assert!(p.all_hits());
    assert!(state.won);
    assert!(state.finished);
    assert_eq!(state.attempts, 1);
}

#[test]
fn random_spawn_stays_in_range() {
    let idx = random_spawn(1, 114514, 10);
    assert!(idx < 10);
    let idx2 = random_spawn(10, 114514, 10);
    assert!(idx2 < 10);
    // The generator is seeded deterministically: the same day and seed
    // pick the same index within one build.
    assert_eq!(idx, random_spawn(1, 114514, 10));
}

#[test]
fn random_spawn_really_shuffles() {
    // Under a fixed seed the days map to a permutation of the indices:
    // all distinct, and not the identity mapping.
    let mut seen = vec![false; 100];
    let mut moved = false;
    for day in 1..=100 {
        let idx = random_spawn(day, 114514, 100);
        assert!(idx < 100);
        assert!(!seen[idx]);
        seen[idx] = true;
        if idx != day - 1 {
            moved = true;
        }
    }
    assert!(moved);
}

#[test]
fn best_suggestion_breaks_ties_lexicographically() {
    // Every word here tells all the others apart, so all entropies are
    // zero and the lexicographically smallest word is suggested.
    let candidates = dict(&["dbbbc", "abbbb", "dbbbb", "abbbc"]);
    let top = best_suggestion(&candidates);
    assert_eq!(top.word.letters().clone(), b"abbbb".to_vec());
    assert_eq!(top.score, 0);
}

#[test]
fn auto_player_wins_small_game() {
    let acceptable = dict(&["crane", "crate", "trace", "grace"]);
    let r = play_auto_round(&word("crane"), &acceptable);
    match r {
        Some(k) => assert!(1 <= k && k <= 6),
        None => panic!("auto player gave up"),
    }
}

#[test]
fn auto_player_outcome_is_the_best_guess_trajectory() {
    // Entropies against the four-word set: "crane", "trace" and
    // "grace" each split it into buckets {2, 1, 1} (half a bit);
    // "crate" tells all four apart, so its singleton buckets are
    // excluded and it scores zero.  The first guess is therefore
    // "crane", the lexicographically smallest of the tied leaders.
    let acceptable = dict(&["crane", "crate", "trace", "grace"]);
    assert_eq!(play_auto_round(&word("crane"), &acceptable), Some(1));
    // Against "grace", the guess "crane" yields Present-Hit-Hit-
    // Absent-Hit, which keeps exactly {"trace", "grace"}; both then
    // score zero, so the second guess is "grace" and wins.
    assert_eq!(play_auto_round(&word("grace"), &acceptable), Some(2));
}
