use wordle_core::dict::Dict;
use wordle_core::feedback::{score, FeedbackSymbol, Pattern};
use wordle_core::filter::filter;
use wordle_core::word::Word;

fn word(s: &str) -> Word {
    Word::new(&s.as_bytes().to_vec()).unwrap()
}

fn dict(words: &[&str]) -> Dict {
    let mut d = Dict::new();
    for w in words {
        d.insert(&word(w));
    }
    d
}

fn dict_words(d: &Dict) -> Vec<Vec<u8>> {
    let mut v = Vec::new();
    let mut i = 0;
    while i < d.len() {
        v.push(d.word_at(i).letters().clone());
        i += 1;
    }
    v
}

#[test]
fn end_to_end_score_then_filter() {
    // Guessing "trace" against secret "crane" yields the
    // duplicate-letter pattern, and filtering the four-word candidate
    // set by that pattern retains exactly "crane".
    let candidates = dict(&["crane", "crate", "trace", "grace"]);
    let secret = word("crane");
    let guess = word("trace");
    let observed = score(&secret, &guess);
    let remaining = filter(&candidates, &guess, &observed);
    assert_eq!(dict_words(&remaining), vec![b"crane".to_vec()]);
}

#[test]
fn secret_survives_its_own_feedback() {
    let candidates = dict(&["crane", "slate", "pious", "mount"]);
    let secret = word("slate");
    let guess = word("mount");
    let observed = score(&secret, &guess);
    let remaining = filter(&candidates, &guess, &observed);
    assert!(remaining.contains(&secret));
}

#[test]
fn filter_never_grows() {
    let candidates = dict(&["crane", "crate", "trace", "grace", "slate"]);
    let guess = word("trace");
    let observed = score(&word("crane"), &guess);
    let remaining = filter(&candidates, &guess, &observed);
    assert!(remaining.len() <= candidates.len());
}

#[test]
fn filter_never_grows_for_arbitrary_pattern() {
    // The bound holds for any pattern, not only one produced by a
    // secret: here a pattern no candidate can satisfy empties the set.
    let candidates = dict(&["crane", "crate", "trace", "grace", "slate"]);
    let guess = word("trace");
    let impossible = Pattern::from_symbols(vec![
        FeedbackSymbol::Present,
        FeedbackSymbol::Present,
        FeedbackSymbol::Present,
        FeedbackSymbol::Present,
        FeedbackSymbol::Present,
    ])
    .unwrap();
    let remaining = filter(&candidates, &guess, &impossible);
    assert!(remaining.len() <= candidates.len());
    assert_eq!(remaining.len(), 0);
}

#[test]
fn filtering_an_empty_set_yields_an_empty_set() {
    let candidates = Dict::new();
    let guess = word("trace");
    let observed = score(&word("crane"), &guess);
    let remaining = filter(&candidates, &guess, &observed);
    assert_eq!(remaining.len(), 0);
}

#[test]
fn filtering_twice_changes_nothing() {
    // Once every remaining candidate satisfies the pattern, filtering
    // by it again leaves the set unchanged.
    let candidates = dict(&["crane", "crate", "trace", "grace", "slate"]);
    let guess = word("grace");
    let observed = score(&word("crane"), &guess);
    let once = filter(&candidates, &guess, &observed);
    let twice = filter(&once, &guess, &observed);
    assert_eq!(dict_words(&once), dict_words(&twice));
}
