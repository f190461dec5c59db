use wordle_core::feedback::{encode, score, FeedbackSymbol};
use wordle_core::word::Word;

fn word(s: &str) -> Word {
    Word::new(&s.as_bytes().to_vec()).unwrap()
}

fn symbols(p: &wordle_core::feedback::Pattern) -> Vec<FeedbackSymbol> {
    let mut v = Vec::new();
    let mut i = 0;
    while i < 5 {
        v.push(p.symbol(i));
        i += 1;
    }
    v
}

#[test]
fn score_self_is_all_hits() {
    let w = word("crane");
    let p = score(&w, &w);
    assert!(p.all_hits());
    assert_eq!(symbols(&p), vec![
        FeedbackSymbol::Hit,
        FeedbackSymbol::Hit,
        FeedbackSymbol::Hit,
        FeedbackSymbol::Hit,
        FeedbackSymbol::Hit,
    ]);
}

#[test]
fn duplicate_letter_case() {
    // Secret "crane", guess "trace": T absent, R hit, A hit, C present
    // (the secret's remaining non-hit letters are {c, n}), E hit.
    let p = score(&word("crane"), &word("trace"));
    assert_eq!(symbols(&p), vec![
        FeedbackSymbol::Absent,
        FeedbackSymbol::Hit,
        FeedbackSymbol::Hit,
        FeedbackSymbol::Present,
        FeedbackSymbol::Hit,
    ]);
}

#[test]
fn triple_letter_against_double() {
    // Secret "aabbb", guess "aaaab": the two leading As hit, the extra
    // As are absent because the secret has no A left, and the final B
    // hits.
    let p = score(&word("aabbb"), &word("aaaab"));
    assert_eq!(symbols(&p), vec![
        FeedbackSymbol::Hit,
        FeedbackSymbol::Hit,
        FeedbackSymbol::Absent,
        FeedbackSymbol::Absent,
        FeedbackSymbol::Hit,
    ]);
}

#[test]
fn present_never_exceeds_budget() {
    // Secret "abbbb", guess "zaazz": one A present, the second A absent.
    let p = score(&word("abbbb"), &word("zaazz"));
    assert_eq!(symbols(&p), vec![
        FeedbackSymbol::Absent,
        FeedbackSymbol::Present,
        FeedbackSymbol::Absent,
        FeedbackSymbol::Absent,
        FeedbackSymbol::Absent,
    ]);
}

#[test]
fn encode_is_base_three_most_significant_first() {
    let all_hits = score(&word("crane"), &word("crane"));
    assert_eq!(encode(&all_hits), 242);
    let all_absent = score(&word("aaaaa"), &word("zzzzz"));
    assert_eq!(encode(&all_absent), 0);
    // [Absent, Hit, Hit, Present, Hit] = 0*81 + 2*27 + 2*9 + 1*3 + 2.
    let mixed = score(&word("crane"), &word("trace"));
    assert_eq!(encode(&mixed), 77);
}

#[test]
fn word_new_normalises_case() {
    let w = Word::new(&b"CrAnE".to_vec()).unwrap();
    assert_eq!(w.letters().clone(), b"crane".to_vec());
}

#[test]
fn word_new_rejects_bad_input() {
    assert!(Word::new(&b"cran".to_vec()).is_none());
    assert!(Word::new(&b"cranes".to_vec()).is_none());
    assert!(Word::new(&b"cr4ne".to_vec()).is_none());
    assert!(Word::new(&b"cr ne".to_vec()).is_none());
}
