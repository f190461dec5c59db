use wordle_core::dict::{load_dictionaries, parse_dictionary, Dict, LoadError};
use wordle_core::word::Word;

fn word(s: &str) -> Word {
    Word::new(&s.as_bytes().to_vec()).unwrap()
}

fn lines(words: &[&str]) -> Vec<Vec<u8>> {
    words.iter().map(|w| w.as_bytes().to_vec()).collect()
}

#[test]
fn parse_normalises_sorts_and_dedups() {
    let d = parse_dictionary(&lines(&["Crane", "APPLE", "crane", "zebra"])).unwrap();
    assert_eq!(d.len(), 3);
    assert_eq!(d.word_at(0).letters().clone(), b"apple".to_vec());
    assert_eq!(d.word_at(1).letters().clone(), b"crane".to_vec());
    assert_eq!(d.word_at(2).letters().clone(), b"zebra".to_vec());
}

#[test]
fn parse_rejects_malformed_line() {
    assert!(matches!(
        parse_dictionary(&lines(&["crane", "abcd"])),
        Err(LoadError::InvalidWord)
    ));
    assert!(matches!(
        parse_dictionary(&lines(&["cr4ne"])),
        Err(LoadError::InvalidWord)
    ));
}

#[test]
fn contains_finds_inserted_words() {
    let mut d = Dict::new();
    d.insert(&word("crane"));
    d.insert(&word("apple"));
    d.insert(&word("crane"));
    assert_eq!(d.len(), 2);
    assert!(d.contains(&word("crane")));
    assert!(d.contains(&word("apple")));
    assert!(!d.contains(&word("zebra")));
}

#[test]
fn load_checks_subset() {
    let final_lines = lines(&["crane", "trace"]);
    let acceptable_lines = lines(&["crane", "trace", "grace"]);
    let (f, a) = load_dictionaries(&final_lines, &acceptable_lines).unwrap();
    assert_eq!(f.len(), 2);
    assert_eq!(a.len(), 3);

    let bad_final = lines(&["crane", "wrong"]);
    let small_acceptable = lines(&["crane", "trace"]);
    assert!(matches!(
        load_dictionaries(&bad_final, &small_acceptable),
        Err(LoadError::NotSubset)
    ));
}

#[test]
fn load_reports_malformed_before_subset() {
    assert!(matches!(
        load_dictionaries(&lines(&["toolong!"]), &lines(&["crane"])),
        Err(LoadError::InvalidWord)
    ));
}
