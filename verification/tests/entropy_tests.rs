use wordle_core::dict::Dict;
use wordle_core::entropy::{entropy_of, information_entrophy, rank};
use wordle_core::order::{sort_ranked, ScoredWord};
use wordle_core::word::Word;

fn word(s: &str) -> Word {
    Word::new(&s.as_bytes().to_vec()).unwrap()
}

fn dict(words: &[&str]) -> Dict {
    let mut d = Dict::new();
    for w in words {
        d.insert(&word(w));
    }
    d
}

#[test]
fn even_split_is_exactly_one_bit() {
    // "azzzz" splits these four candidates into two buckets of two, so
    // its entropy is exactly one bit: 10^9 once scaled.
    let candidates = dict(&["abbbb", "abbbc", "dbbbb", "dbbbc"]);
    assert_eq!(entropy_of(&candidates, &word("azzzz")), 1_000_000_000);
}

#[test]
fn singleton_buckets_are_excluded() {
    // "azzzz" splits these two candidates into two buckets of one
    // each.  Textbook entropy would be one bit; this ranking excludes
    // buckets of fewer than two candidates, so the score is zero.
    let candidates = dict(&["abbbb", "dbbbb"]);
    assert_eq!(entropy_of(&candidates, &word("azzzz")), 0);
}

#[test]
fn one_full_bucket_reveals_nothing() {
    // Both candidates land in the same bucket: no information.
    let candidates = dict(&["abbbb", "abbbc"]);
    assert_eq!(entropy_of(&candidates, &word("azzzz")), 0);
}

#[test]
fn single_candidate_collapses_to_lexicographic() {
    // With one candidate no bucket reaches two members, so every pool
    // word scores zero and the ranking is purely lexicographic.
    let candidates = dict(&["crane"]);
    let pool = dict(&["zebra", "crane", "apple"]);
    let ranking = rank(&candidates, &pool);
    assert_eq!(ranking.len(), 3);
    for entry in &ranking {
        assert_eq!(entry.score, 0);
    }
    assert_eq!(ranking[0].word.letters().clone(), b"apple".to_vec());
    assert_eq!(ranking[1].word.letters().clone(), b"crane".to_vec());
    assert_eq!(ranking[2].word.letters().clone(), b"zebra".to_vec());
}

#[test]
fn tie_break_prefers_smaller_word() {
    let items = vec![
        ScoredWord { word: word("bbbbb"), score: 10 },
        ScoredWord { word: word("aaaaa"), score: 10 },
        ScoredWord { word: word("ccccc"), score: 20 },
    ];
    let sorted = sort_ranked(items);
    assert_eq!(sorted[0].word.letters().clone(), b"ccccc".to_vec());
    assert_eq!(sorted[0].score, 20);
    assert_eq!(sorted[1].word.letters().clone(), b"aaaaa".to_vec());
    assert_eq!(sorted[2].word.letters().clone(), b"bbbbb".to_vec());
}

#[test]
fn ranking_orders_by_descending_entropy() {
    // "azzzz" separates the candidates (one bit); "zzzzz" tells them
    // apart not at all (single bucket of four).
    let candidates = dict(&["abbbb", "abbbc", "dbbbb", "dbbbc"]);
    let pool = dict(&["azzzz", "zzzzz"]);
    let ranking = rank(&candidates, &pool);
    assert_eq!(ranking[0].word.letters().clone(), b"azzzz".to_vec());
    assert_eq!(ranking[0].score, 1_000_000_000);
    assert_eq!(ranking[1].word.letters().clone(), b"zzzzz".to_vec());
    assert_eq!(ranking[1].score, 0);
}

#[test]
fn information_entrophy_ranks_a_library_against_itself() {
    let library = dict(&["abbbb", "abbbc", "dbbbb", "dbbbc"]);
    let ranking = information_entrophy(&library);
    assert_eq!(ranking.len(), 4);
    // Every library word tells all four candidates apart, so each
    // bucket is a singleton, every score is zero, and the ranking
    // collapses to lexicographic order.
    for entry in &ranking {
        assert_eq!(entry.score, 0);
    }
    assert_eq!(ranking[0].word.letters().clone(), b"abbbb".to_vec());
    assert_eq!(ranking[1].word.letters().clone(), b"abbbc".to_vec());
    assert_eq!(ranking[2].word.letters().clone(), b"dbbbb".to_vec());
    assert_eq!(ranking[3].word.letters().clone(), b"dbbbc".to_vec());
}
