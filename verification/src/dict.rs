//! Dictionaries: ordered, duplicate-free collections of words.
//!
//! Two dictionaries drive a game: the final list (words eligible to be
//! secrets) and the acceptable list (words eligible to be guessed).  The
//! final list must be a subset of the acceptable list; that is checked at
//! load time.

use vstd::prelude::*;
use crate::word::{
    Word, lex_le, lex_lt, lemma_lex_le_total, lemma_lex_le_trans, valid_letters, normalized,
};

verus! {

/// Membership of a letter sequence among a sequence of words.
pub open spec fn dict_contains(words: Seq<Word>, w: Seq<u8>) -> bool {
    exists|i: int| 0 <= i < words.len() && words[i]@ == w
}

/// The letter sequences of a sequence of words.
pub open spec fn word_views(words: Seq<Word>) -> Seq<Seq<u8>> {
    words.map_values(|w: Word| w@)
}

/// Membership among words is membership among their letter sequences.
pub proof fn lemma_dict_contains_views(words: Seq<Word>, x: Seq<u8>)
    ensures
        dict_contains(words, x) <==> word_views(words).contains(x),
{
    if dict_contains(words, x) {
        let i = choose|i: int| 0 <= i < words.len() && words[i]@ == x;
        assert(word_views(words)[i] == x);
    }
    if word_views(words).contains(x) {
        let i = choose|i: int| 0 <= i < word_views(words).len() && word_views(words)[i] == x;
        assert(words[i]@ == x);
    }
}

/// Why a word set was rejected at load time.
#[derive(Clone, Copy, Debug, PartialEq, Eq, Structural)]
pub enum LoadError {
    /// Some line is not exactly five ASCII letters.
    InvalidWord,
    /// The final list is not a subset of the acceptable list.
    NotSubset,
}

/// An ordered, duplicate-free collection of words, sorted ascending in
/// lexicographic order.
pub struct Dict {
    words: Vec<Word>,
}

impl View for Dict {
    type V = Seq<Word>;

    closed spec fn view(&self) -> Seq<Word> {
        self.words@
    }
}

impl Dict {
    /// Invariant: every word is well formed and the words are strictly
    /// ascending, hence duplicate-free.
    pub open spec fn wf(&self) -> bool {
        (forall|i: int| 0 <= i < self@.len() ==> (#[trigger] self@[i]).wf()) && (forall|
            i: int,
            j: int,
        |
            0 <= i < j < self@.len() ==> lex_lt(self@[i]@, self@[j]@))
    }

    /// The empty dictionary.
    pub fn new() -> (r: Dict)
        ensures
            r.wf(),
            r@.len() == 0,
    {
        Dict { words: Vec::new() }
    }

    /// Wraps a vector of words whose order the caller has already
    /// established; the dictionary's own invariant is proved at the call
    /// site about the returned value.
    pub(crate) fn from_words(words: Vec<Word>) -> (r: Dict)
        ensures
            r@ == words@,
    {
        Dict { words }
    }

    /// Number of words.
    pub fn len(&self) -> (r: usize)
        ensures
            r == self@.len(),
    {
        self.words.len()
    }

    /// The word at a position.
    pub fn word_at(&self, i: usize) -> (r: &Word)
        requires
            i < self@.len(),
        ensures
            *r == self@[i as int],
    {
        &self.words[i]
    }

    /// Membership test.
    pub fn contains(&self, w: &Word) -> (r: bool)
        requires
            self.wf(),
            w.wf(),
        ensures
            r == dict_contains(self@, w@),
    {
        let n = self.words.len();
        let mut i: usize = 0;
        while i < n
            invariant
                i <= n,
                n == self@.len(),
                self.wf(),
                w.wf(),
                forall|j: int| 0 <= j < i ==> (#[trigger] self@[j])@ != w@,
            decreases n - i,
        {
            if self.words[i].eq_word(w) {
                proof {
                    assert(self@[i as int]@ == w@);
                }
                return true;
            }
            i += 1;
        }
        false
    }

    /// Inserts a word at its sorted position; a word already present is
    /// left alone, so the collection stays duplicate-free.
    pub fn insert(&mut self, w: &Word)
        requires
            old(self).wf(),
            w.wf(),
        ensures
            final(self).wf(),
            final(self)@.len() <= old(self)@.len() + 1,
            forall|x: Seq<u8>|
                #![trigger dict_contains(final(self)@, x)]
                #![trigger dict_contains(old(self)@, x)]
                dict_contains(final(self)@, x) <==> dict_contains(old(self)@, x) || x == w@,
    {
        let n = self.words.len();
        let mut k: usize = 0;
        while k < n && self.words[k].lt_word(w)
            invariant
                k <= n,
                n == self@.len(),
                self == old(self),
                self.wf(),
                w.wf(),
                forall|j: int| 0 <= j < k ==> lex_lt((#[trigger] self@[j])@, w@),
            decreases n - k,
        {
            k += 1;
        }
        // Here every word before position k is strictly below w, and the
        // word at position k (if any) is not strictly below w.
        if k < n && self.words[k].eq_word(w) {
            proof {
                assert(dict_contains(old(self)@, w@)) by {
                    assert(old(self)@[k as int]@ == w@);
                }
            }
            return;
        }
        proof {
            if k < n {
                // Not below and not equal, so w is strictly below it.
                lemma_lex_le_total(w@, old(self)@[k as int]@);
                assert(lex_lt(w@, old(self)@[k as int]@));
            }
        }
        let ghost prev = self@;
        self.words.insert(k, w.clone());
        proof {
            let s = self@;
            assert(s == prev.insert(k as int, s[k as int]));
            assert(s[k as int]@ == w@);
            prev.insert_ensures(k as int, s[k as int]);
            assert forall|i: int, j: int| 0 <= i < j < s.len() implies lex_lt(s[i]@, s[j]@) by {
                if j < k {
                    assert(lex_lt(prev[i]@, prev[j]@));
                } else if j == k {
                    assert(s[j]@ == w@);
                    assert(lex_lt(prev[i]@, w@));
                } else if i < k {
                    assert(s[j] == prev[j - 1]);
                    if i < j - 1 {
                        assert(lex_lt(prev[i]@, prev[j - 1]@));
                    }
                } else if i == k {
                    assert(s[i]@ == w@);
                    assert(s[j] == prev[j - 1]);
                    assert(lex_lt(w@, prev[k as int]@));
                    if j - 1 > k {
                        assert(lex_lt(prev[k as int]@, prev[j - 1]@));
                        lemma_lex_le_trans(w@, prev[k as int]@, prev[j - 1]@);
                        assert(w@ != prev[j - 1]@) by {
                            if w@ == prev[j - 1]@ {
                                assert(lex_lt(prev[k as int]@, w@));
                            }
                        }
                    }
                } else {
                    assert(s[i] == prev[i - 1]);
                    assert(s[j] == prev[j - 1]);
                    assert(lex_lt(prev[i - 1]@, prev[j - 1]@));
                }
            }
            assert forall|x: Seq<u8>|
                dict_contains(s, x) <==> dict_contains(prev, x) || x == w@ by {
                if dict_contains(s, x) {
                    let i = choose|i: int| 0 <= i < s.len() && s[i]@ == x;
                    if i < k {
                        assert(prev[i]@ == x);
                    } else if i == k {
                        assert(x == w@);
                    } else {
                        assert(prev[i - 1]@ == x);
                    }
                }
                if dict_contains(prev, x) {
                    let i = choose|i: int| 0 <= i < prev.len() && prev[i]@ == x;
                    if i < k {
                        assert(s[i]@ == x);
                    } else {
                        assert(s[i + 1]@ == x);
                    }
                }
                if x == w@ {
                    assert(s[k as int]@ == x);
                }
            }
        }
    }

    /// Whether every word of this dictionary also stands in `other`.
    pub fn is_subset(&self, other: &Dict) -> (r: bool)
        requires
            self.wf(),
            other.wf(),
        ensures
            r <==> (forall|i: int|
                0 <= i < self@.len() ==> dict_contains(other@, (#[trigger] self@[i])@)),
    {
        let n = self.words.len();
        let mut i: usize = 0;
        while i < n
            invariant
                i <= n,
                n == self@.len(),
                self.wf(),
                other.wf(),
                forall|j: int| 0 <= j < i ==> dict_contains(other@, (#[trigger] self@[j])@),
            decreases n - i,
        {
            if !other.contains(&self.words[i]) {
                return false;
            }
            i += 1;
        }
        true
    }
}

impl Clone for Dict {
    /// Cloning preserves the words' letters and their order.
    fn clone(&self) -> (r: Self)
        ensures
            r@.len() == self@.len(),
            forall|i: int| 0 <= i < self@.len() ==> (#[trigger] r@[i])@ == self@[i]@,
            word_views(r@) == word_views(self@),
            self.wf() ==> r.wf(),
    {
        let n = self.words.len();
        let mut words: Vec<Word> = Vec::new();
        let mut i: usize = 0;
        while i < n
            invariant
                i <= n,
                n == self@.len(),
                words@.len() == i,
                forall|j: int| 0 <= j < i ==> (#[trigger] words@[j])@ == self@[j]@,
            decreases n - i,
        {
            words.push(self.words[i].clone());
            i += 1;
        }
        let r = Dict { words };
        proof {
            assert(word_views(r@) =~= word_views(self@));
        }
        r
    }
}

/// Parses raw lines (one per word) into a dictionary, normalising case.
/// Fails if any line is not exactly five ASCII letters.
pub fn parse_dictionary(lines: &Vec<Vec<u8>>) -> (r: Result<Dict, LoadError>)
    ensures
        r is Ok <==> (forall|i: int| 0 <= i < lines@.len() ==> valid_letters((#[trigger] lines@[i])@)),
        r matches Ok(d) ==> d.wf() && (forall|x: Seq<u8>|
            #![trigger dict_contains(d@, x)]
            dict_contains(d@, x) <==> (exists|i: int|
                0 <= i < lines@.len() && normalized((#[trigger] lines@[i])@) == x)),
        r matches Err(e) ==> e == LoadError::InvalidWord,
{
    let n = lines.len();
    let mut dict = Dict::new();
    let mut i: usize = 0;
    while i < n
        invariant
            i <= n,
            n == lines@.len(),
            dict.wf(),
            forall|j: int| 0 <= j < i ==> valid_letters((#[trigger] lines@[j])@),
            forall|x: Seq<u8>|
                #![trigger dict_contains(dict@, x)]
                dict_contains(dict@, x) <==> (exists|j: int|
                    0 <= j < i && normalized((#[trigger] lines@[j])@) == x),
        decreases n - i,
    {
        let w = match Word::new(&lines[i]) {
            Some(w) => w,
            None => {
                return Err(LoadError::InvalidWord);
            },
        };
        let ghost prev = dict@;
        dict.insert(&w);
        proof {
            assert forall|x: Seq<u8>|
                dict_contains(dict@, x) <==> (exists|j: int|
                    0 <= j < i + 1 && normalized((#[trigger] lines@[j])@) == x) by {
                if dict_contains(dict@, x) {
                    if dict_contains(prev, x) {
                        let j = choose|j: int|
                            0 <= j < i && normalized((#[trigger] lines@[j])@) == x;
                        assert(0 <= j < i + 1 && normalized(lines@[j]@) == x);
                    } else {
                        assert(x == w@);
                        assert(normalized(lines@[i as int]@) == x);
                    }
                }
                if exists|j: int| 0 <= j < i + 1 && normalized((#[trigger] lines@[j])@) == x {
                    let j = choose|j: int|
                        0 <= j < i + 1 && normalized((#[trigger] lines@[j])@) == x;
                    if j < i {
                        assert(dict_contains(prev, x));
                    } else {
                        assert(x == w@);
                    }
                }
            }
        }
        i += 1;
    }
    Ok(dict)
}

/// Some line of `acceptable_lines` defines the same word as `line`,
/// up to case normalisation.
pub open spec fn line_covered(line: Vec<u8>, acceptable_lines: Seq<Vec<u8>>) -> bool {
    exists|j: int|
        0 <= j < acceptable_lines.len() && normalized((#[trigger] acceptable_lines[j])@)
            == normalized(line@)
}

/// Every word the first list of lines defines is also defined by the
/// second list, up to case normalisation.
pub open spec fn lines_subset(final_lines: Seq<Vec<u8>>, acceptable_lines: Seq<Vec<u8>>) -> bool {
    forall|i: int|
        0 <= i < final_lines.len() ==> #[trigger] line_covered(final_lines[i], acceptable_lines)
}

/// Loads the final and acceptable word lists together, enforcing that the
/// final list is a subset of the acceptable list.
pub fn load_dictionaries(final_lines: &Vec<Vec<u8>>, acceptable_lines: &Vec<Vec<u8>>) -> (r: Result<
    (Dict, Dict),
    LoadError,
>)
    ensures
        r is Ok <==> ({
            &&& (forall|i: int|
                0 <= i < final_lines@.len() ==> valid_letters((#[trigger] final_lines@[i])@))
            &&& (forall|i: int|
                0 <= i < acceptable_lines@.len() ==> valid_letters(
                    (#[trigger] acceptable_lines@[i])@,
                ))
            &&& lines_subset(final_lines@, acceptable_lines@)
        }),
        r matches Ok(p) ==> ({
            &&& p.0.wf()
            &&& p.1.wf()
            &&& (forall|x: Seq<u8>|
                #![trigger dict_contains(p.0@, x)]
                dict_contains(p.0@, x) <==> (exists|i: int|
                    0 <= i < final_lines@.len() && normalized((#[trigger] final_lines@[i])@) == x))
            &&& (forall|x: Seq<u8>|
                #![trigger dict_contains(p.1@, x)]
                dict_contains(p.1@, x) <==> (exists|i: int|
                    0 <= i < acceptable_lines@.len() && normalized(
                        (#[trigger] acceptable_lines@[i])@,
                    ) == x))
            &&& (forall|i: int|
                0 <= i < p.0@.len() ==> dict_contains(p.1@, (#[trigger] p.0@[i])@))
        }),
        r matches Err(e) && e == LoadError::InvalidWord <==> ((exists|i: int|
            0 <= i < final_lines@.len() && !valid_letters((#[trigger] final_lines@[i])@))
            || (exists|i: int|
            0 <= i < acceptable_lines@.len() && !valid_letters(
                (#[trigger] acceptable_lines@[i])@,
            ))),
{
    let final_dict = match parse_dictionary(final_lines) {
        Ok(d) => d,
        Err(e) => {
            return Err(e);
        },
    };
    let acceptable_dict = match parse_dictionary(acceptable_lines) {
        Ok(d) => d,
        Err(e) => {
            return Err(e);
        },
    };
    if !final_dict.is_subset(&acceptable_dict) {
        proof {
            // Some parsed final word is missing from the acceptable
            // dictionary, so the line lists cannot be in the subset
            // relation either.
            let k = choose|k: int|
                0 <= k < final_dict@.len() && !dict_contains(
                    acceptable_dict@,
                    (#[trigger] final_dict@[k])@,
                );
            let x = final_dict@[k]@;
            assert(dict_contains(final_dict@, x)) by {
                assert(final_dict@[k]@ == x);
            }
            if lines_subset(final_lines@, acceptable_lines@) {
                let i = choose|i: int|
                    0 <= i < final_lines@.len() && normalized((#[trigger] final_lines@[i])@) == x;
                assert(line_covered(final_lines@[i], acceptable_lines@));
                let j = choose|j: int|
                    0 <= j < acceptable_lines@.len() && normalized(
                        (#[trigger] acceptable_lines@[j])@,
                    ) == normalized(final_lines@[i]@);
                assert(normalized(acceptable_lines@[j]@) == x);
                assert(dict_contains(acceptable_dict@, x));
            }
        }
        return Err(LoadError::NotSubset);
    }
    proof {
        assert forall|i: int| 0 <= i < final_lines@.len() implies line_covered(
            final_lines@[i],
            acceptable_lines@,
        ) by {
            let x = normalized(final_lines@[i]@);
            assert(exists|t: int|
                0 <= t < final_lines@.len() && normalized((#[trigger] final_lines@[t])@) == x) by {
                assert(normalized(final_lines@[i]@) == x);
            }
            assert(dict_contains(final_dict@, x));
            let k = choose|k: int| 0 <= k < final_dict@.len() && final_dict@[k]@ == x;
            assert(dict_contains(acceptable_dict@, (final_dict@[k])@));
        }
        assert(lines_subset(final_lines@, acceptable_lines@));
    }
    Ok((final_dict, acceptable_dict))
}

} // verus!
