//! Automatic play.
//!
//! The automatic player always guesses the best-ranked word of the
//! current candidate set, scores it against the answer, and prunes the
//! candidates by the feedback.  The best word is unique (maximal
//! entropy, lexicographically least among ties), so the whole round is
//! a function of the answer and the starting set: `spec_auto_outcome`
//! names it, and `play_auto_round` is proved to return exactly that.
//! Soundness of the filter keeps the answer in the candidate set, so
//! the set never empties and the loop never lacks a suggestion.

use vstd::prelude::*;
use crate::word::{Word, lex_le, lemma_lex_le_total, lemma_lex_le_antisym};
use crate::dict::{Dict, dict_contains, lemma_dict_contains_views, word_views};
use crate::feedback::{score, spec_score};
use crate::filter::{consistent_with, filter, lemma_filter_sound};
use crate::entropy::{rank, spec_entropy};
use crate::order::{ScoredWord, ranked_views, ranking_order};

verus! {

/// Whether `w` is the word the ranking puts first among the candidate
/// letter sequences: it is one of them, and no other beats it (higher
/// entropy, or equal entropy and lexicographically smaller).
pub open spec fn is_best_guess(cands: Seq<Seq<u8>>, w: Seq<u8>) -> bool {
    &&& cands.contains(w)
    &&& (forall|i: int|
        0 <= i < cands.len() ==> spec_entropy(cands, w) > spec_entropy(cands, #[trigger] cands[i])
            || (spec_entropy(cands, w) == spec_entropy(cands, cands[i]) && lex_le(w, cands[i])))
}

/// The word the ranking puts first.  `lemma_best_guess_unique` shows
/// there is at most one such word, so this pins it completely.
pub open spec fn best_guess(cands: Seq<Seq<u8>>) -> Seq<u8> {
    choose|w: Seq<u8>| is_best_guess(cands, w)
}

/// At most one word can stand first in the ranking: two bests beat each
/// other, so they tie on entropy and order each other both ways.
pub proof fn lemma_best_guess_unique(cands: Seq<Seq<u8>>, w1: Seq<u8>, w2: Seq<u8>)
    requires
        is_best_guess(cands, w1),
        is_best_guess(cands, w2),
    ensures
        w1 == w2,
{
    let i1 = choose|i: int| 0 <= i < cands.len() && cands[i] == w1;
    let i2 = choose|i: int| 0 <= i < cands.len() && cands[i] == w2;
    assert(spec_entropy(cands, w1) > spec_entropy(cands, cands[i2]) || (spec_entropy(cands, w1)
        == spec_entropy(cands, cands[i2]) && lex_le(w1, cands[i2])));
    assert(spec_entropy(cands, w2) > spec_entropy(cands, cands[i1]) || (spec_entropy(cands, w2)
        == spec_entropy(cands, cands[i1]) && lex_le(w2, cands[i1])));
    lemma_lex_le_antisym(w1, w2);
}

/// The outcome of automatic play from a candidate set at a given
/// attempt number: guess the best word; a hit wins at this attempt, a
/// miss filters the candidates by the feedback and plays on, and the
/// round is lost once the six attempts are spent.
pub open spec fn spec_auto_outcome(cands: Seq<Seq<u8>>, answer: Seq<u8>, attempt: int) -> Option<
    u32,
>
    decreases 7 - attempt,
{
    if attempt > 6 {
        None
    } else {
        let g = best_guess(cands);
        if g == answer {
            Some(attempt as u32)
        } else {
            spec_auto_outcome(
                cands.filter(consistent_with(g, spec_score(answer, g))),
                answer,
                attempt + 1,
            )
        }
    }
}

/// The suggestion the ranking puts first: its score is its entropy
/// against the candidate set, and no candidate beats it under the
/// ranking order (higher entropy, then the lexicographically smaller
/// word).
pub fn best_suggestion(candidates: &Dict) -> (r: ScoredWord)
    requires
        candidates.wf(),
        1 <= candidates@.len() <= 0x1_0000_0000,
    ensures
        r.word.wf(),
        word_views(candidates@).contains(r.word@),
        r.score == spec_entropy(word_views(candidates@), r.word@),
        forall|i: int|
            0 <= i < candidates@.len() ==> r.score > spec_entropy(
                word_views(candidates@),
                (#[trigger] candidates@[i])@,
            ) || (r.score == spec_entropy(word_views(candidates@), candidates@[i]@) && lex_le(
                r.word@,
                candidates@[i]@,
            )),
        r.word@ == best_guess(word_views(candidates@)),
{
    let ghost views = word_views(candidates@);
    let mut ranking = rank(candidates, candidates);
    let ghost full = ranking@;
    let r = ranking.remove(0);
    proof {
        broadcast use vstd::seq_lib::group_to_multiset_ensures;

        assert(r == full[0]);
        // The top entry's word comes from the candidate set.
        assert(ranked_views(full)[0] == r.word@);
        assert(ranked_views(full).contains(r.word@));
        assert(ranked_views(full).to_multiset().count(r.word@) > 0);
        assert(views.to_multiset().count(r.word@) > 0);
        assert(views.contains(r.word@));
        let w = choose|w: int| 0 <= w < views.len() && views[w] == r.word@;
        assert(candidates@[w].wf());
        assert(r.word.wf());
        // Every candidate appears somewhere in the ranking, where the
        // top entry is at or before it under the ranking order.
        assert forall|i: int| 0 <= i < candidates@.len() implies r.score > spec_entropy(
            views,
            (#[trigger] candidates@[i])@,
        ) || (r.score == spec_entropy(views, candidates@[i]@) && lex_le(
            r.word@,
            candidates@[i]@,
        )) by {
            assert(views[i] == candidates@[i]@);
            assert(views.contains(candidates@[i]@));
            assert(views.to_multiset().count(candidates@[i]@) > 0);
            assert(ranked_views(full).to_multiset().count(candidates@[i]@) > 0);
            assert(ranked_views(full).contains(candidates@[i]@));
            let j = choose|j: int|
                0 <= j < ranked_views(full).len() && ranked_views(full)[j] == candidates@[i]@;
            assert(full[j].word@ == candidates@[i]@);
            assert(full[j].score == spec_entropy(views, candidates@[i]@));
            if j == 0 {
                lemma_lex_le_total(r.word@, r.word@);
            } else {
                assert(ranking_order()(full[0], full[j]));
            }
        }
        // That makes the top word the (unique) best guess.
        assert(is_best_guess(views, r.word@)) by {
            assert forall|i: int| 0 <= i < views.len() implies spec_entropy(views, r.word@)
                > spec_entropy(views, #[trigger] views[i]) || (spec_entropy(views, r.word@)
                == spec_entropy(views, views[i]) && lex_le(r.word@, views[i])) by {
                assert(views[i] == candidates@[i]@);
            }
        }
        assert(is_best_guess(views, best_guess(views)));
        lemma_best_guess_unique(views, best_guess(views), r.word@);
    }
    r
}

/// Plays one round automatically: exactly the outcome of the
/// best-suggestion trajectory, the attempt number of the winning guess
/// or `None` once the six attempts are spent.
pub fn play_auto_round(answer: &Word, acceptable: &Dict) -> (r: Option<u32>)
    requires
        answer.wf(),
        acceptable.wf(),
        dict_contains(acceptable@, answer@),
        acceptable@.len() <= 0x1_0000_0000,
    ensures
        r == spec_auto_outcome(word_views(acceptable@), answer@, 1),
        r matches Some(k) ==> 1 <= k <= 6,
{
    let mut cands = acceptable.clone();
    proof {
        lemma_dict_contains_views(acceptable@, answer@);
        lemma_dict_contains_views(cands@, answer@);
    }
    let mut attempt: u32 = 1;
    while attempt <= 6
        invariant
            1 <= attempt <= 7,
            answer.wf(),
            cands.wf(),
            dict_contains(cands@, answer@),
            cands@.len() <= 0x1_0000_0000,
            spec_auto_outcome(word_views(acceptable@), answer@, 1) == spec_auto_outcome(
                word_views(cands@),
                answer@,
                attempt as int,
            ),
        decreases 7 - attempt,
    {
        let ghost views = word_views(cands@);
        let top = best_suggestion(&cands);
        if top.word.eq_word(answer) {
            proof {
                assert(spec_auto_outcome(views, answer@, attempt as int) == Some(attempt));
            }
            return Some(attempt);
        }
        let pat = score(answer, &top.word);
        let ghost prev = cands@;
        let next = filter(&cands, &top.word, &pat);
        proof {
            lemma_dict_contains_views(prev, answer@);
            lemma_filter_sound(word_views(prev), top.word@, answer@);
            lemma_dict_contains_views(next@, answer@);
            assert(word_views(next@) == views.filter(
                consistent_with(best_guess(views), spec_score(answer@, best_guess(views))),
            ));
            assert(spec_auto_outcome(views, answer@, attempt as int) == spec_auto_outcome(
                word_views(next@),
                answer@,
                attempt + 1,
            ));
        }
        cands = next;
        attempt += 1;
    }
    proof {
        assert(spec_auto_outcome(word_views(cands@), answer@, attempt as int) == None::<u32>);
    }
    None
}

} // verus!
