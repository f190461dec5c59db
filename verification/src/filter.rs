//! The candidate filter.
//!
//! A candidate word survives a round of feedback exactly when
//! hypothesising it as the true secret would have produced the feedback
//! that was actually observed for the guess.  The filter is defined
//! entirely in terms of the feedback engine, so the scoring rule and the
//! filtering rule cannot drift apart.

use vstd::prelude::*;
use crate::word::{Word, lex_lt};
use crate::dict::{Dict, word_views};
use crate::feedback::{FeedbackSymbol, Pattern, score, spec_score};

verus! {

/// The survival predicate: a candidate's letters, scored as the secret
/// against the guess, must reproduce the observed feedback.
pub open spec fn consistent_with(guess: Seq<u8>, observed: Seq<FeedbackSymbol>) -> spec_fn(
    Seq<u8>,
) -> bool {
    |w: Seq<u8>| spec_score(w, guess) == observed
}

/// Keeps exactly the candidates consistent with the observed feedback,
/// in their original order.  The result never grows.
pub fn filter(candidates: &Dict, guess: &Word, observed: &Pattern) -> (r: Dict)
    requires
        candidates.wf(),
        guess.wf(),
        observed.wf(),
    ensures
        r.wf(),
        word_views(r@) == word_views(candidates@).filter(consistent_with(guess@, observed@)),
        r@.len() <= candidates@.len(),
{
    let ghost pred = consistent_with(guess@, observed@);
    let n = candidates.len();
    let mut out: Vec<Word> = Vec::new();
    let ghost mut src: Seq<int> = Seq::empty();
    let mut i: usize = 0;
    proof {
        broadcast use vstd::seq_lib::group_seq_properties;

        assert(word_views(candidates@.subrange(0, 0)).filter(pred) =~= word_views(out@));
    }
    while i < n
        invariant
            i <= n,
            n == candidates@.len(),
            candidates.wf(),
            guess.wf(),
            observed.wf(),
            pred == consistent_with(guess@, observed@),
            word_views(out@) == word_views(candidates@.subrange(0, i as int)).filter(pred),
            src.len() == out@.len(),
            forall|j: int| 0 <= j < src.len() ==> 0 <= #[trigger] src[j] < i,
            forall|j: int, k: int| 0 <= j < k < src.len() ==> src[j] < src[k],
            forall|j: int| 0 <= j < src.len() ==> out@[j]@ == candidates@[#[trigger] src[j]]@,
            forall|j: int| 0 <= j < out@.len() ==> (#[trigger] out@[j]).wf(),
        decreases n - i,
    {
        let w = candidates.word_at(i);
        let p = score(w, guess);
        let keep = p.eq_pattern(observed);
        proof {
            broadcast use Seq::lemma_filter_push;

            assert(word_views(candidates@.subrange(0, i + 1)) =~= word_views(
                candidates@.subrange(0, i as int),
            ).push(candidates@[i as int]@));
        }
        if keep {
            out.push(w.clone());
            proof {
                src = src.push(i as int);
                assert(word_views(out@) =~= word_views(candidates@.subrange(0, i as int)).filter(
                    pred,
                ).push(candidates@[i as int]@));
            }
        } else {
            proof {
                assert(word_views(out@) =~= word_views(candidates@.subrange(0, i + 1)).filter(
                    pred,
                ));
            }
        }
        i += 1;
    }
    proof {
        assert(candidates@.subrange(0, n as int) =~= candidates@);
        broadcast use Seq::lemma_filter_len;

    }
    let r = Dict::from_words(out);
    proof {
        assert forall|j: int, k: int| 0 <= j < k < r@.len() implies lex_lt(r@[j]@, r@[k]@) by {
            assert(r@[j]@ == candidates@[src[j]]@);
            assert(r@[k]@ == candidates@[src[k]]@);
            assert(lex_lt(candidates@[src[j]]@, candidates@[src[k]]@));
        }
        assert(r@.len() == word_views(r@).len());
        assert(word_views(candidates@).filter(pred).len() <= word_views(candidates@).len());
    }
    r
}

/// Soundness of the filter: a secret that stands among the candidates
/// survives filtering by its own feedback, whatever the guess.
pub proof fn lemma_filter_sound(cands: Seq<Seq<u8>>, guess: Seq<u8>, secret: Seq<u8>)
    requires
        cands.contains(secret),
    ensures
        cands.filter(consistent_with(guess, spec_score(secret, guess))).contains(secret),
{
    let i = choose|i: int| 0 <= i < cands.len() && cands[i] == secret;
    cands.lemma_filter_contains(consistent_with(guess, spec_score(secret, guess)), i);
}

/// A filter whose feedback every candidate already satisfies leaves the
/// candidate sequence unchanged.
pub proof fn lemma_filter_noop(cands: Seq<Seq<u8>>, guess: Seq<u8>, observed: Seq<FeedbackSymbol>)
    requires
        forall|i: int| 0 <= i < cands.len() ==> spec_score(#[trigger] cands[i], guess) == observed,
    ensures
        cands.filter(consistent_with(guess, observed)) == cands,
    decreases cands.len(),
{
    reveal(Seq::filter);
    if cands.len() != 0 {
        lemma_filter_noop(cands.drop_last(), guess, observed);
        assert(consistent_with(guess, observed)(cands.last()));
        assert(cands.drop_last().push(cands.last()) =~= cands);
        assert(cands.filter(consistent_with(guess, observed)) =~= cands);
    }
}

} // verus!
