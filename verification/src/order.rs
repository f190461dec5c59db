//! The shared ranking order.
//!
//! Both the entropy ranker's suggestion list and any most-guessed-word
//! leaderboard built on top of it use the same total order: primary
//! numeric score, descending; among equal scores the lexicographically
//! smaller word first.  The order and the sort are implemented once here.

use vstd::prelude::*;
use vstd::relations::sorted_by;
use crate::word::{Word, lex_le, lex_le_bytes, lemma_lex_le_total, lemma_lex_le_trans};

verus! {

/// A word carrying a numeric score: an entropy value scaled by 10^9, or
/// a use count for a leaderboard.
pub struct ScoredWord {
    pub word: Word,
    pub score: u64,
}

/// `a` may stand at or before `b` in a ranking: higher score first, and
/// among equal scores the lexicographically smaller word first.
pub open spec fn ranked_before(a: ScoredWord, b: ScoredWord) -> bool {
    a.score > b.score || (a.score == b.score && lex_le(a.word@, b.word@))
}

/// The ranking order as a relation value, for use with `sorted_by`.
pub open spec fn ranking_order() -> spec_fn(ScoredWord, ScoredWord) -> bool {
    |a: ScoredWord, b: ScoredWord| ranked_before(a, b)
}

/// The letter sequences of the entries' words, in order.
pub open spec fn ranked_views(items: Seq<ScoredWord>) -> Seq<Seq<u8>> {
    items.map_values(|s: ScoredWord| s.word@)
}

/// Any two scored words are ordered one way or the other.
pub proof fn lemma_ranked_total(a: ScoredWord, b: ScoredWord)
    ensures
        ranked_before(a, b) || ranked_before(b, a),
{
    if a.score == b.score {
        lemma_lex_le_total(a.word@, b.word@);
    }
}

/// The ranking order is transitive.
pub proof fn lemma_ranked_trans(a: ScoredWord, b: ScoredWord, c: ScoredWord)
    requires
        ranked_before(a, b),
        ranked_before(b, c),
    ensures
        ranked_before(a, c),
{
    if a.score == b.score && b.score == c.score {
        lemma_lex_le_trans(a.word@, b.word@, c.word@);
    }
}

/// Ranking tie-break: among entries with the same score, the
/// lexicographically smaller word stands earlier in a sorted ranking.
pub proof fn lemma_tie_break(r: Seq<ScoredWord>, i: int, j: int)
    requires
        sorted_by(r, ranking_order()),
        0 <= i < j < r.len(),
        r[i].score == r[j].score,
    ensures
        lex_le(r[i].word@, r[j].word@),
{
    assert(ranking_order()(r[i], r[j]));
}

/// Executable form of the ranking order.
pub fn ranked_before_exec(a: &ScoredWord, b: &ScoredWord) -> (r: bool)
    ensures
        r == ranked_before(*a, *b),
{
    if a.score > b.score {
        true
    } else if a.score < b.score {
        false
    } else {
        lex_le_bytes(a.word.letters(), b.word.letters())
    }
}

/// Sorts scored words into ranking order by insertion sort.  The result
/// is a permutation of the input: same entries, same multiplicities.
pub fn sort_ranked(items: Vec<ScoredWord>) -> (r: Vec<ScoredWord>)
    ensures
        sorted_by(r@, ranking_order()),
        r@.to_multiset() == items@.to_multiset(),
        ranked_views(r@).to_multiset() == ranked_views(items@).to_multiset(),
        r@.len() == items@.len(),
{
    broadcast use vstd::seq_lib::group_to_multiset_ensures;
    broadcast use vstd::seq_lib::to_multiset_insert;

    let ghost all = items@;
    let mut rest = items;
    let mut out: Vec<ScoredWord> = Vec::new();
    while rest.len() > 0
        invariant
            sorted_by(out@, ranking_order()),
            out@.to_multiset().add(rest@.to_multiset()) == all.to_multiset(),
            ranked_views(out@).to_multiset().add(ranked_views(rest@).to_multiset())
                == ranked_views(all).to_multiset(),
            out@.len() + rest@.len() == all.len(),
        decreases rest@.len(),
    {
        let ghost rest_before = rest@;
        let item = match rest.pop() {
            Some(x) => x,
            None => {
                // Unreachable: the loop condition keeps `rest` non-empty.
                proof {
                    assert(false);
                }
                return out;
            },
        };
        proof {
            broadcast use vstd::seq_lib::group_to_multiset_ensures;

            assert(rest@.push(item) =~= rest_before);
            assert(rest@.push(item).to_multiset() =~= rest@.to_multiset().insert(item));
            assert(rest_before.to_multiset() == rest@.to_multiset().insert(item));
            assert(ranked_views(rest@).push(item.word@) =~= ranked_views(rest_before));
            assert(ranked_views(rest@).push(item.word@).to_multiset() =~= ranked_views(
                rest@,
            ).to_multiset().insert(item.word@));
            assert(ranked_views(rest_before).to_multiset() == ranked_views(
                rest@,
            ).to_multiset().insert(item.word@));
        }
        let mut k: usize = 0;
        while k < out.len() && ranked_before_exec(&out[k], &item)
            invariant
                k <= out@.len(),
                sorted_by(out@, ranking_order()),
                forall|j: int| 0 <= j < k ==> ranked_before(#[trigger] out@[j], item),
            decreases out@.len() - k,
        {
            k += 1;
        }
        proof {
            if k < out@.len() {
                lemma_ranked_total(out@[k as int], item);
                assert(ranked_before(item, out@[k as int]));
            }
        }
        let ghost out_before = out@;
        out.insert(k, item);
        proof {
            broadcast use vstd::seq_lib::group_to_multiset_ensures;
            broadcast use vstd::seq_lib::to_multiset_insert;

            let s = out@;
            assert(s == out_before.insert(k as int, item));
            out_before.insert_ensures(k as int, item);
            assert forall|a: int, b: int| 0 <= a < b < s.len() implies ranking_order()(
                s[a],
                s[b],
            ) by {
                if b < k {
                    assert(ranking_order()(out_before[a], out_before[b]));
                } else if b == k {
                    assert(s[b] == item);
                    assert(ranked_before(out_before[a], item));
                } else if a == k {
                    assert(s[a] == item);
                    assert(s[b] == out_before[b - 1]);
                    if b - 1 > k {
                        assert(ranking_order()(out_before[k as int], out_before[b - 1]));
                        lemma_ranked_trans(item, out_before[k as int], out_before[b - 1]);
                    }
                } else if a < k {
                    assert(s[b] == out_before[b - 1]);
                    if a < b - 1 {
                        assert(ranking_order()(out_before[a], out_before[b - 1]));
                    }
                } else {
                    assert(s[a] == out_before[a - 1]);
                    assert(s[b] == out_before[b - 1]);
                    assert(ranking_order()(out_before[a - 1], out_before[b - 1]));
                }
            }
            assert(s.to_multiset() == out_before.to_multiset().insert(item));
            assert(s.to_multiset().add(rest@.to_multiset()) =~= all.to_multiset());
            assert(ranked_views(s) =~= ranked_views(out_before).insert(k as int, item.word@));
            assert(ranked_views(out_before).insert(k as int, item.word@).to_multiset()
                == ranked_views(out_before).to_multiset().insert(item.word@));
            assert(ranked_views(s).to_multiset().add(ranked_views(rest@).to_multiset())
                =~= ranked_views(all).to_multiset());
        }
    }
    proof {
        assert(rest@.to_multiset().len() == 0);
        assert(out@.to_multiset() =~= all.to_multiset());
        assert(ranked_views(rest@) =~= Seq::<Seq<u8>>::empty());
        assert(ranked_views(rest@).to_multiset().len() == 0);
        assert(ranked_views(out@).to_multiset() =~= ranked_views(all).to_multiset());
    }
    out
}

} // verus!
