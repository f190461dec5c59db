//! The entropy ranker.
//!
//! For each pool word, the candidate set is partitioned into the 243
//! feedback buckets that the word could produce, and the expected
//! information gain is summed over the buckets.  Buckets holding zero or
//! one candidate are deliberately excluded from the sum; that exclusion
//! is part of the ranking's definition and must not be "corrected".
//!
//! Scores are integers: the logarithm is computed in fixed point by the
//! classic square-and-compare method and scaled by 10^9, which gives a
//! deterministic, exactly reproducible total order with no floating
//! point anywhere.

use vstd::prelude::*;
use vstd::arithmetic::power2::{pow2, lemma2_to64, lemma_pow2_unfold};
use vstd::arithmetic::div_mod::{
    lemma_div_is_ordered, lemma_div_is_ordered_by_denominator, lemma_div_multiples_vanish,
};
use vstd::arithmetic::mul::lemma_mul_inequality;
use vstd::relations::sorted_by;
use crate::word::Word;
use crate::dict::{Dict, word_views};
use crate::feedback::{encode, encode_pattern, score, spec_score};
use crate::order::{ScoredWord, ranked_views, ranking_order, sort_ranked};

verus! {

/// One fractional bit of the base-2 logarithm per step: the running
/// value, held in `[2^31, 2^32)`, is squared and renormalised; each step
/// yields the next bit, most significant first.
pub open spec fn frac_bits(x: nat, steps: nat) -> nat
    decreases steps,
{
    if steps == 0 {
        0
    } else {
        let sq = (x * x) / 0x8000_0000;
        if sq >= 0x1_0000_0000 {
            pow2((steps - 1) as nat) + frac_bits(sq / 2, (steps - 1) as nat)
        } else {
            frac_bits(sq, (steps - 1) as nat)
        }
    }
}

/// How many halvings bring `x` below `2^32`.
pub open spec fn norm_shift(x: nat) -> nat
    decreases x,
{
    if x < 0x1_0000_0000 {
        0
    } else {
        1 + norm_shift(x / 2)
    }
}

/// The value of `x` after those halvings.
pub open spec fn norm_value(x: nat) -> nat
    decreases x,
{
    if x < 0x1_0000_0000 {
        x
    } else {
        norm_value(x / 2)
    }
}

/// The base-2 logarithm of `n / c`, scaled by 10^9 and truncated to an
/// integer: integer part from normalisation, 30 fractional bits from
/// `frac_bits`, rescaled from base 2^30 to base 10^9.
pub open spec fn spec_log2_scaled(n: nat, c: nat) -> nat
    recommends
        1 <= c <= n,
{
    let x0 = (n * 0x8000_0000) / c;
    norm_shift(x0) * 1_000_000_000 + (frac_bits(norm_value(x0), 30) * 1_000_000_000) / 0x4000_0000
}

/// A bound on how many halvings a bounded value can need.
proof fn lemma_norm_shift_le(x: nat, s: nat)
    requires
        x < 0x1_0000_0000 * pow2(s),
    ensures
        norm_shift(x) <= s,
    decreases s,
{
    lemma2_to64();
    if s == 0 {
    } else if x < 0x1_0000_0000 {
    } else {
        assert(pow2(s) == 2 * pow2((s - 1) as nat)) by {
            lemma_pow2_unfold(s);
        }
        lemma_norm_shift_le(x / 2, (s - 1) as nat);
    }
}

/// Executable powers of two.
fn pow2_exec(k: u64) -> (r: u64)
    requires
        k <= 62,
    ensures
        r == pow2(k as nat),
    decreases k,
{
    proof {
        lemma2_to64();
        vstd::arithmetic::power2::lemma2_to64_rest();
    }
    if k == 0 {
        1
    } else {
        let half = pow2_exec(k - 1);
        proof {
            assert(pow2(k as nat) == 2 * pow2((k - 1) as nat)) by {
                lemma_pow2_unfold(k as nat);
            }
            assert(pow2(k as nat) <= pow2(62)) by {
                if (k as nat) < 62 {
                    vstd::arithmetic::power2::lemma_pow2_strictly_increases(k as nat, 62);
                }
            }
        }
        2 * half
    }
}

/// Executable form of `frac_bits`.
fn frac_bits_exec(x: u64, steps: u64) -> (r: u64)
    requires
        0x8000_0000 <= x < 0x1_0000_0000,
        steps <= 30,
    ensures
        r == frac_bits(x as nat, steps as nat),
        r < pow2(steps as nat),
    decreases steps,
{
    proof {
        lemma2_to64();
    }
    if steps == 0 {
        0
    } else {
        proof {
            assert((x as nat) * (x as nat) < 0x1_0000_0000_0000_0000) by (nonlinear_arith)
                requires
                    x < 0x1_0000_0000,
            ;
            assert((x as nat) * (x as nat) >= 0x4000_0000_0000_0000) by (nonlinear_arith)
                requires
                    x >= 0x8000_0000,
            ;
        }
        let sq = x * x / 0x8000_0000;
        proof {
            lemma_div_is_ordered(0x4000_0000_0000_0000, (x * x) as int, 0x8000_0000);
            assert(0x4000_0000_0000_0000int / 0x8000_0000int == 0x8000_0000int);
            assert(sq >= 0x8000_0000);
            assert(sq < 0x2_0000_0000) by {
                lemma_div_is_ordered((x * x) as int, 0xFFFF_FFFF_FFFF_FFFF, 0x8000_0000);
                assert(0xFFFF_FFFF_FFFF_FFFFint / 0x8000_0000int < 0x2_0000_0000);
            }
        }
        if sq >= 0x1_0000_0000 {
            let bit = pow2_exec(steps - 1);
            let rest = frac_bits_exec(sq / 2, steps - 1);
            proof {
                assert(pow2(steps as nat) == 2 * pow2((steps - 1) as nat)) by {
                    lemma_pow2_unfold(steps as nat);
                }
            }
            bit + rest
        } else {
            frac_bits_exec(sq, steps - 1)
        }
    }
}

/// Computes the scaled base-2 logarithm of `n / c`.
fn log2_scaled(n: u64, c: u64) -> (r: u64)
    requires
        1 <= c <= n,
        n <= 0x1_0000_0000,
    ensures
        r == spec_log2_scaled(n as nat, c as nat),
        r <= 33_000_000_000,
{
    proof {
        lemma2_to64();
        lemma_mul_inequality(c as int, n as int, 0x8000_0000);
        assert(n * 0x8000_0000 <= 0x8000_0000_0000_0000) by (nonlinear_arith)
            requires
                n <= 0x1_0000_0000,
        ;
    }
    let x0 = n * 0x8000_0000 / c;
    proof {
        lemma_div_is_ordered((c * 0x8000_0000) as int, (n * 0x8000_0000) as int, c as int);
        lemma_div_multiples_vanish(0x8000_0000, c as int);
        assert(x0 >= 0x8000_0000);
        lemma_div_is_ordered((n * 0x8000_0000) as int, 0x8000_0000_0000_0000, c as int);
        lemma_div_is_ordered_by_denominator(0x8000_0000_0000_0000, 1, c as int);
        assert(x0 <= 0x8000_0000_0000_0000);
    }
    let mut x = x0;
    let mut k: u64 = 0;
    proof {
        assert(x0 < 0x1_0000_0000 * pow2(32)) by {
            lemma2_to64();
        }
        lemma_norm_shift_le(x0 as nat, 32);
    }
    while x >= 0x1_0000_0000
        invariant
            0x8000_0000 <= x,
            norm_value(x as nat) == norm_value(x0 as nat),
            norm_shift(x0 as nat) == k + norm_shift(x as nat),
            norm_shift(x0 as nat) <= 32,
        decreases x,
    {
        x = x / 2;
        k = k + 1;
    }
    proof {
        assert(norm_value(x as nat) == x as nat);
        assert(norm_shift(x as nat) == 0);
        assert(k == norm_shift(x0 as nat));
        assert(k <= 32);
    }
    let f = frac_bits_exec(x, 30);
    proof {
        assert(pow2(30) == 0x4000_0000) by {
            lemma2_to64();
        }
        assert(f < 0x4000_0000);
        lemma_mul_inequality(f as int, 0x4000_0000, 1_000_000_000);
        lemma_div_is_ordered((f * 1_000_000_000) as int, 0x4000_0000int * 1_000_000_000int, 0x4000_0000);
        lemma_div_multiples_vanish(1_000_000_000, 0x4000_0000);
    }
    let scaled_frac = f * 1_000_000_000 / 0x4000_0000;
    k * 1_000_000_000 + scaled_frac
}

/// The bucket predicate: a candidate's letters fall in feedback bucket
/// `p` when scoring them against the guess encodes to `p`.
pub open spec fn in_bucket(guess: Seq<u8>, p: int) -> spec_fn(Seq<u8>) -> bool {
    |w: Seq<u8>| encode_pattern(spec_score(w, guess)) == p
}

/// How many candidates fall in feedback bucket `p` for a guess.
pub open spec fn bucket_count(cands: Seq<Seq<u8>>, guess: Seq<u8>, p: int) -> nat {
    cands.filter(in_bucket(guess, p)).len()
}

/// One bucket's contribution to the scaled entropy: buckets of zero or
/// one candidate contribute nothing.
pub open spec fn entropy_term(c: nat, n: nat) -> nat {
    if 2 <= c {
        (c * spec_log2_scaled(n, c)) / n
    } else {
        0
    }
}

/// The sum of the first `k` buckets' contributions.
pub open spec fn entropy_sum(cands: Seq<Seq<u8>>, guess: Seq<u8>, k: int) -> nat
    decreases k,
{
    if k <= 0 {
        0
    } else {
        entropy_sum(cands, guess, k - 1) + entropy_term(
            bucket_count(cands, guess, k - 1),
            cands.len(),
        )
    }
}

/// The scaled expected information gain of guessing `guess` against the
/// candidate set.
pub open spec fn spec_entropy(cands: Seq<Seq<u8>>, guess: Seq<u8>) -> nat {
    entropy_sum(cands, guess, 243)
}

/// Counts the candidates in each of the 243 feedback buckets.
fn pattern_counts(candidates: &Dict, guess: &Word) -> (r: Vec<u64>)
    requires
        candidates.wf(),
        guess.wf(),
        candidates@.len() <= 0x1_0000_0000,
    ensures
        r@.len() == 243,
        forall|p: int|
            0 <= p < 243 ==> #[trigger] r@[p] == bucket_count(word_views(candidates@), guess@, p),
        forall|p: int| 0 <= p < 243 ==> #[trigger] r@[p] <= candidates@.len(),
{
    let n = candidates.len();
    let mut counts: Vec<u64> = vec![0u64; 243];
    let mut i: usize = 0;
    proof {
        assert forall|p: int| 0 <= p < 243 implies counts@[p] == bucket_count(
            word_views(candidates@.subrange(0, 0)),
            guess@,
            p,
        ) by {
            reveal(Seq::filter);
            assert(word_views(candidates@.subrange(0, 0)) =~= Seq::<Seq<u8>>::empty());
        }
    }
    while i < n
        invariant
            i <= n,
            n == candidates@.len(),
            candidates.wf(),
            guess.wf(),
            counts@.len() == 243,
            forall|p: int|
                0 <= p < 243 ==> #[trigger] counts@[p] == bucket_count(
                    word_views(candidates@.subrange(0, i as int)),
                    guess@,
                    p,
                ),
            forall|p: int| 0 <= p < 243 ==> #[trigger] counts@[p] <= i,
        decreases n - i,
    {
        let w = candidates.word_at(i);
        let pat = score(w, guess);
        let idx = encode(&pat) as usize;
        let ghost e = candidates@[i as int]@;
        let ghost prefix = word_views(candidates@.subrange(0, i as int));
        let v = counts[idx];
        counts.set(idx, v + 1);
        proof {
            assert(word_views(candidates@.subrange(0, i + 1)) =~= prefix.push(e));
            assert forall|p: int| 0 <= p < 243 implies counts@[p] == bucket_count(
                word_views(candidates@.subrange(0, i + 1)),
                guess@,
                p,
            ) by {
                prefix.lemma_filter_len_push(in_bucket(guess@, p), e);
                assert(in_bucket(guess@, p)(e) <==> encode_pattern(spec_score(e, guess@)) == p);
            }
        }
        i += 1;
    }
    proof {
        assert(candidates@.subrange(0, n as int) =~= candidates@);
    }
    counts
}

/// The scaled entropy of one pool word against the candidate set.
pub fn entropy_of(candidates: &Dict, guess: &Word) -> (r: u64)
    requires
        candidates.wf(),
        guess.wf(),
        1 <= candidates@.len() <= 0x1_0000_0000,
    ensures
        r == spec_entropy(word_views(candidates@), guess@),
{
    let counts = pattern_counts(candidates, guess);
    let n: u64 = candidates.len() as u64;
    let ghost views = word_views(candidates@);
    proof {
        assert(views.len() == candidates@.len());
    }
    let mut sum: u64 = 0;
    let mut p: usize = 0;
    while p < 243
        invariant
            p <= 243,
            counts@.len() == 243,
            n == candidates@.len(),
            1 <= n <= 0x1_0000_0000,
            views == word_views(candidates@),
            views.len() == n,
            forall|q: int| 0 <= q < 243 ==> #[trigger] counts@[q] == bucket_count(views, guess@, q),
            forall|q: int| 0 <= q < 243 ==> #[trigger] counts@[q] <= n,
            sum == entropy_sum(views, guess@, p as int),
            sum <= 33_000_000_000 * p,
        decreases 243 - p,
    {
        let c = counts[p];
        if c >= 2 {
            let lg = log2_scaled(n, c);
            proof {
                assert((c as int) * (lg as int) <= 0x1_0000_0000int * 33_000_000_000int)
                    by (nonlinear_arith)
                    requires
                        c <= 0x1_0000_0000,
                        lg <= 33_000_000_000,
                ;
            }
            let wide = (c as u128) * (lg as u128);
            let t128 = wide / (n as u128);
            proof {
                lemma_mul_inequality(c as int, n as int, lg as int);
                lemma_div_is_ordered((c * lg) as int, (n * lg) as int, n as int);
                lemma_div_multiples_vanish(lg as int, n as int);
                assert((c * lg) as int / (n as int) <= lg);
            }
            let t = t128 as u64;
            proof {
                assert(t == entropy_term(c as nat, n as nat));
            }
            sum = sum + t;
        }
        proof {
            assert(entropy_sum(views, guess@, p + 1) == entropy_sum(views, guess@, p as int)
                + entropy_term(bucket_count(views, guess@, p as int), views.len()));
        }
        p += 1;
    }
    proof {
        assert(sum == spec_entropy(views, guess@));
    }
    sum
}

/// Ranks every pool word by its scaled entropy against the candidate
/// set: one entry per pool word, ordered by descending entropy with the
/// lexicographically smaller word first among ties.
pub fn rank(candidates: &Dict, pool: &Dict) -> (r: Vec<ScoredWord>)
    requires
        candidates.wf(),
        pool.wf(),
        1 <= candidates@.len() <= 0x1_0000_0000,
    ensures
        sorted_by(r@, ranking_order()),
        r@.len() == pool@.len(),
        forall|i: int|
            0 <= i < r@.len() ==> (#[trigger] r@[i]).score == spec_entropy(
                word_views(candidates@),
                r@[i].word@,
            ),
        ranked_views(r@).to_multiset() == word_views(pool@).to_multiset(),
{
    let m = pool.len();
    let mut scored: Vec<ScoredWord> = Vec::new();
    let mut i: usize = 0;
    while i < m
        invariant
            i <= m,
            m == pool@.len(),
            candidates.wf(),
            pool.wf(),
            1 <= candidates@.len() <= 0x1_0000_0000,
            scored@.len() == i,
            forall|j: int| 0 <= j < i ==> (#[trigger] scored@[j]).word@ == pool@[j]@,
            forall|j: int|
                0 <= j < i ==> (#[trigger] scored@[j]).score == spec_entropy(
                    word_views(candidates@),
                    pool@[j]@,
                ),
        decreases m - i,
    {
        let w = pool.word_at(i);
        let e = entropy_of(candidates, w);
        scored.push(ScoredWord { word: w.clone(), score: e });
        i += 1;
    }
    proof {
        assert(ranked_views(scored@) =~= word_views(pool@));
    }
    let ghost scored_snapshot = scored@;
    let r = sort_ranked(scored);
    proof {
        broadcast use vstd::seq_lib::group_to_multiset_ensures;

        assert forall|i: int| 0 <= i < r@.len() implies (#[trigger] r@[i]).score == spec_entropy(
            word_views(candidates@),
            r@[i].word@,
        ) by {
            assert(r@.contains(r@[i]));
            assert(r@.to_multiset().count(r@[i]) > 0);
            assert(scored_snapshot.to_multiset().count(r@[i]) > 0);
            assert(scored_snapshot.contains(r@[i]));
            let j = choose|j: int|
                0 <= j < scored_snapshot.len() && scored_snapshot[j] == r@[i];
            assert(scored_snapshot[j].score == spec_entropy(word_views(candidates@), pool@[j]@));
        }
    }
    r
}

/// Computes each word's scaled information entropy against the library
/// itself and returns the ranked suggestion list.
pub fn information_entrophy(library: &Dict) -> (r: Vec<ScoredWord>)
    requires
        library.wf(),
        1 <= library@.len() <= 0x1_0000_0000,
    ensures
        sorted_by(r@, ranking_order()),
        r@.len() == library@.len(),
        forall|i: int|
            0 <= i < r@.len() ==> (#[trigger] r@[i]).score == spec_entropy(
                word_views(library@),
                r@[i].word@,
            ),
        ranked_views(r@).to_multiset() == word_views(library@).to_multiset(),
{
    rank(library, library)
}

/// All terms of a sum that vanish make the sum vanish.
proof fn lemma_entropy_sum_zero(cands: Seq<Seq<u8>>, guess: Seq<u8>, k: int)
    requires
        forall|p: int|
            0 <= p < k ==> entropy_term(#[trigger] bucket_count(cands, guess, p), cands.len())
                == 0,
    ensures
        entropy_sum(cands, guess, k) == 0,
    decreases k,
{
    if k > 0 {
        lemma_entropy_sum_zero(cands, guess, k - 1);
    }
}

/// With a single candidate no bucket reaches two members, so every pool
/// word's entropy is zero and a ranking collapses to lexicographic
/// order.
pub proof fn lemma_singleton_entropy(cands: Seq<Seq<u8>>, guess: Seq<u8>)
    requires
        cands.len() == 1,
    ensures
        spec_entropy(cands, guess) == 0,
{
    assert forall|p: int| 0 <= p < 243 implies entropy_term(
        #[trigger] bucket_count(cands, guess, p),
        cands.len(),
    ) == 0 by {
        cands.lemma_filter_len(in_bucket(guess, p));
    }
    lemma_entropy_sum_zero(cands, guess, 243);
}

} // verus!
