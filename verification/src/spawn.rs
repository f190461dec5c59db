//! Seeded secret selection.
//!
//! The index of day `d`'s secret is found by shuffling all candidate
//! indices with a deterministically seeded generator and taking the
//! `(d - 1)`-th element.  The shuffle itself comes from the `rand`
//! crate; everything proved here holds of any permutation it returns.

use vstd::prelude::*;
use rand::SeedableRng;
use rand::seq::SliceRandom;

verus! {

/// Declares rand's `StdRng` so that generator values can pass through
/// signatures; the verifier sees nothing of their insides.
#[verifier::external_type_specification]
#[verifier::external_body]
pub struct ExStdRng(rand::rngs::StdRng);

/// Relies on rand's `StdRng::seed_from_u64` (via `SeedableRng`): builds
/// a generator from a seed.  Nothing is claimed of the generator.
#[verifier::external_body]
fn rng_from_seed(seed: u64) -> rand::rngs::StdRng {
    rand::rngs::StdRng::seed_from_u64(seed)
}

/// Relies on rand's `SliceRandom::shuffle`: a Fisher-Yates shuffle that
/// swaps elements in place, so the contents are kept as a multiset.
#[verifier::external_body]
fn shuffle_indices(v: &mut Vec<usize>, rng: &mut rand::rngs::StdRng)
    ensures
        final(v)@.to_multiset() == old(v)@.to_multiset(),
{
    v.shuffle(rng)
}

/// Picks the index of day `day`'s secret among `size` candidates: the
/// indices `0..size` are shuffled under the seed and the `(day - 1)`-th
/// element is taken.  Whatever order the shuffle produced, the result
/// is a valid index.
pub fn random_spawn(day: usize, seed: u64, size: usize) -> (r: usize)
    requires
        1 <= day <= size,
    ensures
        r < size,
{
    let mut list: Vec<usize> = Vec::new();
    let mut i: usize = 0;
    while i < size
        invariant
            i <= size,
            list@.len() == i,
            forall|j: int| 0 <= j < i ==> #[trigger] list@[j] < size,
        decreases size - i,
    {
        list.push(i);
        i += 1;
    }
    let mut rng = rng_from_seed(seed);
    let ghost before = list@;
    shuffle_indices(&mut list, &mut rng);
    proof {
        broadcast use vstd::seq_lib::group_to_multiset_ensures;

        assert(list@.to_multiset().len() == before.to_multiset().len());
        assert(list@.len() == before.len());
        let picked = list@[day - 1];
        assert(list@.contains(picked));
        assert(list@.to_multiset().count(picked) > 0);
        assert(before.to_multiset().count(picked) > 0);
        assert(before.contains(picked));
        let j = choose|j: int| 0 <= j < before.len() && before[j] == picked;
        assert(before[j] < size);
    }
    list[day - 1]
}

} // verus!
