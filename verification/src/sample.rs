//! Deterministic index sampling: a seeded shuffle of `0..len` and the prefix
//! selection used by the uniform-random subsampling policy.

use rand::seq::SliceRandom;
use rand::SeedableRng;
use vstd::math::min;
use vstd::prelude::*;

verus! {

/// The sequence `0, 1, ..., n - 1`.
pub open spec fn range_seq(n: nat) -> Seq<usize> {
    Seq::new(n, |i: int| i as usize)
}

/// The reordering that the seeded shuffle gives to a sequence. It depends on
/// the seed and the previous contents alone, so two shuffles of equal
/// sequences with equal seeds agree.
pub uninterp spec fn shuffle_of(seed: u64, s: Seq<usize>) -> Seq<usize>;

/// Relies on `rand::seq::SliceRandom::shuffle` driven by
/// `rand::rngs::StdRng::seed_from_u64`: the shuffle permutes the slice in
/// place by swaps (so the length and the multiset of entries are kept), and
/// both the generator construction and the shuffle are deterministic in the
/// seed and the previous contents.
#[verifier::external_body]
pub(crate) fn shuffle_with_seed(v: &mut Vec<usize>, seed: u64)
    ensures
        final(v)@ == shuffle_of(seed, old(v)@),
        final(v)@.len() == old(v)@.len(),
        final(v)@.to_multiset() == old(v)@.to_multiset(),
{
    let mut rng = rand::rngs::StdRng::seed_from_u64(seed);
    v.shuffle(&mut rng);
}

/// The seeded permutation of `0..len` that one pass or one subsampling draw
/// uses.
pub open spec fn index_permutation(seed: u64, len: nat) -> Seq<usize> {
    shuffle_of(seed, range_seq(len))
}

/// The index mapping of a uniform-random subsampled view: the first
/// `min(size, len)` entries of the seeded permutation of `0..len`.
pub open spec fn chosen_indices(seed: u64, len: nat, size: nat) -> Seq<usize> {
    index_permutation(seed, len).take(min(size as int, len as int))
}

/// The vector `0, 1, ..., n - 1`.
pub fn range_vec(n: usize) -> (r: Vec<usize>)
    ensures
        r@ == range_seq(n as nat),
{
    let mut r: Vec<usize> = Vec::new();
    let mut i: usize = 0;
    while i < n
        invariant
            i <= n,
            r@ == range_seq(i as nat),
        decreases n - i,
    {
        r.push(i);
        proof {
            assert(r@ =~= range_seq((i + 1) as nat));
        }
        i = i + 1;
    }
    r
}

/// A sequence whose entries form the multiset `{0, ..., l - 1}` is a
/// duplicate-free enumeration of exactly the indices below `l`.
pub proof fn lemma_permutation_of_range(perm: Seq<usize>, l: nat)
    requires
        l <= usize::MAX,
        perm.to_multiset() == range_seq(l).to_multiset(),
    ensures
        perm.len() == l,
        perm.no_duplicates(),
        forall|i: int| 0 <= i < perm.len() ==> (#[trigger] perm[i]) < l,
        forall|x: usize| x < l ==> perm.to_multiset().count(x) == 1,
        forall|x: usize| x >= l ==> perm.to_multiset().count(x) == 0,
{
    let range = range_seq(l);
    perm.to_multiset_ensures();
    range.to_multiset_ensures();
    assert(forall|i: int| 0 <= i < l ==> #[trigger] range[i] == i as usize);
    assert(range.no_duplicates());
    range.lemma_multiset_has_no_duplicates();
    assert(perm.len() == perm.to_multiset().len());
    assert forall|x: usize| x < l implies range.contains(x) by {
        assert(range[x as int] == x);
    }
    assert(forall|x: usize| x < l ==> perm.to_multiset().count(x) == 1);
    assert(forall|x: usize| x >= l ==> !range.contains(x));
    assert(forall|x: usize| x >= l ==> perm.to_multiset().count(x) == 0) by {
        assert(forall|x: usize| #[trigger] perm.to_multiset().count(x) > 0 ==> range.contains(x));
    }
    assert(forall|i: int| 0 <= i < perm.len() ==> (#[trigger] perm[i]) < l) by {
        assert(forall|i: int| 0 <= i < perm.len() ==> perm.contains(perm[i]));
        assert(forall|x: usize| perm.contains(x) ==> perm.to_multiset().count(x) > 0);
    }
    perm.lemma_multiset_has_no_duplicates_conv();
}

/// Draws `subset_size` distinct indices below `dataset_size`, reproducibly
/// from `seed`: the first `subset_size` entries of the seeded permutation of
/// `0..dataset_size`.
pub fn generate_random_indices(subset_size: usize, dataset_size: usize, seed: u64) -> (r: Vec<
    usize,
>)
    requires
        subset_size <= dataset_size,
    ensures
        r@ == chosen_indices(seed, dataset_size as nat, subset_size as nat),
        r@.len() == subset_size,
        r@.no_duplicates(),
        forall|i: int| 0 <= i < r@.len() ==> (#[trigger] r@[i]) < dataset_size,
{
    let mut v = range_vec(dataset_size);
    shuffle_with_seed(&mut v, seed);
    proof {
        lemma_permutation_of_range(v@, dataset_size as nat);
    }
    let ghost perm = v@;
    v.truncate(subset_size);
    proof {
        assert(v@ == perm.take(subset_size as int));
        assert(v@ == chosen_indices(seed, dataset_size as nat, subset_size as nat));
        assert forall|i: int, j: int|
            0 <= i < j < v@.len() implies v@[i] != v@[j] by {
            assert(perm[i] != perm[j]);
        }
    }
    v
}

} // verus!
