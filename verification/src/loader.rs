//! The batch producer: iterates a dataset in shuffled, fixed-size batches,
//! covering the dataset exactly once per pass.
//!
//! Policy, fixed and documented rather than left open: the pass order is the
//! seed-determined permutation of `0..len`, computed once at construction and
//! reused unchanged by every pass (`restart`), exactly as a builder
//! configured with one shuffle seed behaves. Chunk assembly is a pure
//! function of the chunk's items, so distributing chunks over any number of
//! workers cannot change the batches, only the completion order; this
//! sequential producer yields them in chunk order.

use crate::batch::{batch_images, batch_targets, views_of, MNISTBatch, MNISTBatcher};
use crate::data::Dataset;
use crate::item::{valid_item_view, Item, ItemView};
use crate::sample::{index_permutation, lemma_permutation_of_range, range_seq, range_vec, shuffle_with_seed};
use vstd::prelude::*;

verus! {

/// The item values a chunk of the pass order resolves to, in chunk order.
pub open spec fn chunk_views(data: Seq<ItemView>, order: Seq<usize>, start: int, end: int) -> Seq<
    ItemView,
> {
    order.subrange(start, end).map_values(|j: usize| data[j as int])
}

/// The pass order split into consecutive chunks of `b` entries; the last
/// chunk keeps whatever remains.
pub open spec fn chunks_of(order: Seq<usize>, b: nat) -> Seq<Seq<usize>>
    decreases order.len(),
{
    if b == 0 || order.len() == 0 {
        Seq::empty()
    } else if order.len() <= b {
        seq![order]
    } else {
        seq![order.take(b as int)] + chunks_of(order.skip(b as int), b)
    }
}

/// A batch producer over a dataset handle: a seed-shuffled pass order, a
/// cursor, and the assembler applied to each consecutive chunk.
pub struct DataLoader<D: Dataset> {
    dataset: D,
    batcher: MNISTBatcher,
    batch_size: usize,
    num_workers: usize,
    order: Vec<usize>,
    pos: usize,
}

impl<D: Dataset> DataLoader<D> {
    #[verifier::type_invariant]
    spec fn wf(self) -> bool {
        &&& self.batch_size >= 1
        &&& self.order@.len() == self.dataset.contents().len()
        &&& self.order@.to_multiset() == range_seq(self.dataset.contents().len()).to_multiset()
        &&& forall|i: int|
            0 <= i < self.order@.len() ==> (#[trigger] self.order@[i]) < self.dataset.contents().len()
        &&& self.pos <= self.order@.len()
    }

    /// The item values of the underlying dataset.
    pub closed spec fn data(&self) -> Seq<ItemView> {
        self.dataset.contents()
    }

    /// The order in which one pass reads the dataset's indices.
    pub closed spec fn pass_order(&self) -> Seq<usize> {
        self.order@
    }

    /// How many of the pass order's entries have been consumed.
    pub closed spec fn position(&self) -> nat {
        self.pos as nat
    }

    /// The configured batch size.
    pub closed spec fn batch_len(&self) -> nat {
        self.batch_size as nat
    }

    /// Whether the assembler inverts pixel values.
    pub closed spec fn inverted(&self) -> bool {
        self.batcher.inverted()
    }

    /// The configured worker count. Workers only spread chunk assembly,
    /// which is a pure function of each chunk, so the batches of a pass are
    /// the same for every worker count; this sequential producer performs
    /// the assembly itself.
    pub closed spec fn workers(&self) -> nat {
        self.num_workers as nat
    }

    /// The pass order is a permutation of the dataset's indices.
    pub open spec fn covers(&self) -> bool {
        self.pass_order().to_multiset() == range_seq(self.data().len()).to_multiset()
    }

    /// Builds a producer whose pass order is the permutation of `0..len`
    /// drawn from `seed`.
    pub fn new(
        dataset: D,
        batcher: MNISTBatcher,
        batch_size: usize,
        num_workers: usize,
        seed: u64,
    ) -> (r: DataLoader<D>)
        requires
            batch_size >= 1,
        ensures
            r.data() == dataset.contents(),
            r.pass_order() == index_permutation(seed, dataset.contents().len()),
            r.position() == 0,
            r.batch_len() == batch_size,
            r.workers() == num_workers,
            r.inverted() == batcher.inverted(),
            r.covers(),
    {
        let len = dataset.len();
        let mut order = range_vec(len);
        shuffle_with_seed(&mut order, seed);
        proof {
            lemma_permutation_of_range(order@, len as nat);
        }
        DataLoader { dataset, batcher, batch_size, num_workers, order, pos: 0 }
    }

    /// The number of batches one full pass yields: `len / b`, plus one when a
    /// shorter final chunk remains.
    pub fn num_batches(&self) -> (n: usize)
        ensures
            n as int == (self.data().len() as int) / (self.batch_len() as int) + (if (
            self.data().len() as int) % (self.batch_len() as int) == 0 {
                0int
            } else {
                1int
            }),
    {
        proof {
            use_type_invariant(self);
        }
        let l = self.order.len();
        if l % self.batch_size == 0 {
            l / self.batch_size
        } else {
            proof {
                vstd::arithmetic::div_mod::lemma_mod_multiples_basic(l as int, 1int);
                assert(self.batch_size >= 2);
                if l == 0 {
                    vstd::arithmetic::div_mod::lemma_small_mod(0nat, self.batch_size as nat);
                }
                vstd::arithmetic::div_mod::lemma_div_decreases(l as int, self.batch_size as int);
            }
            l / self.batch_size + 1
        }
    }

    /// Rewinds the cursor for a fresh pass over the same order (the
    /// permutation is fixed per producer, not regenerated).
    pub fn restart(&mut self)
        ensures
            final(self).data() == old(self).data(),
            final(self).pass_order() == old(self).pass_order(),
            final(self).batch_len() == old(self).batch_len(),
            final(self).inverted() == old(self).inverted(),
            final(self).position() == 0,
    {
        proof {
            use_type_invariant(&*self);
        }
        self.pos = 0;
    }

    /// Yields the next batch of the pass: the items of the next chunk of the
    /// pass order, assembled in chunk order; or nothing once the pass is
    /// complete. An in-range chunk entry always resolves (the order is built
    /// from `0..len`), so a pass can never silently skip an item.
    pub fn next_batch(&mut self) -> (r: Option<MNISTBatch>)
        ensures
            final(self).data() == old(self).data(),
            final(self).pass_order() == old(self).pass_order(),
            final(self).batch_len() == old(self).batch_len(),
            final(self).inverted() == old(self).inverted(),
            old(self).position() >= old(self).data().len() ==> r is None && final(self).position()
                == old(self).position(),
            old(self).position() < old(self).data().len() ==> {
                let end = vstd::math::min(
                    old(self).position() as int + old(self).batch_len() as int,
                    old(self).data().len() as int,
                );
                &&& final(self).position() == end
                &&& r matches Some(b)
                &&& (r matches Some(b) ==> b.images@ == batch_images(
                    chunk_views(old(self).data(), old(self).pass_order(), old(self).position() as int, end),
                    old(self).inverted(),
                ) && b.targets@ == batch_targets(
                    chunk_views(old(self).data(), old(self).pass_order(), old(self).position() as int, end),
                ))
            },
    {
        proof {
            use_type_invariant(&*self);
        }
        if self.pos >= self.order.len() {
            return None;
        }
        let start = self.pos;
        let remaining = self.order.len() - start;
        let end = if self.batch_size <= remaining {
            start + self.batch_size
        } else {
            self.order.len()
        };
        let mut items: Vec<Item> = Vec::new();
        let mut k = start;
        while k < end
            invariant
                start <= k <= end,
                end <= self.order@.len(),
                self.order@.len() == self.dataset.contents().len(),
                forall|i: int|
                    0 <= i < self.order@.len() ==> (#[trigger] self.order@[i])
                        < self.dataset.contents().len(),
                views_of(items@) == chunk_views(
                    self.dataset.contents(),
                    self.order@,
                    start as int,
                    k as int,
                ),
                forall|i: int| 0 <= i < items@.len() ==> valid_item_view(#[trigger] items@[i]@),
            decreases end - k,
        {
            let j = self.order[k];
            let ghost prev = items@;
            match self.dataset.get(j) {
                Some(it) => {
                    items.push(it);
                    proof {
                        assert(self.order@.subrange(start as int, k + 1) =~= self.order@.subrange(
                            start as int,
                            k as int,
                        ).push(self.order@[k as int]));
                        assert(views_of(items@) =~= views_of(prev).push(it@));
                        assert(views_of(items@) =~= chunk_views(
                            self.dataset.contents(),
                            self.order@,
                            start as int,
                            k + 1,
                        ));
                    }
                },
                None => {
                    proof {
                        assert(false);
                    }
                    return None;
                },
            }
            k = k + 1;
        }
        let b = self.batcher.batch(items);
        self.pos = end;
        Some(b)
    }
}

/// Batch-producer coverage: a pass order that is a permutation of `0..l`,
/// split into consecutive chunks of any positive batch size, concatenates
/// back to the order, and every dataset index below `l` occurs in it exactly
/// once, indices past the dataset never. Chunk assembly is pure, so this
/// holds under any worker count.
pub proof fn lemma_pass_coverage(order: Seq<usize>, l: nat, b: nat)
    requires
        b >= 1,
        l <= usize::MAX,
        order.to_multiset() == range_seq(l).to_multiset(),
    ensures
        chunks_of(order, b).flatten() == order,
        order.len() == l,
        forall|j: usize| (j as nat) < l ==> order.to_multiset().count(j) == 1,
        forall|j: usize| (j as nat) >= l ==> order.to_multiset().count(j) == 0,
{
    lemma_permutation_of_range(order, l);
    lemma_chunks_flatten(order, b);
}

/// The consecutive chunks of a sequence concatenate back to the sequence.
pub proof fn lemma_chunks_flatten(order: Seq<usize>, b: nat)
    requires
        b >= 1,
    ensures
        chunks_of(order, b).flatten() == order,
    decreases order.len(),
{
    if order.len() == 0 {
        assert(chunks_of(order, b).flatten() =~= order);
    } else if order.len() <= b {
        assert(chunks_of(order, b) =~= seq![order]);
        seq![order].lemma_flatten_one_element();
        assert(seq![order].first() == order);
    } else {
        lemma_chunks_flatten(order.skip(b as int), b);
        let head = seq![order.take(b as int)];
        let tail = chunks_of(order.skip(b as int), b);
        let all = head + tail;
        assert(chunks_of(order, b) == all);
        assert(all.first() == order.take(b as int));
        assert(all.drop_first() =~= tail);
        assert(all.flatten() == all.first() + all.drop_first().flatten());
        assert(all.flatten() =~= order.take(b as int) + order.skip(b as int));
        assert(order.take(b as int) + order.skip(b as int) =~= order);
    }
}

/// Each chunk is the consecutive slice a pass's batches read: chunk `k` of
/// the order is `order[k * b .. min((k + 1) * b, len)]`, the very subrange
/// the producer's `k`-th batch resolves.
pub proof fn lemma_chunk_boundaries(order: Seq<usize>, b: nat, k: int)
    requires
        b >= 1,
        0 <= k < chunks_of(order, b).len(),
    ensures
        k * b < order.len(),
        chunks_of(order, b)[k] == order.subrange(
            k * b,
            vstd::math::min((k + 1) * b, order.len() as int),
        ),
    decreases order.len(),
{
    let len = order.len() as int;
    if order.len() <= b {
        assert(chunks_of(order, b) =~= seq![order]);
        assert(k == 0);
        assert(order.subrange(0, len) =~= order);
    } else if k == 0 {
        let head = seq![order.take(b as int)];
        let tail = chunks_of(order.skip(b as int), b);
        assert(chunks_of(order, b) == head + tail);
        assert(chunks_of(order, b)[0] == order.take(b as int));
        assert(order.take(b as int) =~= order.subrange(0, b as int));
    } else {
        let rest = order.skip(b as int);
        let head = seq![order.take(b as int)];
        let tail = chunks_of(rest, b);
        assert(chunks_of(order, b) == head + tail);
        assert(chunks_of(order, b)[k] == tail[k - 1]);
        lemma_chunk_boundaries(rest, b, k - 1);
        let x = (k - 1) * b;
        let y = vstd::math::min(k * b, rest.len() as int);
        assert(b + x == k * b) by (nonlinear_arith)
            requires
                x == (k - 1) * b,
        ;
        assert(k * b + b == (k + 1) * b) by (nonlinear_arith);
        assert(b + y == vstd::math::min((k + 1) * b, len));
        assert(rest.subrange(x, y) =~= order.subrange(b + x, b + y));
    }
}

} // verus!
