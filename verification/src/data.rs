//! Dataset handles: the read-only, length-and-index-addressable capability
//! over items, a vector-backed source, and the two subsampling views
//! (uniform-random and proportional-stride).

use crate::item::{valid_item_view, Item, ItemView};
use crate::sample::{chosen_indices, generate_random_indices};
use vstd::arithmetic::div_mod::{
    lemma_div_is_ordered, lemma_div_pos_is_pos, lemma_multiply_divide_lt,
};
use vstd::arithmetic::mul::{lemma_mul_inequality, lemma_mul_strict_inequality};
use vstd::math::min;
use vstd::prelude::*;

verus! {

/// A read-only view over labeled items, addressable by length and index.
/// All variants hold well-formed items only and never mutate after
/// construction.
pub trait Dataset: Sized {
    /// The item values the handle exposes, in index order.
    spec fn contents(&self) -> Seq<ItemView>;

    /// The number of items the handle exposes.
    fn len(&self) -> (n: usize)
        ensures
            n == self.contents().len(),
    ;

    /// The item at `index`, or nothing when `index` is past the end. It never
    /// fails on an in-range index, and every item handed out is well formed.
    fn get(&self, index: usize) -> (r: Option<Item>)
        ensures
            (match r {
                Some(it) => index < self.contents().len() && it@ == self.contents()[index as int]
                    && valid_item_view(it@),
                None => index >= self.contents().len(),
            }),
    ;
}

/// An item source backed by a vector, the concrete leaf the views wrap.
pub struct VecDataset {
    items: Vec<Item>,
}

impl VecDataset {
    #[verifier::type_invariant]
    spec fn wf(self) -> bool {
        forall|i: int| 0 <= i < self.items@.len() ==> (#[trigger] self.items@[i]).well_formed()
    }

    /// Wraps a vector of well-formed items as a dataset handle.
    pub fn new(items: Vec<Item>) -> (r: VecDataset)
        requires
            forall|i: int| 0 <= i < items@.len() ==> (#[trigger] items@[i]).well_formed(),
        ensures
            r.contents() == Seq::new(items@.len(), |i: int| items@[i]@),
    {
        let r = VecDataset { items };
        proof {
            assert(r.contents() =~= Seq::new(items@.len(), |i: int| items@[i]@));
        }
        r
    }
}

impl Dataset for VecDataset {
    closed spec fn contents(&self) -> Seq<ItemView> {
        Seq::new(self.items@.len(), |i: int| self.items@[i]@)
    }

    fn len(&self) -> (n: usize) {
        self.items.len()
    }

    fn get(&self, index: usize) -> (r: Option<Item>) {
        proof {
            use_type_invariant(self);
        }
        if index < self.items.len() {
            let item = &self.items[index];
            let pixels = item.pixels.clone();
            proof {
                assert(pixels@ =~= item.pixels@);
            }
            Some(Item { pixels, label: item.label })
        } else {
            None
        }
    }
}

/// A uniform-random subsampled view: a wrapped dataset restricted to a
/// precomputed, seed-determined mapping of `min(subset_size, len)` distinct
/// indices. The mapping is fixed at construction and never regenerated, so
/// repeated reads of one subsampled index are idempotent.
pub struct SubDataset<D: Dataset> {
    subset_size: usize,
    dataset: D,
    random_indices: Vec<usize>,
}

impl<D: Dataset> SubDataset<D> {
    #[verifier::type_invariant]
    spec fn wf(self) -> bool {
        &&& self.random_indices@.len() == self.subset_size
        &&& self.subset_size <= self.dataset.contents().len()
        &&& forall|i: int|
            0 <= i < self.random_indices@.len() ==> (#[trigger] self.random_indices@[i])
                < self.dataset.contents().len()
    }

    /// The precomputed mapping from subsampled indices into the wrapped
    /// dataset's index space.
    pub closed spec fn index_mapping(&self) -> Seq<usize> {
        self.random_indices@
    }

    /// The length of the wrapped dataset.
    pub closed spec fn wrapped_len(&self) -> nat {
        self.dataset.contents().len()
    }

    /// Whether this view was drawn with `seed` and requested size
    /// `subset_size`: its mapping is the seed-determined index choice.
    pub open spec fn drawn_with(&self, seed: u64, subset_size: usize) -> bool {
        self.index_mapping() == chosen_indices(seed, self.wrapped_len(), subset_size as nat)
    }
}

/// The constructor capability of a subsampled view over a wrapped dataset.
pub trait NewSubDataset<D: Dataset>: Dataset {
    /// Builds a view of `min(subset_size, dataset.len())` entries of
    /// `dataset`, chosen reproducibly from `seed`.
    fn new(dataset: D, subset_size: usize, seed: u64) -> (r: Self)
        ensures
            r.contents().len() == min(subset_size as int, dataset.contents().len() as int),
            r.contents() == chosen_indices(
                seed,
                dataset.contents().len(),
                subset_size as nat,
            ).map_values(|j: usize| dataset.contents()[j as int]),
    ;
}

impl<D: Dataset> NewSubDataset<D> for SubDataset<D> {
    fn new(dataset: D, subset_size: usize, seed: u64) -> (r: Self)
        ensures
            r.drawn_with(seed, subset_size),
            r.wrapped_len() == dataset.contents().len(),
            r.index_mapping().len() == min(
                subset_size as int,
                dataset.contents().len() as int,
            ),
    {
        let dataset_size = dataset.len();
        let clipped = if subset_size < dataset_size {
            subset_size
        } else {
            dataset_size
        };
        let random_indices = generate_random_indices(clipped, dataset_size, seed);
        let r = SubDataset { subset_size: clipped, dataset, random_indices };
        proof {
            assert(r.contents() =~= chosen_indices(
                seed,
                r.wrapped_len(),
                subset_size as nat,
            ).map_values(|j: usize| r.dataset.contents()[j as int]));
        }
        r
    }
}

impl<D: Dataset> Dataset for SubDataset<D> {
    closed spec fn contents(&self) -> Seq<ItemView> {
        self.index_mapping().map_values(|j: usize| self.dataset.contents()[j as int])
    }

    fn len(&self) -> (n: usize) {
        proof {
            use_type_invariant(self);
        }
        self.subset_size
    }

    fn get(&self, index: usize) -> (r: Option<Item>) {
        proof {
            use_type_invariant(self);
        }
        if index < self.random_indices.len() {
            self.dataset.get(self.random_indices[index])
        } else {
            None
        }
    }
}

/// Where the proportional-stride view of `size` entries over a wrapped length
/// `len` sends output index `i`: `floor(i * len / size)`, the integer form of
/// `floor(i / size * len)`.
pub open spec fn stride_index(i: int, size: int, len: int) -> int {
    i * len / size
}

/// The stride mapping stays inside the wrapped dataset: for `0 < size <= len`
/// and an output index `i < size`, the wrapped index is below `len`.
pub proof fn lemma_stride_index_in_range(i: int, size: int, len: int)
    requires
        0 < size <= len,
        0 <= i < size,
    ensures
        0 <= stride_index(i, size, len) < len,
{
    lemma_mul_strict_inequality(i, size, len);
    assert(i * len < size * len);
    lemma_multiply_divide_lt(i * len, size, len);
    assert(i * len >= 0) by (nonlinear_arith)
        requires
            i >= 0,
            len >= 0,
    ;
    lemma_div_pos_is_pos(i * len, size);
}

/// A proportional-stride cropped view: `min(size, len)` entries spread evenly
/// over the wrapped dataset without randomness, output index `i` reading
/// wrapped index `floor(i / size * len)`.
pub struct TinySizeDataset<D: Dataset> {
    size: usize,
    dataset: D,
}

impl<D: Dataset> TinySizeDataset<D> {
    #[verifier::type_invariant]
    spec fn wf(self) -> bool {
        self.size <= self.dataset.contents().len()
    }

    /// The length of the wrapped dataset.
    pub closed spec fn wrapped_len(&self) -> nat {
        self.dataset.contents().len()
    }

    /// Builds the cropped view with `min(size, dataset.len())` entries.
    pub fn new(dataset: D, size: usize) -> (r: TinySizeDataset<D>)
        ensures
            r.contents().len() == min(size as int, dataset.contents().len() as int),
            r.contents() == Seq::new(
                min(size as int, dataset.contents().len() as int) as nat,
                |i: int|
                    dataset.contents()[stride_index(
                        i,
                        min(size as int, dataset.contents().len() as int),
                        dataset.contents().len() as int,
                    )],
            ),
    {
        let dataset_size = dataset.len();
        let clipped = if size < dataset_size {
            size
        } else {
            dataset_size
        };
        let r = TinySizeDataset { size: clipped, dataset };
        proof {
            assert(r.contents() =~= Seq::new(
                min(size as int, r.wrapped_len() as int) as nat,
                |i: int|
                    r.dataset.contents()[stride_index(
                        i,
                        min(size as int, r.wrapped_len() as int),
                        r.wrapped_len() as int,
                    )],
            ));
        }
        r
    }
}

impl<D: Dataset> Dataset for TinySizeDataset<D> {
    closed spec fn contents(&self) -> Seq<ItemView> {
        Seq::new(
            self.size as nat,
            |i: int|
                self.dataset.contents()[stride_index(
                    i,
                    self.size as int,
                    self.dataset.contents().len() as int,
                )],
        )
    }

    fn len(&self) -> (n: usize) {
        proof {
            use_type_invariant(self);
        }
        self.size
    }

    fn get(&self, index: usize) -> (r: Option<Item>) {
        proof {
            use_type_invariant(self);
        }
        if index < self.size {
            let len = self.dataset.len();
            proof {
                assert((index as int) * (len as int) <= 0xffff_ffff_ffff_ffff
                    * 0xffff_ffff_ffff_ffff) by (nonlinear_arith)
                    requires
                        0 <= index as int <= 0xffff_ffff_ffff_ffff,
                        0 <= len as int <= 0xffff_ffff_ffff_ffff,
                ;
            }
            let wide = (index as u128) * (len as u128) / (self.size as u128);
            proof {
                lemma_stride_index_in_range(
                    index as int,
                    self.size as int,
                    self.dataset.contents().len() as int,
                );
                assert(wide == stride_index(
                    index as int,
                    self.size as int,
                    self.dataset.contents().len() as int,
                ));
            }
            let target = wide as usize;
            self.dataset.get(target)
        } else {
            None
        }
    }
}

/// Determinism of the uniform-random policy: two subsampled views drawn with
/// the same seed and the same requested size over wrapped datasets of the
/// same length carry identical index mappings.
pub proof fn lemma_subsample_deterministic<D1: Dataset, D2: Dataset>(
    a: &SubDataset<D1>,
    b: &SubDataset<D2>,
    seed: u64,
    subset_size: usize,
)
    requires
        a.drawn_with(seed, subset_size),
        b.drawn_with(seed, subset_size),
        a.wrapped_len() == b.wrapped_len(),
    ensures
        a.index_mapping() == b.index_mapping(),
{
}

/// An oversized request is clipped: a subsampled view asked for more entries
/// than the wrapped dataset holds exposes exactly the wrapped length, not the
/// request.
pub proof fn lemma_oversized_subsample_is_whole<D: Dataset>(
    view: &SubDataset<D>,
    subset_size: usize,
)
    requires
        subset_size > view.wrapped_len(),
        view.index_mapping().len() == min(subset_size as int, view.wrapped_len() as int),
    ensures
        view.contents().len() == view.wrapped_len(),
{
    assert(view.contents().len() == view.index_mapping().len());
}

/// The proportional-stride mapping starts at the first wrapped index and
/// never steps backwards: output index `0` reads wrapped index `0`, and the
/// wrapped index is non-decreasing in the output index.
pub proof fn lemma_stride_mapping_monotone(size: int, len: int, i: int, j: int)
    requires
        0 < size <= len,
        0 <= i <= j < size,
    ensures
        stride_index(0, size, len) == 0,
        stride_index(i, size, len) <= stride_index(j, size, len),
{
    assert(0 * len == 0) by (nonlinear_arith);
    lemma_mul_inequality(i, j, len);
    lemma_div_is_ordered(i * len, j * len, size);
}

} // verus!
