//! The batch assembler: turns an ordered list of items into one stacked,
//! normalized batch.
//!
//! Pixels are kept as fixed-point numerators over the denominator 255: the
//! backend divides by 255 when it builds its numeric tensors, so a stored
//! value `v` stands for `v / 255` in `[0, 1]`. The assembler optionally
//! inverts (`255 - v`) for the ink-on-white convention; the plain form
//! matches how the training batcher normalizes.

use crate::item::{valid_item_view, Item, ItemView, IMAGE_PIXELS};
use vstd::arithmetic::div_mod::{
    lemma_div_pos_is_pos, lemma_fundamental_div_mod_converse, lemma_multiply_divide_lt,
};
use vstd::prelude::*;

verus! {

/// The numerator a pixel byte is mapped to: the byte itself, or its
/// complement when inverting.
pub open spec fn normalized_pixel(p: u8, invert: bool) -> u8 {
    if invert {
        (255 - p) as u8
    } else {
        p
    }
}

/// The stacked image rows of a batch over the given item values, row-major:
/// entry `k` is the normalized pixel `k % 784` of item `k / 784`.
pub open spec fn batch_images(items: Seq<ItemView>, invert: bool) -> Seq<u8> {
    Seq::new(
        items.len() * (IMAGE_PIXELS as nat),
        |k: int| normalized_pixel(items[k / (IMAGE_PIXELS as int)].0[k % (IMAGE_PIXELS as int)], invert),
    )
}

/// The stacked label vector of a batch: one label per item, in row order.
pub open spec fn batch_targets(items: Seq<ItemView>) -> Seq<u8> {
    items.map_values(|it: ItemView| it.1)
}

/// The item values of a list of items, in order.
pub open spec fn views_of(items: Seq<Item>) -> Seq<ItemView> {
    items.map_values(|it: Item| it@)
}

/// One assembled batch: stacked normalized inputs and stacked labels with a
/// matching leading dimension (the final batch of a pass may be shorter than
/// the configured batch size).
pub struct MNISTBatch {
    /// Normalized pixel numerators, `IMAGE_PIXELS` per row, row-major.
    pub images: Vec<u8>,
    /// One class label per row.
    pub targets: Vec<u8>,
}

impl MNISTBatch {
    /// The inputs and the labels agree on the number of rows.
    pub open spec fn consistent(&self) -> bool {
        self.images@.len() == self.targets@.len() * (IMAGE_PIXELS as nat)
    }

    /// The number of rows stacked in this batch.
    pub fn rows(&self) -> (n: usize)
        ensures
            n == self.targets@.len(),
    {
        self.targets.len()
    }
}

/// The batch assembler. It has no shared mutable state: assembling is a pure
/// function of the item list, so independent workers may assemble disjoint
/// chunks concurrently.
pub struct MNISTBatcher {
    invert: bool,
}

impl MNISTBatcher {
    /// Whether this assembler inverts pixels (`255 - v`) before stacking.
    pub closed spec fn inverted(&self) -> bool {
        self.invert
    }

    /// A batcher with the plain `v / 255` normalization convention.
    pub fn new() -> (r: MNISTBatcher)
        ensures
            !r.inverted(),
    {
        MNISTBatcher { invert: false }
    }

    /// A batcher for the inverted, ink-on-white convention (`1 - v / 255`).
    pub fn new_inverting() -> (r: MNISTBatcher)
        ensures
            r.inverted(),
    {
        MNISTBatcher { invert: true }
    }

    /// Assembles exactly one batch from the ordered item list. The list order
    /// determines the row order; an empty list gives a zero-row batch.
    pub fn batch(&self, items: Vec<Item>) -> (r: MNISTBatch)
        requires
            forall|i: int| 0 <= i < items@.len() ==> valid_item_view(#[trigger] items@[i]@),
        ensures
            r.images@ == batch_images(views_of(items@), self.inverted()),
            r.targets@ == batch_targets(views_of(items@)),
            r.targets@.len() == items@.len(),
            r.consistent(),
    {
        let ghost vs = views_of(items@);
        let mut images: Vec<u8> = Vec::new();
        let mut targets: Vec<u8> = Vec::new();
        let n = items.len();
        let mut i: usize = 0;
        while i < n
            invariant
                i <= n,
                n == items@.len(),
                forall|k: int| 0 <= k < items@.len() ==> valid_item_view(#[trigger] items@[k]@),
                vs == views_of(items@),
                targets@ == batch_targets(vs.take(i as int)),
                images@ == batch_images(vs.take(i as int), self.inverted()),
            decreases n - i,
        {
            let item = &items[i];
            targets.push(item.label);
            proof {
                assert(targets@ =~= batch_targets(vs.take(i + 1)));
            }
            let ghost row_done = images@;
            let mut p: usize = 0;
            while p < IMAGE_PIXELS
                invariant
                    p <= IMAGE_PIXELS,
                    i < n,
                    n == items@.len(),
                    forall|k: int| 0 <= k < items@.len() ==> valid_item_view(#[trigger] items@[k]@),
                    vs == views_of(items@),
                    row_done == batch_images(vs.take(i as int), self.inverted()),
                    item == &items[i as int],
                    images@ == row_done + Seq::new(
                        p as nat,
                        |q: int| normalized_pixel(vs[i as int].0[q], self.inverted()),
                    ),
                decreases IMAGE_PIXELS - p,
            {
                let px = item.pixels[p];
                let b = if self.invert {
                    255 - px
                } else {
                    px
                };
                images.push(b);
                proof {
                    assert(images@ =~= row_done + Seq::new(
                        (p + 1) as nat,
                        |q: int| normalized_pixel(vs[i as int].0[q], self.inverted()),
                    ));
                }
                p = p + 1;
            }
            proof {
                lemma_row_extends_batch(vs, i as int, self.inverted());
                assert(images@ =~= batch_images(vs.take(i + 1), self.inverted()));
            }
            i = i + 1;
        }
        proof {
            assert(vs.take(n as int) =~= vs);
        }
        MNISTBatch { images, targets }
    }
}

/// Appending one item's normalized row to the stacked images of the first `i`
/// item values gives the stacked images of the first `i + 1`.
proof fn lemma_row_extends_batch(vs: Seq<ItemView>, i: int, invert: bool)
    requires
        0 <= i < vs.len(),
    ensures
        batch_images(vs.take(i), invert) + Seq::new(
            IMAGE_PIXELS as nat,
            |q: int| normalized_pixel(vs[i].0[q], invert),
        ) =~= batch_images(vs.take(i + 1), invert),
{
    let px = IMAGE_PIXELS as int;
    let lhs = batch_images(vs.take(i), invert) + Seq::new(
        IMAGE_PIXELS as nat,
        |q: int| normalized_pixel(vs[i].0[q], invert),
    );
    let rhs = batch_images(vs.take(i + 1), invert);
    assert forall|k: int| 0 <= k < (i + 1) * px implies lhs[k] == rhs[k] by {
        if k < i * px {
            lemma_multiply_divide_lt(k, px, i);
            lemma_div_pos_is_pos(k, px);
        } else {
            lemma_fundamental_div_mod_converse(k, px, i, k - i * px);
        }
    }
    assert(lhs.len() == rhs.len()) by (nonlinear_arith)
        requires
            lhs.len() == i * px + px,
            rhs.len() == (i + 1) * px,
    ;
}

/// Idempotence of assembly: two batches assembled from the same ordered item
/// values with the same convention have identical stacked images and targets.
pub proof fn lemma_batch_assembly_idempotent(
    views: Seq<ItemView>,
    invert: bool,
    first: &MNISTBatch,
    second: &MNISTBatch,
)
    requires
        first.images@ == batch_images(views, invert),
        first.targets@ == batch_targets(views),
        second.images@ == batch_images(views, invert),
        second.targets@ == batch_targets(views),
    ensures
        first.images@ == second.images@,
        first.targets@ == second.targets@,
{
}

} // verus!
