use vstd::prelude::*;

verus! {

/// Number of pixels in one item's image: 28 rows of 28 grayscale bytes.
pub const IMAGE_PIXELS: usize = 784;

/// Number of distinct class labels.
pub const NUM_CLASSES: u8 = 10;

/// The mathematical value of an item: its pixel bytes and its label.
pub type ItemView = (Seq<u8>, u8);

/// An item value is valid when it has exactly one byte per pixel of the fixed
/// 28x28 image and its label names one of the classes.
pub open spec fn valid_item_view(v: ItemView) -> bool {
    &&& v.0.len() == IMAGE_PIXELS
    &&& v.1 < NUM_CLASSES
}

/// One labeled example: a raw pixel buffer and an integer class label.
/// Immutable once read from its item source.
pub struct Item {
    /// Grayscale pixel values in row-major order, one byte per pixel.
    pub pixels: Vec<u8>,
    /// The class this example belongs to, in `0..NUM_CLASSES`.
    pub label: u8,
}

impl View for Item {
    type V = ItemView;

    open spec fn view(&self) -> ItemView {
        (self.pixels@, self.label)
    }
}

impl Item {
    /// An item is well formed when its value is valid.
    pub open spec fn well_formed(self) -> bool {
        valid_item_view(self@)
    }

    /// Builds an item from a pixel buffer and a label.
    pub fn new(pixels: Vec<u8>, label: u8) -> (r: Item)
        requires
            pixels@.len() == IMAGE_PIXELS,
            label < NUM_CLASSES,
        ensures
            r@ == (pixels@, label),
            r.well_formed(),
    {
        Item { pixels, label }
    }
}

} // verus!
