use mnist_pipeline::data::{Dataset, NewSubDataset, SubDataset, TinySizeDataset, VecDataset};
use mnist_pipeline::item::Item;

fn labeled_items(n: u8) -> Vec<Item> {
    let mut items = Vec::new();
    let mut i: u8 = 0;
    while i < n {
        items.push(Item::new(vec![i; 784], i % 10));
        i += 1;
    }
    items
}

fn labels_of<D: Dataset>(d: &D) -> Vec<u8> {
    let mut out = Vec::new();
    let mut i = 0;
    while i < d.len() {
        out.push(d.get(i).unwrap().label);
        i += 1;
    }
    out
}

#[test]
fn same_seed_same_mapping() {
    let a = SubDataset::new(VecDataset::new(labeled_items(10)), 4, 99);
    let b = SubDataset::new(VecDataset::new(labeled_items(10)), 4, 99);
    assert_eq!(a.len(), 4);
    assert_eq!(labels_of(&a), labels_of(&b));
}

#[test]
fn different_seed_may_differ_and_is_not_identity() {
    // the seeded shuffle must actually reorder: a full-size subsample with
    // this seed is not the identity mapping
    let full = SubDataset::new(VecDataset::new(labeled_items(10)), 10, 42);
    assert_eq!(full.len(), 10);
    let labels = labels_of(&full);
    let mut sorted = labels.clone();
    sorted.sort();
    assert_eq!(sorted, (0u8..10).collect::<Vec<u8>>());
    assert_ne!(labels, (0u8..10).collect::<Vec<u8>>());
}

#[test]
fn oversized_request_clips_to_dataset_length() {
    let view = SubDataset::new(VecDataset::new(labeled_items(5)), 20, 7);
    assert_eq!(view.len(), 5);
    // every item of the wrapped dataset appears exactly once
    let mut labels = labels_of(&view);
    labels.sort();
    assert_eq!(labels, vec![0, 1, 2, 3, 4]);
}

#[test]
fn empty_subsample_is_valid() {
    let view = SubDataset::new(VecDataset::new(labeled_items(5)), 0, 3);
    assert_eq!(view.len(), 0);
    assert!(view.get(0).is_none());
}

#[test]
fn get_past_view_length_is_none() {
    let view = SubDataset::new(VecDataset::new(labeled_items(8)), 3, 5);
    assert!(view.get(3).is_none());
    assert!(view.get(100).is_none());
}

#[test]
fn stride_crop_starts_at_zero_and_is_non_decreasing() {
    // size 4 over length 10: output i reads floor(i * 10 / 4) = 0, 2, 5, 7
    let crop = TinySizeDataset::new(VecDataset::new(labeled_items(10)), 4);
    assert_eq!(crop.len(), 4);
    let labels = labels_of(&crop);
    assert_eq!(labels, vec![0, 2, 5, 7]);
    assert_eq!(labels[0], 0);
    let mut k = 1;
    while k < labels.len() {
        assert!(labels[k - 1] <= labels[k]);
        k += 1;
    }
}

#[test]
fn stride_crop_oversized_is_whole_dataset_in_order() {
    let crop = TinySizeDataset::new(VecDataset::new(labeled_items(5)), 20);
    assert_eq!(crop.len(), 5);
    assert_eq!(labels_of(&crop), vec![0, 1, 2, 3, 4]);
}

#[test]
fn subsample_reads_are_idempotent() {
    let view = SubDataset::new(VecDataset::new(labeled_items(10)), 6, 11);
    let first = labels_of(&view);
    let second = labels_of(&view);
    assert_eq!(first, second);
}
