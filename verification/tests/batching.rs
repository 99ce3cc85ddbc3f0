use mnist_pipeline::batch::MNISTBatcher;
use mnist_pipeline::data::{Dataset, NewSubDataset, SubDataset, VecDataset};
use mnist_pipeline::item::Item;
use mnist_pipeline::loader::DataLoader;

fn item_with(first_pixel: u8, label: u8) -> Item {
    let mut pixels = vec![0u8; 784];
    pixels[0] = first_pixel;
    pixels[783] = 255;
    Item::new(pixels, label)
}

fn labeled_items(n: u8) -> Vec<Item> {
    let mut items = Vec::new();
    let mut i: u8 = 0;
    while i < n {
        items.push(Item::new(vec![i; 784], i % 10));
        i += 1;
    }
    items
}

#[test]
fn batch_stacks_rows_and_labels_in_order() {
    let batcher = MNISTBatcher::new();
    let b = batcher.batch(vec![item_with(10, 3), item_with(20, 7)]);
    assert_eq!(b.rows(), 2);
    assert_eq!(b.targets, vec![3, 7]);
    assert_eq!(b.images.len(), 2 * 784);
    // plain convention: the stored numerator is the pixel byte itself
    assert_eq!(b.images[0], 10);
    assert_eq!(b.images[783], 255);
    assert_eq!(b.images[784], 20);
    assert_eq!(b.images[2 * 784 - 1], 255);
}

#[test]
fn inverting_batcher_complements_pixels() {
    let batcher = MNISTBatcher::new_inverting();
    let b = batcher.batch(vec![item_with(10, 1)]);
    assert_eq!(b.images[0], 245);
    assert_eq!(b.images[1], 255);
    assert_eq!(b.images[783], 0);
}

#[test]
fn empty_item_list_gives_zero_row_batch() {
    let batcher = MNISTBatcher::new();
    let b = batcher.batch(Vec::new());
    assert_eq!(b.rows(), 0);
    assert_eq!(b.images.len(), 0);
    assert_eq!(b.targets.len(), 0);
}

#[test]
fn assembling_twice_gives_identical_batches() {
    let batcher = MNISTBatcher::new();
    let first = batcher.batch(vec![item_with(1, 2), item_with(3, 4), item_with(5, 6)]);
    let second = batcher.batch(vec![item_with(1, 2), item_with(3, 4), item_with(5, 6)]);
    assert_eq!(first.images, second.images);
    assert_eq!(first.targets, second.targets);
}

#[test]
fn one_pass_covers_every_index_exactly_once() {
    // the same coverage for every worker count: assembly is pure, so workers
    // cannot change which batches a pass yields
    let cases = [(1u64, 1usize), (7, 2), (42, 8)];
    for &(seed, workers) in cases.iter() {
        let mut loader =
            DataLoader::new(VecDataset::new(labeled_items(10)), MNISTBatcher::new(), 3, workers, seed);
        assert_eq!(loader.num_batches(), 4);
        let mut seen: Vec<u8> = Vec::new();
        let mut batches = 0;
        while let Some(b) = loader.next_batch() {
            assert!(b.rows() <= 3);
            seen.extend_from_slice(&b.targets);
            batches += 1;
        }
        assert_eq!(batches, 4);
        seen.sort();
        assert_eq!(seen, (0u8..10).collect::<Vec<u8>>());
    }
}

#[test]
fn restart_repeats_the_same_pass_order() {
    let mut loader =
        DataLoader::new(VecDataset::new(labeled_items(9)), MNISTBatcher::new(), 4, 1, 5);
    let mut first: Vec<u8> = Vec::new();
    while let Some(b) = loader.next_batch() {
        first.extend_from_slice(&b.targets);
    }
    assert!(loader.next_batch().is_none());
    loader.restart();
    let mut second: Vec<u8> = Vec::new();
    while let Some(b) = loader.next_batch() {
        second.extend_from_slice(&b.targets);
    }
    assert_eq!(first, second);
}

#[test]
fn empty_dataset_yields_no_batches() {
    let mut loader =
        DataLoader::new(VecDataset::new(Vec::new()), MNISTBatcher::new(), 2, 0, 0);
    assert_eq!(loader.num_batches(), 0);
    assert!(loader.next_batch().is_none());
}

#[test]
fn end_to_end_subset_pass() {
    // dataset of length 10, subset size 4, batch size 2, seed 42:
    // exactly 2 batches per pass covering 4 distinct source indices
    let view = SubDataset::new(VecDataset::new(labeled_items(10)), 4, 42);
    assert_eq!(view.len(), 4);
    let mut loader = DataLoader::new(view, MNISTBatcher::new(), 2, 2, 42);
    assert_eq!(loader.num_batches(), 2);
    let mut seen: Vec<u8> = Vec::new();
    let mut batches = 0;
    while let Some(b) = loader.next_batch() {
        assert_eq!(b.rows(), 2);
        seen.extend_from_slice(&b.targets);
        batches += 1;
    }
    assert_eq!(batches, 2);
    assert_eq!(seen.len(), 4);
    let mut distinct = seen.clone();
    distinct.sort();
    distinct.dedup();
    assert_eq!(distinct.len(), 4, "subset indices must not repeat across the pass");
}
