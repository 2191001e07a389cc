use mini_lsm::block::{BlockBuilder, BlockIterator};
use mini_lsm::iterators::merge_iterator::MergeIterator;
use mini_lsm::iterators::two_merge_iterator::TwoMergeIterator;
use mini_lsm::iterators::StorageIterator;
use std::sync::Arc;

fn block_iter(entries: &[(&str, &str)]) -> BlockIterator {
    let mut b = BlockBuilder::new(4096);
    for (k, v) in entries {
        assert!(b.add(k.as_bytes(), v.as_bytes()));
    }
    BlockIterator::create_and_seek_to_first(Arc::new(b.build()))
}

fn drain<I: StorageIterator>(it: &mut I) -> Vec<(String, String)> {
    let mut out = Vec::new();
    while StorageIterator::is_valid(it) {
        out.push((
            String::from_utf8(StorageIterator::key(it).to_vec()).unwrap(),
            String::from_utf8(StorageIterator::value(it).to_vec()).unwrap(),
        ));
        StorageIterator::next(it).unwrap();
    }
    out
}

fn pairs(v: &[(&str, &str)]) -> Vec<(String, String)> {
    v.iter().map(|(k, v)| (k.to_string(), v.to_string())).collect()
}

#[test]
fn two_merge_prefers_first_on_equal_keys() {
    let a = block_iter(&[("a", "1"), ("c", "3"), ("e", "5")]);
    let b = block_iter(&[("b", "2"), ("c", "x"), ("d", "4")]);
    let mut it = TwoMergeIterator::create(a, b).unwrap();
    assert_eq!(
        drain(&mut it),
        pairs(&[("a", "1"), ("b", "2"), ("c", "3"), ("d", "4"), ("e", "5")])
    );
}

#[test]
fn two_merge_with_exhausted_side() {
    let a = block_iter(&[("a", "1")]);
    let b = block_iter(&[("b", "2"), ("c", "3")]);
    let mut it = TwoMergeIterator::create(a, b).unwrap();
    assert_eq!(drain(&mut it), pairs(&[("a", "1"), ("b", "2"), ("c", "3")]));
}

#[test]
fn merge_takes_each_key_from_first_iterator_holding_it() {
    let iters = vec![
        Box::new(block_iter(&[("b", "new"), ("d", "d0")])),
        Box::new(block_iter(&[("a", "a1"), ("b", "old"), ("e", "e1")])),
        Box::new(block_iter(&[("b", "older"), ("c", "c2"), ("e", "e2")])),
    ];
    let mut it = MergeIterator::create(iters);
    assert_eq!(
        drain(&mut it),
        pairs(&[("a", "a1"), ("b", "new"), ("c", "c2"), ("d", "d0"), ("e", "e1")])
    );
}

#[test]
fn merge_of_nothing_is_empty() {
    let iters: Vec<Box<BlockIterator>> = Vec::new();
    let it = MergeIterator::create(iters);
    assert!(!StorageIterator::is_valid(&it));
}

#[test]
fn merge_skips_exhausted_children() {
    let iters = vec![
        Box::new(block_iter(&[("a", "1")])),
        Box::new(block_iter(&[("a", "2"), ("b", "3")])),
    ];
    let mut it = MergeIterator::create(iters);
    StorageIterator::next(&mut it).unwrap();
    assert!(StorageIterator::is_valid(&it));
    assert_eq!(StorageIterator::key(&it), b"b");
    assert_eq!(StorageIterator::value(&it), b"3");
}
