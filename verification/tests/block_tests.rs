use mini_lsm::block::{Block, BlockBuilder, BlockIterator};
use std::sync::Arc;

fn entry_bytes(overlap: u16, rest: &[u8], value: &[u8]) -> Vec<u8> {
    let mut v = Vec::new();
    v.extend_from_slice(&overlap.to_be_bytes());
    v.extend_from_slice(&(rest.len() as u16).to_be_bytes());
    v.extend_from_slice(rest);
    v.extend_from_slice(&0u64.to_be_bytes());
    v.extend_from_slice(&(value.len() as u16).to_be_bytes());
    v.extend_from_slice(value);
    v
}

fn sample_block() -> Block {
    let mut b = BlockBuilder::new(4096);
    assert!(b.add(b"a", b"1"));
    assert!(b.add(b"ab", b"22"));
    assert!(b.add(b"b", b"333"));
    b.build()
}

#[test]
fn builder_lays_out_entries_against_first_key() {
    let block = sample_block();
    let mut expected = entry_bytes(0, b"a", b"1");
    expected.extend(entry_bytes(1, b"b", b"22"));
    expected.extend(entry_bytes(0, b"b", b"333"));
    assert_eq!(block.data, expected);
    assert_eq!(block.offsets, vec![0u16, 16, 33]);
}

#[test]
fn builder_new_is_empty() {
    let b = BlockBuilder::new(16);
    assert!(b.is_empty());
}

#[test]
fn builder_accepts_first_entry_even_when_oversized() {
    let mut b = BlockBuilder::new(4);
    assert!(b.add(b"key", b"value"));
    assert!(!b.is_empty());
}

#[test]
fn builder_refuses_entry_past_block_size() {
    let mut b = BlockBuilder::new(20);
    assert!(b.add(b"a", b"1"));
    // 16 bytes of data, a 16-byte entry, two offsets and the count:
    // 16 + 16 + 4 + 2 = 38 > 20.
    assert!(!b.add(b"b", b"2"));
    let block = b.build();
    assert_eq!(block.offsets.len(), 1);
}

#[test]
fn builder_size_rule_boundary() {
    // After the first entry (16 bytes), adding key "b" and value "2" makes
    // an encoded block of exactly 38 bytes.
    let mut b = BlockBuilder::new(38);
    assert!(b.add(b"a", b"1"));
    assert!(b.add(b"b", b"2"));
    assert_eq!(b.build().encode().len(), 38);
    let mut c = BlockBuilder::new(37);
    assert!(c.add(b"a", b"1"));
    assert!(!c.add(b"b", b"2"));
}

#[test]
fn builder_never_grows_block_past_its_size() {
    // Two entries with empty values would encode to 36 bytes.
    let mut b = BlockBuilder::new(30);
    assert!(b.add(b"a", b""));
    assert!(!b.add(b"b", b""));
    assert_eq!(b.build().encode().len(), 19);
}

#[test]
fn builder_counts_only_the_unshared_key_bytes() {
    // "abcd" shares "abc" with the first key: its entry takes 14 + 1 + 1
    // bytes, and the block 18 + 16 + 4 + 2 = 40.
    let mut b = BlockBuilder::new(40);
    assert!(b.add(b"abc", b"1"));
    assert!(b.add(b"abcd", b"2"));
    assert_eq!(b.build().encode().len(), 40);
}

#[test]
fn encode_appends_offsets_and_count() {
    let block = sample_block();
    let encoded = block.encode();
    let mut expected = block.data.clone();
    for o in &block.offsets {
        expected.extend_from_slice(&o.to_be_bytes());
    }
    expected.extend_from_slice(&3u16.to_be_bytes());
    assert_eq!(&encoded[..], &expected[..]);
}

#[test]
fn decode_inverts_encode() {
    let block = sample_block();
    let encoded = block.encode();
    let decoded = Block::decode(&encoded);
    assert_eq!(decoded.data, block.data);
    assert_eq!(decoded.offsets, block.offsets);
}

#[test]
fn iterator_reads_entries_in_order() {
    let mut it = BlockIterator::create_and_seek_to_first(Arc::new(sample_block()));
    let mut got = Vec::new();
    while it.is_valid() {
        got.push((it.key().to_vec(), it.value().to_vec()));
        it.next();
    }
    assert_eq!(
        got,
        vec![
            (b"a".to_vec(), b"1".to_vec()),
            (b"ab".to_vec(), b"22".to_vec()),
            (b"b".to_vec(), b"333".to_vec()),
        ]
    );
}

#[test]
fn iterator_seek_to_key_finds_first_not_smaller() {
    let block = Arc::new(sample_block());
    let it = BlockIterator::create_and_seek_to_key(block.clone(), b"aa");
    assert!(it.is_valid());
    assert_eq!(it.key(), b"ab");
    assert_eq!(it.value(), b"22");
    let it = BlockIterator::create_and_seek_to_key(block.clone(), b"ab");
    assert_eq!(it.key(), b"ab");
    let it = BlockIterator::create_and_seek_to_key(block.clone(), b"");
    assert_eq!(it.key(), b"a");
    let it = BlockIterator::create_and_seek_to_key(block, b"c");
    assert!(!it.is_valid());
}

#[test]
fn iterator_seek_then_rewind() {
    let mut it = BlockIterator::create_and_seek_to_key(Arc::new(sample_block()), b"b");
    assert_eq!(it.key(), b"b");
    assert_eq!(it.value(), b"333");
    it.seek_to_first();
    assert_eq!(it.key(), b"a");
    it.seek_to_key(b"ab");
    assert_eq!(it.key(), b"ab");
}

#[test]
fn block_built_from_entries_reads_them_back() {
    let mut b = BlockBuilder::new(1 << 14);
    let mut entries = Vec::new();
    for i in 0..100u32 {
        let k = format!("key_{:05}", i * 7).into_bytes();
        let v = format!("value_{}", i).into_bytes();
        assert!(b.add(&k, &v));
        entries.push((k, v));
    }
    let encoded = b.build().encode();
    let mut it = BlockIterator::create_and_seek_to_first(Arc::new(Block::decode(&encoded)));
    for (k, v) in &entries {
        assert!(it.is_valid());
        assert_eq!(it.key(), &k[..]);
        assert_eq!(it.value(), &v[..]);
        it.next();
    }
    assert!(!it.is_valid());
}
