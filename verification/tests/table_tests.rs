use mini_lsm::iterators::concat_iterator::SstConcatIterator;
use mini_lsm::iterators::StorageIterator;
use mini_lsm::table::{BlockMeta, SsTable, SsTableBuilder, SsTableIterator};
use std::sync::Arc;

fn key_of(i: usize) -> Vec<u8> {
    format!("key_{:03}", i).into_bytes()
}

fn value_of(i: usize) -> Vec<u8> {
    format!("value_{:010}", i).into_bytes()
}

fn build_table(range: std::ops::Range<usize>, id: usize) -> SsTable {
    let mut b = SsTableBuilder::new(128);
    for i in range {
        b.add(&key_of(i), &value_of(i));
    }
    b.build(id)
}

fn drain<I: StorageIterator>(it: &mut I) -> Vec<(Vec<u8>, Vec<u8>)> {
    let mut out = Vec::new();
    while it.is_valid() {
        out.push((it.key().to_vec(), it.value().to_vec()));
        it.next().unwrap();
    }
    out
}

fn expected(range: std::ops::Range<usize>) -> Vec<(Vec<u8>, Vec<u8>)> {
    range.map(|i| (key_of(i), value_of(i))).collect()
}

#[test]
fn builder_tracks_key_range_and_splits_blocks() {
    let t = build_table(0..40, 7);
    assert_eq!(t.id, 7);
    assert_eq!(t.first_key, key_of(0));
    assert_eq!(t.last_key, key_of(39));
    assert!(t.block_meta.len() > 1);
    assert_eq!(t.block_meta[0].offset, 0);
    assert_eq!(t.max_ts, 0);
    assert_eq!(t.num_of_blocks(), t.block_meta.len());
    assert_eq!(t.sst_id(), 7);
}

#[test]
fn metas_record_each_blocks_first_and_last_keys() {
    let t = Arc::new(build_table(0..40, 1));
    assert!(t.block_meta.len() > 1);
    for i in 0..t.block_meta.len() {
        let block = t.read_block(i);
        let mut it = mini_lsm::block::BlockIterator::create_and_seek_to_first(block);
        let first = it.key().to_vec();
        let mut last = first.clone();
        while it.is_valid() {
            last = it.key().to_vec();
            it.next();
        }
        assert_eq!(t.block_meta[i].first_key, first);
        assert_eq!(t.block_meta[i].last_key, last);
    }
    assert_eq!(t.block_meta[0].first_key, key_of(0));
    assert_eq!(t.block_meta[t.block_meta.len() - 1].last_key, key_of(39));
}

#[test]
fn long_shared_prefixes_seal_without_fault() {
    // Keys that share a long prefix and carry empty values.
    let mut b = SsTableBuilder::new(64);
    let keys: Vec<Vec<u8>> = (0..12).map(|i| format!("aaaaaaaaaaaaaaaaaaaaaaaaaaaaaa{:02}", i).into_bytes()).collect();
    for k in &keys {
        b.add(k, b"");
    }
    let t = Arc::new(b.build(3));
    assert!(t.block_meta.len() > 1);
    let mut it = SsTableIterator::create_and_seek_to_first(t.clone());
    let got: Vec<Vec<u8>> = drain(&mut it).into_iter().map(|(k, _)| k).collect();
    assert_eq!(got, keys);
    assert_eq!(t.block_meta[t.block_meta.len() - 1].last_key, keys[keys.len() - 1]);
    assert_eq!(t.block_meta[0].first_key, keys[0]);
}

#[test]
fn concat_of_no_tables_is_exhausted() {
    let it = SstConcatIterator::create_and_seek_to_first(Vec::new()).unwrap();
    assert!(!it.is_valid());
    let it = SstConcatIterator::create_and_seek_to_key(Vec::new(), b"k").unwrap();
    assert!(!it.is_valid());
}

#[test]
fn table_file_ends_with_meta_offset() {
    let t = build_table(0..40, 1);
    let n = t.file.len();
    let tail = u32::from_be_bytes([t.file[n - 4], t.file[n - 3], t.file[n - 2], t.file[n - 1]]);
    assert_eq!(tail as usize, t.block_meta_offset);
    let mut metas = Vec::new();
    BlockMeta::encode_block_meta(&t.block_meta, &mut metas);
    assert_eq!(&t.file[t.block_meta_offset..n - 4], &metas[..]);
}

#[test]
fn estimated_size_counts_sealed_blocks_and_current_one() {
    let mut b = SsTableBuilder::new(128);
    assert_eq!(b.estimated_size(), 128);
    for i in 0..40 {
        b.add(&key_of(i), &value_of(i));
    }
    let estimate = b.estimated_size();
    assert!(estimate > 128);
    // The last block is sealed on build: one block size per block.
    let t = b.build(1);
    assert_eq!(estimate, t.block_meta.len() * 128);
}

#[test]
fn build_for_test_uses_id_zero() {
    let mut b = SsTableBuilder::new(128);
    b.add(b"k", b"v");
    let t = b.build_for_test();
    assert_eq!(t.id, 0);
    assert_eq!(t.block_meta.len(), 1);
}

#[test]
fn encode_block_meta_layout() {
    let metas = vec![
        BlockMeta { offset: 0, first_key: b"a".to_vec(), last_key: b"bc".to_vec() },
        BlockMeta { offset: 300, first_key: b"d".to_vec(), last_key: b"e".to_vec() },
    ];
    let mut buf = vec![9u8];
    BlockMeta::encode_block_meta(&metas, &mut buf);
    assert_eq!(
        buf,
        vec![
            9, 0, 0, 0, 0, 0, 1, b'a', 0, 2, b'b', b'c', 0, 0, 1, 44, 0, 1, b'd', 0, 1, b'e'
        ]
    );
}

#[test]
fn table_iterator_reads_back_what_was_built() {
    let t = Arc::new(build_table(0..40, 1));
    let mut it = SsTableIterator::create_and_seek_to_first(t);
    assert_eq!(drain(&mut it), expected(0..40));
}

#[test]
fn table_iterator_seeks_across_blocks() {
    let t = Arc::new(build_table(0..40, 1));
    let mut it = SsTableIterator::create_and_seek_to_key(t.clone(), b"key_017");
    assert_eq!(drain(&mut it), expected(17..40));
    let mut it = SsTableIterator::create_and_seek_to_key(t.clone(), b"key_0175");
    assert_eq!(drain(&mut it), expected(18..40));
    let mut it = SsTableIterator::create_and_seek_to_key(t.clone(), b"a");
    assert_eq!(drain(&mut it), expected(0..40));
    let it = SsTableIterator::create_and_seek_to_key(t, b"z");
    assert!(!it.is_valid());
}

#[test]
fn table_read_block_decodes_blocks() {
    let t = build_table(0..40, 1);
    let first = t.read_block(0);
    assert_eq!(first.offsets[0], 0);
    assert!(!first.data.is_empty());
}

#[test]
fn concat_iterator_reads_tables_in_turn() {
    let tables = vec![
        Arc::new(build_table(0..10, 1)),
        Arc::new(build_table(10..25, 2)),
        Arc::new(build_table(25..30, 3)),
    ];
    let mut it = SstConcatIterator::create_and_seek_to_first(tables).unwrap();
    assert_eq!(drain(&mut it), expected(0..30));
    assert_eq!(it.num_active_iterators(), 1);
}

#[test]
fn concat_iterator_seeks_into_the_right_table() {
    let tables = vec![
        Arc::new(build_table(0..10, 1)),
        Arc::new(build_table(10..25, 2)),
        Arc::new(build_table(25..30, 3)),
    ];
    let mut it = SstConcatIterator::create_and_seek_to_key(tables.clone(), b"key_012").unwrap();
    assert_eq!(drain(&mut it), expected(12..30));
    // A key past the end of the first table but before the second one.
    let mut it = SstConcatIterator::create_and_seek_to_key(tables.clone(), b"key_0095").unwrap();
    assert_eq!(drain(&mut it), expected(10..30));
    let mut it = SstConcatIterator::create_and_seek_to_key(tables.clone(), b"a").unwrap();
    assert_eq!(drain(&mut it), expected(0..30));
    let it = SstConcatIterator::create_and_seek_to_key(tables, b"zzz").unwrap();
    assert!(!it.is_valid());
}

#[test]
fn built_blocks_stay_within_block_size() {
    let t = build_table(0..50, 3);
    let n = t.block_meta.len();
    assert!(n > 1);
    for i in 0..n {
        let end = if i + 1 < n { t.block_meta[i + 1].offset } else { t.block_meta_offset };
        assert!(end - t.block_meta[i].offset <= 128);
    }
    let mut it = SsTableIterator::create_and_seek_to_first(Arc::new(t));
    assert_eq!(drain(&mut it), expected(0..50));
}
