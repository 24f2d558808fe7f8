use mini_lsm::bytes_ext::bytes_as_slice;
use mini_lsm::iterators::StorageIterator;
use mini_lsm::meta::BlockMeta;
use mini_lsm::table::{FileObject, SsTable};
use mini_lsm::table_builder::SsTableBuilder;
use mini_lsm::table_iter::SsTableIterator;
use std::sync::Arc;

fn build_table(entries: &[(&[u8], &[u8])], block_size: usize, id: usize) -> SsTable {
    let mut builder = SsTableBuilder::new(block_size);
    for (k, v) in entries {
        builder.add(k, v);
    }
    builder.build(id)
}

fn table_bytes(t: &SsTable) -> Vec<u8> {
    t.file.0.as_ref().unwrap().clone()
}

#[test]
fn two_block_split_metadata() {
    // Six entries of eight serialized bytes each; a budget of 32 packs three
    // per block, so the table splits into exactly two blocks.
    let entries: Vec<(Vec<u8>, Vec<u8>)> = (0..6u8)
        .map(|i| (vec![b'k', b'0' + i], vec![b'v', b'0' + i]))
        .collect();
    let borrowed: Vec<(&[u8], &[u8])> =
        entries.iter().map(|(k, v)| (k.as_slice(), v.as_slice())).collect();
    let table = build_table(borrowed.as_slice(), 32, 1);
    assert_eq!(table.num_of_blocks(), 2);
    assert_eq!(bytes_as_slice(&table.block_meta[0].first_key), b"k0");
    assert_eq!(bytes_as_slice(&table.block_meta[0].last_key), b"k2");
    assert_eq!(bytes_as_slice(&table.block_meta[1].first_key), b"k3");
    assert_eq!(bytes_as_slice(&table.block_meta[1].last_key), b"k5");
    // The concatenation of the blocks' entries is the input.
    let mut it = SsTableIterator::create_and_seek_to_first(Arc::new(table));
    for (k, v) in borrowed {
        assert!(it.is_valid());
        assert_eq!(it.key(), k);
        assert_eq!(it.value(), v);
        it.next().unwrap();
    }
    assert!(!it.is_valid());
}

#[test]
fn open_recovers_built_table() {
    let entries: &[(&[u8], &[u8])] = &[(b"alpha", b"1"), (b"beta", b"2"), (b"gamma", b"3")];
    let built = build_table(entries, 4096, 7);
    // A single block still encodes and decodes correctly.
    assert_eq!(built.num_of_blocks(), 1);
    let bytes = table_bytes(&built);
    let opened = SsTable::open(7, FileObject::from_vec(bytes));
    assert_eq!(opened.sst_id(), 7);
    assert_eq!(opened.num_of_blocks(), built.num_of_blocks());
    assert_eq!(opened.first_key(), built.first_key());
    assert_eq!(opened.last_key(), built.last_key());
    assert_eq!(bytes_as_slice(opened.first_key()), b"alpha");
    assert_eq!(bytes_as_slice(opened.last_key()), b"gamma");
    for (m1, m2) in opened.block_meta.iter().zip(built.block_meta.iter()) {
        assert_eq!(m1.offset, m2.offset);
        assert_eq!(m1.first_key, m2.first_key);
        assert_eq!(m1.last_key, m2.last_key);
    }
    assert_eq!(opened.table_size(), built.table_size());
    assert_eq!(opened.max_ts(), 0);
}

#[test]
fn iteration_is_strictly_ascending() {
    let entries: Vec<(Vec<u8>, Vec<u8>)> = (0..26u8)
        .map(|i| (vec![b'a' + i], vec![i]))
        .collect();
    let borrowed: Vec<(&[u8], &[u8])> =
        entries.iter().map(|(k, v)| (k.as_slice(), v.as_slice())).collect();
    let table = build_table(borrowed.as_slice(), 24, 2);
    assert!(table.num_of_blocks() > 1);
    let mut it = SsTableIterator::create_and_seek_to_first(Arc::new(table));
    let mut seen: Vec<Vec<u8>> = Vec::new();
    while it.is_valid() {
        seen.push(it.key().to_vec());
        it.next().unwrap();
    }
    assert_eq!(seen.len(), 26);
    for w in seen.windows(2) {
        assert!(w[0] < w[1]);
    }
}

#[test]
fn seek_to_key_finds_present_and_next_greater() {
    let entries: &[(&[u8], &[u8])] = &[(b"b", b"1"), (b"d", b"2"), (b"f", b"3"), (b"h", b"4")];
    let table = Arc::new(build_table(entries, 16, 3));
    let it = SsTableIterator::create_and_seek_to_key(table.clone(), b"d");
    assert!(it.is_valid());
    assert_eq!(it.key(), b"d");
    assert_eq!(it.value(), b"2");
    let it = SsTableIterator::create_and_seek_to_key(table.clone(), b"e");
    assert!(it.is_valid());
    assert_eq!(it.key(), b"f");
    let it = SsTableIterator::create_and_seek_to_key(table.clone(), b"a");
    assert!(it.is_valid());
    assert_eq!(it.key(), b"b");
    let it = SsTableIterator::create_and_seek_to_key(table.clone(), b"z");
    assert!(!it.is_valid());
}

#[test]
fn find_block_idx_picks_rightmost_candidate() {
    let meta = |fk: &[u8], lk: &[u8]| BlockMeta {
        offset: 0,
        first_key: bytes::Bytes::copy_from_slice(fk),
        last_key: bytes::Bytes::copy_from_slice(lk),
    };
    let table = SsTable {
        file: FileObject(None, 0),
        block_meta: vec![meta(b"b", b"c"), meta(b"f", b"g"), meta(b"k", b"m")],
        block_meta_offset: 0,
        id: 0,
        first_key: bytes::Bytes::copy_from_slice(b"b"),
        last_key: bytes::Bytes::copy_from_slice(b"m"),
        max_ts: 0,
    };
    assert_eq!(table.find_block_idx(b"a"), 0);
    assert_eq!(table.find_block_idx(b"b"), 0);
    assert_eq!(table.find_block_idx(b"e"), 0);
    assert_eq!(table.find_block_idx(b"f"), 1);
    assert_eq!(table.find_block_idx(b"z"), 2);
}

#[test]
fn block_keys_lie_within_meta_range() {
    let entries: Vec<(Vec<u8>, Vec<u8>)> = (0..10u8)
        .map(|i| (vec![b'a' + i, b'x'], vec![i]))
        .collect();
    let borrowed: Vec<(&[u8], &[u8])> =
        entries.iter().map(|(k, v)| (k.as_slice(), v.as_slice())).collect();
    let table = build_table(borrowed.as_slice(), 32, 4);
    for idx in 0..table.num_of_blocks() {
        let block = table.read_block_cached(idx);
        let meta = &table.block_meta[idx];
        let mut it =
            mini_lsm::block_iter::BlockIterator::create_and_seek_to_first(block);
        while it.is_valid() {
            assert!(bytes_as_slice(&meta.first_key) <= it.key());
            assert!(it.key() <= bytes_as_slice(&meta.last_key));
            it.next();
        }
    }
}

#[test]
fn create_meta_only_carries_key_range() {
    let table = SsTable::create_meta_only(
        9,
        12345,
        bytes::Bytes::copy_from_slice(b"lo"),
        bytes::Bytes::copy_from_slice(b"hi"),
    );
    assert_eq!(table.sst_id(), 9);
    assert_eq!(table.table_size(), 12345);
    assert_eq!(table.num_of_blocks(), 0);
    assert_eq!(bytes_as_slice(table.first_key()), b"lo");
    assert_eq!(bytes_as_slice(table.last_key()), b"hi");
}

#[test]
fn estimated_size_tracks_finished_blocks() {
    let mut builder = SsTableBuilder::new(16);
    assert_eq!(builder.estimated_size(), 0);
    builder.add(b"aa", b"11");
    // Still buffered in the open block.
    assert_eq!(builder.estimated_size(), 0);
    builder.add(b"bb", b"22");
    // The first block was flushed: 8 entry bytes + 2 offset + 2 count.
    assert_eq!(builder.estimated_size(), 12);
}
