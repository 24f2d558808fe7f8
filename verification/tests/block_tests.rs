use mini_lsm::block::Block;
use mini_lsm::block_builder::BlockBuilder;
use mini_lsm::block_iter::BlockIterator;
use std::sync::Arc;

fn build_block(entries: &[(&[u8], &[u8])], block_size: usize) -> Block {
    let mut builder = BlockBuilder::new(block_size);
    for (k, v) in entries {
        assert!(builder.add(k, v));
    }
    builder.build()
}

#[test]
fn single_entry_block_bytes() {
    let mut builder = BlockBuilder::new(4096);
    assert!(builder.add(b"k", b"v"));
    let block = builder.build();
    let encoded = block.encode();
    let expected: &[u8] = &[0x01, 0x00, 0x6B, 0x01, 0x00, 0x76, 0x00, 0x00, 0x01, 0x00];
    assert_eq!(encoded.as_ref(), expected);
}

#[test]
fn two_entry_offsets_and_keys() {
    let block = build_block(&[(b"a", b"1"), (b"b", b"2")], 4096);
    assert_eq!(block.offsets, vec![0u16, 6u16]);
    let mut it = BlockIterator::create_and_seek_to_first(Arc::new(block));
    assert!(it.is_valid());
    assert_eq!(it.key(), b"a");
    assert_eq!(it.value(), b"1");
    it.next();
    assert!(it.is_valid());
    assert_eq!(it.key(), b"b");
    assert_eq!(it.value(), b"2");
    it.next();
    assert!(!it.is_valid());
}

#[test]
fn decode_inverts_encode() {
    let block = build_block(&[(b"apple", b"red"), (b"banana", b"yellow"), (b"cherry", b"")], 4096);
    let encoded = block.encode_vec();
    let decoded = Block::decode(encoded.as_slice());
    assert_eq!(decoded.data, block.data);
    assert_eq!(decoded.offsets, block.offsets);
}

#[test]
fn oversized_first_entry_is_accepted() {
    let mut builder = BlockBuilder::new(16);
    let big_value = vec![0x41u8; 100];
    assert!(builder.add(b"huge", big_value.as_slice()));
    assert!(!builder.is_empty());
    // The block is over budget, so the next entry is refused.
    assert!(!builder.add(b"tiny", b"x"));
    let block = builder.build();
    assert_eq!(block.offsets.len(), 1);
    let decoded = Block::decode(block.encode_vec().as_slice());
    assert_eq!(decoded.offsets.len(), 1);
    let it = BlockIterator::create_and_seek_to_first(Arc::new(decoded));
    assert_eq!(it.key(), b"huge");
    assert_eq!(it.value(), big_value.as_slice());
}

#[test]
fn budget_refuses_when_full() {
    let mut builder = BlockBuilder::new(17);
    assert!(builder.add(b"aa", b"11"));
    // size is now 8 data bytes + 2 offset bytes + 2 count bytes = 12; another
    // 4-byte entry plus its 2 offset bytes would need 18 > 17.
    assert!(!builder.add(b"bb", b"22"));
}

#[test]
fn seek_to_key_positions_at_lower_bound() {
    let block = Arc::new(build_block(&[(b"b", b"2"), (b"d", b"4"), (b"f", b"6")], 4096));
    let it = BlockIterator::create_and_seek_to_key(block.clone(), b"d");
    assert!(it.is_valid());
    assert_eq!(it.key(), b"d");
    let it = BlockIterator::create_and_seek_to_key(block.clone(), b"c");
    assert!(it.is_valid());
    assert_eq!(it.key(), b"d");
    let it = BlockIterator::create_and_seek_to_key(block.clone(), b"a");
    assert!(it.is_valid());
    assert_eq!(it.key(), b"b");
}

#[test]
fn seek_past_every_key_is_invalid() {
    let block = Arc::new(build_block(&[(b"b", b"2"), (b"d", b"4")], 4096));
    let it = BlockIterator::create_and_seek_to_key(block, b"z");
    assert!(!it.is_valid());
}
