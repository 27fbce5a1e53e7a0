use mini_lsm::block::Block;
use mini_lsm::block_builder::BlockBuilder;
use mini_lsm::block_iterator::BlockIterator;
use mini_lsm::error::LsmError;

use std::sync::Arc;

fn build_abc() -> Block {
    let mut b = BlockBuilder::new(4096);
    assert!(b.add(b"a", b"1"));
    assert!(b.add(b"b", b"2"));
    assert!(b.add(b"c", b"3"));
    b.build()
}

#[test]
fn block_round_trip_bytes_identical() {
    let block = build_abc();
    let enc1 = block.encode();
    let dec = Block::decode(enc1.as_ref()).unwrap();
    let enc2 = dec.encode();
    assert_eq!(enc1, enc2);
}

#[test]
fn block_round_trip_structural() {
    let block = build_abc();
    let enc = block.encode();
    let dec = Block::decode(enc.as_ref()).unwrap();
    assert_eq!(block.data, dec.data);
    assert_eq!(block.offsets, dec.offsets);
}

#[test]
fn block_encode_exact_layout() {
    let mut b = BlockBuilder::new(4096);
    assert!(b.add(b"a", b"1"));
    let block = b.build();
    let enc = block.encode();
    // record: key_len=1, 'a', value_len=1, '1'; offsets: [0]; count: 1
    let expected: Vec<u8> = vec![0, 1, b'a', 0, 1, b'1', 0, 0, 0, 1];
    assert_eq!(enc.as_ref(), expected.as_slice());
}

#[test]
fn empty_block_round_trips_and_iterator_invalid() {
    let b = BlockBuilder::new(64);
    assert!(b.is_empty());
    let block = b.build();
    let enc = block.encode();
    let dec = Block::decode(enc.as_ref()).unwrap();
    assert_eq!(dec.data, Vec::<u8>::new());
    assert_eq!(dec.offsets, Vec::<u16>::new());
    let iter = BlockIterator::create_and_seek_to_first(Arc::new(dec));
    assert!(!iter.is_valid());
}

#[test]
fn block_seek_exact_between_and_past() {
    let block = Arc::new(build_abc());
    let it = BlockIterator::create_and_seek_to_key(Arc::clone(&block), b"b");
    assert!(it.is_valid());
    assert_eq!(it.key(), b"b");
    assert_eq!(it.value(), b"2");
    let it = BlockIterator::create_and_seek_to_key(Arc::clone(&block), b"ba");
    assert!(it.is_valid());
    assert_eq!(it.key(), b"c");
    let it = BlockIterator::create_and_seek_to_key(Arc::clone(&block), b"z");
    assert!(!it.is_valid());
}

#[test]
fn single_entry_block_seek() {
    let mut b = BlockBuilder::new(4096);
    assert!(b.add(b"m", b"v"));
    let block = Arc::new(b.build());
    for target in [&b"a"[..], b"m"] {
        let it = BlockIterator::create_and_seek_to_key(Arc::clone(&block), target);
        assert!(it.is_valid());
        assert_eq!(it.key(), b"m");
        assert_eq!(it.value(), b"v");
    }
    let it = BlockIterator::create_and_seek_to_key(Arc::clone(&block), b"n");
    assert!(!it.is_valid());
}

#[test]
fn block_scan_in_order() {
    let block = Arc::new(build_abc());
    let mut it = BlockIterator::create_and_seek_to_first(block);
    let mut seen: Vec<(Vec<u8>, Vec<u8>)> = Vec::new();
    while it.is_valid() {
        seen.push((it.key().to_vec(), it.value().to_vec()));
        it.next();
    }
    assert_eq!(
        seen,
        vec![
            (b"a".to_vec(), b"1".to_vec()),
            (b"b".to_vec(), b"2".to_vec()),
            (b"c".to_vec(), b"3".to_vec()),
        ]
    );
}

#[test]
fn block_builder_rejects_when_full_accepts_first_oversize() {
    // first entry is accepted even when oversize
    let mut b = BlockBuilder::new(10);
    assert!(b.add(b"longkey", b"longvalue"));
    // a later entry that would overflow the target size is rejected
    assert!(!b.add(b"z", b"9"));
    // fresh builder with room accepts a second small entry
    let mut b2 = BlockBuilder::new(64);
    assert!(b2.add(b"a", b"1"));
    assert!(b2.add(b"b", b"2"));
}

#[test]
fn decode_corruption_cases() {
    // too short for the trailer
    assert_eq!(Block::decode(&[]).unwrap_err(), LsmError::Corruption);
    assert_eq!(Block::decode(&[7]).unwrap_err(), LsmError::Corruption);
    // trailer count implies more offset bytes than present
    assert_eq!(Block::decode(&[0, 5]).unwrap_err(), LsmError::Corruption);
    // offset points at a record past the data boundary
    assert_eq!(
        Block::decode(&[0, 10, 0, 1]).unwrap_err(),
        LsmError::Corruption
    );
}
