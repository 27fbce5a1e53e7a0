use mini_lsm::error::LsmError;
use mini_lsm::iterators::StorageIterator;
use mini_lsm::table::SsTable;
use mini_lsm::table_builder::SsTableBuilder;
use mini_lsm::table_iterator::SsTableIterator;

use std::sync::Arc;

fn gap_table() -> Arc<SsTable> {
    // block_size 24: entries 0-1 fill block 0, entries 2-3 go to block 1
    let mut b = SsTableBuilder::new(24);
    b.add(b"aa", b"1");
    b.add(b"ab", b"2");
    b.add(b"cc", b"3");
    b.add(b"cd", b"4");
    Arc::new(b.build(0))
}

#[test]
fn sst_builder_splits_blocks() {
    let t = gap_table();
    assert_eq!(t.block_meta.len(), 2);
    assert_eq!(t.first_key, b"aa".to_vec());
    assert_eq!(t.last_key, b"cd".to_vec());
    assert_eq!(t.block_meta[0].first_key, b"aa".to_vec());
    assert_eq!(t.block_meta[0].last_key, b"ab".to_vec());
    assert_eq!(t.block_meta[1].first_key, b"cc".to_vec());
    assert_eq!(t.block_meta[1].last_key, b"cd".to_vec());
}

#[test]
fn sst_gap_seek_emits_next_block_first_key() {
    let t = gap_table();
    // "b" falls in the gap between block 0's last key and block 1's first
    let it = SsTableIterator::create_and_seek_to_key(Arc::clone(&t), b"b");
    assert!(it.is_valid());
    assert_eq!(it.key(), b"cc");
    assert_eq!(it.value(), b"3");
}

#[test]
fn sst_seek_exact_last_key_of_block() {
    let t = gap_table();
    // target equals block 0's exact last key and is below block 1's first
    let it = SsTableIterator::create_and_seek_to_key(Arc::clone(&t), b"ab");
    assert!(it.is_valid());
    assert_eq!(it.key(), b"ab");
    assert_eq!(it.value(), b"2");
}

#[test]
fn sst_seek_past_last_key_invalidates() {
    let t = gap_table();
    let it = SsTableIterator::create_and_seek_to_key(Arc::clone(&t), b"zz");
    assert!(!it.is_valid());
}

#[test]
fn sst_seek_to_key_method_matches_create() {
    let t = gap_table();
    let mut it = SsTableIterator::create_and_seek_to_first(Arc::clone(&t));
    assert!(it.is_valid());
    assert_eq!(it.key(), b"aa");
    it.seek_to_key(b"cd").unwrap();
    assert!(it.is_valid());
    assert_eq!(it.key(), b"cd");
    it.seek_to_first().unwrap();
    assert_eq!(it.key(), b"aa");
}

#[test]
fn sst_full_scan_matches_input() {
    let t = gap_table();
    let mut it = SsTableIterator::create_and_seek_to_first(Arc::clone(&t));
    let mut seen: Vec<(Vec<u8>, Vec<u8>)> = Vec::new();
    while it.is_valid() {
        seen.push((it.key().to_vec(), it.value().to_vec()));
        it.next().unwrap();
    }
    assert_eq!(
        seen,
        vec![
            (b"aa".to_vec(), b"1".to_vec()),
            (b"ab".to_vec(), b"2".to_vec()),
            (b"cc".to_vec(), b"3".to_vec()),
            (b"cd".to_vec(), b"4".to_vec()),
        ]
    );
}

#[test]
fn sst_invalid_iterator_returns_empty_slices() {
    let t = gap_table();
    let it = SsTableIterator::create_and_seek_to_key(Arc::clone(&t), b"zz");
    assert!(!it.is_valid());
    assert_eq!(it.key(), b"");
    assert_eq!(it.value(), b"");
}

#[test]
fn sst_next_on_invalid_iterator_errors() {
    let t = gap_table();
    let mut it = SsTableIterator::create_and_seek_to_key(Arc::clone(&t), b"zz");
    assert!(!it.is_valid());
    assert_eq!(it.next().unwrap_err(), LsmError::Misuse);
}

#[test]
fn sst_file_trailer_locates_meta() {
    let t = gap_table();
    let len = t.file.data.len();
    let mo = t.block_meta_offset as u32;
    let trailer = &t.file.data[len - 4..];
    assert_eq!(
        trailer,
        &[
            (mo >> 24) as u8,
            (mo >> 16) as u8,
            (mo >> 8) as u8,
            mo as u8
        ]
    );
}

#[test]
fn sst_thousand_keys_scan_and_seek() {
    let mut b = SsTableBuilder::new(256);
    let mut expected: Vec<(Vec<u8>, Vec<u8>)> = Vec::new();
    for i in 0..1000 {
        let key = format!("key{:03}", i);
        let value: String = key.chars().rev().collect();
        b.add(key.as_bytes(), value.as_bytes());
        expected.push((key.into_bytes(), value.into_bytes()));
    }
    let t = Arc::new(b.build(7));
    assert_eq!(t.id, 7);
    let mut it = SsTableIterator::create_and_seek_to_first(Arc::clone(&t));
    let mut seen: Vec<(Vec<u8>, Vec<u8>)> = Vec::new();
    while it.is_valid() {
        seen.push((it.key().to_vec(), it.value().to_vec()));
        it.next().unwrap();
    }
    assert_eq!(seen, expected);
    let mut it = SsTableIterator::create_and_seek_to_first(Arc::clone(&t));
    it.seek_to_key(b"key500").unwrap();
    assert!(it.is_valid());
    assert_eq!(it.key(), b"key500");
    assert_eq!(it.value(), b"005yek");
}

#[test]
fn sst_estimated_size_tracks_sealed_data() {
    let mut b = SsTableBuilder::new(24);
    assert_eq!(b.estimated_size(), 0);
    b.add(b"aa", b"1");
    b.add(b"ab", b"2");
    // nothing sealed yet
    assert_eq!(b.estimated_size(), 0);
    b.add(b"cc", b"3");
    // the first block was sealed: 2 records of 7 bytes, 2 offsets, count
    assert_eq!(b.estimated_size(), 20);
}
