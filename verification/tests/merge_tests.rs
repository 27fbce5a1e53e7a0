use mini_lsm::error::LsmError;
use mini_lsm::iterators::{StorageIterator, VecIterator};
use mini_lsm::merge_iterator::MergeIterator;
use mini_lsm::table_builder::SsTableBuilder;
use mini_lsm::table_iterator::SsTableIterator;

use std::sync::Arc;

fn source(pairs: &[(&str, &str)]) -> Box<VecIterator> {
    let items: Vec<(Vec<u8>, Vec<u8>)> = pairs
        .iter()
        .map(|(k, v)| (k.as_bytes().to_vec(), v.as_bytes().to_vec()))
        .collect();
    Box::new(VecIterator::create(items))
}

fn drain<I: StorageIterator>(it: &mut MergeIterator<I>) -> Vec<(Vec<u8>, Vec<u8>)> {
    let mut seen = Vec::new();
    while it.is_valid() {
        seen.push((it.key().to_vec(), it.value().to_vec()));
        it.next().unwrap();
    }
    seen
}

#[test]
fn merge_precedence_lower_index_wins() {
    let s0 = source(&[("a", "A0"), ("c", "C0")]);
    let s1 = source(&[("a", "A1"), ("b", "B1")]);
    let mut m = MergeIterator::create(vec![s0, s1]);
    assert_eq!(
        drain(&mut m),
        vec![
            (b"a".to_vec(), b"A0".to_vec()),
            (b"b".to_vec(), b"B1".to_vec()),
            (b"c".to_vec(), b"C0".to_vec()),
        ]
    );
}

#[test]
fn merge_three_way_duplicate_chain() {
    let s0 = source(&[("k", "0")]);
    let s1 = source(&[("k", "1"), ("m", "1")]);
    let s2 = source(&[("k", "2"), ("n", "2")]);
    let mut m = MergeIterator::create(vec![s0, s1, s2]);
    assert_eq!(
        drain(&mut m),
        vec![
            (b"k".to_vec(), b"0".to_vec()),
            (b"m".to_vec(), b"1".to_vec()),
            (b"n".to_vec(), b"2".to_vec()),
        ]
    );
}

#[test]
fn merge_skips_exhausted_sources() {
    let s0 = source(&[]);
    let s1 = source(&[("x", "1")]);
    let mut m = MergeIterator::create(vec![s0, s1]);
    assert_eq!(drain(&mut m), vec![(b"x".to_vec(), b"1".to_vec())]);
}

#[test]
fn merge_of_no_sources_is_invalid() {
    let mut m: MergeIterator<VecIterator> = MergeIterator::create(vec![]);
    assert!(!m.is_valid());
    assert_eq!(m.next().unwrap_err(), LsmError::Misuse);
}

#[test]
fn merge_emits_strictly_ascending_keys() {
    let s0 = source(&[("b", "0"), ("d", "0"), ("f", "0")]);
    let s1 = source(&[("a", "1"), ("b", "1"), ("e", "1")]);
    let s2 = source(&[("b", "2"), ("c", "2"), ("e", "2")]);
    let mut m = MergeIterator::create(vec![s0, s1, s2]);
    let out = drain(&mut m);
    assert_eq!(
        out,
        vec![
            (b"a".to_vec(), b"1".to_vec()),
            (b"b".to_vec(), b"0".to_vec()),
            (b"c".to_vec(), b"2".to_vec()),
            (b"d".to_vec(), b"0".to_vec()),
            (b"e".to_vec(), b"1".to_vec()),
            (b"f".to_vec(), b"0".to_vec()),
        ]
    );
    for w in out.windows(2) {
        assert!(w[0].0 < w[1].0);
    }
}

#[test]
fn invalid_iterators_return_empty_slices() {
    // an exhausted merge iterator hands out empty key and value
    let s0 = source(&[("a", "1")]);
    let mut m = MergeIterator::create(vec![s0]);
    m.next().unwrap();
    assert!(!m.is_valid());
    assert_eq!(m.key(), b"");
    assert_eq!(m.value(), b"");
    // so does an exhausted plain source
    let mut v = *source(&[]);
    assert!(!v.is_valid());
    assert_eq!(v.key(), b"");
    assert_eq!(v.value(), b"");
    assert_eq!(v.next().unwrap_err(), LsmError::Misuse);
}

#[test]
fn merge_over_sst_iterators() {
    let mut b0 = SsTableBuilder::new(64);
    b0.add(b"apple", b"fresh");
    b0.add(b"pear", b"fresh");
    let t0 = Arc::new(b0.build(0));
    let mut b1 = SsTableBuilder::new(64);
    b1.add(b"apple", b"stale");
    b1.add(b"plum", b"stale");
    let t1 = Arc::new(b1.build(1));
    let s0 = Box::new(SsTableIterator::create_and_seek_to_first(t0));
    let s1 = Box::new(SsTableIterator::create_and_seek_to_first(t1));
    let mut m = MergeIterator::create(vec![s0, s1]);
    assert_eq!(
        drain(&mut m),
        vec![
            (b"apple".to_vec(), b"fresh".to_vec()),
            (b"pear".to_vec(), b"fresh".to_vec()),
            (b"plum".to_vec(), b"stale".to_vec()),
        ]
    );
}
