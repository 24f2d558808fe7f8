use mini_lsm::iterators::{Error, StorageIterator, VecIterator};
use mini_lsm::merge_iterator::MergeIterator;
use mini_lsm::table_iter::SsTableIterator;
use mini_lsm::table_builder::SsTableBuilder;
use std::sync::Arc;

fn vec_iter(entries: &[(&[u8], &[u8])]) -> VecIterator {
    let owned: Vec<(Vec<u8>, Vec<u8>)> =
        entries.iter().map(|(k, v)| (k.to_vec(), v.to_vec())).collect();
    VecIterator::create(owned, None, 0)
}

fn collect(merge: &mut MergeIterator<VecIterator>) -> Vec<(Vec<u8>, Vec<u8>)> {
    let mut out = Vec::new();
    while merge.is_valid() {
        out.push((merge.key().to_vec(), merge.value().to_vec()));
        merge.next().unwrap();
    }
    out
}

#[test]
fn lower_index_shadows_equal_keys() {
    let c0 = vec_iter(&[(b"a", b"new")]);
    let c1 = vec_iter(&[(b"a", b"old"), (b"b", b"1")]);
    let mut merge = MergeIterator::create(vec![Box::new(c0), Box::new(c1)]);
    let out = collect(&mut merge);
    assert_eq!(
        out,
        vec![(b"a".to_vec(), b"new".to_vec()), (b"b".to_vec(), b"1".to_vec())]
    );
}

#[test]
fn child_error_propagates_and_terminates() {
    let owned = vec![(b"a".to_vec(), b"1".to_vec())];
    let c0 = VecIterator::create(owned, Some(1), 7);
    let mut merge = MergeIterator::create(vec![Box::new(c0)]);
    assert!(merge.is_valid());
    assert_eq!(merge.key(), b"a");
    assert_eq!(merge.value(), b"1");
    let res = merge.next();
    assert_eq!(res, Err(Error::Source(7)));
    assert!(!merge.is_valid());
}

#[test]
fn interleaved_children_merge_sorted() {
    let c0 = vec_iter(&[(b"a", b"0"), (b"c", b"0"), (b"e", b"0")]);
    let c1 = vec_iter(&[(b"b", b"1"), (b"d", b"1")]);
    let mut merge = MergeIterator::create(vec![Box::new(c0), Box::new(c1)]);
    let out = collect(&mut merge);
    let keys: Vec<Vec<u8>> = out.iter().map(|(k, _)| k.clone()).collect();
    assert_eq!(keys, vec![
        b"a".to_vec(),
        b"b".to_vec(),
        b"c".to_vec(),
        b"d".to_vec(),
        b"e".to_vec(),
    ]);
    for w in keys.windows(2) {
        assert!(w[0] < w[1]);
    }
}

#[test]
fn triple_shadowing_keeps_lowest_index() {
    let c0 = vec_iter(&[(b"k", b"v0")]);
    let c1 = vec_iter(&[(b"k", b"v1")]);
    let c2 = vec_iter(&[(b"k", b"v2"), (b"z", b"zz")]);
    let mut merge = MergeIterator::create(vec![Box::new(c0), Box::new(c1), Box::new(c2)]);
    let out = collect(&mut merge);
    assert_eq!(
        out,
        vec![(b"k".to_vec(), b"v0".to_vec()), (b"z".to_vec(), b"zz".to_vec())]
    );
}

#[test]
fn empty_children_are_skipped() {
    let c0 = vec_iter(&[]);
    let c1 = vec_iter(&[(b"m", b"1")]);
    let c2 = vec_iter(&[]);
    let mut merge = MergeIterator::create(vec![Box::new(c0), Box::new(c1), Box::new(c2)]);
    let out = collect(&mut merge);
    assert_eq!(out, vec![(b"m".to_vec(), b"1".to_vec())]);
    let none = MergeIterator::<VecIterator>::create(vec![]);
    assert!(!none.is_valid());
}

#[test]
fn merge_of_table_iterators_shadows_older_table() {
    let mut newer = SsTableBuilder::new(4096);
    newer.add(b"a", b"fresh");
    newer.add(b"c", b"kept");
    let newer = newer.build(0);
    let mut older = SsTableBuilder::new(4096);
    older.add(b"a", b"stale");
    older.add(b"b", b"old");
    let older = older.build(1);
    let it_new = SsTableIterator::create_and_seek_to_first(Arc::new(newer));
    let it_old = SsTableIterator::create_and_seek_to_first(Arc::new(older));
    let mut merge = MergeIterator::create(vec![Box::new(it_new), Box::new(it_old)]);
    let mut out = Vec::new();
    while merge.is_valid() {
        out.push((merge.key().to_vec(), merge.value().to_vec()));
        merge.next().unwrap();
    }
    assert_eq!(out, vec![
        (b"a".to_vec(), b"fresh".to_vec()),
        (b"b".to_vec(), b"old".to_vec()),
        (b"c".to_vec(), b"kept".to_vec()),
    ]);
}

#[test]
fn vec_iterator_walks_its_entries() {
    let mut it = vec_iter(&[(b"x", b"1"), (b"y", b"2")]);
    assert!(it.is_valid());
    assert_eq!(it.key(), b"x");
    assert_eq!(it.value(), b"1");
    it.next().unwrap();
    assert_eq!(it.key(), b"y");
    it.next().unwrap();
    assert!(!it.is_valid());
}
