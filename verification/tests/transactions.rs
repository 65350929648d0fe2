//! Transactions and the watermark.
use mini_lsm::bound::Bound;
use mini_lsm::error::LsmError;
use mini_lsm::iterators::StorageIterator;
use mini_lsm::lsm_storage::recovery::Recovery;
use mini_lsm::lsm_storage::{LsmStorageInner, LsmStorageOptions};
use mini_lsm::mvcc::txn::Transaction;
use mini_lsm::mvcc::watermark::Watermark;
use std::collections::HashMap;

fn engine() -> LsmStorageInner {
    let options = LsmStorageOptions::default_for_week1_test();
    let mut e =
        LsmStorageInner::open(Recovery::new(options), HashMap::new(), &Vec::new(), &[]).unwrap().0;
    e.put(b"a", b"1");
    e.put(b"b", b"1");
    e.put(b"c", b"1");
    e
}

fn scan(t: &Transaction, e: &LsmStorageInner) -> Vec<(String, String)> {
    let mut it = t.scan(e, Bound::Unbounded, Bound::Unbounded).unwrap();
    let mut all = Vec::new();
    while it.is_valid() {
        all.push((
            String::from_utf8(it.key().to_vec()).unwrap(),
            String::from_utf8(it.value().to_vec()).unwrap(),
        ));
        it.next().unwrap();
    }
    all
}

#[test]
fn a_transaction_reads_its_own_writes() {
    let e = engine();
    let mut t = Transaction::new(0);
    t.put(b"b", b"2").unwrap();
    t.delete(b"c").unwrap();
    t.put(b"d", b"2").unwrap();
    assert_eq!(t.get(&e, b"a").unwrap(), Some(b"1".to_vec()));
    assert_eq!(t.get(&e, b"b").unwrap(), Some(b"2".to_vec()));
    assert_eq!(t.get(&e, b"c").unwrap(), None);
    assert_eq!(t.get(&e, b"d").unwrap(), Some(b"2".to_vec()));
    assert_eq!(t.get(&e, b"e").unwrap(), None);
    // nothing is seen outside
    assert_eq!(e.get(b"b").unwrap(), Some(b"1".to_vec()));
}

#[test]
fn a_scan_of_a_transaction_shows_what_its_gets_show() {
    let e = engine();
    let mut t = Transaction::new(0);
    t.put(b"b", b"2").unwrap();
    t.delete(b"a").unwrap();
    t.put(b"d", b"2").unwrap();
    let all = scan(&t, &e);
    let expected = [("b", "2"), ("c", "1"), ("d", "2")];
    assert_eq!(all.len(), 3);
    for (found, (k, v)) in all.iter().zip(expected) {
        assert_eq!((found.0.as_str(), found.1.as_str()), (k, v));
        assert_eq!(t.get(&e, k.as_bytes()).unwrap(), Some(v.as_bytes().to_vec()));
    }
    let it = t.scan(&e, Bound::Excluded(b"b"), Bound::Excluded(b"d")).unwrap();
    assert_eq!(it.key(), b"c");
}

#[test]
fn a_commit_writes_everything() {
    let mut e = engine();
    let mut t = Transaction::new(0);
    t.put(b"b", b"2").unwrap();
    t.delete(b"a").unwrap();
    t.commit(&mut e);
    assert_eq!(e.get(b"a").unwrap(), None);
    assert_eq!(e.get(b"b").unwrap(), Some(b"2".to_vec()));
    assert_eq!(e.get(b"c").unwrap(), Some(b"1".to_vec()));
}

#[test]
fn a_committed_transaction_is_closed() {
    let mut e = engine();
    let mut t = Transaction::new(0);
    t.commit(&mut e);
    assert_eq!(t.get(&e, b"a"), Err(LsmError::AlreadyCommitted));
    assert_eq!(t.put(b"a", b"2"), Err(LsmError::AlreadyCommitted));
    assert_eq!(t.delete(b"a"), Err(LsmError::AlreadyCommitted));
    let r = t.scan(&e, Bound::Unbounded, Bound::Unbounded);
    assert!(matches!(r, Err(LsmError::AlreadyCommitted)));
}

#[test]
fn an_empty_key_ends_the_local_part_of_a_scan() {
    let e = engine();
    let mut t = Transaction::new(0);
    t.put(b"", b"nothing").unwrap();
    t.put(b"b", b"2").unwrap();
    let all = scan(&t, &e);
    assert_eq!(all.len(), 3);
    assert_eq!(all[1].1, "1");
}

#[test]
fn the_watermark_is_the_oldest_reader() {
    let mut w = Watermark::new();
    assert_eq!(w.watermark(), None);
    assert_eq!(w.num_retained_snapshots(), 0);
    w.add_reader(5);
    w.add_reader(3);
    w.add_reader(3);
    assert_eq!(w.watermark(), Some(3));
    assert_eq!(w.num_retained_snapshots(), 2);
    w.remove_reader(3);
    assert_eq!(w.watermark(), Some(3));
    w.remove_reader(3);
    assert_eq!(w.watermark(), Some(5));
    w.remove_reader(4);
    assert_eq!(w.num_retained_snapshots(), 1);
    w.remove_reader(5);
    assert_eq!(w.watermark(), None);
    assert_eq!(Watermark::default().num_retained_snapshots(), 0);
}
