//! Memtables and their logs.
use mini_lsm::bound::Bound;
use mini_lsm::iterators::StorageIterator;
use mini_lsm::key::KeySlice;
use mini_lsm::mem_table::{MemTable, is_storable};
use mini_lsm::table::SsTableBuilder;
use mini_lsm::versions::VersionMap;
use mini_lsm::wal::{Wal, WalError};

fn keys(m: &MemTable, lower: Bound<&[u8]>, upper: Bound<&[u8]>) -> Vec<String> {
    let mut it = m.scan(&lower, &upper);
    let mut all = Vec::new();
    while it.is_valid() {
        all.push(String::from_utf8(it.key().key_ref().to_vec()).unwrap());
        it.next().unwrap();
    }
    all
}

fn five() -> MemTable {
    let mut m = MemTable::create(3);
    for k in ["d", "b", "e", "a", "c"] {
        m.put(k.as_bytes(), b"v");
    }
    m
}

/// A single record with its checksum, as logs without batches hold it.
fn single(key: &[u8], ts: u64, value: &[u8]) -> Vec<u8> {
    let mut s = (key.len() as u16).to_be_bytes().to_vec();
    s.extend_from_slice(key);
    s.extend_from_slice(&ts.to_be_bytes());
    s.extend_from_slice(&(value.len() as u16).to_be_bytes());
    s.extend_from_slice(value);
    let sum = crc32fast::hash(&s);
    s.extend_from_slice(&sum.to_be_bytes());
    s
}

/// A batch with this body and the right checksum.
fn batch(body: &[u8]) -> Vec<u8> {
    let mut s = (body.len() as u32).to_be_bytes().to_vec();
    s.extend_from_slice(body);
    s.extend_from_slice(&crc32fast::hash(body).to_be_bytes());
    s
}

fn recover(log: &[u8]) -> Result<VersionMap, WalError> {
    let mut map = VersionMap::new();
    Wal::recover(log, &mut map)?;
    Ok(map)
}

/// The value of a version in a recovered map.
fn version(map: VersionMap, key: &str, ts: u64) -> Option<Vec<u8>> {
    let m = MemTable { map, wal: None, id: 0, approximate_size: 0 };
    let mut it = m.scan(&Bound::Included(key.as_bytes()), &Bound::Included(key.as_bytes()));
    while it.is_valid() {
        if it.key().ts() == ts {
            return Some(it.value().to_vec());
        }
        it.next().unwrap();
    }
    None
}

#[test]
fn memtable_gives_back_the_latest_value() {
    let mut m = MemTable::create(9);
    assert_eq!(m.id(), 9);
    assert!(m.is_empty());
    m.put(b"k", b"1");
    m.put(b"k", b"2");
    assert_eq!(m.get(b"k"), Some(b"2".to_vec()));
    assert_eq!(m.get(b"l"), None);
    assert!(!m.is_empty());
    // both writes count
    assert_eq!(m.approximate_size(), 4);
}

#[test]
fn memtable_scans_ranges() {
    let m = five();
    assert_eq!(keys(&m, Bound::Unbounded, Bound::Unbounded), ["a", "b", "c", "d", "e"]);
    assert_eq!(keys(&m, Bound::Included(b"b"), Bound::Excluded(b"d")), ["b", "c"]);
    assert_eq!(keys(&m, Bound::Excluded(b"b"), Bound::Included(b"d")), ["c", "d"]);
    assert_eq!(keys(&m, Bound::Included(b"x"), Bound::Unbounded), Vec::<String>::new());
    assert_eq!(keys(&m, Bound::Included(b"d"), Bound::Included(b"b")), Vec::<String>::new());
}

#[test]
fn memtable_orders_versions() {
    let mut m = MemTable::create(0);
    m.put_versioned(KeySlice::from_slice_with_ts(b"k", 1), b"old");
    m.put_versioned(KeySlice::from_slice_with_ts(b"k", 2), b"new");
    let it = m.scan(&Bound::Unbounded, &Bound::Unbounded);
    assert_eq!(it.key().ts(), 2);
    assert_eq!(it.value(), b"new");
}

#[test]
fn memtable_is_flushed_in_order() {
    let m = five();
    assert!(m.is_flushable());
    let mut b = SsTableBuilder::new(4096);
    m.flush(&mut b);
    let t = b.build(1);
    assert_eq!(t.first_key().key_ref(), b"a");
    assert_eq!(t.last_key().key_ref(), b"e");
    assert!(t.is_sound());
}

#[test]
fn entries_that_no_block_can_hold_are_told() {
    let mut m = MemTable::create(0);
    m.put(b"", b"v");
    assert!(!m.is_flushable());
    let mut m = MemTable::create(0);
    m.put(b"k", &vec![0; 0x1_0000]);
    assert!(!m.is_flushable());
    let mut m = MemTable::create(0);
    m.put(b"k", &vec![0; 0xffff]);
    assert!(m.is_flushable());
    assert!(is_storable(&[1; 0xffff], &[]));
    assert!(!is_storable(&[1; 0x1_0000], &[]));
    assert!(!is_storable(&[], &[1]));
    assert!(!is_storable(&[1], &[0; 0x1_0000]));
}

#[test]
fn log_bytes_are_laid_out() {
    let mut w = Wal::create();
    w.put(KeySlice::from_slice(b"a"), b"1");
    assert_eq!(
        w.sync(),
        vec![0, 0, 0, 14, 0, 1, 97, 0, 0, 0, 0, 0, 0, 0, 0, 0, 1, 49, 247, 31, 177, 94]
    );
    assert_eq!(w.sync(), Vec::<u8>::new());
    w.put_batch(&[
        (KeySlice::from_slice_with_ts(b"k", 7), b"xy"),
        (KeySlice::from_slice_with_ts(b"l", 8), b""),
    ]);
    assert_eq!(
        w.sync(),
        vec![
            0, 0, 0, 28, 0, 1, 107, 0, 0, 0, 0, 0, 0, 0, 7, 0, 2, 120, 121, 0, 1, 108, 0, 0, 0, 0,
            0, 0, 0, 8, 0, 0, 38, 151, 23, 127
        ]
    );
}

#[test]
fn a_log_is_recovered() {
    let mut m = MemTable::create_with_wal(4);
    m.put(b"a", b"1");
    m.put(b"b", b"2");
    m.put(b"a", b"3");
    let log = m.sync_wal();
    let again = MemTable::recover_from_wal(4, &log).unwrap();
    assert_eq!(again.id(), 4);
    assert_eq!(again.get(b"a"), Some(b"3".to_vec()));
    assert_eq!(again.get(b"b"), Some(b"2".to_vec()));
    assert_eq!(again.get(b"c"), None);
}

#[test]
fn batches_and_single_records_mix() {
    let mut log = single(b"old", 3, b"x");
    let mut w = Wal::create();
    w.put(KeySlice::from_slice_with_ts(b"new", 4), b"y");
    log.extend_from_slice(&w.sync());
    assert_eq!(version(recover(&log).unwrap(), "old", 3), Some(b"x".to_vec()));
    assert_eq!(version(recover(&log).unwrap(), "new", 4), Some(b"y".to_vec()));
    assert_eq!(version(recover(&log).unwrap(), "new", 0), None);
}

#[test]
fn a_torn_end_is_left_out() {
    let mut log = single(b"a", 0, b"1");
    let second = single(b"b", 0, b"2");
    log.extend_from_slice(&second[0..second.len() - 1]);
    assert_eq!(version(recover(&log).unwrap(), "a", 0), Some(b"1".to_vec()));
    assert_eq!(version(recover(&log).unwrap(), "b", 0), None);
    assert!(recover(&[]).is_ok());
}

#[test]
fn a_wrong_checksum_is_an_error() {
    let mut log = single(b"a", 0, b"1");
    let n = log.len();
    let stored = u32::from_be_bytes([log[n - 4], log[n - 3], log[n - 2], log[n - 1]]);
    log[n - 1] ^= 1;
    let r = recover(&log);
    assert_eq!(
        r.err(),
        Some(WalError::ChecksumMismatch { stored: stored ^ 1, computed: stored })
    );
}

#[test]
fn damaged_batches_are_errors() {
    assert_eq!(recover(&batch(&[0])).err(), Some(WalError::MissingKeyLen));
    assert_eq!(recover(&batch(&[0, 2, 97])).err(), Some(WalError::MissingKey));
    assert_eq!(recover(&batch(&[0, 1, 97, 0])).err(), Some(WalError::MissingTs));
    let mut body = vec![0, 1, 97, 0, 0, 0, 0, 0, 0, 0, 0, 0];
    assert_eq!(recover(&batch(&body)).err(), Some(WalError::MissingValueLen));
    body.push(1);
    assert_eq!(recover(&batch(&body)).err(), Some(WalError::MissingValue));
    body.push(49);
    assert!(recover(&batch(&body)).is_ok());
}
