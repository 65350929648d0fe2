//! Merging iterators and iterators over snapshots.
use mini_lsm::bound::Bound;
use mini_lsm::error::LsmError;
use mini_lsm::iterators::StorageIterator;
use mini_lsm::iterators::merge_iterator::MergeIterator;
use mini_lsm::iterators::two_merge_iterator::TwoMergeIterator;
use mini_lsm::key::{KeySlice, bytes_equal, bytes_less};
use mini_lsm::lsm_iterator::FusedIterator;
use mini_lsm::mem_table::{MemTable, MemTableIterator};

fn source(pairs: &[(&str, &str)]) -> MemTableIterator {
    let mut m = MemTable::create(0);
    for (k, v) in pairs {
        m.put(k.as_bytes(), v.as_bytes());
    }
    m.scan(&Bound::Unbounded, &Bound::Unbounded)
}

fn pair(key: KeySlice<'_>, value: &[u8]) -> (String, String) {
    (
        String::from_utf8(key.key_ref().to_vec()).unwrap(),
        String::from_utf8(value.to_vec()).unwrap(),
    )
}

fn owned(pairs: &[(&str, &str)]) -> Vec<(String, String)> {
    pairs.iter().map(|(k, v)| (k.to_string(), v.to_string())).collect()
}

#[test]
fn merge_takes_the_first_of_equal_keys() {
    let a = source(&[("a", "1"), ("c", "1")]);
    let b = source(&[("a", "2"), ("b", "2"), ("d", "2")]);
    let c = source(&[("b", "3"), ("d", "3"), ("e", "3")]);
    let mut it = MergeIterator::create(vec![Box::new(a), Box::new(b), Box::new(c)]);
    let mut all = Vec::new();
    while it.is_valid() {
        all.push(pair(it.key(), it.value()));
        it.next().unwrap();
    }
    assert_eq!(
        all,
        owned(&[("a", "1"), ("b", "2"), ("c", "1"), ("d", "2"), ("e", "3")])
    );
}

#[test]
fn merge_of_nothing_is_invalid() {
    let it: MergeIterator<MemTableIterator> = MergeIterator::create(Vec::new());
    assert!(!it.is_valid());
    let it = MergeIterator::create(vec![Box::new(source(&[])), Box::new(source(&[]))]);
    assert!(!it.is_valid());
}

#[test]
fn a_merge_counts_as_one_iterator() {
    let it = MergeIterator::create(vec![
        Box::new(source(&[("a", "1")])),
        Box::new(source(&[("b", "1")])),
    ]);
    assert_eq!(it.num_active_iterators(), 1);
    let mut it = FusedIterator::new(it);
    assert_eq!(it.num_active_iterators(), 1);
    it.has_errored = true;
    assert_eq!(it.num_active_iterators(), 0);
}

#[test]
fn two_merge_takes_the_first_of_equal_keys() {
    let a = source(&[("a", "1"), ("b", "1"), ("c", "1")]);
    let b = source(&[("b", "2"), ("c", "2"), ("d", "2")]);
    let mut it = TwoMergeIterator::create(a, b).unwrap();
    let mut all = Vec::new();
    while it.is_valid() {
        all.push(pair(it.key(), it.value()));
        it.next().unwrap();
    }
    assert_eq!(all, owned(&[("a", "1"), ("b", "1"), ("c", "1"), ("d", "2")]));
}

#[test]
fn two_merge_with_an_empty_side() {
    let mut it = TwoMergeIterator::create(source(&[]), source(&[("x", "2")])).unwrap();
    assert_eq!(it.key().key_ref(), b"x");
    it.next().unwrap();
    assert!(!it.is_valid());
    let it = TwoMergeIterator::create(source(&[("x", "1")]), source(&[])).unwrap();
    assert_eq!(it.value(), b"1");
    assert_eq!(it.num_active_iterators(), 1);
}

#[test]
fn a_fused_iterator_stays_failed() {
    let mut it = FusedIterator::new(source(&[("a", "1"), ("b", "2")]));
    assert!(it.is_valid());
    assert_eq!(it.next(), Ok(()));
    it.has_errored = true;
    assert!(!it.is_valid());
    assert_eq!(it.next(), Err(LsmError::IteratorFailed));
    assert_eq!(it.next(), Err(LsmError::IteratorFailed));
}

#[test]
fn a_fused_iterator_stays_at_the_end() {
    let mut it = FusedIterator::new(source(&[("a", "1")]));
    it.next().unwrap();
    assert!(!it.is_valid());
    it.next().unwrap();
    assert!(!it.is_valid());
}

#[test]
fn byte_strings_compare() {
    assert!(bytes_less(b"", b"a"));
    assert!(bytes_less(b"a", b"ab"));
    assert!(bytes_less(b"ab", b"b"));
    assert!(!bytes_less(b"b", b"ab"));
    assert!(!bytes_less(b"a", b"a"));
    assert!(bytes_equal(b"ab", b"ab"));
    assert!(!bytes_equal(b"ab", b"abc"));
}
