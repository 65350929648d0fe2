//! Tables: building, opening, searching, and tests for damaged tables.
use mini_lsm::error::LsmError;
use mini_lsm::hashing::key_hash;
use mini_lsm::iterators::StorageIterator;
use mini_lsm::iterators::concat_iterator::SstConcatIterator;
use mini_lsm::key::{KeySlice, KeyVec};
use mini_lsm::table::bloom::Bloom;
use mini_lsm::table::{BlockMeta, FileObject, SsTable, SsTableBuilder, SsTableIterator};
use std::sync::Arc;

fn table(id: usize, from: usize, to: usize) -> SsTable {
    let mut b = SsTableBuilder::new(64);
    for i in from..to {
        let key = format!("key{:03}", i);
        let value = format!("value{}", i);
        b.add(KeySlice::from_slice(key.as_bytes()), value.as_bytes());
    }
    b.build(id)
}

fn image(t: &SsTable) -> Vec<u8> {
    t.file.data.clone().unwrap()
}

fn keys<I: StorageIterator>(mut it: I, key_of: fn(&I) -> Vec<u8>) -> Vec<String> {
    let mut all = Vec::new();
    while it.is_valid() {
        all.push(String::from_utf8(key_of(&it)).unwrap());
        it.next().unwrap();
    }
    all
}

#[test]
fn table_bytes_are_laid_out() {
    let mut b = SsTableBuilder::new(4096);
    assert!(b.is_empty());
    b.add(KeySlice::from_slice(b"ab"), b"1");
    b.add(KeySlice::from_slice_with_ts(b"ac", 5), b"22");
    assert!(!b.is_empty());
    assert_eq!(b.estimated_size(), 0);
    let t = b.build(3);
    let s = image(&t);
    // the block, its checksum, its metadata
    assert_eq!(s[0..6], [0, 0, 2, 0, 97, 98]);
    assert_eq!(s[46..50], 0x49e8_2a05u32.to_le_bytes());
    assert_eq!(
        s[50..66],
        [0, 0, 0, 0, 0, 0, 0, 0, 2, 0, 97, 98, 2, 0, 97, 99]
    );
    // where the metadata begins, and where the bloom filter begins
    assert_eq!(s[66..70], [50, 0, 0, 0]);
    assert_eq!(s[s.len() - 4..], [70, 0, 0, 0]);
    assert_eq!(t.sst_id(), 3);
    assert_eq!(t.num_of_blocks(), 1);
    assert_eq!(t.table_size(), s.len() as u64);
    assert_eq!(t.first_key().key_ref(), b"ab");
    assert_eq!(t.last_key().ts(), 5);
    assert_eq!(t.max_ts(), 5);
    assert!(t.is_sound());
}

#[test]
fn the_estimated_size_counts_finished_blocks() {
    let mut b = SsTableBuilder::new(64);
    let value = [1; 20];
    // two entries of 36 and 35 bytes do not fit into one block
    b.add(KeySlice::from_slice(b"k1"), &value);
    assert_eq!(b.estimated_size(), 0);
    b.add(KeySlice::from_slice(b"k2"), &value);
    // the entry, its offset twice, the number of offsets twice, the checksum
    assert_eq!(b.estimated_size(), 36 + 4 + 4 + 4);
    b.add(KeySlice::from_slice(b"k3"), b"");
    assert_eq!(b.estimated_size(), 48);
    b.add(KeySlice::from_slice(b"k4"), &value);
    assert_eq!(b.estimated_size(), 48 + 36 + 15 + 8 + 4 + 4);
}

#[test]
fn a_table_knows_its_largest_timestamp() {
    let mut b = SsTableBuilder::new(64);
    b.add(KeySlice::from_slice_with_ts(b"a", 7), b"1");
    b.add(KeySlice::from_slice_with_ts(b"a", 3), b"2");
    for i in 0..10 {
        b.add(KeySlice::from_slice_with_ts(format!("b{}", i).as_bytes(), i), b"some value");
    }
    let t = b.build(1);
    assert!(t.num_of_blocks() > 1);
    assert_eq!(t.max_ts(), 9);
    let again = SsTable::open(1, FileObject::open(image(&t))).unwrap();
    assert_eq!(again.max_ts(), 9);
    // a block that cannot be read leaves the timestamps unknown
    let mut damaged = image(&t);
    let end = again.block_meta[1].offset - 4;
    damaged[end - 2] = 0xff;
    damaged[end - 1] = 0xff;
    let damaged = SsTable::open(1, FileObject::open(damaged)).unwrap();
    assert!(!damaged.is_readable());
    assert_eq!(damaged.max_ts(), 0);
}

#[test]
fn a_table_without_entries_holds_nothing() {
    let t = SsTableBuilder::new(64).build(4);
    assert_eq!(t.num_of_blocks(), 0);
    assert_eq!((t.first_key().key_ref().len(), t.last_key().key_ref().len()), (0, 0));
    assert_eq!(t.max_ts(), 0);
    assert!(t.is_sound());
    assert_eq!(t.get(KeySlice::from_slice(b"")).unwrap().map(|p| p.1), None);
    assert_eq!(t.get(KeySlice::from_slice(b"a")).unwrap().map(|p| p.1), None);
    let again = SsTable::open(4, FileObject::open(image(&t))).unwrap();
    assert!(again.is_sound());
    let again = Arc::new(again);
    let mut it = SsTableIterator::create_and_seek_to_first(again.clone()).unwrap();
    assert!(!it.is_valid());
    it.seek_to_key(KeySlice::from_slice(b"a")).unwrap();
    assert!(!it.is_valid());
    let it = SsTableIterator::create_and_seek_to_key(again, KeySlice::from_slice(b"")).unwrap();
    assert!(!it.is_valid());
}

#[test]
fn built_table_is_opened_again() {
    let t = table(7, 0, 30);
    assert!(t.num_of_blocks() > 1);
    let file = FileObject::open(image(&t));
    assert!(SsTable::is_openable(&file));
    let again = SsTable::open(7, file).unwrap();
    assert!(again.is_sound());
    assert!(again.is_storable());
    assert_eq!(again.num_of_blocks(), t.num_of_blocks());
    assert_eq!(again.block_meta_offset, t.block_meta_offset);
    assert_eq!(again.first_key().key_ref(), b"key000");
    assert_eq!(again.last_key().key_ref(), b"key029");
    for i in 0..30 {
        let key = format!("key{:03}", i);
        let found = again.get(KeySlice::from_slice(key.as_bytes())).unwrap().unwrap();
        assert_eq!(found.0.key_ref(), key.as_bytes());
        assert_eq!(found.1, format!("value{}", i).into_bytes());
    }
    assert!(again.get(KeySlice::from_slice(b"key0005")).unwrap().is_none());
    assert!(again.get(KeySlice::from_slice(b"zzz")).unwrap().is_none());
}

#[test]
fn opening_loses_the_timestamps_of_metadata() {
    let mut b = SsTableBuilder::new(4096);
    b.add(KeySlice::from_slice_with_ts(b"k", 4), b"v");
    let t = b.build(1);
    assert_eq!(t.first_key().ts(), 4);
    let again = SsTable::open(1, FileObject::open(image(&t))).unwrap();
    assert_eq!(again.first_key().ts(), 0);
    assert!(!again.is_sound());
    assert!(again.is_readable());
}

#[test]
fn table_iterator_walks_all_blocks() {
    let t = Arc::new(table(1, 0, 20));
    let it = SsTableIterator::create_and_seek_to_first(t.clone()).unwrap();
    let all = keys(it, |i| i.key().key_ref().to_vec());
    assert_eq!(all.len(), 20);
    assert_eq!(all[0], "key000");
    assert_eq!(all[19], "key019");
    let it = SsTableIterator::create_and_seek_to_key(t.clone(), KeySlice::from_slice(b"key0135"));
    assert_eq!(it.unwrap().key().key_ref(), b"key014");
    let mut it =
        SsTableIterator::create_and_seek_to_key(t.clone(), KeySlice::from_slice(b"x")).unwrap();
    assert!(!it.is_valid());
    it.seek_to_first().unwrap();
    assert_eq!(it.value(), b"value0");
    it.seek_to_key(KeySlice::from_slice(b"key019")).unwrap();
    assert_eq!(it.value(), b"value19");
}

#[test]
fn seek_between_blocks_goes_to_the_next_block() {
    let t = Arc::new(table(1, 0, 20));
    let first_of_second = t.block_meta[1].first_key.key_ref().to_vec();
    let mut between = t.block_meta[0].last_key.key_ref().to_vec();
    between.push(b'!');
    let it = SsTableIterator::create_and_seek_to_key(t, KeySlice::from_slice(&between)).unwrap();
    assert_eq!(it.key().key_ref(), &first_of_second[..]);
}

#[test]
fn blocks_are_found_and_read() {
    let t = table(1, 0, 20);
    for i in 0..t.num_of_blocks() {
        let meta = &t.block_meta[i];
        assert_eq!(t.find_block_idx(meta.first_key.as_key_slice()), i);
        assert_eq!(t.find_block_idx(meta.last_key.as_key_slice()), i);
        let block = t.read_block(i).unwrap();
        assert_eq!(block.encode(), t.read_block_cached(i).unwrap().encode());
    }
    assert_eq!(t.find_block_idx(KeySlice::from_slice(b"a")), 0);
}

#[test]
fn tables_in_order_are_walked_one_after_the_other() {
    let tables = vec![Arc::new(table(1, 0, 5)), Arc::new(table(2, 10, 15))];
    let it = SstConcatIterator::create_and_seek_to_first(tables.clone()).unwrap();
    assert_eq!(it.num_active_iterators(), 1);
    let all = keys(it, |i| i.key().key_ref().to_vec());
    assert_eq!(all.len(), 10);
    assert_eq!(all[5], "key010");
    let it = SstConcatIterator::create_and_seek_to_key(
        tables.clone(),
        KeySlice::from_slice(b"key007"),
    )
    .unwrap();
    assert_eq!(it.key().key_ref(), b"key010");
    let mut it =
        SstConcatIterator::create_and_seek_to_key(tables, KeySlice::from_slice(b"key9")).unwrap();
    assert!(!it.is_valid());
    it.next().unwrap();
    assert!(!it.is_valid());
}

#[test]
fn metadata_is_read_back() {
    let metas = vec![
        BlockMeta {
            offset: 258,
            first_key: KeyVec::from_vec(b"a".to_vec()),
            last_key: KeyVec::from_vec_with_ts(b"bc".to_vec(), 8),
        },
    ];
    let mut buf = vec![9];
    BlockMeta::encode_block_meta(&metas, &mut buf);
    assert_eq!(buf, vec![9, 2, 1, 0, 0, 0, 0, 0, 0, 1, 0, 97, 2, 0, 98, 99]);
    assert!(BlockMeta::is_decodable(&buf[1..]));
    assert!(!BlockMeta::is_decodable(&buf[1..15]));
    let again = BlockMeta::decode_block_meta(&buf[1..]);
    assert_eq!(again.len(), 1);
    assert_eq!(again[0].offset, 258);
    assert_eq!(again[0].first_key.key_ref(), b"a");
    assert_eq!(again[0].last_key.key_ref(), b"bc");
    assert_eq!(again[0].last_key.ts(), 0);
}

#[test]
fn file_reads_stop_at_the_end() {
    let f = FileObject::create(vec![1, 2, 3, 4]);
    assert_eq!(f.size(), 4);
    assert_eq!(f.read(1, 2).unwrap(), vec![2, 3]);
    assert_eq!(f.read(3, 2), Err(LsmError::ReadOutOfRange));
    assert_eq!(f.read(u64::MAX, 1), Err(LsmError::ReadOutOfRange));
}

#[test]
fn a_table_of_which_little_is_known() {
    let first = KeyVec::from_vec(b"a".to_vec());
    let last = KeyVec::from_vec(b"z".to_vec());
    let t = SsTable::create_meta_only(5, 99, first, last);
    assert_eq!(t.table_size(), 99);
    assert_eq!(t.num_of_blocks(), 0);
    assert!(!t.is_readable());
    assert!(!t.is_sound());
}

#[test]
fn fingerprints_are_those_of_farmhash() {
    assert_eq!(key_hash(b"hello world"), Some(430397466));
    // the sum of the length and the first word would exceed 32 bits
    assert_eq!(key_hash(&[0xff; 8]), None);
}

#[test]
fn bloom_filter_never_rules_out_a_key_that_was_added() {
    let mut hashes = Vec::new();
    for i in 0..200u32 {
        hashes.push(key_hash(format!("k{}", i).as_bytes()).unwrap());
    }
    let bits = Bloom::bloom_bits_per_key(hashes.len());
    assert_eq!(bits, 10);
    assert_eq!(Bloom::bloom_bits_per_key(0), 0);
    let bloom = Bloom::build_from_key_hashes(&hashes, bits);
    for h in &hashes {
        assert!(bloom.may_contain(*h));
    }
    let mut buf = Vec::new();
    bloom.encode(&mut buf);
    let again = Bloom::decode(&buf).unwrap();
    assert_eq!(again.filter, bloom.filter);
    assert_eq!(again.k, bloom.k);
    let mut ruled_out = 0;
    for i in 1000..1200u32 {
        if !again.may_contain(key_hash(format!("k{}", i).as_bytes()).unwrap()) {
            ruled_out += 1;
        }
    }
    assert!(ruled_out > 150);
    assert!(matches!(Bloom::decode(&[]), Err(LsmError::MissingBloom)));
}

#[test]
fn a_bloom_filter_has_the_bits_of_its_probes_and_no_others() {
    // probes one bit apart, from bit 0 of 64 on
    let bloom = Bloom::build_from_key_hashes(&vec![0x2_0000], 10);
    assert_eq!(bloom.k, 6);
    assert_eq!(bloom.filter, vec![0b0011_1111, 0, 0, 0, 0, 0, 0, 0]);
    // probes that all fall on bit 9
    let bloom = Bloom::build_from_key_hashes(&vec![9], 10);
    assert_eq!(bloom.filter, vec![0, 0b0000_0010, 0, 0, 0, 0, 0, 0]);
    assert!(bloom.may_contain(9));
    assert!(!bloom.may_contain(10));
    let none = Bloom::build_from_key_hashes(&Vec::new(), 0);
    assert_eq!((none.k, none.filter), (1, vec![0; 8]));
}

#[test]
fn a_table_without_bloom_filter_is_refused() {
    // no blocks, no metadata, no filter
    let s = vec![0, 0, 0, 0, 4, 0, 0, 0];
    let file = FileObject::open(s);
    assert!(SsTable::is_openable(&file));
    assert!(matches!(SsTable::open(1, file), Err(LsmError::MissingBloom)));
}

#[test]
fn damaged_tables_are_told() {
    let t = table(1, 0, 8);
    let good = image(&t);
    assert!(!SsTable::is_openable(&FileObject::open(vec![1, 2])));
    let mut s = good.clone();
    let n = s.len();
    s[n - 1] = 0xff;
    assert!(!SsTable::is_openable(&FileObject::open(s)));
    // a block that announces too many offsets
    let mut s = good.clone();
    let end = t.block_meta[1].offset;
    s[end - 5] = 0xff;
    let opened = SsTable::open(1, FileObject::open(s)).unwrap();
    assert!(!opened.is_readable());
    assert!(!opened.is_sound());
    // a key that is not the one the metadata tells
    let mut s = good.clone();
    s[4] = b'x';
    let opened = SsTable::open(1, FileObject::open(s)).unwrap();
    assert!(opened.is_readable());
    assert!(!opened.is_sound());
}
