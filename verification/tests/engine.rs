//! Reading, writing, freezing and flushing.
use mini_lsm::bound::Bound;
use mini_lsm::compact::{CompactionOptions, TieredCompactionOptions};
use mini_lsm::error::LsmError;
use mini_lsm::iterators::StorageIterator;
use mini_lsm::key::KeySlice;
use mini_lsm::lsm_storage::flush::CloseStep;
use mini_lsm::lsm_storage::recovery::Recovery;
use mini_lsm::lsm_storage::{
    CompactionFilter, LsmStorageInner, LsmStorageOptions, LsmStorageState, WriteBatchRecord,
    table_out_of_range,
};
use mini_lsm::table::SsTableBuilder;
use std::collections::HashMap;

fn engine(options: LsmStorageOptions) -> LsmStorageInner {
    LsmStorageInner::open(Recovery::new(options), HashMap::new(), &Vec::new(), &[]).unwrap().0
}

fn small() -> LsmStorageInner {
    let mut options = LsmStorageOptions::default_for_week1_test();
    options.block_size = 64;
    options.target_sst_size = 40;
    options.num_memtable_limit = 2;
    engine(options)
}

fn get(e: &LsmStorageInner, key: &str) -> Option<String> {
    e.get(key.as_bytes()).unwrap().map(|v| String::from_utf8(v).unwrap())
}

fn scan(e: &LsmStorageInner, lower: Bound<&[u8]>, upper: Bound<&[u8]>) -> Vec<(String, String)> {
    let mut it = e.scan(lower, upper).unwrap();
    let mut all = Vec::new();
    while it.is_valid() {
        all.push((
            String::from_utf8(it.key().to_vec()).unwrap(),
            String::from_utf8(it.value().to_vec()).unwrap(),
        ));
        it.next().unwrap();
    }
    all
}

fn pairs(of: &[(&str, &str)]) -> Vec<(String, String)> {
    of.iter().map(|(k, v)| (k.to_string(), v.to_string())).collect()
}

/// Values in tables, in an immutable memtable and in the current one.
fn layered() -> LsmStorageInner {
    let mut e = engine(LsmStorageOptions::default_for_week1_test());
    e.put(b"a", b"old");
    e.put(b"b", b"old");
    e.put(b"c", b"old");
    e.force_freeze_memtable();
    assert_eq!(e.force_flush_next_imm_memtable(), Some(3));
    e.put(b"b", b"mid");
    e.put(b"d", b"mid");
    e.force_freeze_memtable();
    e.put(b"c", b"new");
    e.delete(b"a");
    assert!(e.is_sound());
    e
}

#[test]
fn options_for_tests() {
    let o = LsmStorageOptions::default_for_week1_test();
    assert_eq!((o.block_size, o.target_sst_size, o.num_memtable_limit), (4096, 2 << 20, 50));
    assert!(!o.enable_wal && !o.serializable);
    let o = LsmStorageOptions::default_for_week1_day6_test();
    assert_eq!((o.block_size, o.target_sst_size, o.num_memtable_limit), (4096, 2 << 20, 2));
    let o = LsmStorageOptions::default_for_week2_test(CompactionOptions::NoCompaction);
    assert_eq!((o.block_size, o.target_sst_size, o.num_memtable_limit), (4096, 1 << 20, 2));
}

#[test]
fn a_new_engine_is_empty() {
    let e = small();
    assert_eq!(e.state.memtable.id(), 1);
    assert_eq!(e.next_sst_id, 2);
    assert_eq!(e.state.levels, vec![(1, vec![])]);
    assert_eq!(get(&e, "a"), None);
    assert!(scan(&e, Bound::Unbounded, Bound::Unbounded).is_empty());
    assert!(e.is_sound());
    assert_eq!(e.close_step(), CloseStep::Done);
}

#[test]
fn a_flushed_memtable_without_entries_does_not_bar_reads() {
    let mut e = small();
    // the pair is larger than a table may be, so the memtable is frozen before it is put in
    e.put(b"key", &[7; 50]);
    assert!(e.state.imm_memtables[0].is_empty());
    let id = e.force_flush_next_imm_memtable().unwrap();
    assert_eq!(e.state.sstables[&id].num_of_blocks(), 0);
    assert!(e.is_sound());
    assert_eq!(e.get(b"key").unwrap(), Some(vec![7; 50]));
    assert_eq!(e.get(b"").unwrap(), None);
    let mut it = e.scan(Bound::Unbounded, Bound::Unbounded).unwrap();
    assert_eq!(it.key(), b"key");
    it.next().unwrap();
    assert!(!it.is_valid());
    assert!(!e.scan(Bound::Included(b"l"), Bound::Unbounded).unwrap().is_valid());
}

#[test]
fn an_engine_is_closed_step_by_step() {
    let mut e = small();
    e.put(b"a", b"1");
    e.force_freeze_memtable();
    e.put(b"b", b"2");
    let mut steps = Vec::new();
    loop {
        let step = e.close_step();
        steps.push(step);
        match step {
            CloseStep::Freeze => {
                e.force_freeze_memtable();
            }
            CloseStep::Flush => {
                e.force_flush_next_imm_memtable();
            }
            CloseStep::Done => break,
        }
    }
    assert_eq!(steps, vec![CloseStep::Freeze, CloseStep::Flush, CloseStep::Flush, CloseStep::Done]);
    assert!(e.state.memtable.is_empty() && e.state.imm_memtables.is_empty());
    assert_eq!(get(&e, "a").as_deref(), Some("1"));
    assert_eq!(get(&e, "b").as_deref(), Some("2"));
}

#[test]
fn writes_are_read_back_from_every_layer() {
    let e = layered();
    assert_eq!(get(&e, "a"), None);
    assert_eq!(get(&e, "b").as_deref(), Some("mid"));
    assert_eq!(get(&e, "c").as_deref(), Some("new"));
    assert_eq!(get(&e, "d").as_deref(), Some("mid"));
    assert_eq!(get(&e, "e"), None);
}

#[test]
fn scans_agree_with_gets() {
    let e = layered();
    let all = scan(&e, Bound::Unbounded, Bound::Unbounded);
    assert_eq!(all, pairs(&[("b", "mid"), ("c", "new"), ("d", "mid")]));
    for (k, v) in &all {
        assert_eq!(get(&e, k).as_ref(), Some(v));
    }
}

#[test]
fn scans_keep_to_their_bounds() {
    let e = layered();
    assert_eq!(
        scan(&e, Bound::Included(b"b"), Bound::Included(b"c")),
        pairs(&[("b", "mid"), ("c", "new")])
    );
    assert_eq!(scan(&e, Bound::Excluded(b"b"), Bound::Excluded(b"d")), pairs(&[("c", "new")]));
    assert_eq!(scan(&e, Bound::Included(b"x"), Bound::Unbounded), pairs(&[]));
}

#[test]
fn a_scan_excludes_its_lower_bound_in_levels_too() {
    let mut options = LsmStorageOptions::default_for_week2_test(CompactionOptions::Tiered(
        TieredCompactionOptions {
            num_tiers: 3,
            max_size_amplification_percent: 200,
            size_ratio: 1,
            min_merge_width: 2,
            max_merge_width: None,
        },
    ));
    options.block_size = 64;
    let mut e = engine(options);
    e.put(b"a", b"1");
    e.put(b"b", b"2");
    e.force_freeze_memtable();
    assert!(e.force_flush_next_imm_memtable().is_some());
    assert_eq!(e.state.levels.len(), 1);
    assert_eq!(scan(&e, Bound::Excluded(b"a"), Bound::Unbounded), pairs(&[("b", "2")]));
    assert_eq!(get(&e, "a").as_deref(), Some("1"));
}

#[test]
fn a_full_memtable_is_frozen_before_a_write() {
    let mut e = small();
    e.put(b"k1", &[b'x'; 20]);
    assert!(!e.needs_freeze(b"k2", &[b'x'; 15]));
    assert!(e.needs_freeze(b"k2", &[b'x'; 16]));
    assert_eq!(e.state.imm_memtables.len(), 0);
    e.put(b"k2", &[b'x'; 16]);
    assert_eq!(e.state.imm_memtables.len(), 1);
    assert_eq!(e.state.memtable.id(), 2);
    assert_eq!(e.state.imm_memtables[0].id(), 1);
    assert_eq!(get(&e, "k1").map(|v| v.len()), Some(20));
}

#[test]
fn freezing_keeps_what_is_read() {
    let mut e = layered();
    let before = scan(&e, Bound::Unbounded, Bound::Unbounded);
    let id = e.force_freeze_memtable();
    assert_eq!(id, 5);
    assert_eq!(e.state.memtable.id(), 5);
    assert!(e.state.memtable.is_empty());
    assert_eq!(scan(&e, Bound::Unbounded, Bound::Unbounded), before);
}

#[test]
fn flushing_keeps_what_is_read() {
    let mut e = layered();
    e.force_freeze_memtable();
    let before = scan(&e, Bound::Unbounded, Bound::Unbounded);
    while !e.state.imm_memtables.is_empty() {
        assert!(e.state.imm_memtables.last().unwrap().is_flushable());
        e.force_flush_next_imm_memtable();
        assert!(e.is_sound());
        assert_eq!(scan(&e, Bound::Unbounded, Bound::Unbounded), before);
    }
    // the latest table stands first
    assert_eq!(e.state.l0_sstables, vec![7, 6, 3]);
    assert_eq!(e.force_flush_next_imm_memtable(), None);
}

#[test]
fn a_flushed_table_has_blocks_of_the_block_size() {
    let flushed = |block_size: usize| {
        let mut options = LsmStorageOptions::default_for_week1_test();
        options.block_size = block_size;
        let mut e = engine(options);
        for key in [b"a", b"b", b"c"] {
            e.put(key, &[7; 20]);
        }
        e.force_freeze_memtable();
        let id = e.force_flush_next_imm_memtable().unwrap();
        e.state.sstables[&id].clone()
    };
    let t = flushed(64);
    let offsets: Vec<usize> = t.block_meta.iter().map(|m| m.offset).collect();
    assert_eq!(offsets, vec![0, 47, 94]);
    assert_eq!(t.block_meta_offset, 141);
    let mut b = SsTableBuilder::new(64);
    for key in [b"a", b"b", b"c"] {
        b.add(KeySlice::from_slice(key), &[7; 20]);
    }
    assert_eq!(b.estimated_size(), 94);
    assert_eq!(b.build(0).file.data, t.file.data);
    let t = flushed(70);
    let offsets: Vec<usize> = t.block_meta.iter().map(|m| m.offset).collect();
    assert_eq!(offsets, vec![0, 86]);
    assert_eq!(t.block_meta_offset, 133);
}

#[test]
fn a_flush_takes_at_most_two_steps() {
    let mut e = small();
    assert_eq!(e.flush_step(), CloseStep::Done);
    e.put(b"a", b"1");
    assert_eq!(e.flush_step(), CloseStep::Freeze);
    e.force_freeze_memtable();
    assert_eq!(e.flush_step(), CloseStep::Flush);
    e.put(b"b", b"2");
    assert_eq!(e.flush_step(), CloseStep::Freeze);
    e.force_freeze_memtable();
    e.force_flush_next_imm_memtable();
    assert_eq!(e.flush_step(), CloseStep::Flush);
    e.force_flush_next_imm_memtable();
    assert_eq!(e.flush_step(), CloseStep::Done);
    // a log does not change what a flush takes
    let mut options = LsmStorageOptions::default_for_week1_test();
    options.enable_wal = true;
    let mut e = engine(options);
    e.put(b"a", b"1");
    assert_eq!((e.flush_step(), e.close_step()), (CloseStep::Freeze, CloseStep::Done));
}

#[test]
fn nothing_is_to_be_done_for_a_new_transaction() {
    assert_eq!(small().new_txn(), Ok(()));
}

#[test]
fn flushes_wait_for_the_limit() {
    let mut e = small();
    e.put(b"a", b"1");
    assert!(!e.should_flush());
    assert_eq!(e.trigger_flush(), None);
    e.force_freeze_memtable();
    assert!(!e.should_flush());
    e.put(b"b", b"1");
    e.force_freeze_memtable();
    assert!(e.should_flush());
    assert_eq!(e.trigger_flush(), Some(4));
    assert!(!e.should_flush());
    assert_eq!(get(&e, "a").as_deref(), Some("1"));
}

#[test]
fn a_flush_for_a_memtable_that_is_gone_is_dropped() {
    let mut e = small();
    e.put(b"a", b"1");
    e.force_freeze_memtable();
    let (mem_id, table) = e.build_flush().unwrap();
    assert_eq!(mem_id, 1);
    assert!(!e.install_flush(77, table));
    assert_eq!(e.state.imm_memtables.len(), 1);
    assert!(e.state.l0_sstables.is_empty());
}

#[test]
fn a_batch_is_written_in_order() {
    let mut e = small();
    let batch = vec![
        WriteBatchRecord::Put(b"a".to_vec(), b"1".to_vec()),
        WriteBatchRecord::Put(b"b".to_vec(), b"2".to_vec()),
        WriteBatchRecord::Del(b"a".to_vec()),
        WriteBatchRecord::Put(b"b".to_vec(), b"3".to_vec()),
    ];
    e.write_batch(&batch);
    assert_eq!(get(&e, "a"), None);
    assert_eq!(get(&e, "b").as_deref(), Some("3"));
}

#[test]
fn versions_are_read_at_their_timestamp() {
    let mut e = engine(LsmStorageOptions::default_for_week1_test());
    e.state.memtable.put_versioned(KeySlice::from_slice_with_ts(b"k", 1), b"one");
    e.state.memtable.put_versioned(KeySlice::from_slice_with_ts(b"k", 5), b"five");
    e.state.memtable.put_versioned(KeySlice::from_slice_with_ts(b"k", 9), b"");
    assert_eq!(e.get_with_ts(b"k", 0).unwrap(), None);
    assert_eq!(e.get_with_ts(b"k", 3).unwrap(), Some(b"one".to_vec()));
    assert_eq!(e.get_with_ts(b"k", 5).unwrap(), Some(b"five".to_vec()));
    assert_eq!(e.get_with_ts(b"k", 10).unwrap(), None);
    let it = e.scan_with_ts(Bound::Unbounded, Bound::Unbounded, 4).unwrap();
    assert_eq!(it.value(), b"one");
}

#[test]
fn a_log_is_kept_if_it_is_asked_for() {
    let mut options = LsmStorageOptions::default_for_week1_test();
    options.enable_wal = true;
    let mut e = engine(options);
    assert_eq!(e.sync(), Vec::<u8>::new());
    e.put(b"a", b"1");
    assert_eq!(e.sync().len(), 22);
    let mut e = small();
    e.put(b"a", b"1");
    assert_eq!(e.sync(), Vec::<u8>::new());
}

#[test]
fn compaction_filters_are_kept() {
    let mut e = small();
    e.add_compaction_filter(CompactionFilter::Prefix(b"p".to_vec()));
    assert_eq!(e.compaction_filters.len(), 1);
}

#[test]
fn tables_outside_a_range_are_told() {
    let out = |l: Bound<&[u8]>, u: Bound<&[u8]>| table_out_of_range(&l, &u, b"d", b"m");
    assert!(out(Bound::Unbounded, Bound::Included(b"c")));
    assert!(!out(Bound::Unbounded, Bound::Included(b"d")));
    assert!(out(Bound::Unbounded, Bound::Excluded(b"d")));
    assert!(out(Bound::Included(b"n"), Bound::Unbounded));
    assert!(!out(Bound::Included(b"m"), Bound::Unbounded));
    assert!(out(Bound::Excluded(b"m"), Bound::Unbounded));
    assert!(!out(Bound::Unbounded, Bound::Unbounded));
}

#[test]
fn missing_and_disordered_tables_are_told() {
    let mut e = layered();
    assert_eq!(e.verify_lsm_invariants(&e.state), Ok(()));
    e.state.l0_sstables.push(99);
    assert_eq!(e.verify_lsm_invariants(&e.state), Err(LsmError::MissingTable));
    assert!(!e.is_sound());
    e.state.l0_sstables.pop();
    e.put(b"a", b"again");
    e.force_freeze_memtable();
    e.force_flush_next_imm_memtable();
    // two tables that overlap in one level
    let ids = e.state.l0_sstables.clone();
    assert_eq!(ids.len(), 2);
    e.state.levels[0].1 = ids;
    assert_eq!(e.verify_lsm_invariants(&e.state), Err(LsmError::LevelDisorder));
    assert!(!e.is_sound());
}

#[test]
fn levels_begin_empty() {
    let options = LsmStorageOptions::default_for_week2_test(CompactionOptions::Simple(
        mini_lsm::compact::SimpleLeveledCompactionOptions {
            size_ratio_percent: 200,
            level0_file_num_compaction_trigger: 2,
            max_levels: 3,
        },
    ));
    let s = LsmStorageState::create(&options);
    assert_eq!(s.levels, vec![(1, vec![]), (2, vec![]), (3, vec![])]);
    assert_eq!(s.memtable.id(), 0);
}
