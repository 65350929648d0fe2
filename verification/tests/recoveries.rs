//! Replaying the manifest and reading the logs.
use mini_lsm::compact::{
    CompactionOptions, CompactionTask, SimpleLeveledCompactionOptions, SimpleLeveledCompactionTask,
    SizeRatios,
};
use mini_lsm::error::LsmError;
use mini_lsm::key::KeySlice;
use mini_lsm::lsm_storage::recovery::Recovery;
use mini_lsm::lsm_storage::{LsmStorageInner, LsmStorageOptions};
use mini_lsm::manifest::ManifestRecord;
use mini_lsm::mem_table::MemTable;
use mini_lsm::table::{FileObject, SsTable, SsTableBuilder};
use mini_lsm::wal::WalError;
use std::collections::HashMap;
use std::sync::Arc;

fn options(enable_wal: bool) -> LsmStorageOptions {
    let mut options = LsmStorageOptions::default_for_week2_test(CompactionOptions::Simple(
        SimpleLeveledCompactionOptions {
            size_ratio_percent: 200,
            level0_file_num_compaction_trigger: 2,
            max_levels: 2,
        },
    ));
    options.enable_wal = enable_wal;
    options
}

fn table(id: usize, key: &str) -> (usize, Arc<SsTable>) {
    let mut b = SsTableBuilder::new(64);
    b.add(KeySlice::from_slice(key.as_bytes()), b"v");
    (id, Arc::new(b.build(id)))
}

fn log(key: &str, value: &str) -> Vec<u8> {
    let mut m = MemTable::create_with_wal(0);
    m.put(key.as_bytes(), value.as_bytes());
    m.sync_wal()
}

fn l0_task(upper: Vec<usize>, lower: Vec<usize>) -> CompactionTask {
    CompactionTask::Simple(SimpleLeveledCompactionTask {
        upper_level: None,
        upper_level_sst_ids: upper,
        lower_level: 1,
        lower_level_sst_ids: lower,
        is_lower_level_bottom_level: false,
    })
}

#[test]
fn records_are_replayed() {
    let mut r = Recovery::new(options(false));
    for id in [2, 4, 6] {
        r.replay(ManifestRecord::Flush(id));
    }
    assert_eq!(r.state.l0_sstables, vec![6, 4, 2]);
    let record = ManifestRecord::Compaction(l0_task(vec![4, 2], vec![]), vec![9, 8]);
    assert!(r.is_replayable(&record));
    r.replay(record);
    assert_eq!(r.state.l0_sstables, vec![6]);
    assert_eq!(r.state.levels[0].1, vec![9, 8]);
    assert_eq!(r.max_sst_id, 9);
    assert_eq!(r.table_ids(), vec![6, 9, 8]);
}

#[test]
fn a_task_of_another_strategy_cannot_be_replayed() {
    let r = Recovery::new(options(false));
    let task = CompactionTask::ForceFullCompaction { l0_sstables: vec![], l1_sstables: vec![] };
    assert!(!r.is_replayable(&ManifestRecord::Compaction(task, vec![])));
    assert!(r.is_replayable(&ManifestRecord::Flush(1)));
}

#[test]
fn an_engine_is_opened_from_its_tables() {
    let mut r = Recovery::new(options(false));
    r.replay(ManifestRecord::Flush(2));
    r.replay(ManifestRecord::Flush(3));
    r.replay(ManifestRecord::Flush(4));
    r.replay(ManifestRecord::Compaction(l0_task(vec![3, 2], vec![]), vec![6, 5]));
    let tables: HashMap<usize, Arc<SsTable>> =
        [table(4, "m"), table(5, "a"), table(6, "z")].into_iter().collect();
    let (e, record) = LsmStorageInner::open(r, tables, &Vec::new(), &[]).unwrap();
    assert!(record.is_none());
    assert!(e.is_sound());
    // the level is put in order
    assert_eq!(e.state.levels[0].1, vec![5, 6]);
    assert_eq!(e.state.memtable.id(), 7);
    assert_eq!(e.next_sst_id, 8);
    for k in ["a", "m", "z"] {
        assert_eq!(e.get(k.as_bytes()).unwrap(), Some(b"v".to_vec()));
    }
}

#[test]
fn a_missing_table_is_an_error() {
    let mut r = Recovery::new(options(false));
    r.replay(ManifestRecord::Flush(2));
    r.replay(ManifestRecord::Compaction(l0_task(vec![2], vec![]), vec![5]));
    let e = LsmStorageInner::open(r, HashMap::new(), &Vec::new(), &[]);
    assert!(matches!(e, Err(LsmError::MissingTable)));
}

#[test]
fn memtables_are_recovered_from_their_logs() {
    let mut r = Recovery::new(options(true));
    r.replay(ManifestRecord::NewMemtable(1));
    r.replay(ManifestRecord::NewMemtable(2));
    r.replay(ManifestRecord::NewMemtable(3));
    assert_eq!(r.imm_ids(), vec![2, 1]);
    let logs = vec![log("k", "2"), log("k", "1")];
    let (e, record) = LsmStorageInner::open(r, HashMap::new(), &logs, &log("l", "3")).unwrap();
    assert!(record.is_none());
    assert_eq!(e.state.memtable.id(), 3);
    assert_eq!(e.next_sst_id, 4);
    assert_eq!(e.get(b"k").unwrap(), Some(b"2".to_vec()));
    assert_eq!(e.get(b"l").unwrap(), Some(b"3".to_vec()));
}

#[test]
fn a_fresh_engine_with_logs_tells_of_its_memtable() {
    let r = Recovery::new(options(true));
    let (e, record) = LsmStorageInner::open(r, HashMap::new(), &Vec::new(), &[]).unwrap();
    assert!(matches!(record, Some(ManifestRecord::NewMemtable(1))));
    assert_eq!(e.state.memtable.id(), 1);
    assert!(e.state.memtable.wal.is_some());
}

#[test]
fn a_damaged_log_is_an_error() {
    let mut r = Recovery::new(options(true));
    r.replay(ManifestRecord::NewMemtable(1));
    let body = [0u8];
    let mut bad = vec![0, 0, 0, 1, 0];
    bad.extend_from_slice(&crc32fast::hash(&body).to_be_bytes());
    let e = LsmStorageInner::open(r, HashMap::new(), &Vec::new(), &bad);
    assert!(matches!(e, Err(LsmError::BadLog(WalError::MissingKeyLen))));
}

#[test]
fn a_reopened_engine_has_the_layout_and_the_tables_that_it_had() {
    let mut options = options(false);
    options.block_size = 64;
    options.target_sst_size = 150;
    let mut e =
        LsmStorageInner::open(Recovery::new(options), HashMap::new(), &Vec::new(), &[]).unwrap().0;
    let mut records = Vec::new();
    let ratios = SizeRatios {
        ratio_below: vec![false; 2],
        amplified: false,
        ratio_exceeded: vec![],
        priorities: vec![],
    };
    for round in 0..4 {
        for i in 0..12 {
            let key = format!("key{:02}", (i * 5 + round) % 12);
            e.state.memtable.put(key.as_bytes(), format!("value of {}", round).as_bytes());
        }
        e.force_freeze_memtable();
        records.push(ManifestRecord::Flush(e.force_flush_next_imm_memtable().unwrap()));
        if let Some(plan) = e.trigger_compaction(&ratios, 0).unwrap() {
            let output = plan.new_ssts.iter().map(|t| t.sst_id()).collect();
            records.push(ManifestRecord::Compaction(plan.task.clone(), output));
            e.finish_compaction(plan).unwrap();
        }
    }
    assert_eq!(records.len(), 6);
    assert!(e.state.levels[0].1.len() > 1);
    let mut again = Recovery::new(options_like(&e));
    for record in records {
        assert!(again.is_replayable(&record));
        again.replay(record);
    }
    let mut tables = HashMap::new();
    for id in again.table_ids() {
        let image = e.state.sstables[&id].file.data.clone().unwrap();
        tables.insert(id, Arc::new(SsTable::open(id, FileObject::open(image)).unwrap()));
    }
    let (again, _) = LsmStorageInner::open(again, tables, &Vec::new(), &[]).unwrap();
    assert!(again.is_sound());
    assert_eq!(again.state.l0_sstables, e.state.l0_sstables);
    assert_eq!(again.state.levels, e.state.levels);
    assert!(again.state.sstables.keys().all(|id| *id < again.next_sst_id));
    for i in 0..12 {
        let key = format!("key{:02}", i);
        assert_eq!(again.get(key.as_bytes()).unwrap(), Some(b"value of 3".to_vec()));
    }
}

#[test]
fn a_reopened_engine_tells_what_it_told_with_the_logs_of_flushed_memtables() {
    let opened =
        LsmStorageInner::open(Recovery::new(options(true)), HashMap::new(), &Vec::new(), &[]);
    let (mut e, record) = opened.unwrap();
    let mut records = vec![record.unwrap()];
    let mut logs = Vec::new();
    for round in 0..3 {
        e.put(b"a", format!("a{}", round).as_bytes());
        if round == 0 {
            e.put(b"b", b"b0");
            e.put(b"c", b"c0");
        }
        if round == 1 {
            e.delete(b"b");
        }
        logs.insert(0, e.sync());
        if round < 2 {
            records.push(ManifestRecord::NewMemtable(e.force_freeze_memtable()));
        }
    }
    // the earliest memtable is flushed, and its log stays
    records.push(ManifestRecord::Flush(e.force_flush_next_imm_memtable().unwrap()));
    let mut again = Recovery::new(options(true));
    for record in records {
        again.replay(record);
    }
    let mut tables = HashMap::new();
    for id in again.table_ids() {
        let image = e.state.sstables[&id].file.data.clone().unwrap();
        tables.insert(id, Arc::new(SsTable::open(id, FileObject::open(image)).unwrap()));
    }
    assert_eq!(again.imm_ids().len(), 2);
    let log = logs.remove(0);
    let (again, record) = LsmStorageInner::open(again, tables, &logs, &log).unwrap();
    assert!(record.is_none());
    assert!(again.is_sound());
    assert_eq!(e.state.imm_memtables.len(), 1);
    assert_eq!(again.state.imm_memtables.len(), 2);
    for key in [b"a", b"b", b"c", b"d"] {
        assert_eq!(again.get(key).unwrap(), e.get(key).unwrap());
    }
    assert_eq!(again.get(b"a").unwrap(), Some(b"a2".to_vec()));
    assert_eq!(again.get(b"b").unwrap(), None);
    assert_eq!(again.get(b"c").unwrap(), Some(b"c0".to_vec()));
}

fn options_like(e: &LsmStorageInner) -> LsmStorageOptions {
    let mut options = options(false);
    options.block_size = e.options.block_size;
    options.target_sst_size = e.options.target_sst_size;
    options
}
