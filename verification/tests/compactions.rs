//! Compaction: what the controllers ask for, what comes of it, and that reads do not change.
use mini_lsm::bound::Bound;
use mini_lsm::compact::{
    CompactionController, CompactionOptions, CompactionTask, LeveledCompactionController,
    LeveledCompactionOptions, SimpleLeveledCompactionOptions, SizeRatios, TieredCompactionController,
    TieredCompactionOptions, TieredCompactionTask,
};
use mini_lsm::error::LsmError;
use mini_lsm::iterators::StorageIterator;
use mini_lsm::key::KeySlice;
use mini_lsm::lsm_storage::compaction::CompactionPlan;
use mini_lsm::lsm_storage::recovery::{Recovery, make_controller};
use mini_lsm::lsm_storage::{LsmStorageInner, LsmStorageOptions};
use mini_lsm::table::SsTableBuilder;
use std::collections::HashMap;
use std::sync::Arc;

fn engine(compaction_options: CompactionOptions) -> LsmStorageInner {
    let mut options = LsmStorageOptions::default_for_week2_test(compaction_options);
    options.block_size = 64;
    LsmStorageInner::open(Recovery::new(options), HashMap::new(), &Vec::new(), &[]).unwrap().0
}

fn simple() -> CompactionOptions {
    CompactionOptions::Simple(SimpleLeveledCompactionOptions {
        size_ratio_percent: 200,
        level0_file_num_compaction_trigger: 2,
        max_levels: 2,
    })
}

fn tiered() -> CompactionOptions {
    CompactionOptions::Tiered(TieredCompactionOptions {
        num_tiers: 3,
        max_size_amplification_percent: 200,
        size_ratio: 1,
        min_merge_width: 2,
        max_merge_width: None,
    })
}

fn leveled() -> CompactionOptions {
    CompactionOptions::Leveled(LeveledCompactionOptions {
        level_size_multiplier: 2,
        level0_file_num_compaction_trigger: 2,
        max_levels: 2,
        base_level_size_mb: 1,
    })
}

fn ratios(n: usize) -> SizeRatios {
    SizeRatios {
        ratio_below: vec![false; n],
        amplified: false,
        ratio_exceeded: vec![false; n],
        priorities: vec![0; n],
    }
}

fn flush(e: &mut LsmStorageInner, pairs: &[(&str, &str)]) {
    for (k, v) in pairs {
        e.put(k.as_bytes(), v.as_bytes());
    }
    e.force_freeze_memtable();
    while e.force_flush_next_imm_memtable().is_some() {}
}

fn all(e: &LsmStorageInner) -> Vec<(String, String)> {
    assert!(e.is_sound());
    let mut it = e.scan(Bound::Unbounded, Bound::Unbounded).unwrap();
    let mut all = Vec::new();
    while it.is_valid() {
        let key = String::from_utf8(it.key().to_vec()).unwrap();
        let value = String::from_utf8(it.value().to_vec()).unwrap();
        assert_eq!(e.get(key.as_bytes()).unwrap(), Some(value.clone().into_bytes()));
        all.push((key, value));
        it.next().unwrap();
    }
    all
}

fn run(e: &mut LsmStorageInner, ratios: &SizeRatios) -> Option<Vec<usize>> {
    assert!(e.compaction_controller.is_ready(&e.state, ratios));
    if let Some(task) = e.compaction_controller.generate_compaction_task(&e.state, ratios) {
        assert!(e.is_compactable(&task));
    }
    let plan = e.trigger_compaction(ratios, 0).unwrap()?;
    assert!(e.is_in_compact);
    assert!(e.compaction_controller.is_applicable(&e.state, &plan.task));
    let gone = e.finish_compaction(plan).unwrap();
    assert!(!e.is_in_compact);
    Some(gone)
}

fn table_with(id: usize, keys: &[&str]) -> Arc<mini_lsm::table::SsTable> {
    let mut b = SsTableBuilder::new(64);
    for k in keys {
        b.add(KeySlice::from_slice(k.as_bytes()), b"v");
    }
    Arc::new(b.build(id))
}

#[test]
fn controllers_follow_their_options() {
    assert!(make_controller(&simple()).flush_to_l0());
    assert!(make_controller(&leveled()).flush_to_l0());
    assert!(!make_controller(&tiered()).flush_to_l0());
    assert!(CompactionController::NoCompaction.flush_to_l0());
}

#[test]
fn simple_compaction_merges_l0_and_keeps_reads() {
    let mut e = engine(simple());
    flush(&mut e, &[("a", "1"), ("b", "1"), ("c", "1")]);
    assert_eq!(run(&mut e, &ratios(2)), None);
    flush(&mut e, &[("a", ""), ("b", "2"), ("d", "2")]);
    let before = all(&e);
    assert_eq!(before.len(), 3);
    let l0 = e.state.l0_sstables.clone();
    assert_eq!(run(&mut e, &ratios(2)), Some(l0));
    assert!(e.state.l0_sstables.is_empty());
    assert_eq!(e.state.levels[0].1.len(), 1);
    assert_eq!(all(&e), before);
}

#[test]
fn simple_compaction_moves_a_level_down() {
    let mut e = engine(simple());
    flush(&mut e, &[("a", "1"), ("b", "1")]);
    flush(&mut e, &[("a", ""), ("c", "2")]);
    assert!(run(&mut e, &ratios(2)).is_some());
    let before = all(&e);
    let mut r = ratios(2);
    r.ratio_below[0] = true;
    assert!(run(&mut e, &r).is_some());
    assert!(e.state.levels[0].1.is_empty());
    assert_eq!(e.state.levels[1].1.len(), 1);
    assert_eq!(all(&e), before);
    // the deletion of `a` is gone for good
    let id = e.state.levels[1].1[0];
    assert_eq!(e.state.sstables[&id].first_key().key_ref(), b"b");
}

#[test]
fn simple_controller_needs_its_levels() {
    let mut e = engine(simple());
    e.state.levels.clear();
    assert!(!e.compaction_controller.is_ready(&e.state, &ratios(2)));
    let e = engine(simple());
    assert!(!e.compaction_controller.is_ready(&e.state, &ratios(0)));
    assert!(e.compaction_controller.is_ready(&e.state, &ratios(1)));
}

#[test]
fn tiered_compaction_keeps_reads() {
    let mut e = engine(tiered());
    flush(&mut e, &[("a", "1"), ("b", "1")]);
    flush(&mut e, &[("b", "2"), ("c", "2")]);
    assert_eq!(run(&mut e, &ratios(2)), None);
    flush(&mut e, &[("a", ""), ("d", "3")]);
    let before = all(&e);
    let mut r = ratios(3);
    r.amplified = true;
    assert!(run(&mut e, &r).is_some());
    assert_eq!(e.state.levels.len(), 1);
    let tier = &e.state.levels[0];
    assert_eq!(tier.0, tier.1[0]);
    assert_eq!(all(&e), before);
}

#[test]
fn tiered_controller_merges_by_ratio() {
    let mut e = engine(tiered());
    for k in ["a", "b", "c"] {
        flush(&mut e, &[(k, "1")]);
    }
    let before = all(&e);
    let mut r = ratios(3);
    r.ratio_exceeded[2] = true;
    let last = e.state.levels[2].clone();
    assert!(run(&mut e, &r).is_some());
    assert_eq!(e.state.levels.len(), 2);
    assert_eq!(e.state.levels[1], last);
    assert_eq!(all(&e), before);
}

#[test]
fn tiered_controller_counts_tables() {
    let c = TieredCompactionController::new(TieredCompactionOptions {
        num_tiers: 2,
        max_size_amplification_percent: 1,
        size_ratio: 1,
        min_merge_width: 2,
        max_merge_width: Some(2),
    });
    let mut e = engine(tiered());
    assert_eq!(c.tier_sizes(&e.state), (0, 0));
    e.state.levels = vec![(1, vec![1]), (2, vec![2, 3]), (4, vec![4, 5, 6])];
    assert_eq!(c.tier_sizes(&e.state), (3, 3));
    let t = c.generate_compaction_task(&e.state, false, &[false; 3]).unwrap();
    assert_eq!(t.tiers, vec![(1, vec![1]), (2, vec![2, 3])]);
    assert!(!t.bottom_tier_included);
    let (layout, gone) = c.apply_compaction_result(&e.state, &t, &[9, 10]);
    assert_eq!(layout.levels, vec![(9, vec![9, 10]), (4, vec![4, 5, 6])]);
    assert_eq!(gone, vec![1, 2, 3]);
    let (layout, _) = c.apply_compaction_result(&e.state, &t, &[]);
    assert_eq!(layout.levels, vec![(4, vec![4, 5, 6])]);
}

#[test]
fn leveled_compaction_merges_l0_and_keeps_reads() {
    let mut e = engine(leveled());
    flush(&mut e, &[("a", "1"), ("b", "1"), ("c", "1")]);
    flush(&mut e, &[("b", "2"), ("d", "2")]);
    let before = all(&e);
    assert!(run(&mut e, &ratios(2)).is_some());
    // the bottom level alone has a target
    assert!(e.state.levels[0].1.is_empty());
    assert_eq!(e.state.levels[1].1.len(), 1);
    assert_eq!(all(&e), before);
    // tables that do not overlap stay, and the level is put in order
    flush(&mut e, &[("A", "3")]);
    flush(&mut e, &[("B", "3")]);
    let before = all(&e);
    let stays = e.state.levels[1].1[0];
    assert!(run(&mut e, &ratios(2)).is_some());
    assert_eq!(e.state.levels[1].1.len(), 2);
    assert_eq!(e.state.levels[1].1[1], stays);
    assert_eq!(all(&e), before);
}

#[test]
fn leveled_targets_shrink_upwards() {
    let c = LeveledCompactionController::new(LeveledCompactionOptions {
        level_size_multiplier: 2,
        level0_file_num_compaction_trigger: 2,
        max_levels: 4,
        base_level_size_mb: 1,
    });
    let mb: u64 = 1024 * 1024;
    let mut e = engine(leveled());
    e.state.levels = vec![(1, vec![]), (2, vec![]), (3, vec![]), (4, vec![1, 2])];
    assert!(c.is_measurable(&e.state));
    assert_eq!(c.compute_level_target_size(&e.state), vec![0, 0, 0, 1 << 20]);
    let t = table_with(1, &["a"]);
    let first = t.first_key().clone();
    let sized = |id: usize, size: u64| {
        Arc::new(mini_lsm::table::SsTable::create_meta_only(
            id,
            size,
            first.clone(),
            first.clone(),
        ))
    };
    e.state.sstables.insert(1, sized(1, 4 * mb));
    e.state.sstables.insert(2, sized(2, 1));
    assert_eq!(c.get_level_size(4, &e.state), (4 << 20) + 1);
    assert_eq!(c.get_level_size(0, &e.state), 0);
    assert_eq!(
        c.compute_level_target_size(&e.state),
        vec![(1 << 19) + 1, (1 << 20) + 1, (1 << 21) + 1, (1 << 22) + 1]
    );
    e.state.sstables.insert(2, sized(2, u64::MAX));
    assert!(!c.is_measurable(&e.state));
}

#[test]
fn leveled_controller_picks_the_oldest_table() {
    let c = LeveledCompactionController::new(LeveledCompactionOptions {
        level_size_multiplier: 2,
        level0_file_num_compaction_trigger: 2,
        max_levels: 2,
        base_level_size_mb: 0,
    });
    let mut e = engine(leveled());
    for (id, keys) in [(5, ["a", "c"]), (4, ["d", "f"]), (7, ["b", "d"]), (8, ["e", "g"])] {
        e.state.sstables.insert(id, table_with(id, &keys));
    }
    e.state.levels = vec![(1, vec![5, 4]), (2, vec![7, 8])];
    let targets = c.compute_level_target_size(&e.state);
    assert!(targets[0] > 0 && c.get_level_size(1, &e.state) > targets[0]);
    let t = c.generate_compaction_task(&e.state, &[3, 0]).unwrap();
    assert_eq!(t.upper_level, Some(1));
    assert_eq!(t.upper_level_sst_ids, vec![4]);
    assert_eq!(t.lower_level, 2);
    assert_eq!(t.lower_level_sst_ids, vec![7, 8]);
    assert!(t.is_lower_level_bottom_level);
    assert!(c.generate_compaction_task(&e.state, &[0, 0]).is_none());
    let (layout, gone) = c.apply_compaction_result(&e.state, &t, &[20, 21], false);
    assert_eq!(layout.levels, vec![(1, vec![5]), (2, vec![20, 21])]);
    assert_eq!(gone, vec![4, 7, 8]);
}

#[test]
fn full_compaction_keeps_reads() {
    let mut e = engine(CompactionOptions::NoCompaction);
    flush(&mut e, &[("a", "1"), ("b", "1")]);
    flush(&mut e, &[("a", ""), ("c", "2")]);
    let before = all(&e);
    let plan = e.force_full_compaction(0).unwrap();
    assert!(plan.task.compact_to_bottom_level());
    let gone = e.finish_full_compaction(plan);
    assert_eq!(gone.len(), 2);
    assert!(e.state.l0_sstables.is_empty());
    assert_eq!(e.state.levels.len(), 1);
    assert_eq!(e.state.levels[0].0, 1);
    assert_eq!(all(&e), before);
}

#[test]
fn compaction_keeps_what_readers_can_see() {
    let mut e = engine(CompactionOptions::NoCompaction);
    let mut b = SsTableBuilder::new(64);
    for (ts, v) in [(9, "nine"), (7, "seven"), (5, "five"), (3, "three")] {
        b.add(KeySlice::from_slice_with_ts(b"k", ts), v.as_bytes());
    }
    b.add(KeySlice::from_slice_with_ts(b"l", 2), b"");
    let t = Arc::new(b.build(40));
    assert!(t.is_sound());
    e.state.sstables.insert(40, t);
    e.state.l0_sstables.push(40);
    e.next_sst_id = 41;
    let plan = e.force_full_compaction(6).unwrap();
    e.finish_full_compaction(plan);
    assert!(e.is_sound());
    // versions above the watermark stay, and the latest one at or below it
    assert_eq!(e.get_with_ts(b"k", 9).unwrap(), Some(b"nine".to_vec()));
    assert_eq!(e.get_with_ts(b"k", 8).unwrap(), Some(b"seven".to_vec()));
    assert_eq!(e.get_with_ts(b"k", 6).unwrap(), Some(b"five".to_vec()));
    assert_eq!(e.get_with_ts(b"k", 4).unwrap(), None);
    let id = e.state.levels[0].1[0];
    assert_eq!(e.state.sstables[&id].last_key().key_ref(), b"k");
}

#[test]
fn output_is_split_between_user_keys() {
    let mut e = engine(CompactionOptions::NoCompaction);
    e.options.target_sst_size = 64;
    let mut expected = Vec::new();
    let mut b = SsTableBuilder::new(64);
    for i in 0..12 {
        let key = format!("key{:02}", i);
        b.add(KeySlice::from_slice(key.as_bytes()), &[b'x'; 30]);
        expected.push(key);
    }
    e.state.sstables.insert(40, Arc::new(b.build(40)));
    e.state.l0_sstables.push(40);
    e.next_sst_id = 41;
    let plan = e.force_full_compaction(0).unwrap();
    let n = plan.new_ssts.len();
    assert!(n > 1);
    for (i, t) in plan.new_ssts.iter().enumerate() {
        assert_eq!(t.sst_id(), 41 + i);
        assert!(t.is_sound());
    }
    e.finish_full_compaction(plan);
    assert_eq!(e.next_sst_id, 41 + n);
    let keys: Vec<String> = all(&e).into_iter().map(|p| p.0).collect();
    assert_eq!(keys, expected);
}

#[test]
fn one_compaction_at_a_time() {
    let mut e = engine(simple());
    e.is_in_compact = true;
    assert!(e.trigger_compaction(&ratios(2), 0).unwrap().is_none());
    assert!(e.is_in_compact);
}

#[test]
fn a_result_that_breaks_the_levels_is_refused() {
    let mut e = engine(tiered());
    flush(&mut e, &[("a", "1"), ("b", "1")]);
    flush(&mut e, &[("c", "1")]);
    let tiers = e.state.levels.clone();
    let task = CompactionTask::Tiered(TieredCompactionTask { tiers, bottom_tier_included: true });
    // the second table overlaps with the first one
    let plan = CompactionPlan {
        task: task.clone(),
        new_ssts: vec![table_with(50, &["a", "c"]), table_with(51, &["b", "d"])],
    };
    assert_eq!(e.finish_compaction(plan), Err(LsmError::LevelDisorder));
    assert_eq!(e.state.levels.len(), 2);
    let plan = CompactionPlan { task, new_ssts: vec![table_with(50, &["a", "b", "c"])] };
    assert!(e.finish_compaction(plan).is_ok());
    assert_eq!(e.state.levels, vec![(50, vec![50])]);
}

#[test]
fn tables_that_cannot_be_stored_again_are_told() {
    let mut e = engine(CompactionOptions::NoCompaction);
    let first = table_with(1, &["a"]).first_key().clone();
    let t = mini_lsm::table::SsTable::create_meta_only(9, 0, first.clone(), first);
    e.state.sstables.insert(9, Arc::new(t));
    let task = |l0: Vec<usize>, l1: Vec<usize>| CompactionTask::ForceFullCompaction {
        l0_sstables: l0,
        l1_sstables: l1,
    };
    assert!(!e.is_compactable(&task(vec![9], vec![])));
    assert!(!e.is_compactable(&task(vec![], vec![9])));
    // a table that the task does not merge does not matter, nor does one that is not there
    assert!(e.is_compactable(&task(vec![8], vec![])));
    let tiers = vec![(1, vec![8]), (9, vec![9])];
    let task = TieredCompactionTask { tiers, bottom_tier_included: true };
    assert!(!e.is_compactable(&CompactionTask::Tiered(task)));
}

#[test]
fn a_table_without_entries_is_merged_away() {
    let expected = vec![("a".to_string(), "1".to_string()), ("b".to_string(), "2".to_string())];
    for options in [simple(), leveled(), tiered()] {
        let mut e = engine(options);
        flush(&mut e, &[("a", "1"), ("b", "1")]);
        // the memtable is empty
        flush(&mut e, &[]);
        flush(&mut e, &[("b", "2")]);
        assert!(e.state.sstables.values().any(|t| t.num_of_blocks() == 0));
        assert_eq!(all(&e), expected);
        let task = if e.compaction_controller.flush_to_l0() {
            CompactionTask::ForceFullCompaction {
                l0_sstables: e.state.l0_sstables.clone(),
                l1_sstables: vec![],
            }
        } else {
            let tiers = e.state.levels.clone();
            CompactionTask::Tiered(TieredCompactionTask { tiers, bottom_tier_included: true })
        };
        assert!(e.is_compactable(&task));
        let new_ssts = e.compact(&task, 0).unwrap();
        assert_eq!(new_ssts.len(), 1);
        let plan = CompactionPlan { task, new_ssts };
        if e.compaction_controller.flush_to_l0() {
            e.finish_full_compaction(plan);
        } else {
            e.finish_compaction(plan).unwrap();
        }
        assert_eq!(e.state.sstables.len(), 1);
        assert_eq!(all(&e), expected);
    }
}
