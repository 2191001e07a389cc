use mini_lsm::compact::{
    CompactionController, CompactionTask, LeveledCompactionController, LeveledCompactionOptions,
    SimpleLeveledCompactionController, SimpleLeveledCompactionOptions, TieredCompactionController,
    TieredCompactionOptions,
};
use mini_lsm::lsm_storage::{LsmStorageState, SstInfo};
use std::collections::HashMap;

fn info(first: &str, last: &str, size: u64) -> SstInfo {
    SstInfo { first_key: first.as_bytes().to_vec(), last_key: last.as_bytes().to_vec(), size }
}

fn state(
    l0: Vec<usize>,
    levels: Vec<(usize, Vec<usize>)>,
    tables: Vec<(usize, SstInfo)>,
) -> LsmStorageState {
    let mut sstables = HashMap::new();
    for (id, i) in tables {
        sstables.insert(id, i);
    }
    LsmStorageState { l0_sstables: l0, levels, sstables }
}

fn simple() -> SimpleLeveledCompactionController {
    SimpleLeveledCompactionController::new(SimpleLeveledCompactionOptions {
        size_ratio_percent: 200,
        level0_file_num_compaction_trigger: 2,
        max_levels: 3,
    })
}

#[test]
fn simple_compacts_level0_once_it_reaches_the_trigger() {
    let s = state(vec![2, 1], vec![(1, vec![3]), (2, vec![]), (3, vec![])], vec![]);
    let t = simple().generate_compaction_task(&s).unwrap();
    assert_eq!(t.upper_level, Some(0));
    assert_eq!(t.upper_level_sst_ids, vec![2, 1]);
    assert_eq!(t.lower_level, 1);
    assert_eq!(t.lower_level_sst_ids, vec![3]);
    assert!(!t.is_lower_level_bottom_level);
}

#[test]
fn simple_compacts_first_level_below_the_ratio() {
    // Level 1 has 2 tables, level 2 has 3: 3 * 100 / 2 = 150 < 200.
    let s = state(vec![1], vec![(1, vec![2, 3]), (2, vec![4, 5, 6]), (3, vec![])], vec![]);
    let t = simple().generate_compaction_task(&s).unwrap();
    assert_eq!(t.upper_level, Some(1));
    assert_eq!(t.upper_level_sst_ids, vec![2, 3]);
    assert_eq!(t.lower_level, 2);
    assert_eq!(t.lower_level_sst_ids, vec![4, 5, 6]);
    assert!(!t.is_lower_level_bottom_level);
}

#[test]
fn simple_plans_nothing_when_levels_are_balanced() {
    let s = state(vec![1], vec![(1, vec![2]), (2, vec![3, 4]), (3, vec![5, 6, 7, 8])], vec![]);
    assert!(simple().generate_compaction_task(&s).is_none());
}

#[test]
fn simple_bottom_level_flag() {
    let s = state(vec![], vec![(1, vec![]), (2, vec![2, 3]), (3, vec![4])], vec![]);
    let t = simple().generate_compaction_task(&s).unwrap();
    assert_eq!(t.upper_level, Some(2));
    assert_eq!(t.lower_level, 3);
    assert!(t.is_lower_level_bottom_level);
}

#[test]
fn simple_apply_level0_result() {
    let s = state(
        vec![5, 2, 1],
        vec![(1, vec![3]), (2, vec![4])],
        vec![(1, info("a", "b", 1)), (2, info("a", "b", 1)), (3, info("a", "b", 1)), (9, info("a", "b", 1))],
    );
    let ctrl = simple();
    let t = mini_lsm::compact::SimpleLeveledCompactionTask {
        upper_level: Some(0),
        upper_level_sst_ids: vec![2, 1],
        lower_level: 1,
        lower_level_sst_ids: vec![3],
        is_lower_level_bottom_level: false,
    };
    let (ns, del) = ctrl.apply_compaction_result(&s, &t, &[9]);
    assert_eq!(ns.l0_sstables, vec![5]);
    assert_eq!(ns.levels[0], (1, vec![9]));
    assert_eq!(ns.levels[1], (2, vec![4]));
    assert_eq!(del, vec![2, 1, 3]);
    // The table map is left as it was.
    assert_eq!(ns.sstables.len(), 4);
}

#[test]
fn simple_apply_lower_level_result() {
    let s = state(vec![], vec![(1, vec![2, 3]), (2, vec![4])], vec![]);
    let t = mini_lsm::compact::SimpleLeveledCompactionTask {
        upper_level: Some(1),
        upper_level_sst_ids: vec![2, 3],
        lower_level: 2,
        lower_level_sst_ids: vec![4],
        is_lower_level_bottom_level: true,
    };
    let (ns, del) = simple().apply_compaction_result(&s, &t, &[7, 8]);
    assert_eq!(ns.levels, vec![(1, vec![]), (2, vec![7, 8])]);
    assert_eq!(del, vec![2, 3, 4]);
}

fn tiered(max_merge_width: Option<usize>) -> TieredCompactionController {
    TieredCompactionController::new(TieredCompactionOptions {
        num_tiers: 3,
        max_size_amplification_percent: 200,
        size_ratio: 1,
        min_merge_width: 2,
        max_merge_width,
    })
}

#[test]
fn tiered_waits_for_enough_tiers() {
    let s = state(vec![], vec![(2, vec![2]), (1, vec![1])], vec![]);
    assert!(tiered(None).generate_compaction_task(&s).is_none());
}

#[test]
fn tiered_space_amplification_takes_all_tiers() {
    let s = state(vec![], vec![(3, vec![3]), (2, vec![2]), (1, vec![1])], vec![]);
    let t = tiered(None).generate_compaction_task(&s).unwrap();
    assert_eq!(t.tiers, vec![(3, vec![3]), (2, vec![2]), (1, vec![1])]);
    assert!(t.bottom_tier_included);
}

#[test]
fn tiered_size_ratio_takes_tiers_above() {
    // Tier two holds three times the tables above it, but sits below the
    // minimum merge width; tier three holds 9 against 4 above it.
    let s = state(
        vec![],
        vec![(5, vec![50]), (4, vec![40, 41, 42]), (3, vec![30; 9]), (2, vec![20; 40])],
        vec![],
    );
    let t = tiered(None).generate_compaction_task(&s).unwrap();
    assert_eq!(t.tiers, vec![(5, vec![50]), (4, vec![40, 41, 42])]);
    assert!(!t.bottom_tier_included);
}

#[test]
fn tiered_falls_back_to_major_compaction() {
    let s = state(
        vec![],
        vec![(4, vec![40]), (3, vec![30]), (2, vec![20]), (1, vec![10; 3])],
        vec![],
    );
    let t = tiered(Some(2)).generate_compaction_task(&s).unwrap();
    assert_eq!(t.tiers, vec![(4, vec![40]), (3, vec![30])]);
    assert!(!t.bottom_tier_included);
    let t = tiered(None).generate_compaction_task(&s).unwrap();
    assert_eq!(t.tiers.len(), 4);
    assert!(t.bottom_tier_included);
}

#[test]
fn tiered_apply_replaces_tiers_with_output() {
    let s = state(vec![], vec![(3, vec![3]), (2, vec![2]), (1, vec![1])], vec![]);
    let t = mini_lsm::compact::TieredCompactionTask {
        tiers: vec![(3, vec![3]), (2, vec![2])],
        bottom_tier_included: false,
    };
    let (ns, del) = tiered(None).apply_compaction_result(&s, &t, &[7, 8]);
    assert_eq!(ns.levels, vec![(7, vec![7, 8]), (1, vec![1])]);
    assert_eq!(del, vec![3, 2]);
}

fn leveled() -> LeveledCompactionController {
    LeveledCompactionController::new(LeveledCompactionOptions {
        level_size_multiplier: 2,
        level0_file_num_compaction_trigger: 2,
        max_levels: 3,
        base_level_size_mb: 1,
    })
}

#[test]
fn leveled_flushes_level0_into_first_nonempty_target() {
    let s = state(
        vec![2, 1],
        vec![(1, vec![]), (2, vec![]), (3, vec![10, 11])],
        vec![
            (1, info("a", "c", 10)),
            (2, info("b", "d", 10)),
            (10, info("c", "e", 100)),
            (11, info("f", "g", 100)),
        ],
    );
    let t = leveled().generate_compaction_task(&s).unwrap();
    assert_eq!(t.upper_level, None);
    assert_eq!(t.upper_level_sst_ids, vec![2, 1]);
    assert_eq!(t.lower_level, 2);
    assert_eq!(t.lower_level_sst_ids, vec![10]);
    assert!(t.is_lower_level_bottom_level);
}

#[test]
fn leveled_compacts_level_over_its_target() {
    let mb: u64 = 1024 * 1024;
    // Bottom level holds 4 MiB: targets are 1, 2 and 4 MiB. Level one holds
    // 3 MiB, a ratio of 30 tenths.
    let s = state(
        vec![],
        vec![(1, vec![5, 3]), (2, vec![7]), (3, vec![8, 9])],
        vec![
            (3, info("d", "f", 2 * mb)),
            (5, info("a", "b", mb)),
            (7, info("a", "c", mb)),
            (8, info("a", "m", 2 * mb)),
            (9, info("n", "z", 2 * mb)),
        ],
    );
    let t = leveled().generate_compaction_task(&s).unwrap();
    assert_eq!(t.upper_level, Some(0));
    assert_eq!(t.upper_level_sst_ids, vec![3]);
    assert_eq!(t.lower_level, 1);
    assert_eq!(t.lower_level_sst_ids, Vec::<usize>::new());
    assert!(!t.is_lower_level_bottom_level);
}

#[test]
fn leveled_plans_nothing_under_targets() {
    let s = state(vec![1], vec![(1, vec![]), (2, vec![10])], vec![(1, info("a", "b", 1)), (10, info("a", "b", 1))]);
    assert!(leveled().generate_compaction_task(&s).is_none());
}

#[test]
fn leveled_apply_inserts_output_by_key() {
    let s = state(
        vec![2, 1],
        vec![(1, vec![]), (2, vec![10, 11])],
        vec![
            (1, info("a", "c", 10)),
            (2, info("b", "d", 10)),
            (10, info("c", "e", 100)),
            (11, info("f", "g", 100)),
            (20, info("a", "e", 100)),
        ],
    );
    let t = mini_lsm::compact::LeveledCompactionTask {
        upper_level: None,
        upper_level_sst_ids: vec![2, 1],
        lower_level: 1,
        lower_level_sst_ids: vec![10],
        is_lower_level_bottom_level: true,
    };
    let (ns, del) = leveled().apply_compaction_result(&s, &t, &[20], false);
    assert_eq!(ns.l0_sstables, Vec::<usize>::new());
    assert_eq!(ns.levels[1], (2, vec![20, 11]));
    assert_eq!(del, vec![2, 1, 10]);
    let mut ids: Vec<usize> = ns.sstables.keys().copied().collect();
    ids.sort();
    assert_eq!(ids, vec![11, 20]);
}

#[test]
fn leveled_apply_in_recovery_prepends_output() {
    let s = state(vec![], vec![(1, vec![3]), (2, vec![10, 11])], vec![]);
    let t = mini_lsm::compact::LeveledCompactionTask {
        upper_level: Some(0),
        upper_level_sst_ids: vec![3],
        lower_level: 1,
        lower_level_sst_ids: vec![11],
        is_lower_level_bottom_level: true,
    };
    let (ns, del) = leveled().apply_compaction_result(&s, &t, &[30, 31], true);
    assert_eq!(ns.levels, vec![(1, vec![]), (2, vec![30, 31, 10])]);
    assert_eq!(del, vec![3, 11]);
}

#[test]
fn controller_dispatches_to_its_planner() {
    let s = state(vec![2, 1], vec![(1, vec![3]), (2, vec![]), (3, vec![])], vec![]);
    let ctrl = CompactionController::Simple(simple());
    match ctrl.generate_compaction_task(&s) {
        Some(CompactionTask::Simple(t)) => assert_eq!(t.upper_level, Some(0)),
        _ => panic!("expected a simple leveled task"),
    }
    assert!(ctrl.flush_to_l0());
    assert!(!CompactionController::Tiered(tiered(None)).flush_to_l0());
    assert!(CompactionController::NoCompaction.flush_to_l0());
    assert!(CompactionController::Leveled(leveled()).flush_to_l0());
}

#[test]
fn controller_applies_matching_task() {
    let s = state(vec![2, 1], vec![(1, vec![3]), (2, vec![])], vec![]);
    let ctrl = CompactionController::Simple(simple());
    let task = ctrl.generate_compaction_task(&s).unwrap();
    let (ns, del) = ctrl.apply_compaction_result(&s, &task, &[8], false);
    assert_eq!(ns.l0_sstables, Vec::<usize>::new());
    assert_eq!(ns.levels[0], (1, vec![8]));
    assert_eq!(del, vec![2, 1, 3]);
}

#[test]
fn leveled_apply_keeps_level_sorted() {
    // Level 2 holds [a..b] [c..d] [e..f] [g..h]; the middle two are replaced
    // by two new tables covering [c..f].
    let s = state(
        vec![],
        vec![(1, vec![5]), (2, vec![10, 11, 12, 13])],
        vec![
            (5, info("c", "e", 10)),
            (10, info("a", "b", 10)),
            (11, info("c", "d", 10)),
            (12, info("e", "f", 10)),
            (13, info("g", "h", 10)),
            (20, info("c", "d", 10)),
            (21, info("e", "f", 10)),
        ],
    );
    let t = mini_lsm::compact::LeveledCompactionTask {
        upper_level: Some(0),
        upper_level_sst_ids: vec![5],
        lower_level: 1,
        lower_level_sst_ids: vec![11, 12],
        is_lower_level_bottom_level: true,
    };
    let (ns, del) = leveled().apply_compaction_result(&s, &t, &[20, 21], false);
    assert_eq!(ns.levels, vec![(1, vec![]), (2, vec![10, 20, 21, 13])]);
    assert_eq!(del, vec![5, 11, 12]);
    let level = &ns.levels[1].1;
    for w in level.windows(2) {
        assert!(ns.sstables[&w[0]].last_key < ns.sstables[&w[1]].first_key);
    }
}

#[test]
fn controller_apply_ignores_recovery_for_simple_tasks() {
    let s = state(vec![2, 1], vec![(1, vec![3]), (2, vec![])], vec![]);
    let ctrl = CompactionController::Simple(simple());
    let task = ctrl.generate_compaction_task(&s).unwrap();
    let (a, da) = ctrl.apply_compaction_result(&s, &task, &[8], false);
    let (b, db) = ctrl.apply_compaction_result(&s, &task, &[8], true);
    assert_eq!(a.levels, b.levels);
    assert_eq!(a.l0_sstables, b.l0_sstables);
    assert_eq!(da, db);
}

#[test]
fn leveled_apply_accepts_unordered_level() {
    // The lower level is out of order: the output still goes in, and the
    // task's tables still leave.
    let s = state(
        vec![],
        vec![(1, vec![5]), (2, vec![12, 10, 11])],
        vec![
            (5, info("c", "d", 10)),
            (10, info("a", "b", 10)),
            (11, info("c", "d", 10)),
            (12, info("g", "h", 10)),
            (20, info("c", "d", 10)),
        ],
    );
    let t = mini_lsm::compact::LeveledCompactionTask {
        upper_level: Some(0),
        upper_level_sst_ids: vec![5],
        lower_level: 1,
        lower_level_sst_ids: vec![11],
        is_lower_level_bottom_level: true,
    };
    let (ns, del) = leveled().apply_compaction_result(&s, &t, &[20], false);
    let mut level = ns.levels[1].1.clone();
    level.sort();
    assert_eq!(level, vec![10, 12, 20]);
    assert_eq!(ns.levels[0], (1, vec![]));
    assert_eq!(del, vec![5, 11]);
}
