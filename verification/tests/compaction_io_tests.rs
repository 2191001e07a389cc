use mini_lsm::block::{BlockBuilder, BlockIterator};
use mini_lsm::compact::install::{
    apply_full_compaction, compaction_step, full_compaction_task, insert_infos, output_infos, sst_info,
};
use mini_lsm::compact::{
    CompactionController, LeveledCompactionController, LeveledCompactionOptions, SimpleLeveledCompactionController,
    SimpleLeveledCompactionOptions,
};
use mini_lsm::compact::output::compact;
use mini_lsm::compact::{build_ssts_from_iter, CompactionTask, SimpleLeveledCompactionTask, TieredCompactionTask};
use mini_lsm::iterators::StorageIterator;
use mini_lsm::lsm_storage::{LsmStorageState, SstInfo};
use mini_lsm::table::{SsTable, SsTableBuilder, SsTableIterator};
use std::collections::HashMap;
use std::sync::Arc;

fn table(entries: &[(&str, &str)], id: usize) -> Arc<SsTable> {
    let mut b = SsTableBuilder::new(64);
    for (k, v) in entries {
        b.add(k.as_bytes(), v.as_bytes());
    }
    Arc::new(b.build(id))
}

fn read_all(tables: &[Arc<SsTable>]) -> Vec<(String, String)> {
    let mut out = Vec::new();
    for t in tables {
        let mut it = SsTableIterator::create_and_seek_to_first(t.clone());
        while it.is_valid() {
            out.push((
                String::from_utf8(it.key().to_vec()).unwrap(),
                String::from_utf8(it.value().to_vec()).unwrap(),
            ));
            it.next().unwrap();
        }
    }
    out
}

fn pairs(v: &[(&str, &str)]) -> Vec<(String, String)> {
    v.iter().map(|(k, v)| (k.to_string(), v.to_string())).collect()
}

fn block_iter(entries: &[(&str, &str)]) -> BlockIterator {
    let mut b = BlockBuilder::new(4096);
    for (k, v) in entries {
        assert!(b.add(k.as_bytes(), v.as_bytes()));
    }
    BlockIterator::create_and_seek_to_first(Arc::new(b.build()))
}

#[test]
fn builder_is_empty_until_first_add() {
    let mut b = SsTableBuilder::new(64);
    assert!(b.is_empty());
    b.add(b"k", b"v");
    assert!(!b.is_empty());
}

#[test]
fn build_ssts_keeps_everything_above_the_bottom() {
    let it = block_iter(&[("a", "1"), ("b", ""), ("c", "3")]);
    let mut next = 10;
    let out = build_ssts_from_iter(it, false, 64, 1 << 20, &mut next).unwrap();
    assert_eq!(out.len(), 1);
    assert_eq!(out[0].id, 10);
    assert_eq!(next, 11);
    assert_eq!(read_all(&out), pairs(&[("a", "1"), ("b", ""), ("c", "3")]));
}

#[test]
fn build_ssts_accepts_block_sizes_past_64_kib() {
    let it = block_iter(&[("a", "1"), ("b", "2")]);
    let mut next = 7;
    let out = build_ssts_from_iter(it, false, 100_000, 1 << 20, &mut next).unwrap();
    assert_eq!(out.len(), 1);
    assert_eq!(out[0].id, 7);
    assert_eq!(next, 8);
    assert_eq!(read_all(&out), pairs(&[("a", "1"), ("b", "2")]));
}

#[test]
fn build_ssts_drops_deletions_at_the_bottom() {
    let it = block_iter(&[("a", "1"), ("b", ""), ("c", "3")]);
    let mut next = 0;
    let out = build_ssts_from_iter(it, true, 64, 1 << 20, &mut next).unwrap();
    assert_eq!(read_all(&out), pairs(&[("a", "1"), ("c", "3")]));
    assert_eq!(out[0].first_key, b"a".to_vec());
    assert_eq!(out[0].last_key, b"c".to_vec());
}

#[test]
fn build_ssts_splits_on_target_size() {
    let keys: Vec<String> = (0..30).map(|i| format!("k{:02}", i)).collect();
    let entries: Vec<(&str, &str)> = keys.iter().map(|k| (k.as_str(), "value")).collect();
    let it = block_iter(&entries);
    let mut next = 5;
    // Block size 64, target 128: a table is finished once it holds more than one sealed block.
    let out = build_ssts_from_iter(it, false, 64, 128, &mut next).unwrap();
    assert!(out.len() > 1);
    for (i, t) in out.iter().enumerate() {
        assert_eq!(t.id, 5 + i);
    }
    assert_eq!(next, 5 + out.len());
    assert_eq!(read_all(&out), pairs(&entries));
}

#[test]
fn build_ssts_of_nothing_makes_no_table() {
    let mut b = BlockBuilder::new(4096);
    assert!(b.add(b"", b"x"));
    // A block whose first key is empty reads as exhausted.
    let it = BlockIterator::create_and_seek_to_first(Arc::new(b.build()));
    let mut next = 3;
    let out = build_ssts_from_iter(it, false, 64, 128, &mut next).unwrap();
    assert!(out.is_empty());
    assert_eq!(next, 3);
}

fn store(tables: Vec<Arc<SsTable>>) -> HashMap<usize, Arc<SsTable>> {
    tables.into_iter().map(|t| (t.id, t)).collect()
}

#[test]
fn full_compaction_merges_level0_over_level1() {
    let tables = store(vec![
        table(&[("a", "new"), ("c", "")], 1),
        table(&[("a", "old"), ("b", "b0")], 2),
        table(&[("a", "older"), ("c", "c0"), ("d", "d0")], 3),
    ]);
    let task = CompactionTask::ForceFullCompaction { l0_sstables: vec![1, 2], l1_sstables: vec![3] };
    let mut next = 100;
    let out = compact(&tables, &task, 64, 1 << 20, &mut next).unwrap();
    // The newest version of each key wins, and the deletion of "c" is dropped.
    assert_eq!(read_all(&out), pairs(&[("a", "new"), ("b", "b0"), ("d", "d0")]));
    assert_eq!(out[0].id, 100);
}

#[test]
fn simple_compaction_of_two_levels() {
    let tables = store(vec![
        table(&[("a", "1"), ("b", "2")], 1),
        table(&[("c", "3")], 2),
        table(&[("b", "x"), ("e", "5")], 3),
    ]);
    let task = CompactionTask::Simple(SimpleLeveledCompactionTask {
        upper_level: Some(1),
        upper_level_sst_ids: vec![1, 2],
        lower_level: 2,
        lower_level_sst_ids: vec![3],
        is_lower_level_bottom_level: false,
    });
    let mut next = 7;
    let out = compact(&tables, &task, 64, 1 << 20, &mut next).unwrap();
    assert_eq!(read_all(&out), pairs(&[("a", "1"), ("b", "2"), ("c", "3"), ("e", "5")]));
}

#[test]
fn simple_compaction_above_the_bottom_keeps_deletions() {
    let tables = store(vec![table(&[("a", ""), ("b", "2")], 1), table(&[("a", "1"), ("c", "3")], 2)]);
    let task = CompactionTask::Simple(SimpleLeveledCompactionTask {
        upper_level: Some(1),
        upper_level_sst_ids: vec![1],
        lower_level: 2,
        lower_level_sst_ids: vec![2],
        is_lower_level_bottom_level: false,
    });
    let mut next = 1;
    let out = compact(&tables, &task, 64, 1 << 20, &mut next).unwrap();
    assert_eq!(read_all(&out), pairs(&[("a", ""), ("b", "2"), ("c", "3")]));
    let task = CompactionTask::Simple(SimpleLeveledCompactionTask {
        upper_level: Some(1),
        upper_level_sst_ids: vec![1],
        lower_level: 2,
        lower_level_sst_ids: vec![2],
        is_lower_level_bottom_level: true,
    });
    let out = compact(&tables, &task, 64, 1 << 20, &mut next).unwrap();
    assert_eq!(read_all(&out), pairs(&[("b", "2"), ("c", "3")]));
}

#[test]
fn leveled_compaction_into_an_empty_level() {
    let tables = store(vec![table(&[("a", "1"), ("c", "")], 1), table(&[("b", "2")], 2)]);
    let task = CompactionTask::Leveled(mini_lsm::compact::LeveledCompactionTask {
        upper_level: None,
        upper_level_sst_ids: vec![1, 2],
        lower_level: 1,
        lower_level_sst_ids: vec![],
        is_lower_level_bottom_level: false,
    });
    let mut next = 20;
    let out = compact(&tables, &task, 64, 1 << 20, &mut next).unwrap();
    assert_eq!(read_all(&out), pairs(&[("a", "1"), ("b", "2"), ("c", "")]));
    let task = CompactionTask::ForceFullCompaction { l0_sstables: vec![1, 2], l1_sstables: vec![] };
    let out = compact(&tables, &task, 64, 1 << 20, &mut next).unwrap();
    assert_eq!(read_all(&out), pairs(&[("a", "1"), ("b", "2")]));
}

#[test]
fn compaction_step_plans_and_runs_a_task() {
    let tables = store(vec![table(&[("a", "1")], 1), table(&[("b", "2")], 2), table(&[("a", "0"), ("c", "3")], 3)]);
    let mut sstables = HashMap::new();
    for id in [1usize, 2, 3] {
        sstables.insert(id, sst_info(&tables[&id]));
    }
    let state = LsmStorageState { l0_sstables: vec![2, 1], levels: vec![(1, vec![3]), (2, vec![])], sstables };
    let ctrl = CompactionController::Simple(SimpleLeveledCompactionController::new(SimpleLeveledCompactionOptions {
        size_ratio_percent: 200,
        level0_file_num_compaction_trigger: 2,
        max_levels: 2,
    }));
    let mut next = 10;
    let (task, out, installed_state, installed_del) =
        compaction_step(&ctrl, &state, &tables, 64, 1 << 20, &mut next).unwrap();
    assert_eq!(read_all(&out), pairs(&[("a", "1"), ("b", "2"), ("c", "3")]));
    assert_eq!(next, 10 + out.len());
    assert_eq!(installed_state.l0_sstables, Vec::<usize>::new());
    assert_eq!(installed_state.levels[0], (1, vec![10]));
    assert_eq!(installed_del, vec![2, 1, 3]);
    assert_eq!(installed_state.sstables[&10].first_key, b"a".to_vec());
    assert_eq!(installed_state.sstables[&10].last_key, b"c".to_vec());
    let infos = output_infos(&out);
    assert_eq!(infos[0].0, 10);
    let ids: Vec<usize> = infos.iter().map(|p| p.0).collect();
    let mut s2 = LsmStorageState { l0_sstables: state.l0_sstables.clone(), levels: state.levels.clone(), sstables: state.sstables.clone() };
    insert_infos(&mut s2, infos);
    let (ns, del) = ctrl.apply_compaction_result(&s2, &task, &ids, false);
    assert_eq!(ns.l0_sstables, Vec::<usize>::new());
    assert_eq!(ns.levels[0], (1, vec![10]));
    assert_eq!(del, vec![2, 1, 3]);
}

#[test]
fn tiered_compaction_keeps_deletions_above_the_bottom() {
    let tables = store(vec![table(&[("a", ""), ("b", "2")], 1), table(&[("a", "1"), ("c", "3")], 2)]);
    let task = CompactionTask::Tiered(TieredCompactionTask {
        tiers: vec![(1, vec![1]), (2, vec![2])],
        bottom_tier_included: false,
    });
    let mut next = 9;
    let out = compact(&tables, &task, 64, 1 << 20, &mut next).unwrap();
    assert_eq!(read_all(&out), pairs(&[("a", ""), ("b", "2"), ("c", "3")]));
}

#[test]
fn full_compaction_state_update() {
    let mut sstables = HashMap::new();
    for id in [1usize, 2, 3, 4] {
        sstables.insert(id, SstInfo { first_key: b"a".to_vec(), last_key: b"z".to_vec(), size: 1 });
    }
    let state = LsmStorageState { l0_sstables: vec![4, 2, 1], levels: vec![(1, vec![3]), (2, vec![])], sstables };
    match full_compaction_task(&state) {
        CompactionTask::ForceFullCompaction { l0_sstables, l1_sstables } => {
            assert_eq!(l0_sstables, vec![4, 2, 1]);
            assert_eq!(l1_sstables, vec![3]);
        }
        _ => panic!("expected a full compaction"),
    }
    let t = table(&[("a", "1"), ("b", "2")], 9);
    let info = sst_info(&t);
    assert_eq!(info.first_key, b"a".to_vec());
    assert_eq!(info.last_key, b"b".to_vec());
    assert_eq!(info.size as usize, t.file.len());
    let ns = apply_full_compaction(&state, &vec![2, 1], &vec![3], vec![(9, info)]);
    assert_eq!(ns.l0_sstables, vec![4]);
    assert_eq!(ns.levels, vec![(1, vec![9]), (2, vec![])]);
    let mut ids: Vec<usize> = ns.sstables.keys().copied().collect();
    ids.sort();
    assert_eq!(ids, vec![4, 9]);
}

#[test]
fn insert_infos_later_pairs_win() {
    let mut state = LsmStorageState { l0_sstables: vec![], levels: vec![], sstables: HashMap::new() };
    insert_infos(
        &mut state,
        vec![
            (1, SstInfo { first_key: b"a".to_vec(), last_key: b"b".to_vec(), size: 1 }),
            (1, SstInfo { first_key: b"c".to_vec(), last_key: b"d".to_vec(), size: 2 }),
        ],
    );
    assert_eq!(state.sstables.len(), 1);
    assert_eq!(state.sstables[&1].size, 2);
}

#[test]
fn compaction_step_installs_a_leveled_task() {
    // Level 0 goes into the only level, which is the bottom: the deletion of
    // "b" is dropped and the merged table becomes the level.
    let tables = store(vec![table(&[("a", "1"), ("b", "")], 1), table(&[("b", "2"), ("c", "3")], 2)]);
    let mut sstables = HashMap::new();
    for id in [1usize, 2] {
        sstables.insert(id, sst_info(&tables[&id]));
    }
    let state = LsmStorageState { l0_sstables: vec![1, 2], levels: vec![(1, vec![])], sstables };
    let ctrl = CompactionController::Leveled(LeveledCompactionController::new(LeveledCompactionOptions {
        level_size_multiplier: 2,
        level0_file_num_compaction_trigger: 2,
        max_levels: 1,
        base_level_size_mb: 1,
    }));
    let mut next = 5;
    let (task, out, ns, del) = compaction_step(&ctrl, &state, &tables, 64, 1 << 20, &mut next).unwrap();
    assert!(matches!(task, CompactionTask::Leveled(_)));
    assert_eq!(read_all(&out), pairs(&[("a", "1"), ("c", "3")]));
    assert_eq!(next, 6);
    assert_eq!(ns.l0_sstables, Vec::<usize>::new());
    assert_eq!(ns.levels, vec![(1, vec![5])]);
    assert_eq!(del, vec![1, 2]);
    let mut ids: Vec<usize> = ns.sstables.keys().copied().collect();
    ids.sort();
    assert_eq!(ids, vec![5]);
}
