//! How the tree changes once a compaction has written its tables.
use super::output::{built_tables, compact, compaction_input, compaction_runs_ok, kept_entries};
use super::{CompactionController, CompactionTask};
use super::simple_leveled::lemma_simple_scan;
use crate::table::roundtrip::entries_fit;
use std::collections::HashMap;
use std::sync::Arc;
use crate::lsm_storage::{
    concat_ids, copy_ids, ids_without, levels_of, without, LsmStorageState, SstInfo,
};
use crate::table::SsTable;
use super::leveled::{lemma_leveled_task_fits, table_ok};
use crate::codec::put_slice;
use vstd::prelude::*;

verus! {

broadcast use vstd::std_specs::hash::group_hash_axioms;

/// The map with each pair of `infos` inserted in turn.
pub open spec fn insert_all(m: Map<usize, SstInfo>, infos: Seq<(usize, SstInfo)>) -> Map<usize, SstInfo>
    decreases infos.len(),
{
    if infos.len() == 0 {
        m
    } else {
        insert_all(m, infos.drop_last()).insert(infos.last().0, infos.last().1)
    }
}

/// What the planners need to know of a table: its key range and the size of its file.
pub fn sst_info(t: &SsTable) -> (r: SstInfo)
    ensures
        r.first_key@ == t.first_key@,
        r.last_key@ == t.last_key@,
        r.size == t.file@.len(),
{
    let mut first_key: Vec<u8> = Vec::new();
    put_slice(&mut first_key, t.first_key.as_slice());
    let mut last_key: Vec<u8> = Vec::new();
    put_slice(&mut last_key, t.last_key.as_slice());
    SstInfo { first_key, last_key, size: t.file.len() as u64 }
}

/// Records the new tables in the state, each in turn.
pub fn insert_infos(state: &mut LsmStorageState, infos: Vec<(usize, SstInfo)>)
    ensures
        final(state).sstables@ == insert_all(old(state).sstables@, infos@),
        final(state).l0_sstables@ == old(state).l0_sstables@,
        final(state).levels_view() == old(state).levels_view(),
{
    let ghost all = infos@;
    let mut infos = infos;
    let mut k: usize = 0;
    assert(all.len() == infos.len());
    while infos.len() > 0
        invariant
            k + infos@.len() == all.len(),
            all.len() <= usize::MAX,
            infos@ == all.subrange(k as int, all.len() as int),
            state.sstables@ == insert_all(old(state).sstables@, all.subrange(0, k as int)),
            state.l0_sstables@ == old(state).l0_sstables@,
            state.levels_view() == old(state).levels_view(),
        decreases infos@.len(),
    {
        let (id, info) = infos.remove(0);
        state.sstables.insert(id, info);
        proof {
            assert(all.subrange(0, k + 1).drop_last() =~= all.subrange(0, k as int));
            assert(all.subrange(0, k + 1).last() == all[k as int]);
        }
        k = k + 1;
        assert(infos@ =~= all.subrange(k as int, all.len() as int));
    }
    assert(all.subrange(0, k as int) =~= all);
}

/// The full compaction task: all of level 0 and all of level 1.
pub fn full_compaction_task(state: &LsmStorageState) -> (r: CompactionTask)
    requires
        state.levels@.len() > 0,
    ensures
        r matches CompactionTask::ForceFullCompaction { l0_sstables, l1_sstables } && l0_sstables@
            == state.l0_sstables@ && l1_sstables@ == state.level(0),
{
    CompactionTask::ForceFullCompaction {
        l0_sstables: copy_ids(&state.l0_sstables),
        l1_sstables: copy_ids(&state.levels[0].1),
    }
}

/// The state after a full compaction of `l0` (from level 0) and `l1` (level
/// 1) wrote the tables `output`: level 0 keeps only the tables flushed since,
/// level 1 becomes the new tables, and the compacted tables are forgotten.
pub fn apply_full_compaction(
    state: &LsmStorageState,
    l0: &Vec<usize>,
    l1: &Vec<usize>,
    output: Vec<(usize, SstInfo)>,
) -> (r: LsmStorageState)
    requires
        state.levels@.len() > 0,
    ensures
        r.l0_sstables@ == without(state.l0_sstables@, l0@),
        r.levels_view() == state.levels_view().update(0, (1usize, output@.map_values(|p: (usize, SstInfo)| p.0))),
        r.sstables@ == insert_all(state.sstables@.remove_keys((l0@ + l1@).to_set()), output@),
{
    let mut new_state = state.clone_state();
    let combined = concat_ids(l0, l1);
    new_state.remove_tables(&combined);
    let mut ids: Vec<usize> = Vec::new();
    let mut i: usize = 0;
    while i < output.len()
        invariant
            i <= output@.len(),
            ids@ == output@.subrange(0, i as int).map_values(|p: (usize, SstInfo)| p.0),
        decreases output@.len() - i,
    {
        ids.push(output[i].0);
        i = i + 1;
        assert(ids@ =~= output@.subrange(0, i as int).map_values(|p: (usize, SstInfo)| p.0));
    }
    assert(output@.subrange(0, i as int) =~= output@);
    insert_infos(&mut new_state, output);
    new_state.l0_sstables = ids_without(&state.l0_sstables, l0);
    let ghost before = new_state.levels@;
    assert(before.len() == levels_of(before).len());
    new_state.levels.set(0, (1, ids));
    proof {
        assert(levels_of(new_state.levels@) =~= levels_of(before).update(
            0,
            (1usize, output@.map_values(|p: (usize, SstInfo)| p.0)),
        ));
    }
    new_state
}

/// A compaction task can be run over the store: the tables it names can be
/// read, the entries it keeps fit in tables, and ids remain for its output.
pub open spec fn task_runnable(
    tables: Map<usize, Arc<SsTable>>,
    task: CompactionTask,
    next_sst_id: usize,
) -> bool {
    &&& compaction_runs_ok(tables, task)
    &&& entries_fit(kept_entries(compaction_input(tables, task), task.to_bottom()))
    &&& next_sst_id + kept_entries(compaction_input(tables, task), task.to_bottom()).len()
        <= usize::MAX
}

/// The ids of the pairs, in order.
pub open spec fn keys_of(infos: Seq<(usize, SstInfo)>) -> Seq<usize> {
    infos.map_values(|p: (usize, SstInfo)| p.0)
}

/// Inserting pairs with distinct ids: the map knows an id exactly when it
/// knew it or a pair has it; a pair's id maps to its info, and other ids keep
/// theirs.
pub proof fn lemma_insert_all(m: Map<usize, SstInfo>, infos: Seq<(usize, SstInfo)>)
    requires
        forall|i: int, j: int| 0 <= i < j < infos.len() ==> #[trigger] infos[i].0 != #[trigger] infos[j].0,
    ensures
        forall|id: usize|
            #[trigger] insert_all(m, infos).contains_key(id) <==> m.contains_key(id) || keys_of(infos).contains(id),
        forall|id: usize|
            m.contains_key(id) && !keys_of(infos).contains(id) ==> #[trigger] insert_all(m, infos)[id] == m[id],
        forall|i: int| 0 <= i < infos.len() ==> #[trigger] insert_all(m, infos)[infos[i].0] == infos[i].1,
    decreases infos.len(),
{
    if infos.len() > 0 {
        let init = infos.drop_last();
        let last = infos.last();
        assert forall|i: int, j: int| 0 <= i < j < init.len() implies #[trigger] init[i].0 != #[trigger] init[j].0 by {
            assert(init[i] == infos[i] && init[j] == infos[j]);
        }
        lemma_insert_all(m, init);
        let ks = keys_of(infos);
        let ki = keys_of(init);
        let prev = insert_all(m, init);
        assert(ks =~= ki.push(last.0));
        assert(insert_all(m, infos) == prev.insert(last.0, last.1));
        assert(ks[ks.len() - 1] == last.0);
        assert(ks.contains(last.0));
        assert forall|id: usize| #[trigger] ks.contains(id) <==> ki.contains(id) || id == last.0 by {
            if ks.contains(id) && id != last.0 {
                let i = choose|i: int| 0 <= i < ks.len() && ks[i] == id;
                assert(i < ki.len());
                assert(ki[i] == id);
            }
            if ki.contains(id) {
                let i = choose|i: int| 0 <= i < ki.len() && ki[i] == id;
                assert(ks[i] == id);
            }
        }
        assert forall|id: usize| #[trigger] insert_all(m, infos).contains_key(id) <==> m.contains_key(id)
            || ks.contains(id) by {
            assert(prev.contains_key(id) <==> m.contains_key(id) || ki.contains(id));
        }
        assert forall|id: usize| m.contains_key(id) && !ks.contains(id) implies #[trigger] insert_all(m, infos)[id]
            == m[id] by {
            assert(!ki.contains(id));
            assert(id != last.0);
            assert(prev[id] == m[id]);
            assert(prev.contains_key(id));
            assert(prev.insert(last.0, last.1)[id] == prev[id]);
        }
        assert forall|i: int| 0 <= i < infos.len() implies #[trigger] insert_all(m, infos)[infos[i].0] == infos[i].1 by {
            if i < infos.len() - 1 {
                assert(init[i] == infos[i]);
            }
        }
    }
}

/// The ids of the tables, in order.
pub open spec fn table_ids(out: Seq<Arc<SsTable>>) -> Seq<usize> {
    out.map_values(|t: Arc<SsTable>| t.id)
}

/// `s1` is `s` with the new tables recorded: the same levels, and beside the
/// tables known before, each new table by its id, with its key range and the
/// size of its file.
pub open spec fn records_tables(s: LsmStorageState, s1: LsmStorageState, out: Seq<Arc<SsTable>>) -> bool {
    &&& s1.l0_sstables@ == s.l0_sstables@
    &&& s1.levels_view() == s.levels_view()
    &&& forall|id: usize|
        #[trigger] s1.sstables@.contains_key(id) <==> s.sstables@.contains_key(id) || table_ids(out).contains(id)
    &&& forall|id: usize|
        s.sstables@.contains_key(id) && !table_ids(out).contains(id) ==> #[trigger] s1.sstables@[id]
            == s.sstables@[id]
    &&& forall|i: int|
        0 <= i < out.len() ==> {
            &&& (#[trigger] s1.info(out[i].id)).first_key@ == out[i].first_key@
            &&& s1.info(out[i].id).last_key@ == out[i].last_key@
            &&& s1.info(out[i].id).size == out[i].file@.len()
        }
}

/// `r` is what the controller makes of the state once the new tables are
/// recorded in it and the task's result is applied: the new state and the
/// tables to delete.
pub open spec fn installs(
    ctrl: CompactionController,
    s: LsmStorageState,
    task: CompactionTask,
    out: Seq<Arc<SsTable>>,
    r: (LsmStorageState, Vec<usize>),
) -> bool {
    exists|s1: LsmStorageState|
        #[trigger] records_tables(s, s1, out) && ctrl.applied(s1, task, table_ids(out), false, r)
}

/// The task leaves something for the controller to apply: leveled compaction
/// places its output by the first new table, and tiered compaction names the
/// new tier after it, so both need an entry to survive the merge; tiered
/// compaction also needs a tier to replace.
pub open spec fn output_owed(tables: Map<usize, Arc<SsTable>>, task: CompactionTask) -> bool {
    let kept = kept_entries(compaction_input(tables, task), task.to_bottom());
    match task {
        CompactionTask::Leveled(_) => kept.len() > 0,
        CompactionTask::Tiered(t) => t.tiers@.len() > 0 && kept.len() > 0,
        _ => true,
    }
}

/// One round of compaction: asks the controller for a task on the state and,
/// when there is one, runs it over the store, records the new tables in the
/// state and has the controller apply the result. Returns the task, the new
/// tables, the new state and the ids of the tables to delete.
pub fn compaction_step(
    ctrl: &CompactionController,
    state: &LsmStorageState,
    tables: &HashMap<usize, Arc<SsTable>>,
    block_size: usize,
    target_sst_size: usize,
    next_sst_id: &mut usize,
) -> (r: Option<(CompactionTask, Vec<Arc<SsTable>>, LsmStorageState, Vec<usize>)>)
    requires
        ctrl.can_generate(*state),
        block_size + 0x3_0000 <= usize::MAX,
        2 * block_size <= usize::MAX,
        target_sst_size + block_size <= usize::MAX,
        forall|t: CompactionTask|
            #[trigger] ctrl.generated(*state, Some(t)) ==> task_runnable(tables@, t, *old(next_sst_id))
                && output_owed(tables@, t),
    ensures
        match r {
            None => {
                &&& ctrl.generated(*state, None)
                &&& *final(next_sst_id) == *old(next_sst_id)
            },
            Some((task, out, new_state, to_delete)) => {
                &&& ctrl.generated(*state, Some(task))
                &&& forall|i: int| 0 <= i < out@.len() ==> (#[trigger] out@[i]).id == *old(next_sst_id) + i
                &&& block_size < 0x1_0000 ==> built_tables(
                    out@,
                    kept_entries(compaction_input(tables@, task), task.to_bottom()),
                    *old(next_sst_id) as int,
                )
                &&& *final(next_sst_id) == *old(next_sst_id) + out@.len()
                &&& installs(*ctrl, *state, task, out@, (new_state, to_delete))
            },
        },
{
    let ghost first_id = *next_sst_id;
    match ctrl.generate_compaction_task(state) {
        None => None,
        Some(task) => {
            assert(task_runnable(tables@, task, *next_sst_id) && output_owed(tables@, task));
            let out = match compact(tables, &task, block_size, target_sst_size, next_sst_id) {
                Ok(out) => out,
                Err(_) => {
                    assert(false);
                    return None;
                },
            };
            let infos = output_infos(&out);
            let mut ids: Vec<usize> = Vec::new();
            let mut i: usize = 0;
            while i < infos.len()
                invariant
                    i <= infos@.len(),
                    infos@.len() == out@.len(),
                    ids@ == table_ids(out@).subrange(0, i as int),
                    forall|j: int| 0 <= j < out@.len() ==> (#[trigger] infos@[j]).0 == out@[j].id,
                decreases infos@.len() - i,
            {
                ids.push(infos[i].0);
                i = i + 1;
                assert(ids@ =~= table_ids(out@).subrange(0, i as int));
            }
            assert(ids@ =~= table_ids(out@));
            let ghost iv = infos@;
            let mut s1 = state.clone_state();
            insert_infos(&mut s1, infos);
            proof {
                lemma_records(*state, s1, out@, iv, first_id as int);
                lemma_installable(ctrl, *state, s1, task, out@);
            }
            let (new_state, to_delete) = ctrl.apply_compaction_result(&s1, &task, ids.as_slice(), false);
            proof {
                assert(records_tables(*state, s1, out@) && ctrl.applied(
                    s1,
                    task,
                    table_ids(out@),
                    false,
                    (new_state, to_delete),
                ));
                assert(installs(*ctrl, *state, task, out@, (new_state, to_delete)));
            }
            Some((task, out, new_state, to_delete))
        },
    }
}

/// Recording the new tables, whose ids count up from an id above every known
/// table, gives a state that records them.
proof fn lemma_records(
    s: LsmStorageState,
    s1: LsmStorageState,
    out: Seq<Arc<SsTable>>,
    infos: Seq<(usize, SstInfo)>,
    first_id: int,
)
    requires
        forall|i: int| 0 <= i < out.len() ==> (#[trigger] out[i]).id == first_id + i,
        infos.len() == out.len(),
        forall|i: int|
            0 <= i < out.len() ==> {
                &&& (#[trigger] infos[i]).0 == out[i].id
                &&& infos[i].1.first_key@ == out[i].first_key@
                &&& infos[i].1.last_key@ == out[i].last_key@
                &&& infos[i].1.size == out[i].file@.len()
            },
        s1.sstables@ == insert_all(s.sstables@, infos),
        s1.l0_sstables@ == s.l0_sstables@,
        s1.levels_view() == s.levels_view(),
    ensures
        records_tables(s, s1, out),
{
    assert forall|i: int, j: int| 0 <= i < j < infos.len() implies #[trigger] infos[i].0 != #[trigger] infos[j].0 by {
        assert(out[i].id == first_id + i);
        assert(out[j].id == first_id + j);
    }
    lemma_insert_all(s.sstables@, infos);
    assert(keys_of(infos) =~= table_ids(out));
    assert forall|i: int| 0 <= i < out.len() implies {
        &&& (#[trigger] s1.info(out[i].id)).first_key@ == out[i].first_key@
        &&& s1.info(out[i].id).last_key@ == out[i].last_key@
        &&& s1.info(out[i].id).size == out[i].file@.len()
    } by {
        assert(infos[i].0 == out[i].id);
        assert(insert_all(s.sstables@, infos)[infos[i].0] == infos[i].1);
    }
}

/// A planned task that leaves an output meets what the controller's apply
/// asks, once the new tables are recorded.
proof fn lemma_installable(
    ctrl: &CompactionController,
    s: LsmStorageState,
    s1: LsmStorageState,
    task: CompactionTask,
    out: Seq<Arc<SsTable>>,
)
    requires
        ctrl.can_generate(s),
        ctrl.generated(s, Some(task)),
        records_tables(s, s1, out),
        match task {
            CompactionTask::Leveled(_) => out.len() > 0,
            CompactionTask::Tiered(t) => t.tiers@.len() > 0 && out.len() > 0,
            _ => true,
        },
    ensures
        ctrl.can_apply(s1, task, table_ids(out), false),
{
    assert(s1.levels@.len() == s1.levels_view().len());
    assert(s.levels@.len() == s.levels_view().len());
    match (ctrl, task) {
        (CompactionController::Leveled(c), CompactionTask::Leveled(t)) => {
            lemma_leveled_task_fits(s, c.options_view(), t);
            let ll = s.level(t.lower_level as int);
            assert(s1.level(t.lower_level as int) == ll);
            assert(table_ids(out)[0] == out[0].id);
            assert(s1.sstables@.contains_key(table_ids(out)[0])) by {
                assert(table_ids(out).contains(out[0].id));
            }
            assert(s1.tables_known(ll)) by {
                assert forall|j: int| 0 <= j < ll.len() implies s1.sstables@.contains_key(#[trigger] ll[j]) by {
                    assert(table_ok(s, ll[j]));
                }
            }
        },
        (CompactionController::Simple(c), CompactionTask::Simple(t)) => {
            lemma_simple_scan(s, c.options_view().size_ratio_percent, 0);
        },
        _ => {},
    }
}

/// The ids of the new tables and what the planners need to know of each.
pub fn output_infos(out: &Vec<Arc<SsTable>>) -> (r: Vec<(usize, SstInfo)>)
    ensures
        r@.len() == out@.len(),
        forall|i: int|
            0 <= i < out@.len() ==> {
                &&& (#[trigger] r@[i]).0 == out@[i].id
                &&& r@[i].1.first_key@ == out@[i].first_key@
                &&& r@[i].1.last_key@ == out@[i].last_key@
                &&& r@[i].1.size == out@[i].file@.len()
            },
{
    let mut r: Vec<(usize, SstInfo)> = Vec::new();
    let mut i: usize = 0;
    while i < out.len()
        invariant
            i <= out@.len(),
            r@.len() == i,
            forall|j: int|
                0 <= j < i ==> {
                    &&& (#[trigger] r@[j]).0 == out@[j].id
                    &&& r@[j].1.first_key@ == out@[j].first_key@
                    &&& r@[j].1.last_key@ == out@[j].last_key@
                    &&& r@[j].1.size == out@[j].file@.len()
                },
        decreases out@.len() - i,
    {
        let t = &out[i];
        let info = sst_info(t);
        r.push((t.id, info));
        i = i + 1;
    }
    r
}

} // verus!
