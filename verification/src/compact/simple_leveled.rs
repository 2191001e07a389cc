//! Simple leveled compaction: level 0 merges into level 1 once it holds
//! enough tables, and a level merges into the next when the next is too small
//! against it.
use crate::lsm_storage::{copy_ids, ids_without, lemma_without, without, LsmStorageState};
use vstd::prelude::*;
use vstd::slice::slice_to_vec;

verus! {

pub struct SimpleLeveledCompactionOptions {
    pub size_ratio_percent: usize,
    pub level0_file_num_compaction_trigger: usize,
    pub max_levels: usize,
}

pub struct SimpleLeveledCompactionTask {
    /// If `upper_level` is `Some(0)`, then it is an L0 compaction.
    pub upper_level: Option<usize>,
    pub upper_level_sst_ids: Vec<usize>,
    pub lower_level: usize,
    pub lower_level_sst_ids: Vec<usize>,
    pub is_lower_level_bottom_level: bool,
}

pub struct SimpleLeveledCompactionController {
    options: SimpleLeveledCompactionOptions,
}

/// Level `i` is non-empty and the level below it holds fewer tables, in
/// percent of its own, than the ratio asks for.
pub open spec fn simple_level_triggers(s: LsmStorageState, ratio: usize, i: int) -> bool {
    &&& s.level(i).len() != 0
    &&& s.level(i + 1).len() * 100 / s.level(i).len() < ratio
}

/// The first level, from `i` on, that triggers; `levels.len() - 1` if none does.
pub open spec fn simple_scan(s: LsmStorageState, ratio: usize, i: int) -> int
    decreases s.levels@.len() - 1 - i,
{
    if i < 0 || i >= s.levels@.len() - 1 {
        s.levels@.len() - 1
    } else if simple_level_triggers(s, ratio, i) {
        i
    } else {
        simple_scan(s, ratio, i + 1)
    }
}

pub proof fn lemma_simple_scan(s: LsmStorageState, ratio: usize, i: int)
    requires
        0 <= i <= s.levels@.len() - 1,
    ensures
        i <= simple_scan(s, ratio, i) <= s.levels@.len() - 1,
        simple_scan(s, ratio, i) < s.levels@.len() - 1 ==> simple_level_triggers(
            s,
            ratio,
            simple_scan(s, ratio, i),
        ),
        forall|k: int| i <= k < simple_scan(s, ratio, i) ==> !simple_level_triggers(s, ratio, k),
    decreases s.levels@.len() - 1 - i,
{
    if i < s.levels@.len() - 1 && !simple_level_triggers(s, ratio, i) {
        lemma_simple_scan(s, ratio, i + 1);
    }
}

/// The state has a first level, and no level's table count overflows when
/// taken in percent.
pub open spec fn simple_can_generate(s: LsmStorageState) -> bool {
    &&& s.levels@.len() >= 1
    &&& forall|i: int|
        #![trigger s.level(i)]
        1 <= i < s.levels@.len() ==> s.level(i).len() * 100 <= usize::MAX
}

/// The task that simple leveled compaction plans for the state: level 0 into
/// level 1 once level 0 holds enough tables; otherwise the first level that
/// triggers, into the level below it; otherwise none.
pub open spec fn simple_generated(
    s: LsmStorageState,
    o: SimpleLeveledCompactionOptions,
    r: Option<SimpleLeveledCompactionTask>,
) -> bool {
    let n = s.levels@.len();
    let j = simple_scan(s, o.size_ratio_percent, 0);
    if s.l0_sstables@.len() >= o.level0_file_num_compaction_trigger {
        r matches Some(t) && t.is(Some(0), s.l0_sstables@, 1, s.level(0), false)
    } else if j < n - 1 {
        r matches Some(t) && t.is(Some((j + 1) as usize), s.level(j), j + 2, s.level(j + 1), j == n - 2)
    } else {
        r is None
    }
}

/// The task's levels lie within the state.
pub open spec fn simple_can_apply(s: LsmStorageState, task: SimpleLeveledCompactionTask) -> bool {
    task.upper_level matches Some(u) ==> if u == 0 {
        s.levels@.len() >= 1
    } else {
        &&& u - 1 < s.levels@.len()
        &&& 1 <= task.lower_level <= s.levels@.len()
    }
}

/// The state and the tables to delete after the task's output is applied.
pub open spec fn simple_applied(
    s: LsmStorageState,
    task: SimpleLeveledCompactionTask,
    output: Seq<usize>,
    r: (LsmStorageState, Vec<usize>),
) -> bool {
    let (ns, to_delete) = r;
    let upper = task.upper_level_sst_ids@;
    let lower = task.lower_level_sst_ids@;
    &&& to_delete@ == upper + lower
    &&& ns.sstables@ == s.sstables@
    &&& ns.l0_sstables@ == if task.upper_level == Some(0usize) {
        without(s.l0_sstables@, upper)
    } else {
        s.l0_sstables@
    }
    &&& ns.levels_view() == match task.upper_level {
        None => s.levels_view(),
        Some(u) => if u == 0 {
            s.levels_view().update(0, (s.levels_view()[0].0, output))
        } else {
            let cleared = s.levels_view().update(
                u - 1,
                (s.levels_view()[u - 1].0, Seq::<usize>::empty()),
            );
            cleared.update(task.lower_level - 1, (cleared[task.lower_level - 1].0, output))
        },
    }
}

/// Applying a task that the planner made, even to a state that has moved on
/// since (with the same number of levels), merges what the task names: a
/// level-0 task leaves in level 0 exactly the tables that it did not merge
/// (those flushed meanwhile, in order) and makes level 1 the output; any
/// other task empties its upper level and makes its lower level the output.
/// The tables to delete are the merged ones.
pub proof fn law_simple_plan_then_apply(
    s: LsmStorageState,
    o: SimpleLeveledCompactionOptions,
    task: SimpleLeveledCompactionTask,
    now: LsmStorageState,
    output: Seq<usize>,
    r: (LsmStorageState, Vec<usize>),
)
    requires
        simple_generated(s, o, Some(task)),
        simple_applied(now, task, output, r),
        now.levels@.len() == s.levels@.len(),
        now.levels@.len() >= 1,
    ensures
        r.1@ == task.upper_level_sst_ids@ + task.lower_level_sst_ids@,
        task.upper_level == Some(0usize) ==> {
            &&& r.0.level(0) == output
            &&& r.0.l0_sstables@ == without(now.l0_sstables@, task.upper_level_sst_ids@)
            &&& forall|id: usize|
                #[trigger] r.0.l0_sstables@.contains(id) <==> now.l0_sstables@.contains(id)
                    && !task.upper_level_sst_ids@.contains(id)
        },
        task.upper_level != Some(0usize) ==> {
            let u = task.upper_level->0 as int;
            &&& r.0.level(u - 1) == Seq::<usize>::empty()
            &&& r.0.level(u) == output
            &&& r.0.l0_sstables@ == now.l0_sstables@
        },
{
    lemma_without(now.l0_sstables@, task.upper_level_sst_ids@);
    lemma_simple_scan(s, o.size_ratio_percent, 0);
}

/// Once level 0 holds as many tables as its trigger, the planner merges all
/// of level 0, in order, into the first level, whatever the other levels
/// hold.
pub proof fn law_simple_level0_first(
    s: LsmStorageState,
    o: SimpleLeveledCompactionOptions,
    r: Option<SimpleLeveledCompactionTask>,
)
    requires
        simple_generated(s, o, r),
        s.l0_sstables@.len() >= o.level0_file_num_compaction_trigger,
    ensures
        r matches Some(t) && t.upper_level == Some(0usize) && t.upper_level_sst_ids@ == s.l0_sstables@
            && t.lower_level == 1 && t.lower_level_sst_ids@ == s.level(0),
{
}

/// Below its level-0 trigger, the planner merges the first level that is
/// not empty and whose next level holds fewer tables, in percent of its own
/// (an empty next level counts as none), than the ratio asks for: when level
/// `i`, above the last, is such a level, the task merges some level `j` no
/// later than `i` into the level below it, level `j` passes the same test,
/// and no level before `j` does.
pub proof fn law_simple_plans_first_small_level(
    s: LsmStorageState,
    o: SimpleLeveledCompactionOptions,
    r: Option<SimpleLeveledCompactionTask>,
    i: int,
)
    requires
        simple_generated(s, o, r),
        s.l0_sstables@.len() < o.level0_file_num_compaction_trigger,
        0 <= i < s.levels@.len() - 1,
        s.level(i).len() > 0,
        s.level(i + 1).len() * 100 / s.level(i).len() < o.size_ratio_percent,
    ensures
        r matches Some(t) && exists|j: int|
            {
                &&& 0 <= j <= i
                &&& t.upper_level == Some((j + 1) as usize)
                &&& t.upper_level_sst_ids@ == #[trigger] s.level(j)
                &&& t.lower_level == j + 2
                &&& t.lower_level_sst_ids@ == s.level(j + 1)
                &&& t.is_lower_level_bottom_level == (j == s.levels@.len() - 2)
                &&& s.level(j).len() > 0
                &&& s.level(j + 1).len() * 100 / s.level(j).len() < o.size_ratio_percent
                &&& forall|m: int|
                    0 <= m < j ==> !(s.level(m).len() > 0 && #[trigger] s.level(m + 1).len() * 100 / s.level(
                        m,
                    ).len() < o.size_ratio_percent)
            },
{
    lemma_simple_scan(s, o.size_ratio_percent, 0);
    let j = simple_scan(s, o.size_ratio_percent, 0);
    assert(simple_level_triggers(s, o.size_ratio_percent, i));
    assert(j <= i);
    assert forall|m: int|
        0 <= m < j implies !(s.level(m).len() > 0 && #[trigger] s.level(m + 1).len() * 100 / s.level(
        m,
    ).len() < o.size_ratio_percent) by {
        assert(!simple_level_triggers(s, o.size_ratio_percent, m));
    }
}

/// Below its level-0 trigger, the planner plans nothing when no level above
/// the last is both non-empty and larger, against the level below it, than
/// the ratio allows.
pub proof fn law_simple_plans_nothing_when_balanced(
    s: LsmStorageState,
    o: SimpleLeveledCompactionOptions,
    r: Option<SimpleLeveledCompactionTask>,
)
    requires
        simple_generated(s, o, r),
        s.levels@.len() >= 1,
        s.l0_sstables@.len() < o.level0_file_num_compaction_trigger,
        forall|m: int|
            0 <= m < s.levels@.len() - 1 ==> !(s.level(m).len() > 0 && #[trigger] s.level(m + 1).len()
                * 100 / s.level(m).len() < o.size_ratio_percent),
    ensures
        r is None,
{
    lemma_simple_scan(s, o.size_ratio_percent, 0);
    let j = simple_scan(s, o.size_ratio_percent, 0);
    if j < s.levels@.len() - 1 {
        assert(simple_level_triggers(s, o.size_ratio_percent, j));
        assert(!(s.level(j).len() > 0 && s.level(j + 1).len() * 100 / s.level(j).len() < o.size_ratio_percent));
    }
}

impl SimpleLeveledCompactionTask {
    /// The task has the given parts.
    pub open spec fn is(
        self,
        upper_level: Option<usize>,
        upper_ids: Seq<usize>,
        lower_level: int,
        lower_ids: Seq<usize>,
        bottom: bool,
    ) -> bool {
        &&& self.upper_level == upper_level
        &&& self.upper_level_sst_ids@ == upper_ids
        &&& self.lower_level == lower_level
        &&& self.lower_level_sst_ids@ == lower_ids
        &&& self.is_lower_level_bottom_level == bottom
    }
}

impl SimpleLeveledCompactionController {
    pub closed spec fn options_view(&self) -> SimpleLeveledCompactionOptions {
        self.options
    }

    pub fn new(options: SimpleLeveledCompactionOptions) -> (r: Self)
        ensures
            r.options_view() == options,
    {
        Self { options }
    }

    /// Generates a compaction task.
    ///
    /// Returns `None` if no compaction needs to be scheduled. The order of SSTs in the compaction task id vector matters.
    pub fn generate_compaction_task(&self, snapshot: &LsmStorageState) -> (r: Option<
        SimpleLeveledCompactionTask,
    >)
        requires
            simple_can_generate(*snapshot),
        ensures
            simple_generated(*snapshot, self.options_view(), r),
    {
        let ghost s = *snapshot;
        let ghost ratio = self.options.size_ratio_percent;
        if snapshot.l0_sstables.len() >= self.options.level0_file_num_compaction_trigger {
            return Some(
                SimpleLeveledCompactionTask {
                    upper_level: Some(0),
                    upper_level_sst_ids: copy_ids(&snapshot.l0_sstables),
                    lower_level: 1,
                    lower_level_sst_ids: copy_ids(&snapshot.levels[0].1),
                    is_lower_level_bottom_level: false,
                },
            );
        }
        proof {
            lemma_simple_scan(s, ratio, 0);
        }
        let n = snapshot.levels.len();
        let mut i: usize = 0;
        while i < n - 1
            invariant
                n == s.levels@.len(),
                n >= 1,
                ratio == self.options.size_ratio_percent,
                s == *snapshot,
                s.l0_sstables@.len() < self.options.level0_file_num_compaction_trigger,
                0 <= i <= simple_scan(s, ratio, 0),
                simple_scan(s, ratio, i as int) == simple_scan(s, ratio, 0),
                forall|k: int|
                    #![trigger s.level(k)]
                    1 <= k < n ==> s.level(k).len() * 100 <= usize::MAX,
            decreases n - 1 - i,
        {
            proof {
                lemma_simple_scan(s, ratio, i as int);
                lemma_simple_scan(s, ratio, 0);
                assert(s.level(i as int) == snapshot.levels@[i as int].1@);
                assert(s.level(i + 1) == snapshot.levels@[i + 1].1@);
            }
            let upper_len = snapshot.levels[i].1.len();
            if upper_len == 0 {
                assert(!simple_level_triggers(s, ratio, i as int));
                assert(simple_scan(s, ratio, i as int) == simple_scan(s, ratio, i + 1));
                i = i + 1;
                continue;
            }
            let lower_len = snapshot.levels[i + 1].1.len();
            assert(s.level(i + 1).len() * 100 <= usize::MAX);
            if lower_len * 100 / upper_len < self.options.size_ratio_percent {
                assert(simple_level_triggers(s, ratio, i as int));
                assert(simple_scan(s, ratio, i as int) == i);
                return Some(
                    SimpleLeveledCompactionTask {
                        upper_level: Some(i + 1),
                        upper_level_sst_ids: copy_ids(&snapshot.levels[i].1),
                        lower_level: i + 2,
                        lower_level_sst_ids: copy_ids(&snapshot.levels[i + 1].1),
                        is_lower_level_bottom_level: i == n - 2,
                    },
                );
            }
            assert(!simple_level_triggers(s, ratio, i as int));
            assert(simple_scan(s, ratio, i as int) == simple_scan(s, ratio, i + 1));
            i = i + 1;
        }
        None
    }

    /// Apply the compaction result.
    ///
    /// The compactor will call this function with the compaction task and the list of SST ids generated. This function applies the
    /// result and generates a new LSM state. The functions should only change `l0_sstables` and `levels` without changing memtables
    /// and `sstables` hash map. Returns the new state and the ids of the tables to delete.
    pub fn apply_compaction_result(
        &self,
        snapshot: &LsmStorageState,
        task: &SimpleLeveledCompactionTask,
        output: &[usize],
    ) -> (r: (LsmStorageState, Vec<usize>))
        requires
            simple_can_apply(*snapshot, *task),
        ensures
            simple_applied(*snapshot, *task, output@, r),
    {
        let mut new_state = snapshot.clone_state();
        assert(new_state.levels@.len() == new_state.levels_view().len());
        if let Some(upper_level) = task.upper_level {
            if upper_level == 0 {
                new_state.l0_sstables = ids_without(&new_state.l0_sstables, &task.upper_level_sst_ids);
                let id0 = new_state.levels[0].0;
                new_state.levels.set(0, (id0, slice_to_vec(output)));
            } else {
                let idu = new_state.levels[upper_level - 1].0;
                new_state.levels.set(upper_level - 1, (idu, Vec::new()));
                let idl = new_state.levels[task.lower_level - 1].0;
                new_state.levels.set(task.lower_level - 1, (idl, slice_to_vec(output)));
            }
        }
        let mut to_delete = copy_ids(&task.upper_level_sst_ids);
        let mut lower = copy_ids(&task.lower_level_sst_ids);
        to_delete.append(&mut lower);
        proof {
            assert(new_state.levels_view() =~= match task.upper_level {
                None => snapshot.levels_view(),
                Some(u) => if u == 0 {
                    snapshot.levels_view().update(0, (snapshot.levels_view()[0].0, output@))
                } else {
                    let cleared = snapshot.levels_view().update(
                        u - 1,
                        (snapshot.levels_view()[u - 1].0, Seq::<usize>::empty()),
                    );
                    cleared.update(
                        task.lower_level - 1,
                        (cleared[task.lower_level - 1].0, output@),
                    )
                },
            });
        }
        (new_state, to_delete)
    }
}

} // verus!
