//! Compaction planning: which tables to merge, and how the tree looks once
//! they are merged.
use crate::lsm_storage::LsmStorageState;
use vstd::prelude::*;

pub mod output;
pub mod install;
pub mod leveled;
pub mod simple_leveled;
pub mod tiered;

pub use output::build_ssts_from_iter;
pub use leveled::{LeveledCompactionController, LeveledCompactionOptions, LeveledCompactionTask};
pub use simple_leveled::{
    SimpleLeveledCompactionController, SimpleLeveledCompactionOptions, SimpleLeveledCompactionTask,
};
pub use tiered::{TieredCompactionController, TieredCompactionOptions, TieredCompactionTask};

use leveled::{leveled_applied, leveled_can_apply, leveled_can_generate, leveled_generated};
use simple_leveled::{simple_applied, simple_can_apply, simple_can_generate, simple_generated};
use tiered::{tiered_applied, tiered_can_generate, tiered_generated};

verus! {

pub enum CompactionTask {
    Leveled(LeveledCompactionTask),
    Tiered(TieredCompactionTask),
    Simple(SimpleLeveledCompactionTask),
    ForceFullCompaction { l0_sstables: Vec<usize>, l1_sstables: Vec<usize> },
}

impl CompactionTask {
    /// Whether the task writes into the bottom level, where deletions can be dropped.
    pub open spec fn to_bottom(&self) -> bool {
        match self {
            CompactionTask::ForceFullCompaction { .. } => true,
            CompactionTask::Leveled(task) => task.is_lower_level_bottom_level,
            CompactionTask::Simple(task) => task.is_lower_level_bottom_level,
            CompactionTask::Tiered(task) => task.bottom_tier_included,
        }
    }

    fn compact_to_bottom_level(&self) -> (r: bool)
        ensures
            r == self.to_bottom(),
    {
        match self {
            CompactionTask::ForceFullCompaction { .. } => true,
            CompactionTask::Leveled(task) => task.is_lower_level_bottom_level,
            CompactionTask::Simple(task) => task.is_lower_level_bottom_level,
            CompactionTask::Tiered(task) => task.bottom_tier_included,
        }
    }
}

pub enum CompactionController {
    Leveled(LeveledCompactionController),
    Tiered(TieredCompactionController),
    Simple(SimpleLeveledCompactionController),
    NoCompaction,
}

pub enum CompactionOptions {
    /// Leveled compaction with partial compaction and dynamic level support.
    Leveled(LeveledCompactionOptions),
    /// Tiered compaction.
    Tiered(TieredCompactionOptions),
    /// Simple leveled compaction.
    Simple(SimpleLeveledCompactionOptions),
    /// No compaction: always flush to level 0.
    NoCompaction,
}

impl CompactionController {
    /// The controller plans compactions and the state meets what its planner reads.
    pub open spec fn can_generate(&self, s: LsmStorageState) -> bool {
        match self {
            CompactionController::Leveled(c) => leveled_can_generate(s, c.options_view()),
            CompactionController::Simple(c) => simple_can_generate(s),
            CompactionController::Tiered(c) => tiered_can_generate(s, c.options_view()),
            CompactionController::NoCompaction => false,
        }
    }

    /// `r` is the task that the controller's planner gives for the state,
    /// wrapped in the controller's kind of task.
    pub open spec fn generated(&self, s: LsmStorageState, r: Option<CompactionTask>) -> bool {
        match self {
            CompactionController::Leveled(c) => match r {
                None => leveled_generated(s, c.options_view(), None),
                Some(CompactionTask::Leveled(t)) => leveled_generated(s, c.options_view(), Some(t)),
                Some(_) => false,
            },
            CompactionController::Simple(c) => match r {
                None => simple_generated(s, c.options_view(), None),
                Some(CompactionTask::Simple(t)) => simple_generated(s, c.options_view(), Some(t)),
                Some(_) => false,
            },
            CompactionController::Tiered(c) => match r {
                None => tiered_generated(s, c.options_view(), None),
                Some(CompactionTask::Tiered(t)) => tiered_generated(s, c.options_view(), Some(t)),
                Some(_) => false,
            },
            CompactionController::NoCompaction => false,
        }
    }

    /// The task is of the controller's kind and fits the state.
    pub open spec fn can_apply(
        &self,
        s: LsmStorageState,
        task: CompactionTask,
        output: Seq<usize>,
        in_recovery: bool,
    ) -> bool {
        match (self, task) {
            (CompactionController::Leveled(_), CompactionTask::Leveled(t)) => leveled_can_apply(
                s,
                t,
                output,
                in_recovery,
            ),
            (CompactionController::Simple(_), CompactionTask::Simple(t)) => simple_can_apply(s, t),
            (CompactionController::Tiered(_), CompactionTask::Tiered(t)) => t.tiers@.len() > 0
                && output.len() > 0,
            _ => false,
        }
    }

    /// `r` is what the controller's kind of compaction makes of the state
    /// once the task's output is applied.
    pub open spec fn applied(
        &self,
        s: LsmStorageState,
        task: CompactionTask,
        output: Seq<usize>,
        in_recovery: bool,
        r: (LsmStorageState, Vec<usize>),
    ) -> bool {
        match (self, task) {
            (CompactionController::Leveled(_), CompactionTask::Leveled(t)) => leveled_applied(
                s,
                t,
                output,
                in_recovery,
                r,
            ),
            (CompactionController::Simple(_), CompactionTask::Simple(t)) => simple_applied(
                s,
                t,
                output,
                r,
            ),
            (CompactionController::Tiered(_), CompactionTask::Tiered(t)) => tiered_applied(
                s,
                t,
                output,
                r,
            ),
            _ => false,
        }
    }

    /// Plans a compaction with the controller's planner.
    pub fn generate_compaction_task(&self, snapshot: &LsmStorageState) -> (r: Option<CompactionTask>)
        requires
            self.can_generate(*snapshot),
        ensures
            self.generated(*snapshot, r),
    {
        match self {
            CompactionController::Leveled(ctrl) => match ctrl.generate_compaction_task(snapshot) {
                Some(t) => Some(CompactionTask::Leveled(t)),
                None => None,
            },
            CompactionController::Simple(ctrl) => match ctrl.generate_compaction_task(snapshot) {
                Some(t) => Some(CompactionTask::Simple(t)),
                None => None,
            },
            CompactionController::Tiered(ctrl) => match ctrl.generate_compaction_task(snapshot) {
                Some(t) => Some(CompactionTask::Tiered(t)),
                None => None,
            },
            CompactionController::NoCompaction => {
                assert(false);
                None
            },
        }
    }

    /// Applies a compaction result with the controller's kind of compaction.
    pub fn apply_compaction_result(
        &self,
        snapshot: &LsmStorageState,
        task: &CompactionTask,
        output: &[usize],
        in_recovery: bool,
    ) -> (r: (LsmStorageState, Vec<usize>))
        requires
            self.can_apply(*snapshot, *task, output@, in_recovery),
        ensures
            self.applied(*snapshot, *task, output@, in_recovery, r),
    {
        match (self, task) {
            (CompactionController::Leveled(ctrl), CompactionTask::Leveled(task)) => {
                ctrl.apply_compaction_result(snapshot, task, output, in_recovery)
            },
            (CompactionController::Simple(ctrl), CompactionTask::Simple(task)) => {
                ctrl.apply_compaction_result(snapshot, task, output)
            },
            (CompactionController::Tiered(ctrl), CompactionTask::Tiered(task)) => {
                ctrl.apply_compaction_result(snapshot, task, output)
            },
            _ => {
                assert(false);
                (snapshot.clone_state(), Vec::new())
            },
        }
    }

    /// Whether flushed memtables go to level 0 (rather than forming a new tier).
    pub fn flush_to_l0(&self) -> (r: bool)
        ensures
            r == !(self is Tiered),
    {
        match self {
            CompactionController::Leveled(_) | CompactionController::Simple(_)
            | CompactionController::NoCompaction => true,
            CompactionController::Tiered(_) => false,
        }
    }
}

/// The controller plans as its planner does: a task it gives is of its own
/// kind and is the planner's task for the state, and it gives none exactly
/// when its planner gives none.
pub proof fn law_controller_plans_with_its_planner(
    ctrl: CompactionController,
    s: LsmStorageState,
    r: Option<CompactionTask>,
)
    requires
        ctrl.can_generate(s),
        ctrl.generated(s, r),
    ensures
        ctrl matches CompactionController::Leveled(c) ==> match r {
            None => leveled_generated(s, c.options_view(), None),
            Some(t) => t matches CompactionTask::Leveled(lt) && leveled_generated(s, c.options_view(), Some(lt)),
        },
        ctrl matches CompactionController::Simple(c) ==> match r {
            None => simple_generated(s, c.options_view(), None),
            Some(t) => t matches CompactionTask::Simple(st) && simple_generated(s, c.options_view(), Some(st)),
        },
        ctrl matches CompactionController::Tiered(c) ==> match r {
            None => tiered_generated(s, c.options_view(), None),
            Some(t) => t matches CompactionTask::Tiered(tt) && tiered_generated(s, c.options_view(), Some(tt)),
        },
        !(ctrl is NoCompaction),
{
}

/// The controller applies a result as the compaction of the task's kind
/// does, and only to a task of its own kind; for simple leveled and tiered
/// compaction the result does not depend on whether the tree is being
/// recovered.
pub proof fn law_controller_applies_its_kind(
    ctrl: CompactionController,
    s: LsmStorageState,
    task: CompactionTask,
    output: Seq<usize>,
    in_recovery: bool,
    r: (LsmStorageState, Vec<usize>),
)
    requires
        ctrl.can_apply(s, task, output, in_recovery),
        ctrl.applied(s, task, output, in_recovery, r),
    ensures
        ctrl is Leveled <==> task is Leveled,
        ctrl is Simple <==> task is Simple,
        ctrl is Tiered <==> task is Tiered,
        task matches CompactionTask::Leveled(t) ==> leveled_applied(s, t, output, in_recovery, r),
        task matches CompactionTask::Simple(t) ==> simple_applied(s, t, output, r),
        task matches CompactionTask::Tiered(t) ==> tiered_applied(s, t, output, r),
        !(task is Leveled) ==> ctrl.can_apply(s, task, output, !in_recovery) && ctrl.applied(
            s,
            task,
            output,
            !in_recovery,
            r,
        ),
{
}

} // verus!
