//! Tiered compaction: each flush adds a tier; tiers merge when the upper
//! tiers grow too large against the last one, when a tier grows too large
//! against all the tiers above it, or, failing both, as a major compaction.
use crate::lsm_storage::{copy_level_prefix, copy_levels, levels_of, LsmStorageState};
use vstd::prelude::*;
use vstd::slice::slice_to_vec;

verus! {

pub struct TieredCompactionTask {
    pub tiers: Vec<(usize, Vec<usize>)>,
    pub bottom_tier_included: bool,
}

pub struct TieredCompactionOptions {
    pub num_tiers: usize,
    pub max_size_amplification_percent: usize,
    pub size_ratio: usize,
    pub min_merge_width: usize,
    pub max_merge_width: Option<usize>,
}

pub struct TieredCompactionController {
    options: TieredCompactionOptions,
}

/// The number of tables in the first `k` tiers.
pub open spec fn tables_above(s: LsmStorageState, k: int) -> int
    decreases k,
{
    if k <= 0 {
        0
    } else {
        tables_above(s, k - 1) + s.level(k - 1).len()
    }
}

/// The space amplification trigger: the tiers above the last one hold, in
/// percent of the last tier, at least the allowed amplification (or the last
/// tier is empty while the others are not).
pub open spec fn amplification_triggers(s: LsmStorageState, o: TieredCompactionOptions) -> bool {
    let n = s.levels@.len() as int;
    let engine = tables_above(s, n - 1);
    let last = s.level(n - 1).len() as int;
    (last == 0 && engine > 0) || (last != 0 && engine * 100 / last >= o.max_size_amplification_percent)
}

/// The size ratio trigger at tier `i`: the tiers above it are not empty, it
/// is larger than all of them together by more than the ratio, and merging
/// the tiers above it is wide enough.
pub open spec fn ratio_triggers(s: LsmStorageState, o: TieredCompactionOptions, i: int) -> bool {
    let prev = tables_above(s, i);
    &&& prev != 0
    &&& (s.level(i).len() as int) * 100 / prev > 100 + o.size_ratio
    &&& i >= o.min_merge_width
}

/// The first tier, from `i` on, at which the size ratio triggers; the number
/// of tiers if none does.
pub open spec fn ratio_scan(s: LsmStorageState, o: TieredCompactionOptions, i: int) -> int
    decreases s.levels@.len() - i,
{
    if i < 0 || i >= s.levels@.len() {
        s.levels@.len() as int
    } else if ratio_triggers(s, o, i) {
        i
    } else {
        ratio_scan(s, o, i + 1)
    }
}

/// How many tiers a major compaction merges.
pub open spec fn major_width(s: LsmStorageState, o: TieredCompactionOptions) -> int {
    match o.max_merge_width {
        Some(w) => w as int,
        None => s.levels@.len() as int,
    }
}

proof fn lemma_tables_above_mono(s: LsmStorageState, i: int, k: int)
    requires
        0 <= i <= k,
    ensures
        tables_above(s, i) <= tables_above(s, k),
    decreases k - i,
{
    if i < k {
        lemma_tables_above_mono(s, i, k - 1);
    }
}

proof fn lemma_ratio_scan(s: LsmStorageState, o: TieredCompactionOptions, i: int)
    requires
        0 <= i <= s.levels@.len(),
    ensures
        i <= ratio_scan(s, o, i) <= s.levels@.len(),
        ratio_scan(s, o, i) < s.levels@.len() ==> ratio_triggers(s, o, ratio_scan(s, o, i)),
    decreases s.levels@.len() - i,
{
    if i < s.levels@.len() && !ratio_triggers(s, o, i) {
        lemma_ratio_scan(s, o, i + 1);
    }
}

proof fn lemma_ratio_scan_first(s: LsmStorageState, o: TieredCompactionOptions, i: int)
    requires
        0 <= i <= s.levels@.len(),
    ensures
        forall|m: int| i <= m < ratio_scan(s, o, i) ==> !ratio_triggers(s, o, m),
    decreases s.levels@.len() - i,
{
    if i < s.levels@.len() && !ratio_triggers(s, o, i) {
        lemma_ratio_scan_first(s, o, i + 1);
    }
}

/// The ids of the tiers.
pub open spec fn tier_ids(tiers: Seq<(usize, Seq<usize>)>) -> Seq<usize> {
    tiers.map_values(|t: (usize, Seq<usize>)| t.0)
}

/// The tables of all the tiers, tier after tier.
pub open spec fn tables_of(tiers: Seq<(usize, Seq<usize>)>) -> Seq<usize>
    decreases tiers.len(),
{
    if tiers.len() == 0 {
        Seq::empty()
    } else {
        tables_of(tiers.drop_last()) + tiers.last().1
    }
}

/// The first position, from `p` on, of the tier with id `id`; the number of
/// levels if there is none.
pub open spec fn find_tier(levels: Seq<(usize, Seq<usize>)>, id: usize, p: int) -> int
    decreases levels.len() - p,
{
    if p < 0 || p >= levels.len() {
        levels.len() as int
    } else if levels[p].0 == id {
        p
    } else {
        find_tier(levels, id, p + 1)
    }
}

/// The position of the tier with id `id`, or 0 if there is none.
pub open spec fn position_of_tier(levels: Seq<(usize, Seq<usize>)>, id: usize) -> int {
    let p = find_tier(levels, id, 0);
    if p < levels.len() {
        p
    } else {
        0
    }
}

/// The state has enough tiers to plan over without dividing by zero or
/// overflowing, and a major compaction merges no more tiers than there are.
pub open spec fn tiered_can_generate(s: LsmStorageState, o: TieredCompactionOptions) -> bool {
    let n = s.levels@.len() as int;
    n >= o.num_tiers ==> {
        &&& n >= 1
        &&& !(s.level(n - 1).len() == 0 && tables_above(s, n - 1) == 0)
        &&& tables_above(s, n) * 100 <= usize::MAX
        &&& !amplification_triggers(s, o) && tables_above(s, n - 1) != 0 ==> o.size_ratio
            <= usize::MAX - 100
        &&& !amplification_triggers(s, o) && ratio_scan(s, o, 0) == n ==> major_width(s, o) <= n
    }
}

/// The task that tiered compaction plans for the state: none with too few
/// tiers; all tiers on space amplification; the tiers above the first tier
/// that triggers the size ratio; otherwise the widest allowed major
/// compaction.
pub open spec fn tiered_generated(
    s: LsmStorageState,
    o: TieredCompactionOptions,
    r: Option<TieredCompactionTask>,
) -> bool {
    let n = s.levels@.len() as int;
    let j = ratio_scan(s, o, 0);
    let m = major_width(s, o);
    if n < o.num_tiers {
        r is None
    } else if amplification_triggers(s, o) {
        r matches Some(t) && levels_of(t.tiers@) == s.levels_view() && t.bottom_tier_included
    } else if j < n {
        r matches Some(t) && levels_of(t.tiers@) == s.levels_view().subrange(0, j)
            && !t.bottom_tier_included
    } else {
        r matches Some(t) && levels_of(t.tiers@) == s.levels_view().subrange(0, m)
            && t.bottom_tier_included == (m >= n)
    }
}

/// The tables of the tiers above the last one number, together, at least
/// the allowed amplification in percent of the last tier's tables, or the
/// last tier is empty and the others are not.
pub open spec fn space_amplified(s: LsmStorageState, o: TieredCompactionOptions) -> bool {
    let n = s.levels@.len() as int;
    let above = tables_of(s.levels_view().subrange(0, n - 1)).len() as int;
    let last = s.level(n - 1).len() as int;
    (last == 0 && above > 0) || (last > 0 && above * 100 / last >= o.max_size_amplification_percent)
}

/// With enough tiers, the planner merges all of them, bottom tier included,
/// when the tables of the tiers above the last one number, together, at
/// least the allowed amplification in percent of the last tier's tables,
/// or when the last tier is empty and the others are not.
pub proof fn law_tiered_space_amplification(
    s: LsmStorageState,
    o: TieredCompactionOptions,
    r: Option<TieredCompactionTask>,
)
    requires
        tiered_generated(s, o, r),
        s.levels@.len() >= o.num_tiers,
        s.levels@.len() >= 1,
        space_amplified(s, o),
    ensures
        r matches Some(t) && levels_of(t.tiers@) == s.levels_view() && t.bottom_tier_included,
{
    lemma_tables_above_count(s, s.levels@.len() - 1);
}

/// Tier `i` triggers the size ratio: the tiers before it hold tables, it
/// holds more than `100 + size_ratio` percent of them, and at least
/// `min_merge_width` tiers stand before it. Stated over the tables of those
/// tiers.
pub open spec fn grows_past_ratio(s: LsmStorageState, o: TieredCompactionOptions, i: int) -> bool {
    let before = tables_of(s.levels_view().subrange(0, i)).len() as int;
    &&& before > 0
    &&& (s.level(i).len() as int) * 100 / before > 100 + o.size_ratio
    &&& i >= o.min_merge_width
}

/// Without space amplification, the planner merges the tiers before the
/// first tier that grows past the size ratio, leaving the bottom tier out:
/// when tier `i` does, the task is the tiers before some tier `j` no later
/// than `i` that does, and no tier before `j` does.
pub proof fn law_tiered_size_ratio(
    s: LsmStorageState,
    o: TieredCompactionOptions,
    r: Option<TieredCompactionTask>,
    i: int,
)
    requires
        tiered_generated(s, o, r),
        s.levels@.len() >= o.num_tiers,
        s.levels@.len() >= 1,
        !space_amplified(s, o),
        0 <= i < s.levels@.len(),
        grows_past_ratio(s, o, i),
    ensures
        r matches Some(t) && exists|j: int|
            {
                &&& 0 <= j <= i
                &&& levels_of(t.tiers@) == #[trigger] s.levels_view().subrange(0, j)
                &&& !t.bottom_tier_included
                &&& grows_past_ratio(s, o, j)
                &&& forall|m: int| 0 <= m < j ==> !grows_past_ratio(s, o, m)
            },
{
    let n = s.levels@.len() as int;
    lemma_tables_above_count(s, n - 1);
    lemma_ratio_scan(s, o, 0);
    lemma_ratio_scan_first(s, o, 0);
    lemma_tables_above_count(s, i);
    let j = ratio_scan(s, o, 0);
    assert(ratio_triggers(s, o, i));
    assert(j <= i);
    lemma_tables_above_count(s, j);
    assert forall|m: int| 0 <= m < j implies !grows_past_ratio(s, o, m) by {
        lemma_tables_above_count(s, m);
        assert(!ratio_triggers(s, o, m));
    }
}

/// Without space amplification or a tier that grows past the size ratio,
/// the planner merges the first `max_merge_width` tiers (all of them when
/// no width is set), and includes the bottom tier exactly when that takes
/// every tier.
pub proof fn law_tiered_major(s: LsmStorageState, o: TieredCompactionOptions, r: Option<TieredCompactionTask>)
    requires
        tiered_generated(s, o, r),
        s.levels@.len() >= o.num_tiers,
        s.levels@.len() >= 1,
        !space_amplified(s, o),
        forall|m: int| 0 <= m < s.levels@.len() ==> !#[trigger] grows_past_ratio(s, o, m),
    ensures
        ({
            let w = match o.max_merge_width {
                Some(w) => w as int,
                None => s.levels@.len() as int,
            };
            r matches Some(t) && levels_of(t.tiers@) == s.levels_view().subrange(0, w)
                && t.bottom_tier_included == (w >= s.levels@.len())
        }),
{
    lemma_tables_above_count(s, s.levels@.len() - 1);
    lemma_ratio_scan(s, o, 0);
    let j = ratio_scan(s, o, 0);
    if j < s.levels@.len() {
        lemma_tables_above_count(s, j);
        assert(ratio_triggers(s, o, j));
        assert(!grows_past_ratio(s, o, j));
    }
}

/// The tables of the first `k` tiers number `tables_above(s, k)`.
proof fn lemma_tables_above_count(s: LsmStorageState, k: int)
    requires
        0 <= k <= s.levels@.len(),
    ensures
        tables_of(s.levels_view().subrange(0, k)).len() == tables_above(s, k),
    decreases k,
{
    if k > 0 {
        lemma_tables_above_count(s, k - 1);
        let x = s.levels_view().subrange(0, k);
        assert(x.drop_last() =~= s.levels_view().subrange(0, k - 1));
        assert(x.last() == s.levels_view()[k - 1]);
    } else {
        assert(s.levels_view().subrange(0, 0) =~= Seq::<(usize, Seq<usize>)>::empty());
    }
}

/// The state and the tables to delete after the task's output is applied.
pub open spec fn tiered_applied(
    s: LsmStorageState,
    task: TieredCompactionTask,
    output: Seq<usize>,
    r: (LsmStorageState, Vec<usize>),
) -> bool {
    let (ns, to_delete) = r;
    let tiers = levels_of(task.tiers@);
    let ids = tier_ids(tiers);
    let p = position_of_tier(s.levels_view(), ids[0]);
    &&& to_delete@ == tables_of(tiers)
    &&& ns.levels_view() == s.levels_view().insert(p, (output[0], output)).filter(
        |l: (usize, Seq<usize>)| !ids.contains(l.0),
    )
    &&& ns.l0_sstables@ == s.l0_sstables@
    &&& ns.sstables@ == s.sstables@
}

/// Applying a tiered task merges its tiers: none of them is left, every
/// other tier stays in order, and the output forms a new tier unless its id
/// is one of the merged tiers'. The tables to delete are those of the merged
/// tiers.
pub proof fn law_tiered_apply(
    now: LsmStorageState,
    task: TieredCompactionTask,
    output: Seq<usize>,
    r: (LsmStorageState, Vec<usize>),
)
    requires
        task.tiers@.len() > 0,
        output.len() > 0,
        tiered_applied(now, task, output, r),
    ensures
        r.1@ == tables_of(levels_of(task.tiers@)),
        forall|i: int|
            0 <= i < r.0.levels_view().len() ==> !tier_ids(levels_of(task.tiers@)).contains(
                #[trigger] r.0.levels_view()[i].0,
            ),
        forall|i: int|
            0 <= i < now.levels_view().len() && !tier_ids(levels_of(task.tiers@)).contains(
                #[trigger] now.levels_view()[i].0,
            ) ==> r.0.levels_view().contains(now.levels_view()[i]),
        !tier_ids(levels_of(task.tiers@)).contains(output[0]) ==> r.0.levels_view().contains(
            (output[0], output),
        ),
{
    let ids = tier_ids(levels_of(task.tiers@));
    let p = position_of_tier(now.levels_view(), ids[0]);
    lemma_find_tier(now.levels_view(), ids[0], 0);
    let inserted = now.levels_view().insert(p, (output[0], output));
    let keep = |l: (usize, Seq<usize>)| !ids.contains(l.0);
    assert forall|i: int| 0 <= i < r.0.levels_view().len() implies !ids.contains(
        #[trigger] r.0.levels_view()[i].0,
    ) by {
        inserted.lemma_filter_pred(keep, i);
    }
    assert forall|i: int|
        0 <= i < now.levels_view().len() && !ids.contains(
            #[trigger] now.levels_view()[i].0,
        ) implies r.0.levels_view().contains(now.levels_view()[i]) by {
        let j = if i < p {
            i
        } else {
            i + 1
        };
        assert(inserted[j] == now.levels_view()[i]);
        inserted.lemma_filter_contains(keep, j);
    }
    if !ids.contains(output[0]) {
        assert(inserted[p] == (output[0], output));
        inserted.lemma_filter_contains(keep, p);
    }
}

/// The search for a tier from `p` on finds its first position there.
proof fn lemma_find_tier_first(levels: Seq<(usize, Seq<usize>)>, id: usize, p: int, j: int)
    requires
        0 <= p <= j < levels.len(),
        levels[j].0 == id,
        forall|i: int| p <= i < j ==> (#[trigger] levels[i]).0 != id,
    ensures
        find_tier(levels, id, p) == j,
    decreases j - p,
{
    if p < j {
        lemma_find_tier_first(levels, id, p + 1, j);
    }
}

/// Applying a tiered task puts the output tier where the first merged tier
/// stood: with that tier first found at position `j`, the tiers are those
/// that stood before position `j` and were not merged, then the output tier,
/// then those that stood from position `j` on and were not merged. So every
/// tier that stood before the merged ones still stands before the output.
pub proof fn law_tiered_apply_keeps_place(
    now: LsmStorageState,
    task: TieredCompactionTask,
    output: Seq<usize>,
    j: int,
    r: (LsmStorageState, Vec<usize>),
)
    requires
        task.tiers@.len() > 0,
        output.len() > 0,
        0 <= j < now.levels_view().len(),
        now.levels_view()[j].0 == task.tiers@[0].0,
        forall|i: int| 0 <= i < j ==> (#[trigger] now.levels_view()[i]).0 != task.tiers@[0].0,
        forall|i: int| 0 <= i < task.tiers@.len() ==> (#[trigger] task.tiers@[i]).0 != output[0],
        tiered_applied(now, task, output, r),
    ensures
        ({
            let merged = |l: (usize, Seq<usize>)|
                !(exists|i: int| 0 <= i < task.tiers@.len() && (#[trigger] task.tiers@[i]).0 == l.0);
            r.0.levels_view() == now.levels_view().subrange(0, j).filter(merged) + seq![(output[0], output)]
                + now.levels_view().subrange(j, now.levels_view().len() as int).filter(merged)
        }),
{
    let lv = now.levels_view();
    let tiers = levels_of(task.tiers@);
    let ids = tier_ids(tiers);
    assert(ids[0] == task.tiers@[0].0);
    lemma_find_tier_first(lv, ids[0], 0, j);
    let x = (output[0], output);
    let keep = |l: (usize, Seq<usize>)| !ids.contains(l.0);
    let merged = |l: (usize, Seq<usize>)|
        !(exists|i: int| 0 <= i < task.tiers@.len() && (#[trigger] task.tiers@[i]).0 == l.0);
    assert forall|id: usize| ids.contains(id) <==> (exists|i: int|
        0 <= i < task.tiers@.len() && (#[trigger] task.tiers@[i]).0 == id) by {
        if ids.contains(id) {
            let i = choose|i: int| 0 <= i < ids.len() && ids[i] == id;
            assert(task.tiers@[i].0 == id);
        }
        if exists|i: int| 0 <= i < task.tiers@.len() && (#[trigger] task.tiers@[i]).0 == id {
            let i = choose|i: int| 0 <= i < task.tiers@.len() && (#[trigger] task.tiers@[i]).0 == id;
            assert(ids[i] == id);
        }
    }
    assert(keep =~= merged);
    let a = lv.subrange(0, j);
    let b = lv.subrange(j, lv.len() as int);
    assert(lv.insert(j, x) =~= a + seq![x] + b);
    Seq::filter_distributes_over_add(a + seq![x], b, keep);
    Seq::filter_distributes_over_add(a, seq![x], keep);
    assert(!ids.contains(output[0])) by {
        if ids.contains(output[0]) {
            let i = choose|i: int| 0 <= i < ids.len() && ids[i] == output[0];
            assert(task.tiers@[i].0 == output[0]);
        }
    }
    reveal(Seq::filter);
    assert(seq![x].filter(keep) =~= seq![x]) by {
        assert(seq![x].drop_last() =~= Seq::<(usize, Seq<usize>)>::empty());
    }
}

proof fn lemma_find_tier(levels: Seq<(usize, Seq<usize>)>, id: usize, p: int)
    requires
        0 <= p <= levels.len(),
    ensures
        p <= find_tier(levels, id, p) <= levels.len(),
    decreases levels.len() - p,
{
    if p < levels.len() && levels[p].0 != id {
        lemma_find_tier(levels, id, p + 1);
    }
}

impl TieredCompactionController {
    pub closed spec fn options_view(&self) -> TieredCompactionOptions {
        self.options
    }

    pub fn new(options: TieredCompactionOptions) -> (r: Self)
        ensures
            r.options_view() == options,
    {
        Self { options }
    }

    /// Generates a compaction task, or `None` while there are fewer tiers
    /// than the options ask for.
    pub fn generate_compaction_task(&self, snapshot: &LsmStorageState) -> (r: Option<
        TieredCompactionTask,
    >)
        requires
            tiered_can_generate(*snapshot, self.options_view()),
        ensures
            tiered_generated(*snapshot, self.options_view(), r),
    {
        let ghost s = *snapshot;
        let ghost o = self.options;
        let n = snapshot.levels.len();
        if n < self.options.num_tiers {
            return None;
        }
        let mut engine_size: usize = 0;
        let mut i: usize = 0;
        while i < n - 1
            invariant
                s == *snapshot,
                n == s.levels@.len(),
                n >= 1,
                i <= n - 1,
                engine_size == tables_above(s, i as int),
                tables_above(s, n as int) * 100 <= usize::MAX,
            decreases n - 1 - i,
        {
            proof {
                lemma_tables_above_mono(s, i + 1, n as int);
                assert(s.level(i as int) == snapshot.levels@[i as int].1@);
            }
            engine_size = engine_size + snapshot.levels[i].1.len();
            i = i + 1;
        }
        let last_level_size = snapshot.levels[n - 1].1.len();
        proof {
            assert(s.level(n - 1) == snapshot.levels@[n - 1].1@);
            lemma_tables_above_mono(s, n - 1, n as int);
        }
        if (last_level_size == 0 && engine_size > 0) || (engine_size * 100 / last_level_size
            >= self.options.max_size_amplification_percent) {
            assert(amplification_triggers(s, o));
            return Some(
                TieredCompactionTask { tiers: copy_levels(&snapshot.levels), bottom_tier_included: true },
            );
        }
        proof {
            lemma_ratio_scan(s, o, 0);
        }
        let mut prev: usize = 0;
        let mut i: usize = 0;
        while i < n
            invariant
                s == *snapshot,
                o == self.options,
                n == s.levels@.len(),
                n >= 1,
                i <= ratio_scan(s, o, 0) <= n,
                ratio_scan(s, o, i as int) == ratio_scan(s, o, 0),
                prev == tables_above(s, i as int),
                tables_above(s, n as int) * 100 <= usize::MAX,
                !amplification_triggers(s, o),
                n >= o.num_tiers,
                tables_above(s, n - 1) != 0 ==> o.size_ratio <= usize::MAX - 100,
            decreases n - i,
        {
            proof {
                lemma_ratio_scan(s, o, i as int);
                lemma_tables_above_mono(s, i + 1, n as int);
                lemma_tables_above_mono(s, i as int, n as int);
                assert(s.level(i as int) == snapshot.levels@[i as int].1@);
            }
            let len_i = snapshot.levels[i].1.len();
            if prev == 0 {
                assert(!ratio_triggers(s, o, i as int));
                prev = prev + len_i;
                i = i + 1;
                continue;
            }
            proof {
                if tables_above(s, n - 1) == 0 {
                    lemma_tables_above_mono(s, i as int, n - 1);
                    if i == n - 1 {
                    }
                }
            }
            assert(len_i * 100 <= usize::MAX) by {
                assert(tables_above(s, i + 1) == tables_above(s, i as int) + len_i);
            }
            if len_i * 100 / prev > 100 + self.options.size_ratio && i >= self.options.min_merge_width {
                assert(ratio_triggers(s, o, i as int));
                assert(ratio_scan(s, o, i as int) == i);
                assert(levels_of(snapshot.levels@.subrange(0, i as int)) =~= s.levels_view().subrange(
                    0,
                    i as int,
                ));
                return Some(
                    TieredCompactionTask {
                        tiers: copy_level_prefix(&snapshot.levels, i),
                        bottom_tier_included: false,
                    },
                );
            }
            assert(!ratio_triggers(s, o, i as int));
            prev = prev + len_i;
            i = i + 1;
        }
        let max_merge = match self.options.max_merge_width {
            Some(w) => w,
            None => n,
        };
        assert(ratio_scan(s, o, i as int) == n);
        assert(levels_of(snapshot.levels@.subrange(0, max_merge as int)) =~= s.levels_view().subrange(
            0,
            max_merge as int,
        ));
        Some(
            TieredCompactionTask {
                tiers: copy_level_prefix(&snapshot.levels, max_merge),
                bottom_tier_included: max_merge >= n,
            },
        )
    }

    /// Applies the compaction result: the output becomes one tier, placed
    /// where the first merged tier stood (or first, if that tier is gone),
    /// and every merged tier leaves the tree. Returns the new state and the
    /// ids of the tables to delete.
    pub fn apply_compaction_result(
        &self,
        snapshot: &LsmStorageState,
        task: &TieredCompactionTask,
        output: &[usize],
    ) -> (r: (LsmStorageState, Vec<usize>))
        requires
            task.tiers@.len() > 0,
            output@.len() > 0,
        ensures
            tiered_applied(*snapshot, *task, output@, r),
    {
        let mut new_state = snapshot.clone_state();
        let ghost tiers = levels_of(task.tiers@);
        let mut tier_id_list: Vec<usize> = Vec::new();
        let mut to_delete: Vec<usize> = Vec::new();
        let mut t: usize = 0;
        while t < task.tiers.len()
            invariant
                tiers == levels_of(task.tiers@),
                t <= task.tiers@.len(),
                tier_id_list@ == tier_ids(tiers.subrange(0, t as int)),
                to_delete@ == tables_of(tiers.subrange(0, t as int)),
            decreases task.tiers@.len() - t,
        {
            proof {
                assert(tiers.subrange(0, t + 1).drop_last() =~= tiers.subrange(0, t as int));
                assert(tiers[t as int] == (task.tiers@[t as int].0, task.tiers@[t as int].1@));
            }
            tier_id_list.push(task.tiers[t].0);
            let mut k: usize = 0;
            let ghost before = to_delete@;
            while k < task.tiers[t].1.len()
                invariant
                    t < task.tiers@.len(),
                    k <= task.tiers@[t as int].1@.len(),
                    to_delete@ == before + task.tiers@[t as int].1@.subrange(0, k as int),
                decreases task.tiers@[t as int].1@.len() - k,
            {
                to_delete.push(task.tiers[t].1[k]);
                k = k + 1;
                assert(to_delete@ =~= before + task.tiers@[t as int].1@.subrange(0, k as int));
            }
            assert(task.tiers@[t as int].1@.subrange(0, k as int) =~= task.tiers@[t as int].1@);
            t = t + 1;
            assert(tier_id_list@ =~= tier_ids(tiers.subrange(0, t as int)));
        }
        assert(tiers.subrange(0, t as int) =~= tiers);
        let first_tier = tier_id_list[0];
        let ghost lv = snapshot.levels_view();
        let mut p: usize = 0;
        let mut found = false;
        while p < new_state.levels.len()
            invariant_except_break
                !found,
            invariant
                new_state.levels_view() == lv,
                p <= lv.len(),
                find_tier(lv, first_tier, 0) == find_tier(lv, first_tier, p as int),
            ensures
                found ==> p < lv.len() && find_tier(lv, first_tier, 0) == p,
                !found ==> find_tier(lv, first_tier, 0) == lv.len(),
            decreases lv.len() - p,
        {
            assert(new_state.levels_view()[p as int].0 == new_state.levels@[p as int].0);
            if new_state.levels[p].0 == first_tier {
                found = true;
                break;
            }
            p = p + 1;
        }
        let pos = if found { p } else { 0 };
        assert(pos == position_of_tier(lv, first_tier));
        let ghost old_levels = new_state.levels@;
        new_state.levels.insert(pos, (output[0], slice_to_vec(output)));
        assert(new_state.levels_view() =~= lv.insert(pos as int, (output@[0], output@)));
        let ghost inserted = new_state.levels_view();
        let ghost keep = |l: (usize, Seq<usize>)| !tier_ids(tiers).contains(l.0);
        let mut kept: Vec<(usize, Vec<usize>)> = Vec::new();
        let mut q: usize = 0;
        while q < new_state.levels.len()
            invariant
                new_state.levels_view() == inserted,
                keep == (|l: (usize, Seq<usize>)| !tier_ids(tiers).contains(l.0)),
                tier_id_list@ == tier_ids(tiers),
                q <= inserted.len(),
                levels_of(kept@) == inserted.subrange(0, q as int).filter(keep),
            decreases inserted.len() - q,
        {
            proof {
                assert(inserted.subrange(0, q + 1) =~= inserted.subrange(0, q as int).push(inserted[q as int]));
                inserted.subrange(0, q as int).lemma_filter_push(inserted[q as int], keep);
                assert(inserted[q as int] == (new_state.levels@[q as int].0, new_state.levels@[q as int].1@));
            }
            if !crate::lsm_storage::ids_contain(&tier_id_list, new_state.levels[q].0) {
                let ids = crate::lsm_storage::copy_ids(&new_state.levels[q].1);
                let ghost before = kept@;
                kept.push((new_state.levels[q].0, ids));
                assert(levels_of(kept@) =~= levels_of(before).push(inserted[q as int]));
            }
            q = q + 1;
        }
        assert(inserted.subrange(0, q as int) =~= inserted);
        new_state.levels = kept;
        (new_state, to_delete)
    }
}
} // verus!
