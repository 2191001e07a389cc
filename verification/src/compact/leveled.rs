//! Leveled compaction: each level has a target size derived from the size of
//! the last level; level 0 merges into the first level with a target once it
//! holds enough tables, and otherwise the level most over its target pushes
//! one table down into the overlapping tables of the next level.
use crate::key::{key_less, key_lt, lemma_key_lt_asymmetric, lemma_key_lt_total,
    lemma_key_lt_transitive};
use crate::codec::copy_range;
use crate::lsm_storage::{concat_ids, copy_ids, ids_without, lemma_without, without, LsmStorageState};
use vstd::prelude::*;

verus! {

pub struct LeveledCompactionTask {
    /// If `upper_level` is `None`, then it is an L0 compaction.
    pub upper_level: Option<usize>,
    pub upper_level_sst_ids: Vec<usize>,
    pub lower_level: usize,
    pub lower_level_sst_ids: Vec<usize>,
    pub is_lower_level_bottom_level: bool,
}

pub struct LeveledCompactionOptions {
    pub level_size_multiplier: usize,
    pub level0_file_num_compaction_trigger: usize,
    pub max_levels: usize,
    pub base_level_size_mb: usize,
}

pub struct LeveledCompactionController {
    options: LeveledCompactionOptions,
}

/// The first key of table `id`.
pub open spec fn first_of(s: LsmStorageState, id: usize) -> Seq<u8> {
    s.info(id).first_key@
}

/// The last key of table `id`.
pub open spec fn last_of(s: LsmStorageState, id: usize) -> Seq<u8> {
    s.info(id).last_key@
}

/// Table `id` is known and its first key is no larger than its last key.
pub open spec fn table_ok(s: LsmStorageState, id: usize) -> bool {
    &&& s.sstables@.contains_key(id)
    &&& !key_lt(last_of(s, id), first_of(s, id))
}

/// The tables form a sorted run: each is known and well ordered, and each
/// ends before the next one starts.
pub open spec fn sorted_run(s: LsmStorageState, ids: Seq<usize>) -> bool {
    &&& forall|j: int| 0 <= j < ids.len() ==> table_ok(s, #[trigger] ids[j])
    &&& forall|i: int, j: int|
        0 <= i < j < ids.len() ==> key_lt(last_of(s, #[trigger] ids[i]), first_of(s, #[trigger] ids[j]))
}

/// The smallest first key among the tables, taken in order.
pub open spec fn min_first(s: LsmStorageState, ids: Seq<usize>) -> Seq<u8>
    decreases ids.len(),
{
    if ids.len() <= 1 {
        first_of(s, ids[0])
    } else {
        let acc = min_first(s, ids.drop_last());
        let k = first_of(s, ids.last());
        if key_lt(acc, k) {
            acc
        } else {
            k
        }
    }
}

/// The largest last key among the tables, taken in order.
pub open spec fn max_last(s: LsmStorageState, ids: Seq<usize>) -> Seq<u8>
    decreases ids.len(),
{
    if ids.len() <= 1 {
        last_of(s, ids[0])
    } else {
        let acc = max_last(s, ids.drop_last());
        let k = last_of(s, ids.last());
        if key_lt(acc, k) {
            k
        } else {
            acc
        }
    }
}

/// The test that splits a level: the table ends before `key` (`by_last`),
/// or the table starts no later than `key`.
pub open spec fn split_test(s: LsmStorageState, id: usize, key: Seq<u8>, by_last: bool) -> bool {
    if by_last {
        key_lt(last_of(s, id), key)
    } else {
        !key_lt(key, first_of(s, id))
    }
}

/// The number of tables at the start of `ids` that pass the split test.
pub open spec fn split_point(s: LsmStorageState, ids: Seq<usize>, key: Seq<u8>, by_last: bool) -> int
    decreases ids.len(),
{
    if ids.len() == 0 || !split_test(s, ids[0], key, by_last) {
        0
    } else {
        1 + split_point(s, ids.drop_first(), key, by_last)
    }
}

/// The tables of `level` whose key range meets the key range of `ids`.
pub open spec fn overlapping(s: LsmStorageState, ids: Seq<usize>, level: Seq<usize>) -> Seq<usize> {
    level.subrange(
        split_point(s, level, min_first(s, ids), true),
        split_point(s, level, max_last(s, ids), false),
    )
}

proof fn lemma_min_max(s: LsmStorageState, ids: Seq<usize>)
    requires
        ids.len() >= 1,
        forall|j: int| 0 <= j < ids.len() ==> table_ok(s, #[trigger] ids[j]),
    ensures
        !key_lt(max_last(s, ids), min_first(s, ids)),
        exists|j: int| 0 <= j < ids.len() && min_first(s, ids) == first_of(s, #[trigger] ids[j]),
        exists|j: int| 0 <= j < ids.len() && max_last(s, ids) == last_of(s, #[trigger] ids[j]),
        forall|j: int| 0 <= j < ids.len() ==> !key_lt(first_of(s, #[trigger] ids[j]), min_first(s, ids)),
        forall|j: int| 0 <= j < ids.len() ==> !key_lt(max_last(s, ids), last_of(s, #[trigger] ids[j])),
    decreases ids.len(),
{
    if ids.len() == 1 {
        assert(table_ok(s, ids[0]));
        lemma_key_lt_total(first_of(s, ids[0]), first_of(s, ids[0]));
        assert(!key_lt(first_of(s, ids[0]), first_of(s, ids[0]))) by {
            crate::key::lemma_key_lt_irreflexive(first_of(s, ids[0]));
        }
        assert(!key_lt(last_of(s, ids[0]), last_of(s, ids[0]))) by {
            crate::key::lemma_key_lt_irreflexive(last_of(s, ids[0]));
        }
    } else {
        let init = ids.drop_last();
        assert forall|j: int| 0 <= j < init.len() implies table_ok(s, #[trigger] init[j]) by {
            assert(init[j] == ids[j]);
        }
        lemma_min_max(s, init);
        let mf = min_first(s, init);
        let ml = max_last(s, init);
        let lid = ids.last();
        let kf = first_of(s, lid);
        let kl = last_of(s, lid);
        assert(table_ok(s, ids[ids.len() - 1]));
        let jf = choose|j: int| 0 <= j < init.len() && mf == first_of(s, #[trigger] init[j]);
        let jl = choose|j: int| 0 <= j < init.len() && ml == last_of(s, #[trigger] init[j]);
        assert(init[jf] == ids[jf]);
        assert(init[jl] == ids[jl]);
        lemma_key_lt_total(mf, kf);
        lemma_key_lt_total(ml, kl);
        assert forall|j: int| 0 <= j < ids.len() implies !key_lt(
            first_of(s, #[trigger] ids[j]),
            min_first(s, ids),
        ) by {
            if j < init.len() {
                assert(init[j] == ids[j]);
                assert(!key_lt(first_of(s, init[j]), mf));
                if key_lt(first_of(s, ids[j]), kf) && !key_lt(mf, kf) {
                    if mf == kf {
                    } else {
                        lemma_key_lt_transitive(first_of(s, ids[j]), kf, mf);
                    }
                }
            } else {
                if key_lt(mf, kf) {
                    lemma_key_lt_asymmetric(mf, kf);
                } else {
                    crate::key::lemma_key_lt_irreflexive(kf);
                }
            }
        }
        assert forall|j: int| 0 <= j < ids.len() implies !key_lt(
            max_last(s, ids),
            last_of(s, #[trigger] ids[j]),
        ) by {
            if j < init.len() {
                assert(init[j] == ids[j]);
                assert(!key_lt(ml, last_of(s, init[j])));
                if key_lt(ml, kl) && key_lt(kl, last_of(s, ids[j])) {
                    lemma_key_lt_transitive(ml, kl, last_of(s, ids[j]));
                }
            } else {
                if key_lt(ml, kl) {
                    crate::key::lemma_key_lt_irreflexive(kl);
                } else {
                }
            }
        }
        // The largest last key is no smaller than the smallest first key.
        let mn = min_first(s, ids);
        let mx = max_last(s, ids);
        let jm = if key_lt(mf, kf) {
            jf
        } else {
            ids.len() - 1
        };
        assert(mn == first_of(s, ids[jm]));
        assert(table_ok(s, ids[jm]));
        assert(!key_lt(mx, last_of(s, ids[jm])));
        if key_lt(mx, mn) {
            lemma_key_lt_total(mx, last_of(s, ids[jm]));
            if mx == last_of(s, ids[jm]) {
            } else {
                lemma_key_lt_transitive(last_of(s, ids[jm]), mx, mn);
            }
        }
        if key_lt(mf, kf) {
            assert(0 <= jf < ids.len() && mn == first_of(s, ids[jf]));
        } else {
            assert(mn == first_of(s, ids[ids.len() - 1]));
        }
        if key_lt(ml, kl) {
            assert(mx == last_of(s, ids[ids.len() - 1]));
        } else {
            assert(0 <= jl < ids.len() && mx == last_of(s, ids[jl]));
        }
    }
}

/// The split test holds on a prefix of the tables and nowhere after it.
pub open spec fn split_monotone(s: LsmStorageState, ids: Seq<usize>, key: Seq<u8>, by_last: bool) -> bool {
    forall|i: int, j: int|
        0 <= i < j < ids.len() && split_test(s, #[trigger] ids[j], key, by_last) ==> split_test(
            s,
            #[trigger] ids[i],
            key,
            by_last,
        )
}

proof fn lemma_split_point(s: LsmStorageState, ids: Seq<usize>, key: Seq<u8>, by_last: bool)
    requires
        split_monotone(s, ids, key, by_last),
    ensures
        0 <= split_point(s, ids, key, by_last) <= ids.len(),
        forall|j: int|
            0 <= j < ids.len() ==> (split_test(s, #[trigger] ids[j], key, by_last) <==> j < split_point(
                s,
                ids,
                key,
                by_last,
            )),
    decreases ids.len(),
{
    if ids.len() > 0 {
        let rest = ids.drop_first();
        assert(split_monotone(s, rest, key, by_last)) by {
            assert forall|i: int, j: int|
                0 <= i < j < rest.len() && split_test(s, #[trigger] rest[j], key, by_last) implies split_test(
                s,
                #[trigger] rest[i],
                key,
                by_last,
            ) by {
                assert(rest[j] == ids[j + 1]);
                assert(rest[i] == ids[i + 1]);
            }
        }
        lemma_split_point(s, rest, key, by_last);
        assert forall|j: int| 0 <= j < ids.len() implies (split_test(
            s,
            #[trigger] ids[j],
            key,
            by_last,
        ) <==> j < split_point(s, ids, key, by_last)) by {
            if j > 0 {
                assert(ids[j] == rest[j - 1]);
                if !split_test(s, ids[0], key, by_last) && split_test(s, ids[j], key, by_last) {
                    assert(false);
                }
            }
        }
    }
}

/// In a sorted run both split tests are monotone.
proof fn lemma_sorted_run_monotone(s: LsmStorageState, ids: Seq<usize>, key: Seq<u8>)
    requires
        sorted_run(s, ids),
    ensures
        split_monotone(s, ids, key, true),
        split_monotone(s, ids, key, false),
{
    assert forall|i: int, j: int|
        0 <= i < j < ids.len() && split_test(s, #[trigger] ids[j], key, true) implies split_test(
        s,
        #[trigger] ids[i],
        key,
        true,
    ) by {
        let a = ids[i];
        let b = ids[j];
        assert(key_lt(last_of(s, a), first_of(s, b)));
        assert(table_ok(s, b));
        lemma_key_lt_total(last_of(s, b), first_of(s, b));
        if last_of(s, b) == first_of(s, b) {
            lemma_key_lt_transitive(last_of(s, a), first_of(s, b), key);
        } else {
            lemma_key_lt_transitive(last_of(s, a), first_of(s, b), last_of(s, b));
            lemma_key_lt_transitive(last_of(s, a), last_of(s, b), key);
        }
    }
    assert forall|i: int, j: int|
        0 <= i < j < ids.len() && split_test(s, #[trigger] ids[j], key, false) implies split_test(
        s,
        #[trigger] ids[i],
        key,
        false,
    ) by {
        let a = ids[i];
        let b = ids[j];
        assert(key_lt(last_of(s, a), first_of(s, b)));
        assert(table_ok(s, a));
        if key_lt(key, first_of(s, a)) {
            // first(a) <= last(a) < first(b), so key < first(b)
            lemma_key_lt_total(last_of(s, a), first_of(s, a));
            if last_of(s, a) == first_of(s, a) {
                lemma_key_lt_transitive(key, first_of(s, a), first_of(s, b));
            } else {
                lemma_key_lt_transitive(first_of(s, a), last_of(s, a), first_of(s, b));
                lemma_key_lt_transitive(key, first_of(s, a), first_of(s, b));
            }
        }
    }
}

/// The number of tables at the start of `ids` that pass the split test, found
/// by binary search.
fn partition_point(s: &LsmStorageState, ids: &Vec<usize>, key: &[u8], by_last: bool) -> (r: usize)
    requires
        forall|j: int| 0 <= j < ids@.len() ==> s.sstables@.contains_key(#[trigger] ids@[j]),
    ensures
        r <= ids@.len(),
        split_monotone(*s, ids@, key@, by_last) ==> r == split_point(*s, ids@, key@, by_last),
{
    proof {
        if split_monotone(*s, ids@, key@, by_last) {
            lemma_split_point(*s, ids@, key@, by_last);
        }
    }
    let mut lo: usize = 0;
    let mut hi: usize = ids.len();
    while lo < hi
        invariant
            forall|j: int| 0 <= j < ids@.len() ==> s.sstables@.contains_key(#[trigger] ids@[j]),
            lo <= hi <= ids@.len(),
            split_monotone(*s, ids@, key@, by_last) ==> {
                &&& 0 <= split_point(*s, ids@, key@, by_last) <= ids@.len()
                &&& forall|j: int|
                    0 <= j < ids@.len() ==> (split_test(*s, #[trigger] ids@[j], key@, by_last) <==> j
                        < split_point(*s, ids@, key@, by_last))
                &&& lo <= split_point(*s, ids@, key@, by_last) <= hi
            },
        decreases hi - lo,
    {
        let mid = lo + (hi - lo) / 2;
        let info = s.get_info(ids[mid]);
        let pass = if by_last {
            key_less(info.last_key.as_slice(), key)
        } else {
            !key_less(key, info.first_key.as_slice())
        };
        assert(pass == split_test(*s, ids@[mid as int], key@, by_last));
        if pass {
            lo = mid + 1;
        } else {
            hi = mid;
        }
    }
    lo
}


/// The total file size of the tables.
pub open spec fn size_sum(s: LsmStorageState, ids: Seq<usize>) -> int
    decreases ids.len(),
{
    if ids.len() == 0 {
        0
    } else {
        size_sum(s, ids.drop_last()) + s.info(ids.last()).size
    }
}

/// The total file size of level `i`.
pub open spec fn level_size(s: LsmStorageState, i: int) -> int {
    size_sum(s, s.level(i))
}

/// `x` divided by `m`, `k` times over.
pub open spec fn div_iter(x: int, m: int, k: nat) -> int
    decreases k,
{
    if k == 0 {
        x
    } else {
        div_iter(x, m, (k - 1) as nat) / m
    }
}

/// The base level size, in bytes.
pub open spec fn base_bytes(o: LeveledCompactionOptions) -> int {
    o.base_level_size_mb * 1024 * 1024
}

/// The target size of level `i`: once the last level outgrows the base size,
/// each level above it targets the size of the level below divided by the
/// multiplier; before that, only the last level has a target, its own size.
pub open spec fn target_size(s: LsmStorageState, o: LeveledCompactionOptions, i: int) -> int {
    let n = s.levels@.len() as int;
    let last = level_size(s, n - 1);
    if last > base_bytes(o) {
        div_iter(last, o.level_size_multiplier as int, (n - 1 - i) as nat)
    } else if i == n - 1 {
        last
    } else {
        0
    }
}

/// The first level, from `i` on, with a positive target; the last level if none has one.
pub open spec fn first_target(s: LsmStorageState, o: LeveledCompactionOptions, i: int) -> int
    decreases s.levels@.len() - i,
{
    if i < 0 || i >= s.levels@.len() {
        s.levels@.len() - 1
    } else if target_size(s, o, i) > 0 {
        i
    } else {
        first_target(s, o, i + 1)
    }
}

/// How far level `i` is over its target, in tenths; 0 without a target.
pub open spec fn ratio(s: LsmStorageState, o: LeveledCompactionOptions, i: int) -> int {
    if target_size(s, o, i) == 0 {
        0
    } else {
        level_size(s, i) * 10 / target_size(s, o, i)
    }
}

/// The largest ratio among the first `k` levels.
pub open spec fn max_ratio(s: LsmStorageState, o: LeveledCompactionOptions, k: int) -> int
    decreases k,
{
    if k <= 1 {
        ratio(s, o, 0)
    } else {
        let m = max_ratio(s, o, k - 1);
        let r = ratio(s, o, k - 1);
        if r >= m {
            r
        } else {
            m
        }
    }
}

/// The first level, from `i` on, whose ratio is `r`.
pub open spec fn first_with_ratio(s: LsmStorageState, o: LeveledCompactionOptions, r: int, i: int) -> int
    decreases s.levels@.len() - i,
{
    if i < 0 || i >= s.levels@.len() {
        s.levels@.len() as int
    } else if ratio(s, o, i) == r {
        i
    } else {
        first_with_ratio(s, o, r, i + 1)
    }
}

/// The smallest id.
pub open spec fn min_id(ids: Seq<usize>) -> usize
    decreases ids.len(),
{
    if ids.len() <= 1 {
        ids[0]
    } else {
        let m = min_id(ids.drop_last());
        if ids.last() < m {
            ids.last()
        } else {
            m
        }
    }
}

/// The level that the ratio trigger picks: the first one with the largest ratio.
pub open spec fn level_to_compact(s: LsmStorageState, o: LeveledCompactionOptions) -> int {
    let n = s.levels@.len() as int;
    first_with_ratio(s, o, max_ratio(s, o, n - 1), 0)
}

impl LeveledCompactionTask {
    /// The task has the given parts.
    pub open spec fn is(
        self,
        upper_level: Option<usize>,
        upper_ids: Seq<usize>,
        lower_level: int,
        lower_ids: Seq<usize>,
        bottom: bool,
    ) -> bool {
        &&& self.upper_level == upper_level
        &&& self.upper_level_sst_ids@ == upper_ids
        &&& self.lower_level == lower_level
        &&& self.lower_level_sst_ids@ == lower_ids
        &&& self.is_lower_level_bottom_level == bottom
    }
}

/// Every table of every level is known.
pub open spec fn levels_known(s: LsmStorageState) -> bool {
    forall|i: int| 0 <= i < s.levels@.len() ==> s.tables_known(#[trigger] s.level(i))
}


proof fn lemma_size_sum_prefix(s: LsmStorageState, ids: Seq<usize>, i: int)
    requires
        0 <= i < ids.len(),
    ensures
        size_sum(s, ids.subrange(0, i + 1)) == size_sum(s, ids.subrange(0, i)) + s.info(ids[i]).size,
        size_sum(s, ids.subrange(0, i + 1)) <= size_sum(s, ids),
    decreases ids.len() - i,
{
    assert(ids.subrange(0, i + 1).drop_last() =~= ids.subrange(0, i));
    if i + 1 < ids.len() {
        lemma_size_sum_prefix(s, ids, i + 1);
    } else {
        assert(ids.subrange(0, i + 1) =~= ids);
    }
}

proof fn lemma_div_iter(x: int, m: int, k: nat, k2: nat)
    requires
        x >= 0,
        m > 0,
        k <= k2,
    ensures
        0 <= div_iter(x, m, k2) <= div_iter(x, m, k) <= x,
        div_iter(x, m, k) == 0 ==> div_iter(x, m, k2) == 0,
    decreases k2,
{
    if k2 > 0 {
        if k < k2 {
            lemma_div_iter(x, m, k, (k2 - 1) as nat);
        } else {
            lemma_div_iter(x, m, (k - 1) as nat, (k2 - 1) as nat);
        }
        let d = div_iter(x, m, (k2 - 1) as nat);
        assert(0 <= d / m <= d) by (nonlinear_arith)
            requires
                d >= 0,
                m > 0,
        ;
        assert(d == 0 ==> d / m == 0) by (nonlinear_arith)
            requires
                m > 0,
        ;
    }
}

/// The total file size of the tables.
fn sum_sizes(s: &LsmStorageState, ids: &Vec<usize>) -> (r: u64)
    requires
        s.tables_known(ids@),
        size_sum(*s, ids@) <= u64::MAX,
    ensures
        r == size_sum(*s, ids@),
{
    let mut total: u64 = 0;
    let mut i: usize = 0;
    while i < ids.len()
        invariant
            s.tables_known(ids@),
            size_sum(*s, ids@) <= u64::MAX,
            i <= ids@.len(),
            total == size_sum(*s, ids@.subrange(0, i as int)),
        decreases ids@.len() - i,
    {
        proof {
            lemma_size_sum_prefix(*s, ids@, i as int);
        }
        let info = s.get_info(ids[i]);
        total = total + info.size;
        i = i + 1;
    }
    assert(ids@.subrange(0, i as int) =~= ids@);
    total
}


proof fn lemma_max_ratio_attained(s: LsmStorageState, o: LeveledCompactionOptions, k: int)
    requires
        k >= 1,
    ensures
        exists|j: int| 0 <= j < k && ratio(s, o, j) == max_ratio(s, o, k),
        forall|j: int| 0 <= j < k ==> ratio(s, o, j) <= max_ratio(s, o, k),
    decreases k,
{
    if k > 1 {
        lemma_max_ratio_attained(s, o, k - 1);
        if ratio(s, o, k - 1) >= max_ratio(s, o, k - 1) {
            assert(ratio(s, o, k - 1) == max_ratio(s, o, k));
        } else {
            let j = choose|j: int| 0 <= j < k - 1 && ratio(s, o, j) == max_ratio(s, o, k - 1);
            assert(ratio(s, o, j) == max_ratio(s, o, k));
        }
    } else {
        assert(ratio(s, o, 0) == max_ratio(s, o, 1));
    }
}

/// The first level with a target, from `i` on, is a level of the state.
proof fn lemma_first_target_range(s: LsmStorageState, o: LeveledCompactionOptions, i: int)
    requires
        s.levels@.len() >= 1,
        0 <= i,
    ensures
        0 <= first_target(s, o, i) < s.levels@.len(),
    decreases s.levels@.len() - i,
{
    if i < s.levels@.len() && target_size(s, o, i) <= 0 {
        lemma_first_target_range(s, o, i + 1);
    }
}

/// The first level from `i` on with ratio `r` comes no later than level `j`,
/// which has it.
proof fn lemma_first_with_ratio(s: LsmStorageState, o: LeveledCompactionOptions, r: int, i: int, j: int)
    requires
        0 <= i <= j < s.levels@.len(),
        ratio(s, o, j) == r,
    ensures
        i <= first_with_ratio(s, o, r, i) <= j,
        ratio(s, o, first_with_ratio(s, o, r, i)) == r,
    decreases j - i,
{
    if ratio(s, o, i) != r {
        lemma_first_with_ratio(s, o, r, i + 1, j);
    }
}

/// A task that leveled compaction plans names levels of the state, and its
/// lower level is a sorted run.
pub proof fn lemma_leveled_task_fits(s: LsmStorageState, o: LeveledCompactionOptions, t: LeveledCompactionTask)
    requires
        leveled_can_generate(s, o),
        leveled_generated(s, o, Some(t)),
    ensures
        t.lower_level < s.levels@.len(),
        t.upper_level matches Some(u) ==> u < s.levels@.len(),
        sorted_run(s, s.level(t.lower_level as int)),
{
    let n = s.levels@.len() as int;
    if s.l0_sstables@.len() >= o.level0_file_num_compaction_trigger {
        lemma_first_target_range(s, o, 0);
    } else {
        lemma_max_ratio_attained(s, o, n - 1);
        let j = choose|j: int| 0 <= j < n - 1 && ratio(s, o, j) == max_ratio(s, o, n - 1);
        lemma_first_with_ratio(s, o, max_ratio(s, o, n - 1), 0, j);
    }
}

/// A planned task writes into a level of the state, and marks that level as
/// the bottom one exactly when it is the last level: only then can the
/// compaction drop deletions, since no older version lies below.
pub proof fn law_leveled_bottom_is_last(s: LsmStorageState, o: LeveledCompactionOptions, t: LeveledCompactionTask)
    requires
        leveled_can_generate(s, o),
        leveled_generated(s, o, Some(t)),
    ensures
        t.lower_level < s.levels@.len(),
        t.is_lower_level_bottom_level == (t.lower_level == s.levels@.len() - 1),
        t.upper_level matches Some(u) ==> u + 1 == t.lower_level,
{
    lemma_leveled_task_fits(s, o, t);
    let n = s.levels@.len() as int;
    if s.l0_sstables@.len() < o.level0_file_num_compaction_trigger {
        lemma_max_ratio_attained(s, o, n - 1);
        let j = choose|j: int| 0 <= j < n - 1 && ratio(s, o, j) == max_ratio(s, o, n - 1);
        lemma_first_with_ratio(s, o, max_ratio(s, o, n - 1), 0, j);
    }
}

/// Table `t` meets the key range that the tables `ids` span together: it
/// ends no earlier than one of them starts, and starts no later than one of
/// them ends.
pub open spec fn meets_span(s: LsmStorageState, ids: Seq<usize>, t: usize) -> bool {
    &&& exists|x: int| 0 <= x < ids.len() && !key_lt(last_of(s, t), first_of(s, #[trigger] ids[x]))
    &&& exists|y: int| 0 <= y < ids.len() && !key_lt(last_of(s, #[trigger] ids[y]), first_of(s, t))
}

/// The tables of a sorted level that meet the span of some tables are one
/// run of the level: a stretch of consecutive tables that holds every table
/// of the level meeting the span, and no other.
pub proof fn law_overlapping_meets_span(s: LsmStorageState, ids: Seq<usize>, level: Seq<usize>)
    requires
        ids.len() >= 1,
        forall|j: int| 0 <= j < ids.len() ==> table_ok(s, #[trigger] ids[j]),
        sorted_run(s, level),
    ensures
        exists|a: int, b: int|
            {
                &&& 0 <= a <= b <= level.len()
                &&& overlapping(s, ids, level) == #[trigger] level.subrange(a, b)
                &&& forall|j: int| 0 <= j < level.len() ==> (a <= j < b <==> meets_span(s, ids, #[trigger] level[j]))
            },
{
    let mf = min_first(s, ids);
    let ml = max_last(s, ids);
    lemma_min_max(s, ids);
    lemma_sorted_run_monotone(s, level, mf);
    lemma_sorted_run_monotone(s, level, ml);
    lemma_split_point(s, level, mf, true);
    lemma_split_point(s, level, ml, false);
    let a = split_point(s, level, mf, true);
    let b = split_point(s, level, ml, false);
    let jf = choose|j: int| 0 <= j < ids.len() && mf == first_of(s, #[trigger] ids[j]);
    let jl = choose|j: int| 0 <= j < ids.len() && ml == last_of(s, #[trigger] ids[j]);
    assert forall|j: int| 0 <= j < level.len() implies (a <= j < b <==> meets_span(s, ids, #[trigger] level[j])) by {
        let t = level[j];
        assert(table_ok(s, t));
        // The table ends no earlier than the smallest first key exactly when
        // it ends no earlier than some first key.
        if !key_lt(last_of(s, t), mf) {
            assert(!key_lt(last_of(s, t), first_of(s, ids[jf])));
        } else {
            assert forall|x: int| 0 <= x < ids.len() implies key_lt(last_of(s, t), first_of(s, #[trigger] ids[x])) by {
                assert(!key_lt(first_of(s, ids[x]), mf));
                lemma_lt_le(last_of(s, t), mf, first_of(s, ids[x]));
            }
        }
        if !key_lt(ml, first_of(s, t)) {
            assert(!key_lt(last_of(s, ids[jl]), first_of(s, t)));
        } else {
            assert forall|y: int| 0 <= y < ids.len() implies key_lt(last_of(s, #[trigger] ids[y]), first_of(s, t)) by {
                assert(!key_lt(ml, last_of(s, ids[y])));
                lemma_le_lt(last_of(s, ids[y]), ml, first_of(s, t));
            }
        }
    }
    if a > b {
        // Table `b` would end before the smallest first key and start after
        // the largest last key.
        let t = level[b];
        assert(table_ok(s, t));
        assert(key_lt(last_of(s, t), mf));
        assert(key_lt(ml, first_of(s, t)));
        lemma_le_lt(mf, ml, first_of(s, t));
        lemma_key_lt_transitive(last_of(s, t), mf, first_of(s, t));
        assert(false);
    }
    assert(overlapping(s, ids, level) == level.subrange(a, b));
}

/// The tables that a planned task reads from its lower level are the run of
/// that level that meets the span of the upper tables.
pub proof fn law_leveled_task_reads_overlap(s: LsmStorageState, o: LeveledCompactionOptions, t: LeveledCompactionTask)
    requires
        leveled_can_generate(s, o),
        leveled_generated(s, o, Some(t)),
    ensures
        exists|a: int, b: int|
            {
                &&& 0 <= a <= b <= s.level(t.lower_level as int).len()
                &&& t.lower_level_sst_ids@ == #[trigger] s.level(t.lower_level as int).subrange(a, b)
                &&& forall|j: int|
                    0 <= j < s.level(t.lower_level as int).len() ==> (a <= j < b <==> meets_span(
                        s,
                        t.upper_level_sst_ids@,
                        #[trigger] s.level(t.lower_level as int)[j],
                    ))
            },
{
    lemma_leveled_task_fits(s, o, t);
    let n = s.levels@.len() as int;
    if s.l0_sstables@.len() >= o.level0_file_num_compaction_trigger {
        law_overlapping_meets_span(s, s.l0_sstables@, s.level(t.lower_level as int));
    } else {
        let tc = level_to_compact(s, o);
        let id = min_id(s.level(tc));
        assert(seq![id][0] == id);
        law_overlapping_meets_span(s, seq![id], s.level(t.lower_level as int));
    }
}

/// The smallest id is one of the ids, and no id is smaller.
proof fn lemma_min_id(ids: Seq<usize>)
    requires
        ids.len() >= 1,
    ensures
        ids.contains(min_id(ids)),
        forall|j: int| 0 <= j < ids.len() ==> min_id(ids) <= #[trigger] ids[j],
    decreases ids.len(),
{
    if ids.len() > 1 {
        let init = ids.drop_last();
        lemma_min_id(init);
        assert forall|j: int| 0 <= j < ids.len() implies min_id(ids) <= #[trigger] ids[j] by {
            if j < init.len() {
                assert(init[j] == ids[j]);
            }
        }
        if ids.last() < min_id(init) {
            assert(ids[ids.len() - 1] == ids.last());
        } else {
            let i = choose|i: int| 0 <= i < init.len() && init[i] == min_id(init);
            assert(ids[i] == init[i]);
        }
    } else {
        assert(ids[0] == min_id(ids));
    }
}

/// What a planned task takes from above: all of level 0, in order, once
/// level 0 reaches its trigger; otherwise a single table of the upper
/// level, the one with the smallest id.
pub proof fn law_leveled_task_upper(s: LsmStorageState, o: LeveledCompactionOptions, t: LeveledCompactionTask)
    requires
        leveled_can_generate(s, o),
        leveled_generated(s, o, Some(t)),
    ensures
        s.l0_sstables@.len() >= o.level0_file_num_compaction_trigger ==> (t.upper_level is None
            && t.upper_level_sst_ids@ == s.l0_sstables@),
        s.l0_sstables@.len() < o.level0_file_num_compaction_trigger ==> (t.upper_level matches Some(u)
            && {
            &&& t.upper_level_sst_ids@.len() == 1
            &&& s.level(u as int).contains(t.upper_level_sst_ids@[0])
            &&& forall|j: int|
                0 <= j < s.level(u as int).len() ==> t.upper_level_sst_ids@[0] <= #[trigger] s.level(
                    u as int,
                )[j]
        }),
{
    law_leveled_bottom_is_last(s, o, t);
    if s.l0_sstables@.len() < o.level0_file_num_compaction_trigger {
        let n = s.levels@.len() as int;
        let tc = level_to_compact(s, o);
        assert(table_ok(s, min_id(s.level(tc))));
        if s.level(tc).len() == 0 {
            // An empty level has size 0, so its ratio is 0, not over ten.
            assert(level_size(s, tc) == 0);
            lemma_max_ratio_attained(s, o, n - 1);
            let j = choose|j: int| 0 <= j < n - 1 && ratio(s, o, j) == max_ratio(s, o, n - 1);
            lemma_first_with_ratio(s, o, max_ratio(s, o, n - 1), 0, j);
            let ts = target_size(s, o, tc);
            assert(ts == 0 || 0int * 10 / ts == 0) by (nonlinear_arith);
        }
        lemma_min_id(s.level(tc));
        assert(seq![min_id(s.level(tc))][0] == min_id(s.level(tc)));
    }
}

proof fn lemma_first_with_ratio_before(s: LsmStorageState, o: LeveledCompactionOptions, r: int, i: int)
    requires
        0 <= i,
    ensures
        forall|m: int| i <= m < first_with_ratio(s, o, r, i) ==> ratio(s, o, m) != r,
    decreases s.levels@.len() - i,
{
    if i < s.levels@.len() && ratio(s, o, i) != r {
        lemma_first_with_ratio_before(s, o, r, i + 1);
    }
}

/// Below the level-0 trigger, a planned task pushes down from the first
/// level, among those above the last, that is furthest over its target:
/// its ratio is over ten, no level above the last has a larger one, and no
/// level before it has the same.
pub proof fn law_leveled_picks_most_over_target(
    s: LsmStorageState,
    o: LeveledCompactionOptions,
    t: LeveledCompactionTask,
)
    requires
        leveled_can_generate(s, o),
        leveled_generated(s, o, Some(t)),
        s.l0_sstables@.len() < o.level0_file_num_compaction_trigger,
    ensures
        t.upper_level matches Some(u) && {
            &&& u < s.levels@.len() - 1
            &&& ratio(s, o, u as int) > 10
            &&& forall|j: int| 0 <= j < s.levels@.len() - 1 ==> #[trigger] ratio(s, o, j) <= ratio(s, o, u as int)
            &&& forall|j: int| 0 <= j < u ==> #[trigger] ratio(s, o, j) < ratio(s, o, u as int)
        },
{
    let n = s.levels@.len() as int;
    lemma_max_ratio_attained(s, o, n - 1);
    let j = choose|j: int| 0 <= j < n - 1 && ratio(s, o, j) == max_ratio(s, o, n - 1);
    lemma_first_with_ratio(s, o, max_ratio(s, o, n - 1), 0, j);
    lemma_first_with_ratio_before(s, o, max_ratio(s, o, n - 1), 0);
}

/// During recovery the output goes in front of the lower level: when the
/// output names no table of the task, the lower level starts with it.
pub proof fn law_leveled_recovery_prepends(
    now: LsmStorageState,
    task: LeveledCompactionTask,
    output: Seq<usize>,
    r: (LsmStorageState, Vec<usize>),
)
    requires
        leveled_can_apply(now, task, output, true),
        leveled_applied(now, task, output, true, r),
        task.upper_level matches Some(u) ==> u != task.lower_level,
        forall|i: int| 0 <= i < output.len() ==> !task.lower_level_sst_ids@.contains(#[trigger] output[i]),
    ensures
        r.0.level(task.lower_level as int).len() >= output.len(),
        r.0.level(task.lower_level as int).subrange(0, output.len() as int) == output,
{
    let l = task.lower_level as int;
    let lv = now.levels_view();
    let upper = task.upper_level_sst_ids@;
    let lower = task.lower_level_sst_ids@;
    let p = choose|p: int|
        insert_point_ok(now, task, output, true, p) && #[trigger] leveled_applied_at(now, task, output, p, r);
    assert(p == 0);
    let spliced = lv[l].1.subrange(0, 0) + output + lv[l].1.subrange(0, lv[l].1.len() as int);
    let lv1 = lv.update(l, (lv[l].0, spliced));
    let lv2 = match task.upper_level {
        Some(u) => lv1.update(u as int, (lv1[u as int].0, without(lv1[u as int].1, upper))),
        None => lv1,
    };
    assert(lv2[l].1 == spliced);
    let rest = lv[l].1.subrange(0, lv[l].1.len() as int);
    assert(spliced =~= output + rest);
    let pred = |id: usize| !lower.contains(id);
    Seq::filter_distributes_over_add(output, rest, pred);
    lemma_without_none(output, lower);
    assert(r.0.level(l) == output + without(rest, lower));
    assert((output + without(rest, lower)).subrange(0, output.len() as int) =~= output);
}

/// The targets of the levels: the last level targets its own size; once
/// that size passes the base size, each level above targets the target of
/// the level below divided by the multiplier, and before that, the levels
/// above have no target.
pub proof fn law_leveled_targets(s: LsmStorageState, o: LeveledCompactionOptions, i: int)
    requires
        0 <= i < s.levels@.len() - 1,
    ensures
        target_size(s, o, s.levels@.len() - 1) == level_size(s, s.levels@.len() - 1),
        level_size(s, s.levels@.len() - 1) > base_bytes(o) ==> target_size(s, o, i) == target_size(
            s,
            o,
            i + 1,
        ) / (o.level_size_multiplier as int),
        level_size(s, s.levels@.len() - 1) <= base_bytes(o) ==> target_size(s, o, i) == 0,
{
    let n = s.levels@.len() as int;
    assert((n - 1 - i) as nat == ((n - 1 - (i + 1)) as nat + 1) as nat);
}

/// Once level 0 reaches its trigger, a planned task merges it into the
/// first level with a target, or into the last level when none has one.
pub proof fn law_leveled_level0_target(s: LsmStorageState, o: LeveledCompactionOptions, t: LeveledCompactionTask)
    requires
        leveled_can_generate(s, o),
        leveled_generated(s, o, Some(t)),
        s.l0_sstables@.len() >= o.level0_file_num_compaction_trigger,
    ensures
        forall|j: int| 0 <= j < t.lower_level ==> #[trigger] target_size(s, o, j) <= 0,
        t.lower_level < s.levels@.len() - 1 ==> target_size(s, o, t.lower_level as int) > 0,
{
    lemma_first_target_props(s, o, 0);
}

proof fn lemma_first_target_props(s: LsmStorageState, o: LeveledCompactionOptions, i: int)
    requires
        s.levels@.len() >= 1,
        0 <= i < s.levels@.len(),
    ensures
        forall|j: int| i <= j < first_target(s, o, i) ==> #[trigger] target_size(s, o, j) <= 0,
        first_target(s, o, i) < s.levels@.len() - 1 ==> target_size(s, o, first_target(s, o, i)) > 0,
    decreases s.levels@.len() - i,
{
    if target_size(s, o, i) <= 0 {
        if i + 1 < s.levels@.len() {
            lemma_first_target_props(s, o, i + 1);
        } else {
            assert(first_target(s, o, i + 1) == s.levels@.len() - 1);
        }
    }
}

/// A copy of a key.
fn copy_bytes(v: &Vec<u8>) -> (r: Vec<u8>)
    ensures
        r@ == v@,
{
    let r = copy_range(v.as_slice(), 0, v.len());
    assert(v@.subrange(0, v@.len() as int) =~= v@);
    r
}

/// The state meets what planning reads: the tables it sizes are known, the
/// sizes fit, the multiplier divides, and the tables that each trigger would
/// merge are ordered runs.
pub open spec fn leveled_can_generate(s: LsmStorageState, o: LeveledCompactionOptions) -> bool {
    let n = s.levels@.len() as int;
    n >= 1 ==> {
        &&& s.tables_known(s.level(n - 1))
        &&& forall|i: int|
            0 <= i < n ==> #[trigger] level_size(s, i) * 10 <= usize::MAX && level_size(s, i)
                <= u64::MAX
        &&& base_bytes(o) <= usize::MAX
        &&& level_size(s, n - 1) > base_bytes(o) ==> o.level_size_multiplier > 0
        &&& s.l0_sstables@.len() >= o.level0_file_num_compaction_trigger ==> {
            &&& s.l0_sstables@.len() >= 1
            &&& forall|j: int|
                0 <= j < s.l0_sstables@.len() ==> table_ok(s, #[trigger] s.l0_sstables@[j])
            &&& sorted_run(s, s.level(first_target(s, o, 0)))
        }
        &&& s.l0_sstables@.len() < o.level0_file_num_compaction_trigger ==> {
            &&& levels_known(s)
            &&& n >= 2 && max_ratio(s, o, n - 1) > 10 ==> {
                &&& table_ok(s, min_id(s.level(level_to_compact(s, o))))
                &&& sorted_run(s, s.level(level_to_compact(s, o) + 1))
            }
        }
    }
}

/// The task that leveled compaction plans for the state: level 0 into the
/// first level with a target once level 0 holds enough tables; otherwise the
/// smallest-id table of the first level with the largest ratio, if that ratio
/// is over ten, into the overlapping tables of the next level; otherwise none.
pub open spec fn leveled_generated(
    s: LsmStorageState,
    o: LeveledCompactionOptions,
    r: Option<LeveledCompactionTask>,
) -> bool {
    let n = s.levels@.len() as int;
    if n == 0 {
        r is None
    } else if s.l0_sstables@.len() >= o.level0_file_num_compaction_trigger {
        let ft = first_target(s, o, 0);
        r matches Some(t) && t.is(
            None,
            s.l0_sstables@,
            ft,
            overlapping(s, s.l0_sstables@, s.level(ft)),
            ft == n - 1,
        )
    } else if n >= 2 && max_ratio(s, o, n - 1) > 10 {
        let tc = level_to_compact(s, o);
        let id = min_id(s.level(tc));
        r matches Some(t) && t.is(
            Some(tc as usize),
            seq![id],
            tc + 1,
            overlapping(s, seq![id], s.level(tc + 1)),
            tc == n - 2,
        )
    } else {
        r is None
    }
}

/// The task's levels lie within the state, and outside recovery there is
/// an output whose first table is known, and the lower level's tables are
/// known.
pub open spec fn leveled_can_apply(
    s: LsmStorageState,
    task: LeveledCompactionTask,
    output: Seq<usize>,
    in_recovery: bool,
) -> bool {
    &&& task.lower_level < s.levels@.len()
    &&& task.upper_level matches Some(u) ==> u < s.levels@.len()
    &&& !in_recovery ==> {
        &&& output.len() >= 1
        &&& s.sstables@.contains_key(output[0])
        &&& s.tables_known(s.level(task.lower_level as int))
    }
}

/// Where the output may go in the lower level: at the front during
/// recovery; otherwise, where the level is ordered for the output's first
/// key, after the tables that end before that key; anywhere in the level
/// where it is not.
pub open spec fn insert_point_ok(
    s: LsmStorageState,
    task: LeveledCompactionTask,
    output: Seq<usize>,
    in_recovery: bool,
    p: int,
) -> bool {
    let level = s.level(task.lower_level as int);
    &&& 0 <= p <= level.len()
    &&& in_recovery ==> p == 0
    &&& !in_recovery && split_monotone(s, level, first_of(s, output[0]), true) ==> p == split_point(
        s,
        level,
        first_of(s, output[0]),
        true,
    )
}

/// The state and the tables to delete after the task's output is inserted
/// at position `p` of the lower level: the task's tables leave their levels
/// (or level 0) and the map of tables.
pub open spec fn leveled_applied_at(
    s: LsmStorageState,
    task: LeveledCompactionTask,
    output: Seq<usize>,
    p: int,
    r: (LsmStorageState, Vec<usize>),
) -> bool {
    let (ns, to_delete) = r;
    let upper = task.upper_level_sst_ids@;
    let lower = task.lower_level_sst_ids@;
    let lv = s.levels_view();
    let l = task.lower_level as int;
    let spliced = lv[l].1.subrange(0, p) + output + lv[l].1.subrange(p, lv[l].1.len() as int);
    let lv1 = lv.update(l, (lv[l].0, spliced));
    let lv2 = match task.upper_level {
        Some(u) => lv1.update(u as int, (lv1[u as int].0, without(lv1[u as int].1, upper))),
        None => lv1,
    };
    &&& ns.levels_view() == lv2.update(l, (lv2[l].0, without(lv2[l].1, lower)))
    &&& ns.l0_sstables@ == if task.upper_level is None {
        without(s.l0_sstables@, upper)
    } else {
        s.l0_sstables@
    }
    &&& ns.sstables@ == s.sstables@.remove_keys(lower.to_set()).remove_keys(upper.to_set())
    &&& to_delete@ == upper + lower
}

/// The state and the tables to delete after the task's output is applied:
/// the output goes in where `insert_point_ok` allows.
pub open spec fn leveled_applied(
    s: LsmStorageState,
    task: LeveledCompactionTask,
    output: Seq<usize>,
    in_recovery: bool,
    r: (LsmStorageState, Vec<usize>),
) -> bool {
    exists|p: int|
        insert_point_ok(s, task, output, in_recovery, p) && #[trigger] leveled_applied_at(
            s,
            task,
            output,
            p,
            r,
        )
}

/// Applying a leveled task merges what it names: the tables of the task leave
/// the tree (the map of tables, their level, and level 0 for a level-0
/// task, where tables flushed meanwhile stay), and output tables that the
/// task did not read join the lower level. The tables to delete are the
/// task's.
pub proof fn law_leveled_apply(
    now: LsmStorageState,
    task: LeveledCompactionTask,
    output: Seq<usize>,
    in_recovery: bool,
    r: (LsmStorageState, Vec<usize>),
)
    requires
        leveled_can_apply(now, task, output, in_recovery),
        leveled_applied(now, task, output, in_recovery, r),
    ensures
        r.1@ == task.upper_level_sst_ids@ + task.lower_level_sst_ids@,
        forall|id: usize|
            task.upper_level_sst_ids@.contains(id) || task.lower_level_sst_ids@.contains(id)
                ==> !(#[trigger] r.0.sstables@.contains_key(id)),
        forall|id: usize|
            #[trigger] task.lower_level_sst_ids@.contains(id) ==> !r.0.level(
                task.lower_level as int,
            ).contains(id),
        forall|id: usize|
            #[trigger] output.contains(id) && !task.lower_level_sst_ids@.contains(id) && (
            task.upper_level matches Some(u) ==> u != task.lower_level || !task.upper_level_sst_ids@.contains(id))
                ==> r.0.level(task.lower_level as int).contains(id),
        task.upper_level matches Some(u) ==> forall|id: usize|
            #[trigger] task.upper_level_sst_ids@.contains(id) ==> !r.0.level(u as int).contains(id),
        task.upper_level is None ==> forall|id: usize|
            #[trigger] r.0.l0_sstables@.contains(id) <==> now.l0_sstables@.contains(id)
                && !task.upper_level_sst_ids@.contains(id),
{
    let upper = task.upper_level_sst_ids@;
    let lower = task.lower_level_sst_ids@;
    let lv = now.levels_view();
    let l = task.lower_level as int;
    let p = choose|p: int|
        insert_point_ok(now, task, output, in_recovery, p) && #[trigger] leveled_applied_at(
            now,
            task,
            output,
            p,
            r,
        );
    let spliced = lv[l].1.subrange(0, p) + output + lv[l].1.subrange(p, lv[l].1.len() as int);
    let lv1 = lv.update(l, (lv[l].0, spliced));
    let lv2 = match task.upper_level {
        Some(u) => lv1.update(u as int, (lv1[u as int].0, without(lv1[u as int].1, upper))),
        None => lv1,
    };
    lemma_without(now.l0_sstables@, upper);
    lemma_without(lv2[l].1, lower);
    if let Some(u) = task.upper_level {
        lemma_without(lv1[u as int].1, upper);
        if u as int != l {
            assert(r.0.level(u as int) == without(lv1[u as int].1, upper));
        } else {
            lemma_without(lv1[l].1, upper);
            assert(lv2[l].1 == without(lv1[l].1, upper));
            assert forall|id: usize| #[trigger] upper.contains(id) implies !r.0.level(u as int).contains(id) by {
                if r.0.level(u as int).contains(id) {
                    assert(lv2[l].1.contains(id));
                }
            }
        }
    }
    assert forall|id: usize| #[trigger] output.contains(id) && !lower.contains(id) && (
    task.upper_level matches Some(u) ==> u != task.lower_level || !upper.contains(id)) implies r.0.level(
        l,
    ).contains(id) by {
        let i = choose|i: int| 0 <= i < output.len() && output[i] == id;
        assert(spliced[p + i] == id);
        assert(spliced.contains(id));
        if let Some(u) = task.upper_level {
            if u as int == l {
                lemma_without(lv1[l].1, upper);
            }
        }
        assert(lv2[l].1.contains(id));
    }
}

/// A key no larger than a second key that is below a third is below the third.
proof fn lemma_le_lt(a: Seq<u8>, b: Seq<u8>, c: Seq<u8>)
    requires
        !key_lt(b, a),
        key_lt(b, c),
    ensures
        key_lt(a, c),
{
    lemma_key_lt_total(a, b);
    if a != b {
        lemma_key_lt_transitive(a, b, c);
    }
}

/// A key below a second key that is no larger than a third is below the third.
proof fn lemma_lt_le(a: Seq<u8>, b: Seq<u8>, c: Seq<u8>)
    requires
        key_lt(a, b),
        !key_lt(c, b),
    ensures
        key_lt(a, c),
{
    lemma_key_lt_total(b, c);
    if b != c {
        lemma_key_lt_transitive(a, b, c);
    }
}

/// In a sorted run no table ends after the last one, and none starts before
/// the first one.
proof fn lemma_run_ends(s: LsmStorageState, ids: Seq<usize>)
    requires
        sorted_run(s, ids),
        ids.len() >= 1,
    ensures
        forall|j: int| 0 <= j < ids.len() ==> !key_lt(last_of(s, ids.last()), last_of(s, #[trigger] ids[j])),
        forall|j: int| 0 <= j < ids.len() ==> !key_lt(first_of(s, #[trigger] ids[j]), first_of(s, ids[0])),
{
    let n = ids.len() - 1;
    assert(table_ok(s, ids[n]));
    assert(table_ok(s, ids[0]));
    assert forall|j: int| 0 <= j < ids.len() implies !key_lt(last_of(s, ids.last()), last_of(s, #[trigger] ids[j])) by {
        if j < n {
            lemma_lt_le(last_of(s, ids[j]), first_of(s, ids[n]), last_of(s, ids[n]));
            lemma_key_lt_asymmetric(last_of(s, ids[j]), last_of(s, ids[n]));
        } else {
            crate::key::lemma_key_lt_irreflexive(last_of(s, ids[n]));
        }
    }
    assert forall|j: int| 0 <= j < ids.len() implies !key_lt(first_of(s, #[trigger] ids[j]), first_of(s, ids[0])) by {
        if j > 0 {
            lemma_le_lt(first_of(s, ids[0]), last_of(s, ids[0]), first_of(s, ids[j]));
            lemma_key_lt_asymmetric(first_of(s, ids[0]), first_of(s, ids[j]));
        } else {
            crate::key::lemma_key_lt_irreflexive(first_of(s, ids[0]));
        }
    }
}

/// Two sorted runs, the first ending before the second starts, make one.
proof fn lemma_run_concat(s: LsmStorageState, x: Seq<usize>, y: Seq<usize>)
    requires
        sorted_run(s, x),
        sorted_run(s, y),
        x.len() > 0 && y.len() > 0 ==> key_lt(last_of(s, x.last()), first_of(s, y[0])),
    ensures
        sorted_run(s, x + y),
{
    let z = x + y;
    let n = x.len() as int;
    if x.len() > 0 && y.len() > 0 {
        lemma_run_ends(s, x);
        lemma_run_ends(s, y);
    }
    assert forall|j: int| 0 <= j < z.len() implies table_ok(s, #[trigger] z[j]) by {
        if j < n {
            assert(z[j] == x[j]);
        } else {
            assert(z[j] == y[j - n]);
        }
    }
    assert forall|i: int, j: int| 0 <= i < j < z.len() implies key_lt(
        last_of(s, #[trigger] z[i]),
        first_of(s, #[trigger] z[j]),
    ) by {
        if j < n {
            assert(z[i] == x[i] && z[j] == x[j]);
        } else if i >= n {
            assert(z[i] == y[i - n] && z[j] == y[j - n]);
        } else {
            assert(z[i] == x[i] && z[j] == y[j - n]);
            assert(!key_lt(last_of(s, x.last()), last_of(s, x[i])));
            assert(!key_lt(first_of(s, y[j - n]), first_of(s, y[0])));
            lemma_le_lt(last_of(s, x[i]), last_of(s, x.last()), first_of(s, y[0]));
            lemma_lt_le(last_of(s, x[i]), first_of(s, y[0]), first_of(s, y[j - n]));
        }
    }
}

/// A piece of a sorted run is a sorted run.
proof fn lemma_run_subrange(s: LsmStorageState, ids: Seq<usize>, a: int, b: int)
    requires
        sorted_run(s, ids),
        0 <= a <= b <= ids.len(),
    ensures
        sorted_run(s, ids.subrange(a, b)),
{
    let t = ids.subrange(a, b);
    assert forall|j: int| 0 <= j < t.len() implies table_ok(s, #[trigger] t[j]) by {
        assert(t[j] == ids[a + j]);
    }
    assert forall|i: int, j: int| 0 <= i < j < t.len() implies key_lt(
        last_of(s, #[trigger] t[i]),
        first_of(s, #[trigger] t[j]),
    ) by {
        assert(t[i] == ids[a + i] && t[j] == ids[a + j]);
    }
}

/// No table occurs twice in a sorted run.
proof fn lemma_run_distinct(s: LsmStorageState, ids: Seq<usize>)
    requires
        sorted_run(s, ids),
    ensures
        forall|i: int, j: int| 0 <= i < j < ids.len() ==> #[trigger] ids[i] != #[trigger] ids[j],
{
    assert forall|i: int, j: int| 0 <= i < j < ids.len() implies #[trigger] ids[i] != #[trigger] ids[j] by {
        assert(table_ok(s, ids[i]));
        assert(key_lt(last_of(s, ids[i]), first_of(s, ids[j])));
    }
}

/// Removing ids of which none occurs changes nothing.
proof fn lemma_without_none(ids: Seq<usize>, removed: Seq<usize>)
    requires
        forall|j: int| 0 <= j < ids.len() ==> !removed.contains(#[trigger] ids[j]),
    ensures
        without(ids, removed) == ids,
    decreases ids.len(),
{
    reveal(Seq::filter);
    if ids.len() > 0 {
        let init = ids.drop_last();
        assert forall|j: int| 0 <= j < init.len() implies !removed.contains(#[trigger] init[j]) by {
            assert(init[j] == ids[j]);
        }
        lemma_without_none(init, removed);
        assert(!removed.contains(ids[ids.len() - 1]));
        assert(init.push(ids.last()) =~= ids);
    }
}

/// Removing ids of which each occurs leaves nothing.
proof fn lemma_without_all(ids: Seq<usize>, removed: Seq<usize>)
    requires
        forall|j: int| 0 <= j < ids.len() ==> removed.contains(#[trigger] ids[j]),
    ensures
        without(ids, removed) == Seq::<usize>::empty(),
    decreases ids.len(),
{
    reveal(Seq::filter);
    if ids.len() > 0 {
        let init = ids.drop_last();
        assert forall|j: int| 0 <= j < init.len() implies removed.contains(#[trigger] init[j]) by {
            assert(init[j] == ids[j]);
        }
        lemma_without_all(init, removed);
        assert(removed.contains(ids[ids.len() - 1]));
    } else {
        assert(ids =~= Seq::<usize>::empty());
    }
}

/// Splicing new tables into a level where some of its tables are then
/// removed: when the removed tables are the consecutive tables `lo..hi` and
/// the new ones went in among them, what remains is the tables before, the
/// new ones, and the tables after.
proof fn lemma_splice_without(ll: Seq<usize>, lo: int, p: int, hi: int, output: Seq<usize>, lower: Seq<usize>)
    requires
        0 <= lo <= p <= hi <= ll.len(),
        lower == ll.subrange(lo, hi),
        forall|i: int, j: int| 0 <= i < j < ll.len() ==> #[trigger] ll[i] != #[trigger] ll[j],
        forall|j: int| 0 <= j < output.len() ==> !ll.contains(#[trigger] output[j]),
    ensures
        without(ll.subrange(0, p) + output + ll.subrange(p, ll.len() as int), lower) == ll.subrange(0, lo)
            + output + ll.subrange(hi, ll.len() as int),
{
    let n = ll.len() as int;
    let spliced = ll.subrange(0, p) + output + ll.subrange(p, n);
    let a = ll.subrange(0, lo);
    let b1 = ll.subrange(lo, p);
    let b2 = ll.subrange(p, hi);
    let c = ll.subrange(hi, n);
    assert(spliced =~= a + b1 + output + b2 + c);
    assert forall|j: int| 0 <= j < a.len() implies !lower.contains(#[trigger] a[j]) by {
        if lower.contains(a[j]) {
            let i = choose|i: int| 0 <= i < lower.len() && lower[i] == a[j];
            assert(lower[i] == ll[lo + i]);
            assert(a[j] == ll[j]);
        }
    }
    assert forall|j: int| 0 <= j < c.len() implies !lower.contains(#[trigger] c[j]) by {
        if lower.contains(c[j]) {
            let i = choose|i: int| 0 <= i < lower.len() && lower[i] == c[j];
            assert(lower[i] == ll[lo + i]);
            assert(c[j] == ll[hi + j]);
        }
    }
    assert forall|j: int| 0 <= j < b1.len() implies lower.contains(#[trigger] b1[j]) by {
        assert(b1[j] == lower[j]);
    }
    assert forall|j: int| 0 <= j < b2.len() implies lower.contains(#[trigger] b2[j]) by {
        assert(b2[j] == lower[p - lo + j]);
    }
    assert forall|j: int| 0 <= j < output.len() implies !lower.contains(#[trigger] output[j]) by {
        if lower.contains(output[j]) {
            let i = choose|i: int| 0 <= i < lower.len() && lower[i] == output[j];
            assert(lower[i] == ll[lo + i]);
        }
    }
    let pred = |id: usize| !lower.contains(id);
    Seq::filter_distributes_over_add(a + b1 + output + b2, c, pred);
    Seq::filter_distributes_over_add(a + b1 + output, b2, pred);
    Seq::filter_distributes_over_add(a + b1, output, pred);
    Seq::filter_distributes_over_add(a, b1, pred);
    lemma_without_none(a, lower);
    lemma_without_none(c, lower);
    lemma_without_none(output, lower);
    lemma_without_all(b1, lower);
    lemma_without_all(b2, lower);
    assert(without(spliced, lower) =~= a + output + c);
}

/// A sorted run stays one in a state that knows each of its tables as before.
proof fn lemma_run_known(s: LsmStorageState, t: LsmStorageState, ids: Seq<usize>)
    requires
        sorted_run(s, ids),
        forall|j: int| 0 <= j < ids.len() ==> #[trigger] t.sstables@.contains_key(ids[j])
            && t.sstables@[ids[j]] == s.sstables@[ids[j]],
    ensures
        sorted_run(t, ids),
{
    assert forall|j: int| 0 <= j < ids.len() implies table_ok(t, #[trigger] ids[j]) by {
        assert(t.sstables@.contains_key(ids[j]));
        assert(table_ok(s, ids[j]));
    }
    assert forall|i: int, j: int| 0 <= i < j < ids.len() implies key_lt(
        last_of(t, #[trigger] ids[i]),
        first_of(t, #[trigger] ids[j]),
    ) by {
        assert(t.sstables@.contains_key(ids[i]));
        assert(t.sstables@.contains_key(ids[j]));
    }
}

/// Where the output goes in a sorted level: after the tables before the
/// replaced ones, and no later than the tables after them.
proof fn lemma_output_slot(now: LsmStorageState, ll: Seq<usize>, lo: int, hi: int, output: Seq<usize>)
    requires
        sorted_run(now, ll),
        sorted_run(now, output),
        output.len() >= 1,
        0 <= lo <= hi <= ll.len(),
        lo > 0 ==> key_lt(last_of(now, ll[lo - 1]), first_of(now, output[0])),
        hi < ll.len() ==> key_lt(last_of(now, output.last()), first_of(now, ll[hi])),
    ensures
        lo <= split_point(now, ll, first_of(now, output[0]), true) <= hi,
{
    let n = ll.len() as int;
    let k0 = first_of(now, output[0]);
    lemma_sorted_run_monotone(now, ll, k0);
    lemma_split_point(now, ll, k0, true);
    if lo > 0 {
        assert(split_test(now, ll[lo - 1], k0, true));
    }
    if hi < n {
        let m = output.len() - 1;
        lemma_run_ends(now, output);
        assert(table_ok(now, output[0]));
        assert(table_ok(now, ll[hi]));
        assert(!key_lt(last_of(now, output[m]), last_of(now, output[0])));
        lemma_le_lt(last_of(now, output[0]), last_of(now, output[m]), first_of(now, ll[hi]));
        lemma_le_lt(k0, last_of(now, output[0]), first_of(now, ll[hi]));
        lemma_lt_le(k0, first_of(now, ll[hi]), last_of(now, ll[hi]));
        lemma_key_lt_asymmetric(k0, last_of(now, ll[hi]));
        assert(!split_test(now, ll[hi], k0, true));
    }
}

/// The tables before the replaced ones, the output and the tables after
/// them make a sorted run.
proof fn lemma_run_assembled(now: LsmStorageState, ll: Seq<usize>, lo: int, hi: int, output: Seq<usize>)
    requires
        sorted_run(now, ll),
        sorted_run(now, output),
        output.len() >= 1,
        0 <= lo <= hi <= ll.len(),
        lo > 0 ==> key_lt(last_of(now, ll[lo - 1]), first_of(now, output[0])),
        hi < ll.len() ==> key_lt(last_of(now, output.last()), first_of(now, ll[hi])),
    ensures
        sorted_run(now, ll.subrange(0, lo) + output + ll.subrange(hi, ll.len() as int)),
{
    let n = ll.len() as int;
    let a = ll.subrange(0, lo);
    let c = ll.subrange(hi, n);
    lemma_run_subrange(now, ll, 0, lo);
    lemma_run_subrange(now, ll, hi, n);
    if lo > 0 {
        assert(a.last() == ll[lo - 1]);
    }
    lemma_run_concat(now, a, output);
    if hi < n {
        assert(c[0] == ll[hi]);
        assert((a + output).last() == output.last());
    }
    lemma_run_concat(now, a + output, c);
}

/// Tables that were not removed are known after the removal as before.
proof fn lemma_tables_kept(
    now: LsmStorageState,
    t: LsmStorageState,
    ids: Seq<usize>,
    lower: Seq<usize>,
    upper: Seq<usize>,
)
    requires
        t.sstables@ == now.sstables@.remove_keys(lower.to_set()).remove_keys(upper.to_set()),
        now.tables_known(ids),
        forall|j: int| 0 <= j < ids.len() ==> !lower.contains(#[trigger] ids[j]) && !upper.contains(ids[j]),
    ensures
        forall|j: int| 0 <= j < ids.len() ==> #[trigger] t.sstables@.contains_key(ids[j])
            && t.sstables@[ids[j]] == now.sstables@[ids[j]],
{
    assert forall|j: int| 0 <= j < ids.len() implies #[trigger] t.sstables@.contains_key(ids[j])
        && t.sstables@[ids[j]] == now.sstables@[ids[j]] by {
        assert(now.sstables@.contains_key(ids[j]));
        assert(!lower.contains(ids[j]) && !upper.contains(ids[j]));
        assert(!lower.to_set().contains(ids[j]));
        assert(!upper.to_set().contains(ids[j]));
    }
}

/// The tables of the new level are neither removed from the lower level nor
/// from the upper one.
proof fn lemma_ids_kept(ll: Seq<usize>, lo: int, hi: int, output: Seq<usize>, lower: Seq<usize>, upper: Seq<usize>)
    requires
        0 <= lo <= hi <= ll.len(),
        forall|x: usize| #[trigger] (ll.subrange(0, lo) + output + ll.subrange(hi, ll.len() as int)).contains(x)
            ==> !lower.contains(x),
        forall|id: usize| #[trigger] upper.contains(id) ==> !output.contains(id) && !ll.contains(id),
    ensures
        ({
            let nl = ll.subrange(0, lo) + output + ll.subrange(hi, ll.len() as int);
            forall|j: int| 0 <= j < nl.len() ==> !lower.contains(#[trigger] nl[j]) && !upper.contains(nl[j])
        }),
{
    let nl = ll.subrange(0, lo) + output + ll.subrange(hi, ll.len() as int);
    let m = output.len() as int;
    assert forall|j: int| 0 <= j < nl.len() implies !lower.contains(#[trigger] nl[j]) && !upper.contains(nl[j]) by {
        assert(nl.contains(nl[j]));
        if j < lo {
            assert(nl[j] == ll[j]);
            assert(ll.contains(nl[j]));
        } else if j < lo + m {
            assert(nl[j] == output[j - lo]);
            assert(output.contains(nl[j]));
        } else {
            assert(nl[j] == ll[hi + j - lo - m]);
            assert(ll.contains(nl[j]));
        }
    }
}

/// Outside recovery, applying a leveled task keeps the lower level a sorted
/// run. When the lower level is sorted, the task's lower tables are its
/// consecutive tables `lo..hi`, and the output is a sorted run of new tables
/// that starts after the table before them ends and ends before the table
/// after them starts, the level becomes the tables before, the output, and
/// the tables after, and it is sorted.
pub proof fn law_leveled_apply_keeps_sorted(
    now: LsmStorageState,
    task: LeveledCompactionTask,
    output: Seq<usize>,
    lo: int,
    hi: int,
    r: (LsmStorageState, Vec<usize>),
)
    requires
        leveled_can_apply(now, task, output, false),
        leveled_applied(now, task, output, false, r),
        sorted_run(now, now.level(task.lower_level as int)),
        0 <= lo <= hi <= now.level(task.lower_level as int).len(),
        task.lower_level_sst_ids@ == now.level(task.lower_level as int).subrange(lo, hi),
        sorted_run(now, output),
        lo > 0 ==> key_lt(
            last_of(now, now.level(task.lower_level as int)[lo - 1]),
            first_of(now, output[0]),
        ),
        hi < now.level(task.lower_level as int).len() ==> key_lt(
            last_of(now, output.last()),
            first_of(now, now.level(task.lower_level as int)[hi]),
        ),
        forall|id: usize| #[trigger] output.contains(id) ==> !now.level(task.lower_level as int).contains(id),
        forall|id: usize|
            #[trigger] task.upper_level_sst_ids@.contains(id) ==> !output.contains(id) && !now.level(
                task.lower_level as int,
            ).contains(id),
        task.upper_level matches Some(u) ==> u != task.lower_level,
    ensures
        r.0.level(task.lower_level as int) == now.level(task.lower_level as int).subrange(0, lo) + output
            + now.level(task.lower_level as int).subrange(hi, now.level(task.lower_level as int).len() as int),
        sorted_run(r.0, r.0.level(task.lower_level as int)),
{
    let l = task.lower_level as int;
    let lv = now.levels_view();
    let ll = lv[l].1;
    let n = ll.len() as int;
    let upper = task.upper_level_sst_ids@;
    let lower = task.lower_level_sst_ids@;
    let p = choose|p: int|
        insert_point_ok(now, task, output, false, p) && #[trigger] leveled_applied_at(
            now,
            task,
            output,
            p,
            r,
        );
    lemma_sorted_run_monotone(now, ll, first_of(now, output[0]));
    lemma_output_slot(now, ll, lo, hi, output);
    let spliced = ll.subrange(0, p) + output + ll.subrange(p, n);
    let lv1 = lv.update(l, (lv[l].0, spliced));
    let lv2 = match task.upper_level {
        Some(u) => lv1.update(u as int, (lv1[u as int].0, without(lv1[u as int].1, upper))),
        None => lv1,
    };
    assert(lv2[l].1 == spliced);
    assert(r.0.level(l) == without(spliced, lower));
    lemma_run_distinct(now, ll);
    assert forall|j: int| 0 <= j < output.len() implies !ll.contains(#[trigger] output[j]) by {
        assert(output.contains(output[j]));
    }
    lemma_splice_without(ll, lo, p, hi, output, lower);
    let nl = ll.subrange(0, lo) + output + ll.subrange(hi, n);
    lemma_run_assembled(now, ll, lo, hi, output);
    lemma_without(spliced, lower);
    lemma_ids_kept(ll, lo, hi, output, lower, upper);
    assert(now.tables_known(nl)) by {
        assert forall|j: int| 0 <= j < nl.len() implies now.sstables@.contains_key(#[trigger] nl[j]) by {
            assert(table_ok(now, nl[j]));
        }
    }
    lemma_tables_kept(now, r.0, nl, lower, upper);
    lemma_run_known(now, r.0, nl);
}

impl LeveledCompactionController {

    pub closed spec fn options_view(&self) -> LeveledCompactionOptions {
        self.options
    }

    pub fn new(options: LeveledCompactionOptions) -> (r: Self)
        ensures
            r.options_view() == options,
    {
        Self { options }
    }

    /// Generates a compaction task: level 0 merges into the first level with
    /// a target once it holds enough tables; otherwise the level most over its
    /// target, if more than ten tenths over, pushes its smallest-id table into
    /// the overlapping tables of the next level.
    pub fn generate_compaction_task(&self, snapshot: &LsmStorageState) -> (r: Option<
        LeveledCompactionTask,
    >)
        requires
            leveled_can_generate(*snapshot, self.options_view()),
        ensures
            leveled_generated(*snapshot, self.options_view(), r),
    {
        let ghost s = *snapshot;
        let ghost o = self.options;
        let n = snapshot.levels.len();
        if n == 0 {
            return None;
        }
        assert(snapshot.levels@[n - 1].1@ == s.level(n - 1));
        assert(level_size(s, n - 1) <= u64::MAX);
        let last_level_size_b = sum_sizes(snapshot, &snapshot.levels[n - 1].1) as usize;
        let mut target_sizes: Vec<usize> = Vec::new();
        let mut k: usize = 0;
        while k < n
            invariant
                k <= n,
                target_sizes@.len() == k,
                forall|j: int| 0 <= j < k ==> target_sizes@[j] == 0,
            decreases n - k,
        {
            target_sizes.push(0);
            k = k + 1;
        }
        target_sizes.set(n - 1, last_level_size_b);
        let ghost last = last_level_size_b as int;
        let ghost m = o.level_size_multiplier as int;
        if last_level_size_b > self.options.base_level_size_mb * 1024 * 1024 {
            let mut cur = last_level_size_b;
            let mut k: usize = 0;
            while k < n
                invariant_except_break
                    cur > 0 || k == 0,
                invariant
                    n == s.levels@.len(),
                    n >= 1,
                    m > 0,
                    m == self.options.level_size_multiplier,
                    last >= 0,
                    k <= n,
                    target_sizes@.len() == n,
                    cur == div_iter(last, m, k as nat),
                    forall|j: int|
                        #![trigger target_sizes@[j]]
                        0 <= j < n ==> target_sizes@[j] == if j >= n - k {
                            div_iter(last, m, (n - 1 - j) as nat)
                        } else if j == n - 1 {
                            last
                        } else {
                            0
                        },
                ensures
                    k == n || (cur == 0 && k >= 1),
                    cur == div_iter(last, m, k as nat),
                    target_sizes@.len() == n,
                    forall|j: int|
                        #![trigger target_sizes@[j]]
                        0 <= j < n ==> target_sizes@[j] == if j >= n - k {
                            div_iter(last, m, (n - 1 - j) as nat)
                        } else if j == n - 1 {
                            last
                        } else {
                            0
                        },
                decreases n - k,
            {
                proof {
                    lemma_div_iter(last, m, 0, k as nat);
                    lemma_div_iter(last, m, k as nat, (k + 1) as nat);
                }
                target_sizes.set(n - 1 - k, cur);
                cur = cur / self.options.level_size_multiplier;
                k = k + 1;
                if cur == 0 {
                    break;
                }
            }
            proof {
                assert forall|j: int| 0 <= j < n implies #[trigger] target_sizes@[j] == target_size(s, o, j) by {
                    if j < n - k {
                        lemma_div_iter(last, m, k as nat, (n - 1 - j) as nat);
                    }
                }
            }
        }
        assert(forall|j: int| 0 <= j < n ==> #[trigger] target_sizes@[j] == target_size(s, o, j));
        // Trigger 1: level 0 holds enough tables.
        if snapshot.l0_sstables.len() >= self.options.level0_file_num_compaction_trigger {
            let mut flush_target: usize = 0;
            while flush_target < n && target_sizes[flush_target] == 0
                invariant
                    flush_target <= n,
                    n == s.levels@.len(),
                    target_sizes@.len() == n,
                    forall|j: int| 0 <= j < n ==> #[trigger] target_sizes@[j] == target_size(s, o, j),
                    first_target(s, o, 0) == first_target(s, o, flush_target as int),
                decreases n - flush_target,
            {
                flush_target = flush_target + 1;
            }
            if flush_target == n {
                flush_target = n - 1;
            }
            assert(flush_target == first_target(s, o, 0));
            let overlapping_ssts = self.find_overlapping_ssts(snapshot, &snapshot.l0_sstables, flush_target);
            return Some(
                LeveledCompactionTask {
                    upper_level: None,
                    upper_level_sst_ids: copy_ids(&snapshot.l0_sstables),
                    lower_level: flush_target,
                    lower_level_sst_ids: overlapping_ssts,
                    is_lower_level_bottom_level: flush_target == n - 1,
                },
            );
        }
        // Trigger 2: a level is too far over its target.
        if n == 1 {
            return None;
        }
        let mut ratios: Vec<usize> = Vec::new();
        let mut i: usize = 0;
        while i < n - 1
            invariant
                s == *snapshot,
                n == s.levels@.len(),
                n >= 2,
                i <= n - 1,
                ratios@.len() == i,
                levels_known(s),
                target_sizes@.len() == n,
                forall|j: int| 0 <= j < n ==> #[trigger] target_sizes@[j] == target_size(s, o, j),
                forall|j: int|
                    0 <= j < n ==> #[trigger] level_size(s, j) * 10 <= usize::MAX && level_size(s, j)
                        <= u64::MAX,
                forall|j: int| 0 <= j < i ==> #[trigger] ratios@[j] == ratio(s, o, j),
            decreases n - 1 - i,
        {
            assert(snapshot.levels@[i as int].1@ == s.level(i as int));
            assert(s.tables_known(s.level(i as int)));
            assert(level_size(s, i as int) <= u64::MAX);
            let cur = sum_sizes(snapshot, &snapshot.levels[i].1) as usize;
            let target = target_sizes[i];
            let r = if target == 0 {
                0
            } else {
                cur * 10 / target
            };
            ratios.push(r);
            i = i + 1;
        }
        let mut max_ratio_v: usize = ratios[0];
        let mut i: usize = 1;
        while i < n - 1
            invariant
                n >= 2,
                1 <= i <= n - 1,
                ratios@.len() == n - 1,
                forall|j: int| 0 <= j < n - 1 ==> #[trigger] ratios@[j] == ratio(s, o, j),
                max_ratio_v == max_ratio(s, o, i as int),
            decreases n - 1 - i,
        {
            if ratios[i] >= max_ratio_v {
                max_ratio_v = ratios[i];
            }
            i = i + 1;
        }
        if max_ratio_v > 10 {
            let mut to_compact: usize = 0;
            proof {
                lemma_max_ratio_attained(s, o, (n - 1) as int);
            }
            while ratios[to_compact] != max_ratio_v
                invariant
                    to_compact < n - 1,
                    n >= 2,
                    ratios@.len() == n - 1,
                    forall|j: int| 0 <= j < n - 1 ==> #[trigger] ratios@[j] == ratio(s, o, j),
                    max_ratio_v == max_ratio(s, o, n - 1),
                    exists|j: int| to_compact <= j < n - 1 && ratio(s, o, j) == max_ratio_v,
                    first_with_ratio(s, o, max_ratio_v as int, 0) == first_with_ratio(
                        s,
                        o,
                        max_ratio_v as int,
                        to_compact as int,
                    ),
                decreases n - 1 - to_compact,
            {
                to_compact = to_compact + 1;
            }
            assert(to_compact == level_to_compact(s, o));
            let sst_ids = &snapshot.levels[to_compact].1;
            assert(sst_ids@ == s.level(to_compact as int));
            proof {
                assert(ratio(s, o, to_compact as int) == max_ratio_v);
                if sst_ids@.len() == 0 {
                    assert(level_size(s, to_compact as int) == 0);
                    let t = target_size(s, o, to_compact as int);
                    assert(t == 0 || 0int * 10 / t == 0) by (nonlinear_arith);
                }
            }
            let mut min_sst_id = sst_ids[0];
            let mut j: usize = 1;
            while j < sst_ids.len()
                invariant
                    1 <= j <= sst_ids@.len(),
                    min_sst_id == min_id(sst_ids@.subrange(0, j as int)),
                decreases sst_ids@.len() - j,
            {
                assert(sst_ids@.subrange(0, j + 1).drop_last() =~= sst_ids@.subrange(0, j as int));
                if sst_ids[j] < min_sst_id {
                    min_sst_id = sst_ids[j];
                }
                j = j + 1;
            }
            assert(sst_ids@.subrange(0, j as int) =~= sst_ids@);
            let mut one: Vec<usize> = Vec::new();
            one.push(min_sst_id);
            assert(one@ =~= seq![min_sst_id]);
            let overlapping_ssts = self.find_overlapping_ssts(snapshot, &one, to_compact + 1);
            return Some(
                LeveledCompactionTask {
                    upper_level: Some(to_compact),
                    upper_level_sst_ids: one,
                    lower_level: to_compact + 1,
                    lower_level_sst_ids: overlapping_ssts,
                    is_lower_level_bottom_level: to_compact == n - 2,
                },
            );
        }
        None
    }
    /// The tables of level `in_level` whose key range meets the combined key
    /// range of `sst_ids`.
    fn find_overlapping_ssts(&self, snapshot: &LsmStorageState, sst_ids: &Vec<usize>, in_level: usize) -> (r: Vec<usize>)
        requires
            sst_ids@.len() >= 1,
            forall|j: int| 0 <= j < sst_ids@.len() ==> table_ok(*snapshot, #[trigger] sst_ids@[j]),
            in_level < snapshot.levels@.len(),
            sorted_run(*snapshot, snapshot.level(in_level as int)),
        ensures
            r@ == overlapping(*snapshot, sst_ids@, snapshot.level(in_level as int)),
    {
        let ghost s = *snapshot;
        let mut first_key = copy_bytes(&snapshot.get_info(sst_ids[0]).first_key);
        let mut last_key = copy_bytes(&snapshot.get_info(sst_ids[0]).last_key);
        let mut i: usize = 0;
        proof {
            crate::key::lemma_key_lt_irreflexive(first_of(s, sst_ids@[0]));
            crate::key::lemma_key_lt_irreflexive(last_of(s, sst_ids@[0]));
        }
        while i < sst_ids.len()
            invariant
                s == *snapshot,
                sst_ids@.len() >= 1,
                forall|j: int| 0 <= j < sst_ids@.len() ==> table_ok(s, #[trigger] sst_ids@[j]),
                i <= sst_ids@.len(),
                first_key@ == if i == 0 {
                    first_of(s, sst_ids@[0])
                } else {
                    min_first(s, sst_ids@.subrange(0, i as int))
                },
                last_key@ == if i == 0 {
                    last_of(s, sst_ids@[0])
                } else {
                    max_last(s, sst_ids@.subrange(0, i as int))
                },
            decreases sst_ids@.len() - i,
        {
            let info = snapshot.get_info(sst_ids[i]);
            proof {
                let pre = sst_ids@.subrange(0, i + 1);
                assert(pre.last() == sst_ids@[i as int]);
                if i > 0 {
                    assert(pre.drop_last() =~= sst_ids@.subrange(0, i as int));
                } else {
                    crate::key::lemma_key_lt_irreflexive(first_of(s, sst_ids@[0]));
                    crate::key::lemma_key_lt_irreflexive(last_of(s, sst_ids@[0]));
                }
            }
            if !key_less(first_key.as_slice(), info.first_key.as_slice()) {
                first_key = copy_bytes(&info.first_key);
            }
            if key_less(last_key.as_slice(), info.last_key.as_slice()) {
                last_key = copy_bytes(&info.last_key);
            }
            i = i + 1;
        }
        assert(sst_ids@.subrange(0, i as int) =~= sst_ids@);
        let level = &snapshot.levels[in_level].1;
        assert(level@ == s.level(in_level as int));
        proof {
            lemma_sorted_run_monotone(s, level@, first_key@);
            lemma_sorted_run_monotone(s, level@, last_key@);
            assert forall|j: int| 0 <= j < level@.len() implies s.sstables@.contains_key(#[trigger] level@[j]) by {
                assert(table_ok(s, level@[j]));
            }
        }
        let start = partition_point(snapshot, level, first_key.as_slice(), true);
        let end = partition_point(snapshot, level, last_key.as_slice(), false);
        proof {
            lemma_min_max(s, sst_ids@);
            lemma_split_point(s, level@, first_key@, true);
            lemma_split_point(s, level@, last_key@, false);
            if end < start {
                let j = end as int;
                assert(split_test(s, level@[j], first_key@, true));
                assert(!split_test(s, level@[j], last_key@, false));
                // last(t) < min_first <= max_last < first(t) contradicts first(t) <= last(t)
                assert(table_ok(s, level@[j]));
                lemma_key_lt_total(last_key@, first_key@);
                lemma_key_lt_total(last_of(s, level@[j]), first_of(s, level@[j]));
                if last_key@ == first_key@ {
                    lemma_key_lt_transitive(last_of(s, level@[j]), first_key@, first_of(s, level@[j]));
                } else {
                    lemma_key_lt_transitive(last_of(s, level@[j]), first_key@, last_key@);
                    lemma_key_lt_transitive(last_of(s, level@[j]), last_key@, first_of(s, level@[j]));
                }
            }
        }
        let mut r: Vec<usize> = Vec::new();
        let mut k: usize = start;
        while k < end
            invariant
                start <= k <= end <= level@.len(),
                r@ == level@.subrange(start as int, k as int),
            decreases end - k,
        {
            r.push(level[k]);
            k = k + 1;
            assert(r@ =~= level@.subrange(start as int, k as int));
        }
        r
    }

    /// Applies the compaction result: the output goes into the lower level
    /// where its first key belongs (at the front during recovery), and the
    /// tables that the task read leave their levels and the tree. Returns the
    /// new state and the ids of the tables to delete.
    pub fn apply_compaction_result(
        &self,
        snapshot: &LsmStorageState,
        task: &LeveledCompactionTask,
        output: &[usize],
        in_recovery: bool,
    ) -> (r: (LsmStorageState, Vec<usize>))
        requires
            leveled_can_apply(*snapshot, *task, output@, in_recovery),
        ensures
            leveled_applied(*snapshot, *task, output@, in_recovery, r),
    {
        let ghost s = *snapshot;
        let mut new_state = snapshot.clone_state();
        assert(new_state.levels@.len() == new_state.levels_view().len());
        let mut insert_position: usize = 0;
        let lower_level = task.lower_level;
        assert(snapshot.levels@[lower_level as int].1@ == s.level(lower_level as int));
        if !in_recovery {
            let first_key = copy_bytes(&snapshot.get_info(output[0]).first_key);
            insert_position = partition_point(
                snapshot,
                &snapshot.levels[lower_level].1,
                first_key.as_slice(),
                true,
            );
        }
        assert(insert_point_ok(s, *task, output@, in_recovery, insert_position as int));
        let lower_ids = &new_state.levels[lower_level].1;
        assert(lower_ids@ == s.level(lower_level as int));
        let mut spliced: Vec<usize> = Vec::new();
        let mut k: usize = 0;
        while k < insert_position
            invariant
                insert_position <= lower_ids@.len(),
                k <= insert_position,
                spliced@ == lower_ids@.subrange(0, k as int),
            decreases insert_position - k,
        {
            spliced.push(lower_ids[k]);
            k = k + 1;
            assert(spliced@ =~= lower_ids@.subrange(0, k as int));
        }
        let mut k: usize = 0;
        let ghost base = spliced@;
        while k < output.len()
            invariant
                k <= output@.len(),
                spliced@ == base + output@.subrange(0, k as int),
            decreases output@.len() - k,
        {
            spliced.push(output[k]);
            k = k + 1;
            assert(spliced@ =~= base + output@.subrange(0, k as int));
        }
        assert(output@.subrange(0, output@.len() as int) =~= output@);
        let mut k: usize = insert_position;
        let ghost base2 = spliced@;
        while k < lower_ids.len()
            invariant
                insert_position <= k <= lower_ids@.len(),
                spliced@ == base2 + lower_ids@.subrange(insert_position as int, k as int),
            decreases lower_ids@.len() - k,
        {
            spliced.push(lower_ids[k]);
            k = k + 1;
            assert(spliced@ =~= base2 + lower_ids@.subrange(insert_position as int, k as int));
        }
        let lower_id = new_state.levels[lower_level].0;
        new_state.levels.set(lower_level, (lower_id, spliced));
        let ghost lv1 = new_state.levels_view();
        assert(lv1 =~= s.levels_view().update(lower_level as int, (lower_id, spliced@)));
        if let Some(upper_level) = task.upper_level {
            let kept = ids_without(&new_state.levels[upper_level].1, &task.upper_level_sst_ids);
            let upper_id = new_state.levels[upper_level].0;
            new_state.levels.set(upper_level, (upper_id, kept));
            assert(new_state.levels_view() =~= lv1.update(
                upper_level as int,
                (lv1[upper_level as int].0, without(lv1[upper_level as int].1, task.upper_level_sst_ids@)),
            ));
        } else {
            new_state.l0_sstables = ids_without(&new_state.l0_sstables, &task.upper_level_sst_ids);
        }
        let ghost lv2 = new_state.levels_view();
        let kept = ids_without(&new_state.levels[lower_level].1, &task.lower_level_sst_ids);
        new_state.levels.set(lower_level, (lower_id, kept));
        assert(new_state.levels_view() =~= lv2.update(
            lower_level as int,
            (lv2[lower_level as int].0, without(lv2[lower_level as int].1, task.lower_level_sst_ids@)),
        ));
        new_state.remove_tables(&task.lower_level_sst_ids);
        new_state.remove_tables(&task.upper_level_sst_ids);
        let to_delete = concat_ids(&task.upper_level_sst_ids, &task.lower_level_sst_ids);
        assert(leveled_applied_at(s, *task, output@, insert_position as int, (new_state, to_delete)));
        (new_state, to_delete)
    }
}

} // verus!
