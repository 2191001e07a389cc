//! Writes the entries that a compaction merges into new tables.
use super::CompactionTask;
use crate::iterators::concat_iterator::{tables_entries, tables_ok, SstConcatIterator};
use crate::iterators::merge_iterator::{
    all_sorted, kmerge, law_kmerge, law_kmerge_reads_first, lemma_first_run_with_key, MergeIterator,
};
use crate::iterators::two_merge_iterator::{law_merge2, law_merge2_reads_first, merge2, TwoMergeIterator};
use crate::iterators::{
    entry_for, key_in, lemma_entry_for, lemma_newest_entry, newest_entry, sorted, Entry,
    StorageError, StorageIterator,
};
use crate::key::key_lt;
use crate::table::roundtrip::{entries_fit, lemma_fit_subrange};
use crate::table::{SsTable, SsTableBuilder, SsTableIterator};
use std::collections::HashMap;
use std::sync::Arc;
use vstd::prelude::*;

verus! {

broadcast use vstd::std_specs::hash::group_hash_axioms;

/// New tables that hold `entries`, one run after another: each can be read,
/// holds an entry, records its first and last keys, and takes its id in
/// turn from `first_id` on.
pub open spec fn built_tables(tables: Seq<Arc<SsTable>>, entries: Seq<Entry>, first_id: int) -> bool {
    &&& tables_ok(tables)
    &&& tables_entries(tables, 0) == entries
    &&& forall|i: int|
        0 <= i < tables.len() ==> {
            &&& (#[trigger] tables[i]).id == first_id + i
            &&& tables[i].first_key@ == tables[i].entries()[0].0
            &&& tables[i].last_key@ == tables[i].entries().last().0
        }
}

/// Each id names a table of the store that can be read and holds an entry.
pub open spec fn ids_ok(tables: Map<usize, Arc<SsTable>>, ids: Seq<usize>) -> bool {
    forall|i: int|
        0 <= i < ids.len() ==> tables.contains_key(#[trigger] ids[i]) && tables[ids[i]].wf()
            && tables[ids[i]].entries().len() > 0
}

/// The tables that the ids name, in order.
pub open spec fn run_of(tables: Map<usize, Arc<SsTable>>, ids: Seq<usize>) -> Seq<Arc<SsTable>> {
    ids.map_values(|id: usize| tables[id])
}

/// The entries of the tables that the ids name, one table after another.
pub open spec fn concat_input(tables: Map<usize, Arc<SsTable>>, ids: Seq<usize>) -> Seq<Entry> {
    tables_entries(run_of(tables, ids), 0)
}

/// The merge of the tables that the ids name, the earlier id winning on a tie.
pub open spec fn merge_input(tables: Map<usize, Arc<SsTable>>, ids: Seq<usize>) -> Seq<Entry> {
    kmerge(Seq::new(ids.len(), |i: int| tables[ids[i]].entries()))
}

/// The entries that a compaction task reads: level 0 (whose tables overlap)
/// merged, any other level read in order, and the upper run merged with the
/// lower one, the upper run winning on a tie; for tiers, the tiers merged,
/// the earlier tier winning.
pub open spec fn compaction_input(tables: Map<usize, Arc<SsTable>>, task: CompactionTask) -> Seq<Entry> {
    match task {
        CompactionTask::ForceFullCompaction { l0_sstables, l1_sstables } => merge2(
            merge_input(tables, l0_sstables@),
            concat_input(tables, l1_sstables@),
        ),
        CompactionTask::Leveled(t) => if t.upper_level is None {
            merge2(
                merge_input(tables, t.upper_level_sst_ids@),
                concat_input(tables, t.lower_level_sst_ids@),
            )
        } else {
            merge2(
                concat_input(tables, t.upper_level_sst_ids@),
                concat_input(tables, t.lower_level_sst_ids@),
            )
        },
        CompactionTask::Simple(t) => if t.upper_level == Some(0usize) {
            merge2(
                merge_input(tables, t.upper_level_sst_ids@),
                concat_input(tables, t.lower_level_sst_ids@),
            )
        } else {
            merge2(
                concat_input(tables, t.upper_level_sst_ids@),
                concat_input(tables, t.lower_level_sst_ids@),
            )
        },
        CompactionTask::Tiered(t) => kmerge(
            Seq::new(t.tiers@.len(), |i: int| concat_input(tables, t.tiers@[i].1@)),
        ),
    }
}

/// Every table that the task names can be read and holds an entry.
pub open spec fn compaction_runs_ok(tables: Map<usize, Arc<SsTable>>, task: CompactionTask) -> bool {
    match task {
        CompactionTask::ForceFullCompaction { l0_sstables, l1_sstables } => {
            &&& ids_ok(tables, l0_sstables@)
            &&& ids_ok(tables, l1_sstables@)
        },
        CompactionTask::Leveled(t) => {
            &&& ids_ok(tables, t.upper_level_sst_ids@)
            &&& ids_ok(tables, t.lower_level_sst_ids@)
        },
        CompactionTask::Simple(t) => {
            &&& ids_ok(tables, t.upper_level_sst_ids@)
            &&& ids_ok(tables, t.lower_level_sst_ids@)
        },
        CompactionTask::Tiered(t) => forall|i: int|
            0 <= i < t.tiers@.len() ==> ids_ok(tables, (#[trigger] t.tiers@[i]).1@),
    }
}

/// The tables that the ids name.
fn collect_tables(tables: &HashMap<usize, Arc<SsTable>>, ids: &Vec<usize>) -> (r: Vec<Arc<SsTable>>)
    requires
        forall|i: int| 0 <= i < ids@.len() ==> tables@.contains_key(#[trigger] ids@[i]),
    ensures
        r@ == run_of(tables@, ids@),
{
    let mut out: Vec<Arc<SsTable>> = Vec::new();
    let mut i: usize = 0;
    while i < ids.len()
        invariant
            forall|i: int| 0 <= i < ids@.len() ==> tables@.contains_key(#[trigger] ids@[i]),
            i <= ids@.len(),
            out@ == run_of(tables@, ids@.subrange(0, i as int)),
        decreases ids@.len() - i,
    {
        assert(tables@.contains_key(ids@[i as int]));
        let t = tables.get(&ids[i]).unwrap().clone();
        out.push(t);
        i = i + 1;
        assert(out@ =~= run_of(tables@, ids@.subrange(0, i as int)));
    }
    assert(ids@.subrange(0, i as int) =~= ids@);
    out
}

/// Reads the tables that the ids name one after another.
fn concat_of(tables: &HashMap<usize, Arc<SsTable>>, ids: &Vec<usize>) -> (r: Result<SstConcatIterator, StorageError>)
    requires
        ids_ok(tables@, ids@),
    ensures
        r matches Ok(it) && it.inv() && it.infallible() && it.remaining() == concat_input(tables@, ids@),
{
    let run = collect_tables(tables, ids);
    assert forall|i: int| 0 <= i < run@.len() implies (#[trigger] run@[i]).wf() && run@[i].entries().len() > 0 by {
        assert(run@[i] == tables@[ids@[i]]);
    }
    SstConcatIterator::create_and_seek_to_first(run)
}

/// Merges the tables that the ids name, the earlier id winning on a tie.
fn merge_of(tables: &HashMap<usize, Arc<SsTable>>, ids: &Vec<usize>) -> (r: MergeIterator<SsTableIterator>)
    requires
        ids_ok(tables@, ids@),
    ensures
        r.inv(),
        r.infallible(),
        r.remaining() == merge_input(tables@, ids@),
{
    let mut iters: Vec<Box<SsTableIterator>> = Vec::new();
    let mut i: usize = 0;
    while i < ids.len()
        invariant
            ids_ok(tables@, ids@),
            i <= ids@.len(),
            iters@.len() == i,
            forall|j: int| 0 <= j < i ==> (#[trigger] iters@[j]).inv() && iters@[j].remaining()
                == tables@[ids@[j]].entries(),
        decreases ids@.len() - i,
    {
        assert(tables@.contains_key(ids@[i as int]));
        let t = tables.get(&ids[i]).unwrap().clone();
        let it = SsTableIterator::create_and_seek_to_first(t);
        iters.push(Box::new(it));
        i = i + 1;
    }
    let r = MergeIterator::create(iters);
    assert(Seq::new(iters@.len(), |j: int| iters@[j].remaining()) =~= Seq::new(
        ids@.len(),
        |j: int| tables@[ids@[j]].entries(),
    ));
    r
}

/// The entries that a compaction keeps: all of them, or, when it writes the
/// bottom level, those whose value is not empty (an empty value marks a
/// deletion, and nothing older can lie below the bottom level).
pub open spec fn kept_entries(s: Seq<Entry>, to_bottom: bool) -> Seq<Entry>
    decreases s.len(),
{
    if s.len() == 0 {
        Seq::empty()
    } else if to_bottom && s[0].1.len() == 0 {
        kept_entries(s.drop_first(), to_bottom)
    } else {
        seq![s[0]] + kept_entries(s.drop_first(), to_bottom)
    }
}

/// A compaction drops deletions where it drops them, and nothing else: an
/// entry is kept exactly when it was read and is not a deletion being
/// dropped; the kept entries stay in order, so sorted input gives sorted
/// output.
pub proof fn law_kept_entries(s: Seq<Entry>, to_bottom: bool)
    ensures
        forall|e: Entry|
            #[trigger] kept_entries(s, to_bottom).contains(e) <==> s.contains(e) && !(to_bottom
                && e.1.len() == 0),
        sorted(s) ==> sorted(kept_entries(s, to_bottom)),
    decreases s.len(),
{
    if s.len() > 0 {
        let t = s.drop_first();
        law_kept_entries(t, to_bottom);
        let kt = kept_entries(t, to_bottom);
        assert(s =~= seq![s[0]] + t);
        assert forall|e: Entry| #[trigger] kept_entries(s, to_bottom).contains(e) <==> s.contains(e)
            && !(to_bottom && e.1.len() == 0) by {
            if s.contains(e) {
                let i = choose|i: int| 0 <= i < s.len() && s[i] == e;
                if i > 0 {
                    assert(t[i - 1] == e);
                }
            }
            if t.contains(e) {
                let i = choose|i: int| 0 <= i < t.len() && t[i] == e;
                assert(s[i + 1] == e);
            }
            if !(to_bottom && s[0].1.len() == 0) {
                let ks = seq![s[0]] + kt;
                if ks.contains(e) {
                    let i = choose|i: int| 0 <= i < ks.len() && ks[i] == e;
                    if i > 0 {
                        assert(kt[i - 1] == e);
                    }
                }
                if kt.contains(e) {
                    let i = choose|i: int| 0 <= i < kt.len() && kt[i] == e;
                    assert(ks[i + 1] == e);
                }
                assert(ks[0] == s[0]);
            }
        }
        if sorted(s) {
            assert(sorted(t)) by {
                assert forall|i: int, j: int| 0 <= i < j < t.len() implies key_lt(
                    #[trigger] t[i].0,
                    #[trigger] t[j].0,
                ) by {
                    assert(t[i] == s[i + 1] && t[j] == s[j + 1]);
                }
            }
            if !(to_bottom && s[0].1.len() == 0) {
                let ks = seq![s[0]] + kt;
                assert forall|i: int, j: int| 0 <= i < j < ks.len() implies key_lt(
                    #[trigger] ks[i].0,
                    #[trigger] ks[j].0,
                ) by {
                    if i == 0 {
                        assert(kt.contains(ks[j])) by {
                            assert(kt[j - 1] == ks[j]);
                        }
                        assert(t.contains(ks[j]));
                        let q = choose|q: int| 0 <= q < t.len() && t[q] == ks[j];
                        assert(s[q + 1] == ks[j]);
                        assert(key_lt(s[0].0, s[q + 1].0));
                    } else {
                        assert(ks[i] == kt[i - 1] && ks[j] == kt[j - 1]);
                    }
                }
            }
        }
    }
}

/// What a read of key `k` finds once a compaction has kept its entries: the
/// entry that it read for the key, unless that entry is a deletion being
/// dropped.
pub proof fn law_kept_reads(s: Seq<Entry>, to_bottom: bool, k: Seq<u8>)
    requires
        sorted(s),
    ensures
        entry_for(kept_entries(s, to_bottom), k) == match entry_for(s, k) {
            Some(e) => if to_bottom && e.1.len() == 0 {
                None
            } else {
                Some(e)
            },
            None => None,
        },
{
    law_kept_entries(s, to_bottom);
    let t = kept_entries(s, to_bottom);
    if key_in(s, k) {
        let j = choose|j: int| 0 <= j < s.len() && #[trigger] s[j].0 == k;
        lemma_entry_for(s, j);
        let e = s[j];
        assert(s.contains(e));
        if to_bottom && e.1.len() == 0 {
            assert(!key_in(t, k)) by {
                if key_in(t, k) {
                    let p = choose|p: int| 0 <= p < t.len() && #[trigger] t[p].0 == k;
                    assert(t.contains(t[p]));
                    assert(s.contains(t[p]));
                    let j2 = choose|j2: int| 0 <= j2 < s.len() && s[j2] == t[p];
                    lemma_entry_for(s, j2);
                }
            }
        } else {
            assert(t.contains(e));
            let p = choose|p: int| 0 <= p < t.len() && t[p] == e;
            lemma_entry_for(t, p);
        }
    } else {
        assert(!key_in(t, k)) by {
            if key_in(t, k) {
                let p = choose|p: int| 0 <= p < t.len() && #[trigger] t[p].0 == k;
                assert(t.contains(t[p]));
                assert(s.contains(t[p]));
                let j2 = choose|j2: int| 0 <= j2 < s.len() && s[j2] == t[p];
                assert(s[j2].0 == k);
            }
        }
    }
}

/// The runs that a full compaction reads, newest first: each table of level
/// 0 in order, then level 1 read in order.
pub open spec fn full_compaction_runs(
    tables: Map<usize, Arc<SsTable>>,
    l0: Seq<usize>,
    l1: Seq<usize>,
) -> Seq<Seq<Entry>> {
    Seq::new(l0.len(), |i: int| tables[l0[i]].entries()).push(concat_input(tables, l1))
}

/// The newest entry of two runs.
proof fn lemma_newest_two(x: Seq<Entry>, y: Seq<Entry>, k: Seq<u8>)
    ensures
        newest_entry(seq![x, y], k) == if key_in(x, k) {
            entry_for(x, k)
        } else if key_in(y, k) {
            entry_for(y, k)
        } else {
            None
        },
{
    let two = seq![x, y];
    assert(two[0] == x);
    assert(two.drop_first() =~= seq![y]);
    assert(seq![y][0] == y);
    assert(seq![y].drop_first() =~= Seq::<Seq<Entry>>::empty());
    assert(newest_entry(seq![y], k) == if key_in(y, k) {
        entry_for(y, k)
    } else {
        newest_entry(Seq::<Seq<Entry>>::empty(), k)
    });
}

/// The newest entry among the merge of some runs and a last run is the
/// newest among all of them, the merged runs first.
proof fn lemma_newest_of_merged(up: Seq<Seq<Entry>>, lo: Seq<Entry>, k: Seq<u8>)
    requires
        all_sorted(up),
    ensures
        newest_entry(seq![kmerge(up), lo], k) == newest_entry(up.push(lo), k),
{
    let km = kmerge(up);
    let runs = up.push(lo);
    law_kmerge_reads_first(up, k);
    lemma_newest_entry(up, k);
    lemma_newest_entry(runs, k);
    lemma_newest_two(km, lo, k);
    assert(runs[up.len() as int] == lo);
    if exists|i: int| 0 <= i < up.len() && key_in(#[trigger] up[i], k) {
        let i0 = choose|i: int| 0 <= i < up.len() && key_in(#[trigger] up[i], k);
        let i = lemma_first_run_with_key(up, k, i0);
        assert forall|j: int| 0 <= j < i implies !key_in(#[trigger] runs[j], k) by {
            assert(runs[j] == up[j]);
        }
        assert(runs[i] == up[i]);
        assert(key_in(km, k));
    } else {
        assert(!key_in(km, k));
        if key_in(lo, k) {
            assert forall|j: int| 0 <= j < up.len() implies !key_in(#[trigger] runs[j], k) by {
                assert(runs[j] == up[j]);
            }
        } else {
            assert forall|j: int| 0 <= j < runs.len() implies !key_in(#[trigger] runs[j], k) by {
                if j < up.len() {
                    assert(runs[j] == up[j]);
                }
            }
        }
    }
}

/// A full compaction of sorted tables keeps, for each key, the entry of the
/// newest run that holds it (the level 0 tables newest first, then level 1),
/// and drops it when it is a deletion; a key that no run holds stays absent.
pub proof fn law_full_compaction_keeps_newest(
    tables: Map<usize, Arc<SsTable>>,
    task: CompactionTask,
    k: Seq<u8>,
)
    requires
        task matches CompactionTask::ForceFullCompaction { l0_sstables, l1_sstables } && {
            &&& forall|i: int|
                0 <= i < l0_sstables@.len() ==> sorted(#[trigger] tables[l0_sstables@[i]].entries())
            &&& sorted(concat_input(tables, l1_sstables@))
        },
    ensures
        task matches CompactionTask::ForceFullCompaction { l0_sstables, l1_sstables } && entry_for(
            kept_entries(compaction_input(tables, task), task.to_bottom()),
            k,
        ) == match newest_entry(full_compaction_runs(tables, l0_sstables@, l1_sstables@), k) {
            Some(e) => if e.1.len() == 0 {
                None
            } else {
                Some(e)
            },
            None => None,
        },
{
    if let CompactionTask::ForceFullCompaction { l0_sstables, l1_sstables } = task {
        let l0 = l0_sstables@;
        let up = Seq::new(l0.len(), |i: int| tables[l0[i]].entries());
        let lo = concat_input(tables, l1_sstables@);
        assert(all_sorted(up)) by {
            assert forall|i: int| 0 <= i < up.len() implies sorted(#[trigger] up[i]) by {
                assert(up[i] == tables[l0[i]].entries());
            }
        }
        law_kmerge(up);
        let km = kmerge(up);
        law_merge2(km, lo);
        law_merge2_reads_first(km, lo, k);
        law_kept_reads(merge2(km, lo), true, k);
        lemma_newest_of_merged(up, lo, k);
    }
}

/// A compaction from a level into the level below (a leveled or simple
/// leveled task whose upper level is not level 0) keeps, for each key, the
/// entry of the upper level's run when it holds the key, and otherwise the
/// lower level's; it drops that entry when it is a deletion and the lower
/// level is the bottom one. A key that neither run holds stays absent.
pub proof fn law_level_compaction_keeps_newest(
    tables: Map<usize, Arc<SsTable>>,
    task: CompactionTask,
    upper: Seq<usize>,
    lower: Seq<usize>,
    bottom: bool,
    k: Seq<u8>,
)
    requires
        (task matches CompactionTask::Leveled(t) && t.upper_level is Some && t.upper_level_sst_ids@
            == upper && t.lower_level_sst_ids@ == lower && t.is_lower_level_bottom_level == bottom) || (
        task matches CompactionTask::Simple(t) && t.upper_level != Some(0usize)
            && t.upper_level_sst_ids@ == upper && t.lower_level_sst_ids@ == lower
            && t.is_lower_level_bottom_level == bottom),
        sorted(concat_input(tables, upper)),
        sorted(concat_input(tables, lower)),
    ensures
        entry_for(kept_entries(compaction_input(tables, task), task.to_bottom()), k) == match newest_entry(
            seq![concat_input(tables, upper), concat_input(tables, lower)],
            k,
        ) {
            Some(e) => if bottom && e.1.len() == 0 {
                None
            } else {
                Some(e)
            },
            None => None,
        },
{
    let up = concat_input(tables, upper);
    let lo = concat_input(tables, lower);
    law_merge2(up, lo);
    law_merge2_reads_first(up, lo, k);
    law_kept_reads(merge2(up, lo), bottom, k);
}

/// A compaction from level 0 into a level (a leveled task without an upper
/// level, or a simple leveled task from level 0) keeps, for each key, the
/// entry of the first level 0 table that holds it, in the task's order
/// (newest first), and otherwise the lower level's; it drops that entry when
/// it is a deletion and the lower level is the bottom one.
pub proof fn law_level0_compaction_keeps_newest(
    tables: Map<usize, Arc<SsTable>>,
    task: CompactionTask,
    upper: Seq<usize>,
    lower: Seq<usize>,
    bottom: bool,
    k: Seq<u8>,
)
    requires
        (task matches CompactionTask::Leveled(t) && t.upper_level is None && t.upper_level_sst_ids@
            == upper && t.lower_level_sst_ids@ == lower && t.is_lower_level_bottom_level == bottom) || (
        task matches CompactionTask::Simple(t) && t.upper_level == Some(0usize)
            && t.upper_level_sst_ids@ == upper && t.lower_level_sst_ids@ == lower
            && t.is_lower_level_bottom_level == bottom),
        forall|i: int| 0 <= i < upper.len() ==> sorted(#[trigger] tables[upper[i]].entries()),
        sorted(concat_input(tables, lower)),
    ensures
        entry_for(kept_entries(compaction_input(tables, task), task.to_bottom()), k) == match newest_entry(
            full_compaction_runs(tables, upper, lower),
            k,
        ) {
            Some(e) => if bottom && e.1.len() == 0 {
                None
            } else {
                Some(e)
            },
            None => None,
        },
{
    let up = Seq::new(upper.len(), |i: int| tables[upper[i]].entries());
    let lo = concat_input(tables, lower);
    assert(all_sorted(up)) by {
        assert forall|i: int| 0 <= i < up.len() implies sorted(#[trigger] up[i]) by {
            assert(up[i] == tables[upper[i]].entries());
        }
    }
    law_kmerge(up);
    let km = kmerge(up);
    law_merge2(km, lo);
    law_merge2_reads_first(km, lo, k);
    law_kept_reads(merge2(km, lo), bottom, k);
    lemma_newest_of_merged(up, lo, k);
}

/// A tiered compaction keeps, for each key, the entry of the first tier in
/// the task's order (newest first) that holds it; it drops that entry when
/// it is a deletion and the bottom tier is among those merged.
pub proof fn law_tiered_compaction_keeps_newest(
    tables: Map<usize, Arc<SsTable>>,
    task: CompactionTask,
    k: Seq<u8>,
)
    requires
        task matches CompactionTask::Tiered(t) && forall|i: int|
            0 <= i < t.tiers@.len() ==> sorted(concat_input(tables, (#[trigger] t.tiers@[i]).1@)),
    ensures
        task matches CompactionTask::Tiered(t) && entry_for(
            kept_entries(compaction_input(tables, task), task.to_bottom()),
            k,
        ) == match newest_entry(
            Seq::new(t.tiers@.len(), |i: int| concat_input(tables, t.tiers@[i].1@)),
            k,
        ) {
            Some(e) => if t.bottom_tier_included && e.1.len() == 0 {
                None
            } else {
                Some(e)
            },
            None => None,
        },
{
    if let CompactionTask::Tiered(t) = task {
        let rs = Seq::new(t.tiers@.len(), |i: int| concat_input(tables, t.tiers@[i].1@));
        assert(all_sorted(rs)) by {
            assert forall|i: int| 0 <= i < rs.len() implies sorted(#[trigger] rs[i]) by {
                assert(rs[i] == concat_input(tables, t.tiers@[i].1@));
            }
        }
        law_kmerge(rs);
        law_kmerge_reads_first(rs, k);
        law_kept_reads(kmerge(rs), t.bottom_tier_included, k);
    }
}

/// A compaction keeps no more entries than it reads.
pub proof fn lemma_kept_len(s: Seq<Entry>, to_bottom: bool)
    ensures
        kept_entries(s, to_bottom).len() <= s.len(),
    decreases s.len(),
{
    if s.len() > 0 {
        lemma_kept_len(s.drop_first(), to_bottom);
    }
}

/// Adding a table at the end adds its entries at the end.
pub proof fn lemma_tables_entries_push(ts: Seq<Arc<SsTable>>, t: Arc<SsTable>, i: int)
    requires
        0 <= i <= ts.len(),
    ensures
        tables_entries(ts.push(t), i) == tables_entries(ts, i) + t.entries(),
    decreases ts.len() - i,
{
    if i < ts.len() {
        lemma_tables_entries_push(ts, t, i + 1);
        assert(ts.push(t)[i] == ts[i]);
        assert(tables_entries(ts.push(t), i) =~= tables_entries(ts, i) + t.entries());
    } else {
        assert(ts.push(t)[i] == t);
        assert(tables_entries(ts.push(t), i + 1) == Seq::<Entry>::empty());
        assert(tables_entries(ts.push(t), i) =~= tables_entries(ts, i) + t.entries());
    }
}

/// The tables finished so far take their ids in turn from `start` on, and
/// `next` is the id of the next one; they took the first `done` entries to
/// write, at least one each, and with a block size under 64 KiB they read
/// back those entries. The entries to write and the sizes stay within what
/// the tables and the machine can hold.
spec fn outputs_ok(
    output: Seq<Arc<SsTable>>,
    next: usize,
    all: Seq<Entry>,
    start: int,
    done: int,
    block_size: usize,
    target_sst_size: usize,
) -> bool {
    &&& block_size + 0x3_0000 <= usize::MAX
    &&& 2 * block_size <= usize::MAX
    &&& target_sst_size + block_size <= usize::MAX
    &&& entries_fit(all)
    &&& start + all.len() <= usize::MAX
    &&& 0 <= done <= all.len()
    &&& output.len() <= done
    &&& done > 0 ==> output.len() > 0
    &&& forall|i: int| 0 <= i < output.len() ==> (#[trigger] output[i]).id == start + i
    &&& block_size < 0x1_0000 ==> built_tables(output, all.subrange(0, done), start)
    &&& next == start + output.len()
}

/// The state of a run of writes: the tables finished so far and the builder
/// hold, in order, the entries of `all` that come before `rest`.
spec fn writer_ok(
    builder: SsTableBuilder,
    output: Seq<Arc<SsTable>>,
    next: usize,
    all: Seq<Entry>,
    start: int,
    rest: Seq<Entry>,
    block_size: usize,
    target_sst_size: usize,
) -> bool {
    &&& writer_core(builder, output, next, all, start, rest, block_size, target_sst_size)
    &&& (builder.meta_view().len() + 1) * block_size <= target_sst_size || builder.meta_view().len()
        == 0
}

/// The state of a run of writes, but for the bound on the builder's size:
/// the builder holds the entries that follow those of the finished tables,
/// and `rest` follows them.
spec fn writer_core(
    builder: SsTableBuilder,
    output: Seq<Arc<SsTable>>,
    next: usize,
    all: Seq<Entry>,
    start: int,
    rest: Seq<Entry>,
    block_size: usize,
    target_sst_size: usize,
) -> bool {
    let done = all.len() - builder.content().len() - rest.len();
    &&& outputs_ok(output, next, all, start, done, block_size, target_sst_size)
    &&& builder.block_size_view() == block_size
    &&& all.subrange(done, all.len() as int) == builder.content() + rest
}

/// Finishes the builder's table under the next id.
#[verifier::rlimit(60)]
fn finish_table(
    builder: SsTableBuilder,
    output: &mut Vec<Arc<SsTable>>,
    next_sst_id: &mut usize,
    Ghost(all): Ghost<Seq<Entry>>,
    Ghost(start): Ghost<int>,
    Ghost(rest): Ghost<Seq<Entry>>,
    block_size: usize,
    target_sst_size: usize,
)
    requires
        writer_core(builder, old(output)@, *old(next_sst_id), all, start, rest, block_size, target_sst_size),
        builder.content().len() > 0,
    ensures
        outputs_ok(
            final(output)@,
            *final(next_sst_id),
            all,
            start,
            all.len() - rest.len(),
            block_size,
            target_sst_size,
        ),
        all.subrange(all.len() - rest.len(), all.len() as int) == rest,
{
    let ghost content = builder.content();
    let ghost lo = all.len() - content.len() - rest.len();
    let ghost hi = lo + content.len();
    let id = *next_sst_id;
    proof {
        assert(all.subrange(lo, hi) =~= all.subrange(lo, all.len() as int).subrange(0, content.len() as int));
        assert(all.subrange(lo, hi) =~= content);
        lemma_fit_subrange(all, lo, hi);
    }
    *next_sst_id = id + 1;
    let table = Arc::new(builder.build(id));
    let ghost before = output@;
    output.push(table);
    proof {
        assert(all.subrange(hi, all.len() as int) =~= all.subrange(lo, all.len() as int).subrange(
            content.len() as int,
            (content.len() + rest.len()) as int,
        ));
        assert forall|i: int| 0 <= i < output@.len() implies (#[trigger] output@[i]).id == start + i by {
            if i < before.len() {
                assert(output@[i] == before[i]);
            }
        }
        if block_size < 0x1_0000 {
            lemma_tables_entries_push(before, table, 0);
            assert(all.subrange(0, hi) =~= all.subrange(0, lo) + content);
            assert forall|i: int| 0 <= i < output@.len() implies (#[trigger] output@[i]).wf()
                && output@[i].entries().len() > 0 by {
                if i < before.len() {
                    assert(output@[i] == before[i]);
                }
            }
            assert forall|i: int| 0 <= i < output@.len() implies {
                &&& (#[trigger] output@[i]).id == start + i
                &&& output@[i].first_key@ == output@[i].entries()[0].0
                &&& output@[i].last_key@ == output@[i].entries().last().0
            } by {
                if i < before.len() {
                    assert(output@[i] == before[i]);
                }
            }
        }
    }
}

/// Adds an entry to the builder, and finishes the table once its estimated
/// size passes the target.
fn write_entry(
    builder: &mut SsTableBuilder,
    output: &mut Vec<Arc<SsTable>>,
    next_sst_id: &mut usize,
    key: &[u8],
    value: &[u8],
    Ghost(all): Ghost<Seq<Entry>>,
    Ghost(start): Ghost<int>,
    Ghost(rest): Ghost<Seq<Entry>>,
    block_size: usize,
    target_sst_size: usize,
)
    requires
        writer_ok(
            *old(builder),
            old(output)@,
            *old(next_sst_id),
            all,
            start,
            seq![(key@, value@)] + rest,
            block_size,
            target_sst_size,
        ),
    ensures
        writer_ok(
            *final(builder),
            final(output)@,
            *final(next_sst_id),
            all,
            start,
            rest,
            block_size,
            target_sst_size,
        ),
{
    let ghost content = builder.content();
    let ghost lo = all.len() - content.len() - rest.len() - 1;
    proof {
        let hi = lo + content.len() + 1;
        let tail = all.subrange(lo, all.len() as int);
        assert(tail == content + (seq![(key@, value@)] + rest));
        assert(all.subrange(lo, hi - 1) =~= tail.subrange(0, content.len() as int));
        assert(all.subrange(lo, hi - 1) =~= content);
        assert(all.subrange(lo, hi) =~= tail.subrange(0, (content.len() + 1) as int));
        assert(all.subrange(lo, hi) =~= content.push((key@, value@)));
        lemma_fit_subrange(all, lo, hi - 1);
        lemma_fit_subrange(all, lo, hi);
        assert(all.subrange(lo, hi)[content.len() as int] == (key@, value@));
        assert(all[hi - 1] == (key@, value@));
        assert(key@.len() + value@.len() + 14 < 0x1_0000);
        use_type_invariant(&*builder);
        builder.lemma_block_bounded();
        crate::block::builder::lemma_encoded_len(builder.block_parts());
        assert(block_size + 0x3_0000 <= usize::MAX);
        assert(builder.block_size_view() == block_size);
        assert(crate::block::builder::add_bound(
            builder.block_parts().0.len() as int,
            builder.block_parts().1.len() as int,
            key@.len() as int,
            value@.len() as int,
        ) <= usize::MAX);
        let m = builder.meta_view().len();
        assert((m + 2) * block_size == (m + 1) * block_size + block_size) by (nonlinear_arith);
        assert(2 * block_size == block_size + block_size);
    }
    builder.add(key, value);
    proof {
        assert(all.subrange(lo, all.len() as int) =~= builder.content() + rest);
    }
    if builder.estimated_size() > target_sst_size {
        let mut finished = SsTableBuilder::new(block_size);
        std::mem::swap(builder, &mut finished);
        finish_table(
            finished,
            output,
            next_sst_id,
            Ghost(all),
            Ghost(start),
            Ghost(rest),
            block_size,
            target_sst_size,
        );
        assert(all.subrange(all.len() - rest.len(), all.len() as int) =~= builder.content() + rest);
    }
}

/// Drains the iterator into new tables: each entry that the compaction keeps
/// is added in turn, and a table is finished as soon as its estimated size
/// passes `target_sst_size`; the last table holds what is left. Tables take
/// ids from `next_sst_id` on, in order. Block offsets and lengths take 16
/// bits, so the tables are known to read back the entries where the block
/// size is under 64 KiB.
pub fn build_ssts_from_iter<I: StorageIterator>(
    iter: I,
    compact_to_bottom: bool,
    block_size: usize,
    target_sst_size: usize,
    next_sst_id: &mut usize,
) -> (r: Result<Vec<Arc<SsTable>>, StorageError>)
    requires
        iter.inv(),
        block_size + 0x3_0000 <= usize::MAX,
        2 * block_size <= usize::MAX,
        target_sst_size + block_size <= usize::MAX,
        entries_fit(kept_entries(iter.remaining(), compact_to_bottom)),
        *old(next_sst_id) + kept_entries(iter.remaining(), compact_to_bottom).len() <= usize::MAX,
    ensures
        r matches Ok(tables) ==> {
            &&& *final(next_sst_id) == *old(next_sst_id) + tables@.len()
            &&& forall|i: int| 0 <= i < tables@.len() ==> (#[trigger] tables@[i]).id == *old(next_sst_id) + i
            &&& tables@.len() <= kept_entries(iter.remaining(), compact_to_bottom).len()
            &&& kept_entries(iter.remaining(), compact_to_bottom).len() > 0 ==> tables@.len() > 0
            &&& block_size < 0x1_0000 ==> built_tables(
                tables@,
                kept_entries(iter.remaining(), compact_to_bottom),
                *old(next_sst_id) as int,
            )
        },
        r is Err ==> *old(next_sst_id) <= *final(next_sst_id) <= *old(next_sst_id) + kept_entries(
            iter.remaining(),
            compact_to_bottom,
        ).len(),
        iter.infallible() ==> r is Ok,
{
    let ghost all = kept_entries(iter.remaining(), compact_to_bottom);
    let ghost inf = iter.infallible();
    let ghost start = *next_sst_id as int;
    let mut it = iter;
    let mut builder = SsTableBuilder::new(block_size);
    let mut output: Vec<Arc<SsTable>> = Vec::new();
    proof {
        lemma_kept_len(it.remaining(), compact_to_bottom);
        assert(all.subrange(0, all.len() as int) =~= builder.content() + kept_entries(
            it.remaining(),
            compact_to_bottom,
        ));
        assert(tables_entries(output@, 0) == Seq::<Entry>::empty());
        assert(all.subrange(0, 0) =~= Seq::<Entry>::empty());
    }
    while StorageIterator::is_valid(&it)
        invariant
            it.inv(),
            start == *old(next_sst_id),
            all == kept_entries(iter.remaining(), compact_to_bottom),
            inf == iter.infallible(),
            inf ==> it.infallible(),
            writer_ok(
                builder,
                output@,
                *next_sst_id,
                all,
                start,
                kept_entries(it.remaining(), compact_to_bottom),
                block_size,
                target_sst_size,
            ),
        decreases it.remaining().len(),
    {
        let ghost rem = it.remaining();
        let key = StorageIterator::key(&it);
        let value = StorageIterator::value(&it);
        if !compact_to_bottom || value.len() != 0 {
            proof {
                assert(kept_entries(rem, compact_to_bottom) =~= seq![rem[0]] + kept_entries(
                    rem.drop_first(),
                    compact_to_bottom,
                ));
            }
            write_entry(
                &mut builder,
                &mut output,
                next_sst_id,
                key,
                value,
                Ghost(all),
                Ghost(start),
                Ghost(kept_entries(rem.drop_first(), compact_to_bottom)),
                block_size,
                target_sst_size,
            );
        } else {
            proof {
                assert(kept_entries(rem, compact_to_bottom) == kept_entries(
                    rem.drop_first(),
                    compact_to_bottom,
                ));
            }
        }
        match StorageIterator::next(&mut it) {
            Ok(()) => {},
            Err(e) => {
                proof {
                    let rest = kept_entries(rem.drop_first(), compact_to_bottom);
                    let done = all.len() - builder.content().len() - rest.len();
                    assert(outputs_ok(output@, *next_sst_id, all, start, done, block_size, target_sst_size));
                }
                return Err(e);
            },
        }
    }
    if !builder.is_empty() {
        finish_table(
            builder,
            &mut output,
            next_sst_id,
            Ghost(all),
            Ghost(start),
            Ghost(Seq::empty()),
            block_size,
            target_sst_size,
        );
    }
    proof {
        assert(all.subrange(0, all.len() as int) =~= all);
    }
    Ok(output)
}

/// Runs a compaction task over the tables of the store: reads what the task
/// names (level 0 merged, other levels in order, the upper run winning over
/// the lower one; tiers merged, the earlier tier winning) and writes it into
/// new tables, dropping deletions where the task does (see
/// `build_ssts_from_iter` for the block sizes under which they read back).
pub fn compact(
    tables: &HashMap<usize, Arc<SsTable>>,
    task: &CompactionTask,
    block_size: usize,
    target_sst_size: usize,
    next_sst_id: &mut usize,
) -> (r: Result<Vec<Arc<SsTable>>, StorageError>)
    requires
        compaction_runs_ok(tables@, *task),
        block_size + 0x3_0000 <= usize::MAX,
        2 * block_size <= usize::MAX,
        target_sst_size + block_size <= usize::MAX,
        entries_fit(kept_entries(compaction_input(tables@, *task), task.to_bottom())),
        *old(next_sst_id) + kept_entries(
            compaction_input(tables@, *task),
            task.to_bottom(),
        ).len() <= usize::MAX,
    ensures
        r matches Ok(out) && {
            &&& *final(next_sst_id) == *old(next_sst_id) + out@.len()
            &&& forall|i: int| 0 <= i < out@.len() ==> (#[trigger] out@[i]).id == *old(next_sst_id) + i
            &&& out@.len() <= kept_entries(compaction_input(tables@, *task), task.to_bottom()).len()
            &&& kept_entries(compaction_input(tables@, *task), task.to_bottom()).len() > 0 ==> out@.len() > 0
            &&& block_size < 0x1_0000 ==> built_tables(
                out@,
                kept_entries(compaction_input(tables@, *task), task.to_bottom()),
                *old(next_sst_id) as int,
            )
        },
{
    let to_bottom = task.compact_to_bottom_level();
    match task {
        CompactionTask::ForceFullCompaction { l0_sstables, l1_sstables } => {
            let upper = merge_of(tables, l0_sstables);
            let lower = match concat_of(tables, l1_sstables) {
                Ok(it) => it,
                Err(e) => return Err(e),
            };
            let iter = match TwoMergeIterator::create(upper, lower) {
                Ok(it) => it,
                Err(e) => return Err(e),
            };
            build_ssts_from_iter(iter, to_bottom, block_size, target_sst_size, next_sst_id)
        },
        CompactionTask::Leveled(t) => {
            let lower = match concat_of(tables, &t.lower_level_sst_ids) {
                Ok(it) => it,
                Err(e) => return Err(e),
            };
            if t.upper_level.is_none() {
                let upper = merge_of(tables, &t.upper_level_sst_ids);
                let iter = match TwoMergeIterator::create(upper, lower) {
                    Ok(it) => it,
                    Err(e) => return Err(e),
                };
                build_ssts_from_iter(
                    iter,
                    to_bottom,
                    block_size,
                    target_sst_size,
                    next_sst_id,
                )
            } else {
                let upper = match concat_of(tables, &t.upper_level_sst_ids) {
                    Ok(it) => it,
                    Err(e) => return Err(e),
                };
                let iter = match TwoMergeIterator::create(upper, lower) {
                    Ok(it) => it,
                    Err(e) => return Err(e),
                };
                build_ssts_from_iter(
                    iter,
                    to_bottom,
                    block_size,
                    target_sst_size,
                    next_sst_id,
                )
            }
        },
        CompactionTask::Simple(t) => {
            let lower = match concat_of(tables, &t.lower_level_sst_ids) {
                Ok(it) => it,
                Err(e) => return Err(e),
            };
            if t.upper_level == Some(0usize) {
                let upper = merge_of(tables, &t.upper_level_sst_ids);
                let iter = match TwoMergeIterator::create(upper, lower) {
                    Ok(it) => it,
                    Err(e) => return Err(e),
                };
                build_ssts_from_iter(iter, to_bottom, block_size, target_sst_size, next_sst_id)
            } else {
                let upper = match concat_of(tables, &t.upper_level_sst_ids) {
                    Ok(it) => it,
                    Err(e) => return Err(e),
                };
                let iter = match TwoMergeIterator::create(upper, lower) {
                    Ok(it) => it,
                    Err(e) => return Err(e),
                };
                build_ssts_from_iter(iter, to_bottom, block_size, target_sst_size, next_sst_id)
            }
        },
        CompactionTask::Tiered(t) => {
            let mut iters: Vec<Box<SstConcatIterator>> = Vec::new();
            let mut i: usize = 0;
            assert(forall|j: int|
                0 <= j < t.tiers@.len() ==> ids_ok(tables@, (#[trigger] t.tiers@[j]).1@));
            while i < t.tiers.len()
                invariant
                    forall|j: int|
                        0 <= j < t.tiers@.len() ==> ids_ok(tables@, (#[trigger] t.tiers@[j]).1@),
                    i <= t.tiers@.len(),
                    iters@.len() == i,
                    forall|j: int| 0 <= j < i ==> (#[trigger] iters@[j]).inv() && iters@[j].remaining()
                        == concat_input(tables@, t.tiers@[j].1@),
                decreases t.tiers@.len() - i,
            {
                assert(ids_ok(tables@, t.tiers@[i as int].1@));
                let it = match concat_of(tables, &t.tiers[i].1) {
                    Ok(it) => it,
                    Err(e) => return Err(e),
                };
                iters.push(Box::new(it));
                i = i + 1;
            }
            let iter = MergeIterator::create(iters);
            assert(Seq::new(iters@.len(), |j: int| iters@[j].remaining()) =~= Seq::new(
                t.tiers@.len(),
                |j: int| concat_input(tables@, t.tiers@[j].1@),
            ));
            build_ssts_from_iter(iter, to_bottom, block_size, target_sst_size, next_sst_id)
        },
    }
}

} // verus!
