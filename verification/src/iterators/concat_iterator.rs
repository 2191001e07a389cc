//! Concatenates the iterators of tables that hold disjoint, ordered key ranges.
use super::{drop_less, lemma_drop_less_concat, sorted, Entry, StorageError, StorageIterator};
use crate::key::{key_less, key_lt, lemma_key_lt_transitive};
use crate::table::{SsTable, SsTableIterator};
use std::sync::Arc;
use vstd::prelude::*;

verus! {

/// The entries of the tables from table `i` on, one table after another.
pub open spec fn tables_entries(ts: Seq<Arc<SsTable>>, i: int) -> Seq<Entry>
    decreases ts.len() - i,
{
    if i < 0 || i >= ts.len() {
        Seq::empty()
    } else {
        (*ts[i]).entries() + tables_entries(ts, i + 1)
    }
}

/// Each table can be read and holds at least one entry.
pub open spec fn tables_ok(ts: Seq<Arc<SsTable>>) -> bool {
    forall|i: int| 0 <= i < ts.len() ==> (#[trigger] ts[i]).wf() && ts[i].entries().len() > 0
}

/// The tables' entries, one table after another, are sorted, and each table
/// records its first entry's key as its first key.
pub open spec fn tables_ordered(ts: Seq<Arc<SsTable>>) -> bool {
    &&& sorted(tables_entries(ts, 0))
    &&& forall|i: int| 0 <= i < ts.len() ==> (#[trigger] ts[i]).first_key@ == ts[i].entries()[0].0
}

/// Entries of a sorted run come before the entries that follow them.
proof fn lemma_sorted_concat(a: Seq<Entry>, b: Seq<Entry>)
    requires
        sorted(a + b),
    ensures
        sorted(b),
        forall|i: int, j: int| 0 <= i < a.len() && 0 <= j < b.len() ==> key_lt(#[trigger] a[i].0, #[trigger] b[j].0),
{
    assert forall|i: int, j: int| 0 <= i < j < b.len() implies key_lt(#[trigger] b[i].0, #[trigger] b[j].0) by {
        assert((a + b)[a.len() + i] == b[i]);
        assert((a + b)[a.len() + j] == b[j]);
    }
    assert forall|i: int, j: int| 0 <= i < a.len() && 0 <= j < b.len() implies key_lt(#[trigger] a[i].0, #[trigger] b[j].0) by {
        assert((a + b)[i] == a[i]);
        assert((a + b)[a.len() + j] == b[j]);
    }
}

/// In ordered tables every entry of a table is smaller than the first key of
/// the table after it.
proof fn lemma_before_next_table(ts: Seq<Arc<SsTable>>, i: int)
    requires
        0 <= i,
        tables_ok(ts),
        sorted(tables_entries(ts, i)),
    ensures
        forall|j: int, x: int|
            i <= j && j + 1 < ts.len() && 0 <= x < ts[j].entries().len() ==> key_lt(
                #[trigger] ts[j].entries()[x].0,
                ts[j + 1].entries()[0].0,
            ),
    decreases ts.len() - i,
{
    if i < ts.len() {
        let a = ts[i].entries();
        let b = tables_entries(ts, i + 1);
        lemma_sorted_concat(a, b);
        lemma_before_next_table(ts, i + 1);
        if i + 1 < ts.len() {
            assert(ts[i + 1].entries().len() > 0);
            assert(b[0] == ts[i + 1].entries()[0]);
        }
    }
}

/// A seek over ordered tables can skip every table before the last one whose
/// first key is smaller than `k`.
proof fn lemma_skip_tables(ts: Seq<Arc<SsTable>>, k: Seq<u8>, idx: int)
    requires
        tables_ok(ts),
        0 <= idx < ts.len(),
        forall|j: int| 0 <= j <= idx ==> key_lt(#[trigger] ts[j].first_key@, k) || j == 0,
        forall|j: int, x: int|
            0 <= j && j + 1 < ts.len() && 0 <= x < ts[j].entries().len() ==> key_lt(
                #[trigger] ts[j].entries()[x].0,
                ts[j + 1].entries()[0].0,
            ),
        forall|i: int| 0 <= i < ts.len() ==> (#[trigger] ts[i]).first_key@ == ts[i].entries()[0].0,
    ensures
        drop_less(tables_entries(ts, 0), k) == drop_less(tables_entries(ts, idx), k),
    decreases idx,
{
    if idx > 0 {
        lemma_skip_tables(ts, k, idx - 1);
        let a = ts[idx - 1].entries();
        assert forall|x: int| 0 <= x < a.len() implies key_lt(#[trigger] a[x].0, k) by {
            lemma_key_lt_transitive(a[x].0, ts[idx].entries()[0].0, k);
        }
        lemma_all_less_dropped(a, k);
        lemma_drop_less_concat(a, tables_entries(ts, idx), k);
    }
}

/// A run whose keys are all smaller than `k` is skipped whole by a seek for `k`.
proof fn lemma_all_less_dropped(a: Seq<Entry>, k: Seq<u8>)
    requires
        forall|x: int| 0 <= x < a.len() ==> key_lt(#[trigger] a[x].0, k),
    ensures
        drop_less(a, k).len() == 0,
    decreases a.len(),
{
    if a.len() > 0 {
        assert(key_lt(a[0].0, k));
        let t = a.drop_first();
        assert forall|x: int| 0 <= x < t.len() implies key_lt(#[trigger] t[x].0, k) by {
            assert(t[x] == a[x + 1]);
        }
        lemma_all_less_dropped(t, k);
    }
}

/// In ordered tables the first keys strictly increase.
proof fn lemma_first_keys_increase(ts: Seq<Arc<SsTable>>, a: int, b: int)
    requires
        tables_ok(ts),
        tables_ordered(ts),
        0 <= a < b < ts.len(),
    ensures
        key_lt(ts[a].first_key@, ts[b].first_key@),
    decreases b - a,
{
    lemma_before_next_table(ts, 0);
    assert(ts[a].entries().len() > 0);
    assert(key_lt(ts[a].entries()[0].0, ts[a + 1].entries()[0].0));
    if a + 1 < b {
        lemma_first_keys_increase(ts, a + 1, b);
        lemma_key_lt_transitive(ts[a].first_key@, ts[a + 1].first_key@, ts[b].first_key@);
    }
}

/// Concatenates tables that hold ordered, disjoint key ranges. The iterator
/// of a table is created only when the previous one is exhausted.
pub struct SstConcatIterator {
    current: Option<SsTableIterator>,
    next_sst_idx: usize,
    sstables: Vec<Arc<SsTable>>,
}

impl SstConcatIterator {
    /// The tables being read.
    pub closed spec fn tables_view(&self) -> Seq<Arc<SsTable>> {
        self.sstables@
    }

    /// Creates the iterator over `sstables` and seeks to the first entry of
    /// the first table; over no tables, the iterator is exhausted at once.
    pub fn create_and_seek_to_first(sstables: Vec<Arc<SsTable>>) -> (r: Result<Self, StorageError>)
        requires
            tables_ok(sstables@),
        ensures
            r matches Ok(it) && {
                &&& StorageIterator::inv(&it)
                &&& it.tables_view() == sstables@
                &&& it.remaining() == tables_entries(sstables@, 0)
            },
    {
        if sstables.len() == 0 {
            return Ok(SstConcatIterator { current: None, next_sst_idx: 0, sstables });
        }
        assert(sstables@[0].wf());
        let current = SsTableIterator::create_and_seek_to_first(sstables[0].clone());
        Ok(SstConcatIterator { current: Some(current), next_sst_idx: 1, sstables })
    }

    /// Creates the iterator over `sstables` and seeks to the first key that is
    /// no smaller than `key`: finds the last table whose first key is smaller
    /// than `key` and seeks in it, and moves to the next table if it holds
    /// no such key. Over no tables, the iterator is exhausted at once.
    pub fn create_and_seek_to_key(sstables: Vec<Arc<SsTable>>, key: &[u8]) -> (r: Result<Self, StorageError>)
        requires
            tables_ok(sstables@),
            tables_ordered(sstables@),
        ensures
            r matches Ok(it) && {
                &&& StorageIterator::inv(&it)
                &&& it.tables_view() == sstables@
                &&& it.remaining() == drop_less(tables_entries(sstables@, 0), key@)
            },
    {
        let ghost ts = sstables@;
        let n = sstables.len();
        if n == 0 {
            return Ok(SstConcatIterator { current: None, next_sst_idx: 0, sstables });
        }
        // The first table whose first key is no smaller than `key`.
        let mut lo: usize = 0;
        let mut hi: usize = n;
        while lo < hi
            invariant
                ts == sstables@,
                n == ts.len(),
                tables_ok(ts),
                tables_ordered(ts),
                lo <= hi <= n,
                forall|j: int| 0 <= j < lo ==> key_lt(#[trigger] ts[j].first_key@, key@),
                forall|j: int| hi <= j < n ==> !key_lt(#[trigger] ts[j].first_key@, key@),
            decreases hi - lo,
        {
            let mid = lo + (hi - lo) / 2;
            if key_less(sstables[mid].first_key().as_slice(), key) {
                proof {
                    assert forall|j: int| 0 <= j < mid + 1 implies key_lt(#[trigger] ts[j].first_key@, key@) by {
                        if j < mid {
                            lemma_first_keys_increase(ts, j, mid as int);
                            lemma_key_lt_transitive(ts[j].first_key@, ts[mid as int].first_key@, key@);
                        }
                    }
                }
                lo = mid + 1;
            } else {
                proof {
                    assert forall|j: int| mid <= j < n implies !key_lt(#[trigger] ts[j].first_key@, key@) by {
                        if j > mid && key_lt(ts[j].first_key@, key@) {
                            lemma_first_keys_increase(ts, mid as int, j);
                            lemma_key_lt_transitive(ts[mid as int].first_key@, ts[j].first_key@, key@);
                        }
                    }
                }
                hi = mid;
            }
        }
        let mut idx: usize = if lo == 0 { 0 } else { lo - 1 };
        proof {
            lemma_before_next_table(ts, 0);
            lemma_skip_tables(ts, key@, idx as int);
            lemma_drop_less_concat(ts[idx as int].entries(), tables_entries(ts, idx + 1), key@);
        }
        assert(ts[idx as int].wf());
        let mut current = SsTableIterator::create_and_seek_to_key(sstables[idx].clone(), key);
        if !StorageIterator::is_valid(&current) && idx + 1 < n {
            idx = idx + 1;
            proof {
                lemma_drop_less_concat(ts[idx as int].entries(), tables_entries(ts, idx + 1), key@);
                assert(ts[idx as int].entries().len() > 0);
                assert(!key_lt(ts[idx as int].entries()[0].0, key@));
            }
            assert(ts[idx as int].wf());
            current = SsTableIterator::create_and_seek_to_key(sstables[idx].clone(), key);
        }
        Ok(SstConcatIterator { current: Some(current), next_sst_idx: idx + 1, sstables })
    }
}

impl StorageIterator for SstConcatIterator {
    closed spec fn remaining(&self) -> Seq<Entry> {
        (match self.current {
            Some(c) => c.remaining(),
            None => Seq::empty(),
        }) + tables_entries(self.sstables@, self.next_sst_idx as int)
    }

    /// Tables are read from memory.
    open spec fn infallible(&self) -> bool {
        true
    }

    /// Every table can be read; the current iterator is exhausted only
    /// after the last table.
    closed spec fn inv(&self) -> bool {
        &&& tables_ok(self.sstables@)
        &&& self.next_sst_idx <= self.sstables@.len()
        &&& match self.current {
            Some(c) => {
                &&& self.next_sst_idx >= 1
                &&& StorageIterator::inv(&c)
                &&& c.remaining().len() == 0 ==> self.next_sst_idx == self.sstables@.len()
            },
            None => self.next_sst_idx == self.sstables@.len(),
        }
    }

    fn key(&self) -> (r: &[u8]) {
        match &self.current {
            Some(c) => StorageIterator::key(c),
            None => {
                assert(false);
                &[]
            },
        }
    }

    fn value(&self) -> (r: &[u8]) {
        match &self.current {
            Some(c) => StorageIterator::value(c),
            None => {
                assert(false);
                &[]
            },
        }
    }

    fn is_valid(&self) -> (r: bool) {
        match &self.current {
            Some(c) => StorageIterator::is_valid(c),
            None => false,
        }
    }

    fn next(&mut self) -> (r: Result<(), StorageError>) {
        let ghost rest = tables_entries(self.sstables@, self.next_sst_idx as int);
        let mut cur = self.current.take().unwrap();
        let ghost before = cur.remaining();
        let r = StorageIterator::next(&mut cur);
        if r.is_ok() {
            assert((before + rest).drop_first() =~= cur.remaining() + rest);
        }
        if !StorageIterator::is_valid(&cur) {
            if self.next_sst_idx == self.sstables.len() {
                self.current = None;
                assert(Seq::<Entry>::empty() + rest =~= cur.remaining() + rest);
            } else {
                let i = self.next_sst_idx;
                assert(self.sstables@[i as int].wf());
                let new_iter = SsTableIterator::create_and_seek_to_first(self.sstables[i].clone());
                self.current = Some(new_iter);
                self.next_sst_idx = i + 1;
                assert(cur.remaining() + rest =~= self.remaining());
            }
        } else {
            self.current = Some(cur);
        }
        r
    }
}

} // verus!
