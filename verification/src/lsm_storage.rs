//! The part of the storage state that compaction plans over: which tables sit
//! in level 0, which sit in each lower level or tier, and what is known of
//! each table.
use std::collections::HashMap;
use vstd::prelude::*;

verus! {

broadcast use vstd::std_specs::hash::group_hash_axioms;

/// What the planners read of a table: its key range and its file size.
#[derive(Clone)]
pub struct SstInfo {
    pub first_key: Vec<u8>,
    pub last_key: Vec<u8>,
    pub size: u64,
}

/// Which tables make up the tree.
pub struct LsmStorageState {
    /// Tables flushed from memory, newest first.
    pub l0_sstables: Vec<usize>,
    /// The lower levels (or tiers), each with its id and its tables.
    pub levels: Vec<(usize, Vec<usize>)>,
    /// What is known of each table, by id.
    pub sstables: HashMap<usize, SstInfo>,
}

/// The ids of `ids` that do not occur in `removed`, in order.
pub open spec fn without(ids: Seq<usize>, removed: Seq<usize>) -> Seq<usize> {
    ids.filter(|id: usize| !removed.contains(id))
}

/// A table is left among `ids` after removing `removed` exactly when it was
/// among `ids` and not removed.
pub proof fn lemma_without(ids: Seq<usize>, removed: Seq<usize>)
    ensures
        forall|x: usize|
            #[trigger] without(ids, removed).contains(x) <==> ids.contains(x) && !removed.contains(x),
{
    let pred = |id: usize| !removed.contains(id);
    assert forall|x: usize| #[trigger] without(ids, removed).contains(x) <==> ids.contains(x) && !removed.contains(x) by {
        if without(ids, removed).contains(x) {
            ids.lemma_filter_contains_rev(pred, x);
            let i = choose|i: int| 0 <= i < without(ids, removed).len() && without(ids, removed)[i] == x;
            ids.lemma_filter_pred(pred, i);
        }
        if ids.contains(x) && !removed.contains(x) {
            let i = choose|i: int| 0 <= i < ids.len() && ids[i] == x;
            ids.lemma_filter_contains(pred, i);
        }
    }
}

/// The levels with each table list taken by its view.
pub open spec fn levels_of(levels: Seq<(usize, Vec<usize>)>) -> Seq<(usize, Seq<usize>)> {
    levels.map_values(|l: (usize, Vec<usize>)| (l.0, l.1@))
}

impl LsmStorageState {
    /// The levels with each table list taken by its view.
    pub open spec fn levels_view(&self) -> Seq<(usize, Seq<usize>)> {
        levels_of(self.levels@)
    }

    /// The tables of level `i`.
    pub open spec fn level(&self, i: int) -> Seq<usize> {
        self.levels_view()[i].1
    }

    /// What is known of table `id`.
    pub open spec fn info(&self, id: usize) -> SstInfo {
        self.sstables@[id]
    }

    /// Every table that the levels name is known.
    pub open spec fn tables_known(&self, ids: Seq<usize>) -> bool {
        forall|j: int| 0 <= j < ids.len() ==> self.sstables@.contains_key(#[trigger] ids[j])
    }

    /// A copy of the state.
    pub fn clone_state(&self) -> (r: Self)
        ensures
            r.l0_sstables@ == self.l0_sstables@,
            r.levels_view() == self.levels_view(),
            r.sstables@ == self.sstables@,
    {
        LsmStorageState {
            l0_sstables: copy_ids(&self.l0_sstables),
            levels: copy_levels(&self.levels),
            sstables: self.sstables.clone(),
        }
    }

    /// What is known of table `id`.
    pub fn get_info(&self, id: usize) -> (r: &SstInfo)
        requires
            self.sstables@.contains_key(id),
        ensures
            *r == self.info(id),
    {
        self.sstables.get(&id).unwrap()
    }

    /// Forgets each table in `ids`.
    pub fn remove_tables(&mut self, ids: &Vec<usize>)
        ensures
            final(self).sstables@ == old(self).sstables@.remove_keys(ids@.to_set()),
            final(self).l0_sstables@ == old(self).l0_sstables@,
            final(self).levels_view() == old(self).levels_view(),
    {
        let mut i: usize = 0;
        while i < ids.len()
            invariant
                i <= ids@.len(),
                self.sstables@ == old(self).sstables@.remove_keys(ids@.subrange(0, i as int).to_set()),
                self.l0_sstables@ == old(self).l0_sstables@,
                self.levels_view() == old(self).levels_view(),
            decreases ids@.len() - i,
        {
            self.sstables.remove(&ids[i]);
            proof {
                assert(ids@.subrange(0, i + 1).to_set() =~= ids@.subrange(0, i as int).to_set().insert(ids@[i as int])) by {
                    assert(ids@.subrange(0, i + 1) =~= ids@.subrange(0, i as int).push(ids@[i as int]));
                    ids@.subrange(0, i as int).lemma_push_to_set_commute(ids@[i as int]);
                }
            }
            i = i + 1;
            assert(self.sstables@ =~= old(self).sstables@.remove_keys(ids@.subrange(0, i as int).to_set()));
        }
        assert(ids@.subrange(0, ids@.len() as int) =~= ids@);
    }
}

/// Whether the oldest immutable memtable should be flushed: the memtables in
/// memory, the immutable ones and the current one, exceed the limit.
pub fn flush_needed(num_imm_memtables: usize, num_memtable_limit: usize) -> (r: bool)
    ensures
        r == (num_imm_memtables + 1 > num_memtable_limit),
{
    num_imm_memtables >= num_memtable_limit
}

/// A copy of a list of table ids.
pub fn copy_ids(v: &Vec<usize>) -> (r: Vec<usize>)
    ensures
        r@ == v@,
{
    let mut r: Vec<usize> = Vec::new();
    let mut i: usize = 0;
    while i < v.len()
        invariant
            i <= v@.len(),
            r@ == v@.subrange(0, i as int),
        decreases v@.len() - i,
    {
        r.push(v[i]);
        i = i + 1;
        assert(r@ =~= v@.subrange(0, i as int));
    }
    assert(v@.subrange(0, v@.len() as int) =~= v@);
    r
}

/// A copy of a list of levels.
pub fn copy_levels(v: &Vec<(usize, Vec<usize>)>) -> (r: Vec<(usize, Vec<usize>)>)
    ensures
        levels_of(r@) == levels_of(v@),
{
    let r = copy_level_prefix(v, v.len());
    assert(v@.subrange(0, v@.len() as int) =~= v@);
    r
}

/// A copy of the first `k` levels of a list.
pub fn copy_level_prefix(v: &Vec<(usize, Vec<usize>)>, k: usize) -> (r: Vec<(usize, Vec<usize>)>)
    requires
        k <= v@.len(),
    ensures
        levels_of(r@) == levels_of(v@.subrange(0, k as int)),
{
    let mut r: Vec<(usize, Vec<usize>)> = Vec::new();
    let mut i: usize = 0;
    while i < k
        invariant
            k <= v@.len(),
            i <= k,
            r@.len() == i,
            levels_of(r@) == levels_of(v@.subrange(0, i as int)),
        decreases v@.len() - i,
    {
        let ids = copy_ids(&v[i].1);
        let ghost before = r@;
        r.push((v[i].0, ids));
        proof {
            let next = v@.subrange(0, i + 1);
            assert forall|j: int| 0 <= j < i + 1 implies levels_of(r@)[j] == levels_of(next)[j] by {
                if j < i {
                    assert(r@[j] == before[j]);
                    assert(levels_of(before)[j] == levels_of(v@.subrange(0, i as int))[j]);
                    assert(next[j] == v@.subrange(0, i as int)[j]);
                }
            }
            assert(levels_of(r@) =~= levels_of(next));
        }
        i = i + 1;
    }
    r
}

/// Whether `id` occurs in `ids`.
pub fn ids_contain(ids: &Vec<usize>, id: usize) -> (r: bool)
    ensures
        r == ids@.contains(id),
{
    let mut i: usize = 0;
    while i < ids.len()
        invariant
            i <= ids@.len(),
            forall|j: int| 0 <= j < i ==> ids@[j] != id,
        decreases ids@.len() - i,
    {
        if ids[i] == id {
            return true;
        }
        i = i + 1;
    }
    false
}

/// The ids of `v` that do not occur in `removed`, in order.
pub fn ids_without(v: &Vec<usize>, removed: &Vec<usize>) -> (r: Vec<usize>)
    ensures
        r@ == without(v@, removed@),
{
    let ghost pred = |id: usize| !removed@.contains(id);
    let mut r: Vec<usize> = Vec::new();
    let mut i: usize = 0;
    while i < v.len()
        invariant
            i <= v@.len(),
            pred == (|id: usize| !removed@.contains(id)),
            r@ == v@.subrange(0, i as int).filter(pred),
        decreases v@.len() - i,
    {
        proof {
            assert(v@.subrange(0, i + 1) =~= v@.subrange(0, i as int).push(v@[i as int]));
            v@.subrange(0, i as int).lemma_filter_push(v@[i as int], pred);
        }
        if !ids_contain(removed, v[i]) {
            r.push(v[i]);
        }
        i = i + 1;
    }
    assert(v@.subrange(0, v@.len() as int) =~= v@);
    r
}

/// `a` followed by `b`.
pub fn concat_ids(a: &Vec<usize>, b: &Vec<usize>) -> (r: Vec<usize>)
    ensures
        r@ == a@ + b@,
{
    let mut r = copy_ids(a);
    let mut i: usize = 0;
    while i < b.len()
        invariant
            i <= b@.len(),
            r@ == a@ + b@.subrange(0, i as int),
        decreases b@.len() - i,
    {
        r.push(b[i]);
        i = i + 1;
        assert(r@ =~= a@ + b@.subrange(0, i as int));
    }
    assert(b@.subrange(0, b@.len() as int) =~= b@);
    r
}

} // verus!
