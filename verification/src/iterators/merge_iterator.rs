//! Merges any number of iterators of one type.
use super::{
    entry_for, key_in, lemma_entry_for, lemma_newest_entry, newest_entry, sorted, Entry, StorageError,
    StorageIterator,
};
use crate::key::{
    key_equal, key_less, key_lt, lemma_key_lt_irreflexive, lemma_key_lt_total, lemma_key_lt_transitive,
};
use vstd::prelude::*;

verus! {

/// The total number of entries in the sequences.
pub open spec fn total_len(rs: Seq<Seq<Entry>>) -> nat
    decreases rs.len(),
{
    if rs.len() == 0 {
        0
    } else {
        total_len(rs.drop_last()) + rs.last().len()
    }
}

/// Among the first `k` sequences, except the one at `skip`, the non-empty one
/// with the smallest first key (the earliest on ties); -1 if there is none.
pub open spec fn min_child(rs: Seq<Seq<Entry>>, skip: int, k: int) -> int
    decreases k,
{
    if k <= 0 {
        -1
    } else {
        let m = min_child(rs, skip, k - 1);
        let i = k - 1;
        if i == skip || rs[i].len() == 0 {
            m
        } else if m < 0 {
            i
        } else if key_lt(rs[i][0].0, rs[m][0].0) {
            i
        } else {
            m
        }
    }
}

/// The sequences with the first entry of sequence `i` consumed.
pub open spec fn advance(rs: Seq<Seq<Entry>>, i: int) -> Seq<Seq<Entry>> {
    rs.update(i, rs[i].drop_first())
}

pub proof fn lemma_total_update(rs: Seq<Seq<Entry>>, i: int, s: Seq<Entry>)
    requires
        0 <= i < rs.len(),
    ensures
        total_len(rs.update(i, s)) == total_len(rs) - rs[i].len() + s.len(),
    decreases rs.len(),
{
    let u = rs.update(i, s);
    if i == rs.len() - 1 {
        assert(u.drop_last() =~= rs.drop_last());
    } else {
        lemma_total_update(rs.drop_last(), i, s);
        assert(u.drop_last() =~= rs.drop_last().update(i, s));
    }
}

pub proof fn lemma_min_child(rs: Seq<Seq<Entry>>, skip: int, k: int)
    requires
        0 <= k <= rs.len(),
    ensures
        -1 <= min_child(rs, skip, k) < k,
        min_child(rs, skip, k) >= 0 ==> min_child(rs, skip, k) != skip && rs[min_child(rs, skip, k)].len() > 0,
        min_child(rs, skip, k) < 0 ==> forall|j: int| 0 <= j < k && j != skip ==> #[trigger] rs[j].len() == 0,
        min_child(rs, skip, k) >= 0 ==> forall|j: int|
            0 <= j < k && j != skip && #[trigger] rs[j].len() > 0 ==> !key_lt(
                rs[j][0].0,
                rs[min_child(rs, skip, k)][0].0,
            ),
    decreases k,
{
    if k > 0 {
        lemma_min_child(rs, skip, k - 1);
        let m = min_child(rs, skip, k - 1);
        let i = k - 1;
        if i != skip && rs[i].len() > 0 && m >= 0 && key_lt(rs[i][0].0, rs[m][0].0) {
            assert forall|j: int|
                0 <= j < k && j != skip && #[trigger] rs[j].len() > 0 implies !key_lt(rs[j][0].0, rs[i][0].0) by {
                if j < i {
                    if key_lt(rs[j][0].0, rs[i][0].0) {
                        crate::key::lemma_key_lt_transitive(rs[j][0].0, rs[i][0].0, rs[m][0].0);
                    }
                } else {
                    crate::key::lemma_key_lt_irreflexive(rs[i][0].0);
                }
            }
        } else if i != skip && rs[i].len() > 0 && m < 0 {
            crate::key::lemma_key_lt_irreflexive(rs[i][0].0);
        } else if m >= 0 {
            crate::key::lemma_key_lt_irreflexive(rs[m][0].0);
        }
    }
}

/// Consumes, one entry at a time, the first entry of the smallest sequence
/// other than `c` while its key is `key`.
pub open spec fn drain(rs: Seq<Seq<Entry>>, c: int, key: Seq<u8>) -> Seq<Seq<Entry>>
    decreases total_len(rs),
{
    let m = min_child(rs, c, rs.len() as int);
    if m < 0 || rs[m][0].0 != key {
        rs
    } else {
        proof {
            lemma_min_child(rs, c, rs.len() as int);
            lemma_total_update(rs, m, rs[m].drop_first());
        }
        drain(advance(rs, m), c, key)
    }
}

pub proof fn lemma_drain(rs: Seq<Seq<Entry>>, c: int, key: Seq<u8>)
    requires
        0 <= c < rs.len(),
    ensures
        drain(rs, c, key).len() == rs.len(),
        drain(rs, c, key)[c] == rs[c],
        total_len(drain(rs, c, key)) <= total_len(rs),
    decreases total_len(rs),
{
    let m = min_child(rs, c, rs.len() as int);
    if m >= 0 && rs[m][0].0 == key {
        lemma_min_child(rs, c, rs.len() as int);
        lemma_total_update(rs, m, rs[m].drop_first());
        lemma_drain(advance(rs, m), c, key);
    }
}

/// What the children hold after the merge moves past the entry of child `c`:
/// the other children drop their entries with the same key, then `c` moves on.
pub open spec fn step(rs: Seq<Seq<Entry>>, c: int) -> Seq<Seq<Entry>> {
    advance(drain(rs, c, rs[c][0].0), c)
}

/// The merge of the sequences: the smallest first key (the earliest sequence
/// on ties), then the merge of what remains once every sequence has dropped
/// its entries with that key.
pub open spec fn kmerge(rs: Seq<Seq<Entry>>) -> Seq<Entry>
    decreases total_len(rs),
{
    let c = min_child(rs, -1, rs.len() as int);
    if c < 0 {
        Seq::empty()
    } else {
        proof {
            lemma_min_child(rs, -1, rs.len() as int);
            lemma_drain(rs, c, rs[c][0].0);
            lemma_total_update(drain(rs, c, rs[c][0].0), c, rs[c].drop_first());
        }
        seq![rs[c][0]] + kmerge(step(rs, c))
    }
}

/// Every child is a sorted run.
pub open spec fn all_sorted(rs: Seq<Seq<Entry>>) -> bool {
    forall|i: int| 0 <= i < rs.len() ==> sorted(#[trigger] rs[i])
}

/// Every child other than `c` that starts with key `k` drops that entry.
pub open spec fn drop_key(rs: Seq<Seq<Entry>>, c: int, k: Seq<u8>) -> Seq<Seq<Entry>> {
    Seq::new(
        rs.len(),
        |i: int|
            if i != c && rs[i].len() > 0 && rs[i][0].0 == k {
                rs[i].drop_first()
            } else {
                rs[i]
            },
    )
}

/// No child other than `c` starts below `k`.
pub open spec fn heads_not_below(rs: Seq<Seq<Entry>>, c: int, k: Seq<u8>) -> bool {
    forall|i: int| 0 <= i < rs.len() && i != c && #[trigger] rs[i].len() > 0 ==> !key_lt(rs[i][0].0, k)
}

proof fn lemma_sorted_tail(s: Seq<Entry>)
    requires
        sorted(s),
        s.len() > 0,
    ensures
        sorted(s.drop_first()),
        forall|j: int| 0 <= j < s.drop_first().len() ==> key_lt(s[0].0, #[trigger] s.drop_first()[j].0),
{
    assert forall|j: int| 0 <= j < s.drop_first().len() implies key_lt(s[0].0, #[trigger] s.drop_first()[j].0) by {
        assert(s.drop_first()[j] == s[j + 1]);
    }
}

/// With sorted children whose heads are no smaller than `k`, draining the key
/// drops exactly one entry from each other child that starts with it.
proof fn lemma_drain_sorted(rs: Seq<Seq<Entry>>, c: int, k: Seq<u8>)
    requires
        0 <= c < rs.len(),
        all_sorted(rs),
        heads_not_below(rs, c, k),
    ensures
        drain(rs, c, k) == drop_key(rs, c, k),
    decreases total_len(rs),
{
    let n = rs.len() as int;
    let m = min_child(rs, c, n);
    lemma_min_child(rs, c, n);
    if m >= 0 && rs[m][0].0 == k {
        let next = advance(rs, m);
        lemma_total_update(rs, m, rs[m].drop_first());
        lemma_sorted_tail(rs[m]);
        assert(all_sorted(next));
        assert(heads_not_below(next, c, k)) by {
            assert forall|i: int| 0 <= i < next.len() && i != c && #[trigger] next[i].len() > 0 implies !key_lt(
                next[i][0].0,
                k,
            ) by {
                if i == m {
                    assert(key_lt(k, next[m][0].0));
                    crate::key::lemma_key_lt_asymmetric(k, next[m][0].0);
                }
            }
        }
        lemma_drain_sorted(next, c, k);
        assert forall|i: int| 0 <= i < n implies #[trigger] drop_key(next, c, k)[i] == drop_key(rs, c, k)[i] by {
            if i == m && next[m].len() > 0 {
                assert(key_lt(k, next[m][0].0));
                lemma_key_lt_irreflexive(k);
            }
        }
        assert(drop_key(next, c, k) =~= drop_key(rs, c, k));
    } else {
        assert forall|i: int| 0 <= i < n implies #[trigger] drop_key(rs, c, k)[i] == rs[i] by {
            if i != c && rs[i].len() > 0 && rs[i][0].0 == k {
                // The smallest other head is no larger than k, and no smaller.
                assert(m >= 0);
                assert(!key_lt(rs[i][0].0, rs[m][0].0));
                assert(!key_lt(rs[m][0].0, k));
                lemma_key_lt_total(rs[m][0].0, k);
            }
        }
        assert(drop_key(rs, c, k) =~= rs);
    }
}

/// The entries of a child that is a sorted run are no smaller than its head.
proof fn lemma_sorted_head(s: Seq<Entry>, j: int)
    requires
        sorted(s),
        0 < j < s.len(),
    ensures
        key_lt(s[0].0, s[j].0),
{
}

/// What a read of key `k` finds in the merge of sorted runs: the entry of the
/// first run that holds the key, and nothing when none does.
pub proof fn law_kmerge_reads_first(rs: Seq<Seq<Entry>>, k: Seq<u8>)
    requires
        all_sorted(rs),
    ensures
        entry_for(kmerge(rs), k) == newest_entry(rs, k),
{
    law_kmerge(rs);
    lemma_newest_entry(rs, k);
    let m = kmerge(rs);
    if exists|i: int| 0 <= i < rs.len() && key_in(#[trigger] rs[i], k) {
        let i0 = choose|i: int| 0 <= i < rs.len() && key_in(#[trigger] rs[i], k);
        let i = lemma_first_run_with_key(rs, k, i0);
        let q = choose|q: int| 0 <= q < rs[i].len() && #[trigger] rs[i][q].0 == k;
        assert(forall|j: int| 0 <= j < i ==> !key_in(#[trigger] rs[j], rs[i][q].0));
        assert(m.contains(rs[i][q]));
        let p = choose|p: int| 0 <= p < m.len() && m[p] == rs[i][q];
        assert(sorted(rs[i]));
        lemma_entry_for(m, p);
        lemma_entry_for(rs[i], q);
    } else {
        assert(!key_in(m, k)) by {
            if key_in(m, k) {
                let p = choose|p: int| 0 <= p < m.len() && #[trigger] m[p].0 == k;
                let i = choose|i: int|
                    0 <= i < rs.len() && rs[i].contains(#[trigger] m[p]) && forall|j: int|
                        0 <= j < i ==> !key_in(#[trigger] rs[j], m[p].0);
                let q = choose|q: int| 0 <= q < rs[i].len() && rs[i][q] == m[p];
                assert(rs[i][q].0 == k);
                assert(key_in(rs[i], k));
            }
        }
    }
}

/// Among runs one of which holds `k`, there is a first one that does.
pub proof fn lemma_first_run_with_key(rs: Seq<Seq<Entry>>, k: Seq<u8>, i0: int) -> (i: int)
    requires
        0 <= i0 < rs.len(),
        key_in(rs[i0], k),
    ensures
        0 <= i <= i0,
        key_in(rs[i], k),
        forall|j: int| 0 <= j < i ==> !key_in(#[trigger] rs[j], k),
    decreases i0,
{
    if exists|j: int| 0 <= j < i0 && key_in(#[trigger] rs[j], k) {
        let j = choose|j: int| 0 <= j < i0 && key_in(#[trigger] rs[j], k);
        lemma_first_run_with_key(rs, k, j)
    } else {
        i0
    }
}

/// Merging sorted runs gives a sorted run that holds, for each key, the entry
/// of the first run that has that key, and nothing else.
#[verifier::spinoff_prover]
#[verifier::rlimit(60)]
pub proof fn law_kmerge(rs: Seq<Seq<Entry>>)
    requires
        all_sorted(rs),
    ensures
        sorted(kmerge(rs)),
        forall|p: int|
            0 <= p < kmerge(rs).len() ==> exists|i: int|
                0 <= i < rs.len() && rs[i].contains(#[trigger] kmerge(rs)[p]) && forall|j: int|
                    0 <= j < i ==> !key_in(#[trigger] rs[j], kmerge(rs)[p].0),
        forall|i: int, q: int|
            0 <= i < rs.len() && 0 <= q < rs[i].len() && (forall|j: int|
                0 <= j < i ==> !key_in(#[trigger] rs[j], rs[i][q].0)) ==> kmerge(rs).contains(
                #[trigger] rs[i][q],
            ),
    decreases total_len(rs),
{
    let n = rs.len() as int;
    let c = min_child(rs, -1, n);
    lemma_min_child(rs, -1, n);
    if c < 0 {
        assert(kmerge(rs).len() == 0);
        assert forall|i: int, q: int|
            0 <= i < rs.len() && 0 <= q < rs[i].len() && (forall|j: int|
                0 <= j < i ==> !key_in(#[trigger] rs[j], rs[i][q].0)) implies kmerge(rs).contains(
            #[trigger] rs[i][q],
        ) by {
            assert(rs[i].len() == 0);
        }
    } else {
        let k = rs[c][0].0;
        let head = rs[c][0];
        // Every entry of every child is no smaller than k.
        assert forall|i: int, q: int| 0 <= i < n && 0 <= q < rs[i].len() implies !key_lt(
            #[trigger] rs[i][q].0,
            k,
        ) by {
            assert(sorted(rs[i]));
            assert(!key_lt(rs[i][0].0, k));
            if q > 0 {
                lemma_sorted_head(rs[i], q);
                if key_lt(rs[i][q].0, k) {
                    lemma_key_lt_transitive(rs[i][0].0, rs[i][q].0, k);
                }
            }
        }
        assert(heads_not_below(rs, c, k));
        lemma_drain_sorted(rs, c, k);
        lemma_drain(rs, c, k);
        let d = drop_key(rs, c, k);
        let next = step(rs, c);
        assert(next =~= advance(d, c));
        lemma_total_update(d, c, rs[c].drop_first());
        lemma_total_update(rs, c, rs[c].drop_first());
        // Each child of the next state is a suffix of the child before, and
        // everything left is above k.
        assert forall|i: int| 0 <= i < n implies #[trigger] next[i] == if rs[i].len() > 0 && rs[i][0].0 == k {
            rs[i].drop_first()
        } else {
            rs[i]
        } by {}
        assert forall|i: int| 0 <= i < n implies sorted(#[trigger] next[i]) by {
            assert(sorted(rs[i]));
            if rs[i].len() > 0 && rs[i][0].0 == k {
                lemma_sorted_tail(rs[i]);
            }
        }
        assert forall|i: int, q: int| 0 <= i < n && 0 <= q < next[i].len() implies key_lt(
            k,
            #[trigger] next[i][q].0,
        ) && rs[i].contains(next[i][q]) by {
            if rs[i].len() > 0 && rs[i][0].0 == k {
                assert(next[i][q] == rs[i][q + 1]);
                lemma_sorted_head(rs[i], q + 1);
            } else {
                assert(next[i][q] == rs[i][q]);
                assert(!key_lt(rs[i][q].0, k));
                lemma_key_lt_total(rs[i][q].0, k);
                if q > 0 {
                    lemma_sorted_head(rs[i], q);
                    if rs[i][q].0 == k {
                        assert(!key_lt(rs[i][0].0, k));
                        lemma_key_lt_irreflexive(k);
                        lemma_key_lt_total(rs[i][0].0, k);
                    }
                }
            }
        }
        law_kmerge(next);
        let rest = kmerge(next);
        let out = kmerge(rs);
        assert(out == seq![head] + rest);
        assert forall|p: int| 0 <= p < rest.len() implies key_lt(k, #[trigger] rest[p].0) by {
            let i = choose|i: int|
                0 <= i < next.len() && next[i].contains(rest[p]) && forall|j: int|
                    0 <= j < i ==> !key_in(#[trigger] next[j], rest[p].0);
            let q = choose|q: int| 0 <= q < next[i].len() && next[i][q] == rest[p];
        }
        // Sorted.
        assert forall|x: int, y: int| 0 <= x < y < out.len() implies key_lt(
            #[trigger] out[x].0,
            #[trigger] out[y].0,
        ) by {
            if x == 0 {
                assert(out[y] == rest[y - 1]);
            } else {
                assert(out[x] == rest[x - 1]);
                assert(out[y] == rest[y - 1]);
            }
        }
        // The first run with the smallest key gives the head.
        assert forall|j: int| 0 <= j < c implies !key_in(#[trigger] rs[j], k) by {
            if key_in(rs[j], k) {
                let q = choose|q: int| 0 <= q < rs[j].len() && #[trigger] rs[j][q].0 == k;
                assert(sorted(rs[j]));
                assert(!key_lt(rs[j][0].0, k));
                if q > 0 {
                    lemma_sorted_head(rs[j], q);
                }
                // rs[j] starts with k, before c: contradicts how c is chosen.
                assert(rs[j][0].0 == k) by {
                    if q > 0 {
                        lemma_key_lt_total(rs[j][0].0, k);
                        crate::key::lemma_key_lt_asymmetric(rs[j][0].0, k);
                    }
                }
                lemma_min_child_first(rs, -1, n, j);
            }
        }
        assert forall|p: int| 0 <= p < out.len() implies exists|i: int|
            0 <= i < rs.len() && rs[i].contains(#[trigger] out[p]) && forall|j: int|
                0 <= j < i ==> !key_in(#[trigger] rs[j], out[p].0) by {
            if p == 0 {
                assert(rs[c][0] == out[0]);
                assert(rs[c].contains(out[0]));
            } else {
                assert(out[p] == rest[p - 1]);
                let e = rest[p - 1];
                let i = choose|i: int|
                    0 <= i < next.len() && next[i].contains(e) && forall|j: int|
                        0 <= j < i ==> !key_in(#[trigger] next[j], e.0);
                let q = choose|q: int| 0 <= q < next[i].len() && next[i][q] == e;
                assert(rs[i].contains(e));
                assert(key_lt(k, e.0));
                assert forall|j: int| 0 <= j < i implies !key_in(#[trigger] rs[j], e.0) by {
                    assert(!key_in(next[j], e.0));
                    if key_in(rs[j], e.0) {
                        let q2 = choose|q2: int| 0 <= q2 < rs[j].len() && #[trigger] rs[j][q2].0 == e.0;
                        if rs[j].len() > 0 && rs[j][0].0 == k {
                            if q2 == 0 {
                                lemma_key_lt_irreflexive(k);
                            } else {
                                assert(next[j][q2 - 1] == rs[j][q2]);
                            }
                        } else {
                            assert(next[j][q2] == rs[j][q2]);
                        }
                    }
                }
            }
        }
        assert forall|i: int, q: int|
            0 <= i < rs.len() && 0 <= q < rs[i].len() && (forall|j: int|
                0 <= j < i ==> !key_in(#[trigger] rs[j], rs[i][q].0)) implies out.contains(
            #[trigger] rs[i][q],
        ) by {
            let e = rs[i][q];
            if e.0 == k {
                // Only the head of a run can hold k; the first run starting with k is c.
                if q > 0 {
                    lemma_sorted_head(rs[i], q);
                    assert(!key_lt(rs[i][0].0, k));
                    crate::key::lemma_key_lt_asymmetric(rs[i][0].0, k);
                }
                assert(q == 0);
                if i < c {
                    assert(key_in(rs[i], k));
                    assert(!key_in(rs[i], k));
                }
                if c < i {
                    assert(rs[c][0].0 == k);
                    assert(!key_in(rs[c], e.0));
                }
                assert(i == c);
                assert(out[0] == e);
            } else {
                let q2 = if rs[i].len() > 0 && rs[i][0].0 == k {
                    q - 1
                } else {
                    q
                };
                if rs[i].len() > 0 && rs[i][0].0 == k {
                    assert(q > 0);
                }
                assert(next[i][q2] == e);
                assert forall|j: int| 0 <= j < i implies !key_in(#[trigger] next[j], next[i][q2].0) by {
                    if key_in(next[j], e.0) {
                        let q3 = choose|q3: int| 0 <= q3 < next[j].len() && #[trigger] next[j][q3].0 == e.0;
                        assert(rs[j].contains(next[j][q3]));
                        let q4 = choose|q4: int| 0 <= q4 < rs[j].len() && rs[j][q4] == next[j][q3];
                        assert(rs[j][q4].0 == e.0);
                    }
                }
                let p = choose|p: int| 0 <= p < rest.len() && rest[p] == next[i][q2];
                assert(out[p + 1] == rest[p]);
            }
        }
    }
}

/// The child that `min_child` picks is the first one that starts with the
/// smallest key.
proof fn lemma_min_child_first(rs: Seq<Seq<Entry>>, skip: int, k: int, j: int)
    requires
        0 <= k <= rs.len(),
        0 <= j < k,
        j != skip,
        rs[j].len() > 0,
        min_child(rs, skip, k) >= 0,
        rs[j][0].0 == rs[min_child(rs, skip, k)][0].0,
    ensures
        min_child(rs, skip, k) <= j,
    decreases k,
{
    lemma_min_child(rs, skip, k);
    let m = min_child(rs, skip, k - 1);
    lemma_min_child(rs, skip, k - 1);
    if j < k - 1 {
        if m >= 0 {
            if min_child(rs, skip, k) == k - 1 {
                // k - 1 replaced m only if strictly smaller; but j ties with k - 1 and j >= m.
                assert(!key_lt(rs[j][0].0, rs[m][0].0));
                assert(key_lt(rs[k - 1][0].0, rs[m][0].0));
                assert(false) by {
                    assert(rs[j][0].0 == rs[k - 1][0].0);
                }
            } else {
                lemma_min_child_first(rs, skip, k - 1, j);
            }
        } else {
            assert(rs[j].len() == 0);
        }
    }
}

/// Merge multiple iterators of the same type. If the same key occurs multiple times in some
/// iterators, prefer the one with smaller index.
pub struct MergeIterator<I: StorageIterator> {
    iters: Vec<Option<Box<I>>>,
    current: Option<usize>,
}

/// What each child has left; a dropped child has nothing left.
pub open spec fn children<I: StorageIterator>(iters: Seq<Option<Box<I>>>) -> Seq<Seq<Entry>> {
    Seq::new(
        iters.len(),
        |i: int|
            match iters[i] {
                Some(b) => b.remaining(),
                None => Seq::empty(),
            },
    )
}

/// Every child that is still held is consistent.
pub open spec fn children_ok<I: StorageIterator>(iters: Seq<Option<Box<I>>>) -> bool {
    forall|i: int|
        0 <= i < iters.len() ==> match #[trigger] iters[i] {
            Some(b) => b.inv(),
            None => true,
        }
}

/// The child with the smallest current key, as an index; `None` if all are exhausted.
/// No child that is still held ever fails to move on.
pub open spec fn children_infallible<I: StorageIterator>(iters: Seq<Option<Box<I>>>) -> bool {
    forall|i: int|
        0 <= i < iters.len() ==> match #[trigger] iters[i] {
            Some(b) => b.infallible(),
            None => true,
        }
}

pub open spec fn current_of<I: StorageIterator>(iters: Seq<Option<Box<I>>>) -> Option<usize> {
    let m = min_child(children(iters), -1, iters.len() as int);
    if m < 0 {
        None
    } else {
        Some(m as usize)
    }
}

/// A copy of a key.
fn copy_key(k: &[u8]) -> (r: Vec<u8>)
    ensures
        r@ == k@,
{
    let mut r: Vec<u8> = Vec::new();
    crate::codec::put_slice(&mut r, k);
    r
}

impl<I: StorageIterator> MergeIterator<I> {
    pub closed spec fn children_view(&self) -> Seq<Seq<Entry>> {
        children(self.iters@)
    }

    /// Finds the child, other than `skip`, with the smallest current key.
    fn find_min(iters: &Vec<Option<Box<I>>>, skip: Option<usize>) -> (r: Option<usize>)
        requires
            children_ok(iters@),
        ensures
            ({
                let sk = match skip {
                    Some(s) => s as int,
                    None => -1,
                };
                let m = min_child(children(iters@), sk, iters@.len() as int);
                if m < 0 {
                    r is None
                } else {
                    r == Some(m as usize)
                }
            }),
    {
        let ghost rs = children(iters@);
        let ghost sk = match skip {
            Some(s) => s as int,
            None => -1,
        };
        let mut best: Option<usize> = None;
        let mut i: usize = 0;
        while i < iters.len()
            invariant
                children_ok(iters@),
                rs == children(iters@),
                i <= iters@.len(),
                sk == match skip {
                    Some(s) => s as int,
                    None => -1,
                },
                ({
                    let m = min_child(rs, sk, i as int);
                    if m < 0 {
                        best is None
                    } else {
                        best == Some(m as usize)
                    }
                }),
            decreases iters@.len() - i,
        {
            proof {
                lemma_min_child(rs, sk, i as int);
            }
            let is_skip = match skip {
                Some(s) => s == i,
                None => false,
            };
            if !is_skip {
                match &iters[i] {
                    Some(it) => {
                        assert(it.inv());
                        if it.is_valid() {
                            match best {
                                None => {
                                    best = Some(i);
                                },
                                Some(b) => {
                                    match &iters[b] {
                                        Some(bt) => {
                                            if key_less(it.key(), bt.key()) {
                                                best = Some(i);
                                            }
                                        },
                                        None => {
                                            assert(false);
                                        },
                                    }
                                },
                            }
                        }
                    },
                    None => {},
                }
            }
            i = i + 1;
        }
        best
    }

    pub fn create(iters: Vec<Box<I>>) -> (r: Self)
        requires
            forall|i: int| 0 <= i < iters@.len() ==> (#[trigger] iters@[i]).inv(),
        ensures
            r.inv(),
            r.children_view() == Seq::new(iters@.len(), |i: int| iters@[i].remaining()),
            r.remaining() == kmerge(Seq::new(iters@.len(), |i: int| iters@[i].remaining())),
            r.infallible() == forall|i: int| 0 <= i < iters@.len() ==> (#[trigger] iters@[i]).infallible(),
    {
        let mut held: Vec<Option<Box<I>>> = Vec::new();
        let mut iters = iters;
        let ghost orig = iters@;
        let mut k: usize = 0;
        let n = iters.len();
        let mut rest: Vec<Box<I>> = Vec::new();
        // Move the iterators over in order.
        while iters.len() > 0
            invariant
                orig.len() == n,
                held@.len() + iters@.len() == n,
                forall|i: int| 0 <= i < orig.len() ==> (#[trigger] orig[i]).inv(),
                iters@ == orig.subrange(held@.len() as int, n as int),
                forall|i: int| 0 <= i < held@.len() ==> #[trigger] held@[i] == Some(orig[i]),
            decreases iters@.len(),
        {
            let it = iters.remove(0);
            held.push(Some(it));
            assert(iters@ =~= orig.subrange(held@.len() as int, n as int));
        }
        assert(children_ok(held@));
        let current = Self::find_min(&held, None);
        let r = MergeIterator { iters: held, current };
        assert(r.children_view() =~= Seq::new(orig.len(), |i: int| orig[i].remaining()));
        proof {
            if children_infallible(held@) {
                assert forall|i: int| 0 <= i < orig.len() implies (#[trigger] orig[i]).infallible() by {
                    assert(held@[i] == Some(orig[i]));
                }
            }
            if forall|i: int| 0 <= i < orig.len() ==> (#[trigger] orig[i]).infallible() {
                assert forall|i: int| 0 <= i < held@.len() implies match #[trigger] held@[i] {
                    Some(b) => b.infallible(),
                    None => true,
                } by {
                    assert(held@[i] == Some(orig[i]));
                }
            }
        }
        r
    }
}

impl<I: StorageIterator> StorageIterator for MergeIterator<I> {
    closed spec fn remaining(&self) -> Seq<Entry> {
        kmerge(children(self.iters@))
    }

    closed spec fn inv(&self) -> bool {
        &&& children_ok(self.iters@)
        &&& self.current == current_of(self.iters@)
    }

    /// No child ever fails to move on.
    closed spec fn infallible(&self) -> bool {
        children_infallible(self.iters@)
    }

    fn key(&self) -> (r: &[u8]) {
        let ghost rs = children(self.iters@);
        let _n = self.iters.len();
        proof {
            lemma_min_child(rs, -1, self.iters@.len() as int);
            assert(min_child(rs, -1, rs.len() as int) >= 0);
        }
        let c = self.current.unwrap();
        assert(rs[c as int].len() > 0);
        match &self.iters[c] {
            Some(it) => it.key(),
            None => {
                assert(false);
                self.iters[c].as_ref().unwrap().key()
            },
        }
    }

    fn value(&self) -> (r: &[u8]) {
        let ghost rs = children(self.iters@);
        let _n = self.iters.len();
        proof {
            lemma_min_child(rs, -1, self.iters@.len() as int);
            assert(min_child(rs, -1, rs.len() as int) >= 0);
        }
        let c = self.current.unwrap();
        assert(rs[c as int].len() > 0);
        match &self.iters[c] {
            Some(it) => it.value(),
            None => {
                assert(false);
                self.iters[c].as_ref().unwrap().value()
            },
        }
    }

    fn is_valid(&self) -> (r: bool) {
        proof {
            lemma_min_child(children(self.iters@), -1, self.iters@.len() as int);
        }
        self.current.is_some()
    }

    fn next(&mut self) -> (r: Result<(), StorageError>) {
        let ghost inf = children_infallible(self.iters@);
        let ghost rs0 = children(self.iters@);
        let n = self.iters.len();
        proof {
            lemma_min_child(rs0, -1, n as int);
        }
        let c = self.current.unwrap();
        let ghost key = rs0[c as int][0].0;
        let cur_key = match &self.iters[c] {
            Some(it) => copy_key(it.key()),
            None => {
                assert(false);
                Vec::new()
            },
        };
        loop
            invariant
                n == self.iters@.len(),
                n == rs0.len(),
                c < n,
                children_ok(self.iters@),
                children(self.iters@)[c as int] == rs0[c as int],
                drain(children(self.iters@), c as int, key) == drain(rs0, c as int, key),
                cur_key@ == key,
                inf == old(self).infallible(),
                inf ==> children_infallible(self.iters@),
            ensures
                n == self.iters@.len(),
                children_ok(self.iters@),
                children(self.iters@) == drain(rs0, c as int, key),
                inf ==> children_infallible(self.iters@),
            decreases total_len(children(self.iters@)),
        {
            let ghost rs = children(self.iters@);
            proof {
                lemma_min_child(rs, c as int, n as int);
            }
            let m = match Self::find_min(&self.iters, Some(c)) {
                None => {
                    break;
                },
                Some(m) => m,
            };
            let same = match &self.iters[m] {
                Some(it) => key_equal(it.key(), cur_key.as_slice()),
                None => {
                    assert(false);
                    false
                },
            };
            if !same {
                break;
            }
            let ghost before = self.iters@;
            let slot = self.iters.remove(m);
            let mut it = slot.unwrap();
            proof {
                if inf {
                    assert(before[m as int] == Some(it));
                    assert(match before[m as int] {
                        Some(b) => b.infallible(),
                        None => true,
                    });
                    assert(it.infallible());
                }
            }
            let res = it.next();
            match res {
                Ok(()) => {
                    self.iters.insert(m, Some(it));
                    proof {
                        assert(children(self.iters@) =~= advance(rs, m as int));
                        lemma_total_update(rs, m as int, rs[m as int].drop_first());
                        if inf {
                            assert forall|i: int| 0 <= i < self.iters@.len() implies match #[trigger] self.iters@[i] {
                                Some(b) => b.infallible(),
                                None => true,
                            } by {
                                if i != m {
                                    assert(self.iters@[i] == before[i]);
                                }
                            }
                        }
                    }
                },
                Err(e) => {
                    self.iters.insert(m, None);
                    assert(children_ok(self.iters@));
                    self.current = Self::find_min(&self.iters, None);
                    return Err(e);
                },
            }
        }
        proof {
            lemma_drain(rs0, c as int, key);
        }
        let ghost before = self.iters@;
        let slot = self.iters.remove(c);
        let mut it = slot.unwrap();
        proof {
            if inf {
                assert(before[c as int] == Some(it));
            }
        }
        let res = it.next();
        let ghost advanced = it.remaining();
        self.iters.insert(c, Some(it));
        proof {
            if inf {
                assert forall|i: int| 0 <= i < self.iters@.len() implies match #[trigger] self.iters@[i] {
                    Some(b) => b.infallible(),
                    None => true,
                } by {
                    if i != c {
                        assert(self.iters@[i] == before[i]);
                    }
                }
            }
        }
        assert(children_ok(self.iters@));
        self.current = Self::find_min(&self.iters, None);
        match res {
            Ok(()) => {
                assert(children(self.iters@) =~= step(rs0, c as int));
                assert(kmerge(rs0) == seq![rs0[c as int][0]] + kmerge(step(rs0, c as int)));
                assert(kmerge(rs0).drop_first() =~= kmerge(step(rs0, c as int)));
                Ok(())
            },
            Err(e) => Err(e),
        }
    }
}

} // verus!
