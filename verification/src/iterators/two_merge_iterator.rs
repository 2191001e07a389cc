//! Merges two iterators into one.
use super::{entry_for, key_in, lemma_entry_for, newest_entry, sorted, Entry, StorageError, StorageIterator};
use crate::key::{
    key_less, key_lt, lemma_key_lt_asymmetric, lemma_key_lt_total, lemma_key_lt_transitive,
};
use vstd::prelude::*;

verus! {

/// The merge of two entry sequences: the entry with the smaller key first;
/// on equal keys the entry of `a`, and the entry of `b` is skipped.
pub open spec fn merge2(a: Seq<Entry>, b: Seq<Entry>) -> Seq<Entry>
    decreases a.len() + b.len(),
{
    if a.len() == 0 {
        b
    } else if b.len() == 0 {
        a
    } else if key_lt(b[0].0, a[0].0) {
        seq![b[0]] + merge2(a, b.drop_first())
    } else if key_lt(a[0].0, b[0].0) {
        seq![a[0]] + merge2(a.drop_first(), b)
    } else {
        seq![a[0]] + merge2(a.drop_first(), b.drop_first())
    }
}

/// Merging two sorted runs gives a sorted run that holds every entry of `a`
/// and every entry of `b` whose key `a` lacks, and nothing else: a key that
/// both hold comes out once, with the entry of `a`.
pub proof fn law_merge2(a: Seq<Entry>, b: Seq<Entry>)
    requires
        sorted(a),
        sorted(b),
    ensures
        sorted(merge2(a, b)),
        forall|i: int|
            0 <= i < merge2(a, b).len() ==> a.contains(#[trigger] merge2(a, b)[i]) || (b.contains(
                merge2(a, b)[i],
            ) && !key_in(a, merge2(a, b)[i].0)),
        forall|i: int| 0 <= i < a.len() ==> merge2(a, b).contains(#[trigger] a[i]),
        forall|i: int| 0 <= i < b.len() && !key_in(a, #[trigger] b[i].0) ==> merge2(a, b).contains(b[i]),
    decreases a.len() + b.len(),
{
    let m = merge2(a, b);
    if a.len() == 0 {
        assert forall|i: int| 0 <= i < b.len() implies m.contains(#[trigger] b[i]) by {
            assert(m[i] == b[i]);
        }
    } else if b.len() == 0 {
        assert forall|i: int| 0 <= i < a.len() implies m.contains(#[trigger] a[i]) by {
            assert(m[i] == a[i]);
        }
    } else {
        let a1 = a.drop_first();
        let b1 = b.drop_first();
        assert(sorted(a1));
        assert(sorted(b1));
        let a0 = a[0].0;
        let b0 = b[0].0;
        // Every key of a run is no smaller than its first key.
        assert forall|j: int| 0 <= j < a.len() && j > 0 implies key_lt(a0, #[trigger] a[j].0) by {}
        assert forall|j: int| 0 <= j < b.len() && j > 0 implies key_lt(b0, #[trigger] b[j].0) by {}
        if key_lt(b0, a0) {
            law_merge2(a, b1);
            let rest = merge2(a, b1);
            assert(m == seq![b[0]] + rest);
            assert(!key_in(a, b0)) by {
                if key_in(a, b0) {
                    let j = choose|j: int| 0 <= j < a.len() && #[trigger] a[j].0 == b0;
                    if j > 0 {
                        lemma_key_lt_transitive(b0, a0, a[j].0);
                    }
                    crate::key::lemma_key_lt_irreflexive(b0);
                }
            }
            assert forall|i: int| 0 <= i < rest.len() implies key_lt(b0, #[trigger] rest[i].0) by {
                if a.contains(rest[i]) {
                    let j = choose|j: int| 0 <= j < a.len() && a[j] == rest[i];
                    if j > 0 {
                        lemma_key_lt_transitive(b0, a0, a[j].0);
                    }
                } else {
                    let j = choose|j: int| 0 <= j < b1.len() && b1[j] == rest[i];
                    assert(b1[j] == b[j + 1]);
                }
            }
            assert forall|i: int, j: int| 0 <= i < j < m.len() implies key_lt(
                #[trigger] m[i].0,
                #[trigger] m[j].0,
            ) by {
                if i == 0 {
                    assert(m[j] == rest[j - 1]);
                } else {
                    assert(m[i] == rest[i - 1]);
                    assert(m[j] == rest[j - 1]);
                }
            }
            assert forall|i: int| 0 <= i < m.len() implies a.contains(#[trigger] m[i]) || (b.contains(
                m[i],
            ) && !key_in(a, m[i].0)) by {
                if i == 0 {
                    assert(b[0] == m[0]);
                } else {
                    assert(m[i] == rest[i - 1]);
                    if b1.contains(rest[i - 1]) {
                        let j = choose|j: int| 0 <= j < b1.len() && b1[j] == rest[i - 1];
                        assert(b[j + 1] == b1[j]);
                    }
                }
            }
            assert forall|i: int| 0 <= i < a.len() implies m.contains(#[trigger] a[i]) by {
                let j = choose|j: int| 0 <= j < rest.len() && rest[j] == a[i];
                assert(m[j + 1] == rest[j]);
            }
            assert forall|i: int| 0 <= i < b.len() && !key_in(a, #[trigger] b[i].0) implies m.contains(
                b[i],
            ) by {
                if i == 0 {
                    assert(m[0] == b[0]);
                } else {
                    assert(b1[i - 1] == b[i]);
                    let j = choose|j: int| 0 <= j < rest.len() && rest[j] == b1[i - 1];
                    assert(m[j + 1] == rest[j]);
                }
            }
        } else {
            let both = !key_lt(a0, b0);
            if both {
                lemma_key_lt_total(a0, b0);
                assert(a0 == b0);
            }
            let bb = if both {
                b1
            } else {
                b
            };
            law_merge2(a1, bb);
            let rest = merge2(a1, bb);
            assert(m == seq![a[0]] + rest);
            assert(sorted(bb));
            // Keys of `bb` are larger than the first key of `a`.
            assert forall|j: int| 0 <= j < bb.len() implies key_lt(a0, #[trigger] bb[j].0) by {
                if both {
                    assert(bb[j] == b[j + 1]);
                } else if j > 0 {
                    lemma_key_lt_transitive(a0, b0, b[j].0);
                }
            }
            assert forall|i: int| 0 <= i < rest.len() implies key_lt(a0, #[trigger] rest[i].0) by {
                if a1.contains(rest[i]) {
                    let j = choose|j: int| 0 <= j < a1.len() && a1[j] == rest[i];
                    assert(a1[j] == a[j + 1]);
                } else {
                    let j = choose|j: int| 0 <= j < bb.len() && bb[j] == rest[i];
                }
            }
            assert forall|i: int, j: int| 0 <= i < j < m.len() implies key_lt(
                #[trigger] m[i].0,
                #[trigger] m[j].0,
            ) by {
                if i == 0 {
                    assert(m[j] == rest[j - 1]);
                } else {
                    assert(m[i] == rest[i - 1]);
                    assert(m[j] == rest[j - 1]);
                }
            }
            assert forall|i: int| 0 <= i < m.len() implies a.contains(#[trigger] m[i]) || (b.contains(
                m[i],
            ) && !key_in(a, m[i].0)) by {
                if i == 0 {
                    assert(a[0] == m[0]);
                } else {
                    assert(m[i] == rest[i - 1]);
                    if a1.contains(rest[i - 1]) {
                        let j = choose|j: int| 0 <= j < a1.len() && a1[j] == rest[i - 1];
                        assert(a[j + 1] == a1[j]);
                    } else {
                        let j = choose|j: int| 0 <= j < bb.len() && bb[j] == rest[i - 1];
                        if both {
                            assert(b[j + 1] == bb[j]);
                        }
                        assert(!key_in(a1, m[i].0));
                        assert(key_lt(a0, m[i].0));
                        if key_in(a, m[i].0) {
                            let q = choose|q: int| 0 <= q < a.len() && #[trigger] a[q].0 == m[i].0;
                            if q == 0 {
                                crate::key::lemma_key_lt_irreflexive(a0);
                            } else {
                                assert(a1[q - 1].0 == m[i].0);
                            }
                        }
                    }
                }
            }
            assert forall|i: int| 0 <= i < a.len() implies m.contains(#[trigger] a[i]) by {
                if i == 0 {
                    assert(m[0] == a[0]);
                } else {
                    assert(a1[i - 1] == a[i]);
                    let j = choose|j: int| 0 <= j < rest.len() && rest[j] == a1[i - 1];
                    assert(m[j + 1] == rest[j]);
                }
            }
            assert forall|i: int| 0 <= i < b.len() && !key_in(a, #[trigger] b[i].0) implies m.contains(
                b[i],
            ) by {
                if both && i == 0 {
                    assert(a[0].0 == b[0].0);
                } else {
                    let bi = if both {
                        i - 1
                    } else {
                        i
                    };
                    assert(bb[bi] == b[i]);
                    assert(!key_in(a1, bb[bi].0)) by {
                        if key_in(a1, bb[bi].0) {
                            let q = choose|q: int| 0 <= q < a1.len() && #[trigger] a1[q].0 == bb[bi].0;
                            assert(a[q + 1].0 == b[i].0);
                        }
                    }
                    let j = choose|j: int| 0 <= j < rest.len() && rest[j] == bb[bi];
                    assert(m[j + 1] == rest[j]);
                }
            }
        }
    }
}

/// What a read of key `k` finds in the merge of two sorted runs: the entry of
/// `a` when `a` holds the key, otherwise that of `b`.
pub proof fn law_merge2_reads_first(a: Seq<Entry>, b: Seq<Entry>, k: Seq<u8>)
    requires
        sorted(a),
        sorted(b),
    ensures
        entry_for(merge2(a, b), k) == newest_entry(seq![a, b], k),
{
    law_merge2(a, b);
    let m = merge2(a, b);
    let rs = seq![a, b];
    assert(rs[0] == a && rs[1] == b);
    assert(rs.drop_first() =~= seq![b]);
    assert(seq![b].drop_first() =~= Seq::<Seq<Entry>>::empty());
    assert(seq![b][0] == b);
    reveal_with_fuel(newest_entry, 3);
    if key_in(a, k) {
        let j = choose|j: int| 0 <= j < a.len() && #[trigger] a[j].0 == k;
        assert(m.contains(a[j]));
        let p = choose|p: int| 0 <= p < m.len() && m[p] == a[j];
        lemma_entry_for(m, p);
        lemma_entry_for(a, j);
    } else if key_in(b, k) {
        let j = choose|j: int| 0 <= j < b.len() && #[trigger] b[j].0 == k;
        assert(m.contains(b[j]));
        let p = choose|p: int| 0 <= p < m.len() && m[p] == b[j];
        lemma_entry_for(m, p);
        lemma_entry_for(b, j);
    } else {
        assert(!key_in(m, k)) by {
            if key_in(m, k) {
                let p = choose|p: int| 0 <= p < m.len() && #[trigger] m[p].0 == k;
                if a.contains(m[p]) {
                    let j = choose|j: int| 0 <= j < a.len() && a[j] == m[p];
                    assert(a[j].0 == k);
                } else {
                    let j = choose|j: int| 0 <= j < b.len() && b[j] == m[p];
                    assert(b[j].0 == k);
                }
            }
        }
    }
}

/// Merges two iterators of different types into one. If the two iterators have the same key, only
/// produce the key once and prefer the entry from A.
pub struct TwoMergeIterator<A: StorageIterator, B: StorageIterator> {
    a: A,
    b: B,
}

impl<A: StorageIterator, B: StorageIterator> TwoMergeIterator<A, B> {
    pub closed spec fn first(&self) -> A {
        self.a
    }

    pub closed spec fn second(&self) -> B {
        self.b
    }

    pub fn create(a: A, b: B) -> (r: Result<Self, StorageError>)
        ensures
            r matches Ok(it) && {
                &&& it.first() == a
                &&& it.second() == b
                &&& a.inv() && b.inv() ==> it.inv()
                &&& it.remaining() == merge2(a.remaining(), b.remaining())
                &&& it.infallible() == (a.infallible() && b.infallible())
            },
    {
        Ok(TwoMergeIterator { a, b })
    }
}

impl<A: StorageIterator, B: StorageIterator> StorageIterator for TwoMergeIterator<A, B> {
    closed spec fn remaining(&self) -> Seq<Entry> {
        merge2(self.a.remaining(), self.b.remaining())
    }

    closed spec fn inv(&self) -> bool {
        self.a.inv() && self.b.inv()
    }

    /// Neither side ever fails to move on.
    closed spec fn infallible(&self) -> bool {
        self.a.infallible() && self.b.infallible()
    }

    fn key(&self) -> (r: &[u8]) {
        let a_valid = self.a.is_valid();
        let b_valid = self.b.is_valid();
        if a_valid && b_valid {
            if key_less(self.b.key(), self.a.key()) {
                self.b.key()
            } else {
                self.a.key()
            }
        } else if a_valid {
            self.a.key()
        } else {
            self.b.key()
        }
    }

    fn value(&self) -> (r: &[u8]) {
        let a_valid = self.a.is_valid();
        let b_valid = self.b.is_valid();
        if a_valid && b_valid {
            if key_less(self.b.key(), self.a.key()) {
                self.b.value()
            } else {
                self.a.value()
            }
        } else if a_valid {
            self.a.value()
        } else {
            self.b.value()
        }
    }

    fn is_valid(&self) -> (r: bool) {
        self.a.is_valid() || self.b.is_valid()
    }

    fn next(&mut self) -> (r: Result<(), StorageError>) {
        let ghost ra = self.a.remaining();
        let ghost rb = self.b.remaining();
        let a_valid = self.a.is_valid();
        let b_valid = self.b.is_valid();
        if a_valid && b_valid {
            let a_less = key_less(self.a.key(), self.b.key());
            let b_less = key_less(self.b.key(), self.a.key());
            if !a_less && !b_less {
                self.a.next()?;
                self.b.next()?;
                assert(merge2(ra, rb) == seq![ra[0]] + merge2(ra.drop_first(), rb.drop_first()));
            } else if a_less {
                proof {
                    lemma_key_lt_asymmetric(ra[0].0, rb[0].0);
                }
                self.a.next()?;
                assert(merge2(ra, rb) == seq![ra[0]] + merge2(ra.drop_first(), rb));
            } else {
                self.b.next()?;
                assert(merge2(ra, rb) == seq![rb[0]] + merge2(ra, rb.drop_first()));
            }
        } else if a_valid {
            self.a.next()?;
            assert(merge2(ra, rb) == ra);
            assert(merge2(ra.drop_first(), rb) == ra.drop_first());
        } else {
            self.b.next()?;
            assert(merge2(ra, rb) == rb);
            assert(merge2(ra, rb.drop_first()) == rb.drop_first());
        }
        assert(merge2(ra, rb).drop_first() =~= self.remaining());
        Ok(())
    }
}

} // verus!
