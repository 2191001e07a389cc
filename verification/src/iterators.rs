//! Iterators over sorted key-value entries, and the ways of combining them.
use crate::key::key_lt;
use vstd::prelude::*;

pub mod concat_iterator;
pub mod merge_iterator;
pub mod two_merge_iterator;

verus! {

/// An entry: a key and a value.
pub type Entry = (Seq<u8>, Seq<u8>);

/// The keys of the entries strictly increase.
pub open spec fn sorted(s: Seq<Entry>) -> bool {
    forall|i: int, j: int| 0 <= i < j < s.len() ==> key_lt(#[trigger] s[i].0, #[trigger] s[j].0)
}

/// Some entry has key `k`.
pub open spec fn key_in(s: Seq<Entry>, k: Seq<u8>) -> bool {
    exists|j: int| 0 <= j < s.len() && #[trigger] s[j].0 == k
}

/// The entry with key `k`, if there is one (in sorted entries there is at
/// most one).
pub open spec fn entry_for(s: Seq<Entry>, k: Seq<u8>) -> Option<Entry> {
    if key_in(s, k) {
        Some(s[key_index(s, k)])
    } else {
        None
    }
}

/// Where an entry with key `k` sits, if there is one.
pub open spec fn key_index(s: Seq<Entry>, k: Seq<u8>) -> int {
    choose|j: int| 0 <= j < s.len() && #[trigger] s[j].0 == k
}

/// The entry with key `k` of the first run that has one: the newest, when
/// the runs go from newest to oldest.
pub open spec fn newest_entry(rs: Seq<Seq<Entry>>, k: Seq<u8>) -> Option<Entry>
    decreases rs.len(),
{
    if rs.len() == 0 {
        None
    } else if key_in(rs[0], k) {
        entry_for(rs[0], k)
    } else {
        newest_entry(rs.drop_first(), k)
    }
}

/// In sorted entries the entry for a key is the one that holds it.
pub proof fn lemma_entry_for(s: Seq<Entry>, j: int)
    requires
        sorted(s),
        0 <= j < s.len(),
    ensures
        entry_for(s, s[j].0) == Some(s[j]),
{
    let k = s[j].0;
    assert(key_in(s, k));
    let c = key_index(s, k);
    assert(0 <= c < s.len() && s[c].0 == k);
    if c != j {
        crate::key::lemma_key_lt_irreflexive(k);
        if c < j {
            assert(key_lt(s[c].0, s[j].0));
        } else {
            assert(key_lt(s[j].0, s[c].0));
        }
    }
}

/// The newest entry for a key is that of the first run that holds the key,
/// and there is none when no run holds it.
pub proof fn lemma_newest_entry(rs: Seq<Seq<Entry>>, k: Seq<u8>)
    ensures
        forall|i: int|
            0 <= i < rs.len() && key_in(#[trigger] rs[i], k) && (forall|j: int|
                0 <= j < i ==> !key_in(#[trigger] rs[j], k)) ==> newest_entry(rs, k) == entry_for(
                rs[i],
                k,
            ),
        (forall|i: int| 0 <= i < rs.len() ==> !key_in(#[trigger] rs[i], k)) ==> newest_entry(
            rs,
            k,
        ) is None,
    decreases rs.len(),
{
    if rs.len() > 0 {
        let t = rs.drop_first();
        lemma_newest_entry(t, k);
        assert forall|i: int|
            0 <= i < rs.len() && key_in(#[trigger] rs[i], k) && (forall|j: int|
                0 <= j < i ==> !key_in(#[trigger] rs[j], k)) implies newest_entry(rs, k) == entry_for(
            rs[i],
            k,
        ) by {
            if i > 0 {
                assert(!key_in(rs[0], k));
                assert(t[i - 1] == rs[i]);
                assert forall|j: int| 0 <= j < i - 1 implies !key_in(#[trigger] t[j], k) by {
                    assert(t[j] == rs[j + 1]);
                }
            }
        }
        if forall|i: int| 0 <= i < rs.len() ==> !key_in(#[trigger] rs[i], k) {
            assert(!key_in(rs[0], k));
            assert forall|i: int| 0 <= i < t.len() implies !key_in(#[trigger] t[i], k) by {
                assert(t[i] == rs[i + 1]);
            }
        }
    }
}

/// The entries that a seek for `k` leaves: the leading entries whose keys are
/// smaller than `k` are skipped.
pub open spec fn drop_less(s: Seq<Entry>, k: Seq<u8>) -> Seq<Entry>
    decreases s.len(),
{
    if s.len() > 0 && key_lt(s[0].0, k) {
        drop_less(s.drop_first(), k)
    } else {
        s
    }
}

/// What a seek leaves is a suffix of the entries.
pub proof fn lemma_drop_less_suffix(s: Seq<Entry>, k: Seq<u8>)
    ensures
        drop_less(s, k).len() <= s.len(),
        drop_less(s, k) == s.subrange(s.len() - drop_less(s, k).len(), s.len() as int),
        forall|i: int|
            0 <= i < s.len() - drop_less(s, k).len() ==> key_lt(#[trigger] s[i].0, k),
        drop_less(s, k).len() > 0 ==> !key_lt(drop_less(s, k)[0].0, k),
    decreases s.len(),
{
    if s.len() > 0 && key_lt(s[0].0, k) {
        let t = s.drop_first();
        lemma_drop_less_suffix(t, k);
        assert forall|i: int| 0 <= i < s.len() - drop_less(s, k).len() implies key_lt(
            #[trigger] s[i].0,
            k,
        ) by {
            if i > 0 {
                assert(s[i] == t[i - 1]);
            }
        }
        assert(t.subrange(t.len() - drop_less(t, k).len(), t.len() as int) =~= s.subrange(
            s.len() - drop_less(s, k).len(),
            s.len() as int,
        ));
    } else {
        assert(s.subrange(0, s.len() as int) =~= s);
    }
}

/// A seek over two runs one after the other: if the first run is skipped
/// whole, the seek goes on in the second; otherwise the second is kept whole.
pub proof fn lemma_drop_less_concat(a: Seq<Entry>, b: Seq<Entry>, k: Seq<u8>)
    ensures
        drop_less(a + b, k) == if drop_less(a, k).len() == 0 {
            drop_less(b, k)
        } else {
            drop_less(a, k) + b
        },
    decreases a.len(),
{
    if a.len() == 0 {
        assert(a + b =~= b);
    } else {
        assert((a + b)[0] == a[0]);
        if key_lt(a[0].0, k) {
            assert((a + b).drop_first() =~= a.drop_first() + b);
            lemma_drop_less_concat(a.drop_first(), b, k);
        }
    }
}

/// In sorted entries a seek for `k` keeps exactly the entries whose keys are
/// no smaller than `k`: the ones it skips are smaller, the ones it keeps are
/// not, and it keeps them in order.
pub proof fn law_seek_keeps_not_less(s: Seq<Entry>, k: Seq<u8>)
    requires
        sorted(s),
    ensures
        drop_less(s, k) == s.subrange(s.len() - drop_less(s, k).len(), s.len() as int),
        forall|i: int|
            0 <= i < s.len() - drop_less(s, k).len() ==> key_lt(#[trigger] s[i].0, k),
        forall|i: int|
            s.len() - drop_less(s, k).len() <= i < s.len() ==> !key_lt(#[trigger] s[i].0, k),
{
    lemma_drop_less_suffix(s, k);
    let p = s.len() - drop_less(s, k).len();
    assert forall|i: int| p <= i < s.len() implies !key_lt(#[trigger] s[i].0, k) by {
        assert(drop_less(s, k)[0] == s[p]);
        if i > p && key_lt(s[i].0, k) {
            crate::key::lemma_key_lt_transitive(s[p].0, s[i].0, k);
        }
    }
}

/// Why an iterator could not move on.
#[derive(Debug)]
pub enum StorageError {
    /// Reading the data behind the iterator failed.
    Read,
}

/// An iterator over key-value entries.
pub trait StorageIterator {
    /// The entries still to come, the current one first; empty once the
    /// iterator is exhausted.
    spec fn remaining(&self) -> Seq<Entry>;

    /// The iterator's internal consistency.
    spec fn inv(&self) -> bool;

    /// Moving on never fails: the entries are read from memory.
    spec fn infallible(&self) -> bool;

    /// The key of the current entry.
    fn key(&self) -> (r: &[u8])
        requires
            self.inv(),
            self.remaining().len() > 0,
        ensures
            r@ == self.remaining()[0].0,
    ;

    /// The value of the current entry.
    fn value(&self) -> (r: &[u8])
        requires
            self.inv(),
            self.remaining().len() > 0,
        ensures
            r@ == self.remaining()[0].1,
    ;

    /// Whether there is a current entry.
    fn is_valid(&self) -> (r: bool)
        requires
            self.inv(),
        ensures
            r == (self.remaining().len() > 0),
    ;

    /// Moves to the next entry.
    fn next(&mut self) -> (r: Result<(), StorageError>)
        requires
            old(self).inv(),
            old(self).remaining().len() > 0,
        ensures
            final(self).inv(),
            r is Ok ==> final(self).remaining() == old(self).remaining().drop_first(),
            old(self).infallible() ==> r is Ok && final(self).infallible(),
    ;

    /// The number of underlying iterators that are still active.
    fn num_active_iterators(&self) -> (r: usize)
        default_ensures
            r == 1,
    {
        1
    }
}

} // verus!
