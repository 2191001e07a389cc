//! Iterates over the entries of a block.
use super::{Block, BlockView};
use crate::codec::{get_u16, put_slice, read_be16};
use crate::iterators::{drop_less, Entry, StorageError, StorageIterator};
use crate::key::{key_less, key_lt};
use std::sync::Arc;
use vstd::prelude::*;
use vstd::slice::slice_subrange;

verus! {

/// Where entry `i` starts in the block's data.
pub open spec fn ent_off(b: BlockView, i: int) -> int {
    b.offsets[i] as int
}

/// Length of the prefix that entry `i` shares with the block's first key.
pub open spec fn ent_overlap(b: BlockView, i: int) -> int {
    read_be16(b.data, ent_off(b, i)) as int
}

/// Length of the rest of the key of entry `i`.
pub open spec fn ent_rest_len(b: BlockView, i: int) -> int {
    read_be16(b.data, ent_off(b, i) + 2) as int
}

/// Length of the value of entry `i` (found after the key and the timestamp).
pub open spec fn ent_value_len(b: BlockView, i: int) -> int {
    read_be16(b.data, ent_off(b, i) + 12 + ent_rest_len(b, i)) as int
}

/// Where the value of entry `i` starts.
pub open spec fn ent_value_start(b: BlockView, i: int) -> int {
    ent_off(b, i) + 14 + ent_rest_len(b, i)
}

/// The block's first key: the rest of the key of the entry at the start of the data.
pub open spec fn block_first_key(b: BlockView) -> Seq<u8> {
    b.data.subrange(4, 4 + read_be16(b.data, 2) as int)
}

/// The key of entry `i`: the shared prefix of the first key, then the rest.
pub open spec fn ent_key(b: BlockView, i: int) -> Seq<u8> {
    block_first_key(b).subrange(0, ent_overlap(b, i)) + b.data.subrange(
        ent_off(b, i) + 4,
        ent_off(b, i) + 4 + ent_rest_len(b, i),
    )
}

/// The value of entry `i`.
pub open spec fn ent_value(b: BlockView, i: int) -> Seq<u8> {
    b.data.subrange(ent_value_start(b, i), ent_value_start(b, i) + ent_value_len(b, i))
}

/// The data holds the first key that the block declares.
pub open spec fn first_key_ok(b: BlockView) -> bool {
    b.data.len() >= 4 && 4 + read_be16(b.data, 2) <= b.data.len()
}

/// Entry `i` lies within the data and shares no more than the first key.
pub open spec fn ent_ok(b: BlockView, i: int) -> bool {
    &&& 0 <= i < b.offsets.len()
    &&& ent_value_start(b, i) + ent_value_len(b, i) <= b.data.len()
    &&& ent_overlap(b, i) <= read_be16(b.data, 2)
}

/// Every entry of the block can be read.
pub open spec fn block_wf(b: BlockView) -> bool {
    &&& first_key_ok(b)
    &&& b.offsets.len() > 0
    &&& forall|i: int| 0 <= i < b.offsets.len() ==> #[trigger] ent_ok(b, i)
}

/// The entry that position `j` of a scan reads: positions are taken modulo 2^16.
pub open spec fn pos(j: int) -> int {
    (j as u16) as int
}

/// The first position, from `j` on, where a scan for `target` stops: the end
/// of the block, an empty key, or a key no smaller than `target`.
pub open spec fn scan_from(b: BlockView, target: Seq<u8>, j: int) -> int
    decreases b.offsets.len() - j,
{
    if j < 0 || j >= b.offsets.len() {
        j
    } else if ent_key(b, pos(j)).len() > 0 && key_lt(ent_key(b, pos(j)), target) {
        scan_from(b, target, j + 1)
    } else {
        j
    }
}

/// Where `seek_to_key(target)` leaves the iterator.
pub open spec fn seek_position(b: BlockView, target: Seq<u8>) -> int {
    scan_from(b, target, 0)
}

/// Every entry that a seek for `target` reads can be read.
pub open spec fn seek_reads_ok(b: BlockView, target: Seq<u8>) -> bool {
    forall|j: int|
        0 <= j < b.offsets.len() && j <= seek_position(b, target) ==> #[trigger] ent_ok(
            b,
            pos(j),
        )
}

pub proof fn lemma_pos(j: int)
    ensures
        0 <= pos(j) < 0x1_0000,
        0 <= j < 0x1_0000 ==> pos(j) == j,
{
}

/// In a well-formed block every position within it reads a valid entry.
pub proof fn lemma_wf_entry(b: BlockView, j: int)
    requires
        block_wf(b),
        0 <= j < b.offsets.len(),
    ensures
        ent_ok(b, pos(j)),
{
    lemma_pos(j);
    assert(ent_ok(b, pos(j)));
}

/// A well-formed block can be sought for any key.
pub proof fn lemma_wf_seek(b: BlockView, target: Seq<u8>)
    requires
        block_wf(b),
    ensures
        seek_reads_ok(b, target),
{
    assert forall|j: int|
        0 <= j < b.offsets.len() && j <= seek_position(b, target) implies #[trigger] ent_ok(
        b,
        pos(j),
    ) by {
        lemma_wf_entry(b, j);
    }
}

proof fn lemma_scan_bounds(b: BlockView, target: Seq<u8>, j: int)
    requires
        0 <= j <= b.offsets.len(),
    ensures
        j <= scan_from(b, target, j) <= b.offsets.len(),
        forall|k: int|
            j <= k < scan_from(b, target, j) ==> ent_key(b, pos(k)).len() > 0 && key_lt(
                #[trigger] ent_key(b, pos(k)),
                target,
            ),
        forall|k: int| j <= k <= scan_from(b, target, j) ==> scan_from(b, target, k) == scan_from(b, target, j),
    decreases b.offsets.len() - j,
{
    if j < b.offsets.len() && ent_key(b, pos(j)).len() > 0 && key_lt(ent_key(b, pos(j)), target) {
        lemma_scan_bounds(b, target, j + 1);
    }
}

/// The entries from position `j` on, up to the end of the block or the first
/// empty key.
pub open spec fn block_entries_from(b: BlockView, j: int) -> Seq<Entry>
    decreases b.offsets.len() - j,
{
    if j < 0 || j >= b.offsets.len() || ent_key(b, pos(j)).len() == 0 {
        Seq::empty()
    } else {
        seq![(ent_key(b, pos(j)), ent_value(b, pos(j)))] + block_entries_from(b, j + 1)
    }
}

/// The entries from where a scan for `target` stops are those from `j` on
/// with the leading smaller keys skipped.
pub proof fn lemma_scan_drops_less(b: BlockView, target: Seq<u8>, j: int)
    requires
        0 <= j,
    ensures
        block_entries_from(b, scan_from(b, target, j)) == drop_less(
            block_entries_from(b, j),
            target,
        ),
    decreases b.offsets.len() - j,
{
    let s = block_entries_from(b, j);
    if j < b.offsets.len() && ent_key(b, pos(j)).len() > 0 {
        assert(s[0] == (ent_key(b, pos(j)), ent_value(b, pos(j))));
        if key_lt(ent_key(b, pos(j)), target) {
            assert(s.drop_first() =~= block_entries_from(b, j + 1));
            lemma_scan_drops_less(b, target, j + 1);
        }
    }
}

/// In a block whose keys are non-empty and strictly increase, a seek for
/// `target` stops at the first key that is no smaller than `target`: every
/// key before it is smaller, and no key from it on is.
pub proof fn law_seek_first_not_less(b: BlockView, target: Seq<u8>)
    requires
        b.offsets.len() < 0x1_0000,
        forall|j: int| 0 <= j < b.offsets.len() ==> (#[trigger] ent_key(b, j)).len() > 0,
        forall|i: int, j: int|
            0 <= i < j < b.offsets.len() ==> key_lt(#[trigger] ent_key(b, i), #[trigger] ent_key(b, j)),
    ensures
        0 <= seek_position(b, target) <= b.offsets.len(),
        forall|j: int| 0 <= j < seek_position(b, target) ==> key_lt(#[trigger] ent_key(b, j), target),
        forall|j: int|
            seek_position(b, target) <= j < b.offsets.len() ==> !key_lt(#[trigger] ent_key(b, j), target),
{
    let p = seek_position(b, target);
    lemma_scan_bounds(b, target, 0);
    assert forall|j: int| 0 <= j < p implies key_lt(#[trigger] ent_key(b, j), target) by {
        lemma_pos(j);
        assert(key_lt(ent_key(b, pos(j)), target));
    }
    if p < b.offsets.len() {
        lemma_pos(p);
        lemma_scan_bounds(b, target, p);
        lemma_scan_bounds(b, target, p + 1);
        assert(ent_key(b, pos(p)).len() > 0);
        assert(!key_lt(ent_key(b, p), target));
        assert forall|j: int| p <= j < b.offsets.len() implies !key_lt(#[trigger] ent_key(b, j), target) by {
            if j > p && key_lt(ent_key(b, j), target) {
                crate::key::lemma_key_lt_transitive(ent_key(b, p), ent_key(b, j), target);
            }
        }
    }
}

/// Iterates on a block.
pub struct BlockIterator {
    /// The block.
    block: Arc<Block>,
    /// The current key; empty when the iterator is invalid.
    key: Vec<u8>,
    /// The range of the block's data that holds the current value.
    value_range: (usize, usize),
    /// Index of the current entry.
    idx: usize,
    /// The first key in the block.
    first_key: Vec<u8>,
}

impl BlockIterator {
    pub closed spec fn block_view(&self) -> BlockView {
        (*self.block)@
    }

    pub closed spec fn key_view(&self) -> Seq<u8> {
        self.key@
    }

    pub closed spec fn value_range_view(&self) -> (int, int) {
        (self.value_range.0 as int, self.value_range.1 as int)
    }

    pub closed spec fn idx_view(&self) -> int {
        self.idx as int
    }

    /// The iterator's own copy of the first key matches the block, and the
    /// value range lies within the block's data.
    pub closed spec fn consistent(&self) -> bool {
        &&& first_key_ok((*self.block)@)
        &&& self.first_key@ == block_first_key((*self.block)@)
        &&& self.value_range.0 <= self.value_range.1 <= self.block.data@.len()
    }

    /// The value range of entry `i`.
    pub open spec fn range_of(b: BlockView, i: int) -> (int, int) {
        (ent_value_start(b, i), ent_value_start(b, i) + ent_value_len(b, i))
    }

    fn get_key_overlap_len_at(&self, position: u16) -> (r: u16)
        requires
            (position as int) < self.block_view().offsets.len(),
            ent_off(self.block_view(), position as int) + 2 <= self.block_view().data.len(),
        ensures
            r == ent_overlap(self.block_view(), position as int),
    {
        let offset = self.block.offsets[position as usize] as usize;
        get_u16(self.block.data.as_slice(), offset)
    }

    fn get_rest_key_len_at(&self, position: u16) -> (r: u16)
        requires
            (position as int) < self.block_view().offsets.len(),
            ent_off(self.block_view(), position as int) + 4 <= self.block_view().data.len(),
        ensures
            r == ent_rest_len(self.block_view(), position as int),
    {
        let offset = self.block.offsets[position as usize] as usize;
        get_u16(self.block.data.as_slice(), offset + 2)
    }

    fn get_key_at(&self, position: u16) -> (r: Vec<u8>)
        requires
            self.consistent(),
            ent_ok(self.block_view(), position as int),
        ensures
            r@ == ent_key(self.block_view(), position as int),
    {
        let offset = self.block.offsets[position as usize] as usize;
        let key_overlap_len = self.get_key_overlap_len_at(position) as usize;
        let rest_key_len = self.get_rest_key_len_at(position) as usize;
        let rest_key = slice_subrange(self.block.data.as_slice(), offset + 4, offset + rest_key_len + 4);
        let overlap_key = slice_subrange(self.first_key.as_slice(), 0, key_overlap_len);
        let mut key: Vec<u8> = Vec::new();
        put_slice(&mut key, overlap_key);
        put_slice(&mut key, rest_key);
        key
    }

    fn get_value_len_at(&self, position: u16) -> (r: u16)
        requires
            (position as int) < self.block_view().offsets.len(),
            ent_value_start(self.block_view(), position as int) <= self.block_view().data.len(),
        ensures
            r == ent_value_len(self.block_view(), position as int),
    {
        let offset = self.block.offsets[position as usize] as usize;
        let key_len = self.get_rest_key_len_at(position) as usize;
        get_u16(self.block.data.as_slice(), offset + 4 + 8 + key_len)
    }

    fn get_value_range_at(&self, position: u16) -> (r: (usize, usize))
        requires
            (position as int) < self.block_view().offsets.len(),
            ent_value_start(self.block_view(), position as int) <= self.block_view().data.len(),
        ensures
            (r.0 as int, r.1 as int) == Self::range_of(self.block_view(), position as int),
    {
        let offset = self.block.offsets[position as usize] as usize;
        let key_len = self.get_rest_key_len_at(position) as usize;
        let value_len = self.get_value_len_at(position) as usize;
        (offset + 4 + 8 + key_len + 2, offset + 4 + 8 + key_len + 2 + value_len)
    }

    fn new(block: Arc<Block>) -> (r: Self)
        requires
            first_key_ok((*block)@),
        ensures
            r.consistent(),
            r.block_view() == (*block)@,
            r.key_view() == Seq::<u8>::empty(),
            r.value_range_view() == (0int, 0int),
            r.idx_view() == 0,
    {
        let rest_key_len = get_u16(block.data.as_slice(), 2) as usize;
        let mut first_key: Vec<u8> = Vec::new();
        put_slice(&mut first_key, slice_subrange(block.data.as_slice(), 4, 4 + rest_key_len));
        Self { block, key: Vec::new(), value_range: (0, 0), idx: 0, first_key }
    }

    /// Creates a block iterator and seeks to the first entry.
    pub fn create_and_seek_to_first(block: Arc<Block>) -> (r: Self)
        requires
            first_key_ok((*block)@),
            ent_ok((*block)@, 0),
        ensures
            r.consistent(),
            r.block_view() == (*block)@,
            r.idx_view() == 0,
            r.key_view() == ent_key((*block)@, 0),
            r.value_range_view() == Self::range_of((*block)@, 0),
            block_wf((*block)@) ==> StorageIterator::inv(&r) && r.remaining() == block_entries_from(
                (*block)@,
                0,
            ),
    {
        let mut iter = BlockIterator::new(block);
        iter.seek_to_first();
        proof {
            lemma_pos(0);
        }
        iter
    }

    /// Creates a block iterator and seeks to the first key that is no smaller than `key`.
    pub fn create_and_seek_to_key(block: Arc<Block>, key: &[u8]) -> (r: Self)
        requires
            first_key_ok((*block)@),
            ent_ok((*block)@, 0),
            seek_reads_ok((*block)@, key@),
        ensures
            r.consistent(),
            r.block_view() == (*block)@,
            r.idx_view() == seek_position((*block)@, key@),
            r.idx_view() < block.offsets@.len() ==> {
                &&& r.key_view() == ent_key((*block)@, pos(r.idx_view()))
                &&& r.value_range_view() == Self::range_of((*block)@, pos(r.idx_view()))
            },
            r.idx_view() >= block.offsets@.len() ==> {
                &&& r.key_view() == Seq::<u8>::empty()
                &&& r.value_range_view() == Self::range_of((*block)@, pos(r.idx_view() - 1))
            },
            block_wf((*block)@) ==> StorageIterator::inv(&r) && r.remaining() == block_entries_from(
                (*block)@,
                seek_position((*block)@, key@),
            ),
    {
        let mut iter = BlockIterator::new(block);
        iter.seek_to_first();
        iter.seek_to_key(key);
        proof {
            let b = (*block)@;
            lemma_scan_bounds(b, key@, 0);
        }
        iter
    }

    /// Returns the key of the current entry.
    pub fn key(&self) -> (r: &[u8])
        ensures
            r@ == self.key_view(),
    {
        self.key.as_slice()
    }

    /// Returns the value of the current entry.
    pub fn value(&self) -> (r: &[u8])
        requires
            self.consistent(),
        ensures
            r@ == self.block_view().data.subrange(
                self.value_range_view().0,
                self.value_range_view().1,
            ),
    {
        let lower_bound = self.value_range.0;
        let upper_bound = self.value_range.1;
        slice_subrange(self.block.data.as_slice(), lower_bound, upper_bound)
    }

    /// Returns true if the iterator is valid: the current key is not empty.
    pub fn is_valid(&self) -> (r: bool)
        ensures
            r == (self.key_view().len() > 0),
    {
        !self.key.is_empty()
    }

    /// Seeks to the first key in the block.
    pub fn seek_to_first(&mut self)
        requires
            old(self).consistent(),
            ent_ok(old(self).block_view(), 0),
        ensures
            final(self).consistent(),
            final(self).block_view() == old(self).block_view(),
            final(self).idx_view() == 0,
            final(self).key_view() == ent_key(old(self).block_view(), 0),
            final(self).value_range_view() == Self::range_of(old(self).block_view(), 0),
    {
        self.idx = 0;
        let first_key = self.get_key_at(0);
        self.key = first_key;
        let value_range = self.get_value_range_at(0);
        self.value_range = value_range;
    }

    /// Moves to the next key in the block.
    pub fn next(&mut self)
        requires
            old(self).consistent(),
            old(self).idx_view() + 1 <= usize::MAX,
            old(self).idx_view() + 1 < old(self).block_view().offsets.len() ==> ent_ok(
                old(self).block_view(),
                pos(old(self).idx_view() + 1),
            ),
        ensures
            final(self).consistent(),
            final(self).block_view() == old(self).block_view(),
            final(self).idx_view() == old(self).idx_view() + 1,
            final(self).idx_view() >= old(self).block_view().offsets.len() ==> {
                &&& final(self).key_view() == Seq::<u8>::empty()
                &&& final(self).value_range_view() == old(self).value_range_view()
            },
            final(self).idx_view() < old(self).block_view().offsets.len() ==> {
                &&& final(self).key_view() == ent_key(
                    old(self).block_view(),
                    pos(final(self).idx_view()),
                )
                &&& final(self).value_range_view() == Self::range_of(
                    old(self).block_view(),
                    pos(final(self).idx_view()),
                )
            },
    {
        self.idx = self.idx + 1;
        if self.idx >= self.block.offsets.len() {
            self.key = Vec::new();
        } else {
            let key = self.get_key_at(self.idx as u16);
            let value_range = self.get_value_range_at(self.idx as u16);
            self.key = key;
            self.value_range = value_range;
        }
    }

    /// Seeks to the first key that is no smaller than `key`, scanning from the
    /// first entry; stops early at an empty key.
    pub fn seek_to_key(&mut self, key: &[u8])
        requires
            old(self).consistent(),
            ent_ok(old(self).block_view(), 0),
            seek_reads_ok(old(self).block_view(), key@),
        ensures
            final(self).consistent(),
            final(self).block_view() == old(self).block_view(),
            final(self).idx_view() == seek_position(old(self).block_view(), key@),
            final(self).idx_view() < old(self).block_view().offsets.len() ==> {
                &&& final(self).key_view() == ent_key(
                    old(self).block_view(),
                    pos(final(self).idx_view()),
                )
                &&& final(self).value_range_view() == Self::range_of(
                    old(self).block_view(),
                    pos(final(self).idx_view()),
                )
            },
            final(self).idx_view() >= old(self).block_view().offsets.len() ==> {
                &&& final(self).key_view() == Seq::<u8>::empty()
                &&& final(self).value_range_view() == Self::range_of(
                    old(self).block_view(),
                    pos(final(self).idx_view() - 1),
                )
            },
    {
        let ghost b = self.block_view();
        proof {
            lemma_scan_bounds(b, key@, 0);
            lemma_pos(0);
        }
        self.seek_to_first();
        let n_entries = self.block.offsets.len();
        while self.is_valid() && key_less(self.key.as_slice(), key)
            invariant
                n_entries == b.offsets.len(),
                self.consistent(),
                self.block_view() == b,
                seek_reads_ok(b, key@),
                0 <= self.idx_view() <= seek_position(b, key@) <= b.offsets.len(),
                scan_from(b, key@, self.idx_view()) == seek_position(b, key@),
                self.idx_view() < b.offsets.len() ==> {
                    &&& self.key_view() == ent_key(b, pos(self.idx_view()))
                    &&& self.value_range_view() == Self::range_of(b, pos(self.idx_view()))
                },
                self.idx_view() >= b.offsets.len() ==> {
                    &&& self.key_view() == Seq::<u8>::empty()
                    &&& self.value_range_view() == Self::range_of(b, pos(self.idx_view() - 1))
                },
            decreases b.offsets.len() - self.idx_view(),
        {
            proof {
                lemma_scan_bounds(b, key@, self.idx_view());
                lemma_scan_bounds(b, key@, 0);
                assert(self.idx_view() < b.offsets.len());
                assert(scan_from(b, key@, self.idx_view()) == scan_from(
                    b,
                    key@,
                    self.idx_view() + 1,
                ));
                lemma_scan_bounds(b, key@, self.idx_view() + 1);
                if self.idx_view() + 1 < b.offsets.len() {
                    assert(ent_ok(b, pos(self.idx_view() + 1)));
                }
            }
            self.next();
        }
        proof {
            lemma_scan_bounds(b, key@, self.idx_view());
        }
    }
}

impl StorageIterator for BlockIterator {
    closed spec fn remaining(&self) -> Seq<Entry> {
        block_entries_from((*self.block)@, self.idx as int)
    }

    /// A block is read from memory.
    open spec fn infallible(&self) -> bool {
        true
    }

    /// The block is well formed, and the iterator sits on the entry at its
    /// index, or past the end with an empty key.
    closed spec fn inv(&self) -> bool {
        &&& self.consistent()
        &&& block_wf((*self.block)@)
        &&& self.idx <= self.block.offsets@.len()
        &&& self.idx < self.block.offsets@.len() ==> {
            &&& self.key@ == ent_key((*self.block)@, pos(self.idx as int))
            &&& self.value_range_view() == Self::range_of((*self.block)@, pos(self.idx as int))
        }
        &&& self.idx >= self.block.offsets@.len() ==> self.key@ == Seq::<u8>::empty()
    }

    fn key(&self) -> (r: &[u8]) {
        self.key.as_slice()
    }

    fn value(&self) -> (r: &[u8]) {
        let r = BlockIterator::value(self);
        assert(r@ =~= ent_value((*self.block)@, pos(self.idx as int)));
        r
    }

    fn is_valid(&self) -> (r: bool) {
        !self.key.is_empty()
    }

    fn next(&mut self) -> (r: Result<(), StorageError>) {
        let n = self.block.offsets.len();
        proof {
            if self.idx + 1 < n {
                lemma_wf_entry(self.block_view(), self.idx + 1);
            }
        }
        BlockIterator::next(self);
        Ok(())
    }
}


} // verus!
