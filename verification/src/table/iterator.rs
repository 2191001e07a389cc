//! Iterates over the entries of a table, block by block.
use super::SsTable;
use crate::block::iterator::{block_entries_from, lemma_scan_drops_less, lemma_wf_seek, seek_position};
use crate::block::BlockIterator;
use crate::iterators::{drop_less, lemma_drop_less_concat, Entry, StorageError, StorageIterator};
use std::sync::Arc;
use vstd::prelude::*;

verus! {

/// An iterator over an SSTable.
pub struct SsTableIterator {
    table: Arc<SsTable>,
    blk_iter: BlockIterator,
    blk_idx: usize,
}

impl SsTableIterator {
    /// The table being read.
    pub closed spec fn table_view(&self) -> SsTable {
        *self.table
    }

    /// The block iterator reads block `blk_idx` of the table.
    closed spec fn on_block(&self) -> bool {
        &&& self.table.wf()
        &&& self.blk_idx < self.table.block_meta@.len()
        &&& StorageIterator::inv(&self.blk_iter)
    }

    /// Moves on to the next blocks while the current one is exhausted.
    fn skip_exhausted(&mut self)
        requires
            old(self).on_block(),
        ensures
            final(self).on_block(),
            final(self).table == old(self).table,
            StorageIterator::inv(final(self)),
            final(self).remaining() == old(self).remaining(),
    {
        let n = self.table.num_of_blocks();
        while !StorageIterator::is_valid(&self.blk_iter) && self.blk_idx + 1 < n
            invariant
                self.on_block(),
                self.table == old(self).table,
                n == self.table.block_meta@.len(),
                self.remaining() == old(self).remaining(),
            decreases n - self.blk_idx,
        {
            let ghost t = self.table_view();
            let ghost i = self.blk_idx as int;
            self.blk_idx = self.blk_idx + 1;
            assert(t.block_readable(i + 1));
            let block = self.table.read_block(self.blk_idx);
            self.blk_iter = BlockIterator::create_and_seek_to_first(block);
            assert(t.entries_from(i + 1) == block_entries_from(t.block_at(i + 1), 0)
                + t.entries_from(i + 2));
            assert(Seq::<Entry>::empty() + t.entries_from(i + 1) =~= t.entries_from(i + 1));
        }
    }

    /// Creates a new iterator and seeks to the first key-value pair in the first data block.
    pub fn create_and_seek_to_first(table: Arc<SsTable>) -> (r: Self)
        requires
            table.wf(),
        ensures
            StorageIterator::inv(&r),
            r.table_view() == *table,
            r.remaining() == table.entries(),
    {
        assert(table.block_readable(0));
        let block = table.read_block(0);
        let blk_iter = BlockIterator::create_and_seek_to_first(block);
        let mut r = SsTableIterator { table, blk_iter, blk_idx: 0 };
        r.skip_exhausted();
        r
    }

    /// Creates a new iterator and seeks to the first key that is no smaller
    /// than `key`.
    pub fn create_and_seek_to_key(table: Arc<SsTable>, key: &[u8]) -> (r: Self)
        requires
            table.wf(),
        ensures
            StorageIterator::inv(&r),
            r.table_view() == *table,
            r.remaining() == drop_less(table.entries(), key@),
    {
        let n = table.num_of_blocks();
        let mut idx: usize = 0;
        assert(table.block_readable(0));
        proof {
            lemma_wf_seek(table.block_at(0), key@);
            lemma_scan_drops_less(table.block_at(0), key@, 0);
        }
        let block = table.read_block(0);
        let mut blk_iter = BlockIterator::create_and_seek_to_key(block, key);
        while !StorageIterator::is_valid(&blk_iter) && idx + 1 < n
            invariant
                table.wf(),
                n == table.block_meta@.len(),
                idx < n,
                StorageIterator::inv(&blk_iter),
                blk_iter.remaining() == drop_less(block_entries_from(table.block_at(idx as int), 0), key@),
                drop_less(table.entries(), key@) == drop_less(table.entries_from(idx as int), key@),
            decreases n - idx,
        {
            proof {
                lemma_drop_less_concat(
                    block_entries_from(table.block_at(idx as int), 0),
                    table.entries_from(idx + 1),
                    key@,
                );
            }
            idx = idx + 1;
            assert(table.block_readable(idx as int));
            proof {
                lemma_wf_seek(table.block_at(idx as int), key@);
                lemma_scan_drops_less(table.block_at(idx as int), key@, 0);
            }
            let block = table.read_block(idx);
            blk_iter = BlockIterator::create_and_seek_to_key(block, key);
        }
        proof {
            lemma_drop_less_concat(
                block_entries_from(table.block_at(idx as int), 0),
                table.entries_from(idx + 1),
                key@,
            );
        }
        SsTableIterator { table, blk_iter, blk_idx: idx }
    }
}

impl StorageIterator for SsTableIterator {
    closed spec fn remaining(&self) -> Seq<Entry> {
        self.blk_iter.remaining() + self.table.entries_from(self.blk_idx + 1)
    }

    /// A table is read from memory.
    open spec fn infallible(&self) -> bool {
        true
    }

    /// The block iterator reads the current block, and it is exhausted only
    /// on the last block.
    closed spec fn inv(&self) -> bool {
        &&& self.on_block()
        &&& self.blk_iter.remaining().len() == 0 ==> self.blk_idx + 1 == self.table.block_meta@.len()
    }

    fn key(&self) -> (r: &[u8]) {
        StorageIterator::key(&self.blk_iter)
    }

    fn value(&self) -> (r: &[u8]) {
        StorageIterator::value(&self.blk_iter)
    }

    fn is_valid(&self) -> (r: bool) {
        StorageIterator::is_valid(&self.blk_iter)
    }

    fn next(&mut self) -> (r: Result<(), StorageError>) {
        let ghost rest = self.table.entries_from(self.blk_idx + 1);
        let ghost before = self.blk_iter.remaining();
        let r = StorageIterator::next(&mut self.blk_iter);
        if r.is_ok() {
            assert(self.remaining() =~= (before + rest).drop_first());
        }
        self.skip_exhausted();
        r
    }
}

} // verus!
