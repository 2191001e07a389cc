//! Sorted string tables: runs of blocks with an index of their key ranges.
use crate::block::iterator::{block_entries_from, block_wf};
use crate::block::{decodable, decoded_view, Block, BlockView};
use crate::codec::{be16, be32, put_slice, put_u16, put_u32};
use crate::iterators::Entry;
use std::sync::Arc;
use vstd::prelude::*;
use vstd::slice::slice_subrange;

pub mod builder;
pub mod iterator;
pub mod roundtrip;

pub use builder::SsTableBuilder;
pub use iterator::SsTableIterator;

verus! {

/// Where a block starts in a table, and the keys recorded for it.
pub struct BlockMeta {
    pub offset: usize,
    pub first_key: Vec<u8>,
    pub last_key: Vec<u8>,
}

impl BlockMeta {
    /// The offset and the two keys, by view.
    pub open spec fn view_parts(&self) -> (int, Seq<u8>, Seq<u8>) {
        (self.offset as int, self.first_key@, self.last_key@)
    }

    /// Appends the encoding of each meta to `buf`: the offset as four
    /// big-endian bytes, then each key after its length as two big-endian
    /// bytes (offsets and lengths truncated).
    pub fn encode_block_meta(block_meta: &Vec<BlockMeta>, buf: &mut Vec<u8>)
        ensures
            final(buf)@ == old(buf)@ + metas_bytes(metas_view(block_meta@)),
    {
        let ghost metas = metas_view(block_meta@);
        let mut i: usize = 0;
        while i < block_meta.len()
            invariant
                metas == metas_view(block_meta@),
                i <= block_meta@.len(),
                buf@ == old(buf)@ + metas_bytes(metas.subrange(0, i as int)),
            decreases block_meta@.len() - i,
        {
            let m = &block_meta[i];
            let ghost before = buf@;
            put_u32(buf, m.offset as u32);
            put_u16(buf, m.first_key.len() as u16);
            put_slice(buf, m.first_key.as_slice());
            put_u16(buf, m.last_key.len() as u16);
            put_slice(buf, m.last_key.as_slice());
            proof {
                assert(metas.subrange(0, i + 1).drop_last() =~= metas.subrange(0, i as int));
                assert(metas[i as int] == m.view_parts());
            }
            i = i + 1;
            assert(buf@ =~= old(buf)@ + metas_bytes(metas.subrange(0, i as int)));
        }
        assert(metas.subrange(0, i as int) =~= metas);
    }
}

/// The metas, by view.
pub open spec fn metas_view(metas: Seq<BlockMeta>) -> Seq<(int, Seq<u8>, Seq<u8>)> {
    metas.map_values(|m: BlockMeta| m.view_parts())
}

/// The encoding of one meta.
pub open spec fn meta_bytes(m: (int, Seq<u8>, Seq<u8>)) -> Seq<u8> {
    be32(m.0 as u32) + be16(m.1.len() as u16) + m.1 + be16(m.2.len() as u16) + m.2
}

/// The encodings of the metas, one after another.
pub open spec fn metas_bytes(metas: Seq<(int, Seq<u8>, Seq<u8>)>) -> Seq<u8>
    decreases metas.len(),
{
    if metas.len() == 0 {
        Seq::empty()
    } else {
        metas_bytes(metas.drop_last()) + meta_bytes(metas.last())
    }
}

/// A table: its file's bytes (the blocks, then their metas, then where the
/// metas start), its metas and its key range.
pub struct SsTable {
    pub file: Vec<u8>,
    pub block_meta: Vec<BlockMeta>,
    pub block_meta_offset: usize,
    pub id: usize,
    pub first_key: Vec<u8>,
    pub last_key: Vec<u8>,
    pub max_ts: u64,
}

impl SsTable {
    /// Where block `i` starts in the file.
    pub open spec fn block_start(&self, i: int) -> int {
        self.block_meta@[i].offset as int
    }

    /// Where block `i` ends: where the next block starts, or where the metas
    /// start for the last block.
    pub open spec fn block_end(&self, i: int) -> int {
        if i + 1 < self.block_meta@.len() {
            self.block_meta@[i + 1].offset as int
        } else {
            self.block_meta_offset as int
        }
    }

    /// The encoded bytes of block `i`.
    pub open spec fn block_bytes(&self, i: int) -> Seq<u8> {
        self.file@.subrange(self.block_start(i), self.block_end(i))
    }

    /// Block `i`, decoded.
    pub open spec fn block_at(&self, i: int) -> BlockView {
        decoded_view(self.block_bytes(i))
    }

    /// Block `i` lies within the file, decodes, and every entry of it can be read.
    pub open spec fn block_readable(&self, i: int) -> bool {
        &&& self.block_start(i) <= self.block_end(i) <= self.file@.len()
        &&& decodable(self.block_bytes(i))
        &&& block_wf(self.block_at(i))
    }

    /// The table has a block, and each of its blocks can be read.
    pub open spec fn wf(&self) -> bool {
        &&& self.block_meta@.len() > 0
        &&& forall|i: int| 0 <= i < self.block_meta@.len() ==> #[trigger] self.block_readable(i)
    }

    /// The entries of the blocks from block `i` on, in order.
    pub open spec fn entries_from(&self, i: int) -> Seq<Entry>
        decreases self.block_meta@.len() - i,
    {
        if i < 0 || i >= self.block_meta@.len() {
            Seq::empty()
        } else {
            block_entries_from(self.block_at(i), 0) + self.entries_from(i + 1)
        }
    }

    /// The entries of the table, in order.
    pub open spec fn entries(&self) -> Seq<Entry> {
        self.entries_from(0)
    }

    /// Reads and decodes block `block_idx`.
    pub fn read_block(&self, block_idx: usize) -> (r: Arc<Block>)
        requires
            block_idx < self.block_meta@.len(),
            self.block_readable(block_idx as int),
        ensures
            (*r)@ == self.block_at(block_idx as int),
    {
        assert(self.block_meta@.len() == self.block_meta.len());
        let start = self.block_meta[block_idx].offset;
        let end = if block_idx + 1 < self.block_meta.len() {
            self.block_meta[block_idx + 1].offset
        } else {
            self.block_meta_offset
        };
        let bytes = slice_subrange(self.file.as_slice(), start, end);
        Arc::new(Block::decode(bytes))
    }

    /// The number of blocks in the table.
    pub fn num_of_blocks(&self) -> (r: usize)
        ensures
            r == self.block_meta@.len(),
    {
        self.block_meta.len()
    }

    /// The smallest key of the table.
    pub fn first_key(&self) -> (r: &Vec<u8>)
        ensures
            r@ == self.first_key@,
    {
        &self.first_key
    }

    /// The largest key of the table.
    pub fn last_key(&self) -> (r: &Vec<u8>)
        ensures
            r@ == self.last_key@,
    {
        &self.last_key
    }

    /// The table's id.
    pub fn sst_id(&self) -> (r: usize)
        ensures
            r == self.id,
    {
        self.id
    }
}

} // verus!
