//! Builds a table from sorted key-value pairs, a block at a time.
use super::roundtrip::{
    blocks_bytes, chunk_bounded, chunk_first_key, chunk_readable, chunk_start, entries_fit, flatten,
    keys_nonempty, lemma_block_of_len, lemma_built_first_key, lemma_chunk_first_key,
    lemma_fit_subrange, lemma_flatten_fits, lemma_flatten_len, lemma_flatten_push,
    lemma_table_reads_back,
};
use crate::block::iterator::block_entries_from;
use crate::block::roundtrip::lemma_built_sizes;
use super::{metas_bytes, BlockMeta, SsTable};
use crate::block::builder::{add_bound, after_add, built, encoded_entry, encoded_len, refuses, BuilderParts};
use crate::block::{encoded_block, BlockBuilder};
use crate::codec::{be32, copy_range, get_u16, put_slice, put_u32, read_be16};
use crate::external::bytes_as_slice;
use crate::iterators::Entry;
use crate::key::lemma_lcp;
use vstd::prelude::*;

verus! {

/// The meta that a sealed block gets: its offset in the table, its first key
/// (the rest of the first entry's key, which shares nothing with an earlier
/// key, read after its two-byte length), and its last key (the last key
/// added to it).
pub open spec fn sealed_meta(offset: int, data: Seq<u8>, last_key: Seq<u8>) -> (int, Seq<u8>, Seq<u8>) {
    (offset, data.subrange(4, 4 + read_be16(data, 2) as int), last_key)
}

/// What a table builder holds, with the entries of each block kept as ghost
/// state.
struct TableState {
    builder: BlockBuilder,
    first_key: Vec<u8>,
    last_key: Vec<u8>,
    data: Vec<u8>,
    meta: Vec<BlockMeta>,
    block_size: usize,
    /// The entries of each sealed block.
    sealed: Ghost<Seq<Seq<Entry>>>,
    /// The entries of the block being built.
    pending: Ghost<Seq<Entry>>,
}

impl TableState {
    pub closed spec fn block_parts(&self) -> BuilderParts {
        self.builder.parts()
    }

    pub closed spec fn first_key_view(&self) -> Seq<u8> {
        self.first_key@
    }

    pub closed spec fn last_key_view(&self) -> Seq<u8> {
        self.last_key@
    }

    pub closed spec fn data_view(&self) -> Seq<u8> {
        self.data@
    }

    pub closed spec fn meta_view(&self) -> Seq<(int, Seq<u8>, Seq<u8>)> {
        self.meta@.map_values(|m: BlockMeta| m.view_parts())
    }

    pub closed spec fn block_size_view(&self) -> nat {
        self.block_size as nat
    }

    /// The entries added so far, in order.
    pub closed spec fn content(&self) -> Seq<Entry> {
        flatten(self.sealed@) + self.pending@
    }

    /// The current block builder was made with the table's block size; the
    /// data holds the blocks sealed so far, each meta records where its block
    /// starts and its first and last keys, the block builder holds the
    /// entries added since, and the last key is that of the last entry. While
    /// every key added is non-empty, each block stays within the block size
    /// (or holds a single entry), and the first key is that of the first entry.
    pub closed spec fn inv(&self) -> bool {
        &&& self.builder.block_size_view() == self.block_size
        &&& self.data@ == blocks_bytes(self.sealed@)
        &&& self.meta@.len() == self.sealed@.len()
        &&& forall|i: int|
            0 <= i < self.sealed@.len() ==> (#[trigger] self.meta@[i]).offset == chunk_start(
                self.sealed@,
                i,
            )
        &&& forall|i: int| 0 <= i < self.sealed@.len() ==> (#[trigger] self.sealed@[i]).len() > 0
        &&& forall|i: int|
            0 <= i < self.sealed@.len() ==> {
                &&& (#[trigger] self.meta@[i]).first_key@ == chunk_first_key(self.sealed@[i])
                &&& self.meta@[i].last_key@ == self.sealed@[i].last().0
            }
        &&& self.builder.parts() == built(self.pending@)
        &&& self.content().len() > 0 ==> self.last_key@ == self.content().last().0
        &&& keys_nonempty(self.content()) ==> {
            &&& forall|i: int|
                0 <= i < self.sealed@.len() ==> chunk_bounded(
                    #[trigger] self.sealed@[i],
                    self.block_size as int,
                )
            &&& chunk_bounded(self.pending@, self.block_size as int)
            &&& self.content().len() == 0 ==> self.first_key@.len() == 0
            &&& self.content().len() > 0 ==> self.first_key@ == self.content()[0].0
        }
    }

    /// Create a builder based on target block size.
    pub fn new(block_size: usize) -> (r: Self)
        ensures
            r.inv(),
            r.block_parts() == (Seq::<u8>::empty(), Seq::<u16>::empty(), Seq::<u8>::empty()),
            r.first_key_view() == Seq::<u8>::empty(),
            r.last_key_view() == Seq::<u8>::empty(),
            r.data_view() == Seq::<u8>::empty(),
            r.meta_view() == Seq::<(int, Seq<u8>, Seq<u8>)>::empty(),
            r.block_size_view() == block_size,
            r.content() == Seq::<Entry>::empty(),
    {
        let r = TableState {
            builder: BlockBuilder::new(block_size),
            first_key: Vec::new(),
            last_key: Vec::new(),
            data: Vec::new(),
            meta: Vec::new(),
            block_size,
            sealed: Ghost(Seq::empty()),
            pending: Ghost(Seq::empty()),
        };
        assert(r.meta_view() =~= Seq::<(int, Seq<u8>, Seq<u8>)>::empty());
        assert(r.content() =~= Seq::<Entry>::empty());
        r
    }

    /// The block builder refuses the entry: it holds an entry already, and
    /// the encoded block would grow past the block size with this one.
    pub open spec fn block_full(&self, key: Seq<u8>, value: Seq<u8>) -> bool {
        refuses(self.block_parts(), self.block_size_view() as int, key, value)
    }

    /// Seals the current block: appends its encoding to the data and records
    /// its meta, then starts a new block.
    fn seal_block(&mut self)
        requires
            old(self).inv(),
            old(self).block_parts().1.len() > 0,
        ensures
            final(self).inv(),
            final(self).block_size_view() == old(self).block_size_view(),
            final(self).block_parts() == (Seq::<u8>::empty(), Seq::<u16>::empty(), Seq::<u8>::empty()),
            final(self).data_view() == old(self).data_view() + encoded_block(
                old(self).block_parts().0,
                old(self).block_parts().1,
            ),
            final(self).meta_view() == old(self).meta_view().push(
                sealed_meta(
                    old(self).data_view().len() as int,
                    old(self).block_parts().0,
                    old(self).last_key_view(),
                ),
            ),
            final(self).first_key_view() == old(self).first_key_view(),
            final(self).last_key_view() == old(self).last_key_view(),
            final(self).content() == old(self).content(),
            final(self).sealed@ == old(self).sealed@.push(old(self).pending@),
            final(self).pending@ == Seq::<Entry>::empty(),
    {
        let ghost sealed0 = self.sealed@;
        let ghost pending0 = self.pending@;
        proof {
            lemma_built_sizes(pending0);
            lemma_chunk_first_key(pending0);
            lemma_flatten_push(sealed0, pending0);
            assert(self.content() =~= flatten(sealed0) + pending0);
            assert(self.content().last() == pending0.last());
        }
        let mut old_block_builder = BlockBuilder::new(self.block_size);
        std::mem::swap(&mut self.builder, &mut old_block_builder);
        let old_block = old_block_builder.build();
        let block_offset = self.data.len();
        let encoded = old_block.encode();
        put_slice(&mut self.data, bytes_as_slice(&encoded));
        let first_key_len = get_u16(old_block.data.as_slice(), 2) as usize;
        let first_key = copy_range(old_block.data.as_slice(), 4, 4 + first_key_len);
        let mut last_key: Vec<u8> = Vec::new();
        put_slice(&mut last_key, self.last_key.as_slice());
        let ghost before = self.meta_view();
        let ghost metas0 = self.meta@;
        self.meta.push(BlockMeta { offset: block_offset, first_key, last_key });
        assert(self.meta_view() =~= before.push(
            sealed_meta(block_offset as int, old_block.data@, old(self).last_key@),
        ));
        self.sealed = Ghost(sealed0.push(pending0));
        self.pending = Ghost(Seq::empty());
        proof {
            let sealed1 = sealed0.push(pending0);
            let n = sealed0.len() as int;
            assert(sealed1.drop_last() =~= sealed0);
            assert(sealed1.subrange(0, n) =~= sealed0);
            assert forall|i: int| 0 <= i < sealed1.len() implies (#[trigger] self.meta@[i]).offset
                == chunk_start(sealed1, i) by {
                if i < n {
                    assert(sealed1.subrange(0, i) =~= sealed0.subrange(0, i));
                }
            }
            lemma_flatten_push(sealed0, pending0);
            assert(self.content() =~= flatten(sealed0) + pending0);
            assert(built(Seq::<Entry>::empty()) == (
                Seq::<u8>::empty(),
                Seq::<u16>::empty(),
                Seq::<u8>::empty(),
            ));
            assert forall|i: int| 0 <= i < sealed1.len() implies (#[trigger] sealed1[i]).len() > 0 by {
                if i < n {
                    assert(sealed1[i] == sealed0[i]);
                }
            }
            assert forall|i: int| 0 <= i < sealed1.len() implies {
                &&& (#[trigger] self.meta@[i]).first_key@ == chunk_first_key(sealed1[i])
                &&& self.meta@[i].last_key@ == sealed1[i].last().0
            } by {
                if i < n {
                    assert(sealed1[i] == sealed0[i]);
                    assert(self.meta@[i] == metas0[i]);
                }
            }
        }
    }

    /// Adds a key-value pair to SSTable, sealing the current block first when
    /// it is full.
    pub fn add(&mut self, key: &[u8], value: &[u8])
        requires
            old(self).inv(),
            add_bound(
                old(self).block_parts().0.len() as int,
                old(self).block_parts().1.len() as int,
                key@.len() as int,
                value@.len() as int,
            ) <= usize::MAX,
            add_bound(0, 0, key@.len() as int, value@.len() as int) <= usize::MAX,
        ensures
            final(self).inv(),
            final(self).block_size_view() == old(self).block_size_view(),
            old(self).block_full(key@, value@) ==> {
                &&& final(self).data_view() == old(self).data_view() + encoded_block(
                    old(self).block_parts().0,
                    old(self).block_parts().1,
                )
                &&& final(self).meta_view() == old(self).meta_view().push(
                    sealed_meta(
                        old(self).data_view().len() as int,
                        old(self).block_parts().0,
                        old(self).last_key_view(),
                    ),
                )
                &&& final(self).block_parts() == after_add(
                    (Seq::<u8>::empty(), Seq::<u16>::empty(), Seq::<u8>::empty()),
                    key@,
                    value@,
                )
            },
            !old(self).block_full(key@, value@) ==> {
                &&& final(self).data_view() == old(self).data_view()
                &&& final(self).meta_view() == old(self).meta_view()
                &&& final(self).block_parts() == after_add(old(self).block_parts(), key@, value@)
            },
            final(self).first_key_view() == if old(self).first_key_view().len() == 0 {
                key@
            } else {
                old(self).first_key_view()
            },
            final(self).last_key_view() == key@,
            final(self).content() == old(self).content().push((key@, value@)),
            final(self).meta_view().len() < final(self).content().len(),
            final(self).estimated() == old(self).estimated() || final(self).estimated()
                == old(self).estimated() + old(self).block_size_view(),
    {
        let ghost content0 = self.content();
        let ghost first0 = self.first_key@;
        proof {
            lemma_built_sizes(self.pending@);
            if self.pending@.len() == 0 {
                assert(built(self.pending@).2 == Seq::<u8>::empty());
            }
        }
        let block_full = !self.builder.add(key, value);
        if block_full {
            self.seal_block();
            let _ = self.builder.add(key, value);
        }
        let ghost pending0 = self.pending@;
        self.pending = Ghost(pending0.push((key@, value@)));
        proof {
            assert(self.pending@.drop_last() =~= pending0);
            assert(self.content() =~= content0.push((key@, value@)));
            if keys_nonempty(self.content()) {
                assert forall|i: int| 0 <= i < content0.len() implies (#[trigger] content0[i]).0.len() > 0 by {
                    assert(self.content()[i] == content0[i]);
                }
                assert(self.content()[content0.len() as int] == (key@, value@));
                lemma_built_sizes(pending0);
                lemma_built_sizes(self.pending@);
                if pending0.len() > 0 {
                    // The block builder held a first key, so it took the entry
                    // only within the block size.
                    assert(pending0[0] == content0[content0.len() - pending0.len()]);
                    lemma_built_first_key(pending0);
                    lemma_lcp(key@, built(pending0).2);
                    assert(encoded_entry(built(pending0).2, key@, value@).len() <= key@.len()
                        + value@.len() + 14);
                }
            }
        }
        if self.first_key.is_empty() {
            let mut k: Vec<u8> = Vec::new();
            put_slice(&mut k, key);
            self.first_key = k;
        }
        let mut k: Vec<u8> = Vec::new();
        put_slice(&mut k, key);
        self.last_key = k;
        proof {
            if keys_nonempty(self.content()) && content0.len() > 0 {
                assert(self.content()[0] == content0[0]);
            }
            lemma_flatten_len(self.sealed@);
            assert(self.content().last() == (key@, value@));
            let m = old(self).meta_view().len();
            let b = old(self).block_size_view();
            assert((m + 1 + 1) * b == (m + 1) * b + b) by (nonlinear_arith);
        }
    }

    /// While the entries added so far fit, the block being built takes, once
    /// encoded, at most the block size, or holds at most one entry, of under
    /// 64 KiB.
    pub proof fn lemma_block_bounded(&self)
        requires
            self.inv(),
            entries_fit(self.content()),
        ensures
            encoded_len(self.block_parts()) <= self.block_size_view() || (self.block_parts().0.len()
                < 0x1_0000 && self.block_parts().1.len() <= 1),
    {
        let c = self.content();
        let p = self.pending@;
        let off = flatten(self.sealed@).len() as int;
        assert(c.subrange(off, c.len() as int) =~= p);
        lemma_fit_subrange(c, off, c.len() as int);
        assert(keys_nonempty(c)) by {
            assert forall|i: int| 0 <= i < c.len() implies (#[trigger] c[i]).0.len() > 0 by {
                assert(entries_fit(c));
            }
        }
        lemma_built_sizes(p);
        if p.len() == 1 {
            assert(entries_fit(p));
            assert(p[0].0.len() + p[0].1.len() + 14 < 0x1_0000);
        }
    }

    /// No entry has been added.
    pub fn is_empty(&self) -> (r: bool)
        requires
            self.inv(),
        ensures
            r == (self.content().len() == 0),
    {
        proof {
            lemma_built_sizes(self.pending@);
            if self.sealed@.len() > 0 {
                assert(self.sealed@[0].len() > 0);
                assert(flatten(self.sealed@).len() >= self.sealed@[0].len());
            }
        }
        self.meta.len() == 0 && self.builder.is_empty()
    }

    /// A block size for each sealed block and one for the block being built.
    pub open spec fn estimated(&self) -> int {
        ((self.meta_view().len() + 1) * self.block_size_view()) as int
    }

    /// The estimated size of the SSTable: a block size for each sealed block
    /// and one for the block being built. Each `add` keeps it or adds one
    /// block size.
    pub fn estimated_size(&self) -> (r: usize)
        requires
            self.meta_view().len() < usize::MAX,
            self.estimated() <= usize::MAX,
        ensures
            r == self.estimated(),
    {
        assert(self.meta_view().len() == self.meta@.len());
        assert(self.block_size_view() == self.block_size);
        let n = self.meta.len() + 1;
        assert(n * self.block_size <= usize::MAX);
        n * self.block_size
    }

    /// Builds the table: seals the last block if it holds entries, then lays
    /// out the file as the blocks, their metas, and the offset of the metas
    /// as four big-endian bytes (truncated).
    #[verifier::rlimit(40)]
    pub fn build(self, id: usize) -> (r: SsTable)
        requires
            self.inv(),
        ensures
            self.builds(id, r),
    {
        let ghost content = self.content();
        let ghost block_size = self.block_size as int;
        let mut this = self;
        if !this.builder.is_empty() {
            this.seal_block();
        }
        let mut metadata_buf: Vec<u8> = Vec::new();
        BlockMeta::encode_block_meta(&this.meta, &mut metadata_buf);
        let mut data: Vec<u8> = Vec::new();
        put_slice(&mut data, this.data.as_slice());
        put_slice(&mut data, metadata_buf.as_slice());
        let block_meta_offset: usize = this.data.len();
        put_u32(&mut data, block_meta_offset as u32);
        let ghost chunks = this.sealed@;
        proof {
            assert(this.content() == content);
            assert(this.pending@.len() == 0) by {
                lemma_built_sizes(this.pending@);
            }
            assert(content =~= flatten(chunks));
        }
        let r = SsTable {
            file: data,
            block_meta: this.meta,
            block_meta_offset,
            id,
            first_key: this.first_key,
            last_key: this.last_key,
            max_ts: 0,
        };
        proof {
            if entries_fit(content) && content.len() > 0 && block_size < 0x1_0000 {
                assert(keys_nonempty(content));
                lemma_flatten_fits(chunks);
                assert(chunks.len() > 0) by {
                    if chunks.len() == 0 {
                        assert(flatten(chunks) =~= Seq::<Entry>::empty());
                    }
                }
                assert forall|i: int| 0 <= i < chunks.len() implies chunk_readable(
                    #[trigger] chunks[i],
                    block_size,
                ) by {}
                assert(r.file@.subrange(0, blocks_bytes(chunks).len() as int) =~= blocks_bytes(
                    chunks,
                ));
                lemma_table_reads_back(r, chunks, block_size);
                assert forall|i: int| 0 <= i < r.block_meta@.len() implies {
                    &&& (#[trigger] r.block_meta@[i]).first_key@ == block_entries_from(
                        r.block_at(i),
                        0,
                    )[0].0
                    &&& r.block_meta@[i].last_key@ == block_entries_from(r.block_at(i), 0).last().0
                    &&& r.block_end(i) - r.block_start(i) <= block_size || block_entries_from(
                        r.block_at(i),
                        0,
                    ).len() == 1
                } by {
                    assert(entries_fit(chunks[i]));
                    assert(chunks[i][0].0.len() < 0x1_0000);
                    lemma_chunk_first_key(chunks[i]);
                    lemma_block_of_len(chunks[i]);
                    assert(chunk_bounded(chunks[i], block_size));
                }
            }
        }
        r
    }

    /// The table that building gives: its file holds the blocks (the last one
    /// sealed if it holds entries), their metas and where the metas start, as
    /// four big-endian bytes (truncated). When every entry fits and the block
    /// size is under 64 KiB, the table can be read, holds the entries added,
    /// records the first and last keys, each meta records the first and last
    /// keys of its block, and each block takes at most the block size unless
    /// it holds a single entry.
    pub open spec fn builds(&self, id: usize, r: SsTable) -> bool {
        let data = if self.block_parts().0.len() != 0 {
            self.data_view() + encoded_block(self.block_parts().0, self.block_parts().1)
        } else {
            self.data_view()
        };
        let metas = if self.block_parts().0.len() != 0 {
            self.meta_view().push(
                sealed_meta(self.data_view().len() as int, self.block_parts().0, self.last_key_view()),
            )
        } else {
            self.meta_view()
        };
        &&& r.file@ == data + metas_bytes(metas) + be32(data.len() as u32)
        &&& r.block_meta@.map_values(|m: BlockMeta| m.view_parts()) == metas
        &&& r.block_meta_offset == data.len()
        &&& r.id == id
        &&& r.first_key@ == self.first_key_view()
        &&& r.last_key@ == self.last_key_view()
        &&& r.max_ts == 0
        &&& entries_fit(self.content()) && self.content().len() > 0 && self.block_size_view()
            < 0x1_0000 ==> {
            &&& r.wf()
            &&& r.entries() == self.content()
            &&& r.first_key@ == self.content()[0].0
            &&& r.last_key@ == self.content().last().0
            &&& forall|i: int|
                0 <= i < r.block_meta@.len() ==> {
                    &&& (#[trigger] r.block_meta@[i]).first_key@ == block_entries_from(
                        r.block_at(i),
                        0,
                    )[0].0
                    &&& r.block_meta@[i].last_key@ == block_entries_from(r.block_at(i), 0).last().0
                    &&& r.block_end(i) - r.block_start(i) <= self.block_size_view() || block_entries_from(
                        r.block_at(i),
                        0,
                    ).len() == 1
                }
        }
    }
}


/// Builds an SSTable from key-value pairs.
pub struct SsTableBuilder {
    state: TableState,
}

impl SsTableBuilder {
    /// The data, offsets and first key of the block being built.
    pub closed spec fn block_parts(&self) -> BuilderParts {
        self.state.block_parts()
    }

    pub closed spec fn first_key_view(&self) -> Seq<u8> {
        self.state.first_key_view()
    }

    pub closed spec fn last_key_view(&self) -> Seq<u8> {
        self.state.last_key_view()
    }

    /// The bytes of the blocks sealed so far.
    pub closed spec fn data_view(&self) -> Seq<u8> {
        self.state.data_view()
    }

    /// The offset, first key and last key of each sealed block.
    pub closed spec fn meta_view(&self) -> Seq<(int, Seq<u8>, Seq<u8>)> {
        self.state.meta_view()
    }

    pub closed spec fn block_size_view(&self) -> nat {
        self.state.block_size_view()
    }

    /// The entries added so far, in order.
    pub closed spec fn content(&self) -> Seq<Entry> {
        self.state.content()
    }

    /// The sealed blocks, their metas and the block being built agree with
    /// the entries added so far.
    #[verifier::type_invariant]
    pub(crate) closed spec fn inv(&self) -> bool {
        self.state.inv()
    }

    /// Create a builder based on target block size.
    pub fn new(block_size: usize) -> (r: Self)
        ensures
            r.block_parts() == (Seq::<u8>::empty(), Seq::<u16>::empty(), Seq::<u8>::empty()),
            r.first_key_view() == Seq::<u8>::empty(),
            r.last_key_view() == Seq::<u8>::empty(),
            r.data_view() == Seq::<u8>::empty(),
            r.meta_view() == Seq::<(int, Seq<u8>, Seq<u8>)>::empty(),
            r.block_size_view() == block_size,
            r.content() == Seq::<Entry>::empty(),
    {
        SsTableBuilder { state: TableState::new(block_size) }
    }

    /// The block builder refuses the entry: it holds an entry already, and
    /// the encoded block would grow past the block size with this one.
    pub open spec fn block_full(&self, key: Seq<u8>, value: Seq<u8>) -> bool {
        refuses(self.block_parts(), self.block_size_view() as int, key, value)
    }

    /// Adds a key-value pair to SSTable, sealing the current block first when
    /// it is full.
    pub fn add(&mut self, key: &[u8], value: &[u8])
        requires
            add_bound(
                old(self).block_parts().0.len() as int,
                old(self).block_parts().1.len() as int,
                key@.len() as int,
                value@.len() as int,
            ) <= usize::MAX,
            add_bound(0, 0, key@.len() as int, value@.len() as int) <= usize::MAX,
        ensures
            final(self).block_size_view() == old(self).block_size_view(),
            old(self).block_full(key@, value@) ==> {
                &&& final(self).data_view() == old(self).data_view() + encoded_block(
                    old(self).block_parts().0,
                    old(self).block_parts().1,
                )
                &&& final(self).meta_view() == old(self).meta_view().push(
                    sealed_meta(
                        old(self).data_view().len() as int,
                        old(self).block_parts().0,
                        old(self).last_key_view(),
                    ),
                )
                &&& final(self).block_parts() == after_add(
                    (Seq::<u8>::empty(), Seq::<u16>::empty(), Seq::<u8>::empty()),
                    key@,
                    value@,
                )
            },
            !old(self).block_full(key@, value@) ==> {
                &&& final(self).data_view() == old(self).data_view()
                &&& final(self).meta_view() == old(self).meta_view()
                &&& final(self).block_parts() == after_add(old(self).block_parts(), key@, value@)
            },
            final(self).first_key_view() == if old(self).first_key_view().len() == 0 {
                key@
            } else {
                old(self).first_key_view()
            },
            final(self).last_key_view() == key@,
            final(self).content() == old(self).content().push((key@, value@)),
            final(self).meta_view().len() < final(self).content().len(),
            final(self).estimated() == old(self).estimated() || final(self).estimated()
                == old(self).estimated() + old(self).block_size_view(),
    {
        proof {
            use_type_invariant(&*self);
        }
        let mut state = TableState::new(self.state.block_size);
        std::mem::swap(&mut self.state, &mut state);
        state.add(key, value);
        self.state = state;
    }

    /// While the entries added so far fit, the block being built takes, once
    /// encoded, at most the block size, or holds at most one entry, of under
    /// 64 KiB.
    pub(crate) proof fn lemma_block_bounded(&self)
        requires
            self.inv(),
            entries_fit(self.content()),
        ensures
            encoded_len(self.block_parts()) <= self.block_size_view() || (self.block_parts().0.len()
                < 0x1_0000 && self.block_parts().1.len() <= 1),
    {
        self.state.lemma_block_bounded();
    }

    /// No entry has been added.
    pub fn is_empty(&self) -> (r: bool)
        ensures
            r == (self.content().len() == 0),
    {
        proof {
            use_type_invariant(self);
        }
        self.state.is_empty()
    }

    /// A block size for each sealed block and one for the block being built.
    pub open spec fn estimated(&self) -> int {
        ((self.meta_view().len() + 1) * self.block_size_view()) as int
    }

    /// The estimated size of the SSTable: a block size for each sealed block
    /// and one for the block being built. Each `add` keeps it or adds one
    /// block size.
    pub fn estimated_size(&self) -> (r: usize)
        requires
            self.meta_view().len() < usize::MAX,
            self.estimated() <= usize::MAX,
        ensures
            r == self.estimated(),
    {
        self.state.estimated_size()
    }

    /// Builds the table: seals the last block if it holds entries, then lays
    /// out the file as the blocks, their metas, and the offset of the metas
    /// as four big-endian bytes (truncated).
    pub fn build(self, id: usize) -> (r: SsTable)
        ensures
            self.builds(id, r),
    {
        proof {
            use_type_invariant(&self);
        }
        let SsTableBuilder { state } = self;
        state.build(id)
    }

    /// Builds the table under id 0.
    pub fn build_for_test(self) -> (r: SsTable)
        ensures
            self.builds(0, r),
    {
        self.build(0)
    }

    /// The table that building gives: its file holds the blocks (the last one
    /// sealed if it holds entries), their metas and where the metas start, as
    /// four big-endian bytes (truncated). When every entry fits and the block
    /// size is under 64 KiB, the table can be read, holds the entries added,
    /// records the first and last keys, each meta records the first and last
    /// keys of its block, and each block takes at most the block size unless
    /// it holds a single entry.
    pub open spec fn builds(&self, id: usize, r: SsTable) -> bool {
        let data = if self.block_parts().0.len() != 0 {
            self.data_view() + encoded_block(self.block_parts().0, self.block_parts().1)
        } else {
            self.data_view()
        };
        let metas = if self.block_parts().0.len() != 0 {
            self.meta_view().push(
                sealed_meta(self.data_view().len() as int, self.block_parts().0, self.last_key_view()),
            )
        } else {
            self.meta_view()
        };
        &&& r.file@ == data + metas_bytes(metas) + be32(data.len() as u32)
        &&& r.block_meta@.map_values(|m: BlockMeta| m.view_parts()) == metas
        &&& r.block_meta_offset == data.len()
        &&& r.id == id
        &&& r.first_key@ == self.first_key_view()
        &&& r.last_key@ == self.last_key_view()
        &&& r.max_ts == 0
        &&& entries_fit(self.content()) && self.content().len() > 0 && self.block_size_view()
            < 0x1_0000 ==> {
            &&& r.wf()
            &&& r.entries() == self.content()
            &&& r.first_key@ == self.content()[0].0
            &&& r.last_key@ == self.content().last().0
            &&& forall|i: int|
                0 <= i < r.block_meta@.len() ==> {
                    &&& (#[trigger] r.block_meta@[i]).first_key@ == block_entries_from(
                        r.block_at(i),
                        0,
                    )[0].0
                    &&& r.block_meta@[i].last_key@ == block_entries_from(r.block_at(i), 0).last().0
                    &&& r.block_end(i) - r.block_start(i) <= self.block_size_view() || block_entries_from(
                        r.block_at(i),
                        0,
                    ).len() == 1
                }
        }
    }
}

} // verus!
