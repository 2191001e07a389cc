//! What a table built from a run of entries reads back.
use super::{BlockMeta, SsTable};
use crate::block::builder::{built, encoded_entry, encoded_len};
use crate::block::iterator::{block_entries_from, ent_key, ent_value, lemma_pos, pos};
use crate::block::roundtrip::{
    lemma_block_entries_all, lemma_built_block_reads_back, lemma_built_layout, lemma_built_sizes,
};
use crate::codec::{be16, lemma_be16_roundtrip, read_be16};
use crate::block::{decoded_view, encoded_block, lemma_decode_encode, BlockView};
use crate::iterators::Entry;
use crate::key::{lcp, lemma_lcp};
use vstd::prelude::*;

verus! {

/// The encoding of the block built from the entries of a chunk.
pub open spec fn block_of(c: Seq<Entry>) -> Seq<u8> {
    encoded_block(built(c).0, built(c).1)
}

/// The encodings of the blocks built from the chunks, one after another.
pub open spec fn blocks_bytes(cs: Seq<Seq<Entry>>) -> Seq<u8>
    decreases cs.len(),
{
    if cs.len() == 0 {
        Seq::empty()
    } else {
        blocks_bytes(cs.drop_last()) + block_of(cs.last())
    }
}

/// The entries of the chunks, one chunk after another.
pub open spec fn flatten(cs: Seq<Seq<Entry>>) -> Seq<Entry>
    decreases cs.len(),
{
    if cs.len() == 0 {
        Seq::empty()
    } else {
        cs[0] + flatten(cs.drop_first())
    }
}

/// Every key is non-empty.
pub open spec fn keys_nonempty(s: Seq<Entry>) -> bool {
    forall|i: int| 0 <= i < s.len() ==> (#[trigger] s[i]).0.len() > 0
}

/// Each entry has a non-empty key, and the entry alone fits a block whose
/// offsets are 16-bit.
pub open spec fn entries_fit(s: Seq<Entry>) -> bool {
    forall|i: int|
        0 <= i < s.len() ==> (#[trigger] s[i]).0.len() > 0 && s[i].0.len() + s[i].1.len() + 14
            < 0x1_0000
}

/// The entries of a run that sits inside another, from `lo` on, keep the
/// properties that the whole run has.
pub proof fn lemma_fit_subrange(s: Seq<Entry>, lo: int, hi: int)
    requires
        0 <= lo <= hi <= s.len(),
    ensures
        entries_fit(s) ==> entries_fit(s.subrange(lo, hi)),
        keys_nonempty(s) ==> keys_nonempty(s.subrange(lo, hi)),
{
    let t = s.subrange(lo, hi);
    if entries_fit(s) {
        assert forall|i: int| 0 <= i < t.len() implies (#[trigger] t[i]).0.len() > 0 && t[i].0.len()
            + t[i].1.len() + 14 < 0x1_0000 by {
            assert(t[i] == s[lo + i]);
        }
    }
    if keys_nonempty(s) {
        assert forall|i: int| 0 <= i < t.len() implies (#[trigger] t[i]).0.len() > 0 by {
            assert(t[i] == s[lo + i]);
        }
    }
}

/// The block built from a chunk takes, encoded, its data, two bytes per
/// offset and the two-byte count.
pub proof fn lemma_block_of_len(c: Seq<Entry>)
    ensures
        block_of(c).len() == encoded_len(built(c)),
{
    crate::block::lemma_offsets_bytes(built(c).1, Seq::empty(), Seq::empty());
}

/// A chunk's encoded block, offsets and count included, stays within the
/// block size, unless the chunk holds a single entry.
pub open spec fn chunk_bounded(c: Seq<Entry>, block_size: int) -> bool {
    encoded_len(built(c)) <= block_size || c.len() <= 1
}

/// A block builder's first key is the key of its first entry, when that key
/// is not empty.
pub proof fn lemma_built_first_key(c: Seq<Entry>)
    requires
        c.len() > 0,
        c[0].0.len() > 0,
    ensures
        built(c).2 == c[0].0,
    decreases c.len(),
{
    if c.len() > 1 {
        assert(c.drop_last()[0] == c[0]);
        lemma_built_first_key(c.drop_last());
    } else {
        assert(c.drop_last() =~= Seq::<Entry>::empty());
        assert(built(c.drop_last()).2 == Seq::<u8>::empty());
        assert(c.last() == c[0]);
    }
}

/// The key that the block built from a chunk records first: the rest of its
/// first entry's key, read after that rest's length.
pub open spec fn chunk_first_key(c: Seq<Entry>) -> Seq<u8> {
    built(c).0.subrange(4, 4 + read_be16(built(c).0, 2) as int)
}

/// The data of a block starts with its first entry, encoded against an empty
/// first key.
pub proof fn lemma_built_prefix(c: Seq<Entry>)
    requires
        c.len() > 0,
    ensures
        built(c).0.len() >= encoded_entry(Seq::empty(), c[0].0, c[0].1).len(),
        built(c).0.subrange(0, encoded_entry(Seq::empty(), c[0].0, c[0].1).len() as int)
            == encoded_entry(Seq::empty(), c[0].0, c[0].1),
    decreases c.len(),
{
    let e0 = encoded_entry(Seq::empty(), c[0].0, c[0].1);
    if c.len() == 1 {
        assert(c.drop_last() =~= Seq::<Entry>::empty());
        assert(c.last() == c[0]);
        assert(built(c.drop_last()).0 == Seq::<u8>::empty());
        assert(built(c.drop_last()).2 == Seq::<u8>::empty());
        assert(built(c).0 =~= e0);
    } else {
        let init = c.drop_last();
        assert(init[0] == c[0]);
        lemma_built_prefix(init);
        let d0 = built(init).0;
        let d = built(c).0;
        assert(d == d0 + encoded_entry(built(init).2, c.last().0, c.last().1));
        assert(d.subrange(0, e0.len() as int) =~= d0.subrange(0, e0.len() as int));
    }
}

/// The block built from a chunk records the length of its first key, and
/// holds that key in full; the recorded first key is the chunk's first key
/// when that key is shorter than 64 KiB.
pub proof fn lemma_chunk_first_key(c: Seq<Entry>)
    requires
        c.len() > 0,
    ensures
        4 + read_be16(built(c).0, 2) <= built(c).0.len(),
        c[0].0.len() < 0x1_0000 ==> chunk_first_key(c) == c[0].0,
{
    lemma_built_prefix(c);
    let (k, v) = c[0];
    let e0 = encoded_entry(Seq::empty(), k, v);
    let d = built(c).0;
    assert(lcp(k, Seq::<u8>::empty()) == 0);
    assert(k.subrange(0, k.len() as int) =~= k);
    let kl = k.len() as u16;
    let tail = k + crate::codec::be64(crate::key::TS_DEFAULT) + be16(v.len() as u16) + v;
    assert(e0 =~= be16(0u16) + be16(kl) + tail);
    lemma_be16_roundtrip(kl, be16(0u16), tail);
    assert(d[2] == e0[2] && d[3] == e0[3]) by {
        assert(d.subrange(0, e0.len() as int)[2] == d[2]);
        assert(d.subrange(0, e0.len() as int)[3] == d[3]);
    }
    assert(read_be16(d, 2) == read_be16(e0, 2));
    assert(read_be16(d, 2) == kl);
    if k.len() < 0x1_0000 {
        assert(d.subrange(4, 4 + k.len() as int) =~= k) by {
            assert forall|j: int| 0 <= j < k.len() implies d[4 + j] == k[j] by {
                assert(d.subrange(0, e0.len() as int)[4 + j] == d[4 + j]);
                assert(e0[4 + j] == k[j]);
            }
        }
    }
}

/// Adding a chunk at the end adds its entries at the end.
pub proof fn lemma_flatten_push(cs: Seq<Seq<Entry>>, c: Seq<Entry>)
    ensures
        flatten(cs.push(c)) == flatten(cs) + c,
    decreases cs.len(),
{
    if cs.len() == 0 {
        assert(cs.push(c).drop_first() =~= Seq::<Seq<Entry>>::empty());
        assert(cs.push(c)[0] == c);
        assert(flatten(cs.push(c).drop_first()) == Seq::<Entry>::empty());
        assert(flatten(cs.push(c)) =~= c);
    } else {
        assert(cs.push(c).drop_first() =~= cs.drop_first().push(c));
        lemma_flatten_push(cs.drop_first(), c);
        assert(flatten(cs.push(c)) =~= flatten(cs) + c);
    }
}

/// The bytes of two runs of chunks are the bytes of each, one after the other.
pub proof fn lemma_blocks_bytes_concat(a: Seq<Seq<Entry>>, b: Seq<Seq<Entry>>)
    ensures
        blocks_bytes(a + b) == blocks_bytes(a) + blocks_bytes(b),
    decreases b.len(),
{
    if b.len() == 0 {
        assert(a + b =~= a);
        assert(blocks_bytes(a) + Seq::<u8>::empty() =~= blocks_bytes(a));
    } else {
        assert((a + b).drop_last() =~= a + b.drop_last());
        lemma_blocks_bytes_concat(a, b.drop_last());
        assert(blocks_bytes(a + b) =~= blocks_bytes(a) + blocks_bytes(b));
    }
}

/// Non-empty chunks hold at least one entry each.
pub proof fn lemma_flatten_len(cs: Seq<Seq<Entry>>)
    requires
        forall|i: int| 0 <= i < cs.len() ==> (#[trigger] cs[i]).len() > 0,
    ensures
        flatten(cs).len() >= cs.len(),
    decreases cs.len(),
{
    if cs.len() > 0 {
        assert forall|i: int| 0 <= i < cs.drop_first().len() implies (#[trigger] cs.drop_first()[i]).len() > 0 by {
            assert(cs.drop_first()[i] == cs[i + 1]);
        }
        lemma_flatten_len(cs.drop_first());
        assert(cs[0].len() > 0);
    }
}

/// When all the entries of the chunks fit, so do those of each chunk.
pub proof fn lemma_flatten_fits(cs: Seq<Seq<Entry>>)
    requires
        entries_fit(flatten(cs)),
    ensures
        forall|i: int| 0 <= i < cs.len() ==> entries_fit(#[trigger] cs[i]),
    decreases cs.len(),
{
    if cs.len() > 0 {
        let rest = cs.drop_first();
        assert forall|j: int| 0 <= j < flatten(rest).len() implies (#[trigger] flatten(rest)[j]).0.len() > 0
            && flatten(rest)[j].0.len() + flatten(rest)[j].1.len() + 14 < 0x1_0000 by {
            assert(flatten(cs)[cs[0].len() + j] == flatten(rest)[j]);
        }
        lemma_flatten_fits(rest);
        assert forall|i: int| 0 <= i < cs.len() implies entries_fit(#[trigger] cs[i]) by {
            if i == 0 {
                assert forall|j: int| 0 <= j < cs[0].len() implies (#[trigger] cs[0][j]).0.len() > 0
                    && cs[0][j].0.len() + cs[0][j].1.len() + 14 < 0x1_0000 by {
                    assert(flatten(cs)[j] == cs[0][j]);
                }
            } else {
                assert(cs[i] == rest[i - 1]);
            }
        }
    }
}

/// Where chunk `i` starts in the bytes of the chunks.
pub open spec fn chunk_start(cs: Seq<Seq<Entry>>, i: int) -> int {
    blocks_bytes(cs.subrange(0, i)).len() as int
}

/// Chunk `i` sits between its start and the next chunk's start.
proof fn lemma_chunk_slice(cs: Seq<Seq<Entry>>, i: int)
    requires
        0 <= i < cs.len(),
    ensures
        chunk_start(cs, i + 1) == chunk_start(cs, i) + block_of(cs[i]).len(),
        chunk_start(cs, i + 1) <= blocks_bytes(cs).len(),
        blocks_bytes(cs).subrange(chunk_start(cs, i), chunk_start(cs, i + 1)) == block_of(cs[i]),
{
    let pre = cs.subrange(0, i);
    let mid = cs.subrange(0, i + 1);
    let post = cs.subrange(i + 1, cs.len() as int);
    assert(mid.drop_last() =~= pre);
    assert(cs =~= mid + post);
    lemma_blocks_bytes_concat(mid, post);
    assert(blocks_bytes(cs).subrange(chunk_start(cs, i), chunk_start(cs, i + 1)) =~= block_of(
        cs[i],
    ));
}

/// A chunk that can be read back: non-empty, with fitting entries, and either
/// a single entry or data within a block size under 64 KiB.
pub open spec fn chunk_readable(c: Seq<Entry>, block_size: int) -> bool {
    &&& c.len() > 0
    &&& entries_fit(c)
    &&& chunk_bounded(c, block_size)
    &&& block_size < 0x1_0000
}

/// The block built from a readable chunk decodes back to a well-formed block
/// whose entries are the chunk.
proof fn lemma_chunk_reads_back(c: Seq<Entry>, block_size: int)
    requires
        chunk_readable(c, block_size),
    ensures
        crate::block::decodable(block_of(c)),
        crate::block::iterator::block_wf(decoded_view(block_of(c))),
        block_entries_from(decoded_view(block_of(c)), 0) == c,
{
    lemma_built_sizes(c);
    let (d, o, f) = built(c);
    assert(d.len() < 0x1_0000) by {
        if c.len() == 1 {
            assert(c[0].0.len() + c[0].1.len() + 14 < 0x1_0000);
        }
    }
    lemma_decode_encode(d, o);
    let b = decoded_view(block_of(c));
    assert(b == BlockView { data: d, offsets: o });
    assert forall|i: int| 0 <= i < c.len() implies (#[trigger] c[i]).0.len() > 0 by {
        assert(entries_fit(c));
    }
    lemma_built_block_reads_back(c, b);
    lemma_block_entries_all(c, b, 0);
}

/// A table laid out as the blocks of readable chunks, one after another,
/// with each block's meta recording where it starts, can be read, and its
/// entries are the chunks' entries in order.
pub proof fn lemma_table_reads_back(t: SsTable, cs: Seq<Seq<Entry>>, block_size: int)
    requires
        cs.len() > 0,
        forall|i: int| 0 <= i < cs.len() ==> chunk_readable(#[trigger] cs[i], block_size),
        t.block_meta@.len() == cs.len(),
        forall|i: int| 0 <= i < cs.len() ==> (#[trigger] t.block_meta@[i]).offset == chunk_start(cs, i),
        t.block_meta_offset == blocks_bytes(cs).len(),
        t.file@.len() >= blocks_bytes(cs).len(),
        t.file@.subrange(0, blocks_bytes(cs).len() as int) == blocks_bytes(cs),
    ensures
        t.wf(),
        t.entries() == flatten(cs),
        forall|i: int| 0 <= i < cs.len() ==> block_entries_from(#[trigger] t.block_at(i), 0) == cs[i],
        forall|i: int| 0 <= i < cs.len() ==> t.block_end(i) - t.block_start(i) == block_of(#[trigger] cs[i]).len(),
{
    let n = cs.len() as int;
    assert(cs.subrange(0, n) =~= cs);
    assert forall|i: int| 0 <= i < n implies #[trigger] t.block_readable(i) && block_entries_from(
        t.block_at(i),
        0,
    ) == cs[i] by {
        lemma_chunk_slice(cs, i);
        if i + 1 < n {
            assert(t.block_end(i) == chunk_start(cs, i + 1));
        } else {
            assert(t.block_end(i) == chunk_start(cs, i + 1));
        }
        assert(t.block_bytes(i) =~= blocks_bytes(cs).subrange(chunk_start(cs, i), chunk_start(cs, i + 1))) by {
            assert forall|j: int| 0 <= j < t.block_bytes(i).len() implies t.block_bytes(i)[j]
                == blocks_bytes(cs).subrange(chunk_start(cs, i), chunk_start(cs, i + 1))[j] by {
                assert(t.file@.subrange(0, blocks_bytes(cs).len() as int)[chunk_start(cs, i) + j]
                    == t.file@[chunk_start(cs, i) + j]);
            }
        }
        lemma_chunk_reads_back(cs[i], block_size);
    }
    assert forall|j: int| 0 <= j < n implies block_entries_from(#[trigger] t.block_at(j), 0)
        == cs[j] by {
        assert(t.block_readable(j));
    }
    assert forall|j: int| 0 <= j < n implies t.block_end(j) - t.block_start(j) == block_of(#[trigger] cs[j]).len() by {
        lemma_chunk_slice(cs, j);
        assert(t.block_end(j) == chunk_start(cs, j + 1));
    }
    lemma_entries_from(t, cs, 0);
}

/// The table's entries from block `i` on are the chunks' entries from chunk `i` on.
proof fn lemma_entries_from(t: SsTable, cs: Seq<Seq<Entry>>, i: int)
    requires
        0 <= i <= cs.len(),
        t.block_meta@.len() == cs.len(),
        forall|j: int| 0 <= j < cs.len() ==> block_entries_from(#[trigger] t.block_at(j), 0) == cs[j],
    ensures
        t.entries_from(i) == flatten(cs.subrange(i, cs.len() as int)),
    decreases cs.len() - i,
{
    if i < cs.len() {
        lemma_entries_from(t, cs, i + 1);
        let s = cs.subrange(i, cs.len() as int);
        assert(s.drop_first() =~= cs.subrange(i + 1, cs.len() as int));
        assert(s[0] == cs[i]);
        assert(block_entries_from(t.block_at(i), 0) == cs[i]);
    } else {
        assert(cs.subrange(i, cs.len() as int) =~= Seq::<Seq<Entry>>::empty());
    }
}

} // verus!
