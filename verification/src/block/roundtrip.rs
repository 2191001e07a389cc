//! What a block built from a run of entries reads back.
use super::builder::{after_add, built, encoded_entry, entry_bytes};
use super::iterator::{block_entries_from, block_first_key, block_wf, ent_key, ent_off, ent_ok,
    ent_overlap, ent_rest_len, ent_value, ent_value_len, ent_value_start, lemma_pos, pos};
use crate::iterators::Entry;
use super::{Block, BlockView};
use crate::codec::{be16, be64, lemma_be16_roundtrip, read_be16};
use crate::key::{lcp, lemma_lcp, lemma_lcp_rebuild};
use vstd::prelude::*;

verus! {

/// An entry whose bytes sit at its offset decodes to the parts it was made of.
proof fn lemma_entry_decodes(b: BlockView, i: int, overlap: int, rest: Seq<u8>, value: Seq<u8>)
    requires
        0 <= i < b.offsets.len(),
        0 <= overlap < 0x1_0000,
        rest.len() < 0x1_0000,
        value.len() < 0x1_0000,
        ent_off(b, i) + entry_bytes(overlap, rest, value).len() <= b.data.len(),
        b.data.subrange(ent_off(b, i), ent_off(b, i) + entry_bytes(overlap, rest, value).len())
            == entry_bytes(overlap, rest, value),
    ensures
        ent_overlap(b, i) == overlap,
        ent_rest_len(b, i) == rest.len(),
        b.data.subrange(ent_off(b, i) + 4, ent_off(b, i) + 4 + rest.len()) == rest,
        ent_value_len(b, i) == value.len(),
        ent_value(b, i) == value,
        ent_value_start(b, i) + ent_value_len(b, i) == ent_off(b, i) + entry_bytes(
            overlap,
            rest,
            value,
        ).len(),
{
    let e = entry_bytes(overlap, rest, value);
    let off = ent_off(b, i);
    let d = b.data;
    let o16 = overlap as u16;
    let r16 = rest.len() as u16;
    let v16 = value.len() as u16;
    let tail1 = be16(r16) + rest + be64(0) + be16(v16) + value;
    assert(e =~= Seq::<u8>::empty() + be16(o16) + tail1);
    lemma_be16_roundtrip(o16, Seq::empty(), tail1);
    let tail2 = rest + be64(0) + be16(v16) + value;
    assert(e =~= be16(o16) + be16(r16) + tail2);
    lemma_be16_roundtrip(r16, be16(o16), tail2);
    let head3 = be16(o16) + be16(r16) + rest + be64(0);
    assert(e =~= head3 + be16(v16) + value);
    lemma_be16_roundtrip(v16, head3, value);
    assert forall|j: int| 0 <= j < e.len() implies d[off + j] == e[j] by {
        assert(d.subrange(off, off + e.len())[j] == d[off + j]);
    }
    assert(read_be16(d, off) == read_be16(e, 0));
    assert(read_be16(d, off + 2) == read_be16(e, 2));
    assert(head3.len() == 12 + rest.len());
    assert(read_be16(d, off + 12 + rest.len()) == read_be16(e, 12 + rest.len() as int));
    assert(d.subrange(off + 4, off + 4 + rest.len()) =~= rest) by {
        assert forall|j: int| 0 <= j < rest.len() implies d[off + 4 + j] == rest[j] by {
            assert(e[4 + j] == rest[j]);
        }
    }
    assert(ent_value(b, i) =~= value) by {
        assert forall|j: int| 0 <= j < value.len() implies d[off + 14 + rest.len() + j]
            == value[j] by {
            assert(e[14 + rest.len() + j] == value[j]);
        }
    }
}

/// The layout that a run of accepted entries leaves in a builder: entry `i`
/// sits at offset `i`, encoded against the first key as it stood then.
pub proof fn lemma_built_layout(entries: Seq<(Seq<u8>, Seq<u8>)>)
    requires
        entries.len() > 0,
        forall|i: int| 0 <= i < entries.len() ==> (#[trigger] entries[i]).0.len() > 0,
        built(entries).0.len() < 0x1_0000,
    ensures
        ({
            let (d, o, f) = built(entries);
            &&& o.len() == entries.len()
            &&& o[0] == 0
            &&& f == entries[0].0
            &&& forall|i: int|
                0 <= i < entries.len() ==> {
                    let fk = if i == 0 {
                        Seq::<u8>::empty()
                    } else {
                        entries[0].0
                    };
                    let e = encoded_entry(fk, entries[i].0, entries[i].1);
                    &&& #[trigger] o[i] as int + e.len() <= d.len()
                    &&& d.subrange(o[i] as int, o[i] + e.len()) == e
                }
        }),
    decreases entries.len(),
{
    let init = entries.drop_last();
    let (d0, o0, f0) = built(init);
    let (k, v) = entries.last();
    let e_new = encoded_entry(f0, k, v);
    let (d, o, f) = built(entries);
    assert(d == d0 + e_new);
    if init.len() == 0 {
        assert(d0.len() == 0);
        assert(d.subrange(0, e_new.len() as int) =~= e_new);
    } else {
        assert forall|i: int| 0 <= i < init.len() implies (#[trigger] init[i]).0.len() > 0 by {
            assert(init[i] == entries[i]);
        }
        lemma_built_layout(init);
        assert(f0 == entries[0].0);
        assert forall|i: int| 0 <= i < entries.len() implies {
            let fk = if i == 0 {
                Seq::<u8>::empty()
            } else {
                entries[0].0
            };
            let e = encoded_entry(fk, entries[i].0, entries[i].1);
            &&& #[trigger] o[i] as int + e.len() <= d.len()
            &&& d.subrange(o[i] as int, o[i] + e.len()) == e
        } by {
            if i < init.len() {
                assert(init[i] == entries[i]);
                assert(o[i] == o0[i]);
                let fk = if i == 0 {
                    Seq::<u8>::empty()
                } else {
                    entries[0].0
                };
                let e = encoded_entry(fk, entries[i].0, entries[i].1);
                assert(d.subrange(o[i] as int, o[i] + e.len()) =~= d0.subrange(
                    o0[i] as int,
                    o0[i] + e.len(),
                ));
            } else {
                assert(d.subrange(d0.len() as int, d.len() as int) =~= e_new);
            }
        }
    }
}

/// A block built from a run of entries with non-empty keys, whose data stays
/// under 64 KiB, is well formed, and entry `i` reads back the `i`-th key and
/// value that were added.
pub proof fn lemma_built_block_reads_back(entries: Seq<(Seq<u8>, Seq<u8>)>, b: BlockView)
    requires
        entries.len() > 0,
        forall|i: int| 0 <= i < entries.len() ==> (#[trigger] entries[i]).0.len() > 0,
        built(entries).0.len() < 0x1_0000,
        b.data == built(entries).0,
        b.offsets == built(entries).1,
    ensures
        block_wf(b),
        block_first_key(b) == entries[0].0,
        forall|i: int|
            0 <= i < entries.len() ==> ent_key(b, i) == (#[trigger] entries[i]).0 && ent_value(b, i)
                == entries[i].1,
{
    lemma_built_layout(entries);
    let (d, o, f) = built(entries);
    let k0 = entries[0].0;
    // The first entry starts the data and spells out the first key.
    let e0 = encoded_entry(Seq::empty(), k0, entries[0].1);
    assert(lcp(k0, Seq::empty()) == 0);
    assert(k0.subrange(0, k0.len() as int) =~= k0);
    assert(o[0] as int + e0.len() <= d.len());
    lemma_entry_decodes(b, 0, 0, k0, entries[0].1);
    assert(read_be16(d, 2) == k0.len());
    assert(block_first_key(b) =~= k0);
    assert forall|i: int| 0 <= i < entries.len() implies ent_ok(b, i) && ent_key(b, i) == (
    #[trigger] entries[i]).0 && ent_value(b, i) == entries[i].1 by {
        let fk = if i == 0 {
            Seq::<u8>::empty()
        } else {
            k0
        };
        let (k, v) = entries[i];
        let n = lcp(k, fk) as int;
        let e = encoded_entry(fk, k, v);
        assert(o[i] as int + e.len() <= d.len());
        lemma_lcp(k, fk);
        lemma_entry_decodes(b, i, n, k.subrange(n, k.len() as int), v);
        lemma_lcp_rebuild(k, fk);
        if i == 0 {
            assert(fk.subrange(0, 0) =~= block_first_key(b).subrange(0, 0));
        } else {
            assert(fk =~= block_first_key(b));
        }
    }
}

/// A built block has one offset per entry and at least 14 bytes per entry.
pub proof fn lemma_built_sizes(c: Seq<Entry>)
    ensures
        built(c).1.len() == c.len(),
        built(c).0.len() >= 14 * c.len(),
        c.len() == 1 ==> built(c).0.len() <= c[0].0.len() + c[0].1.len() + 14,
    decreases c.len(),
{
    if c.len() > 0 {
        lemma_built_sizes(c.drop_last());
        let (k, v) = c.last();
        lemma_lcp(k, built(c.drop_last()).2);
        assert(encoded_entry(built(c.drop_last()).2, k, v).len() >= 14);
    }
}

/// The entries of a block from `j` on are the rest of the chunk it was built from.
pub proof fn lemma_block_entries_all(c: Seq<Entry>, b: BlockView, j: int)
    requires
        0 <= j <= c.len(),
        b.offsets.len() == c.len(),
        c.len() < 0x1_0000,
        forall|i: int| 0 <= i < c.len() ==> (#[trigger] c[i]).0.len() > 0,
        forall|i: int|
            0 <= i < c.len() ==> ent_key(b, i) == (#[trigger] c[i]).0 && ent_value(b, i) == c[i].1,
    ensures
        block_entries_from(b, j) == c.subrange(j, c.len() as int),
    decreases c.len() - j,
{
    if j < c.len() {
        lemma_pos(j);
        assert(pos(j) == j);
        assert(c[j].0.len() > 0);
        lemma_block_entries_all(c, b, j + 1);
        assert(block_entries_from(b, j) =~= c.subrange(j, c.len() as int));
    } else {
        assert(c.subrange(j, c.len() as int) =~= Seq::<Entry>::empty());
    }
}


/// The offsets of a block built from entries, while its data stays under
/// 64 KiB: one per entry, the first at 0, strictly increasing, each within
/// the data.
pub proof fn law_built_offsets_increase(entries: Seq<(Seq<u8>, Seq<u8>)>)
    requires
        built(entries).0.len() < 0x1_0000,
    ensures
        built(entries).1.len() == entries.len(),
        entries.len() > 0 ==> built(entries).1[0] == 0,
        forall|i: int, j: int|
            0 <= i < j < entries.len() ==> #[trigger] built(entries).1[i] < #[trigger] built(entries).1[j],
        forall|i: int| 0 <= i < entries.len() ==> #[trigger] built(entries).1[i] < built(entries).0.len(),
    decreases entries.len(),
{
    if entries.len() > 0 {
        let init = entries.drop_last();
        let (k, v) = entries.last();
        let (d0, o0, f0) = built(init);
        let e = encoded_entry(f0, k, v);
        lemma_lcp(k, f0);
        assert(e.len() >= 14);
        assert(built(entries).0 == d0 + e);
        law_built_offsets_increase(init);
        let o = built(entries).1;
        assert(o == o0.push(d0.len() as u16));
        assert(o[entries.len() - 1] == d0.len());
        assert forall|i: int| 0 <= i < entries.len() - 1 implies o[i] == o0[i] by {}
        if init.len() == 0 {
            assert(d0.len() == 0);
        }
    }
}

/// A block built from a run of entries with non-empty keys, whose data stays
/// under 64 KiB, holds those entries in order: an iterator over it visits
/// each once, in the order they were added, and then ends.
pub proof fn law_built_block_iterates(entries: Seq<(Seq<u8>, Seq<u8>)>, b: BlockView)
    requires
        entries.len() > 0,
        forall|i: int| 0 <= i < entries.len() ==> (#[trigger] entries[i]).0.len() > 0,
        built(entries).0.len() < 0x1_0000,
        b.data == built(entries).0,
        b.offsets == built(entries).1,
    ensures
        block_wf(b),
        block_entries_from(b, 0) == entries,
{
    lemma_built_block_reads_back(entries, b);
    lemma_built_sizes(entries);
    lemma_block_entries_all(entries, b, 0);
    assert(entries.subrange(0, entries.len() as int) =~= entries);
}

} // verus!
