//! Builds a block entry by entry, sharing each key's prefix with the block's
//! first key.
use super::Block;
use crate::codec::{be16, be64, put_slice, put_u16, put_u64};
use crate::key::{common_prefix_len, lcp, lemma_lcp, TS_DEFAULT};
use vstd::prelude::*;
use vstd::slice::slice_subrange;

verus! {

/// One encoded entry: the length of the prefix shared with the first key, the
/// length of the rest of the key, the rest of the key, the timestamp, the
/// length of the value and the value. Lengths are truncated to 16 bits.
pub open spec fn entry_bytes(overlap: int, rest: Seq<u8>, value: Seq<u8>) -> Seq<u8> {
    be16(overlap as u16) + be16(rest.len() as u16) + rest + be64(TS_DEFAULT) + be16(
        value.len() as u16,
    ) + value
}

/// The entry that stores `key` and `value` in a block whose first key is `first_key`.
pub open spec fn encoded_entry(first_key: Seq<u8>, key: Seq<u8>, value: Seq<u8>) -> Seq<u8> {
    let o = lcp(key, first_key) as int;
    entry_bytes(o, key.subrange(o, key.len() as int), value)
}

/// A bound on the size of a block, offsets and count included, once one more
/// entry with a key and a value of the given lengths is added: it counts the
/// whole key, whatever prefix the key shares with the first key.
pub open spec fn add_bound(data_len: int, num_entries: int, key_len: int, value_len: int) -> int {
    data_len + (num_entries + 1) * 2 + 2 + 14 + key_len + value_len
}

/// What a builder holds: its data, its offsets and its first key.
pub type BuilderParts = (Seq<u8>, Seq<u16>, Seq<u8>);

/// A builder's data, offsets and first key after it accepts `key` and `value`.
pub open spec fn after_add(parts: BuilderParts, key: Seq<u8>, value: Seq<u8>) -> BuilderParts {
    let (data, offsets, first_key) = parts;
    (
        data + encoded_entry(first_key, key, value),
        offsets.push(data.len() as u16),
        if first_key.len() == 0 {
            key
        } else {
            first_key
        },
    )
}

/// The size of the block that a builder with these parts builds, once
/// encoded: its data, two bytes per offset, and the two-byte count.
pub open spec fn encoded_len(parts: BuilderParts) -> int {
    (parts.0.len() + 2 * parts.1.len() + 2) as int
}

/// The bound on the size after an add exceeds the encoded size before it by
/// the whole entry, its offset and its lengths.
pub proof fn lemma_encoded_len(parts: BuilderParts)
    ensures
        forall|k: int, v: int|
            #[trigger] add_bound(parts.0.len() as int, parts.1.len() as int, k, v) == encoded_len(parts) + 16 + k
                + v,
{
}

/// A builder with these parts refuses `key` and `value`: it holds an entry
/// already, and accepting this one would make the encoded block larger than
/// `block_size`.
pub open spec fn refuses(parts: BuilderParts, block_size: int, key: Seq<u8>, value: Seq<u8>) -> bool {
    parts.0.len() > 0 && encoded_len(after_add(parts, key, value)) > block_size
}

/// A fresh builder's data, offsets and first key after it accepts each entry in turn.
pub open spec fn built(entries: Seq<(Seq<u8>, Seq<u8>)>) -> BuilderParts
    decreases entries.len(),
{
    if entries.len() == 0 {
        (Seq::empty(), Seq::empty(), Seq::empty())
    } else {
        after_add(built(entries.drop_last()), entries.last().0, entries.last().1)
    }
}

/// Builds a block.
pub struct BlockBuilder {
    /// Offsets of each key-value entry.
    offsets: Vec<u16>,
    /// All serialized key-value pairs in the block.
    data: Vec<u8>,
    /// The expected block size.
    block_size: usize,
    /// The first key in the block.
    first_key: Vec<u8>,
}

impl BlockBuilder {
    pub open spec fn parts(&self) -> BuilderParts {
        (self.data_view(), self.offsets_view(), self.first_key_view())
    }

    pub closed spec fn offsets_view(&self) -> Seq<u16> {
        self.offsets@
    }

    pub closed spec fn data_view(&self) -> Seq<u8> {
        self.data@
    }

    pub closed spec fn block_size_view(&self) -> nat {
        self.block_size as nat
    }

    pub closed spec fn first_key_view(&self) -> Seq<u8> {
        self.first_key@
    }

    /// The builder holds data exactly when it holds offsets, and a first key
    /// only once it holds data.
    #[verifier::type_invariant]
    closed spec fn wf(&self) -> bool {
        &&& (self.data@.len() == 0 <==> self.offsets@.len() == 0)
        &&& self.first_key@.len() > 0 ==> self.data@.len() > 0
    }

    /// Creates a new block builder.
    pub fn new(block_size: usize) -> (r: Self)
        ensures
            r.offsets_view() == Seq::<u16>::empty(),
            r.data_view() == Seq::<u8>::empty(),
            r.block_size_view() == block_size,
            r.first_key_view() == Seq::<u8>::empty(),
    {
        BlockBuilder { offsets: Vec::new(), data: Vec::new(), block_size, first_key: Vec::new() }
    }

    /// Adds a key-value pair to the block. Returns false when the block is full:
    /// when it already holds an entry and the encoded block, offsets and
    /// count included, would grow past its expected size with this one.
    pub fn add(&mut self, key: &[u8], value: &[u8]) -> (r: bool)
        requires
            add_bound(
                old(self).data_view().len() as int,
                old(self).offsets_view().len() as int,
                key@.len() as int,
                value@.len() as int,
            ) <= usize::MAX,
        ensures
            ({
                let full = refuses(old(self).parts(), old(self).block_size_view() as int, key@, value@);
                &&& r == !full
                &&& !r ==> old(self).data_view().len() > 0 && old(self).offsets_view().len() > 0
                &&& r ==> final(self).data_view().len() > 0 && final(self).offsets_view().len() > 0
                &&& r && old(self).data_view().len() > 0 ==> encoded_len(final(self).parts())
                    <= final(self).block_size_view()
                &&& final(self).block_size_view() == old(self).block_size_view()
                &&& full ==> {
                    &&& final(self).offsets_view() == old(self).offsets_view()
                    &&& final(self).data_view() == old(self).data_view()
                    &&& final(self).first_key_view() == old(self).first_key_view()
                }
                &&& !full ==> final(self).parts() == after_add(old(self).parts(), key@, value@)
            }),
    {
        proof {
            use_type_invariant(&*self);
        }
        let offset = self.data.len();
        let key_len = key.len();
        let value_len = value.len();
        let overlap = common_prefix_len(key, self.first_key.as_slice());
        proof {
            lemma_lcp(key@, self.first_key@);
            assert(encoded_entry(self.first_key@, key@, value@).len() == 14 + key_len - overlap + value_len);
        }
        let entry_len = 14 + (key_len - overlap) + value_len;
        let after_len = offset + entry_len + (self.offsets.len() + 1) * 2 + 2;
        if after_len > self.block_size && offset > 0 {
            return false;
        }
        let mut taken = BlockBuilder::new(self.block_size);
        std::mem::swap(self, &mut taken);
        let BlockBuilder { mut offsets, mut data, block_size, mut first_key } = taken;
        offsets.push(offset as u16);
        if first_key.is_empty() {
            let mut first: Vec<u8> = Vec::new();
            put_slice(&mut first, key);
            first_key = first;
            put_u16(&mut data, 0);
            put_u16(&mut data, key_len as u16);
            put_slice(&mut data, key);
            put_u64(&mut data, TS_DEFAULT);
            put_u16(&mut data, value_len as u16);
            put_slice(&mut data, value);
            assert(key@.subrange(0, key@.len() as int) =~= key@);
        } else {
            put_u16(&mut data, overlap as u16);
            let rest_key_len = key_len - overlap;
            put_u16(&mut data, rest_key_len as u16);
            put_slice(&mut data, slice_subrange(key, overlap, key_len));
            put_u64(&mut data, TS_DEFAULT);
            put_u16(&mut data, value_len as u16);
            put_slice(&mut data, value);
        }
        assert(data@ =~= old(self).data@ + encoded_entry(old(self).first_key@, key@, value@));
        *self = BlockBuilder { offsets, data, block_size, first_key };
        true
    }

    /// Check if there is no key-value pair in the block.
    pub fn is_empty(&self) -> (r: bool)
        ensures
            r == (self.data_view().len() == 0),
            r == (self.offsets_view().len() == 0),
    {
        proof {
            use_type_invariant(self);
        }
        self.data.len() == 0
    }

    /// Finalize the block.
    pub fn build(self) -> (r: Block)
        ensures
            r.data@ == self.data_view(),
            r.offsets@ == self.offsets_view(),
    {
        Block { data: self.data, offsets: self.offsets }
    }
}

} // verus!
