//! A block: the smallest unit of reading and caching, a run of sorted
//! key-value entries followed by their offsets.
use crate::codec::{be16, copy_range, get_u16, lemma_be16_roundtrip, put_slice, put_u16, read_be16};
use crate::external::{bytes_from_vec, bytes_view};
use vstd::prelude::*;

pub mod builder;
pub mod iterator;
pub mod roundtrip;

pub use builder::BlockBuilder;
pub use iterator::BlockIterator;

verus! {

/// A block: the encoded entries and the offset of each entry in `data`.
pub struct Block {
    pub data: Vec<u8>,
    pub offsets: Vec<u16>,
}

/// A block as values: its data and its offsets.
pub struct BlockView {
    pub data: Seq<u8>,
    pub offsets: Seq<u16>,
}

impl View for Block {
    type V = BlockView;

    open spec fn view(&self) -> BlockView {
        BlockView { data: self.data@, offsets: self.offsets@ }
    }
}

/// The block that the bytes `d` decode to.
pub open spec fn decoded_view(d: Seq<u8>) -> BlockView {
    BlockView { data: decoded_data(d), offsets: decoded_offsets(d) }
}

/// The offsets, each as two big-endian bytes, in order.
pub open spec fn offsets_bytes(offsets: Seq<u16>) -> Seq<u8>
    decreases offsets.len(),
{
    if offsets.len() == 0 {
        Seq::empty()
    } else {
        offsets_bytes(offsets.drop_last()) + be16(offsets.last())
    }
}

/// The encoded form of a block: its data, its offsets, then the number of
/// offsets, truncated to 16 bits.
pub open spec fn encoded_block(data: Seq<u8>, offsets: Seq<u16>) -> Seq<u8> {
    data + offsets_bytes(offsets) + be16(offsets.len() as u16)
}

/// The number of entries that the last two bytes of an encoded block declare.
pub open spec fn declared_count(d: Seq<u8>) -> int {
    read_be16(d, d.len() - 2) as int
}

/// Where the offsets start in an encoded block.
pub open spec fn offsets_start(d: Seq<u8>) -> int {
    d.len() - 2 - 2 * declared_count(d)
}

/// The encoded block is long enough for the count that it declares.
pub open spec fn decodable(d: Seq<u8>) -> bool {
    d.len() >= 2 && offsets_start(d) >= 0
}

/// The data of a decoded block.
pub open spec fn decoded_data(d: Seq<u8>) -> Seq<u8> {
    d.subrange(0, offsets_start(d))
}

/// The offsets of a decoded block.
pub open spec fn decoded_offsets(d: Seq<u8>) -> Seq<u16> {
    Seq::new(declared_count(d) as nat, |i: int| read_be16(d, offsets_start(d) + 2 * i))
}

pub proof fn lemma_offsets_bytes(offsets: Seq<u16>, prefix: Seq<u8>, suffix: Seq<u8>)
    ensures
        offsets_bytes(offsets).len() == 2 * offsets.len(),
        forall|i: int|
            0 <= i < offsets.len() ==> read_be16(
                prefix + offsets_bytes(offsets) + suffix,
                prefix.len() + 2 * i,
            ) == offsets[i],
    decreases offsets.len(),
{
    if offsets.len() > 0 {
        let init = offsets.drop_last();
        let last = offsets.last();
        lemma_offsets_bytes(init, prefix, be16(last) + suffix);
        lemma_be16_roundtrip(last, prefix + offsets_bytes(init), suffix);
        assert(prefix + offsets_bytes(offsets) + suffix =~= prefix + offsets_bytes(init) + (be16(
            last,
        ) + suffix));
        assert(prefix + offsets_bytes(offsets) + suffix =~= (prefix + offsets_bytes(init)) + be16(
            last,
        ) + suffix);
        assert forall|i: int| 0 <= i < offsets.len() implies read_be16(
            prefix + offsets_bytes(offsets) + suffix,
            prefix.len() + 2 * i,
        ) == offsets[i] by {
            if i < offsets.len() - 1 {
                assert(init[i] == offsets[i]);
            }
        }
    }
}

/// Decoding an encoded block gives back its data and offsets, as long as the
/// number of offsets fits the 16-bit count.
pub proof fn lemma_decode_encode(data: Seq<u8>, offsets: Seq<u16>)
    requires
        offsets.len() < 0x1_0000,
    ensures
        decodable(encoded_block(data, offsets)),
        decoded_data(encoded_block(data, offsets)) == data,
        decoded_offsets(encoded_block(data, offsets)) == offsets,
{
    let e = encoded_block(data, offsets);
    let n = offsets.len() as u16;
    lemma_offsets_bytes(offsets, data, be16(n));
    lemma_be16_roundtrip(n, data + offsets_bytes(offsets), Seq::empty());
    assert(e =~= data + offsets_bytes(offsets) + be16(n) + Seq::empty());
    assert(declared_count(e) == offsets.len());
    assert(decoded_data(e) =~= data);
    assert(decoded_offsets(e) =~= offsets);
}

impl Block {
    /// Length of the key stored at `position`, in the key-length-first layout.
    fn get_key_len_at(&self, position: u16) -> (r: u16)
        requires
            (position as int) < self.offsets@.len(),
            self.offsets@[position as int] + 2 <= self.data@.len(),
        ensures
            r == read_be16(self.data@, self.offsets@[position as int] as int),
    {
        let offset = self.offsets[position as usize] as usize;
        get_u16(self.data.as_slice(), offset)
    }

    /// The key stored at `position`, in the key-length-first layout.
    fn get_key_at(&self, position: u16) -> (r: Vec<u8>)
        requires
            (position as int) < self.offsets@.len(),
            self.offsets@[position as int] + 2 + read_be16(
                self.data@,
                self.offsets@[position as int] as int,
            ) <= self.data@.len(),
        ensures
            ({
                let off = self.offsets@[position as int] as int;
                r@ == self.data@.subrange(off + 2, off + 2 + read_be16(self.data@, off))
            }),
    {
        let offset = self.offsets[position as usize] as usize;
        let key_len = self.get_key_len_at(position) as usize;
        copy_range(self.data.as_slice(), offset + 2, offset + key_len + 2)
    }

    /// Length of the value stored at `position`, in the key-length-first layout.
    fn get_value_len_at(&self, position: u16) -> (r: u16)
        requires
            (position as int) < self.offsets@.len(),
            self.offsets@[position as int] + 4 + read_be16(
                self.data@,
                self.offsets@[position as int] as int,
            ) <= self.data@.len(),
        ensures
            ({
                let off = self.offsets@[position as int] as int;
                r == read_be16(self.data@, off + 2 + read_be16(self.data@, off))
            }),
    {
        let offset = self.offsets[position as usize] as usize;
        let key_len = self.get_key_len_at(position) as usize;
        get_u16(self.data.as_slice(), offset + 2 + key_len)
    }

    /// The range of `data` that holds the value at `position`, in the
    /// key-length-first layout.
    fn get_value_range_at(&self, position: u16) -> (r: (usize, usize))
        requires
            (position as int) < self.offsets@.len(),
            self.offsets@[position as int] + 4 + read_be16(
                self.data@,
                self.offsets@[position as int] as int,
            ) <= self.data@.len(),
        ensures
            ({
                let off = self.offsets@[position as int] as int;
                let kl = read_be16(self.data@, off) as int;
                &&& r.0 == off + 4 + kl
                &&& r.1 == off + 4 + kl + read_be16(self.data@, off + 2 + kl)
            }),
    {
        let offset = self.offsets[position as usize] as usize;
        let key_len = self.get_key_len_at(position) as usize;
        let value_len = self.get_value_len_at(position) as usize;
        (offset + 2 + key_len + 2, offset + 2 + key_len + 2 + value_len)
    }

    /// Encodes the block: the data, each offset as two big-endian bytes, and
    /// the number of entries as two big-endian bytes.
    pub fn encode(&self) -> (r: bytes::Bytes)
        ensures
            bytes_view(r) == encoded_block(self.data@, self.offsets@),
    {
        let mut buf: Vec<u8> = Vec::new();
        let num_elements = self.offsets.len();
        put_slice(&mut buf, self.data.as_slice());
        let mut i: usize = 0;
        while i < self.offsets.len()
            invariant
                i <= self.offsets@.len(),
                buf@ == self.data@ + offsets_bytes(self.offsets@.subrange(0, i as int)),
            decreases self.offsets@.len() - i,
        {
            let ghost before = self.offsets@.subrange(0, i as int);
            put_u16(&mut buf, self.offsets[i]);
            i = i + 1;
            assert(self.offsets@.subrange(0, i as int).drop_last() =~= before);
        }
        assert(self.offsets@.subrange(0, i as int) =~= self.offsets@);
        put_u16(&mut buf, num_elements as u16);
        bytes_from_vec(buf)
    }

    /// Decodes a block from its encoded form.
    pub fn decode(data: &[u8]) -> (r: Self)
        requires
            decodable(data@),
        ensures
            r.data@ == decoded_data(data@),
            r.offsets@ == decoded_offsets(data@),
            r@ == decoded_view(data@),
    {
        let data_len = data.len();
        let num_elements = get_u16(data, data_len - 2) as usize;
        let start = data_len - 2 - num_elements * 2;
        let block_data = copy_range(data, 0, start);
        let mut offsets: Vec<u16> = Vec::new();
        let mut i: usize = 0;
        while i < num_elements
            invariant
                decodable(data@),
                num_elements == declared_count(data@),
                start == offsets_start(data@),
                data_len == data@.len(),
                i <= num_elements,
                offsets@ =~= decoded_offsets(data@).subrange(0, i as int),
            decreases num_elements - i,
        {
            let off = get_u16(data, start + 2 * i);
            offsets.push(off);
            i = i + 1;
        }
        Block { data: block_data, offsets }
    }
}

} // verus!
