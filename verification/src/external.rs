//! The calls into outside crates, each with the contract that the library
//! relies on.
use vstd::prelude::*;

verus! {

#[verifier::external_type_specification]
#[verifier::external_body]
pub struct ExBytes(bytes::Bytes);

/// The bytes that a `bytes::Bytes` holds, in order.
pub uninterp spec fn bytes_view(b: bytes::Bytes) -> Seq<u8>;

/// `bytes::Bytes::from(Vec<u8>)`: takes over the vector's buffer, so the
/// result holds exactly the vector's bytes.
#[verifier::external_body]
pub(crate) fn bytes_from_vec(v: Vec<u8>) -> (b: bytes::Bytes)
    ensures
        bytes_view(b) == v@,
{
    bytes::Bytes::from(v)
}

/// `<bytes::Bytes as Deref>::deref`: the bytes that the `Bytes` holds, as a slice.
#[verifier::external_body]
pub(crate) fn bytes_as_slice(b: &bytes::Bytes) -> (r: &[u8])
    ensures
        r@ == bytes_view(*b),
{
    b
}

/// One bit of CRC-32 (IEEE, with the reflected polynomial `0xEDB88320`): the
/// register shifts right by one, and the polynomial is folded in when the bit
/// shifted out was set.
pub open spec fn crc32_shift(c: u32) -> u32 {
    if c & 1u32 == 1u32 {
        (c >> 1u32) ^ 0xEDB8_8320u32
    } else {
        c >> 1u32
    }
}

/// The register after `n` bits.
pub open spec fn crc32_shifts(c: u32, n: nat) -> u32
    decreases n,
{
    if n == 0 {
        c
    } else {
        crc32_shifts(crc32_shift(c), (n - 1) as nat)
    }
}

/// The register after each byte of `data` in turn: the byte enters the low
/// bits of the register, which then takes eight bits.
pub open spec fn crc32_update(c: u32, data: Seq<u8>) -> u32
    decreases data.len(),
{
    if data.len() == 0 {
        c
    } else {
        crc32_update(crc32_shifts(c ^ (data[0] as u32), 8), data.drop_first())
    }
}

/// The CRC-32 (IEEE) checksum of a byte string: the register starts with all
/// bits set, and the checksum is its complement after the last byte.
pub open spec fn crc32_of(data: Seq<u8>) -> u32 {
    crc32_update(0xFFFF_FFFFu32, data) ^ 0xFFFF_FFFFu32
}

/// `crc32fast::hash`: the CRC-32 (IEEE) checksum of the bytes it is given,
/// which `crc32_of` states bit by bit (the crate computes it by tables or
/// by carry-less multiplication, to the same result).
#[verifier::external_body]
pub(crate) fn crc32_hash(data: &[u8]) -> (r: u32)
    ensures
        r == crc32_of(data@),
{
    crc32fast::hash(data)
}

} // verus!
