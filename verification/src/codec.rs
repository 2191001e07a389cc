//! Big-endian integer encoding on byte vectors and slices.
use vstd::prelude::*;

verus! {

/// The two big-endian bytes of `x`.
pub open spec fn be16(x: u16) -> Seq<u8> {
    seq![(x / 256) as u8, (x % 256) as u8]
}

/// The four big-endian bytes of `x`.
pub open spec fn be32(x: u32) -> Seq<u8> {
    seq![
        (x / 0x100_0000) as u8,
        ((x / 0x1_0000) % 256) as u8,
        ((x / 256) % 256) as u8,
        (x % 256) as u8,
    ]
}

/// The eight big-endian bytes of `x`.
pub open spec fn be64(x: u64) -> Seq<u8> {
    be32((x / 0x1_0000_0000) as u32) + be32((x % 0x1_0000_0000) as u32)
}

/// The big-endian `u16` stored at `s[i..i + 2]`.
pub open spec fn read_be16(s: Seq<u8>, i: int) -> u16 {
    (s[i] as int * 256 + s[i + 1] as int) as u16
}

/// The big-endian `u32` stored at `s[i..i + 4]`.
pub open spec fn read_be32(s: Seq<u8>, i: int) -> u32 {
    (s[i] as int * 0x100_0000 + s[i + 1] as int * 0x1_0000 + s[i + 2] as int * 256
        + s[i + 3] as int) as u32
}

pub proof fn lemma_be16_roundtrip(x: u16, prefix: Seq<u8>, suffix: Seq<u8>)
    ensures
        be16(x).len() == 2,
        read_be16(prefix + be16(x) + suffix, prefix.len() as int) == x,
{
    let s = prefix + be16(x) + suffix;
    assert(s[prefix.len() as int] == (x / 256) as u8);
    assert(s[prefix.len() as int + 1] == (x % 256) as u8);
}

pub proof fn lemma_be32_roundtrip(x: u32, prefix: Seq<u8>, suffix: Seq<u8>)
    ensures
        be32(x).len() == 4,
        read_be32(prefix + be32(x) + suffix, prefix.len() as int) == x,
{
    let s = prefix + be32(x) + suffix;
    let p = prefix.len() as int;
    assert(s[p] == (x / 0x100_0000) as u8);
    assert(s[p + 1] == ((x / 0x1_0000) % 256) as u8);
    assert(s[p + 2] == ((x / 256) % 256) as u8);
    assert(s[p + 3] == (x % 256) as u8);
    assert((x / 0x100_0000) * 0x100_0000 + ((x / 0x1_0000) % 256) * 0x1_0000 + ((x / 256) % 256)
        * 256 + x % 256 == x) by (nonlinear_arith);
}

/// Appends the big-endian bytes of `x` to `buf`.
pub fn put_u16(buf: &mut Vec<u8>, x: u16)
    ensures
        final(buf)@ == old(buf)@ + be16(x),
{
    buf.push((x / 256) as u8);
    buf.push((x % 256) as u8);
    assert(final(buf)@ =~= old(buf)@ + be16(x));
}

/// Appends the big-endian bytes of `x` to `buf`.
pub fn put_u32(buf: &mut Vec<u8>, x: u32)
    ensures
        final(buf)@ == old(buf)@ + be32(x),
{
    buf.push((x / 0x100_0000) as u8);
    buf.push(((x / 0x1_0000) % 256) as u8);
    buf.push(((x / 256) % 256) as u8);
    buf.push((x % 256) as u8);
    assert(final(buf)@ =~= old(buf)@ + be32(x));
}

/// Appends the big-endian bytes of `x` to `buf`.
pub fn put_u64(buf: &mut Vec<u8>, x: u64)
    ensures
        final(buf)@ == old(buf)@ + be64(x),
{
    put_u32(buf, (x / 0x1_0000_0000) as u32);
    put_u32(buf, (x % 0x1_0000_0000) as u32);
    assert(final(buf)@ =~= old(buf)@ + be64(x));
}

/// Appends all of `s` to `buf`.
pub fn put_slice(buf: &mut Vec<u8>, s: &[u8])
    ensures
        final(buf)@ == old(buf)@ + s@,
{
    let mut i: usize = 0;
    while i < s.len()
        invariant
            i <= s@.len(),
            buf@ == old(buf)@ + s@.subrange(0, i as int),
        decreases s@.len() - i,
    {
        buf.push(s[i]);
        i = i + 1;
        assert(buf@ =~= old(buf)@ + s@.subrange(0, i as int));
    }
    assert(s@.subrange(0, s@.len() as int) =~= s@);
}

/// Reads the big-endian `u16` at `s[i..i + 2]`.
pub fn get_u16(s: &[u8], i: usize) -> (r: u16)
    requires
        i + 2 <= s@.len(),
    ensures
        r == read_be16(s@, i as int),
{
    (s[i] as u16) * 256 + (s[i + 1] as u16)
}

/// Reads the big-endian `u32` at `s[i..i + 4]`.
pub fn get_u32(s: &[u8], i: usize) -> (r: u32)
    requires
        i + 4 <= s@.len(),
    ensures
        r == read_be32(s@, i as int),
{
    (s[i] as u32) * 0x100_0000 + (s[i + 1] as u32) * 0x1_0000 + (s[i + 2] as u32) * 256 + (s[i
        + 3] as u32)
}

/// A copy of `s[lo..hi]`.
pub fn copy_range(s: &[u8], lo: usize, hi: usize) -> (r: Vec<u8>)
    requires
        lo <= hi <= s@.len(),
    ensures
        r@ == s@.subrange(lo as int, hi as int),
{
    let mut r: Vec<u8> = Vec::new();
    let mut i: usize = lo;
    while i < hi
        invariant
            lo <= i <= hi <= s@.len(),
            r@ == s@.subrange(lo as int, i as int),
        decreases hi - i,
    {
        r.push(s[i]);
        i = i + 1;
        assert(r@ =~= s@.subrange(lo as int, i as int));
    }
    r
}

} // verus!
