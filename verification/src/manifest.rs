//! The manifest's frame format: each record (already serialized) after its
//! length as four big-endian bytes, followed by its CRC-32 as four
//! big-endian bytes.
use crate::codec::{be32, copy_range, get_u32, lemma_be32_roundtrip, put_slice, put_u32, read_be32};
use crate::compact::CompactionTask;
use crate::external::{crc32_hash, crc32_of};
use vstd::prelude::*;

verus! {

/// A change to the tree, as the manifest records it.
pub enum ManifestRecord {
    Flush(usize),
    NewMemtable(usize),
    Compaction(CompactionTask, Vec<usize>),
}

/// The bytes of one frame (the length truncated to 32 bits).
pub open spec fn frame_bytes(record: Seq<u8>) -> Seq<u8> {
    be32(record.len() as u32) + record + be32(crc32_of(record))
}

/// The frame at the start of `s`: its record, the checksum stored with it,
/// and its length; `None` if `s` ends inside it.
pub open spec fn frame_head(s: Seq<u8>) -> Option<(Seq<u8>, u32, int)> {
    if s.len() < 4 {
        None
    } else {
        let n = read_be32(s, 0) as int;
        if s.len() < 8 + n {
            None
        } else {
            Some((s.subrange(4, 4 + n), read_be32(s, 4 + n), 8 + n))
        }
    }
}

/// One step of reading a manifest.
pub enum FrameStep {
    /// The manifest has no more bytes.
    End,
    /// A record whose checksum matches, and where the next frame starts.
    Record { record: Vec<u8>, next: usize },
    /// A frame whose stored checksum differs from its record's.
    ChecksumMismatch,
    /// The manifest ends inside a frame.
    Truncated,
}

/// Frames a serialized record.
pub fn encode_frame(record: &[u8]) -> (r: Vec<u8>)
    ensures
        r@ == frame_bytes(record@),
{
    let record_len = record.len() as u32;
    let checksum = crc32_hash(record);
    let mut buf: Vec<u8> = Vec::new();
    put_u32(&mut buf, record_len);
    put_slice(&mut buf, record);
    put_u32(&mut buf, checksum);
    buf
}

/// Reads the frame that starts at `pos` and checks its checksum.
pub fn next_frame(buf: &[u8], pos: usize) -> (r: FrameStep)
    requires
        pos <= buf@.len(),
    ensures
        ({
            let s = buf@.subrange(pos as int, buf@.len() as int);
            if s.len() == 0 {
                r is End
            } else {
                match frame_head(s) {
                    None => r is Truncated,
                    Some((record, crc, n)) => if crc == crc32_of(record) {
                        r matches FrameStep::Record { record: got, next } && got@ == record && next
                            == pos + n
                    } else {
                        r is ChecksumMismatch
                    },
                }
            }
        }),
{
    let len = buf.len();
    if pos == len {
        return FrameStep::End;
    }
    if len - pos < 4 {
        return FrameStep::Truncated;
    }
    let record_len = get_u32(buf, pos) as usize;
    let ghost s = buf@.subrange(pos as int, len as int);
    assert(read_be32(s, 0) == read_be32(buf@, pos as int));
    if len - pos - 4 < record_len || len - pos - 4 - record_len < 4 {
        return FrameStep::Truncated;
    }
    let record = copy_range(buf, pos + 4, pos + 4 + record_len);
    let checksum = get_u32(buf, pos + 4 + record_len);
    assert(read_be32(s, 4 + record_len) == read_be32(buf@, pos + 4 + record_len));
    assert(record@ =~= s.subrange(4, 4 + record_len));
    let computed_checksum = crc32_hash(record.as_slice());
    if checksum != computed_checksum {
        return FrameStep::ChecksumMismatch;
    }
    FrameStep::Record { record, next: pos + 4 + record_len + 4 }
}

/// Why a manifest could not be read to its end.
#[derive(Debug)]
pub enum FrameError {
    /// A frame's stored checksum differs from its record's.
    ChecksumMismatch,
    /// The manifest ends inside a frame.
    Truncated,
}

/// The records of a manifest, read frame by frame up to its end or to the
/// first frame that is cut short or fails its checksum, and that fault.
pub open spec fn frames_parse(s: Seq<u8>) -> (Seq<Seq<u8>>, Option<FrameError>)
    decreases s.len(),
{
    if s.len() == 0 {
        (Seq::empty(), None)
    } else {
        match frame_head(s) {
            None => (Seq::empty(), Some(FrameError::Truncated)),
            Some((record, crc, n)) => if crc != crc32_of(record) {
                (Seq::empty(), Some(FrameError::ChecksumMismatch))
            } else if 0 < n <= s.len() {
                let (rest, fault) = frames_parse(s.subrange(n, s.len() as int));
                (seq![record] + rest, fault)
            } else {
                (Seq::empty(), Some(FrameError::Truncated))
            },
        }
    }
}

/// The records, by view.
pub open spec fn frames_view(v: Seq<Vec<u8>>) -> Seq<Seq<u8>> {
    v.map_values(|r: Vec<u8>| r@)
}

/// Reads the records of a manifest in order, checking each checksum, up to
/// its end or its first fault; gives the records read and that fault.
pub fn read_frames(buf: &[u8]) -> (r: (Vec<Vec<u8>>, Option<FrameError>))
    ensures
        frames_view(r.0@) == frames_parse(buf@).0,
        r.1 == frames_parse(buf@).1,
{
    let mut out: Vec<Vec<u8>> = Vec::new();
    let mut pos: usize = 0;
    let len = buf.len();
    assert(buf@.subrange(0, len as int) =~= buf@);
    loop
        invariant
            len == buf@.len(),
            pos <= len,
            frames_parse(buf@).0 == frames_view(out@) + frames_parse(
                buf@.subrange(pos as int, len as int),
            ).0,
            frames_parse(buf@).1 == frames_parse(buf@.subrange(pos as int, len as int)).1,
        decreases len - pos,
    {
        let ghost s = buf@.subrange(pos as int, len as int);
        match next_frame(buf, pos) {
            FrameStep::End => {
                assert(frames_view(out@) + Seq::<Seq<u8>>::empty() =~= frames_view(out@));
                return (out, None);
            },
            FrameStep::Truncated => {
                assert(frames_view(out@) + Seq::<Seq<u8>>::empty() =~= frames_view(out@));
                return (out, Some(FrameError::Truncated));
            },
            FrameStep::ChecksumMismatch => {
                assert(frames_view(out@) + Seq::<Seq<u8>>::empty() =~= frames_view(out@));
                return (out, Some(FrameError::ChecksumMismatch));
            },
            FrameStep::Record { record, next } => {
                let ghost before = out@;
                let ghost rec = record@;
                proof {
                    assert(s.subrange(next - pos, s.len() as int) =~= buf@.subrange(
                        next as int,
                        len as int,
                    ));
                }
                out.push(record);
                proof {
                    assert(frames_view(out@) =~= frames_view(before).push(rec));
                    let rest = frames_parse(buf@.subrange(next as int, len as int)).0;
                    assert(frames_view(before) + (seq![rec] + rest) =~= frames_view(out@) + rest);
                }
                pos = next;
            },
        }
    }
}

/// The frames of the records, one after another.
pub open spec fn frames_bytes(records: Seq<Seq<u8>>) -> Seq<u8>
    decreases records.len(),
{
    if records.len() == 0 {
        Seq::empty()
    } else {
        frame_bytes(records[0]) + frames_bytes(records.drop_first())
    }
}

/// A manifest written as the frames of records, each shorter than 4 GiB,
/// reads back as those records, in order.
pub proof fn lemma_frames_roundtrip(records: Seq<Seq<u8>>)
    requires
        forall|i: int| 0 <= i < records.len() ==> (#[trigger] records[i]).len() < 0x1_0000_0000,
    ensures
        frames_parse(frames_bytes(records)) == (records, None::<FrameError>),
    decreases records.len(),
{
    if records.len() > 0 {
        let rest = records.drop_first();
        assert forall|i: int| 0 <= i < rest.len() implies (#[trigger] rest[i]).len() < 0x1_0000_0000 by {
            assert(rest[i] == records[i + 1]);
        }
        lemma_frames_roundtrip(rest);
        let s = frames_bytes(records);
        let tail = frames_bytes(rest);
        lemma_frame_roundtrip(records[0], tail);
        let n = frame_bytes(records[0]).len() as int;
        assert(s.subrange(n, s.len() as int) =~= tail);
        assert(seq![records[0]] + rest =~= records);
    } else {
        assert(frames_bytes(records) == Seq::<u8>::empty());
        assert(records =~= Seq::<Seq<u8>>::empty());
    }
}

/// A framed record shorter than 4 GiB reads back, with a matching checksum,
/// whatever follows it.
pub proof fn lemma_frame_roundtrip(record: Seq<u8>, rest: Seq<u8>)
    requires
        record.len() < 0x1_0000_0000,
    ensures
        frame_head(frame_bytes(record) + rest) == Some(
            (record, crc32_of(record), frame_bytes(record).len() as int),
        ),
{
    let n = record.len() as u32;
    let c = crc32_of(record);
    let s = frame_bytes(record) + rest;
    lemma_be32_roundtrip(n, Seq::empty(), record + be32(c) + rest);
    assert(s =~= Seq::empty() + be32(n) + (record + be32(c) + rest));
    lemma_be32_roundtrip(c, be32(n) + record, rest);
    assert(s =~= (be32(n) + record) + be32(c) + rest);
    let rn = record.len() as int;
    assert(s.subrange(4, 4 + rn) =~= record);
}

} // verus!
