//! The write-ahead log's record format: the key and the value, each after
//! its length as two big-endian bytes.
use crate::codec::{be16, copy_range, get_u16, lemma_be16_roundtrip, put_slice, put_u16, read_be16};
use vstd::prelude::*;

verus! {

/// The bytes of one log record (lengths truncated to 16 bits).
pub open spec fn wal_record_bytes(key: Seq<u8>, value: Seq<u8>) -> Seq<u8> {
    be16(key.len() as u16) + key + be16(value.len() as u16) + value
}

/// The records, encoded one after another.
pub open spec fn wal_records_bytes(records: Seq<(Seq<u8>, Seq<u8>)>) -> Seq<u8>
    decreases records.len(),
{
    if records.len() == 0 {
        Seq::empty()
    } else {
        wal_records_bytes(records.drop_last()) + wal_record_bytes(records.last().0, records.last().1)
    }
}

/// The record at the start of `s`, with its length; `None` if `s` ends
/// inside it.
pub open spec fn wal_head(s: Seq<u8>) -> Option<(Seq<u8>, Seq<u8>, int)> {
    if s.len() < 2 {
        None
    } else {
        let kl = read_be16(s, 0) as int;
        if s.len() < 4 + kl {
            None
        } else {
            let vl = read_be16(s, 2 + kl) as int;
            if s.len() < 4 + kl + vl {
                None
            } else {
                Some((s.subrange(2, 2 + kl), s.subrange(4 + kl, 4 + kl + vl), 4 + kl + vl))
            }
        }
    }
}

/// The records of a whole log; `None` if it ends inside a record.
pub open spec fn wal_parse(s: Seq<u8>) -> Option<Seq<(Seq<u8>, Seq<u8>)>>
    decreases s.len(),
{
    if s.len() == 0 {
        Some(Seq::empty())
    } else {
        match wal_head(s) {
            None => None,
            Some((k, v, n)) => if 0 < n <= s.len() {
                match wal_parse(s.subrange(n, s.len() as int)) {
                    None => None,
                    Some(rest) => Some(seq![(k, v)] + rest),
                }
            } else {
                None
            },
        }
    }
}

/// One step of reading a log.
pub enum WalStep {
    /// The log has no more bytes.
    End,
    /// A record, and where the next one starts.
    Record { key: Vec<u8>, value: Vec<u8>, next: usize },
    /// The log ends inside a record.
    Truncated,
}

/// Encodes one record.
pub fn encode_wal_record(key: &[u8], value: &[u8]) -> (r: Vec<u8>)
    ensures
        r@ == wal_record_bytes(key@, value@),
{
    let mut buf: Vec<u8> = Vec::new();
    put_u16(&mut buf, key.len() as u16);
    put_slice(&mut buf, key);
    put_u16(&mut buf, value.len() as u16);
    put_slice(&mut buf, value);
    assert(buf@ =~= wal_record_bytes(key@, value@));
    buf
}

/// Reads the record that starts at `pos`.
pub fn next_wal_record(buf: &[u8], pos: usize) -> (r: WalStep)
    requires
        pos <= buf@.len(),
    ensures
        ({
            let s = buf@.subrange(pos as int, buf@.len() as int);
            if s.len() == 0 {
                r is End
            } else {
                match wal_head(s) {
                    None => r is Truncated,
                    Some((k, v, n)) => r matches WalStep::Record { key, value, next } && key@ == k
                        && value@ == v && next == pos + n,
                }
            }
        }),
{
    let len = buf.len();
    if pos == len {
        return WalStep::End;
    }
    if len - pos < 2 {
        return WalStep::Truncated;
    }
    let key_len = get_u16(buf, pos) as usize;
    if len - pos - 2 < key_len + 2 {
        return WalStep::Truncated;
    }
    let key = copy_range(buf, pos + 2, pos + 2 + key_len);
    let value_len = get_u16(buf, pos + 2 + key_len) as usize;
    if len - pos - 4 - key_len < value_len {
        return WalStep::Truncated;
    }
    let value = copy_range(buf, pos + 4 + key_len, pos + 4 + key_len + value_len);
    let ghost s = buf@.subrange(pos as int, len as int);
    assert(read_be16(s, 0) == read_be16(buf@, pos as int));
    assert(read_be16(s, 2 + key_len) == read_be16(buf@, pos + 2 + key_len));
    assert(key@ =~= s.subrange(2, 2 + key_len));
    assert(value@ =~= s.subrange(4 + key_len, 4 + key_len + value_len));
    WalStep::Record { key, value, next: pos + 4 + key_len + value_len }
}

/// The records, by view.
pub open spec fn records_view(v: Seq<(Vec<u8>, Vec<u8>)>) -> Seq<(Seq<u8>, Seq<u8>)> {
    v.map_values(|r: (Vec<u8>, Vec<u8>)| (r.0@, r.1@))
}

/// Reads every record of a log, in order; `None` if the log ends inside a
/// record.
pub fn read_wal(buf: &[u8]) -> (r: Option<Vec<(Vec<u8>, Vec<u8>)>>)
    ensures
        match wal_parse(buf@) {
            None => r is None,
            Some(records) => r matches Some(v) && records_view(v@) == records,
        },
{
    let mut out: Vec<(Vec<u8>, Vec<u8>)> = Vec::new();
    let mut pos: usize = 0;
    let len = buf.len();
    assert(buf@.subrange(0, len as int) =~= buf@);
    loop
        invariant
            len == buf@.len(),
            pos <= len,
            wal_parse(buf@) == match wal_parse(buf@.subrange(pos as int, len as int)) {
                None => None,
                Some(rest) => Some(records_view(out@) + rest),
            },
        decreases len - pos,
    {
        let ghost s = buf@.subrange(pos as int, len as int);
        match next_wal_record(buf, pos) {
            WalStep::End => {
                assert(records_view(out@) + Seq::<(Seq<u8>, Seq<u8>)>::empty() =~= records_view(out@));
                return Some(out);
            },
            WalStep::Truncated => {
                return None;
            },
            WalStep::Record { key, value, next } => {
                let ghost before = out@;
                let ghost kv = (key@, value@);
                proof {
                    assert(s.subrange(next - pos, s.len() as int) =~= buf@.subrange(
                        next as int,
                        len as int,
                    ));
                }
                out.push((key, value));
                proof {
                    assert(records_view(out@) =~= records_view(before).push(kv));
                    match wal_parse(buf@.subrange(next as int, len as int)) {
                        None => {},
                        Some(rest) => {
                            assert(records_view(before) + (seq![kv] + rest) =~= records_view(out@)
                                + rest);
                        },
                    }
                }
                pos = next;
            },
        }
    }
}

/// A record whose key and value are shorter than 64 KiB reads back from its
/// encoding, whatever follows it.
pub proof fn lemma_wal_record_roundtrip(key: Seq<u8>, value: Seq<u8>, rest: Seq<u8>)
    requires
        key.len() < 0x1_0000,
        value.len() < 0x1_0000,
    ensures
        wal_head(wal_record_bytes(key, value) + rest) == Some(
            (key, value, wal_record_bytes(key, value).len() as int),
        ),
{
    let kl = key.len() as u16;
    let vl = value.len() as u16;
    let s = wal_record_bytes(key, value) + rest;
    lemma_be16_roundtrip(kl, Seq::empty(), key + be16(vl) + value + rest);
    assert(s =~= Seq::empty() + be16(kl) + (key + be16(vl) + value + rest));
    lemma_be16_roundtrip(vl, be16(kl) + key, value + rest);
    assert(s =~= (be16(kl) + key) + be16(vl) + (value + rest));
    let kn = key.len() as int;
    let vn = value.len() as int;
    assert(s.subrange(2, 2 + kn) =~= key);
    assert(s.subrange(4 + kn, 4 + kn + vn) =~= value);
}

/// A log of records whose keys and values are shorter than 64 KiB reads back
/// as those records, in order.
pub proof fn lemma_wal_roundtrip(records: Seq<(Seq<u8>, Seq<u8>)>)
    requires
        forall|i: int|
            0 <= i < records.len() ==> (#[trigger] records[i]).0.len() < 0x1_0000 && records[i].1.len()
                < 0x1_0000,
    ensures
        wal_parse(wal_records_bytes(records)) == Some(records),
    decreases records.len(),
{
    lemma_wal_suffix(records, 0);
    assert(records.subrange(0, records.len() as int) =~= records);
}

/// The encoding of the records from `i` on.
pub open spec fn wal_records_from(records: Seq<(Seq<u8>, Seq<u8>)>, i: int) -> Seq<u8>
    decreases records.len() - i,
{
    if i >= records.len() || i < 0 {
        Seq::empty()
    } else {
        wal_record_bytes(records[i].0, records[i].1) + wal_records_from(records, i + 1)
    }
}

proof fn lemma_records_bytes_split(records: Seq<(Seq<u8>, Seq<u8>)>)
    ensures
        wal_records_bytes(records) == wal_records_from(records, 0),
    decreases records.len(),
{
    if records.len() > 0 {
        lemma_records_bytes_split(records.drop_last());
        lemma_records_from_push(records.drop_last(), records.last(), 0);
        assert(records.drop_last().push(records.last()) =~= records);
    }
}

proof fn lemma_records_from_push(records: Seq<(Seq<u8>, Seq<u8>)>, r: (Seq<u8>, Seq<u8>), i: int)
    requires
        0 <= i <= records.len(),
    ensures
        wal_records_from(records.push(r), i) == wal_records_from(records, i) + wal_record_bytes(r.0, r.1),
    decreases records.len() - i,
{
    if i < records.len() {
        lemma_records_from_push(records, r, i + 1);
        assert(records.push(r)[i] == records[i]);
        assert(wal_records_from(records.push(r), i) =~= wal_records_from(records, i) + wal_record_bytes(
            r.0,
            r.1,
        ));
    } else {
        assert(wal_records_from(records.push(r), i + 1) == Seq::<u8>::empty());
        assert(wal_records_from(records.push(r), i) =~= wal_record_bytes(r.0, r.1));
    }
}

proof fn lemma_wal_suffix(records: Seq<(Seq<u8>, Seq<u8>)>, i: int)
    requires
        0 <= i <= records.len(),
        forall|j: int|
            0 <= j < records.len() ==> (#[trigger] records[j]).0.len() < 0x1_0000 && records[j].1.len()
                < 0x1_0000,
    ensures
        wal_parse(wal_records_from(records, i)) == Some(records.subrange(i, records.len() as int)),
        i == 0 ==> wal_records_bytes(records) == wal_records_from(records, 0),
    decreases records.len() - i,
{
    if i == 0 {
        lemma_records_bytes_split(records);
    }
    if i < records.len() {
        lemma_wal_suffix(records, i + 1);
        let (k, v) = records[i];
        let rest = wal_records_from(records, i + 1);
        let s = wal_records_from(records, i);
        lemma_wal_record_roundtrip(k, v, rest);
        let n = wal_record_bytes(k, v).len() as int;
        assert(s.subrange(n, s.len() as int) =~= rest);
        assert(seq![(k, v)] + records.subrange(i + 1, records.len() as int) =~= records.subrange(
            i,
            records.len() as int,
        ));
    } else {
        assert(records.subrange(i, records.len() as int) =~= Seq::<(Seq<u8>, Seq<u8>)>::empty());
    }
}

} // verus!
