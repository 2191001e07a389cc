use mini_lsm::manifest::{encode_frame, next_frame, read_frames, FrameError, FrameStep};
use mini_lsm::wal::{encode_wal_record, next_wal_record, read_wal, WalStep};

#[test]
fn wal_record_layout() {
    let r = encode_wal_record(b"key", b"value");
    assert_eq!(r, vec![0, 3, b'k', b'e', b'y', 0, 5, b'v', b'a', b'l', b'u', b'e']);
}

#[test]
fn wal_records_read_back_in_order() {
    let mut log = Vec::new();
    let records: Vec<(Vec<u8>, Vec<u8>)> = (0..20)
        .map(|i| (format!("k{}", i).into_bytes(), format!("value{}", i * i).into_bytes()))
        .collect();
    for (k, v) in &records {
        log.extend(encode_wal_record(k, v));
    }
    let mut pos = 0;
    let mut got = Vec::new();
    loop {
        match next_wal_record(&log, pos) {
            WalStep::End => break,
            WalStep::Record { key, value, next } => {
                got.push((key, value));
                pos = next;
            }
            WalStep::Truncated => panic!("log is complete"),
        }
    }
    assert_eq!(got, records);
}

#[test]
fn wal_empty_value_and_truncation() {
    let mut log = encode_wal_record(b"gone", b"");
    match next_wal_record(&log, 0) {
        WalStep::Record { key, value, next } => {
            assert_eq!(key, b"gone".to_vec());
            assert!(value.is_empty());
            assert_eq!(next, log.len());
        }
        _ => panic!("expected a record"),
    }
    log.pop();
    log.pop();
    assert!(matches!(next_wal_record(&log, 0), WalStep::Truncated));
    assert!(matches!(next_wal_record(&[0u8], 0), WalStep::Truncated));
    assert!(matches!(next_wal_record(&log, log.len()), WalStep::End));
}

#[test]
fn frame_layout_uses_crc32() {
    let f = encode_frame(b"abc");
    let crc = crc32fast::hash(b"abc");
    let mut expected = vec![0, 0, 0, 3, b'a', b'b', b'c'];
    expected.extend_from_slice(&crc.to_be_bytes());
    assert_eq!(f, expected);
    // The checksum of "abc" under CRC-32 (IEEE).
    assert_eq!(&f[7..], &0x352441c2u32.to_be_bytes());
}

#[test]
fn frame_checksum_matches_crc32_check_value() {
    // The standard check value of CRC-32 (IEEE) for "123456789".
    let f = encode_frame(b"123456789");
    assert_eq!(&f[13..], &0xCBF43926u32.to_be_bytes());
    // The empty string checksums to 0.
    assert_eq!(&encode_frame(b"")[4..], &0u32.to_be_bytes());
}

#[test]
fn frames_read_back_in_order() {
    let records = vec![b"{\"Flush\":1}".to_vec(), b"{\"NewMemtable\":2}".to_vec(), Vec::new()];
    let mut buf = Vec::new();
    for r in &records {
        buf.extend(encode_frame(r));
    }
    let mut pos = 0;
    let mut got = Vec::new();
    loop {
        match next_frame(&buf, pos) {
            FrameStep::End => break,
            FrameStep::Record { record, next } => {
                got.push(record);
                pos = next;
            }
            _ => panic!("frames are intact"),
        }
    }
    assert_eq!(got, records);
}

#[test]
fn frame_with_bad_checksum_is_reported() {
    let mut f = encode_frame(b"record");
    let n = f.len();
    f[n - 1] ^= 0xff;
    assert!(matches!(next_frame(&f, 0), FrameStep::ChecksumMismatch));
}

#[test]
fn frame_cut_short_is_truncated() {
    let f = encode_frame(b"record");
    assert!(matches!(next_frame(&f[..f.len() - 1], 0), FrameStep::Truncated));
    assert!(matches!(next_frame(&f[..3], 0), FrameStep::Truncated));
    assert!(matches!(next_frame(&f, f.len()), FrameStep::End));
}

#[test]
fn read_wal_returns_all_records() {
    let mut log = Vec::new();
    log.extend(encode_wal_record(b"a", b"1"));
    log.extend(encode_wal_record(b"b", b""));
    log.extend(encode_wal_record(b"a", b"2"));
    let records = read_wal(&log).unwrap();
    assert_eq!(
        records,
        vec![
            (b"a".to_vec(), b"1".to_vec()),
            (b"b".to_vec(), Vec::new()),
            (b"a".to_vec(), b"2".to_vec())
        ]
    );
    assert_eq!(read_wal(&[]).unwrap(), Vec::<(Vec<u8>, Vec<u8>)>::new());
    log.pop();
    assert!(read_wal(&log).is_none());
}

#[test]
fn read_frames_returns_records_up_to_the_first_fault() {
    let mut buf = Vec::new();
    buf.extend(encode_frame(b"one"));
    buf.extend(encode_frame(b"two"));
    let (records, fault) = read_frames(&buf);
    assert_eq!(records, vec![b"one".to_vec(), b"two".to_vec()]);
    assert!(fault.is_none());
    let mut bad = buf.clone();
    // Corrupt the second record: the first one still reads.
    let second = encode_frame(b"one").len() + 5;
    bad[second] ^= 1;
    let (records, fault) = read_frames(&bad);
    assert_eq!(records, vec![b"one".to_vec()]);
    assert!(matches!(fault, Some(FrameError::ChecksumMismatch)));
    let cut = &buf[..buf.len() - 2];
    let (records, fault) = read_frames(cut);
    assert_eq!(records, vec![b"one".to_vec()]);
    assert!(matches!(fault, Some(FrameError::Truncated)));
}
