use acorn::diff::{apply_diff, generate_diff};
use acorn::id::PageId;
use acorn::wal::{encode_record, Wal, WalError, WalRecord};

#[test]
fn wal_round_trip() {
    let mut wal = Wal::init(16);
    wal.push_write(3, 1, PageId::new(2, 5), 4, &[1, 2], &[3, 4]).unwrap();
    wal.push_cancel(3, 2).unwrap();
    wal.push_commit(4, 7).unwrap();
    let loaded = Wal::load(wal.as_bytes().clone(), 16).unwrap();
    assert_eq!(loaded.last_seq(), 7);
    assert_eq!(
        loaded.iter().unwrap(),
        vec![
            WalRecord::Write {
                tid: 3,
                seq: 1,
                page_id: PageId::new(2, 5),
                start: 4,
                before: vec![1, 2],
                after: vec![3, 4],
            },
            WalRecord::Cancel { tid: 3, seq: 2 },
            WalRecord::Commit { tid: 4, seq: 7 },
        ]
    );
}

#[test]
fn wal_header_layout() {
    let wal = Wal::init(512);
    assert_eq!(wal.as_bytes(), &vec![b'A', b'C', b'N', b'L', 1, 0, 0, 2]);
    assert_eq!(Wal::load(wal.as_bytes().clone(), 1024).err(), Some(WalError::BadHeader));
    assert_eq!(Wal::load(vec![b'A', b'C'], 512).err(), Some(WalError::BadHeader));
}

#[test]
fn record_framing_and_checksum() {
    let mut out = Vec::new();
    encode_record(&WalRecord::Commit { tid: 1, seq: 2 }, &mut out);
    assert_eq!(out.len(), 4 + 1 + 16 + 4);
    assert_eq!(out[0..4], 16u32.to_le_bytes());
    assert_eq!(out[4], 2);
    assert_eq!(out[5..13], 1u64.to_le_bytes());
    assert_eq!(out[13..21], 2u64.to_le_bytes());
    let crc = crc::Crc::<u32>::new(&crc::CRC_32_ISO_HDLC).checksum(&out[0..21]);
    assert_eq!(out[21..25], crc.to_le_bytes());
    assert_ne!(out[21..25], [0, 0, 0, 0]);
}

#[test]
fn flipped_byte_is_detected() {
    let mut wal = Wal::init(16);
    wal.push_write(1, 1, PageId::new(0, 1), 0, &[0; 4], &[9; 4]).unwrap();
    wal.push_commit(1, 2).unwrap();
    let bytes = wal.as_bytes().clone();
    for i in 8..bytes.len() {
        let mut bad = bytes.clone();
        bad[i] ^= 0x40;
        assert_eq!(Wal::load(bad, 16).err(), Some(WalError::Corrupted), "byte {i}");
    }
}

#[test]
fn truncated_log_is_corrupted() {
    let mut wal = Wal::init(16);
    wal.push_commit(1, 1).unwrap();
    let mut bytes = wal.as_bytes().clone();
    bytes.pop();
    assert_eq!(Wal::load(bytes, 16).err(), Some(WalError::Corrupted));
}

#[test]
fn appends_are_checked() {
    let mut wal = Wal::init(16);
    wal.push_commit(1, 5).unwrap();
    assert_eq!(wal.push_commit(1, 5), Err(WalError::OutOfOrder));
    assert_eq!(wal.push_cancel(1, 0), Err(WalError::OutOfOrder));
    assert_eq!(wal.push_write(1, 6, PageId::new(0, 1), 0, &[0; 2], &[0; 3]), Err(WalError::BadWrite));
    assert_eq!(wal.push_write(1, 6, PageId::new(0, 1), 15, &[0; 2], &[0; 2]), Err(WalError::BadWrite));
    assert_eq!(wal.iter().unwrap().len(), 1);
}

#[test]
fn sequence_going_backwards_is_corrupted() {
    let mut a = Wal::init(16);
    a.push_commit(1, 5).unwrap();
    let mut b = Wal::init(16);
    b.push_commit(2, 3).unwrap();
    let mut bytes = a.as_bytes().clone();
    bytes.extend_from_slice(&b.as_bytes()[8..]);
    assert_eq!(Wal::load(bytes, 16).err(), Some(WalError::Corrupted));
}

#[test]
fn diff_round_trip() {
    let old = vec![1u8, 2, 3, 4, 5, 6];
    let new = vec![1u8, 9, 3, 8, 5, 6];
    let diff = generate_diff(&old, &new);
    assert_eq!(diff.start, 1);
    assert_eq!(diff.before, vec![2, 3, 4]);
    assert_eq!(diff.after, vec![9, 3, 8]);
    let mut page = old.clone();
    apply_diff(&mut page, diff.start, &diff.after);
    assert_eq!(page, new);
    apply_diff(&mut page, diff.start, &diff.before);
    assert_eq!(page, old);
}

#[test]
fn diff_of_equal_pages_is_empty() {
    let diff = generate_diff(&[4, 4, 4], &[4, 4, 4]);
    assert_eq!(diff.start, 0);
    assert!(diff.before.is_empty());
    assert!(diff.after.is_empty());
    let diff = generate_diff(&[], &[]);
    assert_eq!(diff.start, 0);
}
