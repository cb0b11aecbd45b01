use vstd::prelude::*;

use crate::bytes::{
    get_u16, get_u32, get_u64, le16, le32, le64, lemma_le32_inj, lemma_le64_inj, lemma_u16_of, lemma_u64_of, put_bytes, put_u16,
    put_u32, put_u64, u16_of, u64_of,
};
use crate::diff::copy_range;
use crate::id::PageId;

verus! {

/// The CRC-32 (ISO-HDLC) checksum of `bytes`.
pub uninterp spec fn crc32_of(bytes: Seq<u8>) -> u32;

/// Relies on `crc::Crc::<u32>::checksum` with the `CRC_32_ISO_HDLC`
/// algorithm: a checksum that depends on the bytes alone.
#[verifier::external_body]
fn crc32(bytes: &[u8]) -> (r: u32)
    ensures
        r == crc32_of(bytes@),
{
    crc::Crc::<u32>::new(&crc::CRC_32_ISO_HDLC).checksum(bytes)
}

/// Why the log could not be read or appended to.
#[derive(Debug, Clone, Copy, PartialEq, Eq, Structural)]
pub enum WalError {
    /// The file does not start with a log header for this page size.
    BadHeader,
    /// A record is truncated, fails its checksum, is malformed, or its
    /// sequence number does not exceed the one before it.
    Corrupted,
    /// An appended record's sequence number does not exceed the last one.
    OutOfOrder,
    /// An appended write's before and after images differ in length or run
    /// past the end of the page.
    BadWrite,
}

/// One entry of the write-ahead log.
#[derive(Debug, PartialEq, Eq)]
pub enum WalRecord {
    /// Transaction `tid` changed `page_id[start..start + before.len()]` from
    /// `before` to `after`.
    Write { tid: u64, seq: u64, page_id: PageId, start: u16, before: Vec<u8>, after: Vec<u8> },
    Commit { tid: u64, seq: u64 },
    Cancel { tid: u64, seq: u64 },
}

pub const WRITE_KIND: u8 = 1;

pub const COMMIT_KIND: u8 = 2;

pub const CANCEL_KIND: u8 = 3;

/// Bytes of a write payload besides the two images.
pub const WRITE_FIXED_LEN: u32 = 28;

/// Bytes of a commit or cancel payload.
pub const END_LEN: u32 = 16;

impl WalRecord {
    pub open spec fn tid(&self) -> u64 {
        match self {
            WalRecord::Write { tid, .. } => *tid,
            WalRecord::Commit { tid, .. } => *tid,
            WalRecord::Cancel { tid, .. } => *tid,
        }
    }

    pub open spec fn seq(&self) -> u64 {
        match self {
            WalRecord::Write { seq, .. } => *seq,
            WalRecord::Commit { seq, .. } => *seq,
            WalRecord::Cancel { seq, .. } => *seq,
        }
    }

    /// A nonzero sequence number, and for a write two images of equal length
    /// that lie within a page of `page_size` bytes.
    pub open spec fn well_formed(&self, page_size: nat) -> bool {
        &&& self.seq() != 0
        &&& match self {
            WalRecord::Write { start, before, after, .. } => before@.len() == after@.len() && *start
                + before@.len() <= page_size,
            _ => true,
        }
    }

    pub open spec fn kind(&self) -> u8 {
        match self {
            WalRecord::Write { .. } => WRITE_KIND,
            WalRecord::Commit { .. } => COMMIT_KIND,
            WalRecord::Cancel { .. } => CANCEL_KIND,
        }
    }

    pub open spec fn payload(&self) -> Seq<u8> {
        match self {
            WalRecord::Write { tid, seq, page_id, start, before, after } => le64(*tid) + le64(*seq) + le32(
                page_id.segment_num,
            ) + le16(page_id.page_num) + le16(0) + le16(*start) + le16(before@.len() as u16) + before@
                + after@,
            WalRecord::Commit { tid, seq } => le64(*tid) + le64(*seq),
            WalRecord::Cancel { tid, seq } => le64(*tid) + le64(*seq),
        }
    }

    /// Length prefix, kind byte and payload: the bytes the checksum covers.
    pub open spec fn body(&self) -> Seq<u8> {
        le32(self.payload().len() as u32) + seq![self.kind()] + self.payload()
    }

    /// The record as it stands in the log.
    pub open spec fn framed(&self) -> Seq<u8> {
        self.body() + le32(crc32_of(self.body()))
    }
}

/// The records one after another, as the log holds them after its header.
pub open spec fn encode_all(rs: Seq<WalRecord>) -> Seq<u8>
    decreases rs.len(),
{
    if rs.len() == 0 {
        Seq::empty()
    } else {
        encode_all(rs.drop_last()) + rs.last().framed()
    }
}

/// Every record is well formed and sequence numbers strictly increase.
pub open spec fn valid_log(rs: Seq<WalRecord>, page_size: nat) -> bool {
    &&& forall|i: int| 0 <= i < rs.len() ==> #[trigger] rs[i].well_formed(page_size)
    &&& forall|i: int, j: int| 0 <= i < j < rs.len() ==> #[trigger] rs[i].seq() < #[trigger] rs[j].seq()
}

/// The magic `ACNL`, format version 1, little-endian byte order and the page size.
pub open spec fn header(page_size: u16) -> Seq<u8> {
    seq![0x41u8, 0x43u8, 0x4eu8, 0x4cu8, 1u8, 0u8] + le16(page_size)
}

pub const HEADER_LEN: usize = 8;

/// Appends the framed bytes of `r` to `out`.
pub fn encode_record(r: &WalRecord, out: &mut Vec<u8>)
    requires
        r.well_formed(u16::MAX as nat),
    ensures
        final(out)@ == old(out)@ + r.framed(),
{
    let mut body: Vec<u8> = Vec::new();
    match r {
        WalRecord::Write { tid, seq, page_id, start, before, after } => {
            let len = before.len() as u16;
            put_u32(&mut body, WRITE_FIXED_LEN + 2 * (len as u32));
            body.push(WRITE_KIND);
            put_u64(&mut body, *tid);
            put_u64(&mut body, *seq);
            put_u32(&mut body, page_id.segment_num);
            put_u16(&mut body, page_id.page_num);
            put_u16(&mut body, 0);
            put_u16(&mut body, *start);
            put_u16(&mut body, len);
            put_bytes(&mut body, before.as_slice());
            put_bytes(&mut body, after.as_slice());
            assert(body@ =~= r.body());
        },
        WalRecord::Commit { tid, seq } => {
            put_u32(&mut body, END_LEN);
            body.push(COMMIT_KIND);
            put_u64(&mut body, *tid);
            put_u64(&mut body, *seq);
            assert(body@ =~= r.body());
        },
        WalRecord::Cancel { tid, seq } => {
            put_u32(&mut body, END_LEN);
            body.push(CANCEL_KIND);
            put_u64(&mut body, *tid);
            put_u64(&mut body, *seq);
            assert(body@ =~= r.body());
        },
    }
    let crc = crc32(body.as_slice());
    put_bytes(out, body.as_slice());
    put_u32(out, crc);
    assert(out@ =~= old(out)@ + r.framed());
}

/// `d` holds the framed bytes of `rec` from `pos` on.
pub open spec fn framed_at(d: Seq<u8>, pos: int, rec: WalRecord) -> bool {
    0 <= pos && pos + rec.framed().len() <= d.len() && d.subrange(pos, pos + rec.framed().len()) == rec.framed()
}

proof fn lemma_sub(d: Seq<u8>, pos: int, f: Seq<u8>, a: int, b: int)
    requires
        0 <= pos,
        pos + f.len() <= d.len(),
        d.subrange(pos, pos + f.len()) == f,
        0 <= a <= b <= f.len(),
    ensures
        d.subrange(pos + a, pos + b) == f.subrange(a, b),
{
    assert(d.subrange(pos + a, pos + b) =~= f.subrange(a, b)) by {
        assert forall|k: int| 0 <= k < b - a implies d.subrange(pos + a, pos + b)[k] == f.subrange(a, b)[k] by {
            assert(d.subrange(pos, pos + f.len())[a + k] == f[a + k]);
        }
    }
}

proof fn lemma_payload_facts(rec: WalRecord)
    ensures
        rec.payload().subrange(8, 16) == le64(rec.seq()),
        !(rec is Write) ==> rec.payload().len() == END_LEN,
        match rec {
            WalRecord::Write { start, before, after, .. } => rec.payload().len() == WRITE_FIXED_LEN + before@.len()
                + after@.len() && rec.payload().subrange(22, 24) == le16(0) && rec.payload().subrange(24, 26)
                == le16(start) && rec.payload().subrange(26, 28) == le16(before@.len() as u16),
            _ => true,
        },
{
    match rec {
        WalRecord::Write { tid, seq, page_id, start, before, after } => {
            assert(rec.payload().subrange(8, 16) =~= le64(seq));
            assert(rec.payload().subrange(22, 24) =~= le16(0));
            assert(rec.payload().subrange(24, 26) =~= le16(start));
            assert(rec.payload().subrange(26, 28) =~= le16(before@.len() as u16));
        },
        WalRecord::Commit { tid, seq } => {
            assert(rec.payload().subrange(8, 16) =~= le64(seq));
        },
        WalRecord::Cancel { tid, seq } => {
            assert(rec.payload().subrange(8, 16) =~= le64(seq));
        },
    }
}

proof fn lemma_frame_layout(rec: WalRecord)
    ensures
        rec.framed().len() == rec.payload().len() + 9,
        rec.framed().subrange(0, 4) == le32(rec.payload().len() as u32),
        rec.framed()[4] == rec.kind(),
        rec.framed().subrange(0, 5 + rec.payload().len() as int) == rec.body(),
        rec.framed().subrange(5 + rec.payload().len() as int, 9 + rec.payload().len() as int) == le32(
            crc32_of(rec.body()),
        ),
        rec.payload().len() >= 16 ==> rec.framed().subrange(13, 21) == rec.payload().subrange(8, 16),
        rec.payload().len() >= 28 ==> rec.framed().subrange(27, 29) == rec.payload().subrange(22, 24)
            && rec.framed().subrange(29, 31) == rec.payload().subrange(24, 26) && rec.framed().subrange(31, 33)
            == rec.payload().subrange(26, 28),
{
    let f = rec.framed();
    let l = rec.payload().len() as int;
    assert(f.subrange(0, 4) =~= le32(l as u32));
    assert(f.subrange(0, 5 + l) =~= rec.body());
    assert(f.subrange(5 + l, 9 + l) =~= le32(crc32_of(rec.body())));
    if l >= 16 {
        assert(f.subrange(13, 21) =~= rec.payload().subrange(8, 16));
    }
    if l >= 28 {
        assert(f.subrange(27, 29) =~= rec.payload().subrange(22, 24));
        assert(f.subrange(29, 31) =~= rec.payload().subrange(24, 26));
        assert(f.subrange(31, 33) =~= rec.payload().subrange(26, 28));
    }
}

proof fn lemma_framed_facts(rec: WalRecord, d: Seq<u8>, pos: int, page_size: nat)
    requires
        rec.well_formed(page_size),
        page_size <= u16::MAX,
        framed_at(d, pos, rec),
    ensures
        rec.payload().len() < 0x1_0000_0000,
        rec.framed().len() == rec.payload().len() + 9,
        d.subrange(pos, pos + 4) == le32(rec.payload().len() as u32),
        d[pos + 4] == rec.kind(),
        d.subrange(pos, pos + 5 + rec.payload().len()) == rec.body(),
        d.subrange(pos + 5 + rec.payload().len(), pos + 9 + rec.payload().len()) == le32(crc32_of(rec.body())),
        d.subrange(pos + 13, pos + 21) == le64(rec.seq()),
        rec is Write <==> rec.kind() == WRITE_KIND,
        rec is Commit <==> rec.kind() == COMMIT_KIND,
        rec is Cancel <==> rec.kind() == CANCEL_KIND,
        !(rec is Write) ==> rec.payload().len() == END_LEN,
        match rec {
            WalRecord::Write { start, before, .. } => rec.payload().len() == WRITE_FIXED_LEN + 2 * before@.len()
                && before@.len() <= u16::MAX && d.subrange(pos + 27, pos + 29) == le16(0) && d.subrange(
                pos + 29,
                pos + 31,
            ) == le16(start) && d.subrange(pos + 31, pos + 33) == le16(before@.len() as u16),
            _ => true,
        },
{
    let f = rec.framed();
    let l = rec.payload().len() as int;
    lemma_payload_facts(rec);
    lemma_frame_layout(rec);
    lemma_sub(d, pos, f, 0, 4);
    lemma_sub(d, pos, f, 0, 5 + l);
    lemma_sub(d, pos, f, 5 + l, 9 + l);
    lemma_sub(d, pos, f, 13, 21);
    assert(d.subrange(pos, pos + f.len())[4] == f[4]);
    if rec is Write {
        lemma_sub(d, pos, f, 27, 29);
        lemma_sub(d, pos, f, 29, 31);
        lemma_sub(d, pos, f, 31, 33);
    }
}

/// The payload of a write record, which fills `data[p..p + len]`.
fn decode_write(data: &[u8], p: usize, len32: u32, page_size: u16) -> (r: Result<WalRecord, WalError>)
    requires
        p + len32 <= data@.len(),
        len32 >= WRITE_FIXED_LEN,
    ensures
        r matches Ok(rec) ==> rec is Write && rec.well_formed(page_size as nat) && rec.payload() == data@.subrange(
            p as int,
            p + len32,
        ),
        r matches Err(e) ==> e == WalError::Corrupted,
        r is Err ==> u64_of(data@.subrange(p + 8, p + 16)) == 0 || data@.subrange(p + 22, p + 24) != le16(0)
            || len32 != WRITE_FIXED_LEN + 2 * u16_of(data@.subrange(p + 26, p + 28)) || u16_of(
            data@.subrange(p + 24, p + 26),
        ) + u16_of(data@.subrange(p + 26, p + 28)) > page_size,
{
    let n = data.len();
    let tid = get_u64(data, p);
    let seq = get_u64(data, p + 8);
    let segment_num = get_u32(data, p + 16);
    let page_num = get_u16(data, p + 20);
    let pad = get_u16(data, p + 22);
    let start = get_u16(data, p + 24);
    let dlen = get_u16(data, p + 26);
    proof {
        lemma_u64_of(seq);
        lemma_u16_of(start);
        lemma_u16_of(dlen);
        lemma_u16_of(pad);
        lemma_u16_of(0);
    }
    if seq == 0 || pad != 0 || len32 != WRITE_FIXED_LEN + 2 * (dlen as u32) {
        return Err(WalError::Corrupted);
    }
    if start as usize + dlen as usize > page_size as usize {
        return Err(WalError::Corrupted);
    }
    let b0 = p + 28;
    let b1 = b0 + dlen as usize;
    let end = p + len32 as usize;
    let before = copy_range(data, b0, b1);
    let after = copy_range(data, b1, end);
    let ghost fixed = le64(tid) + le64(seq) + le32(segment_num) + le16(page_num) + le16(0) + le16(start) + le16(
        dlen,
    );
    assert(data@.subrange(p as int, b0 as int) =~= fixed);
    assert(data@.subrange(p as int, end as int) =~= data@.subrange(p as int, b0 as int) + before@ + after@);
    let rec = WalRecord::Write { tid, seq, page_id: PageId { segment_num, page_num }, start, before, after };
    assert(rec.payload() =~= fixed + before@ + after@);
    Ok(rec)
}

/// The payload of a commit or cancel record, which fills `data[p..p + 16]`.
fn decode_end(data: &[u8], p: usize, commit: bool) -> (r: Result<WalRecord, WalError>)
    requires
        p + END_LEN <= data@.len(),
    ensures
        r matches Ok(rec) ==> (if commit {
            rec is Commit
        } else {
            rec is Cancel
        }) && rec.well_formed(0) && rec.payload() == data@.subrange(p as int, p + END_LEN),
        r matches Err(e) ==> e == WalError::Corrupted,
        r is Err ==> u64_of(data@.subrange(p + 8, p + 16)) == 0,
{
    let n = data.len();
    let tid = get_u64(data, p);
    let seq = get_u64(data, p + 8);
    proof {
        lemma_u64_of(seq);
    }
    if seq == 0 {
        return Err(WalError::Corrupted);
    }
    let rec = if commit {
        WalRecord::Commit { tid, seq }
    } else {
        WalRecord::Cancel { tid, seq }
    };
    assert(data@.subrange(p as int, p + END_LEN) =~= rec.payload());
    Ok(rec)
}

/// Reads the record that starts at `pos` in `data`; on success returns it and
/// the position just after it.
pub fn decode_record(data: &[u8], pos: usize, page_size: u16) -> (r: Result<(WalRecord, usize), WalError>)
    requires
        pos <= data@.len(),
    ensures
        r matches Ok((rec, next)) ==> pos < next <= data@.len() && rec.well_formed(page_size as nat)
            && data@.subrange(pos as int, next as int) == rec.framed(),
        r matches Err(e) ==> e == WalError::Corrupted,
        forall|other: WalRecord|
            other.well_formed(page_size as nat) && #[trigger] framed_at(data@, pos as int, other) ==> (r matches Ok(
                (rec, next),
            ) && next == pos + other.framed().len() && rec.seq() == other.seq()),
{
    let n = data.len();
    if n - pos < 9 {
        proof {
            assert forall|other: WalRecord|
                other.well_formed(page_size as nat) && #[trigger] framed_at(data@, pos as int, other) implies false by {
                lemma_framed_facts(other, data@, pos as int, page_size as nat);
            }
        }
        return Err(WalError::Corrupted);
    }
    let len32 = get_u32(data, pos);
    let len = len32 as usize;
    if n - pos - 9 < len {
        proof {
            assert forall|other: WalRecord|
                other.well_formed(page_size as nat) && #[trigger] framed_at(data@, pos as int, other) implies false by {
                lemma_framed_facts(other, data@, pos as int, page_size as nat);
                lemma_le32_inj(len32, other.payload().len() as u32);
            }
        }
        return Err(WalError::Corrupted);
    }
    let kind = data[pos + 4];
    let p = pos + 5;
    let end = p + len;
    let res = if kind == COMMIT_KIND || kind == CANCEL_KIND {
        if len32 != END_LEN {
            proof {
                assert forall|other: WalRecord|
                    other.well_formed(page_size as nat) && #[trigger] framed_at(data@, pos as int, other) implies false by {
                    lemma_framed_facts(other, data@, pos as int, page_size as nat);
                    lemma_le32_inj(len32, other.payload().len() as u32);
                }
            }
            return Err(WalError::Corrupted);
        }
        decode_end(data, p, kind == COMMIT_KIND)
    } else if kind == WRITE_KIND {
        if len32 < WRITE_FIXED_LEN {
            proof {
                assert forall|other: WalRecord|
                    other.well_formed(page_size as nat) && #[trigger] framed_at(data@, pos as int, other) implies false by {
                    lemma_framed_facts(other, data@, pos as int, page_size as nat);
                    lemma_le32_inj(len32, other.payload().len() as u32);
                }
            }
            return Err(WalError::Corrupted);
        }
        decode_write(data, p, len32, page_size)
    } else {
        proof {
            assert forall|other: WalRecord|
                other.well_formed(page_size as nat) && #[trigger] framed_at(data@, pos as int, other) implies false by {
                lemma_framed_facts(other, data@, pos as int, page_size as nat);
            }
        }
        return Err(WalError::Corrupted);
    };
    let rec = match res {
        Ok(rec) => rec,
        Err(e) => {
            proof {
                assert forall|other: WalRecord|
                    other.well_formed(page_size as nat) && #[trigger] framed_at(data@, pos as int, other) implies false by {
                    lemma_framed_facts(other, data@, pos as int, page_size as nat);
                    lemma_le32_inj(len32, other.payload().len() as u32);
                    lemma_u64_of(other.seq());
                    assert(data@.subrange(p + 8, p + 16) == data@.subrange(pos + 13, pos + 21));
                    match other {
                        WalRecord::Write { start, before, .. } => {
                            lemma_u16_of(start);
                            lemma_u16_of(before@.len() as u16);
                            assert(data@.subrange(p + 22, p + 24) == data@.subrange(pos + 27, pos + 29));
                            assert(data@.subrange(p + 24, p + 26) == data@.subrange(pos + 29, pos + 31));
                            assert(data@.subrange(p + 26, p + 28) == data@.subrange(pos + 31, pos + 33));
                        },
                        _ => {},
                    }
                }
            }
            return Err(e);
        },
    };
    assert(rec.kind() == kind);
    assert(rec.payload().len() == len);
    assert(data@.subrange(pos as int, end as int) =~= data@.subrange(pos as int, pos + 4) + seq![kind]
        + data@.subrange(p as int, end as int));
    assert(data@.subrange(pos as int, end as int) =~= rec.body());
    let stored = get_u32(data, end);
    let crc = crc32(&data[pos..end]);
    if crc != stored {
        proof {
            assert forall|other: WalRecord|
                other.well_formed(page_size as nat) && #[trigger] framed_at(data@, pos as int, other) implies false by {
                lemma_framed_facts(other, data@, pos as int, page_size as nat);
                lemma_le32_inj(len32, other.payload().len() as u32);
                lemma_le32_inj(stored, crc32_of(other.body()));
            }
        }
        return Err(WalError::Corrupted);
    }
    assert(data@.subrange(pos as int, end + 4) =~= rec.framed());
    proof {
        assert forall|other: WalRecord|
            other.well_formed(page_size as nat) && #[trigger] framed_at(data@, pos as int, other) implies end + 4
            == pos + other.framed().len() && rec.seq() == other.seq() by {
            lemma_framed_facts(other, data@, pos as int, page_size as nat);
            lemma_le32_inj(len32, other.payload().len() as u32);
            assert(framed_at(data@, pos as int, rec));
            lemma_framed_facts(rec, data@, pos as int, page_size as nat);
            lemma_le64_inj(rec.seq(), other.seq());
        }
    }
    Ok((rec, end + 4))
}

impl WalRecord {
    pub fn tid_of(&self) -> (r: u64)
        ensures
            r == self.tid(),
    {
        match self {
            WalRecord::Write { tid, .. } => *tid,
            WalRecord::Commit { tid, .. } => *tid,
            WalRecord::Cancel { tid, .. } => *tid,
        }
    }

    pub fn seq_of(&self) -> (r: u64)
        ensures
            r == self.seq(),
    {
        match self {
            WalRecord::Write { seq, .. } => *seq,
            WalRecord::Commit { seq, .. } => *seq,
            WalRecord::Cancel { seq, .. } => *seq,
        }
    }
}

proof fn lemma_encode_push(rs: Seq<WalRecord>, r: WalRecord)
    ensures
        encode_all(rs.push(r)) == encode_all(rs) + r.framed(),
{
    assert(rs.push(r).drop_last() =~= rs);
}

proof fn lemma_encode_front(rs: Seq<WalRecord>)
    requires
        rs.len() > 0,
    ensures
        encode_all(rs) == rs[0].framed() + encode_all(rs.drop_first()),
    decreases rs.len(),
{
    if rs.len() == 1 {
        assert(rs.drop_last() =~= Seq::<WalRecord>::empty());
        assert(rs.drop_first() =~= Seq::<WalRecord>::empty());
        assert(encode_all(rs) =~= rs[0].framed() + encode_all(rs.drop_first()));
    } else {
        lemma_encode_front(rs.drop_last());
        assert(rs.drop_first().drop_last() =~= rs.drop_last().drop_first());
        assert(rs.drop_first().last() == rs.last());
        assert(rs.drop_last()[0] == rs[0]);
        assert(encode_all(rs) =~= rs[0].framed() + encode_all(rs.drop_first()));
    }
}

proof fn lemma_framed_tid(rec: WalRecord, d: Seq<u8>, pos: int)
    requires
        framed_at(d, pos, rec),
    ensures
        d.subrange(pos + 5, pos + 13) == le64(rec.tid()),
{
    let f = rec.framed();
    assert(f.subrange(5, 13) =~= rec.payload().subrange(0, 8));
    match rec {
        WalRecord::Write { tid, .. } => {
            assert(rec.payload().subrange(0, 8) =~= le64(tid));
        },
        WalRecord::Commit { tid, .. } => {
            assert(rec.payload().subrange(0, 8) =~= le64(tid));
        },
        WalRecord::Cancel { tid, .. } => {
            assert(rec.payload().subrange(0, 8) =~= le64(tid));
        },
    }
    lemma_sub(d, pos, f, 5, 13);
}

/// Two valid logs with the same encoding agree, record by record, on
/// transaction ids, sequence numbers and kinds.
#[verifier::rlimit(50)]
pub proof fn lemma_encode_unique(v: Seq<WalRecord>, w: Seq<WalRecord>, page_size: nat)
    requires
        page_size <= u16::MAX,
        valid_log(v, page_size),
        valid_log(w, page_size),
        encode_all(v) == encode_all(w),
    ensures
        v.len() == w.len(),
        forall|i: int|
            0 <= i < v.len() ==> #[trigger] v[i].tid() == w[i].tid() && v[i].seq() == w[i].seq() && (v[i] is Write
                <==> w[i] is Write),
    decreases v.len(),
{
    if v.len() > 0 {
        lemma_encode_front(v);
        lemma_frame_layout(v[0]);
    }
    if w.len() > 0 {
        lemma_encode_front(w);
        lemma_frame_layout(w[0]);
    }
    if v.len() > 0 && w.len() > 0 {
        let d = encode_all(v);
        let fv = v[0].framed();
        let fw = w[0].framed();
        assert((fv + encode_all(v.drop_first())).subrange(0, fv.len() as int) =~= fv);
        assert((fw + encode_all(w.drop_first())).subrange(0, fw.len() as int) =~= fw);
        assert(v[0].well_formed(page_size));
        assert(w[0].well_formed(page_size));
        assert(framed_at(d, 0, v[0]));
        assert(framed_at(d, 0, w[0]));
        lemma_framed_facts(v[0], d, 0, page_size);
        lemma_framed_facts(w[0], d, 0, page_size);
        lemma_framed_tid(v[0], d, 0);
        lemma_framed_tid(w[0], d, 0);
        lemma_le32_inj(v[0].payload().len() as u32, w[0].payload().len() as u32);
        lemma_le64_inj(v[0].tid(), w[0].tid());
        lemma_le64_inj(v[0].seq(), w[0].seq());
        assert(encode_all(v.drop_first()) =~= d.subrange(fv.len() as int, d.len() as int));
        assert(encode_all(w.drop_first()) =~= d.subrange(fw.len() as int, d.len() as int));
        let vt = v.drop_first();
        let wt = w.drop_first();
        assert forall|i: int, j: int| 0 <= i < j < vt.len() implies #[trigger] vt[i].seq() < #[trigger] vt[j].seq() by {
            assert(v[i + 1].seq() < v[j + 1].seq());
        }
        assert forall|i: int| 0 <= i < vt.len() implies #[trigger] vt[i].well_formed(page_size) by {
            assert(v[i + 1].well_formed(page_size));
        }
        assert forall|i: int, j: int| 0 <= i < j < wt.len() implies #[trigger] wt[i].seq() < #[trigger] wt[j].seq() by {
            assert(w[i + 1].seq() < w[j + 1].seq());
        }
        assert forall|i: int| 0 <= i < wt.len() implies #[trigger] wt[i].well_formed(page_size) by {
            assert(w[i + 1].well_formed(page_size));
        }
        lemma_encode_unique(vt, wt, page_size);
        assert forall|i: int| 0 <= i < v.len() implies #[trigger] v[i].tid() == w[i].tid() && v[i].seq() == w[i].seq()
            && (v[i] is Write <==> w[i] is Write) by {
            if i > 0 {
                assert(vt[i - 1] == v[i] && wt[i - 1] == w[i]);
            }
        }
    }
}

/// `data` holds, from `pos` to its end, the encoding of a valid log.
pub open spec fn holds_valid_log(data: Seq<u8>, pos: int, page_size: nat) -> bool {
    exists|rs: Seq<WalRecord>| valid_log(rs, page_size) && #[trigger] encode_all(rs) == data.subrange(pos, data.len() as int)
}

/// Reads every record of `data` from `pos` to its end, in order. Succeeds
/// exactly when those bytes are the encoding of a valid log for `page_size`;
/// fails where a record is truncated, fails its checksum or is malformed, or
/// where sequence numbers do not strictly increase.
///
/// Gaps between sequence numbers are accepted. The log format only asks
/// that they increase: a log may start after a truncated prefix, and the
/// push methods take the number from their caller. Density is kept by the
/// transaction manager, which always appends under the last number plus one.
pub fn decode_records(data: &[u8], pos: usize, page_size: u16) -> (r: Result<Vec<WalRecord>, WalError>)
    requires
        pos <= data@.len(),
    ensures
        r matches Ok(v) ==> data@.subrange(pos as int, data@.len() as int) == encode_all(v@) && valid_log(
            v@,
            page_size as nat,
        ),
        r matches Err(e) ==> e == WalError::Corrupted,
        r is Ok <==> holds_valid_log(data@, pos as int, page_size as nat),
{
    let ghost owed = holds_valid_log(data@, pos as int, page_size as nat);
    let ghost mut rest: Seq<WalRecord> = if owed {
        choose|rs: Seq<WalRecord>| valid_log(rs, page_size as nat) && #[trigger] encode_all(rs) == data@.subrange(
            pos as int,
            data@.len() as int,
        )
    } else {
        Seq::empty()
    };
    proof {
        if owed {
            assert forall|i: int| 0 <= i < rest.len() implies #[trigger] rest[i].seq() > 0 by {
                assert(rest[i].well_formed(page_size as nat));
            }
        }
    }
    let mut out: Vec<WalRecord> = Vec::new();
    let mut at: usize = pos;
    let mut last: u64 = 0;
    while at < data.len()
        invariant
            pos <= at <= data@.len(),
            data@.subrange(pos as int, at as int) == encode_all(out@),
            valid_log(out@, page_size as nat),
            forall|i: int| 0 <= i < out@.len() ==> #[trigger] out@[i].seq() <= last,
            owed == holds_valid_log(data@, pos as int, page_size as nat),
            owed ==> valid_log(rest, page_size as nat) && encode_all(rest) == data@.subrange(
                at as int,
                data@.len() as int,
            ) && forall|i: int| 0 <= i < rest.len() ==> #[trigger] rest[i].seq() > last,
        decreases data@.len() - at,
    {
        proof {
            if owed {
                if rest.len() == 0 {
                    assert(data@.subrange(at as int, data@.len() as int).len() == 0);
                }
                lemma_encode_front(rest);
                let f = rest[0].framed();
                assert((f + encode_all(rest.drop_first())).subrange(0, f.len() as int) =~= f);
                assert(data@.subrange(at as int, at + f.len()) =~= data@.subrange(at as int, data@.len() as int).subrange(
                    0,
                    f.len() as int,
                ));
                assert(framed_at(data@, at as int, rest[0]));
                assert(rest[0].well_formed(page_size as nat));
            }
        }
        let (rec, next) = match decode_record(data, at, page_size) {
            Ok(x) => x,
            Err(e) => {
                return Err(e);
            },
        };
        let seq = rec.seq_of();
        if seq <= last {
            return Err(WalError::Corrupted);
        }
        let ghost prev = out@;
        proof {
            lemma_encode_push(prev, rec);
            assert(data@.subrange(pos as int, next as int) =~= data@.subrange(pos as int, at as int)
                + data@.subrange(at as int, next as int));
            if owed {
                let r0 = rest[0];
                let tail = rest.drop_first();
                assert(data@.subrange(next as int, data@.len() as int) =~= data@.subrange(at as int, data@.len() as int).subrange(
                    r0.framed().len() as int,
                    data@.len() - at,
                ));
                assert forall|i: int, j: int| 0 <= i < j < tail.len() implies #[trigger] tail[i].seq() < #[trigger] tail[j].seq() by {
                    assert(rest[i + 1].seq() < rest[j + 1].seq());
                }
                assert forall|i: int| 0 <= i < tail.len() implies #[trigger] tail[i].well_formed(page_size as nat) by {
                    assert(rest[i + 1].well_formed(page_size as nat));
                }
                assert forall|i: int| 0 <= i < tail.len() implies #[trigger] tail[i].seq() > seq by {
                    assert(rest[0].seq() < rest[i + 1].seq());
                }
                rest = tail;
            }
        }
        out.push(rec);
        assert(out@ == prev.push(rec));
        assert forall|i: int, j: int| 0 <= i < j < out@.len() implies #[trigger] out@[i].seq() < #[trigger] out@[j].seq() by {
            if j < prev.len() {
                assert(prev[i].seq() < prev[j].seq());
            }
        }
        last = seq;
        at = next;
    }
    proof {
        assert(data@.subrange(pos as int, data@.len() as int) == encode_all(out@));
    }
    Ok(out)
}

/// The write-ahead log: a header followed by framed records, held in memory.
/// `flush` marks everything appended so far as durable; the bytes themselves
/// are persisted by whoever owns the file.
pub struct Wal {
    page_size: u16,
    data: Vec<u8>,
    synced: usize,
    last_seq: u64,
    records: Ghost<Seq<WalRecord>>,
}

impl Wal {
    pub closed spec fn wf(&self) -> bool {
        &&& self.data@ == header(self.page_size) + encode_all(self.records@)
        &&& valid_log(self.records@, self.page_size as nat)
        &&& self.synced <= self.data@.len()
        &&& forall|i: int| 0 <= i < self.records@.len() ==> #[trigger] self.records@[i].seq() <= self.last_seq
        &&& self.records@.len() > 0 ==> self.last_seq == self.records@.last().seq()
    }

    /// The records appended so far, in order.
    pub closed spec fn records(&self) -> Seq<WalRecord> {
        self.records@
    }

    /// The bytes of the log.
    pub closed spec fn bytes(&self) -> Seq<u8> {
        self.data@
    }

    /// The prefix of the log that has been flushed.
    pub closed spec fn durable(&self) -> Seq<u8> {
        self.data@.subrange(0, self.synced as int)
    }

    pub closed spec fn spec_page_size(&self) -> u16 {
        self.page_size
    }

    /// The greatest sequence number in the log, or 0 when it is empty.
    pub closed spec fn spec_last_seq(&self) -> u64 {
        self.last_seq
    }

    /// A fresh log holding only its header.
    pub fn init(page_size: u16) -> (r: Wal)
        ensures
            r.wf(),
            r.records().len() == 0,
            r.spec_page_size() == page_size,
            r.spec_last_seq() == 0,
            r.bytes() == header(page_size),
            r.durable() == r.bytes(),
    {
        let mut data: Vec<u8> = Vec::new();
        data.push(0x41u8);
        data.push(0x43u8);
        data.push(0x4eu8);
        data.push(0x4cu8);
        data.push(1u8);
        data.push(0u8);
        put_u16(&mut data, page_size);
        assert(data@ =~= header(page_size) + encode_all(Seq::<WalRecord>::empty()));
        let synced = data.len();
        assert(data@.subrange(0, synced as int) =~= data@);
        Wal { page_size, data, synced, last_seq: 0, records: Ghost(Seq::empty()) }
    }

    /// Opens the log held in `data`, which must start with a header for
    /// `page_size` and continue with valid records.
    pub fn load(data: Vec<u8>, page_size: u16) -> (r: Result<Wal, WalError>)
        ensures
            r matches Ok(w) ==> w.wf() && w.bytes() == data@ && w.durable() == data@ && w.spec_page_size()
                == page_size,
            r matches Err(e) ==> e == WalError::BadHeader || e == WalError::Corrupted,
            (r == Err::<Wal, WalError>(WalError::BadHeader)) <==> !(data@.len() >= HEADER_LEN
                && data@.subrange(0, HEADER_LEN as int) == header(page_size)),
            r is Ok <==> (data@.len() >= HEADER_LEN && data@.subrange(0, HEADER_LEN as int) == header(page_size)
                && holds_valid_log(data@, HEADER_LEN as int, page_size as nat)),
    {
        let ghost hdr = header(page_size);
        if data.len() < HEADER_LEN || data[0] != 0x41u8 || data[1] != 0x43u8 || data[2] != 0x4eu8 || data[3]
            != 0x4cu8 || data[4] != 1u8 || data[5] != 0u8 {
            proof {
                if data@.len() >= HEADER_LEN && data@.subrange(0, HEADER_LEN as int) == hdr {
                    assert(data@[0] == data@.subrange(0, HEADER_LEN as int)[0]);
                    assert(data@[1] == data@.subrange(0, HEADER_LEN as int)[1]);
                    assert(data@[2] == data@.subrange(0, HEADER_LEN as int)[2]);
                    assert(data@[3] == data@.subrange(0, HEADER_LEN as int)[3]);
                    assert(data@[4] == data@.subrange(0, HEADER_LEN as int)[4]);
                    assert(data@[5] == data@.subrange(0, HEADER_LEN as int)[5]);
                }
            }
            return Err(WalError::BadHeader);
        }
        let ps = get_u16(data.as_slice(), 6);
        if ps != page_size {
            proof {
                if data@.subrange(0, HEADER_LEN as int) == hdr {
                    assert(data@.subrange(6, 8) =~= data@.subrange(0, HEADER_LEN as int).subrange(6, 8));
                    assert(hdr.subrange(6, 8) =~= le16(page_size));
                    assert(le16(ps) == le16(page_size));
                    assert(ps as u8 == page_size as u8 && (ps >> 8u16) as u8 == (page_size >> 8u16) as u8
                        ==> ps == page_size) by (bit_vector);
                }
            }
            return Err(WalError::BadHeader);
        }
        assert(data@.subrange(0, HEADER_LEN as int) =~= hdr);
        let recs = decode_records(data.as_slice(), HEADER_LEN, page_size);
        let v = match recs {
            Ok(v) => v,
            Err(e) => {
                return Err(e);
            },
        };
        let n = v.len();
        let last_seq = if n == 0 {
            0
        } else {
            v[n - 1].seq_of()
        };
        proof {
            assert(data@ =~= data@.subrange(0, HEADER_LEN as int) + data@.subrange(HEADER_LEN as int, data@.len() as int));
            assert forall|i: int| 0 <= i < v@.len() implies #[trigger] v@[i].seq() <= last_seq by {
                if i < n - 1 {
                    assert(v@[i].seq() < v@[n - 1].seq());
                }
            }
        }
        let synced = data.len();
        assert(data@.subrange(0, synced as int) =~= data@);
        Ok(Wal { page_size, data, synced, last_seq, records: Ghost(v@) })
    }

    /// Reads every record from the start of the log. The records returned
    /// encode to exactly the log's bytes after its header.
    pub fn iter(&self) -> (r: Result<Vec<WalRecord>, WalError>)
        requires
            self.wf(),
        ensures
            r matches Ok(v) ==> encode_all(v@) == encode_all(self.records()) && valid_log(
                v@,
                self.spec_page_size() as nat,
            ),
            r is Ok,
    {
        proof {
            assert(self.data@.subrange(HEADER_LEN as int, self.data@.len() as int) =~= encode_all(self.records@));
            assert(valid_log(self.records@, self.page_size as nat) && encode_all(self.records@) == self.data@.subrange(
                HEADER_LEN as int,
                self.data@.len() as int,
            ));
        }
        decode_records(self.data.as_slice(), HEADER_LEN, self.page_size)
    }

    /// The bytes of the log, header included.
    pub fn as_bytes(&self) -> (r: &Vec<u8>)
        ensures
            r@ == self.bytes(),
    {
        &self.data
    }

    pub fn page_size(&self) -> (r: u16)
        ensures
            r == self.spec_page_size(),
    {
        self.page_size
    }

    pub fn last_seq(&self) -> (r: u64)
        ensures
            r == self.spec_last_seq(),
    {
        self.last_seq
    }

    /// Marks everything appended so far as durable.
    pub fn flush(&mut self)
        requires
            old(self).wf(),
        ensures
            final(self).wf(),
            final(self).records() == old(self).records(),
            final(self).bytes() == old(self).bytes(),
            final(self).spec_page_size() == old(self).spec_page_size(),
            final(self).spec_last_seq() == old(self).spec_last_seq(),
            final(self).durable() == final(self).bytes(),
    {
        self.synced = self.data.len();
        assert(self.data@.subrange(0, self.synced as int) =~= self.data@);
    }

    fn append(&mut self, rec: WalRecord)
        requires
            old(self).wf(),
            rec.well_formed(old(self).page_size as nat),
            rec.seq() > old(self).last_seq,
        ensures
            final(self).wf(),
            final(self).records() == old(self).records().push(rec),
            final(self).bytes() == old(self).bytes() + rec.framed(),
            final(self).durable() == old(self).durable(),
            final(self).spec_page_size() == old(self).spec_page_size(),
            final(self).spec_last_seq() == rec.seq(),
    {
        let seq = rec.seq_of();
        let ghost old_records = self.records@;
        encode_record(&rec, &mut self.data);
        proof {
            lemma_encode_push(old_records, rec);
            self.records@ = old_records.push(rec);
            assert(self.data@ =~= header(self.page_size) + encode_all(self.records@));
            assert(self.data@.subrange(0, self.synced as int) =~= old(self).data@.subrange(0, self.synced as int));
            assert forall|i: int, j: int| 0 <= i < j < self.records@.len() implies #[trigger] self.records@[i].seq() < #[trigger] self.records@[j].seq() by {
                if j < old_records.len() {
                    assert(old_records[i].seq() < old_records[j].seq());
                } else {
                    assert(old_records[i].seq() <= old(self).last_seq);
                }
            }
            assert forall|i: int| 0 <= i < self.records@.len() implies #[trigger] self.records@[i].well_formed(self.page_size as nat) by {
                if i < old_records.len() {
                    assert(old_records[i].well_formed(self.page_size as nat));
                }
            }
            assert forall|i: int| 0 <= i < self.records@.len() implies #[trigger] self.records@[i].seq() <= seq by {
                if i < old_records.len() {
                    assert(old_records[i].seq() <= old(self).last_seq);
                }
            }
        }
        self.last_seq = seq;
    }

    /// Appends a write record. Nothing is durable until `flush`.
    pub fn push_write(
        &mut self,
        tid: u64,
        seq: u64,
        page_id: PageId,
        start: u16,
        before: &[u8],
        after: &[u8],
    ) -> (r: Result<(), WalError>)
        requires
            old(self).wf(),
        ensures
            final(self).wf(),
            final(self).spec_page_size() == old(self).spec_page_size(),
            final(self).durable() == old(self).durable(),
            (r == Err::<(), WalError>(WalError::OutOfOrder)) <==> seq <= old(self).spec_last_seq(),
            (r == Err::<(), WalError>(WalError::BadWrite)) <==> (seq > old(self).spec_last_seq() && !(
            before@.len() == after@.len() && start + before@.len() <= old(self).spec_page_size())),
            r matches Err(e) ==> e == WalError::OutOfOrder || e == WalError::BadWrite,
            r is Err ==> *final(self) == *old(self),
            r is Ok ==> final(self).spec_last_seq() == seq && final(self).records().len() == old(self).records().len()
                + 1 && final(self).records().drop_last() == old(self).records() && match final(self).records().last() {
                WalRecord::Write { tid: t, seq: s, page_id: p, start: st, before: b, after: a } => t == tid && s
                    == seq && p == page_id && st == start && b@ == before@ && a@ == after@,
                _ => false,
            },
    {
        if seq <= self.last_seq {
            return Err(WalError::OutOfOrder);
        }
        if before.len() != after.len() || before.len() > self.page_size as usize || start as usize > self.page_size as usize - before.len() {
            return Err(WalError::BadWrite);
        }
        let b = copy_range(before, 0, before.len());
        let a = copy_range(after, 0, after.len());
        assert(b@ =~= before@);
        assert(a@ =~= after@);
        let ghost prev = self.records@;
        self.append(WalRecord::Write { tid, seq, page_id, start, before: b, after: a });
        assert(self.records@.drop_last() =~= prev);
        Ok(())
    }

    /// Appends a commit record for `tid`. Nothing is durable until `flush`.
    pub fn push_commit(&mut self, tid: u64, seq: u64) -> (r: Result<(), WalError>)
        requires
            old(self).wf(),
        ensures
            final(self).wf(),
            final(self).spec_page_size() == old(self).spec_page_size(),
            final(self).durable() == old(self).durable(),
            (r == Err::<(), WalError>(WalError::OutOfOrder)) <==> seq <= old(self).spec_last_seq(),
            r matches Err(e) ==> e == WalError::OutOfOrder,
            r is Err ==> *final(self) == *old(self),
            r is Ok ==> final(self).spec_last_seq() == seq && final(self).records() == old(self).records().push(
                WalRecord::Commit { tid, seq },
            ),
    {
        if seq <= self.last_seq {
            return Err(WalError::OutOfOrder);
        }
        self.append(WalRecord::Commit { tid, seq });
        Ok(())
    }

    /// Appends a cancel record for `tid`. Nothing is durable until `flush`.
    pub fn push_cancel(&mut self, tid: u64, seq: u64) -> (r: Result<(), WalError>)
        requires
            old(self).wf(),
        ensures
            final(self).wf(),
            final(self).spec_page_size() == old(self).spec_page_size(),
            final(self).durable() == old(self).durable(),
            (r == Err::<(), WalError>(WalError::OutOfOrder)) <==> seq <= old(self).spec_last_seq(),
            r matches Err(e) ==> e == WalError::OutOfOrder,
            r is Err ==> *final(self) == *old(self),
            r is Ok ==> final(self).spec_last_seq() == seq && final(self).records() == old(self).records().push(
                WalRecord::Cancel { tid, seq },
            ),
    {
        if seq <= self.last_seq {
            return Err(WalError::OutOfOrder);
        }
        self.append(WalRecord::Cancel { tid, seq });
        Ok(())
    }

    /// The records of a well-formed log form a valid log for its page size.
    pub proof fn lemma_valid(&self)
        requires
            self.wf(),
        ensures
            valid_log(self.records(), self.spec_page_size() as nat),
    {
    }

    /// Sequence numbers strictly increase across the whole log.
    pub proof fn lemma_wal_monotonic(&self)
        requires
            self.wf(),
        ensures
            forall|i: int, j: int|
                0 <= i < j < self.records().len() ==> #[trigger] self.records()[i].seq() < #[trigger] self.records()[j].seq(),
    {
    }

}

} // verus!
