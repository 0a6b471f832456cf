//! The write-ahead log record format.
//!
//! A record is laid out, all integers little-endian, as
//! `[len:u32][op:u8][seq_no:u64][key_len:u32][val_len:u32][key][val][crc32:u32]`
//! where `len` counts every byte after itself and the checksum covers the
//! body from `op` to the end of `val`.
use vstd::prelude::*;
use crate::memtable::{delete, delete_model, put, put_model, MemTable};
use crate::entry::EntryModel;
use crate::bytes::{
    lemma_le_u32_round_trip, lemma_le_u64_round_trip,
    le_bytes_u32, le_bytes_u64, le_value_u32, le_value_u64, push_u32_le, push_u64_le,
    read_u32_le, read_u64_le,
};

verus! {

/// Bytes of a record body before the key: op, sequence number and the two lengths.
pub const BODY_HEADER_LEN: usize = 17;

/// Bytes of the length prefix, and of the trailing checksum.
pub const WORD_LEN: usize = 4;

/// The CRC-32 checksum of a byte string.
pub uninterp spec fn crc32_of(b: Seq<u8>) -> u32;

/// Relies on crc32fast::hash: the CRC-32 of the bytes, which depends on them alone.
#[verifier::external_body]
fn crc32(b: &[u8]) -> (r: u32)
    ensures
        r == crc32_of(b@),
{
    crc32fast::hash(b)
}

/// How the log writer should make each append durable.
#[derive(Debug, Clone, Copy, PartialEq, Eq)]
pub enum SyncPolicy {
    Always,
    Never,
}

/// The mutation a record carries.
#[derive(Debug, Clone, Copy, PartialEq, Eq, Structural)]
pub enum Op {
    Put,
    Delete,
}

/// The byte that stands for `op` in a record.
pub open spec fn op_code(op: Op) -> u8 {
    match op {
        Op::Put => 1,
        Op::Delete => 2,
    }
}

impl Op {
    /// The operation written as `code`, if any.
    pub fn try_from(code: u8) -> (r: Result<Op, WalDecodeError>)
        ensures
            code == 1 ==> r == Ok::<Op, WalDecodeError>(Op::Put),
            code == 2 ==> r == Ok::<Op, WalDecodeError>(Op::Delete),
            code != 1 && code != 2 ==> r is Err && r->Err_0 is Corruption,
    {
        match code {
            1 => Ok(Op::Put),
            2 => Ok(Op::Delete),
            _ => Err(WalDecodeError::Corruption("invalid op code found")),
        }
    }

    /// The byte that stands for this operation in a record.
    pub fn code(&self) -> (r: u8)
        ensures
            r == op_code(*self),
    {
        match self {
            Op::Put => 1,
            Op::Delete => 2,
        }
    }
}

/// One logged mutation. The value is empty for a delete.
#[derive(Debug, Clone, PartialEq, Eq)]
pub struct WALRecord {
    pub op: Op,
    pub seq_no: u64,
    pub key: Vec<u8>,
    pub val: Vec<u8>,
}

/// The mathematical form of a [`WALRecord`].
pub struct RecordModel {
    pub op: Op,
    pub seq_no: u64,
    pub key: Seq<u8>,
    pub val: Seq<u8>,
}

impl View for WALRecord {
    type V = RecordModel;

    open spec fn view(&self) -> RecordModel {
        RecordModel { op: self.op, seq_no: self.seq_no, key: self.key@, val: self.val@ }
    }
}

impl WALRecord {
    pub fn new(op: Op, seq_no: u64, key: Vec<u8>, val: Vec<u8>) -> (r: Self)
        ensures
            r.op == op,
            r.seq_no == seq_no,
            r.key == key,
            r.val == val,
    {
        WALRecord { op, seq_no, key, val }
    }
}

/// Why a record could not be read.
#[derive(Debug)]
pub enum WalDecodeError {
    /// The bytes end before a whole record: the log's clean end, or a tail
    /// cut short by a crash in the middle of an append.
    CleanEOF,
    /// The bytes are not a valid record; the text names the broken rule.
    Corruption(&'static str),
}

/// A record whose encoding fits the `u32` length prefix.
pub open spec fn encodable(r: RecordModel) -> bool {
    BODY_HEADER_LEN + r.key.len() + r.val.len() + WORD_LEN <= u32::MAX
}

/// The checksummed part of a record: op, sequence number, lengths, key, value.
pub open spec fn record_body(r: RecordModel) -> Seq<u8> {
    seq![op_code(r.op)] + le_bytes_u64(r.seq_no) + le_bytes_u32(r.key.len() as u32)
        + le_bytes_u32(r.val.len() as u32) + r.key + r.val
}

/// The full encoding of a record: length prefix, body, checksum of the body.
pub open spec fn encoded_record(r: RecordModel) -> Seq<u8> {
    let body = record_body(r);
    le_bytes_u32((body.len() + WORD_LEN) as u32) + body + le_bytes_u32(crc32_of(body))
}

/// The three ways reading one record can end.
pub enum DecodeOutcome {
    /// A record, and the offset just past it.
    Record(RecordModel, int),
    CleanEnd,
    Corrupt,
}

/// What reading one record at `offset` of `buf` gives, when the length
/// prefix may be at most `max_record_len`.
pub open spec fn decode_spec(buf: Seq<u8>, offset: int, max_record_len: u32) -> DecodeOutcome {
    if offset > buf.len() || buf.len() - offset < WORD_LEN {
        DecodeOutcome::CleanEnd
    } else {
        let len = le_value_u32(buf.subrange(offset, offset + WORD_LEN));
        if len == 0 || len > max_record_len {
            DecodeOutcome::Corrupt
        } else if buf.len() - offset < WORD_LEN + len {
            DecodeOutcome::CleanEnd
        } else if len < WORD_LEN {
            DecodeOutcome::Corrupt
        } else {
            let frame = buf.subrange(offset + WORD_LEN, offset + WORD_LEN + len);
            let body = frame.subrange(0, len - WORD_LEN);
            let stored_crc = le_value_u32(frame.subrange(len - WORD_LEN, len as int));
            if crc32_of(body) != stored_crc {
                DecodeOutcome::Corrupt
            } else if body.len() < BODY_HEADER_LEN {
                DecodeOutcome::Corrupt
            } else {
                let key_len = le_value_u32(body.subrange(9, 13));
                let val_len = le_value_u32(body.subrange(13, 17));
                if key_len == 0 {
                    DecodeOutcome::Corrupt
                } else if BODY_HEADER_LEN + key_len + val_len != body.len() {
                    DecodeOutcome::Corrupt
                } else if body[0] != 1 && body[0] != 2 {
                    DecodeOutcome::Corrupt
                } else {
                    let key_end = BODY_HEADER_LEN + key_len;
                    DecodeOutcome::Record(
                        RecordModel {
                            op: if body[0] == 1 {
                                Op::Put
                            } else {
                                Op::Delete
                            },
                            seq_no: le_value_u64(body.subrange(1, 9)),
                            key: body.subrange(BODY_HEADER_LEN as int, key_end),
                            val: body.subrange(key_end, body.len() as int),
                        },
                        offset + WORD_LEN + len,
                    )
                }
            }
        }
    }
}

/// The outcome that a result of [`decode_record`] stands for.
pub open spec fn outcome_of(r: Result<(WALRecord, usize), WalDecodeError>) -> DecodeOutcome {
    match r {
        Ok((rec, next)) => DecodeOutcome::Record(rec@, next as int),
        Err(WalDecodeError::CleanEOF) => DecodeOutcome::CleanEnd,
        Err(WalDecodeError::Corruption(_)) => DecodeOutcome::Corrupt,
    }
}

/// Encodes a record with its length prefix and trailing checksum.
pub fn encode_record(rec: &WALRecord) -> (out: Vec<u8>)
    requires
        encodable(rec@),
    ensures
        out@ == encoded_record(rec@),
{
    let key_len: u32 = rec.key.len() as u32;
    let val_len: u32 = rec.val.len() as u32;
    let mut body: Vec<u8> = Vec::new();
    body.push(rec.op.code());
    push_u64_le(&mut body, rec.seq_no);
    push_u32_le(&mut body, key_len);
    push_u32_le(&mut body, val_len);
    body.extend_from_slice(rec.key.as_slice());
    body.extend_from_slice(rec.val.as_slice());
    assert(body@ =~= record_body(rec@));
    let crc: u32 = crc32(body.as_slice());
    let len: u32 = (body.len() + WORD_LEN) as u32;
    let mut out: Vec<u8> = Vec::new();
    push_u32_le(&mut out, len);
    out.extend_from_slice(body.as_slice());
    push_u32_le(&mut out, crc);
    assert(out@ =~= encoded_record(rec@));
    out
}

/// Reads the record that starts at `offset` of `buf`.
///
/// Gives the record and the offset just past it; `CleanEOF` where the
/// bytes end before the whole record; `Corruption` where its length prefix
/// is zero or above `max_record_len`, its checksum does not match, its key
/// is empty, its lengths do not add up to its size, or its op is unknown.
pub fn decode_record(buf: &[u8], offset: usize, max_record_len: u32) -> (r: Result<
    (WALRecord, usize),
    WalDecodeError,
>)
    ensures
        outcome_of(r) == decode_spec(buf@, offset as int, max_record_len),
{
    if offset > buf.len() || buf.len() - offset < WORD_LEN {
        return Err(WalDecodeError::CleanEOF);
    }
    let avail: usize = buf.len() - offset;
    let prefix: &[u8] = &buf[offset..offset + WORD_LEN];
    let len: u32 = match read_u32_le(prefix) {
        Some(v) => v,
        None => {
            return Err(WalDecodeError::CleanEOF);
        },
    };
    if len == 0 || len > max_record_len {
        return Err(WalDecodeError::Corruption("invalid len"));
    }
    if (avail as u64) < WORD_LEN as u64 + len as u64 {
        return Err(WalDecodeError::CleanEOF);
    }
    if (len as usize) < WORD_LEN {
        return Err(WalDecodeError::Corruption("record too short"));
    }
    let start: usize = offset + WORD_LEN;
    let end: usize = start + len as usize;
    let frame: &[u8] = &buf[start..end];
    let body_len: usize = len as usize - WORD_LEN;
    let body: &[u8] = &frame[0..body_len];
    let stored_crc: u32 = match read_u32_le(&frame[body_len..len as usize]) {
        Some(v) => v,
        None => {
            return Err(WalDecodeError::Corruption("missing crc"));
        },
    };
    if crc32(body) != stored_crc {
        return Err(WalDecodeError::Corruption("crc mismatch"));
    }
    if body_len < BODY_HEADER_LEN {
        return Err(WalDecodeError::Corruption("body too short"));
    }
    let seq_no: u64 = match read_u64_le(&body[1..9]) {
        Some(v) => v,
        None => {
            return Err(WalDecodeError::Corruption("bad seq"));
        },
    };
    let key_len: u32 = match read_u32_le(&body[9..13]) {
        Some(v) => v,
        None => {
            return Err(WalDecodeError::Corruption("bad key len"));
        },
    };
    let val_len: u32 = match read_u32_le(&body[13..17]) {
        Some(v) => v,
        None => {
            return Err(WalDecodeError::Corruption("bad val len"));
        },
    };
    if key_len == 0 {
        return Err(WalDecodeError::Corruption("key_len is 0"));
    }
    if BODY_HEADER_LEN as u64 + key_len as u64 + val_len as u64 != body_len as u64 {
        return Err(
            WalDecodeError::Corruption(
                "length mismatch - body len does not match the lengths it declares",
            ),
        );
    }
    let op = Op::try_from(body[0])?;
    let key_end: usize = BODY_HEADER_LEN + key_len as usize;
    let key = vstd::slice::slice_to_vec(&body[BODY_HEADER_LEN..key_end]);
    let val = vstd::slice::slice_to_vec(&body[key_end..body_len]);
    let rec = WALRecord { op, seq_no, key, val };
    proof {
        let b = buf@;
        let o = offset as int;
        assert(b.subrange(o, o + 4) =~= prefix@);
        let fr = b.subrange(o + 4, o + 4 + len);
        assert(fr =~= frame@);
        assert(fr.subrange(0, len - 4) =~= body@);
        assert(rec@ == RecordModel {
            op: rec.op,
            seq_no,
            key: body@.subrange(17, key_end as int),
            val: body@.subrange(key_end as int, body@.len() as int),
        });
    }
    Ok((rec, end))
}

/// A record that can be logged and read back: its key is not empty and its
/// length prefix stays within `max_record_len`.
pub open spec fn loggable(r: RecordModel, max_record_len: u32) -> bool {
    &&& encodable(r)
    &&& r.key.len() > 0
    &&& encoded_record(r).len() - WORD_LEN <= max_record_len
}

/// Reading at `offset` gives back a record whose encoding stands there.
pub proof fn lemma_decode_at(buf: Seq<u8>, offset: int, r: RecordModel, max_record_len: u32)
    requires
        loggable(r, max_record_len),
        0 <= offset,
        offset + encoded_record(r).len() <= buf.len(),
        buf.subrange(offset, offset + encoded_record(r).len()) == encoded_record(r),
    ensures
        decode_spec(buf, offset, max_record_len) == DecodeOutcome::Record(
            r,
            offset + encoded_record(r).len(),
        ),
{
    let body = record_body(r);
    let n = body.len() as int;
    let enc = encoded_record(r);
    let crc = crc32_of(body);
    assert(n == 17 + r.key.len() + r.val.len());
    assert(enc.len() == n + 8);
    lemma_le_u32_round_trip((n + 4) as u32);
    lemma_le_u32_round_trip(crc);
    lemma_le_u32_round_trip(r.key.len() as u32);
    lemma_le_u32_round_trip(r.val.len() as u32);
    lemma_le_u64_round_trip(r.seq_no);
    assert(buf.subrange(offset, offset + 4) =~= enc.subrange(0, 4));
    assert(enc.subrange(0, 4) =~= le_bytes_u32((n + 4) as u32));
    let len = le_value_u32(buf.subrange(offset, offset + 4));
    assert(len == n + 4);
    let frame = buf.subrange(offset + 4, offset + 4 + len);
    assert(frame =~= enc.subrange(4, n + 8));
    assert(frame.subrange(0, len - 4) =~= body);
    assert(frame.subrange(len - 4, len as int) =~= le_bytes_u32(crc));
    assert(body.subrange(1, 9) =~= le_bytes_u64(r.seq_no));
    assert(body.subrange(9, 13) =~= le_bytes_u32(r.key.len() as u32));
    assert(body.subrange(13, 17) =~= le_bytes_u32(r.val.len() as u32));
    assert(body[0] == op_code(r.op));
    let key_end = 17 + r.key.len() as int;
    assert(body.subrange(17, key_end) =~= r.key);
    assert(body.subrange(key_end, n as int) =~= r.val);
}

/// Decoding an encoded record at offset zero gives back the record and the
/// length of its encoding.
pub proof fn lemma_round_trip(r: RecordModel, max_record_len: u32)
    requires
        loggable(r, max_record_len),
    ensures
        decode_spec(encoded_record(r), 0, max_record_len) == DecodeOutcome::Record(
            r,
            encoded_record(r).len() as int,
        ),
{
    let enc = encoded_record(r);
    assert(enc.subrange(0, enc.len() as int) =~= enc);
    lemma_decode_at(enc, 0, r, max_record_len);
}

/// A record read at `offset` ends after it and within the buffer, and has a key.
pub proof fn lemma_decoded_record(buf: Seq<u8>, offset: int, max_record_len: u32)
    requires
        decode_spec(buf, offset, max_record_len) is Record,
    ensures
        match decode_spec(buf, offset, max_record_len) {
            DecodeOutcome::Record(r, next) => offset < next <= buf.len() && r.key.len() > 0,
            _ => true,
        },
{
}

/// What a logged record does to the table.
pub open spec fn apply_record(m: Map<Seq<u8>, EntryModel>, r: RecordModel) -> Map<
    Seq<u8>,
    EntryModel,
> {
    match r.op {
        Op::Put => put_model(m, r.key, r.val, r.seq_no),
        Op::Delete => delete_model(m, r.key, r.seq_no),
    }
}

/// How replaying a log ends.
pub enum ReplayOutcome {
    /// The log ended cleanly at the offset, leaving the table.
    Done(Map<Seq<u8>, EntryModel>, int),
    Corrupt,
}

/// Replaying `buf` from `offset` onto the table `m`: each record read is
/// applied in turn, until the bytes end (cleanly or cut short) or a corrupt
/// record stops the whole replay.
pub open spec fn replay_spec(
    buf: Seq<u8>,
    offset: int,
    max_record_len: u32,
    m: Map<Seq<u8>, EntryModel>,
) -> ReplayOutcome
    decreases buf.len() - offset,
{
    match decode_spec(buf, offset, max_record_len) {
        DecodeOutcome::Record(r, next) => if offset < next <= buf.len() {
            replay_spec(buf, next, max_record_len, apply_record(m, r))
        } else {
            ReplayOutcome::Corrupt
        },
        DecodeOutcome::CleanEnd => ReplayOutcome::Done(m, offset),
        DecodeOutcome::Corrupt => ReplayOutcome::Corrupt,
    }
}

/// Replays the log `buf` into `mem`, keeping each record's own sequence number.
///
/// Gives the offset where the log ended cleanly, or, where a corrupt record
/// stopped the replay, its offset and the rule it broke.
pub fn replay_into(buf: &[u8], max_record_len: u32, mem: &mut MemTable) -> (r: Result<
    usize,
    (usize, &'static str),
>)
    requires
        old(mem).wf(),
    ensures
        final(mem).wf(),
        match replay_spec(buf@, 0, max_record_len, old(mem)@) {
            ReplayOutcome::Done(m, end) => r == Ok::<usize, (usize, &'static str)>(end as usize)
                && final(mem)@ == m,
            ReplayOutcome::Corrupt => r is Err,
        },
{
    let mut offset: usize = 0;
    loop
        invariant
            mem.wf(),
            offset <= buf@.len(),
            replay_spec(buf@, 0, max_record_len, old(mem)@) == replay_spec(
                buf@,
                offset as int,
                max_record_len,
                mem@,
            ),
        decreases buf@.len() - offset,
    {
        match decode_record(buf, offset, max_record_len) {
            Ok((rec, next)) => {
                proof {
                    lemma_decoded_record(buf@, offset as int, max_record_len);
                }
                let ghost before = mem@;
                match rec.op {
                    Op::Put => {
                        let _ = put(mem, rec.key, rec.val, rec.seq_no);
                    },
                    Op::Delete => {
                        let _ = delete(mem, rec.key, rec.seq_no);
                    },
                }
                assert(mem@ == apply_record(before, rec@));
                offset = next;
            },
            Err(WalDecodeError::CleanEOF) => {
                return Ok(offset);
            },
            Err(WalDecodeError::Corruption(what)) => {
                return Err((offset, what));
            },
        }
    }
}

/// A log holding the records of `rs`, in order, packed with no gaps.
pub open spec fn encode_log(rs: Seq<RecordModel>) -> Seq<u8>
    decreases rs.len(),
{
    if rs.len() == 0 {
        Seq::empty()
    } else {
        encode_log(rs.drop_last()) + encoded_record(rs.last())
    }
}

/// The table after applying the records of `rs` to `m`, in order.
pub open spec fn apply_records(m: Map<Seq<u8>, EntryModel>, rs: Seq<RecordModel>) -> Map<
    Seq<u8>,
    EntryModel,
>
    decreases rs.len(),
{
    if rs.len() == 0 {
        m
    } else {
        apply_record(apply_records(m, rs.drop_last()), rs.last())
    }
}

proof fn lemma_encode_log_step(rs: Seq<RecordModel>, j: int)
    requires
        0 <= j < rs.len(),
    ensures
        encode_log(rs.take(j + 1)) == encode_log(rs.take(j)) + encoded_record(rs[j]),
{
    assert(rs.take(j + 1).drop_last() =~= rs.take(j));
}

proof fn lemma_apply_records_step(m: Map<Seq<u8>, EntryModel>, rs: Seq<RecordModel>, j: int)
    requires
        0 <= j < rs.len(),
    ensures
        apply_records(m, rs.take(j + 1)) == apply_record(apply_records(m, rs.take(j)), rs[j]),
{
    assert(rs.take(j + 1).drop_last() =~= rs.take(j));
}

/// The log of the first `k` records is where the whole log begins.
proof fn lemma_encode_log_prefix(rs: Seq<RecordModel>, k: int)
    requires
        0 <= k <= rs.len(),
    ensures
        encode_log(rs.take(k)).len() <= encode_log(rs).len(),
        encode_log(rs).subrange(0, encode_log(rs.take(k)).len() as int) == encode_log(rs.take(k)),
    decreases rs.len(),
{
    if k == rs.len() {
        assert(rs.take(k) =~= rs);
        assert(encode_log(rs).subrange(0, encode_log(rs).len() as int) =~= encode_log(rs));
    } else {
        let init = rs.drop_last();
        lemma_encode_log_prefix(init, k);
        assert(init.take(k) =~= rs.take(k));
        let p = encode_log(rs.take(k));
        assert(encode_log(rs).subrange(0, p.len() as int) =~= encode_log(init).subrange(
            0,
            p.len() as int,
        ));
    }
}

/// Reading where only the start of a record's encoding is left gives a clean end.
proof fn lemma_decode_cut_short(buf: Seq<u8>, offset: int, r: RecordModel, max_record_len: u32)
    requires
        loggable(r, max_record_len),
        0 <= offset <= buf.len(),
        buf.len() - offset < encoded_record(r).len(),
        buf.subrange(offset, buf.len() as int) == encoded_record(r).take(buf.len() - offset),
    ensures
        decode_spec(buf, offset, max_record_len) == DecodeOutcome::CleanEnd,
{
    let enc = encoded_record(r);
    let body = record_body(r);
    if buf.len() - offset >= WORD_LEN {
        lemma_le_u32_round_trip((body.len() + 4) as u32);
        assert(buf.subrange(offset, offset + 4) =~= enc.subrange(0, 4));
        assert(enc.subrange(0, 4) =~= le_bytes_u32((body.len() + 4) as u32));
    }
}

/// Replay reaches the start of record `j` having applied the records before it.
proof fn lemma_replay_reaches(
    rs: Seq<RecordModel>,
    max_record_len: u32,
    m: Map<Seq<u8>, EntryModel>,
    cut: int,
    j: int,
)
    requires
        forall|i: int| 0 <= i < rs.len() ==> loggable(#[trigger] rs[i], max_record_len),
        0 <= j <= rs.len(),
        encode_log(rs.take(j)).len() <= cut <= encode_log(rs).len(),
    ensures
        replay_spec(encode_log(rs).take(cut), 0, max_record_len, m) == replay_spec(
            encode_log(rs).take(cut),
            encode_log(rs.take(j)).len() as int,
            max_record_len,
            apply_records(m, rs.take(j)),
        ),
    decreases j,
{
    let buf = encode_log(rs).take(cut);
    if j == 0 {
        assert(rs.take(0) =~= Seq::<RecordModel>::empty());
    } else {
        let i = j - 1;
        lemma_encode_log_step(rs, i);
        lemma_apply_records_step(m, rs, i);
        lemma_replay_reaches(rs, max_record_len, m, cut, i);
        lemma_encode_log_prefix(rs, j);
        let start = encode_log(rs.take(i)).len() as int;
        let end = encode_log(rs.take(j)).len() as int;
        let enc = encoded_record(rs[i]);
        assert(buf.subrange(start, end) =~= enc) by {
            assert(buf.subrange(start, end) =~= encode_log(rs).subrange(0, end).subrange(start, end));
        }
        lemma_decode_at(buf, start, rs[i], max_record_len);
    }
}

/// A log cut at any byte before the end of its last record replays without
/// error, stopping where the cut record begins, with every record before
/// that one applied. Here the cut falls within record `n` (or at its start).
pub proof fn lemma_truncated_log_replays_cleanly(
    rs: Seq<RecordModel>,
    max_record_len: u32,
    m: Map<Seq<u8>, EntryModel>,
    n: int,
    cut: int,
)
    requires
        forall|i: int| 0 <= i < rs.len() ==> loggable(#[trigger] rs[i], max_record_len),
        0 <= n < rs.len(),
        encode_log(rs.take(n)).len() <= cut < encode_log(rs.take(n + 1)).len(),
    ensures
        replay_spec(encode_log(rs).take(cut), 0, max_record_len, m) == ReplayOutcome::Done(
            apply_records(m, rs.take(n)),
            encode_log(rs.take(n)).len() as int,
        ),
{
    let buf = encode_log(rs).take(cut);
    lemma_encode_log_prefix(rs, n + 1);
    lemma_encode_log_step(rs, n);
    lemma_replay_reaches(rs, max_record_len, m, cut, n);
    let start = encode_log(rs.take(n)).len() as int;
    let enc = encoded_record(rs[n]);
    assert(buf.subrange(start, cut) =~= enc.take(cut - start)) by {
        let end = encode_log(rs.take(n + 1)).len() as int;
        assert(buf.subrange(start, cut) =~= encode_log(rs).subrange(0, end).subrange(start, cut));
    }
    lemma_decode_cut_short(buf, start, rs[n], max_record_len);
}

/// A whole log replays without error to its end, leaving the table with
/// every record applied in order.
pub proof fn lemma_log_replays_in_full(
    rs: Seq<RecordModel>,
    max_record_len: u32,
    m: Map<Seq<u8>, EntryModel>,
)
    requires
        forall|i: int| 0 <= i < rs.len() ==> loggable(#[trigger] rs[i], max_record_len),
    ensures
        replay_spec(encode_log(rs), 0, max_record_len, m) == ReplayOutcome::Done(
            apply_records(m, rs),
            encode_log(rs).len() as int,
        ),
{
    let log = encode_log(rs);
    let n = rs.len() as int;
    assert(rs.take(n) =~= rs);
    assert(log.take(log.len() as int) =~= log);
    lemma_replay_reaches(rs, max_record_len, m, log.len() as int, n);
}

/// An encoded record whose body was altered in place, in a way that changes
/// its CRC-32, reads as corrupt: never as a record.
pub proof fn lemma_altered_body_is_corrupt(r: RecordModel, max_record_len: u32, altered: Seq<u8>)
    requires
        loggable(r, max_record_len),
        altered.len() == record_body(r).len(),
        crc32_of(altered) != crc32_of(record_body(r)),
    ensures
        decode_spec(
            le_bytes_u32((record_body(r).len() + WORD_LEN) as u32) + altered + le_bytes_u32(
                crc32_of(record_body(r)),
            ),
            0,
            max_record_len,
        ) == DecodeOutcome::Corrupt,
{
    let body = record_body(r);
    let n = body.len() as int;
    let buf = le_bytes_u32((n + 4) as u32) + altered + le_bytes_u32(crc32_of(body));
    lemma_le_u32_round_trip((n + 4) as u32);
    lemma_le_u32_round_trip(crc32_of(body));
    assert(buf.subrange(0, 4) =~= le_bytes_u32((n + 4) as u32));
    let frame = buf.subrange(4, 4 + n + 4);
    assert(frame.subrange(0, n) =~= altered);
    assert(frame.subrange(n, n + 4) =~= le_bytes_u32(crc32_of(body)));
}

} // verus!
