//! The write-ahead log: framed, checksummed records of every mutation.
//!
//! A record is framed as `record_len:u32 | crc32:u32 | body`, all integers
//! little-endian. `record_len` counts the checksum and the body; the checksum
//! covers the body alone. The body of a put is
//! `seq:u64 | 0:u8 | key_len:u32 | key | val_len:u32 | val`, that of a delete
//! `seq:u64 | 1:u8 | key_len:u32 | key`.

use crate::bytes::copy_bytes;
use crate::codec::{
    checksum_range, crc32, push_bytes, push_u32, push_u64, read_u32_at, read_u64_at, u32_at,
    u64_at,
};
use vstd::bytes::{
    lemma_auto_spec_u32_to_from_le_bytes, lemma_auto_spec_u64_to_from_le_bytes,
    spec_u32_to_le_bytes, spec_u64_to_le_bytes,
};
use vstd::prelude::*;
use vstd::string::StringExecFns;

verus! {

/// The largest `record_len` that replay accepts: 64 MiB.
pub const MAX_RECORD_SIZE: u32 = 67_108_864;

/// One logged mutation.
#[derive(Debug, Clone, PartialEq, Eq)]
pub enum WalRecord {
    /// A key-value insertion.
    Put { seq: u64, key: Vec<u8>, value: Vec<u8> },
    /// A key deletion.
    Del { seq: u64, key: Vec<u8> },
}

/// What a [`WalRecord`] holds, as mathematical values.
pub enum WalRecordView {
    Put { seq: u64, key: Seq<u8>, value: Seq<u8> },
    Del { seq: u64, key: Seq<u8> },
}

impl View for WalRecord {
    type V = WalRecordView;

    open spec fn view(&self) -> WalRecordView {
        match *self {
            WalRecord::Put { seq, key, value } => WalRecordView::Put {
                seq,
                key: key@,
                value: value@,
            },
            WalRecord::Del { seq, key } => WalRecordView::Del { seq, key: key@ },
        }
    }
}

/// Why an input or output operation failed.
#[derive(Debug, Clone, Copy, PartialEq, Eq, Structural)]
pub enum IoKind {
    /// The file does not exist.
    NotFound,
    /// A value cannot be written in the format.
    InvalidInput,
    /// Any other failure of the underlying file.
    Other,
}

/// What can go wrong with the log.
#[derive(Debug, Clone, Copy, PartialEq, Eq, Structural)]
pub enum WalError {
    /// The underlying file failed, or a record does not fit the format.
    Io(IoKind),
    /// A frame failed its checksum, holds an unknown operation, or its
    /// lengths contradict each other.
    Corrupt,
}

impl WalError {
    /// What the error says.
    pub open spec fn message(self) -> Seq<char> {
        match self {
            WalError::Io(IoKind::NotFound) => "io error: file not found"@,
            WalError::Io(IoKind::InvalidInput) => "io error: WAL record too large (exceeds u32::MAX bytes)"@,
            WalError::Io(IoKind::Other) => "io error"@,
            WalError::Corrupt => "corrupt record"@,
        }
    }

    /// What the error says.
    pub fn to_string(&self) -> (r: String)
        ensures
            r@ == self.message(),
    {
        match self {
            WalError::Io(IoKind::NotFound) => String::from_str("io error: file not found"),
            WalError::Io(IoKind::InvalidInput) => String::from_str(
                "io error: WAL record too large (exceeds u32::MAX bytes)",
            ),
            WalError::Io(IoKind::Other) => String::from_str("io error"),
            WalError::Corrupt => String::from_str("corrupt record"),
        }
    }
}

/// The views of a sequence of records.
pub open spec fn record_views(records: Seq<WalRecord>) -> Seq<WalRecordView> {
    Seq::new(records.len(), |i: int| records[i]@)
}

/// The body of a record's frame.
pub open spec fn body_of(r: WalRecordView) -> Seq<u8> {
    match r {
        WalRecordView::Put { seq, key, value } => spec_u64_to_le_bytes(seq) + seq![0u8]
            + spec_u32_to_le_bytes(key.len() as u32) + key + spec_u32_to_le_bytes(
            value.len() as u32,
        ) + value,
        WalRecordView::Del { seq, key } => spec_u64_to_le_bytes(seq) + seq![1u8]
            + spec_u32_to_le_bytes(key.len() as u32) + key,
    }
}

/// The number of bytes in a record's body.
pub open spec fn body_len(r: WalRecordView) -> nat {
    match r {
        WalRecordView::Put { seq, key, value } => 17 + key.len() + value.len(),
        WalRecordView::Del { seq, key } => 13 + key.len(),
    }
}

/// The record can be framed: its `record_len` fits in a `u32`.
pub open spec fn encodable(r: WalRecordView) -> bool {
    body_len(r) + 4 <= u32::MAX
}

/// The record's frame is one that replay accepts: its `record_len` is at
/// most [`MAX_RECORD_SIZE`].
pub open spec fn replayable(r: WalRecordView) -> bool {
    body_len(r) + 4 <= MAX_RECORD_SIZE
}

/// The whole frame of a record.
pub open spec fn frame_of(r: WalRecordView) -> Seq<u8> {
    spec_u32_to_le_bytes((body_len(r) + 4) as u32) + spec_u32_to_le_bytes(crc32(body_of(r)))
        + body_of(r)
}

/// The log that holds the frames of `records` in order.
pub open spec fn log_of(records: Seq<WalRecordView>) -> Seq<u8>
    decreases records.len(),
{
    if records.len() == 0 {
        Seq::empty()
    } else {
        frame_of(records[0]) + log_of(records.drop_first())
    }
}

/// The record that a body encodes, or `None` where its operation is unknown
/// or a length in it reaches past its end. Bytes after the record's last
/// field are not looked at.
pub open spec fn parse_body(body: Seq<u8>) -> Option<WalRecordView> {
    if body.len() < 13 {
        None
    } else {
        let seq = u64_at(body, 0);
        let op = body[8];
        let key_len = u32_at(body, 9) as int;
        if 13 + key_len > body.len() {
            None
        } else {
            let key = body.subrange(13, 13 + key_len);
            if op == 0 {
                if 17 + key_len > body.len() {
                    None
                } else {
                    let val_len = u32_at(body, 13 + key_len) as int;
                    if 17 + key_len + val_len > body.len() {
                        None
                    } else {
                        Some(
                            WalRecordView::Put {
                                seq,
                                key,
                                value: body.subrange(17 + key_len, 17 + key_len + val_len),
                            },
                        )
                    }
                }
            } else if op == 1 {
                Some(WalRecordView::Del { seq, key })
            } else {
                None
            }
        }
    }
}

/// What replaying a log yields: the records of its complete frames, and
/// whether it stopped at a corrupt one.
pub struct Replay {
    pub records: Seq<WalRecordView>,
    pub corrupt: bool,
}

/// Replays the log from `pos`. A frame cut short by the end of the log ends
/// the replay cleanly; a `record_len` out of bounds, a checksum that does not
/// match or a body that does not parse ends it as corrupt.
pub open spec fn replay_from(data: Seq<u8>, pos: int) -> Replay
    decreases data.len() - pos,
{
    if pos < 0 || pos + 4 > data.len() {
        Replay { records: Seq::empty(), corrupt: false }
    } else {
        let record_len = u32_at(data, pos);
        if record_len <= 4 || record_len > MAX_RECORD_SIZE {
            Replay { records: Seq::empty(), corrupt: true }
        } else if pos + 4 + record_len > data.len() {
            Replay { records: Seq::empty(), corrupt: false }
        } else {
            let body = data.subrange(pos + 8, pos + 4 + record_len);
            if crc32(body) != u32_at(data, pos + 4) {
                Replay { records: Seq::empty(), corrupt: true }
            } else {
                match parse_body(body) {
                    None => Replay { records: Seq::empty(), corrupt: true },
                    Some(r) => {
                        let rest = replay_from(data, pos + 4 + record_len);
                        Replay { records: seq![r] + rest.records, corrupt: rest.corrupt }
                    },
                }
            }
        }
    }
}

/// Serializes records into frames, one at a time, in a buffer that it reuses.
pub struct WalWriter {
    sync: bool,
    buf: Vec<u8>,
}

impl WalWriter {
    /// A writer with an empty frame buffer. With `sync` set, every frame is
    /// to reach the disk before the append that made it is acknowledged.
    pub fn create(sync: bool) -> (w: Self)
        ensures
            w.sync() == sync,
            w.frame()@.len() == 0,
    {
        WalWriter { sync, buf: Vec::with_capacity(256) }
    }

    /// Whether every append is to be followed by a sync to disk.
    pub closed spec fn sync(&self) -> bool {
        self.sync
    }

    /// The frame of the record appended last.
    pub closed spec fn frame(&self) -> Vec<u8> {
        self.buf
    }

    /// Whether every append is to be followed by a sync to disk.
    pub fn is_sync(&self) -> (r: bool)
        ensures
            r == self.sync(),
    {
        self.sync
    }

    /// The frame of the record appended last: the bytes to add to the log
    /// file in one write.
    pub fn last_frame(&self) -> (r: &[u8])
        ensures
            r@ == self.frame()@,
    {
        self.buf.as_slice()
    }

    /// Frames `record`. The frame replaces the buffer's content. A record
    /// whose `record_len` would not fit in a `u32` is refused as invalid
    /// input, and the buffer is then left empty.
    pub fn append(&mut self, record: &WalRecord) -> (r: Result<(), WalError>)
        ensures
            final(self).sync() == old(self).sync(),
            encodable(record@) ==> r == Ok::<(), WalError>(()) && final(self).frame()@ == frame_of(
                record@,
            ),
            !encodable(record@) ==> r == Err::<(), WalError>(WalError::Io(IoKind::InvalidInput))
                && final(self).frame()@.len() == 0,
    {
        self.buf.clear();
        let fits: bool = match record {
            WalRecord::Put { seq, key, value } => key.len() <= 0xffff_ffff && value.len()
                <= 0xffff_ffff && (key.len() as u64) + (value.len() as u64) <= 0xffff_ffff - 21,
            WalRecord::Del { seq, key } => key.len() <= 0xffff_ffff - 17,
        };
        if !fits {
            return Err(WalError::Io(IoKind::InvalidInput));
        }
        let mut body: Vec<u8> = Vec::new();
        encode_body(record, &mut body);
        proof {
            lemma_body_len(record@);
        }
        let crc: u32 = checksum_range(body.as_slice(), 0, body.len());
        assert(body@.subrange(0, body@.len() as int) =~= body@);
        frame_body(body.as_slice(), crc, &mut self.buf);
        Ok(())
    }
}

/// The frame of a body with the checksum `crc`:
/// `record_len | crc | body`.
pub open spec fn framed(body: Seq<u8>, crc: u32) -> Seq<u8> {
    spec_u32_to_le_bytes((body.len() + 4) as u32) + spec_u32_to_le_bytes(crc) + body
}

/// Appends the body of `record` to `body`.
pub fn encode_body(record: &WalRecord, body: &mut Vec<u8>)
    requires
        encodable(record@),
    ensures
        final(body)@ == old(body)@ + body_of(record@),
{
    match record {
        WalRecord::Put { seq, key, value } => {
            push_u64(body, *seq);
            body.push(0u8);
            push_u32(body, key.len() as u32);
            push_bytes(body, key.as_slice());
            push_u32(body, value.len() as u32);
            push_bytes(body, value.as_slice());
            assert(body@ =~= old(body)@ + body_of(record@));
        },
        WalRecord::Del { seq, key } => {
            push_u64(body, *seq);
            body.push(1u8);
            push_u32(body, key.len() as u32);
            push_bytes(body, key.as_slice());
            assert(body@ =~= old(body)@ + body_of(record@));
        },
    }
}

/// Appends the frame of `body` with the checksum `crc` to `out`.
pub fn frame_body(body: &[u8], crc: u32, out: &mut Vec<u8>)
    requires
        body@.len() + 4 <= u32::MAX,
    ensures
        final(out)@ == old(out)@ + framed(body@, crc),
{
    push_u32(out, (body.len() + 4) as u32);
    push_u32(out, crc);
    push_bytes(out, body);
    assert(out@ =~= old(out)@ + framed(body@, crc));
}

/// Replays a log held in memory.
pub struct WalReader {
    data: Vec<u8>,
    pos: usize,
}

impl WalReader {
    /// A reader at the start of `data`.
    pub fn from_reader(data: Vec<u8>) -> (r: Self)
        ensures
            r.remaining() == data@,
    {
        WalReader { data, pos: 0 }
    }

    /// The bytes that have not been replayed yet.
    pub closed spec fn remaining(&self) -> Seq<u8> {
        if self.pos <= self.data@.len() {
            self.data@.subrange(self.pos as int, self.data@.len() as int)
        } else {
            Seq::empty()
        }
    }

    /// Replays the rest of the log, pushing each record of a complete and
    /// valid frame onto `out` in log order. A frame cut short by the end of
    /// the log ends the replay with success; a corrupt frame ends it with
    /// [`WalError::Corrupt`], after the records before it were delivered.
    /// Either way the reader is exhausted afterwards.
    pub fn replay(&mut self, out: &mut Vec<WalRecord>) -> (r: Result<(), WalError>)
        ensures
            record_views(final(out)@) == record_views(old(out)@) + replay_from(
                old(self).remaining(),
                0,
            ).records,
            replay_from(old(self).remaining(), 0).corrupt ==> r == Err::<(), WalError>(
                WalError::Corrupt,
            ),
            !replay_from(old(self).remaining(), 0).corrupt ==> r == Ok::<(), WalError>(()),
            final(self).remaining().len() == 0,
    {
        let len: usize = self.data.len();
        if self.pos > len {
            assert(record_views(out@) =~= record_views(out@) + Seq::<WalRecordView>::empty());
            return Ok(());
        }
        let start: usize = self.pos;
        self.pos = len;
        replay_slice(vstd::slice::slice_subrange(self.data.as_slice(), start, len), out)
    }
}

/// Replays `data` from its start onto `out`.
fn replay_slice(data: &[u8], out: &mut Vec<WalRecord>) -> (r: Result<(), WalError>)
    ensures
        record_views(final(out)@) == record_views(old(out)@) + replay_from(data@, 0).records,
        replay_from(data@, 0).corrupt ==> r == Err::<(), WalError>(WalError::Corrupt),
        !replay_from(data@, 0).corrupt ==> r == Ok::<(), WalError>(()),
{
    let len: usize = data.len();
    let mut pos: usize = 0;
    assert(record_views(out@) + Seq::<WalRecordView>::empty() =~= record_views(out@));
    let mut corrupt: bool = false;
    loop
        invariant_except_break
            len == data@.len(),
            0 <= pos <= len,
            !corrupt,
            record_views(old(out)@) + replay_from(data@, 0).records == record_views(out@)
                + replay_from(data@, pos as int).records,
            replay_from(data@, 0).corrupt == replay_from(data@, pos as int).corrupt,
        ensures
            record_views(out@) == record_views(old(out)@) + replay_from(data@, 0).records,
            replay_from(data@, 0).corrupt == corrupt,
        decreases len - pos,
    {
        let ghost here = replay_from(data@, pos as int);
        if len - pos < 4 {
            proof {
                assert(record_views(out@) + Seq::<WalRecordView>::empty() =~= record_views(out@));
            }
            break ;
        }
        let record_len: u32 = read_u32_at(data, pos);
        if record_len <= 4 || record_len > MAX_RECORD_SIZE {
            proof {
                assert(record_views(out@) + Seq::<WalRecordView>::empty() =~= record_views(out@));
            }
            corrupt = true;
            break ;
        }
        if len - pos - 4 < record_len as usize {
            proof {
                assert(record_views(out@) + Seq::<WalRecordView>::empty() =~= record_views(out@));
            }
            break ;
        }
        let crc: u32 = read_u32_at(data, pos + 4);
        let body_start: usize = pos + 8;
        let body_end: usize = pos + 4 + record_len as usize;
        let actual: u32 = checksum_range(data, body_start, body_end);
        match accept_frame(data, body_start, body_end, crc, actual) {
            None => {
                proof {
                    assert(record_views(out@) + Seq::<WalRecordView>::empty() =~= record_views(
                        out@,
                    ));
                }
                corrupt = true;
                break ;
            },
            Some(record) => {
                let ghost before = out@;
                out.push(record);
                proof {
                    let rest = replay_from(data@, body_end as int);
                    assert(here.records == seq![record@] + rest.records);
                    assert(record_views(out@) =~= record_views(before).push(record@));
                    assert(record_views(before) + (seq![record@] + rest.records) =~= record_views(
                        before,
                    ).push(record@) + rest.records);
                }
                pos = body_end;
            },
        }
    }
    if corrupt {
        Err(WalError::Corrupt)
    } else {
        Ok(())
    }
}

/// The record of the frame whose body lies in `data` from `start` up to
/// `end`, whose header holds the checksum `stored`, and whose body has the
/// checksum `actual`: `None` where the two differ or the body does not
/// parse.
pub fn accept_frame(data: &[u8], start: usize, end: usize, stored: u32, actual: u32) -> (r: Option<
    WalRecord,
>)
    requires
        start <= end <= data@.len(),
    ensures
        stored != actual ==> r is None,
        stored == actual ==> match parse_body(data@.subrange(start as int, end as int)) {
            None => r is None,
            Some(v) => r is Some && r->Some_0@ == v,
        },
{
    if actual != stored {
        None
    } else {
        parse_record(data, start, end)
    }
}

/// Parses the body that lies in `data` from `start` up to `end`.
pub fn parse_record(data: &[u8], start: usize, end: usize) -> (r: Option<WalRecord>)
    requires
        start <= end <= data@.len(),
    ensures
        match parse_body(data@.subrange(start as int, end as int)) {
            None => r is None,
            Some(v) => r is Some && r->Some_0@ == v,
        },
{
    let ghost body = data@.subrange(start as int, end as int);
    let len: usize = data.len();
    if end - start < 13 {
        return None;
    }
    let seq: u64 = read_u64_at(data, start);
    assert(data@.subrange(start as int, start + 8) =~= body.subrange(0, 8));
    let op: u8 = data[start + 8];
    let key_len: u32 = read_u32_at(data, start + 9);
    assert(data@.subrange(start + 9, start + 13) =~= body.subrange(9, 13));
    if end - start - 13 < key_len as usize {
        return None;
    }
    let key_end: usize = start + 13 + key_len as usize;
    let key: Vec<u8> = copy_bytes(vstd::slice::slice_subrange(data, start + 13, key_end));
    assert(key@ =~= body.subrange(13, 13 + key_len));
    if op == 0 {
        if end - key_end < 4 {
            return None;
        }
        let val_len: u32 = read_u32_at(data, key_end);
        assert(data@.subrange(key_end as int, key_end + 4) =~= body.subrange(
            13 + key_len,
            13 + key_len + 4,
        ));
        if end - key_end - 4 < val_len as usize {
            return None;
        }
        let val_end: usize = key_end + 4 + val_len as usize;
        let value: Vec<u8> = copy_bytes(vstd::slice::slice_subrange(data, key_end + 4, val_end));
        assert(value@ =~= body.subrange(17 + key_len, 17 + key_len + val_len));
        Some(WalRecord::Put { seq, key, value })
    } else if op == 1 {
        Some(WalRecord::Del { seq, key })
    } else {
        None
    }
}

/// The body of a record has the length that [`body_len`] gives.
pub proof fn lemma_body_len(r: WalRecordView)
    ensures
        body_of(r).len() == body_len(r),
{
    lemma_auto_spec_u32_to_from_le_bytes();
    lemma_auto_spec_u64_to_from_le_bytes();
}


/// A body that was written for a record parses back to that record.
pub proof fn lemma_parse_body_of(r: WalRecordView)
    requires
        encodable(r),
    ensures
        parse_body(body_of(r)) == Some(r),
{
    lemma_auto_spec_u32_to_from_le_bytes();
    lemma_auto_spec_u64_to_from_le_bytes();
    let body = body_of(r);
    match r {
        WalRecordView::Put { seq, key, value } => {
            let kl = key.len() as int;
            let vl = value.len() as int;
            assert(body.subrange(0, 8) =~= spec_u64_to_le_bytes(seq));
            assert(body[8] == 0u8);
            assert(body.subrange(9, 13) =~= spec_u32_to_le_bytes(key.len() as u32));
            assert(body.subrange(13, 13 + kl) =~= key);
            assert(body.subrange(13 + kl, 13 + kl + 4) =~= spec_u32_to_le_bytes(
                value.len() as u32,
            ));
            assert(body.subrange(17 + kl, 17 + kl + vl) =~= value);
        },
        WalRecordView::Del { seq, key } => {
            let kl = key.len() as int;
            assert(body.subrange(0, 8) =~= spec_u64_to_le_bytes(seq));
            assert(body[8] == 1u8);
            assert(body.subrange(9, 13) =~= spec_u32_to_le_bytes(key.len() as u32));
            assert(body.subrange(13, 13 + kl) =~= key);
        },
    }
}

/// Replaying from inside a log sees only the bytes from that position on.
pub proof fn lemma_replay_shift(head: Seq<u8>, tail: Seq<u8>, pos: int)
    requires
        0 <= pos,
    ensures
        replay_from(head + tail, head.len() + pos) == replay_from(tail, pos),
    decreases tail.len() - pos,
{
    let data = head + tail;
    let at = head.len() + pos;
    if pos + 4 <= tail.len() {
        assert(data.subrange(at, at + 4) =~= tail.subrange(pos, pos + 4));
        let record_len = u32_at(tail, pos);
        if 4 < record_len <= MAX_RECORD_SIZE && pos + 4 + record_len <= tail.len() {
            assert(data.subrange(at + 4, at + 8) =~= tail.subrange(pos + 4, pos + 8));
            assert(data.subrange(at + 8, at + 4 + record_len) =~= tail.subrange(
                pos + 8,
                pos + 4 + record_len,
            ));
            lemma_replay_shift(head, tail, pos + 4 + record_len);
        }
    }
}

/// Replaying one written frame yields its record, and then what the bytes
/// after the frame yield.
pub proof fn lemma_replay_frame(r: WalRecordView, tail: Seq<u8>)
    requires
        replayable(r),
    ensures
        replay_from(frame_of(r) + tail, 0).records == seq![r] + replay_from(tail, 0).records,
        replay_from(frame_of(r) + tail, 0).corrupt == replay_from(tail, 0).corrupt,
{
    lemma_auto_spec_u32_to_from_le_bytes();
    lemma_body_len(r);
    lemma_parse_body_of(r);
    let frame = frame_of(r);
    let data = frame + tail;
    let record_len = (body_len(r) + 4) as u32;
    assert(data.subrange(0, 4) =~= spec_u32_to_le_bytes(record_len));
    assert(data.subrange(4, 8) =~= spec_u32_to_le_bytes(crc32(body_of(r))));
    assert(data.subrange(8, 4 + record_len) =~= body_of(r));
    assert(frame.len() == 4 + record_len);
    lemma_replay_shift(frame, tail, 0);
}

/// Writing records and replaying the log yields exactly those records, in
/// order, and then whatever the bytes after them yield. It holds of records
/// whose frames are within the size that replay accepts.
pub proof fn lemma_replay_log(records: Seq<WalRecordView>, tail: Seq<u8>)
    requires
        forall|i: int| 0 <= i < records.len() ==> replayable(#[trigger] records[i]),
    ensures
        replay_from(log_of(records) + tail, 0).records == records + replay_from(tail, 0).records,
        replay_from(log_of(records) + tail, 0).corrupt == replay_from(tail, 0).corrupt,
    decreases records.len(),
{
    if records.len() == 0 {
        assert(log_of(records) + tail =~= tail);
        assert(records + replay_from(tail, 0).records =~= replay_from(tail, 0).records);
    } else {
        let first = records[0];
        let others = records.drop_first();
        assert forall|i: int| 0 <= i < others.len() implies replayable(#[trigger] others[i]) by {
            assert(others[i] == records[i + 1]);
        }
        lemma_replay_log(others, tail);
        lemma_replay_frame(first, log_of(others) + tail);
        assert(log_of(records) + tail =~= frame_of(first) + (log_of(others) + tail));
        assert(seq![first] + (others + replay_from(tail, 0).records) =~= records + replay_from(
            tail,
            0,
        ).records);
    }
}

/// Write then replay: a log that holds the frames of `records` and nothing
/// else replays to exactly `records`, without corruption.
pub proof fn lemma_write_then_replay(records: Seq<WalRecordView>)
    requires
        forall|i: int| 0 <= i < records.len() ==> replayable(#[trigger] records[i]),
    ensures
        replay_from(log_of(records), 0) == (Replay { records, corrupt: false }),
{
    lemma_replay_log(records, Seq::empty());
    assert(log_of(records) + Seq::<u8>::empty() =~= log_of(records));
    assert(records + Seq::<WalRecordView>::empty() =~= records);
}

} // verus!
