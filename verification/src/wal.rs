//! Write-ahead log records and their on-disk encoding.
//!
//! A record is framed as
//! `total_len: u32 | lsn: u64 | prev_lsn: u64 | txn_id: u64 | tag: u8 |
//! payload | crc: u32 | total_len: u32`, all little-endian, where `crc`
//! covers everything before it and a `prev_lsn` of 0 means "none".

use vstd::bytes::*;
use vstd::prelude::*;
use vstd::slice::*;

use crate::codec::{le_u16_at, le_u32_at, le_u64_at, push_bytes, push_u16, push_u32, push_u64, read_u16, read_u32, read_u64};
use crate::crc::{crc32, spec_crc32};
use crate::ids::{Lsn, PageId, TxnId};

verus! {

/// The raw id of the transaction under which checkpoint records are logged.
pub const CHECKPOINT_TXN_ID: u64 = 0xFFFF_FFFF_FFFF_FFFFu64;

/// The transaction under which checkpoint records are logged.
pub fn checkpoint_txn() -> (t: TxnId)
    ensures
        t.0 == CHECKPOINT_TXN_ID,
{
    TxnId(CHECKPOINT_TXN_ID)
}

/// Bytes of framing around a record body: two length fields and a CRC.
pub const RECORD_FRAMING_LEN: usize = 12;

/// The shortest well-formed record: framing, three `u64` header fields
/// and the tag.
pub const MIN_RECORD_LEN: usize = 37;

/// What a log record describes.
#[derive(Debug, Clone, PartialEq, Eq)]
pub enum LogRecordKind {
    Begin,
    Commit,
    Abort,
    End,
    Update { page_id: PageId, offset: u16, before: Vec<u8>, after: Vec<u8> },
    AllocPage { page_id: PageId },
    Clr { page_id: PageId, offset: u16, after: Vec<u8>, undo_next_lsn: Lsn },
    CheckpointBegin,
    CheckpointEnd { att: Vec<(TxnId, Lsn)>, dpt: Vec<(PageId, Lsn)> },
}

/// The mathematical content of a [`LogRecordKind`].
pub enum KindView {
    Begin,
    Commit,
    Abort,
    End,
    Update { page_id: u32, offset: u16, before: Seq<u8>, after: Seq<u8> },
    AllocPage { page_id: u32 },
    Clr { page_id: u32, offset: u16, after: Seq<u8>, undo_next_lsn: u64 },
    CheckpointBegin,
    CheckpointEnd { att: Seq<(u64, u64)>, dpt: Seq<(u32, u64)> },
}

pub open spec fn att_view(att: Seq<(TxnId, Lsn)>) -> Seq<(u64, u64)> {
    att.map_values(|e: (TxnId, Lsn)| (e.0.0, e.1.0))
}

pub open spec fn dpt_view(dpt: Seq<(PageId, Lsn)>) -> Seq<(u32, u64)> {
    dpt.map_values(|e: (PageId, Lsn)| (e.0.0, e.1.0))
}

impl View for LogRecordKind {
    type V = KindView;

    open spec fn view(&self) -> KindView {
        match self {
            LogRecordKind::Begin => KindView::Begin,
            LogRecordKind::Commit => KindView::Commit,
            LogRecordKind::Abort => KindView::Abort,
            LogRecordKind::End => KindView::End,
            LogRecordKind::Update { page_id, offset, before, after } => KindView::Update {
                page_id: page_id.0,
                offset: *offset,
                before: before@,
                after: after@,
            },
            LogRecordKind::AllocPage { page_id } => KindView::AllocPage { page_id: page_id.0 },
            LogRecordKind::Clr { page_id, offset, after, undo_next_lsn } => KindView::Clr {
                page_id: page_id.0,
                offset: *offset,
                after: after@,
                undo_next_lsn: undo_next_lsn.0,
            },
            LogRecordKind::CheckpointBegin => KindView::CheckpointBegin,
            LogRecordKind::CheckpointEnd { att, dpt } => KindView::CheckpointEnd {
                att: att_view(att@),
                dpt: dpt_view(dpt@),
            },
        }
    }
}

/// A record to append: who logs it and what it says.
#[derive(Debug, Clone, PartialEq, Eq)]
pub struct LogRecord {
    pub txn_id: TxnId,
    pub kind: LogRecordKind,
}

/// A record as read back from the log, with the LSN it was written at and
/// the LSN of its transaction's previous record.
#[derive(Debug, Clone, PartialEq, Eq)]
pub struct LoggedRecord {
    pub lsn: Lsn,
    pub prev_lsn: Option<Lsn>,
    pub txn_id: TxnId,
    pub kind: LogRecordKind,
}

/// The mathematical content of a [`LoggedRecord`].
pub struct RecordView {
    pub lsn: u64,
    pub prev_lsn: Option<u64>,
    pub txn_id: u64,
    pub kind: KindView,
}

impl View for LoggedRecord {
    type V = RecordView;

    open spec fn view(&self) -> RecordView {
        RecordView {
            lsn: self.lsn.0,
            prev_lsn: match self.prev_lsn {
                Some(l) => Some(l.0),
                None => None,
            },
            txn_id: self.txn_id.0,
            kind: self.kind@,
        }
    }
}

// ---------------------------------------------------------------------
// Encoding
// ---------------------------------------------------------------------

pub open spec fn le16(v: u16) -> Seq<u8> {
    spec_u16_to_le_bytes(v)
}

pub open spec fn le32(v: u32) -> Seq<u8> {
    spec_u32_to_le_bytes(v)
}

pub open spec fn le64(v: u64) -> Seq<u8> {
    spec_u64_to_le_bytes(v)
}

pub open spec fn att_bytes(att: Seq<(u64, u64)>) -> Seq<u8>
    decreases att.len(),
{
    if att.len() == 0 {
        Seq::empty()
    } else {
        att_bytes(att.drop_last()) + le64(att.last().0) + le64(att.last().1)
    }
}

pub open spec fn dpt_bytes(dpt: Seq<(u32, u64)>) -> Seq<u8>
    decreases dpt.len(),
{
    if dpt.len() == 0 {
        Seq::empty()
    } else {
        dpt_bytes(dpt.drop_last()) + le32(dpt.last().0) + le64(dpt.last().1)
    }
}

pub open spec fn kind_tag(k: KindView) -> u8 {
    match k {
        KindView::Begin => 0,
        KindView::Commit => 1,
        KindView::Abort => 2,
        KindView::End => 3,
        KindView::Update { .. } => 4,
        KindView::AllocPage { .. } => 5,
        KindView::Clr { .. } => 6,
        KindView::CheckpointBegin => 7,
        KindView::CheckpointEnd { .. } => 8,
    }
}

/// The payload bytes that follow a record's tag.
pub open spec fn payload_bytes(k: KindView) -> Seq<u8> {
    match k {
        KindView::Update { page_id, offset, before, after } => le32(page_id) + le16(offset) + le32(
            before.len() as u32,
        ) + before + le32(after.len() as u32) + after,
        KindView::AllocPage { page_id } => le32(page_id),
        KindView::Clr { page_id, offset, after, undo_next_lsn } => le32(page_id) + le16(offset)
            + le32(after.len() as u32) + after + le64(undo_next_lsn),
        KindView::CheckpointEnd { att, dpt } => le32(att.len() as u32) + att_bytes(att) + le32(
            dpt.len() as u32,
        ) + dpt_bytes(dpt),
        _ => Seq::empty(),
    }
}

/// Every length the payload records fits its `u32` field.
pub open spec fn kind_fits(k: KindView) -> bool {
    match k {
        KindView::Update { before, after, .. } => before.len() <= u32::MAX && after.len()
            <= u32::MAX,
        KindView::Clr { after, .. } => after.len() <= u32::MAX,
        KindView::CheckpointEnd { att, dpt } => att.len() <= u32::MAX && dpt.len() <= u32::MAX,
        _ => true,
    }
}

pub open spec fn body_bytes(lsn: u64, prev_lsn: Option<u64>, txn_id: u64, k: KindView) -> Seq<u8> {
    le64(lsn) + le64(
        match prev_lsn {
            Some(p) => p,
            None => 0,
        },
    ) + le64(txn_id) + seq![kind_tag(k)] + payload_bytes(k)
}

/// The full framed bytes of a record.
pub open spec fn record_bytes(lsn: u64, prev_lsn: Option<u64>, txn_id: u64, k: KindView) -> Seq<u8> {
    let body = body_bytes(lsn, prev_lsn, txn_id, k);
    let total = (body.len() + RECORD_FRAMING_LEN) as u32;
    let head = le32(total) + body;
    head + le32(spec_crc32(head)) + le32(total)
}

/// The record's lengths fit the format's `u32` fields.
pub open spec fn record_fits(lsn: u64, prev_lsn: Option<u64>, txn_id: u64, k: KindView) -> bool {
    &&& kind_fits(k)
    &&& body_bytes(lsn, prev_lsn, txn_id, k).len() + RECORD_FRAMING_LEN <= u32::MAX
}

/// The bytes a record of kind `k` takes in the log.
pub open spec fn record_len(k: KindView) -> int {
    (25 + payload_bytes(k).len() + 12) as int
}

pub proof fn lemma_le_lens()
    ensures
        forall|v: u16| #[trigger] le16(v).len() == 2,
        forall|v: u32| #[trigger] le32(v).len() == 4,
        forall|v: u64| #[trigger] le64(v).len() == 8,
{
    lemma_auto_spec_u16_to_from_le_bytes();
    lemma_auto_spec_u32_to_from_le_bytes();
    lemma_auto_spec_u64_to_from_le_bytes();
}

pub proof fn lemma_att_bytes_len(att: Seq<(u64, u64)>)
    ensures
        att_bytes(att).len() == 16 * att.len(),
    decreases att.len(),
{
    lemma_le_lens();
    if att.len() > 0 {
        lemma_att_bytes_len(att.drop_last());
    }
}

pub proof fn lemma_dpt_bytes_len(dpt: Seq<(u32, u64)>)
    ensures
        dpt_bytes(dpt).len() == 12 * dpt.len(),
    decreases dpt.len(),
{
    lemma_le_lens();
    if dpt.len() > 0 {
        lemma_dpt_bytes_len(dpt.drop_last());
    }
}

impl LogRecordKind {
    fn tag(&self) -> (t: u8)
        ensures
            t == kind_tag(self@),
    {
        match self {
            LogRecordKind::Begin => 0,
            LogRecordKind::Commit => 1,
            LogRecordKind::Abort => 2,
            LogRecordKind::End => 3,
            LogRecordKind::Update { .. } => 4,
            LogRecordKind::AllocPage { .. } => 5,
            LogRecordKind::Clr { .. } => 6,
            LogRecordKind::CheckpointBegin => 7,
            LogRecordKind::CheckpointEnd { .. } => 8,
        }
    }

    /// The bytes a record of this kind takes in the log.
    pub fn encoded_len(&self) -> (n: u64)
        requires
            kind_fits(self@),
        ensures
            n == record_len(self@),
    {
        proof {
            lemma_le_lens();
        }
        match self {
            LogRecordKind::Update { before, after, .. } => 37 + 14 + before.len() as u64
                + after.len() as u64,
            LogRecordKind::AllocPage { .. } => 37 + 4,
            LogRecordKind::Clr { after, .. } => 37 + 18 + after.len() as u64,
            LogRecordKind::CheckpointEnd { att, dpt } => {
                proof {
                    lemma_att_bytes_len(att_view(att@));
                    lemma_dpt_bytes_len(dpt_view(dpt@));
                }
                37 + 8 + 16 * att.len() as u64 + 12 * dpt.len() as u64
            },
            _ => 37,
        }
    }

    /// Whether every length this record stores fits its `u32` field.
    pub fn fits(&self) -> (b: bool)
        ensures
            b == kind_fits(self@),
    {
        match self {
            LogRecordKind::Update { before, after, .. } => before.len() as u64 <= 0xFFFF_FFFFu64
                && after.len() as u64 <= 0xFFFF_FFFFu64,
            LogRecordKind::Clr { after, .. } => after.len() as u64 <= 0xFFFF_FFFFu64,
            LogRecordKind::CheckpointEnd { att, dpt } => {
                proof {
                    assert(att_view(att@).len() == att@.len());
                    assert(dpt_view(dpt@).len() == dpt@.len());
                }
                att.len() as u64 <= 0xFFFF_FFFFu64 && dpt.len() as u64 <= 0xFFFF_FFFFu64
            },
            _ => true,
        }
    }

    fn encode_payload(&self, buf: &mut Vec<u8>)
        requires
            kind_fits(self@),
        ensures
            final(buf)@ == old(buf)@ + payload_bytes(self@),
    {
        match self {
            LogRecordKind::Update { page_id, offset, before, after } => {
                push_u32(buf, page_id.0);
                push_u16(buf, *offset);
                push_u32(buf, before.len() as u32);
                push_bytes(buf, before.as_slice());
                push_u32(buf, after.len() as u32);
                push_bytes(buf, after.as_slice());
                assert(buf@ =~= old(buf)@ + payload_bytes(self@));
            },
            LogRecordKind::AllocPage { page_id } => {
                push_u32(buf, page_id.0);
            },
            LogRecordKind::Clr { page_id, offset, after, undo_next_lsn } => {
                push_u32(buf, page_id.0);
                push_u16(buf, *offset);
                push_u32(buf, after.len() as u32);
                push_bytes(buf, after.as_slice());
                push_u64(buf, undo_next_lsn.0);
                assert(buf@ =~= old(buf)@ + payload_bytes(self@));
            },
            LogRecordKind::CheckpointEnd { att, dpt } => {
                let ghost av = att_view(att@);
                let ghost dv = dpt_view(dpt@);
                push_u32(buf, att.len() as u32);
                let ghost mid = buf@;
                let mut i: usize = 0;
                while i < att.len()
                    invariant
                        i <= att@.len(),
                        av == att_view(att@),
                        buf@ == mid + att_bytes(av.take(i as int)),
                    decreases att@.len() - i,
                {
                    let (txn_id, lsn) = att[i];
                    push_u64(buf, txn_id.0);
                    push_u64(buf, lsn.0);
                    proof {
                        assert(av.take(i as int + 1).drop_last() =~= av.take(i as int));
                    }
                    i = i + 1;
                }
                assert(av.take(i as int) =~= av);
                push_u32(buf, dpt.len() as u32);
                let ghost mid2 = buf@;
                let mut j: usize = 0;
                while j < dpt.len()
                    invariant
                        j <= dpt@.len(),
                        dv == dpt_view(dpt@),
                        buf@ == mid2 + dpt_bytes(dv.take(j as int)),
                    decreases dpt@.len() - j,
                {
                    let (page_id, lsn) = dpt[j];
                    push_u32(buf, page_id.0);
                    push_u64(buf, lsn.0);
                    proof {
                        assert(dv.take(j as int + 1).drop_last() =~= dv.take(j as int));
                    }
                    j = j + 1;
                }
                assert(dv.take(j as int) =~= dv);
                assert(buf@ =~= old(buf)@ + payload_bytes(self@));
            },
            _ => {
                assert(buf@ =~= old(buf)@ + payload_bytes(self@));
            },
        }
    }
}

/// Frames one record for the log.
pub fn encode_record(lsn: Lsn, prev_lsn: Option<Lsn>, txn_id: TxnId, kind: &LogRecordKind) -> (r:
    Vec<u8>)
    requires
        record_fits(
            lsn.0,
            match prev_lsn {
                Some(p) => Some(p.0),
                None => None,
            },
            txn_id.0,
            kind@,
        ),
    ensures
        r@ == record_bytes(
            lsn.0,
            match prev_lsn {
                Some(p) => Some(p.0),
                None => None,
            },
            txn_id.0,
            kind@,
        ),
{
    let ghost prev_v = match prev_lsn {
        Some(p) => Some(p.0),
        None => None,
    };
    let mut body: Vec<u8> = Vec::new();
    push_u64(&mut body, lsn.0);
    let prev_raw = match prev_lsn {
        Some(p) => p.0,
        None => 0,
    };
    push_u64(&mut body, prev_raw);
    push_u64(&mut body, txn_id.0);
    body.push(kind.tag());
    kind.encode_payload(&mut body);
    assert(body@ =~= body_bytes(lsn.0, prev_v, txn_id.0, kind@));
    let total = (body.len() + RECORD_FRAMING_LEN) as u32;
    let mut record: Vec<u8> = Vec::new();
    push_u32(&mut record, total);
    push_bytes(&mut record, body.as_slice());
    let crc = crc32(record.as_slice());
    push_u32(&mut record, crc);
    push_u32(&mut record, total);
    record
}


// ---------------------------------------------------------------------
// Decoding
// ---------------------------------------------------------------------

pub open spec fn take_u16(s: Seq<u8>, pos: int) -> Option<(u16, int)> {
    if 0 <= pos && pos + 2 <= s.len() {
        Some((le_u16_at(s, pos), pos + 2))
    } else {
        None
    }
}

pub open spec fn take_u32(s: Seq<u8>, pos: int) -> Option<(u32, int)> {
    if 0 <= pos && pos + 4 <= s.len() {
        Some((le_u32_at(s, pos), pos + 4))
    } else {
        None
    }
}

pub open spec fn take_u64(s: Seq<u8>, pos: int) -> Option<(u64, int)> {
    if 0 <= pos && pos + 8 <= s.len() {
        Some((le_u64_at(s, pos), pos + 8))
    } else {
        None
    }
}

/// A `u32` length followed by that many bytes.
pub open spec fn take_prefixed(s: Seq<u8>, pos: int) -> Option<(Seq<u8>, int)> {
    match take_u32(s, pos) {
        Some((n, p)) => if p + n <= s.len() {
            Some((s.subrange(p, p + n), p + n))
        } else {
            None
        },
        None => None,
    }
}

/// `n` consecutive `(u64, u64)` pairs.
pub open spec fn take_att(s: Seq<u8>, pos: int, n: nat) -> Option<(Seq<(u64, u64)>, int)>
    decreases n,
{
    if n == 0 {
        Some((Seq::empty(), pos))
    } else {
        match take_att(s, pos, (n - 1) as nat) {
            Some((v, p)) => match take_u64(s, p) {
                Some((a, p2)) => match take_u64(s, p2) {
                    Some((b, p3)) => Some((v.push((a, b)), p3)),
                    None => None,
                },
                None => None,
            },
            None => None,
        }
    }
}

/// `n` consecutive `(u32, u64)` pairs.
pub open spec fn take_dpt(s: Seq<u8>, pos: int, n: nat) -> Option<(Seq<(u32, u64)>, int)>
    decreases n,
{
    if n == 0 {
        Some((Seq::empty(), pos))
    } else {
        match take_dpt(s, pos, (n - 1) as nat) {
            Some((v, p)) => match take_u32(s, p) {
                Some((a, p2)) => match take_u64(s, p2) {
                    Some((b, p3)) => Some((v.push((a, b)), p3)),
                    None => None,
                },
                None => None,
            },
            None => None,
        }
    }
}

/// Parses the payload for `tag` from the front of `s`, giving the kind and
/// the position just past it.
pub open spec fn parse_kind(tag: u8, s: Seq<u8>) -> Option<(KindView, int)> {
    if tag == 0 {
        Some((KindView::Begin, 0))
    } else if tag == 1 {
        Some((KindView::Commit, 0))
    } else if tag == 2 {
        Some((KindView::Abort, 0))
    } else if tag == 3 {
        Some((KindView::End, 0))
    } else if tag == 4 {
        match take_u32(s, 0) {
            Some((page_id, p1)) => match take_u16(s, p1) {
                Some((offset, p2)) => match take_prefixed(s, p2) {
                    Some((before, p3)) => match take_prefixed(s, p3) {
                        Some((after, p4)) => Some(
                            (KindView::Update { page_id, offset, before, after }, p4),
                        ),
                        None => None,
                    },
                    None => None,
                },
                None => None,
            },
            None => None,
        }
    } else if tag == 5 {
        match take_u32(s, 0) {
            Some((page_id, p1)) => Some((KindView::AllocPage { page_id }, p1)),
            None => None,
        }
    } else if tag == 6 {
        match take_u32(s, 0) {
            Some((page_id, p1)) => match take_u16(s, p1) {
                Some((offset, p2)) => match take_prefixed(s, p2) {
                    Some((after, p3)) => match take_u64(s, p3) {
                        Some((undo_next_lsn, p4)) => Some(
                            (KindView::Clr { page_id, offset, after, undo_next_lsn }, p4),
                        ),
                        None => None,
                    },
                    None => None,
                },
                None => None,
            },
            None => None,
        }
    } else if tag == 7 {
        Some((KindView::CheckpointBegin, 0))
    } else if tag == 8 {
        match take_u32(s, 0) {
            Some((na, p1)) => match take_att(s, p1, na as nat) {
                Some((att, p2)) => match take_u32(s, p2) {
                    Some((nd, p3)) => match take_dpt(s, p3, nd as nat) {
                        Some((dpt, p4)) => Some((KindView::CheckpointEnd { att, dpt }, p4)),
                        None => None,
                    },
                    None => None,
                },
                None => None,
            },
            None => None,
        }
    } else {
        None
    }
}

/// The kind whose payload is exactly `s`, if any.
pub open spec fn parse_payload(tag: u8, s: Seq<u8>) -> Option<KindView> {
    match parse_kind(tag, s) {
        Some((k, end)) => if end == s.len() {
            Some(k)
        } else {
            None
        },
        None => None,
    }
}

/// The record framed at `pos`, with its length, if the framing, both
/// length fields, the CRC and the payload all check out.
pub open spec fn spec_decode_record(s: Seq<u8>, pos: int) -> Option<(RecordView, int)> {
    if !(0 <= pos && pos + 4 <= s.len()) {
        None
    } else {
        let total = le_u32_at(s, pos) as int;
        if total < MIN_RECORD_LEN || pos + total > s.len() {
            None
        } else {
            let rec = s.subrange(pos, pos + total);
            if rec.subrange(total - 4, total) != rec.subrange(0, 4) {
                None
            } else if spec_crc32(rec.subrange(0, total - 8)) != le_u32_at(rec, total - 8) {
                None
            } else {
                let body = rec.subrange(4, total - 8);
                let prev = le_u64_at(body, 8);
                match parse_payload(body[24], body.subrange(25, body.len() as int)) {
                    Some(k) => Some(
                        (
                            RecordView {
                                lsn: le_u64_at(body, 0),
                                prev_lsn: if prev == 0 {
                                    None
                                } else {
                                    Some(prev)
                                },
                                txn_id: le_u64_at(body, 16),
                                kind: k,
                            },
                            total,
                        ),
                    ),
                    None => None,
                }
            }
        }
    }
}

/// Once reading the pairs fails, reading more of them fails too.
proof fn lemma_take_att_stays_failed(s: Seq<u8>, pos: int, m: nat, n: nat)
    requires
        m <= n,
        take_att(s, pos, m) is None,
    ensures
        take_att(s, pos, n) is None,
    decreases n - m,
{
    if n > m {
        lemma_take_att_stays_failed(s, pos, m, (n - 1) as nat);
    }
}

/// Once reading the pairs fails, reading more of them fails too.
proof fn lemma_take_dpt_stays_failed(s: Seq<u8>, pos: int, m: nat, n: nat)
    requires
        m <= n,
        take_dpt(s, pos, m) is None,
    ensures
        take_dpt(s, pos, n) is None,
    decreases n - m,
{
    if n > m {
        lemma_take_dpt_stays_failed(s, pos, m, (n - 1) as nat);
    }
}

/// Reads fields off the front of a byte slice.
struct Cursor<'a> {
    bytes: &'a [u8],
    pos: usize,
}

impl<'a> Cursor<'a> {
    fn new(bytes: &'a [u8]) -> (c: Cursor<'a>)
        ensures
            c.bytes@ == bytes@,
            c.pos == 0,
    {
        Cursor { bytes, pos: 0 }
    }

    fn take(&mut self, n: usize) -> (r: Option<&'a [u8]>)
        requires
            old(self).pos <= old(self).bytes@.len(),
        ensures
            final(self).bytes@ == old(self).bytes@,
            final(self).pos <= final(self).bytes@.len(),
            old(self).pos + n <= old(self).bytes@.len() ==> {
                &&& r is Some
                &&& r->0@ == old(self).bytes@.subrange(
                    old(self).pos as int,
                    old(self).pos + n,
                )
                &&& final(self).pos == old(self).pos + n
            },
            old(self).pos + n > old(self).bytes@.len() ==> r is None && final(self).pos
                == old(self).pos,
    {
        if n > self.bytes.len() - self.pos {
            return None;
        }
        let slice = slice_subrange(self.bytes, self.pos, self.pos + n);
        self.pos = self.pos + n;
        Some(slice)
    }

    fn take_u16(&mut self) -> (r: Option<u16>)
        requires
            old(self).pos <= old(self).bytes@.len(),
        ensures
            final(self).bytes@ == old(self).bytes@,
            final(self).pos <= final(self).bytes@.len(),
            match take_u16(old(self).bytes@, old(self).pos as int) {
                Some((v, p)) => r == Some(v) && final(self).pos == p,
                None => r is None,
            },
    {
        if 2 > self.bytes.len() - self.pos {
            return None;
        }
        let v = read_u16(self.bytes, self.pos);
        self.pos = self.pos + 2;
        Some(v)
    }

    fn take_u32(&mut self) -> (r: Option<u32>)
        requires
            old(self).pos <= old(self).bytes@.len(),
        ensures
            final(self).bytes@ == old(self).bytes@,
            final(self).pos <= final(self).bytes@.len(),
            match take_u32(old(self).bytes@, old(self).pos as int) {
                Some((v, p)) => r == Some(v) && final(self).pos == p,
                None => r is None,
            },
    {
        if 4 > self.bytes.len() - self.pos {
            return None;
        }
        let v = read_u32(self.bytes, self.pos);
        self.pos = self.pos + 4;
        Some(v)
    }

    fn take_u64(&mut self) -> (r: Option<u64>)
        requires
            old(self).pos <= old(self).bytes@.len(),
        ensures
            final(self).bytes@ == old(self).bytes@,
            final(self).pos <= final(self).bytes@.len(),
            match take_u64(old(self).bytes@, old(self).pos as int) {
                Some((v, p)) => r == Some(v) && final(self).pos == p,
                None => r is None,
            },
    {
        if 8 > self.bytes.len() - self.pos {
            return None;
        }
        let v = read_u64(self.bytes, self.pos);
        self.pos = self.pos + 8;
        Some(v)
    }

    fn take_len_prefixed(&mut self) -> (r: Option<Vec<u8>>)
        requires
            old(self).pos <= old(self).bytes@.len(),
        ensures
            final(self).bytes@ == old(self).bytes@,
            final(self).pos <= final(self).bytes@.len(),
            match take_prefixed(old(self).bytes@, old(self).pos as int) {
                Some((v, p)) => r is Some && r->0@ == v && final(self).pos == p,
                None => r is None,
            },
    {
        let len = match self.take_u32() {
            Some(len) => len,
            None => return None,
        };
        if len as usize > self.bytes.len() - self.pos {
            return None;
        }
        match self.take(len as usize) {
            Some(slice) => Some(slice_to_vec(slice)),
            None => None,
        }
    }

    fn exhausted(&self) -> (b: bool)
        ensures
            b == (self.pos == self.bytes@.len()),
    {
        self.pos == self.bytes.len()
    }
}

impl LogRecordKind {
    /// Parses a payload for `tag`; `None` unless `bytes` is exactly one
    /// well-formed payload.
    pub fn decode_payload(tag: u8, bytes: &[u8]) -> (r: Option<LogRecordKind>)
        ensures
            match parse_payload(tag, bytes@) {
                Some(k) => r is Some && r->0@ == k,
                None => r is None,
            },
    {
        let mut cursor = Cursor::new(bytes);
        let kind = if tag == 0 {
            LogRecordKind::Begin
        } else if tag == 1 {
            LogRecordKind::Commit
        } else if tag == 2 {
            LogRecordKind::Abort
        } else if tag == 3 {
            LogRecordKind::End
        } else if tag == 4 {
            let page_id = match cursor.take_u32() {
                Some(v) => v,
                None => return None,
            };
            let offset = match cursor.take_u16() {
                Some(v) => v,
                None => return None,
            };
            let before = match cursor.take_len_prefixed() {
                Some(v) => v,
                None => return None,
            };
            let after = match cursor.take_len_prefixed() {
                Some(v) => v,
                None => return None,
            };
            LogRecordKind::Update { page_id: PageId(page_id), offset, before, after }
        } else if tag == 5 {
            let page_id = match cursor.take_u32() {
                Some(v) => v,
                None => return None,
            };
            LogRecordKind::AllocPage { page_id: PageId(page_id) }
        } else if tag == 6 {
            let page_id = match cursor.take_u32() {
                Some(v) => v,
                None => return None,
            };
            let offset = match cursor.take_u16() {
                Some(v) => v,
                None => return None,
            };
            let after = match cursor.take_len_prefixed() {
                Some(v) => v,
                None => return None,
            };
            let undo_next_lsn = match cursor.take_u64() {
                Some(v) => v,
                None => return None,
            };
            LogRecordKind::Clr {
                page_id: PageId(page_id),
                offset,
                after,
                undo_next_lsn: Lsn(undo_next_lsn),
            }
        } else if tag == 7 {
            LogRecordKind::CheckpointBegin
        } else if tag == 8 {
            let att_len = match cursor.take_u32() {
                Some(v) => v,
                None => return None,
            };
            let ghost p1 = cursor.pos as int;
            let mut att: Vec<(TxnId, Lsn)> = Vec::new();
            let mut i: u32 = 0;
            while i < att_len
                invariant
                    tag == 8,
                    take_u32(bytes@, 0) == Some((att_len, p1)),
                    cursor.bytes@ == bytes@,
                    cursor.pos <= cursor.bytes@.len(),
                    i <= att_len,
                    take_att(bytes@, p1, i as nat) == Some((att_view(att@), cursor.pos as int)),
                decreases att_len - i,
            {
                let txn_id = match cursor.take_u64() {
                    Some(v) => v,
                    None => {
                        proof {
                            assert(take_att(bytes@, p1, (i + 1) as nat) is None);
                            lemma_take_att_stays_failed(bytes@, p1, (i + 1) as nat, att_len as nat);
                            assert(parse_kind(tag, bytes@) is None);
                        }
                        return None;
                    },
                };
                let lsn = match cursor.take_u64() {
                    Some(v) => v,
                    None => {
                        proof {
                            assert(take_att(bytes@, p1, (i + 1) as nat) is None);
                            lemma_take_att_stays_failed(bytes@, p1, (i + 1) as nat, att_len as nat);
                            assert(parse_kind(tag, bytes@) is None);
                        }
                        return None;
                    },
                };
                let ghost before_push = att@;
                att.push((TxnId(txn_id), Lsn(lsn)));
                proof {
                    assert(att_view(att@) =~= att_view(before_push).push((txn_id, lsn)));
                }
                i = i + 1;
            }
            let ghost p2 = cursor.pos as int;
            let dpt_len = match cursor.take_u32() {
                Some(v) => v,
                None => return None,
            };
            let ghost p3 = cursor.pos as int;
            let mut dpt: Vec<(PageId, Lsn)> = Vec::new();
            let mut j: u32 = 0;
            while j < dpt_len
                invariant
                    tag == 8,
                    take_u32(bytes@, 0) == Some((att_len, p1)),
                    take_att(bytes@, p1, att_len as nat) == Some((att_view(att@), p2)),
                    take_u32(bytes@, p2) == Some((dpt_len, p3)),
                    cursor.bytes@ == bytes@,
                    cursor.pos <= cursor.bytes@.len(),
                    j <= dpt_len,
                    take_dpt(bytes@, p3, j as nat) == Some((dpt_view(dpt@), cursor.pos as int)),
                decreases dpt_len - j,
            {
                let page_id = match cursor.take_u32() {
                    Some(v) => v,
                    None => {
                        proof {
                            assert(take_dpt(bytes@, p3, (j + 1) as nat) is None);
                            lemma_take_dpt_stays_failed(bytes@, p3, (j + 1) as nat, dpt_len as nat);
                            assert(parse_kind(tag, bytes@) is None);
                        }
                        return None;
                    },
                };
                let lsn = match cursor.take_u64() {
                    Some(v) => v,
                    None => {
                        proof {
                            assert(take_dpt(bytes@, p3, (j + 1) as nat) is None);
                            lemma_take_dpt_stays_failed(bytes@, p3, (j + 1) as nat, dpt_len as nat);
                            assert(parse_kind(tag, bytes@) is None);
                        }
                        return None;
                    },
                };
                let ghost before_push = dpt@;
                dpt.push((PageId(page_id), Lsn(lsn)));
                proof {
                    assert(dpt_view(dpt@) =~= dpt_view(before_push).push((page_id, lsn)));
                }
                j = j + 1;
            }
            LogRecordKind::CheckpointEnd { att, dpt }
        } else {
            return None;
        };
        if cursor.exhausted() {
            Some(kind)
        } else {
            None
        }
    }
}

/// Decodes the record framed at `pos`, giving it and its length.
pub fn decode_record(bytes: &[u8], pos: usize) -> (r: Option<(LoggedRecord, usize)>)
    ensures
        match spec_decode_record(bytes@, pos as int) {
            Some((v, len)) => match r {
                Some((rec, n)) => rec@ == v && n == len,
                None => false,
            },
            None => r is None,
        },
{
    if pos > bytes.len() || 4 > bytes.len() - pos {
        return None;
    }
    let total_len = read_u32(bytes, pos) as usize;
    if total_len < MIN_RECORD_LEN || total_len > bytes.len() - pos {
        return None;
    }
    let record = slice_subrange(bytes, pos, pos + total_len);
    let front = slice_subrange(record, 0, 4);
    let trailing = slice_subrange(record, total_len - 4, total_len);
    if !(front[0] == trailing[0] && front[1] == trailing[1] && front[2] == trailing[2] && front[3]
        == trailing[3]) {
        proof {
            assert(front@ != trailing@ ==> true);
            if record@.subrange(total_len - 4, total_len as int) == record@.subrange(0, 4) {
                assert(front@[0] == trailing@[0]);
                assert(front@[1] == trailing@[1]);
                assert(front@[2] == trailing@[2]);
                assert(front@[3] == trailing@[3]);
            }
        }
        return None;
    }
    proof {
        assert(record@.subrange(total_len - 4, total_len as int) =~= record@.subrange(0, 4));
    }
    let stored_crc = read_u32(record, total_len - 8);
    if crc32(slice_subrange(record, 0, total_len - 8)) != stored_crc {
        return None;
    }
    let body = slice_subrange(record, 4, total_len - 8);
    let lsn = read_u64(body, 0);
    let prev_raw = read_u64(body, 8);
    let txn_id = read_u64(body, 16);
    let tag = body[24];
    let kind = match LogRecordKind::decode_payload(tag, slice_subrange(body, 25, body.len())) {
        Some(k) => k,
        None => return None,
    };
    let prev_lsn = if prev_raw == 0 {
        None
    } else {
        Some(Lsn(prev_raw))
    };
    Some((LoggedRecord { lsn: Lsn(lsn), prev_lsn, txn_id: TxnId(txn_id), kind }, total_len))
}


// ---------------------------------------------------------------------
// The encoding round-trips
// ---------------------------------------------------------------------

proof fn lemma_take_u16_of(s: Seq<u8>, pos: int, v: u16)
    requires
        0 <= pos,
        pos + 2 <= s.len(),
        s.subrange(pos, pos + 2) == le16(v),
    ensures
        take_u16(s, pos) == Some((v, pos + 2)),
{
    lemma_auto_spec_u16_to_from_le_bytes();
    assert(spec_u16_to_le_bytes(v).len() == 2);
    assert(spec_u16_from_le_bytes(spec_u16_to_le_bytes(v)) == v);
}

proof fn lemma_take_u32_of(s: Seq<u8>, pos: int, v: u32)
    requires
        0 <= pos,
        pos + 4 <= s.len(),
        s.subrange(pos, pos + 4) == le32(v),
    ensures
        take_u32(s, pos) == Some((v, pos + 4)),
{
    lemma_auto_spec_u32_to_from_le_bytes();
    assert(spec_u32_to_le_bytes(v).len() == 4);
    assert(spec_u32_from_le_bytes(spec_u32_to_le_bytes(v)) == v);
}

proof fn lemma_take_u64_of(s: Seq<u8>, pos: int, v: u64)
    requires
        0 <= pos,
        pos + 8 <= s.len(),
        s.subrange(pos, pos + 8) == le64(v),
    ensures
        take_u64(s, pos) == Some((v, pos + 8)),
{
    lemma_auto_spec_u64_to_from_le_bytes();
}

proof fn lemma_take_prefixed_of(s: Seq<u8>, pos: int, x: Seq<u8>)
    requires
        0 <= pos,
        x.len() <= u32::MAX,
        pos + 4 + x.len() <= s.len(),
        s.subrange(pos, pos + 4) == le32(x.len() as u32),
        s.subrange(pos + 4, pos + 4 + x.len()) == x,
    ensures
        take_prefixed(s, pos) == Some((x, pos + 4 + x.len())),
{
    lemma_take_u32_of(s, pos, x.len() as u32);
}

proof fn lemma_take_att_of(s: Seq<u8>, pos: int, att: Seq<(u64, u64)>)
    requires
        0 <= pos,
        pos + att_bytes(att).len() <= s.len(),
        s.subrange(pos, pos + att_bytes(att).len()) == att_bytes(att),
    ensures
        take_att(s, pos, att.len()) == Some((att, pos + att_bytes(att).len())),
    decreases att.len(),
{
    lemma_le_lens();
    lemma_att_bytes_len(att);
    if att.len() > 0 {
        let init = att.drop_last();
        let e = att.last();
        lemma_att_bytes_len(init);
        let n = att_bytes(init).len() as int;
        assert(s.subrange(pos, pos + n) =~= att_bytes(att).subrange(0, n));
        assert(att_bytes(att).subrange(0, n) =~= att_bytes(init));
        lemma_take_att_of(s, pos, init);
        assert(s.subrange(pos + n, pos + n + 8) =~= att_bytes(att).subrange(n, n + 8));
        assert(att_bytes(att).subrange(n, n + 8) =~= le64(e.0));
        lemma_take_u64_of(s, pos + n, e.0);
        assert(s.subrange(pos + n + 8, pos + n + 16) =~= att_bytes(att).subrange(n + 8, n + 16));
        assert(att_bytes(att).subrange(n + 8, n + 16) =~= le64(e.1));
        lemma_take_u64_of(s, pos + n + 8, e.1);
        assert(((att.len() - 1) as nat) == init.len());
        assert(init.push(e) =~= att);
    }
}

proof fn lemma_take_dpt_of(s: Seq<u8>, pos: int, dpt: Seq<(u32, u64)>)
    requires
        0 <= pos,
        pos + dpt_bytes(dpt).len() <= s.len(),
        s.subrange(pos, pos + dpt_bytes(dpt).len()) == dpt_bytes(dpt),
    ensures
        take_dpt(s, pos, dpt.len()) == Some((dpt, pos + dpt_bytes(dpt).len())),
    decreases dpt.len(),
{
    lemma_le_lens();
    lemma_dpt_bytes_len(dpt);
    if dpt.len() > 0 {
        let init = dpt.drop_last();
        let e = dpt.last();
        lemma_dpt_bytes_len(init);
        let n = dpt_bytes(init).len() as int;
        assert(s.subrange(pos, pos + n) =~= dpt_bytes(dpt).subrange(0, n));
        assert(dpt_bytes(dpt).subrange(0, n) =~= dpt_bytes(init));
        lemma_take_dpt_of(s, pos, init);
        assert(s.subrange(pos + n, pos + n + 4) =~= dpt_bytes(dpt).subrange(n, n + 4));
        assert(dpt_bytes(dpt).subrange(n, n + 4) =~= le32(e.0));
        lemma_take_u32_of(s, pos + n, e.0);
        assert(s.subrange(pos + n + 4, pos + n + 12) =~= dpt_bytes(dpt).subrange(n + 4, n + 12));
        assert(dpt_bytes(dpt).subrange(n + 4, n + 12) =~= le64(e.1));
        lemma_take_u64_of(s, pos + n + 4, e.1);
        assert(((dpt.len() - 1) as nat) == init.len());
        assert(init.push(e) =~= dpt);
    }
}

/// Decoding a payload gives back the kind that was encoded.
pub proof fn lemma_payload_round_trip(k: KindView)
    requires
        kind_fits(k),
    ensures
        parse_payload(kind_tag(k), payload_bytes(k)) == Some(k),
{
    lemma_le_lens();
    let s = payload_bytes(k);
    match k {
        KindView::Update { page_id, offset, before, after } => {
            let b = before.len() as int;
            let a = after.len() as int;
            assert(s.subrange(0, 4) =~= le32(page_id));
            lemma_take_u32_of(s, 0, page_id);
            assert(s.subrange(4, 6) =~= le16(offset));
            lemma_take_u16_of(s, 4, offset);
            assert(s.subrange(6, 10) =~= le32(before.len() as u32));
            assert(s.subrange(10, 10 + b) =~= before);
            lemma_take_prefixed_of(s, 6, before);
            assert(s.subrange(10 + b, 14 + b) =~= le32(after.len() as u32));
            assert(s.subrange(14 + b, 14 + b + a) =~= after);
            lemma_take_prefixed_of(s, 10 + b, after);
        },
        KindView::AllocPage { page_id } => {
            assert(s.subrange(0, 4) =~= le32(page_id));
            lemma_take_u32_of(s, 0, page_id);
        },
        KindView::Clr { page_id, offset, after, undo_next_lsn } => {
            let a = after.len() as int;
            assert(s.subrange(0, 4) =~= le32(page_id));
            lemma_take_u32_of(s, 0, page_id);
            assert(s.subrange(4, 6) =~= le16(offset));
            lemma_take_u16_of(s, 4, offset);
            assert(s.subrange(6, 10) =~= le32(after.len() as u32));
            assert(s.subrange(10, 10 + a) =~= after);
            lemma_take_prefixed_of(s, 6, after);
            assert(s.subrange(10 + a, 18 + a) =~= le64(undo_next_lsn));
            lemma_take_u64_of(s, 10 + a, undo_next_lsn);
        },
        KindView::CheckpointEnd { att, dpt } => {
            let na = att_bytes(att).len() as int;
            let nd = dpt_bytes(dpt).len() as int;
            assert(s.subrange(0, 4) =~= le32(att.len() as u32));
            lemma_take_u32_of(s, 0, att.len() as u32);
            assert(s.subrange(4, 4 + na) =~= att_bytes(att));
            lemma_take_att_of(s, 4, att);
            assert(s.subrange(4 + na, 8 + na) =~= le32(dpt.len() as u32));
            lemma_take_u32_of(s, 4 + na, dpt.len() as u32);
            assert(s.subrange(8 + na, 8 + na + nd) =~= dpt_bytes(dpt));
            lemma_take_dpt_of(s, 8 + na, dpt);
        },
        _ => {},
    }
}

proof fn lemma_took_u16(s: Seq<u8>, pos: int)
    requires
        take_u16(s, pos) is Some,
    ensures
        s.subrange(pos, pos + 2) == le16((take_u16(s, pos)->0).0),
{
    lemma_auto_spec_u16_to_from_le_bytes();
    assert(s.subrange(pos, pos + 2).len() == 2);
}

proof fn lemma_took_u32(s: Seq<u8>, pos: int)
    requires
        take_u32(s, pos) is Some,
    ensures
        s.subrange(pos, pos + 4) == le32((take_u32(s, pos)->0).0),
{
    lemma_auto_spec_u32_to_from_le_bytes();
    assert(s.subrange(pos, pos + 4).len() == 4);
}

proof fn lemma_took_u64(s: Seq<u8>, pos: int)
    requires
        take_u64(s, pos) is Some,
    ensures
        s.subrange(pos, pos + 8) == le64((take_u64(s, pos)->0).0),
{
    lemma_auto_spec_u64_to_from_le_bytes();
    assert(s.subrange(pos, pos + 8).len() == 8);
}

proof fn lemma_took_prefixed(s: Seq<u8>, pos: int)
    requires
        take_prefixed(s, pos) is Some,
    ensures
        ({
            let (b, p) = take_prefixed(s, pos)->0;
            &&& p == pos + 4 + b.len()
            &&& b.len() <= u32::MAX
            &&& s.subrange(pos, p) == le32(b.len() as u32) + b
        }),
{
    lemma_took_u32(s, pos);
    let (b, p) = take_prefixed(s, pos)->0;
    assert(s.subrange(pos, p) =~= s.subrange(pos, pos + 4) + b);
}

proof fn lemma_took_att(s: Seq<u8>, pos: int, n: nat)
    requires
        0 <= pos <= s.len(),
        take_att(s, pos, n) is Some,
    ensures
        ({
            let (v, p) = take_att(s, pos, n)->0;
            &&& v.len() == n
            &&& pos <= p <= s.len()
            &&& s.subrange(pos, p) == att_bytes(v)
        }),
    decreases n,
{
    if n > 0 {
        lemma_took_att(s, pos, (n - 1) as nat);
        let (v0, p0) = take_att(s, pos, (n - 1) as nat)->0;
        lemma_took_u64(s, p0);
        lemma_took_u64(s, p0 + 8);
        let (v, p) = take_att(s, pos, n)->0;
        assert(p == p0 + 16);
        assert(v.drop_last() =~= v0);
        assert(s.subrange(pos, p) =~= s.subrange(pos, p0) + s.subrange(p0, p0 + 8) + s.subrange(p0 + 8, p0 + 16));
    }
}

proof fn lemma_took_dpt(s: Seq<u8>, pos: int, n: nat)
    requires
        0 <= pos <= s.len(),
        take_dpt(s, pos, n) is Some,
    ensures
        ({
            let (v, p) = take_dpt(s, pos, n)->0;
            &&& v.len() == n
            &&& pos <= p <= s.len()
            &&& s.subrange(pos, p) == dpt_bytes(v)
        }),
    decreases n,
{
    if n > 0 {
        lemma_took_dpt(s, pos, (n - 1) as nat);
        let (v0, p0) = take_dpt(s, pos, (n - 1) as nat)->0;
        lemma_took_u32(s, p0);
        lemma_took_u64(s, p0 + 4);
        let (v, p) = take_dpt(s, pos, n)->0;
        assert(p == p0 + 12);
        assert(v.drop_last() =~= v0);
        assert(s.subrange(pos, p) =~= s.subrange(pos, p0) + s.subrange(p0, p0 + 4) + s.subrange(p0 + 4, p0 + 12));
    }
}

/// A payload decodes only when it is the encoding of what it decodes to,
/// under that kind's tag: decoding accepts encodings and nothing else.
pub proof fn lemma_payload_decodes_only_encodings(tag: u8, s: Seq<u8>)
    requires
        parse_payload(tag, s) is Some,
    ensures
        kind_tag(parse_payload(tag, s)->0) == tag,
        payload_bytes(parse_payload(tag, s)->0) == s,
        kind_fits(parse_payload(tag, s)->0),
{
    lemma_le_lens();
    let k = parse_payload(tag, s)->0;
    if tag == 4 {
        lemma_took_u32(s, 0);
        lemma_took_u16(s, 4);
        lemma_took_prefixed(s, 6);
        let (b, p3) = take_prefixed(s, 6)->0;
        lemma_took_prefixed(s, p3);
        let (a, p4) = take_prefixed(s, p3)->0;
        assert(s =~= s.subrange(0, 4) + s.subrange(4, 6) + s.subrange(6, p3) + s.subrange(p3, p4));
    } else if tag == 5 {
        lemma_took_u32(s, 0);
        assert(s =~= s.subrange(0, 4));
    } else if tag == 6 {
        lemma_took_u32(s, 0);
        lemma_took_u16(s, 4);
        lemma_took_prefixed(s, 6);
        let (a, p3) = take_prefixed(s, 6)->0;
        lemma_took_u64(s, p3);
        assert(s =~= s.subrange(0, 4) + s.subrange(4, 6) + s.subrange(6, p3) + s.subrange(p3, p3 + 8));
    } else if tag == 8 {
        lemma_took_u32(s, 0);
        let (na, p1) = take_u32(s, 0)->0;
        lemma_took_att(s, p1, na as nat);
        let (att, p2) = take_att(s, p1, na as nat)->0;
        lemma_took_u32(s, p2);
        let (nd, p3) = take_u32(s, p2)->0;
        lemma_took_dpt(s, p3, nd as nat);
        let (dpt, p4) = take_dpt(s, p3, nd as nat)->0;
        assert(s =~= s.subrange(0, 4) + s.subrange(4, p2) + s.subrange(p2, p3) + s.subrange(p3, p4));
    } else {
        assert(s =~= Seq::<u8>::empty());
    }
}

/// Decoding a framed record gives back what was encoded, wherever in a
/// byte sequence it sits. The one exception is a `prev_lsn` of
/// `Some(0)`, which the format cannot tell apart from "none".
pub proof fn lemma_record_round_trip(
    s: Seq<u8>,
    pos: int,
    lsn: u64,
    prev_lsn: Option<u64>,
    txn_id: u64,
    k: KindView,
)
    requires
        record_fits(lsn, prev_lsn, txn_id, k),
        prev_lsn != Some(0u64),
        0 <= pos,
        pos + record_bytes(lsn, prev_lsn, txn_id, k).len() <= s.len(),
        s.subrange(pos, pos + record_bytes(lsn, prev_lsn, txn_id, k).len()) == record_bytes(
            lsn,
            prev_lsn,
            txn_id,
            k,
        ),
    ensures
        spec_decode_record(s, pos) == Some(
            (
                RecordView { lsn, prev_lsn, txn_id, kind: k },
                record_bytes(lsn, prev_lsn, txn_id, k).len() as int,
            ),
        ),
{
    lemma_le_lens();
    lemma_auto_spec_u32_to_from_le_bytes();
    lemma_auto_spec_u64_to_from_le_bytes();
    lemma_payload_round_trip(k);
    let body = body_bytes(lsn, prev_lsn, txn_id, k);
    let rec = record_bytes(lsn, prev_lsn, txn_id, k);
    let total = (body.len() + RECORD_FRAMING_LEN) as u32;
    let head = le32(total) + body;
    let t = total as int;
    assert(rec.len() == t);
    assert(s.subrange(pos, pos + 4) =~= rec.subrange(0, 4));
    assert(rec.subrange(0, 4) =~= le32(total));
    assert(le_u32_at(s, pos) == total);
    let r = s.subrange(pos, pos + t);
    assert(r =~= rec);
    assert(rec.subrange(t - 4, t) =~= le32(total));
    assert(rec.subrange(0, t - 8) =~= head);
    assert(rec.subrange(t - 8, t - 4) =~= le32(spec_crc32(head)));
    let b = rec.subrange(4, t - 8);
    assert(b =~= body);
    let prev_raw: u64 = match prev_lsn {
        Some(p) => p,
        None => 0,
    };
    assert(body.subrange(0, 8) =~= le64(lsn));
    assert(body.subrange(8, 16) =~= le64(prev_raw));
    assert(body.subrange(16, 24) =~= le64(txn_id));
    assert(body[24] == kind_tag(k));
    assert(body.subrange(25, body.len() as int) =~= payload_bytes(k));
}

} // verus!
