//! The write-ahead log: records appended to an in-memory buffer, flushed
//! to the active segment, which rolls over to a new segment once it is
//! large enough; old segments are dropped once recovery no longer needs
//! them.

use vstd::prelude::*;

use crate::block_device::{written, BlockDevice, DeviceError};
use crate::error::StorageError;
use crate::fmt::push_str;
use vstd::bytes::*;
use crate::ids::{Lsn, TxnId};
use crate::keyed::KeyedVec;
use crate::segment::{
    at_or_after, decode_into, read_record_at, read_segment_header, record_at, scan, scan_end, scan_segment,
    segment_header, write_segment_header, HEADER_LEN, SEGMENT_HEADER_LEN,
};
use crate::wal::{
    decode_record, encode_record, kind_fits, payload_bytes, record_bytes, record_fits,
    spec_decode_record, record_len, KindView, LogRecord, LoggedRecord, RecordView, CHECKPOINT_TXN_ID,
};

verus! {

/// Where a log's segments live, by id.
pub trait SegmentStore {
    type Device: BlockDevice;

    /// The ids of the segments that exist, in ascending order.
    fn existing_segments(&self) -> (r: Result<Vec<u64>, StorageError>);

    /// Opens segment `id`, creating it empty if it does not exist.
    fn open(&self, id: u64) -> (r: Result<Self::Device, StorageError>)
        ensures
            r matches Ok(d) ==> d.inv(),
    ;

    /// Deletes segment `id`; deleting one that does not exist succeeds.
    fn remove(&self, id: u64) -> (r: Result<(), StorageError>);
}

pub open spec fn no_segment_id_reason() -> Seq<char> {
    "write-ahead log has no segment id left to roll to"@
}

pub open spec fn no_store_reason() -> Seq<char> {
    "a log opened from a single device has no segment store to roll to"@
}

/// The store of a log kept on a single device: it has no segments and
/// cannot open any.
pub struct NoSegmentStore<D> {
    device: Option<D>,
}

impl<D> NoSegmentStore<D> {
    pub fn new() -> (s: Self) {
        NoSegmentStore { device: None }
    }
}

impl<D: BlockDevice> SegmentStore for NoSegmentStore<D> {
    type Device = D;

    fn existing_segments(&self) -> (r: Result<Vec<u64>, StorageError>)
        ensures
            r matches Ok(ids) && ids@.len() == 0,
    {
        Ok(Vec::new())
    }

    fn open(&self, id: u64) -> (r: Result<D, StorageError>)
        ensures
            r matches Err(StorageError::CorruptLogHeader { reason }) && reason@ == no_store_reason(),
    {
        let mut reason = String::new();
        push_str(&mut reason, "a log opened from a single device has no segment store to roll to");
        Err(StorageError::CorruptLogHeader { reason })
    }

    fn remove(&self, id: u64) -> (r: Result<(), StorageError>)
        ensures
            r is Ok,
    {
        Ok(())
    }
}

/// A sealed segment: its id, the LSN its body starts at, and its device.
pub struct SegmentMeta<D> {
    id: u64,
    start_lsn: u64,
    device: D,
}


pub proof fn lemma_record_len(lsn: u64, prev_lsn: Option<u64>, txn_id: u64, k: KindView)
    ensures
        record_bytes(lsn, prev_lsn, txn_id, k).len() == record_len(k),
        record_fits(lsn, prev_lsn, txn_id, k) <==> (kind_fits(k) && record_len(k) <= u32::MAX),
{
    crate::wal::lemma_le_lens();
}

pub proof fn lemma_record_len_positive(k: KindView)
    ensures
        record_len(k) >= 37,
{
}

/// The last sealed segment whose body starts at or before `lsn`.
pub open spec fn find_sealed(starts: Seq<u64>, lsn: u64) -> Option<int>
    decreases starts.len(),
{
    if starts.len() == 0 {
        None
    } else if starts.last() <= lsn {
        Some(starts.len() - 1)
    } else {
        find_sealed(starts.drop_last(), lsn)
    }
}

/// Each transaction's last record among `recs`, on top of `m`.
pub open spec fn last_lsns_after(m: Map<u64, u64>, recs: Seq<RecordView>) -> Map<u64, u64>
    decreases recs.len(),
{
    if recs.len() == 0 {
        m
    } else {
        last_lsns_after(m, recs.drop_last()).insert(recs.last().txn_id, recs.last().lsn)
    }
}

pub open spec fn opt_lsn(o: Option<Lsn>) -> Option<u64> {
    match o {
        Some(l) => Some(l.0),
        None => None,
    }
}

/// What the log holds, as seen by its readers.
pub struct LogView {
    pub sealed_ids: Seq<u64>,
    pub sealed_starts: Seq<u64>,
    pub sealed_contents: Seq<Seq<u8>>,
    pub active_id: u64,
    pub active_start: u64,
    pub active_contents: Seq<u8>,
    pub buffer: Seq<u8>,
    pub next_lsn: u64,
    pub durable_lsn: u64,
    pub last_lsns: Map<u64, u64>,
    pub bytes_appended: u64,
    pub target_segment_size: u64,
}

/// The record `read_at(lsn)` gives: none at LSN 0; from the buffer at or
/// past the durable LSN; otherwise from the segment holding `lsn`.
pub open spec fn spec_read_at(v: LogView, lsn: u64) -> Option<RecordView> {
    if lsn == 0 {
        None
    } else if lsn >= v.durable_lsn {
        record_at(v.buffer, lsn - v.durable_lsn)
    } else if lsn >= v.active_start {
        record_at(v.active_contents, SEGMENT_HEADER_LEN + (lsn - v.active_start))
    } else {
        match find_sealed(v.sealed_starts, lsn) {
            Some(i) => record_at(
                v.sealed_contents[i],
                SEGMENT_HEADER_LEN + (lsn - v.sealed_starts[i]),
            ),
            None => None,
        }
    }
}

/// The log's durable shape: the active segment carries its header and
/// ends at the durable LSN.
pub open spec fn healthy(v: LogView) -> bool {
    &&& v.active_contents.len() >= SEGMENT_HEADER_LEN
    &&& v.active_contents.subrange(0, 16) == segment_header(v.active_start)
    &&& v.durable_lsn == v.active_start + (v.active_contents.len() - SEGMENT_HEADER_LEN)
}

/// The log after appending a record of `kind` for `txn_id`.
pub open spec fn after_append(v: LogView, txn_id: u64, kind: KindView) -> LogView {
    let prev = if v.last_lsns.dom().contains(txn_id) {
        Some(v.last_lsns[txn_id])
    } else {
        None
    };
    let bytes = record_bytes(v.next_lsn, prev, txn_id, kind);
    LogView {
        buffer: v.buffer + bytes,
        next_lsn: (v.next_lsn + bytes.len()) as u64,
        last_lsns: v.last_lsns.insert(txn_id, v.next_lsn),
        bytes_appended: (v.bytes_appended + bytes.len()) as u64,
        ..v
    }
}

/// The log after a flush that wrote the buffer to the active segment and,
/// when the segment reached its target size, rolled to a new one.
pub open spec fn after_flush(v: LogView) -> LogView {
    let data = v.active_contents + v.buffer;
    let flushed = LogView {
        active_contents: data,
        buffer: Seq::empty(),
        durable_lsn: v.next_lsn,
        ..v
    };
    if data.len() >= SEGMENT_HEADER_LEN && data.len() - SEGMENT_HEADER_LEN >= v.target_segment_size {
        LogView {
            sealed_ids: v.sealed_ids.push(v.active_id),
            sealed_starts: v.sealed_starts.push(v.active_start),
            sealed_contents: v.sealed_contents.push(data),
            active_id: (v.active_id + 1) as u64,
            active_start: v.next_lsn,
            active_contents: segment_header(v.next_lsn),
            ..flushed
        }
    } else {
        flushed
    }
}

/// The log's counters agree: the next LSN is the durable LSN plus what
/// is buffered.
pub open spec fn consistent(v: LogView) -> bool {
    &&& v.next_lsn == v.durable_lsn + v.buffer.len()
    &&& v.sealed_starts.len() == v.sealed_ids.len()
    &&& v.sealed_contents.len() == v.sealed_ids.len()
}

/// Decoding past a prefix is decoding the rest.
pub proof fn lemma_decode_after_prefix(a: Seq<u8>, b: Seq<u8>, p: int)
    requires
        0 <= p,
    ensures
        spec_decode_record(a + b, a.len() + p) == spec_decode_record(b, p),
{
    let s = a + b;
    let q = a.len() + p;
    if p + 4 <= b.len() {
        assert(s.subrange(q, q + 4) =~= b.subrange(p, p + 4));
        let total = crate::codec::le_u32_at(b, p) as int;
        if p + total <= b.len() {
            assert(s.subrange(q, q + total) =~= b.subrange(p, p + total));
        }
    }
}

/// A record that decodes still decodes the same with more bytes after it.
pub proof fn lemma_decode_extend(s: Seq<u8>, t: Seq<u8>, p: int)
    requires
        spec_decode_record(s, p) is Some,
    ensures
        spec_decode_record(s + t, p) == spec_decode_record(s, p),
{
    let u = s + t;
    assert(u.subrange(p, p + 4) =~= s.subrange(p, p + 4));
    let total = crate::codec::le_u32_at(s, p) as int;
    assert(u.subrange(p, p + total) =~= s.subrange(p, p + total));
}

/// Where segment `i` of the log ends: where the next begins.
pub open spec fn segment_end(starts: Seq<u64>, active_start: u64, i: int) -> u64 {
    if i + 1 < starts.len() {
        starts[i + 1]
    } else {
        active_start
    }
}

/// How many of the oldest sealed segments, from `i` on, end at or below
/// `bound`.
pub open spec fn ends_below(starts: Seq<u64>, active_start: u64, bound: u64, i: int) -> int
    decreases starts.len() - i,
{
    if 0 <= i < starts.len() && segment_end(starts, active_start, i) <= bound {
        ends_below(starts, active_start, bound, i + 1)
    } else {
        i
    }
}

/// The log after dropping the sealed segments that end at or below
/// `bound`.
pub open spec fn after_truncate(v: LogView, bound: u64) -> LogView {
    let k = ends_below(v.sealed_starts, v.active_start, bound, 0);
    LogView {
        sealed_ids: v.sealed_ids.skip(k),
        sealed_starts: v.sealed_starts.skip(k),
        sealed_contents: v.sealed_contents.skip(k),
        ..v
    }
}

pub proof fn lemma_ends_below_bounds(starts: Seq<u64>, active_start: u64, bound: u64, i: int)
    requires
        0 <= i <= starts.len(),
    ensures
        i <= ends_below(starts, active_start, bound, i) <= starts.len(),
        forall|j: int|
            i <= j < ends_below(starts, active_start, bound, i) ==> segment_end(
                starts,
                active_start,
                j,
            ) <= bound,
        ends_below(starts, active_start, bound, i) < starts.len() ==> segment_end(
            starts,
            active_start,
            ends_below(starts, active_start, bound, i),
        ) > bound,
    decreases starts.len() - i,
{
    if i < starts.len() && segment_end(starts, active_start, i) <= bound {
        lemma_ends_below_bounds(starts, active_start, bound, i + 1);
    }
}

/// Where a scan from `from` starts: never before the first record.
pub open spec fn iter_start(from: u64) -> u64 {
    if from < HEADER_LEN {
        HEADER_LEN
    } else {
        from
    }
}

/// The first sealed segment a scan from `from` reads: the one holding
/// `from`, or the oldest when `from` precedes every sealed segment.
pub open spec fn first_pending(v: LogView, from: u64) -> int {
    match find_sealed(v.sealed_starts, iter_start(from)) {
        Some(i) => i,
        None => 0,
    }
}

/// The records of segments `i` up to `j` of `contents`.
pub open spec fn records_of(contents: Seq<Seq<u8>>, i: int, j: int) -> Seq<RecordView>
    decreases j - i,
{
    if j <= i {
        Seq::empty()
    } else {
        records_of(contents, i, j - 1) + scan(contents[j - 1], SEGMENT_HEADER_LEN as int)
    }
}

/// The records of sealed segments `i` up to `j`.
pub open spec fn segment_records(v: LogView, i: int, j: int) -> Seq<RecordView> {
    records_of(v.sealed_contents, i, j)
}

/// Every record the log holds, oldest first.
pub open spec fn all_records(v: LogView) -> Seq<RecordView> {
    segment_records(v, 0, v.sealed_contents.len() as int) + scan(
        v.active_contents,
        SEGMENT_HEADER_LEN as int,
    )
}

/// A segment that carries its header and holds whole records only.
pub open spec fn whole_segment(c: Seq<u8>, start_lsn: u64) -> bool {
    &&& c.len() >= SEGMENT_HEADER_LEN
    &&& c.subrange(0, 16) == segment_header(start_lsn)
    &&& scan_end(c, SEGMENT_HEADER_LEN as int) == c.len()
}

/// Where the LSN space of the sealed segments ends: just past the last
/// record of the newest one, or at the first LSN when there is none.
pub open spec fn sealed_end_lsn(v: LogView) -> int {
    if v.sealed_starts.len() == 0 {
        HEADER_LEN as int
    } else {
        v.sealed_starts.last() + v.sealed_contents.last().len() - SEGMENT_HEADER_LEN
    }
}

/// A log just opened: nothing buffered or appended yet, every segment
/// whole, and each transaction's last record known.
pub open spec fn opened(v: LogView, target_segment_size: u64, active_id: u64, sealed_ids: Seq<u64>) -> bool {
    &&& consistent(v)
    &&& healthy(v)
    &&& v.buffer.len() == 0
    &&& v.bytes_appended == 0
    &&& v.target_segment_size == target_segment_size
    &&& v.active_id == active_id
    &&& v.sealed_ids == sealed_ids
    &&& forall|i: int|
        0 <= i < v.sealed_contents.len() ==> whole_segment(
            #[trigger] v.sealed_contents[i],
            v.sealed_starts[i],
        )
    &&& whole_segment(v.active_contents, v.active_start)
    &&& v.last_lsns == last_lsns_after(Map::empty(), all_records(v))
}

/// Segments that agree up to `j` have the same records up to `j`.
pub proof fn lemma_records_of_prefix(a: Seq<Seq<u8>>, b: Seq<Seq<u8>>, j: int)
    requires
        0 <= j <= a.len(),
        j <= b.len(),
        forall|i: int| 0 <= i < j ==> a[i] == b[i],
    ensures
        records_of(a, 0, j) == records_of(b, 0, j),
    decreases j,
{
    if j > 0 {
        lemma_records_of_prefix(a, b, j - 1);
    }
}

pub proof fn lemma_last_lsns_concat(m: Map<u64, u64>, a: Seq<RecordView>, b: Seq<RecordView>)
    ensures
        last_lsns_after(m, a + b) == last_lsns_after(last_lsns_after(m, a), b),
    decreases b.len(),
{
    if b.len() == 0 {
        assert(a + b =~= a);
    } else {
        assert((a + b).drop_last() =~= a + b.drop_last());
        lemma_last_lsns_concat(m, a, b.drop_last());
    }
}

/// Records each of `recs` as its transaction's last.
fn note_records(last: &mut KeyedVec<u64>, recs: &Vec<LoggedRecord>)
    requires
        old(last).inv(),
    ensures
        final(last).inv(),
        final(last).view() == last_lsns_after(old(last).view(), recs@.map_values(|x: LoggedRecord| x@)),
{
    let ghost rv = recs@.map_values(|x: LoggedRecord| x@);
    let mut i: usize = 0;
    assert(rv.take(0) =~= Seq::<RecordView>::empty());
    while i < recs.len()
        invariant
            i <= recs@.len(),
            last.inv(),
            rv == recs@.map_values(|x: LoggedRecord| x@),
            last.view() == last_lsns_after(old(last).view(), rv.take(i as int)),
        decreases recs@.len() - i,
    {
        last.insert(recs[i].txn_id.0, recs[i].lsn.0);
        assert(rv.take(i + 1).drop_last() =~= rv.take(i as int));
        i = i + 1;
    }
    assert(rv.take(i as int) =~= rv);
}

/// The active segment's body followed by the buffer.
pub open spec fn tail_bytes(v: LogView) -> Seq<u8> {
    v.active_contents.subrange(SEGMENT_HEADER_LEN as int, v.active_contents.len() as int)
        + v.buffer
}

/// Every record a scan from `from` yields, oldest first.
pub open spec fn spec_iter_from(v: LogView, from: u64) -> Seq<RecordView> {
    (segment_records(v, first_pending(v, from), v.sealed_starts.len() as int) + scan(
        tail_bytes(v),
        0,
    )).filter(at_or_after(iter_start(from)))
}

/// What a scan from `from` yields when it stops at sealed segment `j`,
/// which it could not read.
pub open spec fn spec_iter_cut(v: LogView, from: u64, j: int) -> Seq<RecordView> {
    segment_records(v, first_pending(v, from), j).filter(at_or_after(iter_start(from)))
}

pub struct LogManager<S: SegmentStore> {
    store: S,
    target_segment_size: u64,
    sealed: Vec<SegmentMeta<S::Device>>,
    active_id: u64,
    active_start_lsn: u64,
    active_device: S::Device,
    buffer: Vec<u8>,
    next_lsn: u64,
    last_lsn_by_txn: KeyedVec<u64>,
    bytes_appended: u64,
    durable_lsn: u64,
}

/// The record `local` bytes into the body of the segment on `device`.
fn read_local<D: BlockDevice>(device: &D, local: u64) -> (r: Result<Option<LoggedRecord>, StorageError>)
    requires
        device.inv(),
    ensures
        r is Err ==> r->Err_0 is Io,
        r matches Ok(o) ==> match o {
            Some(rec) => record_at(device.contents(), SEGMENT_HEADER_LEN + local) == Some(rec@),
            None => record_at(device.contents(), SEGMENT_HEADER_LEN + local) is None,
        },
{
    match SEGMENT_HEADER_LEN.checked_add(local) {
        Some(o) => read_record_at(device, o),
        None => match device.size() {
            Ok(_) => Ok(None),
            Err(e) => Err(StorageError::Io(e)),
        },
    }
}

pub open spec fn lsn_overflow_reason() -> Seq<char> {
    "write-ahead log segment runs past the end of the LSN space"@
}

/// Reads the header of the segment on `device`, then its records, cutting
/// it back to the last whole one. Gives the start LSN, the LSN just past
/// the last record, and the records.
fn open_segment<D: BlockDevice>(device: &mut D) -> (r: Result<(u64, u64, Vec<LoggedRecord>), StorageError>)
    requires
        old(device).inv(),
    ensures
        final(device).inv(),
        r matches Ok((start, next, recs)) ==> {
            &&& whole_segment(final(device).contents(), start)
            &&& recs@.map_values(|x: LoggedRecord| x@) == scan(final(device).contents(), 16)
            &&& next == start + (final(device).contents().len() - 16)
        },
        r is Ok ==> final(device).contents() == old(device).contents().subrange(
            0,
            scan_end(old(device).contents(), 16),
        ),
{
    let start = match read_segment_header(device) {
        Ok(s) => s,
        Err(e) => return Err(e),
    };
    let len = match device.size() {
        Ok(l) => l,
        Err(e) => return Err(StorageError::Io(e)),
    };
    if len > u64::MAX - start {
        let mut reason = String::new();
        push_str(&mut reason, "write-ahead log segment runs past the end of the LSN space");
        return Err(StorageError::CorruptLogHeader { reason });
    }
    let ghost c0 = device.contents();
    let (next, recs) = match scan_segment(device, start) {
        Ok(x) => x,
        Err(e) => return Err(e),
    };
    proof {
        lemma_auto_spec_u64_to_from_le_bytes();
        crate::segment::lemma_scan_end_bounds(c0, 16);
        crate::segment::lemma_scan_cut(c0, 16);
        let c1 = device.contents();
        let e = scan_end(c0, 16);
        assert(c1.subrange(0, 16) =~= c0.subrange(0, 16));
        assert(c0.subrange(0, 16) =~= c0.subrange(0, 8) + c0.subrange(8, 16));
        assert(c0.subrange(8, 16) == spec_u64_to_le_bytes(start));
    }
    Ok((start, next, recs))
}

/// Reads the header of the sealed segment on `device`, then its records;
/// a segment that does not decode to its end is refused. Gives the start
/// LSN, the LSN just past the last record, and the records.
fn open_sealed_segment<D: BlockDevice>(device: &D) -> (r: Result<(u64, u64, Vec<LoggedRecord>), StorageError>)
    requires
        device.inv(),
    ensures
        r matches Ok((start, next, recs)) ==> {
            &&& whole_segment(device.contents(), start)
            &&& recs@.map_values(|x: LoggedRecord| x@) == scan(device.contents(), 16)
            &&& next == start + (device.contents().len() - 16)
        },
{
    let start = match read_segment_header(device) {
        Ok(s) => s,
        Err(e) => return Err(e),
    };
    let len = match device.size() {
        Ok(l) => l,
        Err(e) => return Err(StorageError::Io(e)),
    };
    if len > u64::MAX - start {
        let mut reason = String::new();
        push_str(&mut reason, "write-ahead log segment runs past the end of the LSN space");
        return Err(StorageError::CorruptLogHeader { reason });
    }
    let (next, recs) = match crate::segment::scan_whole_segment(device, start) {
        Ok(x) => x,
        Err(e) => return Err(e),
    };
    proof {
        lemma_auto_spec_u64_to_from_le_bytes();
        let c0 = device.contents();
        assert(c0.subrange(0, 16) =~= c0.subrange(0, 8) + c0.subrange(8, 16));
        assert(c0.subrange(8, 16) == spec_u64_to_le_bytes(start));
    }
    Ok((start, next, recs))
}

impl<S: SegmentStore> LogManager<S> {
    pub closed spec fn view(&self) -> LogView {
        LogView {
            sealed_ids: Seq::new(self.sealed@.len(), |i: int| self.sealed@[i].id),
            sealed_starts: Seq::new(self.sealed@.len(), |i: int| self.sealed@[i].start_lsn),
            sealed_contents: Seq::new(
                self.sealed@.len(),
                |i: int| self.sealed@[i].device.contents(),
            ),
            active_id: self.active_id,
            active_start: self.active_start_lsn,
            active_contents: self.active_device.contents(),
            buffer: self.buffer@,
            next_lsn: self.next_lsn,
            durable_lsn: self.durable_lsn,
            last_lsns: self.last_lsn_by_txn.view(),
            bytes_appended: self.bytes_appended,
            target_segment_size: self.target_segment_size,
        }
    }

    pub closed spec fn inv(&self) -> bool {
        &&& self.active_device.inv()
        &&& forall|i: int| 0 <= i < self.sealed@.len() ==> (#[trigger] self.sealed@[i]).device.inv()
        &&& self.last_lsn_by_txn.inv()
        &&& self.next_lsn == self.durable_lsn + self.buffer@.len()
    }

    /// Closes the log, handing back every segment's id and device, the
    /// sealed ones oldest first and the active one last; what was appended
    /// but not flushed is dropped.
    pub fn into_segments(self) -> (r: Vec<(u64, S::Device)>)
        requires
            self.inv(),
        ensures
            r@.len() == self.view().sealed_ids.len() + 1,
            forall|i: int|
                0 <= i < self.view().sealed_ids.len() ==> (#[trigger] r@[i]).0 == self.view().sealed_ids[i]
                    && r@[i].1.contents() == self.view().sealed_contents[i] && r@[i].1.inv(),
            r@.last().0 == self.view().active_id,
            r@.last().1.contents() == self.view().active_contents,
            r@.last().1.inv(),
    {
        let ghost v = self.view();
        let ghost sealed0 = self.sealed@;
        let LogManager { sealed, active_id, active_device, .. } = self;
        let mut sealed = sealed;
        let mut out: Vec<(u64, S::Device)> = Vec::new();
        let n = sealed.len();
        let mut rest: Vec<SegmentMeta<S::Device>> = Vec::new();
        while sealed.len() > 0
            invariant
                sealed@ == sealed0.take(n - rest@.len()),
                rest@.len() <= n,
                n == sealed0.len(),
                forall|i: int| 0 <= i < rest@.len() ==> #[trigger] rest@[i] == sealed0[n - 1 - i],
            decreases sealed@.len(),
        {
            let m = sealed.pop().unwrap();
            proof {
                assert(sealed@ =~= sealed0.take(n - rest@.len() - 1));
            }
            rest.push(m);
        }
        while rest.len() > 0
            invariant
                n == sealed0.len(),
                rest@.len() + out@.len() == n,
                forall|i: int| 0 <= i < rest@.len() ==> #[trigger] rest@[i] == sealed0[n - 1 - i],
                forall|i: int|
                    0 <= i < out@.len() ==> (#[trigger] out@[i]).0 == sealed0[i].id && out@[i].1
                        == sealed0[i].device,
            decreases rest@.len(),
        {
            let m = rest.pop().unwrap();
            out.push((m.id, m.device));
        }
        out.push((active_id, active_device));
        out
    }

    /// Closes the log, handing back the active segment's device; what
    /// was appended but not flushed is dropped.
    pub fn into_active_device(self) -> (d: S::Device)
        requires
            self.inv(),
        ensures
            d.inv(),
            d.contents() == self.view().active_contents,
    {
        self.active_device
    }

    /// What is appended is durable up to the durable LSN and buffered
    /// after it.
    pub proof fn lemma_counters(&self)
        requires
            self.inv(),
        ensures
            self.view().durable_lsn + self.view().buffer.len() == self.view().next_lsn,
    {
    }

    /// The LSN up to which the log is on stable storage.
    pub fn durable_lsn(&self) -> (l: Lsn)
        ensures
            l.0 == self.view().durable_lsn,
    {
        Lsn(self.durable_lsn)
    }

    /// How many bytes of records this log has appended since it opened.
    pub fn bytes_appended(&self) -> (n: u64)
        ensures
            n == self.view().bytes_appended,
    {
        self.bytes_appended
    }

    /// The LSN the next record will get.
    pub fn next_lsn(&self) -> (l: Lsn)
        ensures
            l.0 == self.view().next_lsn,
    {
        Lsn(self.next_lsn)
    }

    /// The LSN of `txn_id`'s last record, if it has one.
    pub fn last_lsn_for(&self, txn_id: TxnId) -> (r: Option<Lsn>)
        requires
            self.inv(),
        ensures
            opt_lsn(r) == (if self.view().last_lsns.dom().contains(txn_id.0) {
                Some(self.view().last_lsns[txn_id.0])
            } else {
                None
            }),
    {
        match self.last_lsn_by_txn.get(txn_id.0) {
            Some(l) => Some(Lsn(*l)),
            None => None,
        }
    }

    /// The highest transaction id with a record in the log, checkpoints
    /// aside.
    pub fn max_txn_id(&self) -> (r: Option<TxnId>)
        requires
            self.inv(),
        ensures
            match r {
                Some(t) => t.0 != CHECKPOINT_TXN_ID && self.view().last_lsns.dom().contains(t.0)
                    && forall|k: u64|
                    #![trigger self.view().last_lsns.dom().contains(k)]
                    self.view().last_lsns.dom().contains(k) && k != CHECKPOINT_TXN_ID ==> k <= t.0,
                None => forall|k: u64|
                    #![trigger self.view().last_lsns.dom().contains(k)]
                    self.view().last_lsns.dom().contains(k) ==> k == CHECKPOINT_TXN_ID,
            },
    {
        let ks = self.last_lsn_by_txn.keys();
        let mut best: Option<u64> = None;
        let mut i: usize = 0;
        while i < ks.len()
            invariant
                i <= ks@.len(),
                forall|k: u64| self.last_lsn_by_txn.view().dom().contains(k) <==> ks@.contains(k),
                match best {
                    Some(b) => b != CHECKPOINT_TXN_ID && ks@.contains(b) && forall|j: int|
                        0 <= j < i && ks@[j] != CHECKPOINT_TXN_ID ==> ks@[j] <= b,
                    None => forall|j: int| 0 <= j < i ==> ks@[j] == CHECKPOINT_TXN_ID,
                },
            decreases ks@.len() - i,
        {
            let k = ks[i];
            if k != CHECKPOINT_TXN_ID {
                match best {
                    Some(b) => {
                        if k > b {
                            best = Some(k);
                        }
                    },
                    None => {
                        best = Some(k);
                    },
                }
            }
            i = i + 1;
        }
        proof {
            assert forall|k: u64|
                #![trigger self.view().last_lsns.dom().contains(k)]
                self.view().last_lsns.dom().contains(k) && k != CHECKPOINT_TXN_ID implies (match best {
                Some(b) => k <= b,
                None => false,
            }) by {
                assert(ks@.contains(k));
                let j = choose|j: int| 0 <= j < ks@.len() && ks@[j] == k;
            }
        }
        match best {
            Some(b) => Some(TxnId(b)),
            None => None,
        }
    }

    /// The ids of the log's segments, oldest first, the active one last.
    pub fn segment_ids(&self) -> (ids: Vec<u64>)
        ensures
            ids@ == self.view().sealed_ids.push(self.view().active_id),
    {
        let mut ids: Vec<u64> = Vec::new();
        let mut i: usize = 0;
        while i < self.sealed.len()
            invariant
                i <= self.sealed@.len(),
                ids@ == Seq::new(i as nat, |j: int| self.sealed@[j].id),
            decreases self.sealed@.len() - i,
        {
            ids.push(self.sealed[i].id);
            i = i + 1;
            assert(ids@ =~= Seq::new(i as nat, |j: int| self.sealed@[j].id));
        }
        ids.push(self.active_id);
        assert(ids@ =~= self.view().sealed_ids.push(self.view().active_id));
        ids
    }

    /// Appends a record to the buffer and gives its LSN; the record's
    /// `prev_lsn` is its transaction's previous record.
    pub fn append(&mut self, record: LogRecord) -> (r: Result<Lsn, StorageError>)
        requires
            old(self).inv(),
            kind_fits(record.kind@),
            record_len(record.kind@) <= u32::MAX,
            old(self).view().next_lsn + record_len(record.kind@) <= u64::MAX,
            old(self).view().bytes_appended + record_len(record.kind@) <= u64::MAX,
        ensures
            final(self).inv(),
            r == Ok::<Lsn, StorageError>(Lsn(old(self).view().next_lsn)),
            final(self).view() == after_append(old(self).view(), record.txn_id.0, record.kind@),
    {
        let lsn = Lsn(self.next_lsn);
        let prev_lsn = match self.last_lsn_by_txn.get(record.txn_id.0) {
            Some(l) => Some(Lsn(*l)),
            None => None,
        };
        proof {
            lemma_record_len(lsn.0, opt_lsn(prev_lsn), record.txn_id.0, record.kind@);
        }
        let mut bytes = encode_record(lsn, prev_lsn, record.txn_id, &record.kind);
        let n = bytes.len() as u64;
        self.next_lsn = self.next_lsn + n;
        self.bytes_appended = self.bytes_appended + n;
        self.buffer.append(&mut bytes);
        self.last_lsn_by_txn.insert(record.txn_id.0, lsn.0);
        proof {
            let v = after_append(old(self).view(), record.txn_id.0, record.kind@);
            assert(self.view().sealed_ids =~= v.sealed_ids);
            assert(self.view().sealed_starts =~= v.sealed_starts);
            assert(self.view().sealed_contents =~= v.sealed_contents);
        }
        Ok(lsn)
    }

    /// The record at `lsn`.
    pub fn read_at(&self, lsn: Lsn) -> (r: Result<Option<LoggedRecord>, StorageError>)
        requires
            self.inv(),
        ensures
            r is Err ==> r->Err_0 is Io,
            r matches Ok(o) ==> match o {
                Some(rec) => spec_read_at(self.view(), lsn.0) == Some(rec@),
                None => spec_read_at(self.view(), lsn.0) is None,
            },
            lsn.0 == 0 || lsn.0 >= self.view().durable_lsn ==> r is Ok,
    {
        let offset = lsn.0;
        if offset == 0 {
            return Ok(None);
        }
        if offset >= self.durable_lsn {
            let buf_offset = offset - self.durable_lsn;
            if buf_offset > self.buffer.len() as u64 {
                return Ok(None);
            }
            return match decode_record(self.buffer.as_slice(), buf_offset as usize) {
                Some((rec, n)) => Ok(Some(rec)),
                None => Ok(None),
            };
        }
        if offset >= self.active_start_lsn {
            let local = offset - self.active_start_lsn;
            return read_local(&self.active_device, local);
        }
        let mut i = self.sealed.len();
        assert(self.view().sealed_starts.take(i as int) =~= self.view().sealed_starts);
        while i > 0
            invariant
                i <= self.sealed@.len(),
                self.inv(),
                offset == lsn.0,
                offset != 0,
                offset < self.durable_lsn,
                offset < self.active_start_lsn,
                find_sealed(self.view().sealed_starts, offset) == find_sealed(
                    self.view().sealed_starts.take(i as int),
                    offset,
                ),
            decreases i,
        {
            let ghost starts = self.view().sealed_starts.take(i as int);
            assert(starts.last() == self.sealed@[i - 1].start_lsn);
            if self.sealed[i - 1].start_lsn <= offset {
                let local = offset - self.sealed[i - 1].start_lsn;
                proof {
                    assert(self.sealed@[i - 1].device.inv());
                    assert(find_sealed(starts, offset) == Some(i - 1));
                    assert(self.view().sealed_contents[i - 1] == self.sealed@[i - 1].device.contents());
                    assert(self.view().sealed_starts[i - 1] == self.sealed@[i - 1].start_lsn);
                }
                return read_local(&self.sealed[i - 1].device, local);
            }
            assert(starts.drop_last() =~= self.view().sealed_starts.take(i - 1));
            i = i - 1;
        }
        Ok(None)
    }
    pub proof fn lemma_consistent(&self)
        requires
            self.inv(),
        ensures
            consistent(self.view()),
    {
    }

    /// Writes the buffer to the active segment and makes it durable, unless
    /// everything up to `up_to` already is; then rolls to a new segment if
    /// the active one has reached its target size.
    pub fn flush(&mut self, up_to: Lsn) -> (r: Result<(), StorageError>)
        requires
            old(self).inv(),
        ensures
            final(self).inv(),
            old(self).view().durable_lsn > up_to.0 ==> r is Ok && final(self).view() == old(
                self,
            ).view(),
            old(self).view().durable_lsn <= up_to.0 && r is Ok ==> final(self).view() == after_flush(
                old(self).view(),
            ),
            r is Err ==> final(self).view().next_lsn == old(self).view().next_lsn
                && (final(self).view().durable_lsn == old(self).view().durable_lsn
                || final(self).view().durable_lsn == final(self).view().next_lsn),
    {
        if self.durable_lsn > up_to.0 {
            return Ok(());
        }
        let offset = match self.active_device.size() {
            Ok(o) => o,
            Err(e) => return Err(StorageError::Io(e)),
        };
        match self.active_device.write_at(offset, self.buffer.as_slice()) {
            Ok(()) => {},
            Err(e) => return Err(StorageError::Io(e)),
        }
        match self.active_device.sync_all() {
            Ok(()) => {},
            Err(e) => return Err(StorageError::Io(e)),
        }
        let ghost v0 = old(self).view();
        proof {
            assert(self.active_device.contents() =~= v0.active_contents + v0.buffer);
        }
        self.buffer.clear();
        self.durable_lsn = self.next_lsn;
        let active_len = match self.active_device.size() {
            Ok(l) => l,
            Err(e) => return Err(StorageError::Io(e)),
        };
        let body_len = if active_len >= SEGMENT_HEADER_LEN {
            active_len - SEGMENT_HEADER_LEN
        } else {
            0
        };
        if active_len >= SEGMENT_HEADER_LEN && body_len >= self.target_segment_size {
            return self.roll_segment();
        }
        proof {
            let v = after_flush(v0);
            assert(self.view().sealed_ids =~= v.sealed_ids);
            assert(self.view().sealed_starts =~= v.sealed_starts);
            assert(self.view().sealed_contents =~= v.sealed_contents);
            assert(self.view().buffer =~= v.buffer);
        }
        Ok(())
    }

    /// Seals the active segment and opens the next one, starting at the
    /// next LSN.
    fn roll_segment(&mut self) -> (r: Result<(), StorageError>)
        requires
            old(self).inv(),
        ensures
            final(self).inv(),
            r is Ok ==> final(self).view() == ({
                let v = old(self).view();
                LogView {
                    sealed_ids: v.sealed_ids.push(v.active_id),
                    sealed_starts: v.sealed_starts.push(v.active_start),
                    sealed_contents: v.sealed_contents.push(v.active_contents),
                    active_id: (v.active_id + 1) as u64,
                    active_start: v.next_lsn,
                    active_contents: segment_header(v.next_lsn),
                    ..v
                }
            }),
            r is Err ==> final(self).view() == old(self).view(),
            old(self).view().active_id == u64::MAX ==> (r matches Err(StorageError::CorruptLogHeader { reason })
                && reason@ == no_segment_id_reason()),
    {
        if self.active_id == u64::MAX {
            let mut reason = String::new();
            push_str(&mut reason, "write-ahead log has no segment id left to roll to");
            return Err(StorageError::CorruptLogHeader { reason });
        }
        let new_id = self.active_id + 1;
        let new_start = self.next_lsn;
        let mut device = match self.store.open(new_id) {
            Ok(d) => d,
            Err(e) => return Err(e),
        };
        match write_segment_header(&mut device, new_start) {
            Ok(()) => {},
            Err(e) => return Err(e),
        }
        let ghost v0 = self.view();
        std::mem::swap(&mut self.active_device, &mut device);
        self.sealed.push(SegmentMeta { id: self.active_id, start_lsn: self.active_start_lsn, device });
        self.active_id = new_id;
        self.active_start_lsn = new_start;
        proof {
            let v = LogView {
                sealed_ids: v0.sealed_ids.push(v0.active_id),
                sealed_starts: v0.sealed_starts.push(v0.active_start),
                sealed_contents: v0.sealed_contents.push(v0.active_contents),
                active_id: (v0.active_id + 1) as u64,
                active_start: v0.next_lsn,
                active_contents: segment_header(v0.next_lsn),
                ..v0
            };
            assert(self.view().sealed_ids =~= v.sealed_ids);
            assert(self.view().sealed_starts =~= v.sealed_starts);
            assert(self.view().sealed_contents =~= v.sealed_contents);
            assert forall|i: int| 0 <= i < self.sealed@.len() implies (#[trigger] self.sealed@[i]).device.inv() by {
                if i < self.sealed@.len() - 1 {
                    assert(self.sealed@[i] == old(self).sealed@[i]);
                }
            }
        }
        Ok(())
    }

    /// Flushes everything buffered, if anything is.
    pub fn flush_all(&mut self) -> (r: Result<(), StorageError>)
        requires
            old(self).inv(),
        ensures
            final(self).inv(),
            old(self).view().buffer.len() == 0 ==> r is Ok && final(self).view() == old(self).view(),
            old(self).view().buffer.len() > 0 && r is Ok ==> final(self).view() == after_flush(
                old(self).view(),
            ),
            r is Err ==> final(self).view().next_lsn == old(self).view().next_lsn
                && (final(self).view().durable_lsn == old(self).view().durable_lsn
                || final(self).view().durable_lsn == final(self).view().next_lsn),
    {
        if self.buffer.len() == 0 {
            return Ok(());
        }
        let next = Lsn(self.next_lsn);
        self.flush(next)
    }

    /// Drops the oldest sealed segments that end at or below `bound`, so
    /// that records from `bound` on stay.
    pub fn truncate_below(&mut self, bound: Lsn) -> (r: Result<(), StorageError>)
        requires
            old(self).inv(),
        ensures
            final(self).inv(),
            final(self).view() == after_truncate(old(self).view(), bound.0),
    {
        let ghost v0 = self.view();
        let n = self.sealed.len();
        let mut keep_from: usize = 0;
        let mut done = false;
        proof {
            lemma_ends_below_bounds(v0.sealed_starts, v0.active_start, bound.0, 0);
        }
        while keep_from < n && !done
            invariant
                n == self.sealed@.len(),
                self.view() == v0,
                keep_from <= n,
                done ==> ends_below(v0.sealed_starts, v0.active_start, bound.0, 0) == keep_from,
                !done ==> ends_below(v0.sealed_starts, v0.active_start, bound.0, 0) == ends_below(
                    v0.sealed_starts,
                    v0.active_start,
                    bound.0,
                    keep_from as int,
                ),
            decreases n - keep_from + (if done { 0int } else { 1int }),
        {
            let end = if keep_from + 1 < n {
                self.sealed[keep_from + 1].start_lsn
            } else {
                self.active_start_lsn
            };
            assert(end == segment_end(v0.sealed_starts, v0.active_start, keep_from as int));
            if end <= bound.0 {
                keep_from = keep_from + 1;
            } else {
                done = true;
            }
        }
        if keep_from == 0 {
            proof {
                let v = after_truncate(v0, bound.0);
                assert(v.sealed_ids =~= v0.sealed_ids);
                assert(v.sealed_starts =~= v0.sealed_starts);
                assert(v.sealed_contents =~= v0.sealed_contents);
            }
            return Ok(());
        }
        let mut removed: Vec<u64> = Vec::new();
        let mut j: usize = 0;
        while j < keep_from
            invariant
                j <= keep_from <= n,
                keep_from == ends_below(v0.sealed_starts, v0.active_start, bound.0, 0),
                n == v0.sealed_ids.len(),
                n == v0.sealed_starts.len(),
                n == v0.sealed_contents.len(),
                self.sealed@.len() == n - j,
                forall|t: int| 0 <= t < self.sealed@.len() ==> (#[trigger] self.sealed@[t]).device.inv(),
                self.view().sealed_ids == v0.sealed_ids.skip(j as int),
                self.view().sealed_starts == v0.sealed_starts.skip(j as int),
                self.view().sealed_contents == v0.sealed_contents.skip(j as int),
                self.view() == (LogView {
                    sealed_ids: self.view().sealed_ids,
                    sealed_starts: self.view().sealed_starts,
                    sealed_contents: self.view().sealed_contents,
                    ..v0
                }),
                self.active_device.inv(),
                self.last_lsn_by_txn.inv(),
                self.next_lsn == self.durable_lsn + self.buffer@.len(),
                removed@ == v0.sealed_ids.take(j as int),
            decreases keep_from - j,
        {
            let ghost before = self.sealed@;
            let ghost pv = self.view();
            let meta = self.sealed.remove(0);
            removed.push(meta.id);
            proof {
                assert(self.sealed@ =~= before.subrange(1, before.len() as int));
                assert forall|t: int| 0 <= t < self.sealed@.len() implies self.sealed@[t] == before[t + 1] && pv.sealed_ids[t + 1] == v0.sealed_ids[j + 1 + t] && pv.sealed_starts[t + 1] == v0.sealed_starts[j + 1 + t] && pv.sealed_contents[t + 1] == v0.sealed_contents[j + 1 + t] by {
                    assert(pv.sealed_ids[t + 1] == v0.sealed_ids.skip(j as int)[t + 1]);
                    assert(pv.sealed_starts[t + 1] == v0.sealed_starts.skip(j as int)[t + 1]);
                    assert(pv.sealed_contents[t + 1] == v0.sealed_contents.skip(j as int)[t + 1]);
                }
                assert(meta.id == pv.sealed_ids[0]);
                assert(pv.sealed_ids[0] == v0.sealed_ids[j as int]);
                assert(self.view().sealed_ids =~= v0.sealed_ids.skip(j + 1));
                assert(self.view().sealed_starts =~= v0.sealed_starts.skip(j + 1));
                assert(self.view().sealed_contents =~= v0.sealed_contents.skip(j + 1));
                assert(removed@ =~= v0.sealed_ids.take(j + 1));
                assert forall|t: int| 0 <= t < self.sealed@.len() implies (#[trigger] self.sealed@[t]).device.inv() by {
                    assert(self.sealed@[t] == before[t + 1]);
                }
            }
            j = j + 1;
        }
        let ghost v1 = self.view();
        assert(v1 == after_truncate(v0, bound.0));
        let mut t: usize = 0;
        while t < removed.len()
            invariant
                self.view() == v1,
                v1 == after_truncate(v0, bound.0),
                v0 == old(self).view(),
                self.inv(),
            decreases removed@.len() - t,
        {
            match self.store.remove(removed[t]) {
                Ok(()) => {},
                Err(e) => return Err(e),
            }
            t = t + 1;
        }
        Ok(())
    }

    /// The records from `from` on, oldest first: those of the sealed
    /// segment holding `from` and every later one, then the active
    /// segment's and the buffer's. A sealed segment that cannot be read
    /// ends the scan there.
    pub fn iter_from(&self, from: Lsn) -> (r: Result<Vec<LoggedRecord>, StorageError>)
        requires
            self.inv(),
            self.view().active_contents.len() >= SEGMENT_HEADER_LEN,
        ensures
            r is Err ==> r->Err_0 is Io,
            r matches Ok(recs) ==> {
                let got = recs@.map_values(|x: LoggedRecord| x@);
                ||| got == spec_iter_from(self.view(), from.0)
                ||| exists|j: int|
                    first_pending(self.view(), from.0) <= j < self.view().sealed_starts.len()
                        && got == spec_iter_cut(self.view(), from.0, j)
            },
    {
        let ghost v = self.view();
        let f = if from.0 < HEADER_LEN {
            HEADER_LEN
        } else {
            from.0
        };
        let active_len = match self.active_device.size() {
            Ok(l) => l,
            Err(e) => return Err(StorageError::Io(e)),
        };
        if active_len - SEGMENT_HEADER_LEN > usize::MAX as u64 {
            return Err(StorageError::Io(DeviceError::UnexpectedEof));
        }
        let mut tail = match self.active_device.read_at(
            SEGMENT_HEADER_LEN,
            (active_len - SEGMENT_HEADER_LEN) as usize,
        ) {
            Ok(t) => t,
            Err(e) => return Err(StorageError::Io(e)),
        };
        crate::codec::push_bytes(&mut tail, self.buffer.as_slice());
        assert(tail@ =~= tail_bytes(v));
        let n = self.sealed.len();
        let mut start = n;
        let mut probe = n;
        let mut found = false;
        assert(v.sealed_starts.take(n as int) =~= v.sealed_starts);
        while probe > 0 && !found
            invariant
                probe <= n,
                start <= n,
                n == self.sealed@.len(),
                v == self.view(),
                found ==> find_sealed(v.sealed_starts, f) == Some(start as int),
                !found ==> start == n && find_sealed(v.sealed_starts, f) == find_sealed(
                    v.sealed_starts.take(probe as int),
                    f,
                ),
            decreases probe + (if found { 0int } else { 1int }),
        {
            let ghost st = v.sealed_starts.take(probe as int);
            assert(st.last() == self.sealed@[probe - 1].start_lsn);
            if self.sealed[probe - 1].start_lsn <= f {
                start = probe - 1;
                found = true;
            } else {
                assert(st.drop_last() =~= v.sealed_starts.take(probe - 1));
                probe = probe - 1;
            }
        }
        if !found {
            start = 0;
        }
        proof {
            if !found {
                assert(v.sealed_starts.take(0) =~= Seq::<u64>::empty());
            }
            assert(start == first_pending(v, from.0));
        }
        let mut out: Vec<LoggedRecord> = Vec::new();
        let mut i = start;
        proof {
            reveal(Seq::filter);
            assert(out@.map_values(|x: LoggedRecord| x@) =~= spec_iter_cut(v, from.0, i as int));
        }
        while i < n
            invariant
                start <= i <= n,
                n == self.sealed@.len(),
                v == self.view(),
                self.inv(),
                start == first_pending(v, from.0),
                f == iter_start(from.0),
                out@.map_values(|x: LoggedRecord| x@) == spec_iter_cut(v, from.0, i as int),
            decreases n - i,
        {
            proof {
                assert(self.sealed@[i as int].device.inv());
            }
            let device = &self.sealed[i].device;
            let len = match device.size() {
                Ok(l) => l,
                Err(e) => return Ok(out),
            };
            if len > usize::MAX as u64 {
                return Ok(out);
            }
            let bytes = match device.read_at(0, len as usize) {
                Ok(b) => b,
                Err(e) => return Ok(out),
            };
            assert(bytes@ =~= v.sealed_contents[i as int]);
            let ghost before = out@.map_values(|x: LoggedRecord| x@);
            if bytes.len() >= 16 {
                decode_into(bytes.as_slice(), 16, f, &mut out);
            } else {
                assert(scan(bytes@, 16) =~= Seq::<RecordView>::empty());
                assert(scan(bytes@, 16).filter(at_or_after(f)) =~= Seq::<RecordView>::empty()) by {
                    reveal(Seq::filter);
                }
                assert(out@.map_values(|x: LoggedRecord| x@) =~= before + scan(bytes@, 16).filter(at_or_after(f)));
            }
            proof {
                let p = at_or_after(f);
                let a = segment_records(v, start as int, i as int);
                let b = scan(v.sealed_contents[i as int], 16);
                assert(segment_records(v, start as int, i + 1) == a + b);
                Seq::filter_distributes_over_add(a, b, p);
            }
            i = i + 1;
        }
        let ghost before = out@.map_values(|x: LoggedRecord| x@);
        decode_into(tail.as_slice(), 0, f, &mut out);
        proof {
            let p = at_or_after(f);
            let a = segment_records(v, start as int, n as int);
            Seq::filter_distributes_over_add(a, scan(tail_bytes(v), 0), p);
        }
        Ok(out)
    }

    /// Opens a log from its segments: reads and checks every sealed
    /// segment and the active one (giving a device too short for a header
    /// a fresh one at the first LSN), cutting each back to its last whole
    /// record, and learns each transaction's last record.
    pub fn bootstrap(
        store: S,
        target_segment_size: u64,
        active_id: u64,
        active_device: S::Device,
        sealed_ids: Vec<u64>,
    ) -> (r: Result<Self, StorageError>)
        requires
            active_device.inv(),
        ensures
            r matches Ok(lm) ==> lm.inv() && opened(
                lm.view(),
                target_segment_size,
                active_id,
                sealed_ids@,
            ),
            active_device.contents().len() < SEGMENT_HEADER_LEN ==> (r matches Ok(lm) ==> lm.view().active_start
                == sealed_end_lsn(lm.view())),
            active_device.contents().len() >= SEGMENT_HEADER_LEN ==> (r matches Ok(lm) ==> lm.view().active_contents
                == active_device.contents().subrange(0, scan_end(active_device.contents(), 16))),
    {
        let mut sealed: Vec<SegmentMeta<S::Device>> = Vec::new();
        let mut last = KeyedVec::new();
        let mut k: usize = 0;
        let mut sealed_end: u64 = HEADER_LEN;
        let ghost empty_map = Map::<u64, u64>::empty();
        while k < sealed_ids.len()
            invariant
                k <= sealed_ids@.len(),
                sealed@.len() == k,
                last.inv(),
                forall|i: int| 0 <= i < k ==> (#[trigger] sealed@[i]).device.inv(),
                forall|i: int| 0 <= i < k ==> (#[trigger] sealed@[i]).id == sealed_ids@[i],
                sealed_end == (if k == 0 {
                    HEADER_LEN as int
                } else {
                    sealed@[k - 1].start_lsn + sealed@[k - 1].device.contents().len() - SEGMENT_HEADER_LEN
                }),
                forall|i: int|
                    0 <= i < k ==> whole_segment(
                        (#[trigger] sealed@[i]).device.contents(),
                        sealed@[i].start_lsn,
                    ),
                last.view() == last_lsns_after(
                    empty_map,
                    records_of(Seq::new(k as nat, |i: int| sealed@[i].device.contents()), 0, k as int),
                ),
            decreases sealed_ids@.len() - k,
        {
            let id = sealed_ids[k];
            let device = match store.open(id) {
                Ok(d) => d,
                Err(e) => return Err(e),
            };
            let (start, next, recs) = match open_sealed_segment(&device) {
                Ok(x) => x,
                Err(e) => return Err(e),
            };
            sealed_end = next;
            let ghost before = Seq::new(k as nat, |i: int| sealed@[i].device.contents());
            let ghost m0 = last.view();
            note_records(&mut last, &recs);
            sealed.push(SegmentMeta { id, start_lsn: start, device });
            proof {
                let after = Seq::new((k + 1) as nat, |i: int| sealed@[i].device.contents());
                assert forall|j: int| 0 <= j <= k implies records_of(after, 0, j) == records_of(before, 0, j) by {
                    lemma_records_of_prefix(after, before, j);
                }
                assert(records_of(after, 0, k + 1) == records_of(after, 0, k as int) + scan(after[k as int], 16));
                lemma_last_lsns_concat(empty_map, records_of(before, 0, k as int), scan(after[k as int], 16));
            }
            k = k + 1;
        }
        let mut active_device = active_device;
        let size = match active_device.size() {
            Ok(l) => l,
            Err(e) => return Err(StorageError::Io(e)),
        };
        let (active_start_lsn, next_lsn) = if size < SEGMENT_HEADER_LEN {
            match write_segment_header(&mut active_device, sealed_end) {
                Ok(()) => {},
                Err(e) => return Err(e),
            }
            proof {
                crate::segment::lemma_header_len(sealed_end);
                let c = active_device.contents();
                assert(c.subrange(0, 16) =~= c);
                crate::segment::lemma_header_only_segment(c);
            }
            (sealed_end, sealed_end)
        } else {
            let (start, next, recs) = match open_segment(&mut active_device) {
                Ok(x) => x,
                Err(e) => return Err(e),
            };
            note_records(&mut last, &recs);
            (start, next)
        };
        let lm = LogManager {
            store,
            target_segment_size,
            sealed,
            active_id,
            active_start_lsn,
            active_device,
            buffer: Vec::new(),
            next_lsn,
            last_lsn_by_txn: last,
            bytes_appended: 0,
            durable_lsn: next_lsn,
        };
        proof {
            let v = lm.view();
            assert(v.sealed_contents =~= Seq::new(k as nat, |i: int| lm.sealed@[i].device.contents()));
            assert(v.sealed_ids =~= sealed_ids@);
            lemma_last_lsns_concat(empty_map, segment_records(v, 0, k as int), scan(v.active_contents, 16));
        }
        Ok(lm)
    }

    /// Opens the log whose segments `store` holds: the newest is active,
    /// the others sealed; with none, segment 0 starts the log.
    pub fn open_with_segment_store(store: S, target_segment_size: u64) -> (r: Result<
        Self,
        StorageError,
    >)
        ensures
            r matches Ok(lm) ==> lm.inv() && opened(
                lm.view(),
                target_segment_size,
                lm.view().active_id,
                lm.view().sealed_ids,
            ),
    {
        let mut ids = match store.existing_segments() {
            Ok(ids) => ids,
            Err(e) => return Err(e),
        };
        let active_id = match ids.pop() {
            Some(id) => id,
            None => 0,
        };
        let device = match store.open(active_id) {
            Ok(d) => d,
            Err(e) => return Err(e),
        };
        Self::bootstrap(store, target_segment_size, active_id, device, ids)
    }
}

impl<D: BlockDevice> LogManager<NoSegmentStore<D>> {
    /// Opens a log kept on the single device `device`; it never rolls.
    pub fn open_with_device(device: D) -> (r: Result<Self, StorageError>)
        requires
            device.inv(),
        ensures
            r matches Ok(lm) ==> lm.inv() && opened(lm.view(), u64::MAX, 0, Seq::empty()),
            device.contents().len() >= SEGMENT_HEADER_LEN ==> (r matches Ok(lm) ==> lm.view().active_contents
                == device.contents().subrange(0, scan_end(device.contents(), 16))),
    {
        Self::bootstrap(NoSegmentStore::new(), u64::MAX, 0, device, Vec::new())
    }
}

/// A record appended to the log reads back at the LSN the append gave,
/// with its transaction's previous record as its `prev_lsn`.
pub proof fn lemma_read_after_append(v: LogView, txn_id: u64, kind: KindView)
    requires
        consistent(v),
        kind_fits(kind),
        record_len(kind) <= u32::MAX,
        v.next_lsn != 0,
        !(v.last_lsns.dom().contains(txn_id) && v.last_lsns[txn_id] == 0),
    ensures
        spec_read_at(after_append(v, txn_id, kind), v.next_lsn) == Some(
            RecordView {
                lsn: v.next_lsn,
                prev_lsn: if v.last_lsns.dom().contains(txn_id) {
                    Some(v.last_lsns[txn_id])
                } else {
                    None
                },
                txn_id,
                kind,
            },
        ),
{
    let prev = if v.last_lsns.dom().contains(txn_id) {
        Some(v.last_lsns[txn_id])
    } else {
        None
    };
    let bytes = record_bytes(v.next_lsn, prev, txn_id, kind);
    let w = after_append(v, txn_id, kind);
    lemma_record_len(v.next_lsn, prev, txn_id, kind);
    let p = v.buffer.len() as int;
    assert(w.buffer.subrange(p, p + bytes.len()) =~= bytes);
    crate::wal::lemma_record_round_trip(w.buffer, p, v.next_lsn, prev, txn_id, kind);
}

/// A flush leaves every record that could be read before it readable,
/// and the same, at the same LSN.
pub proof fn lemma_flush_keeps_records(v: LogView, lsn: u64)
    requires
        consistent(v),
        healthy(v),
        spec_read_at(v, lsn) is Some,
    ensures
        spec_read_at(after_flush(v), lsn) == spec_read_at(v, lsn),
        healthy(after_flush(v)),
{
    let w = after_flush(v);
    let data = v.active_contents + v.buffer;
    let rolled = data.len() >= SEGMENT_HEADER_LEN && data.len() - SEGMENT_HEADER_LEN
        >= v.target_segment_size;
    assert(data.subrange(0, 16) =~= v.active_contents.subrange(0, 16));
    if rolled {
        crate::segment::lemma_header_len(v.next_lsn);
        assert(segment_header(v.next_lsn).subrange(0, 16) =~= segment_header(v.next_lsn));
    }
    if lsn >= v.durable_lsn {
        let p = lsn - v.durable_lsn;
        crate::segment::lemma_decode_advances(v.buffer, p);
        lemma_decode_after_prefix(v.active_contents, v.buffer, p);
        assert(SEGMENT_HEADER_LEN + (lsn - v.active_start) == v.active_contents.len() + p);
        if rolled {
            assert(w.sealed_starts.last() == v.active_start);
            assert(find_sealed(w.sealed_starts, lsn) == Some(v.sealed_starts.len() as int));
        }
    } else if lsn >= v.active_start {
        let p = SEGMENT_HEADER_LEN + (lsn - v.active_start);
        lemma_decode_extend(v.active_contents, v.buffer, p);
        if rolled {
            assert(w.sealed_starts.last() == v.active_start);
            assert(find_sealed(w.sealed_starts, lsn) == Some(v.sealed_starts.len() as int));
        }
    } else {
        if rolled {
            assert(w.sealed_starts.drop_last() =~= v.sealed_starts);
            assert(w.sealed_starts.last() == v.active_start);
            let i = find_sealed(v.sealed_starts, lsn).unwrap();
            lemma_find_sealed_bounds(v.sealed_starts, lsn);
            assert(w.sealed_contents[i] == v.sealed_contents[i]);
            assert(w.sealed_starts[i] == v.sealed_starts[i]);
        }
    }
}

pub proof fn lemma_find_sealed_bounds(starts: Seq<u64>, lsn: u64)
    ensures
        find_sealed(starts, lsn) matches Some(i) ==> 0 <= i < starts.len() && starts[i] <= lsn,
    decreases starts.len(),
{
    if starts.len() > 0 && starts.last() > lsn {
        lemma_find_sealed_bounds(starts.drop_last(), lsn);
        match find_sealed(starts.drop_last(), lsn) {
            Some(i) => {
                assert(starts.drop_last()[i] == starts[i]);
            },
            None => {},
        }
    }
}

/// Dropping the segments that end at or below `bound` leaves every read
/// at or past `bound` as it was.
pub proof fn lemma_truncate_keeps_reads(v: LogView, bound: u64, lsn: u64)
    requires
        consistent(v),
        lsn >= bound,
    ensures
        spec_read_at(after_truncate(v, bound), lsn) == spec_read_at(v, lsn),
{
    let k = ends_below(v.sealed_starts, v.active_start, bound, 0);
    lemma_ends_below_bounds(v.sealed_starts, v.active_start, bound, 0);
    if k == 0 {
        let w = after_truncate(v, bound);
        assert(w.sealed_starts =~= v.sealed_starts);
        assert(w.sealed_contents =~= v.sealed_contents);
    }
    if k > 0 && lsn < v.active_start {
        if k == v.sealed_starts.len() {
            assert(segment_end(v.sealed_starts, v.active_start, k - 1) <= bound);
        } else {
            assert(segment_end(v.sealed_starts, v.active_start, k - 1) <= bound);
            assert(v.sealed_starts[k] <= lsn);
            lemma_find_sealed_suffix(v.sealed_starts, lsn, k);
            let i = find_sealed(v.sealed_starts, lsn).unwrap();
            lemma_find_sealed_bounds(v.sealed_starts, lsn);
            let w = after_truncate(v, bound);
            assert(w.sealed_contents[i - k] == v.sealed_contents[i]);
            assert(w.sealed_starts[i - k] == v.sealed_starts[i]);
        }
    }
}

/// When a segment at or past `k` starts at or before `lsn`, dropping the
/// `k` oldest segments does not change which one holds `lsn`.
pub proof fn lemma_find_sealed_suffix(starts: Seq<u64>, lsn: u64, k: int)
    requires
        0 <= k < starts.len(),
        starts[k] <= lsn,
    ensures
        find_sealed(starts, lsn) matches Some(i) && i >= k && find_sealed(starts.skip(k), lsn)
            == Some(i - k),
    decreases starts.len(),
{
    if starts.last() <= lsn {
        assert(starts.skip(k).last() == starts.last());
    } else {
        assert(k < starts.len() - 1);
        assert(starts.drop_last()[k] == starts[k]);
        lemma_find_sealed_suffix(starts.drop_last(), lsn, k);
        assert(starts.skip(k).drop_last() =~= starts.drop_last().skip(k));
        assert(starts.skip(k).last() == starts.last());
    }
}

} // verus!
