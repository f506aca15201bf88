//! Write-ahead log segments: a 16-byte header (`FDBWAL01` and the LSN of
//! the segment's first byte), then whole records.

use vstd::bytes::*;
use vstd::prelude::*;
use vstd::string::*;

use crate::block_device::{resized, written, BlockDevice, DeviceError};
use crate::codec::{le_u64_at, read_u64};
use crate::error::StorageError;
use crate::fmt::{push_decimal, push_str, spec_decimal};
use crate::wal::{decode_record, spec_decode_record, LoggedRecord, RecordView, MIN_RECORD_LEN};

verus! {

/// Bytes of a segment's header.
pub const SEGMENT_HEADER_LEN: u64 = 16;

/// The LSN of the first record of a fresh log.
pub const HEADER_LEN: u64 = 16;

/// The body size at which a flush rolls to a new segment.
pub const DEFAULT_SEGMENT_SIZE: u64 = 16777216;

/// `FDBWAL01`, a segment header's magic number.
pub open spec fn segment_magic() -> Seq<u8> {
    seq![70u8, 68u8, 66u8, 87u8, 65u8, 76u8, 48u8, 49u8]
}

/// The header of a segment whose first byte after the header has LSN
/// `start_lsn`.
pub open spec fn segment_header(start_lsn: u64) -> Seq<u8> {
    segment_magic() + spec_u64_to_le_bytes(start_lsn)
}

pub proof fn lemma_header_len(start_lsn: u64)
    ensures
        segment_header(start_lsn).len() == SEGMENT_HEADER_LEN,
{
    lemma_auto_spec_u64_to_from_le_bytes();
}

pub open spec fn bad_magic_reason() -> Seq<char> {
    "bad magic in write-ahead log segment header"@
}

fn segment_magic_bytes() -> (m: Vec<u8>)
    ensures
        m@ == segment_magic(),
{
    let mut m = Vec::new();
    m.push(70u8);
    m.push(68u8);
    m.push(66u8);
    m.push(87u8);
    m.push(65u8);
    m.push(76u8);
    m.push(48u8);
    m.push(49u8);
    assert(m@ =~= segment_magic());
    m
}

/// The file name of segment `id` of the log at `base`: the base, a dot
/// and the id as at least six decimal digits.
pub open spec fn spec_segment_path(base: Seq<char>, id: u64) -> Seq<char> {
    let digits = spec_decimal(id as nat);
    base + "."@ + Seq::new(
        if digits.len() < 6 {
            (6 - digits.len()) as nat
        } else {
            0
        },
        |i: int| '0',
    ) + digits
}

pub fn segment_path(base: &str, id: u64) -> (path: String)
    ensures
        path@ == spec_segment_path(base@, id),
{
    let mut digits = String::new();
    push_decimal(&mut digits, id);
    let len = digits.as_str().unicode_len();
    let mut out = String::new();
    push_str(&mut out, base);
    push_str(&mut out, ".");
    let mut pad: usize = len;
    let ghost start = out@;
    while pad < 6
        invariant
            len <= pad <= 6 || (len > 6 && pad == len),
            len == spec_decimal(id as nat).len(),
            out@ == start + Seq::new((pad - len) as nat, |i: int| '0'),
        decreases 6 - pad,
    {
        push_str(&mut out, "0");
        proof {
            reveal_strlit("0");
        }
        pad = pad + 1;
        assert(out@ =~= start + Seq::new((pad - len) as nat, |i: int| '0'));
    }
    push_str(&mut out, digits.as_str());
    assert(out@ =~= spec_segment_path(base@, id));
    out
}

/// Ten to the power `n`.
pub open spec fn pow10(n: nat) -> nat
    decreases n,
{
    if n == 0 {
        1
    } else {
        10 * pow10((n - 1) as nat)
    }
}

proof fn lemma_pow10_monotonic(k: nat, n: nat)
    requires
        k <= n,
    ensures
        pow10(k) <= pow10(n),
    decreases n,
{
    if k < n {
        lemma_pow10_monotonic(k, (n - 1) as nat);
    }
}

/// Whether `b` is an ASCII decimal digit.
pub open spec fn is_digit(b: u8) -> bool {
    48 <= b <= 57
}

/// The number the ASCII decimal digits `s` spell.
pub open spec fn digits_value(s: Seq<u8>) -> nat
    decreases s.len(),
{
    if s.len() == 0 {
        0
    } else {
        digits_value(s.drop_last()) * 10 + (s.last() - 48) as nat
    }
}

/// The id of the log segment whose file name is `name`, for a log whose
/// base file name is `base`: the name must be the base, a dot and exactly
/// six ASCII digits, which spell the id.
pub open spec fn spec_segment_id_of(name: Seq<u8>, base: Seq<u8>) -> Option<u64> {
    let n = base.len() as int;
    if name.len() == n + 7 && name.subrange(0, n) == base && name[n] == 46u8 && forall|i: int|
        n + 1 <= i < n + 7 ==> is_digit(#[trigger] name[i]) {
        Some(digits_value(name.subrange(n + 1, n + 7)) as u64)
    } else {
        None
    }
}

/// The id of the log segment whose file name is `name`, if it names one
/// of the log whose base file name is `base`.
pub fn segment_id_of(name: &[u8], base: &[u8]) -> (r: Option<u64>)
    ensures
        r == spec_segment_id_of(name@, base@),
        r matches Some(id) ==> id < 1000000,
{
    let n = base.len();
    if name.len() < 7 || name.len() - 7 != n {
        return None;
    }
    let mut i: usize = 0;
    while i < n
        invariant
            i <= n,
            n == base@.len(),
            name@.len() == n + 7,
            forall|k: int| 0 <= k < i ==> name@[k] == base@[k],
        decreases n - i,
    {
        if name[i] != base[i] {
            proof {
                assert(name@.subrange(0, n as int)[i as int] != base@[i as int]);
            }
            return None;
        }
        i = i + 1;
    }
    proof {
        assert(name@.subrange(0, n as int) =~= base@);
    }
    if name[n] != 46u8 {
        return None;
    }
    let mut value: u64 = 0;
    let mut j: usize = n + 1;
    while j < name.len()
        invariant
            n + 1 <= j <= n + 7,
            n == base@.len(),
            name@.len() == n + 7,
            forall|k: int| n + 1 <= k < j ==> is_digit(#[trigger] name@[k]),
            value == digits_value(name@.subrange(n + 1, j as int)),
            value < pow10((j - n - 1) as nat),
        decreases n + 7 - j,
    {
        let b = name[j];
        if b < 48u8 || b > 57u8 {
            return None;
        }
        proof {
            let t = name@.subrange(n + 1, j + 1);
            assert(t.drop_last() =~= name@.subrange(n + 1, j as int));
            lemma_pow10_monotonic((j - n) as nat, 6);
            reveal_with_fuel(pow10, 7);
            assert(value * 10 + 9 < pow10((j - n) as nat)) by (nonlinear_arith)
                requires
                    value < pow10((j - n - 1) as nat),
                    pow10((j - n) as nat) == 10 * pow10((j - n - 1) as nat),
            ;
        }
        value = value * 10 + (b - 48u8) as u64;
        j = j + 1;
    }
    proof {
        reveal_with_fuel(pow10, 7);
    }
    Some(value)
}

/// Starts `device` afresh as an empty segment whose body begins at
/// `start_lsn`.
pub fn write_segment_header<D: BlockDevice>(device: &mut D, start_lsn: u64) -> (r: Result<
    (),
    StorageError,
>)
    requires
        old(device).inv(),
    ensures
        final(device).inv(),
        r is Ok ==> final(device).contents() == segment_header(start_lsn),
        r is Err ==> r->Err_0 is Io,
{
    let mut buf = segment_magic_bytes();
    let mut lsn_bytes = u64_to_le_bytes(start_lsn);
    buf.append(&mut lsn_bytes);
    match device.set_len(0) {
        Ok(()) => {},
        Err(e) => return Err(StorageError::Io(e)),
    }
    match device.write_at(0, buf.as_slice()) {
        Ok(()) => {},
        Err(e) => return Err(StorageError::Io(e)),
    }
    proof {
        lemma_auto_spec_u64_to_from_le_bytes();
        assert(final(device).contents() =~= segment_header(start_lsn));
    }
    Ok(())
}

/// The start LSN a segment's header records.
pub fn read_segment_header<D: BlockDevice>(device: &D) -> (r: Result<u64, StorageError>)
    requires
        device.inv(),
    ensures
        match r {
            Ok(v) => {
                &&& device.contents().len() >= SEGMENT_HEADER_LEN
                &&& device.contents().subrange(0, 8) == segment_magic()
                &&& v == le_u64_at(device.contents(), 8)
            },
            Err(StorageError::CorruptLogHeader { reason }) => {
                &&& device.contents().len() >= SEGMENT_HEADER_LEN
                &&& device.contents().subrange(0, 8) != segment_magic()
                &&& reason@ == bad_magic_reason()
            },
            Err(e) => e is Io,
        },
{
    let buf = match device.read_at(0, 16) {
        Ok(b) => b,
        Err(e) => return Err(StorageError::Io(e)),
    };
    let magic = segment_magic_bytes();
    let mut i: usize = 0;
    while i < 8
        invariant
            i <= 8,
            buf@.len() == 16,
            device.contents().len() >= 16,
            buf@ == device.contents().subrange(0, 16),
            magic@ == segment_magic(),
            forall|j: int| 0 <= j < i ==> buf@[j] == magic@[j],
        decreases 8 - i,
    {
        if buf[i] != magic[i] {
            assert(buf@ == device.contents().subrange(0, 16));
            assert(device.contents().subrange(0, 8)[i as int] == buf@[i as int]);
            assert(device.contents().subrange(0, 8)[i as int] != segment_magic()[i as int]);
            let mut reason = String::new();
            push_str(&mut reason, "bad magic in write-ahead log segment header");
            assert(reason@ =~= bad_magic_reason());
            return Err(StorageError::CorruptLogHeader { reason });
        }
        i = i + 1;
    }
    assert(buf@.subrange(0, 8) =~= segment_magic());
    assert(device.contents().subrange(0, 8) =~= buf@.subrange(0, 8));
    let v = read_u64(buf.as_slice(), 8);
    assert(buf@.subrange(8, 16) =~= device.contents().subrange(8, 16));
    Ok(v)
}

pub proof fn lemma_decode_advances(s: Seq<u8>, pos: int)
    ensures
        spec_decode_record(s, pos) matches Some((r, n)) ==> MIN_RECORD_LEN <= n && pos + n
            <= s.len() && 0 <= pos,
{
}

/// The records decoded one after another from `pos` until one does not
/// decode.
pub open spec fn scan(s: Seq<u8>, pos: int) -> Seq<RecordView>
    decreases s.len() - pos,
{
    if 0 <= pos <= s.len() {
        match spec_decode_record(s, pos) {
            Some((r, n)) => if MIN_RECORD_LEN <= n && pos + n <= s.len() {
                seq![r] + scan(s, pos + n)
            } else {
                Seq::empty()
            },
            None => Seq::empty(),
        }
    } else {
        Seq::empty()
    }
}

/// Where decoding from `pos` stops.
pub open spec fn scan_end(s: Seq<u8>, pos: int) -> int
    decreases s.len() - pos,
{
    if 0 <= pos <= s.len() {
        match spec_decode_record(s, pos) {
            Some((r, n)) => if MIN_RECORD_LEN <= n && pos + n <= s.len() {
                scan_end(s, pos + n)
            } else {
                pos
            },
            None => pos,
        }
    } else {
        pos
    }
}

/// Decodes every record from `pos` on, stopping at the first that does
/// not decode, and gives where it stopped.
pub fn decode_all(bytes: &[u8], pos: usize) -> (r: (Vec<LoggedRecord>, usize))
    requires
        pos <= bytes@.len(),
    ensures
        r.0@.map_values(|x: LoggedRecord| x@) == scan(bytes@, pos as int),
        r.1 == scan_end(bytes@, pos as int),
{
    let mut out: Vec<LoggedRecord> = Vec::new();
    let mut at = pos;
    let blen = bytes.len();
    proof {
        assert(out@.map_values(|x: LoggedRecord| x@) =~= Seq::<RecordView>::empty());
    }
    loop
        invariant
            pos <= at <= bytes@.len(),
            blen == bytes@.len(),
            out@.map_values(|x: LoggedRecord| x@) + scan(bytes@, at as int) == scan(
                bytes@,
                pos as int,
            ),
            scan_end(bytes@, at as int) == scan_end(bytes@, pos as int),
        decreases bytes@.len() - at,
    {
        proof {
            lemma_decode_advances(bytes@, at as int);
        }
        match decode_record(bytes, at) {
            Some((rec, n)) => {
                assert(at + n <= bytes@.len());
                let ghost before = out@.map_values(|x: LoggedRecord| x@);
                out.push(rec);
                proof {
                    assert(out@.map_values(|x: LoggedRecord| x@) =~= before.push(rec@));
                    assert(scan(bytes@, at as int) == seq![rec@] + scan(bytes@, at + n));
                    assert(before + scan(bytes@, at as int) =~= before.push(rec@) + scan(
                        bytes@,
                        at + n,
                    ));
                }
                at = at + n;
            },
            None => {
                proof {
                    assert(scan(bytes@, at as int) =~= Seq::<RecordView>::empty());
                    assert(out@.map_values(|x: LoggedRecord| x@) =~= out@.map_values(
                        |x: LoggedRecord| x@,
                    ) + scan(bytes@, at as int));
                }
                return (out, at);
            },
        }
    }
}

/// Reads the whole segment on `device`, decodes its records from the end
/// of the header on, and cuts the device back to the end of the last one
/// that decodes. Gives the LSN just past that record and the records.
pub fn scan_segment<D: BlockDevice>(device: &mut D, start_lsn: u64) -> (r: Result<
    (u64, Vec<LoggedRecord>),
    StorageError,
>)
    requires
        old(device).inv(),
        old(device).contents().len() >= SEGMENT_HEADER_LEN,
        start_lsn + old(device).contents().len() <= u64::MAX,
    ensures
        final(device).inv(),
        r is Err ==> r->Err_0 is Io,
        r matches Ok((next, recs)) ==> {
            let s = old(device).contents();
            let end = scan_end(s, SEGMENT_HEADER_LEN as int);
            &&& recs@.map_values(|x: LoggedRecord| x@) == scan(s, SEGMENT_HEADER_LEN as int)
            &&& next == start_lsn + (end - SEGMENT_HEADER_LEN)
            &&& final(device).contents() == s.subrange(0, end)
        },
{
    let len = match device.size() {
        Ok(l) => l,
        Err(e) => return Err(StorageError::Io(e)),
    };
    if len > usize::MAX as u64 {
        return Err(StorageError::Io(DeviceError::UnexpectedEof));
    }
    let bytes = match device.read_at(0, len as usize) {
        Ok(b) => b,
        Err(e) => return Err(StorageError::Io(e)),
    };
    assert(bytes@ =~= old(device).contents());
    let (recs, end) = decode_all(bytes.as_slice(), 16);
    proof {
        lemma_scan_end_bounds(bytes@, 16);
    }
    match device.set_len(end as u64) {
        Ok(()) => {},
        Err(e) => return Err(StorageError::Io(e)),
    }
    assert(final(device).contents() =~= old(device).contents().subrange(0, end as int));
    Ok((start_lsn + (end as u64 - 16), recs))
}

pub open spec fn torn_sealed_reason() -> Seq<char> {
    "sealed write-ahead log segment does not decode to its end"@
}

/// Reads the whole sealed segment on `device` and decodes its records from
/// the end of the header on; a segment whose records stop short of its
/// end is refused and left as it is. Gives the LSN just past its last
/// record and the records.
pub fn scan_whole_segment<D: BlockDevice>(device: &D, start_lsn: u64) -> (r: Result<
    (u64, Vec<LoggedRecord>),
    StorageError,
>)
    requires
        device.inv(),
        device.contents().len() >= SEGMENT_HEADER_LEN,
        start_lsn + device.contents().len() <= u64::MAX,
    ensures
        r matches Ok((next, recs)) ==> {
            let s = device.contents();
            &&& scan_end(s, SEGMENT_HEADER_LEN as int) == s.len()
            &&& recs@.map_values(|x: LoggedRecord| x@) == scan(s, SEGMENT_HEADER_LEN as int)
            &&& next == start_lsn + (s.len() - SEGMENT_HEADER_LEN)
        },
        r matches Err(e) ==> e is Io || (scan_end(device.contents(), SEGMENT_HEADER_LEN as int)
            != device.contents().len() && (e matches StorageError::CorruptLogHeader { reason }
            && reason@ == torn_sealed_reason())),
{
    let len = match device.size() {
        Ok(l) => l,
        Err(e) => return Err(StorageError::Io(e)),
    };
    if len > usize::MAX as u64 {
        return Err(StorageError::Io(DeviceError::UnexpectedEof));
    }
    let bytes = match device.read_at(0, len as usize) {
        Ok(b) => b,
        Err(e) => return Err(StorageError::Io(e)),
    };
    assert(bytes@ =~= device.contents());
    let (recs, end) = decode_all(bytes.as_slice(), 16);
    if end != bytes.len() {
        let reason = String::from_str("sealed write-ahead log segment does not decode to its end");
        proof {
            reveal_strlit("sealed write-ahead log segment does not decode to its end");
        }
        return Err(StorageError::CorruptLogHeader { reason });
    }
    Ok((start_lsn + (end as u64 - 16), recs))
}

pub proof fn lemma_scan_end_bounds(s: Seq<u8>, pos: int)
    requires
        0 <= pos <= s.len(),
    ensures
        pos <= scan_end(s, pos) <= s.len(),
    decreases s.len() - pos,
{
    match spec_decode_record(s, pos) {
        Some((r, n)) => if MIN_RECORD_LEN <= n && pos + n <= s.len() {
            lemma_scan_end_bounds(s, pos + n);
        },
        None => {},
    }
}

/// What `read_record_at` finds at `offset` of a segment's bytes: the
/// record framed there, if it decodes.
pub open spec fn record_at(s: Seq<u8>, offset: int) -> Option<RecordView> {
    match spec_decode_record(s, offset) {
        Some((r, n)) => Some(r),
        None => None,
    }
}

/// Reads the record framed at `offset` of `device`.
pub fn read_record_at<D: BlockDevice>(device: &D, offset: u64) -> (r: Result<
    Option<LoggedRecord>,
    StorageError,
>)
    requires
        device.inv(),
    ensures
        r is Err ==> r->Err_0 is Io,
        r matches Ok(o) ==> match o {
            Some(rec) => record_at(device.contents(), offset as int) == Some(rec@),
            None => record_at(device.contents(), offset as int) is None,
        },
{
    let device_len = match device.size() {
        Ok(l) => l,
        Err(e) => return Err(StorageError::Io(e)),
    };
    if offset > device_len || 4 > device_len - offset {
        return Ok(None);
    }
    let len_buf = match device.read_at(offset, 4) {
        Ok(b) => b,
        Err(e) => return Err(StorageError::Io(e)),
    };
    let total_len = crate::codec::read_u32(len_buf.as_slice(), 0) as u64;
    assert(len_buf@.subrange(0, 4) =~= device.contents().subrange(offset as int, offset + 4));
    if total_len < MIN_RECORD_LEN as u64 || total_len > device_len - offset {
        return Ok(None);
    }
    let record_buf = match device.read_at(offset, total_len as usize) {
        Ok(b) => b,
        Err(e) => return Err(StorageError::Io(e)),
    };
    let decoded = decode_record(record_buf.as_slice(), 0);
    proof {
        let s = device.contents();
        let rec = record_buf@;
        assert(rec.subrange(0, 4) =~= s.subrange(offset as int, offset + 4));
        assert(rec.subrange(0, total_len as int) =~= s.subrange(
            offset as int,
            offset + total_len,
        ));
    }
    match decoded {
        Some((rec, n)) => Ok(Some(rec)),
        None => Ok(None),
    }
}

pub open spec fn at_or_after(from: u64) -> spec_fn(RecordView) -> bool {
    |r: RecordView| r.lsn >= from
}

/// Decodes every record from `pos` on, as `decode_all` does, and appends
/// those at or after LSN `from` to `out`.
pub fn decode_into(bytes: &[u8], pos: usize, from: u64, out: &mut Vec<LoggedRecord>)
    requires
        pos <= bytes@.len(),
    ensures
        final(out)@.map_values(|x: LoggedRecord| x@) == old(out)@.map_values(|x: LoggedRecord| x@)
            + scan(bytes@, pos as int).filter(at_or_after(from)),
{
    let mut at = pos;
    let blen = bytes.len();
    let ghost base = out@.map_values(|x: LoggedRecord| x@);
    let ghost p = at_or_after(from);
    let ghost mut done: Seq<RecordView> = Seq::empty();
    proof {
        reveal(Seq::filter);
        assert(out@.map_values(|x: LoggedRecord| x@) =~= base + done.filter(p));
        assert(done + scan(bytes@, at as int) =~= scan(bytes@, pos as int));
    }
    loop
        invariant
            pos <= at <= bytes@.len(),
            blen == bytes@.len(),
            p == at_or_after(from),
            base == old(out)@.map_values(|x: LoggedRecord| x@),
            out@.map_values(|x: LoggedRecord| x@) == base + done.filter(p),
            done + scan(bytes@, at as int) == scan(bytes@, pos as int),
        decreases bytes@.len() - at,
    {
        proof {
            lemma_decode_advances(bytes@, at as int);
        }
        match decode_record(bytes, at) {
            Some((rec, n)) => {
                assert(at + n <= bytes@.len());
                let ghost before = out@.map_values(|x: LoggedRecord| x@);
                let keep = rec.lsn.0 >= from;
                let ghost rv = rec@;
                if keep {
                    out.push(rec);
                    assert(out@.map_values(|x: LoggedRecord| x@) =~= before.push(rv));
                }
                proof {
                    done.lemma_filter_push(rv, p);
                    assert(scan(bytes@, at as int) == seq![rv] + scan(bytes@, at + n));
                    assert(done.push(rv) + scan(bytes@, at + n) =~= done + scan(bytes@, at as int));
                    if keep {
                        assert(p(rv));
                        assert(base + done.push(rv).filter(p) =~= before.push(rv));
                    } else {
                        assert(!p(rv));
                    }
                    done = done.push(rv);
                }
                at = at + n;
            },
            None => {
                proof {
                    assert(scan(bytes@, at as int) =~= Seq::<RecordView>::empty());
                    assert(done =~= scan(bytes@, pos as int));
                }
                return ;
            },
        }
    }
}

/// A record that decodes reads the same from a prefix that still holds it.
pub proof fn lemma_decode_cut(s: Seq<u8>, p: int, e: int)
    requires
        spec_decode_record(s, p) matches Some((r, n)) && p + n <= e <= s.len(),
    ensures
        spec_decode_record(s.subrange(0, e), p) == spec_decode_record(s, p),
{
    let t = s.subrange(0, e);
    assert(t.subrange(p, p + 4) =~= s.subrange(p, p + 4));
    let total = crate::codec::le_u32_at(s, p) as int;
    assert(t.subrange(p, p + total) =~= s.subrange(p, p + total));
}

/// Cutting a segment back to where its records stop keeps its records,
/// and then they fill it exactly.
pub proof fn lemma_scan_cut(s: Seq<u8>, p: int)
    requires
        0 <= p <= s.len(),
    ensures
        scan(s.subrange(0, scan_end(s, p)), p) == scan(s, p),
        scan_end(s.subrange(0, scan_end(s, p)), p) == scan_end(s, p),
{
    lemma_scan_cut_same(s, p, scan_end(s, p));
}

/// Scanning the cut from `q` on, where the cut lies at or past where the
/// scan of the whole from `q` stops, is the same scan.
proof fn lemma_scan_cut_same(s: Seq<u8>, q: int, e: int)
    requires
        0 <= q <= s.len(),
        e == scan_end(s, q),
    ensures
        scan(s.subrange(0, e), q) == scan(s, q),
        scan_end(s.subrange(0, e), q) == e,
    decreases s.len() - q,
{
    lemma_scan_end_bounds(s, q);
    let t = s.subrange(0, e);
    match spec_decode_record(s, q) {
        Some((r, n)) => {
            if MIN_RECORD_LEN <= n && q + n <= s.len() {
                lemma_scan_end_bounds(s, q + n);
                lemma_decode_cut(s, q, e);
                lemma_scan_cut_same(s, q + n, e);
            } else {
                lemma_decode_advances(s, q);
            }
        },
        None => {
            assert(spec_decode_record(t, q) is None);
        },
    }
}

/// A segment holding only its header has no records.
pub proof fn lemma_header_only_segment(c: Seq<u8>)
    requires
        c.len() == SEGMENT_HEADER_LEN,
    ensures
        scan(c, SEGMENT_HEADER_LEN as int) == Seq::<RecordView>::empty(),
        scan_end(c, SEGMENT_HEADER_LEN as int) == c.len(),
{
}

} // verus!
