//! B+-tree nodes: the page layout, the ordering of entries, where a full
//! node splits, and the bytes a rebuilt node changes.
//!
//! A node page holds, from byte 12: its kind (`u8`, 1 for internal), the
//! slot count and the bytes of entry data in use (`u16` each), and the
//! tail (`u32`: the leftmost child of an internal node, the next leaf of a
//! leaf, 0 for none). Slot `i` is four bytes at `21 + 4 * i`: the entry's
//! offset and length. An entry is a key length (`u16`), the key, and a
//! trailer: the record id (page `u32`, slot `u16`) in a leaf, the child
//! page (`u32`) in an internal node. Leaf entries sort by key and record
//! id together, so duplicate keys keep a stable order.

use vstd::bytes::*;
use vstd::prelude::*;
use vstd::slice::*;

use crate::codec::{le_u16_at, le_u32_at, push_bytes, push_u16, push_u32, read_u16, read_u32, write_into};
use vstd::string::*;
use crate::error::StorageError;
use crate::fmt::{push_decimal, push_str, spec_decimal};
use crate::heap::is_corrupt;
use crate::codec::splice;
use crate::ids::{PageId, Rid, TxnId};
use crate::page::{Page, PAGE_SIZE};
use crate::block_device::BlockDevice;
use crate::buffer::BufferPool;
use crate::ids::FrameId;
use crate::log_manager::SegmentStore;
use crate::log_manager::LogView;
use crate::wal::{record_len, KindView};
use crate::recovery::stamped_write;
pub use crate::btree_index::{BTreeIndex, BTreeRangeIterator, LeafScan};

verus! {

pub const NODE_TYPE_AT: usize = 12;

pub const SLOT_COUNT_AT: usize = 13;

pub const DATA_USED_AT: usize = 15;

pub const TAIL_AT: usize = 17;

pub const HEADER_SIZE: usize = 21;

pub const SLOT_SIZE: usize = 4;

pub const LEAF_TAG: u8 = 0;

pub const INTERNAL_TAG: u8 = 1;

pub const KEY_LEN_PREFIX: usize = 2;

pub const RID_TRAILER_SIZE: usize = 6;

pub const CHILD_TRAILER_SIZE: usize = 4;

/// The largest key a node holds.
pub const MAX_KEY_SIZE: usize = 4059;

/// The largest entry a split pushes into a parent.
pub const MAX_INTERNAL_PUSH_UP_SIZE: usize = 4071;

/// How many slots fit between the header and the end of a page.
pub const MAX_SLOTS: u16 = 1018;

/// Whether `a` sorts at or before `b`, bytewise.
pub open spec fn lex_le(a: Seq<u8>, b: Seq<u8>) -> bool
    decreases a.len(),
{
    if a.len() == 0 {
        true
    } else if b.len() == 0 {
        false
    } else if a[0] != b[0] {
        a[0] < b[0]
    } else {
        lex_le(a.subrange(1, a.len() as int), b.subrange(1, b.len() as int))
    }
}

/// Whether `a` sorts strictly before `b`, bytewise.
pub open spec fn lex_lt(a: Seq<u8>, b: Seq<u8>) -> bool {
    lex_le(a, b) && a != b
}

/// Compares two byte strings bytewise: `a <= b`.
pub fn bytes_le(a: &[u8], b: &[u8]) -> (r: bool)
    ensures
        r == lex_le(a@, b@),
{
    let mut i: usize = 0;
    assert(a@.subrange(0, a@.len() as int) =~= a@);
    assert(b@.subrange(0, b@.len() as int) =~= b@);
    while i < a.len() && i < b.len()
        invariant
            i <= a@.len(),
            i <= b@.len(),
            forall|j: int| 0 <= j < i ==> a@[j] == b@[j],
            lex_le(a@, b@) == lex_le(a@.subrange(i as int, a@.len() as int), b@.subrange(i as int, b@.len() as int)),
        decreases a@.len() - i,
    {
        let ghost sa = a@.subrange(i as int, a@.len() as int);
        let ghost sb = b@.subrange(i as int, b@.len() as int);
        assert(sa[0] == a@[i as int] && sb[0] == b@[i as int]);
        if a[i] != b[i] {
            return a[i] < b[i];
        }
        assert(sa.subrange(1, sa.len() as int) =~= a@.subrange(i + 1, a@.len() as int));
        assert(sb.subrange(1, sb.len() as int) =~= b@.subrange(i + 1, b@.len() as int));
        i = i + 1;
    }
    i == a.len()
}

/// Compares two byte strings bytewise: `a < b`.
pub fn bytes_lt(a: &[u8], b: &[u8]) -> (r: bool)
    ensures
        r == lex_lt(a@, b@),
{
    bytes_le(a, b) && !bytes_eq(a, b)
}

pub fn bytes_eq(a: &[u8], b: &[u8]) -> (r: bool)
    ensures
        r == (a@ == b@),
{
    if a.len() != b.len() {
        return false;
    }
    let mut i: usize = 0;
    while i < a.len()
        invariant
            i <= a@.len(),
            a@.len() == b@.len(),
            forall|j: int| 0 <= j < i ==> a@[j] == b@[j],
        decreases a@.len() - i,
    {
        if a[i] != b[i] {
            return false;
        }
        i = i + 1;
    }
    assert(a@ =~= b@);
    true
}

/// The key length an entry records, 0 when it is too short to record one.
pub open spec fn spec_key_len(payload: Seq<u8>) -> int {
    if payload.len() >= 2 {
        le_u16_at(payload, 0) as int
    } else {
        0
    }
}

/// An entry's key; empty when the entry is too short to hold it.
pub open spec fn spec_entry_key(payload: Seq<u8>) -> Seq<u8> {
    let n = spec_key_len(payload);
    if KEY_LEN_PREFIX + n <= payload.len() {
        payload.subrange(KEY_LEN_PREFIX as int, KEY_LEN_PREFIX + n)
    } else {
        Seq::empty()
    }
}

/// A leaf entry's sort key: its key and record id; empty when the entry
/// is too short to hold them.
pub open spec fn spec_leaf_sort_key(payload: Seq<u8>) -> Seq<u8> {
    let n = spec_key_len(payload);
    if KEY_LEN_PREFIX + n + RID_TRAILER_SIZE <= payload.len() {
        payload.subrange(KEY_LEN_PREFIX as int, KEY_LEN_PREFIX + n + RID_TRAILER_SIZE)
    } else {
        Seq::empty()
    }
}

fn key_len(payload: &[u8]) -> (n: usize)
    ensures
        n == spec_key_len(payload@),
{
    if payload.len() >= 2 {
        read_u16(payload, 0) as usize
    } else {
        0
    }
}

pub fn entry_key(payload: &[u8]) -> (k: &[u8])
    ensures
        k@ == spec_entry_key(payload@),
{
    let n = key_len(payload);
    if payload.len() >= KEY_LEN_PREFIX && n <= payload.len() - KEY_LEN_PREFIX {
        return slice_subrange(payload, KEY_LEN_PREFIX, KEY_LEN_PREFIX + n);
    }
    slice_subrange(payload, 0, 0)
}

pub fn leaf_sort_key(payload: &[u8]) -> (k: &[u8])
    ensures
        k@ == spec_leaf_sort_key(payload@),
{
    let n = key_len(payload);
    if payload.len() >= KEY_LEN_PREFIX + RID_TRAILER_SIZE && n <= payload.len() - KEY_LEN_PREFIX - RID_TRAILER_SIZE {
        return slice_subrange(payload, KEY_LEN_PREFIX, KEY_LEN_PREFIX + n + RID_TRAILER_SIZE);
    }
    slice_subrange(payload, 0, 0)
}

/// The bytes of a leaf entry for `key` and `rid`.
pub open spec fn spec_leaf_payload(key: Seq<u8>, rid: Rid) -> Seq<u8> {
    spec_u16_to_le_bytes(key.len() as u16) + key + spec_u32_to_le_bytes(rid.page_id.0)
        + spec_u16_to_le_bytes(rid.slot)
}

/// The bytes of an internal entry for `key` and `child`.
pub open spec fn spec_internal_payload(key: Seq<u8>, child: PageId) -> Seq<u8> {
    spec_u16_to_le_bytes(key.len() as u16) + key + spec_u32_to_le_bytes(child.0)
}

pub fn build_leaf_payload(key: &[u8], rid: Rid) -> (p: Vec<u8>)
    ensures
        p@ == spec_leaf_payload(key@, rid),
{
    let mut buf: Vec<u8> = Vec::new();
    push_u16(&mut buf, key.len() as u16);
    push_bytes(&mut buf, key);
    push_u32(&mut buf, rid.page_id.0);
    push_u16(&mut buf, rid.slot);
    assert(buf@ =~= spec_leaf_payload(key@, rid));
    buf
}

pub fn build_internal_payload(key: &[u8], child: PageId) -> (p: Vec<u8>)
    ensures
        p@ == spec_internal_payload(key@, child),
{
    let mut buf: Vec<u8> = Vec::new();
    push_u16(&mut buf, key.len() as u16);
    push_bytes(&mut buf, key);
    push_u32(&mut buf, child.0);
    assert(buf@ =~= spec_internal_payload(key@, child));
    buf
}

/// Building and reading back an entry agree: the key and the sort key of
/// a built leaf entry are its key and its key followed by its record id.
pub proof fn lemma_leaf_payload_keys(key: Seq<u8>, rid: Rid)
    requires
        key.len() <= MAX_KEY_SIZE,
    ensures
        spec_entry_key(spec_leaf_payload(key, rid)) == key,
        spec_leaf_sort_key(spec_leaf_payload(key, rid)) == key + spec_u32_to_le_bytes(
            rid.page_id.0,
        ) + spec_u16_to_le_bytes(rid.slot),
{
    lemma_auto_spec_u16_to_from_le_bytes();
    lemma_auto_spec_u32_to_from_le_bytes();
    let p = spec_leaf_payload(key, rid);
    assert(p.subrange(0, 2) =~= spec_u16_to_le_bytes(key.len() as u16));
    assert(p.subrange(2, 2 + key.len() as int) =~= key);
    assert(p.subrange(2, 2 + key.len() as int + 6) =~= key + spec_u32_to_le_bytes(rid.page_id.0)
        + spec_u16_to_le_bytes(rid.slot));
}

/// The key of a built internal entry is its key.
pub proof fn lemma_internal_payload_key(key: Seq<u8>, child: PageId)
    requires
        key.len() <= MAX_KEY_SIZE,
    ensures
        spec_entry_key(spec_internal_payload(key, child)) == key,
{
    lemma_auto_spec_u16_to_from_le_bytes();
    lemma_auto_spec_u32_to_from_le_bytes();
    let p = spec_internal_payload(key, child);
    assert(p.subrange(0, 2) =~= spec_u16_to_le_bytes(key.len() as u16));
    assert(p.subrange(2, 2 + key.len() as int) =~= key);
}

/// The record id a leaf entry carries after its key.
pub fn leaf_rid(payload: &[u8]) -> (rid: Rid)
    requires
        payload@.len() >= 2,
        KEY_LEN_PREFIX + spec_key_len(payload@) + RID_TRAILER_SIZE <= payload@.len(),
    ensures
        rid.page_id.0 == le_u32_at(payload@, KEY_LEN_PREFIX + spec_key_len(payload@)),
        rid.slot == le_u16_at(payload@, KEY_LEN_PREFIX + spec_key_len(payload@) + 4),
{
    let at = KEY_LEN_PREFIX + key_len(payload);
    Rid::new(PageId(read_u32(payload, at)), read_u16(payload, at + 4))
}

/// The child page an internal entry carries after its key.
pub fn internal_child(payload: &[u8]) -> (child: PageId)
    requires
        payload@.len() >= 2,
        KEY_LEN_PREFIX + spec_key_len(payload@) + CHILD_TRAILER_SIZE <= payload@.len(),
    ensures
        child.0 == le_u32_at(payload@, KEY_LEN_PREFIX + spec_key_len(payload@)),
{
    let at = KEY_LEN_PREFIX + key_len(payload);
    PageId(read_u32(payload, at))
}

pub open spec fn spec_slot_offset(slot: int) -> int {
    HEADER_SIZE + slot * SLOT_SIZE
}

pub open spec fn spec_is_internal(s: Seq<u8>) -> bool {
    s[NODE_TYPE_AT as int] == INTERNAL_TAG
}

pub open spec fn spec_slot_count(s: Seq<u8>) -> u16 {
    le_u16_at(s, SLOT_COUNT_AT as int)
}

pub open spec fn spec_data_used(s: Seq<u8>) -> u16 {
    le_u16_at(s, DATA_USED_AT as int)
}

/// Where entry data begins: the end of the page less the data in use, or
/// 0 when the header claims more than a page.
pub open spec fn spec_data_start(s: Seq<u8>) -> int {
    if spec_data_used(s) <= PAGE_SIZE {
        PAGE_SIZE - spec_data_used(s)
    } else {
        0
    }
}

pub open spec fn spec_tail(s: Seq<u8>) -> u32 {
    le_u32_at(s, TAIL_AT as int)
}

pub open spec fn spec_entry_offset(s: Seq<u8>, slot: int) -> u16 {
    le_u16_at(s, spec_slot_offset(slot))
}

pub open spec fn spec_entry_len(s: Seq<u8>, slot: int) -> u16 {
    le_u16_at(s, spec_slot_offset(slot) + 2)
}

pub open spec fn node_count_reason(count: u16) -> Seq<char> {
    "slot count "@ + spec_decimal(count as nat) + " exceeds the "@ + spec_decimal(
        MAX_SLOTS as nat,
    ) + " slots a "@ + spec_decimal(PAGE_SIZE as nat) + "-byte page can hold"@
}

pub open spec fn node_missing_reason(slot: u16, count: u16) -> Seq<char> {
    "slot "@ + spec_decimal(slot as nat) + " does not exist ("@ + spec_decimal(count as nat)
        + " slots present)"@
}

pub open spec fn node_overlap_reason(slot: u16, start: int, slots_end: int) -> Seq<char> {
    "slot "@ + spec_decimal(slot as nat) + "'s entry at offset "@ + spec_decimal(start as nat)
        + " overlaps the "@ + spec_decimal(slots_end as nat) + "-byte slot array"@
}

pub open spec fn node_past_end_reason(slot: u16, start: int, end: int, len: int) -> Seq<char> {
    "slot "@ + spec_decimal(slot as nat) + "'s entry range "@ + spec_decimal(start as nat) + ".."@
        + spec_decimal(end as nat) + " runs past the "@ + spec_decimal(len as nat)
        + "-byte page"@
}

/// The bytes of the entry in `slot`, or the reason the page is corrupt.
pub open spec fn spec_entry(s: Seq<u8>, slot: u16) -> Result<Seq<u8>, Seq<char>> {
    let count = spec_slot_count(s);
    if count > MAX_SLOTS {
        Err(node_count_reason(count))
    } else if slot >= count {
        Err(node_missing_reason(slot, count))
    } else {
        let start = spec_entry_offset(s, slot as int) as int;
        let len = spec_entry_len(s, slot as int) as int;
        let slots_end = spec_slot_offset(count as int);
        if start < slots_end {
            Err(node_overlap_reason(slot, start, slots_end))
        } else if start + len > s.len() {
            Err(node_past_end_reason(slot, start, start + len, s.len() as int))
        } else {
            Ok(s.subrange(start, start + len))
        }
    }
}

/// Every entry of the node can be read.
pub open spec fn entries_readable(s: Seq<u8>) -> bool {
    &&& spec_slot_count(s) <= MAX_SLOTS
    &&& forall|i: u16| i < spec_slot_count(s) ==> (#[trigger] spec_entry(s, i)) is Ok
}

pub fn slot_offset(slot: u16) -> (r: usize)
    ensures
        r == spec_slot_offset(slot as int),
{
    HEADER_SIZE + slot as usize * SLOT_SIZE
}

/// Whether the node is an internal node (a leaf otherwise).
pub fn node_is_internal(bytes: &[u8]) -> (r: bool)
    requires
        bytes@.len() == PAGE_SIZE,
    ensures
        r == spec_is_internal(bytes@),
{
    bytes[NODE_TYPE_AT] == INTERNAL_TAG
}

pub fn node_slot_count(bytes: &[u8]) -> (r: u16)
    requires
        bytes@.len() == PAGE_SIZE,
    ensures
        r == spec_slot_count(bytes@),
{
    read_u16(bytes, SLOT_COUNT_AT)
}

pub fn node_data_used(bytes: &[u8]) -> (r: u16)
    requires
        bytes@.len() == PAGE_SIZE,
    ensures
        r == spec_data_used(bytes@),
{
    read_u16(bytes, DATA_USED_AT)
}

pub fn node_data_start(bytes: &[u8]) -> (r: usize)
    requires
        bytes@.len() == PAGE_SIZE,
    ensures
        r == spec_data_start(bytes@),
{
    let used = node_data_used(bytes) as usize;
    if used <= PAGE_SIZE {
        PAGE_SIZE - used
    } else {
        0
    }
}

/// The node's tail pointer, `None` when it is 0.
pub fn tail_raw(bytes: &[u8]) -> (r: Option<PageId>)
    requires
        bytes@.len() == PAGE_SIZE,
    ensures
        r == (if spec_tail(bytes@) == 0 {
            None::<PageId>
        } else {
            Some(PageId(spec_tail(bytes@)))
        }),
{
    let id = read_u32(bytes, TAIL_AT);
    if id != 0 {
        Some(PageId(id))
    } else {
        None
    }
}

pub fn checked_slot_count(bytes: &[u8], page_id: PageId) -> (r: Result<u16, StorageError>)
    requires
        bytes@.len() == PAGE_SIZE,
    ensures
        spec_slot_count(bytes@) > MAX_SLOTS ==> is_corrupt(
            r,
            page_id,
            node_count_reason(spec_slot_count(bytes@)),
        ),
        spec_slot_count(bytes@) <= MAX_SLOTS ==> r == Ok::<u16, StorageError>(
            spec_slot_count(bytes@),
        ),
{
    let count = node_slot_count(bytes);
    if count > MAX_SLOTS {
        let mut reason = String::new();
        push_str(&mut reason, "slot count ");
        push_decimal(&mut reason, count as u64);
        push_str(&mut reason, " exceeds the ");
        push_decimal(&mut reason, MAX_SLOTS as u64);
        push_str(&mut reason, " slots a ");
        push_decimal(&mut reason, PAGE_SIZE as u64);
        push_str(&mut reason, "-byte page can hold");
        assert(reason@ =~= node_count_reason(count));
        return Err(StorageError::CorruptPage { page_id: page_id.0, reason });
    }
    Ok(count)
}

/// The bytes of the entry in `slot`.
pub fn entry_payload<'a>(bytes: &'a [u8], slot: u16, page_id: PageId) -> (r: Result<
    &'a [u8],
    StorageError,
>)
    requires
        bytes@.len() == PAGE_SIZE,
    ensures
        match spec_entry(bytes@, slot) {
            Ok(e) => r matches Ok(b) && b@ == e,
            Err(reason) => is_corrupt(r, page_id, reason),
        },
{
    let count = match checked_slot_count(bytes, page_id) {
        Ok(c) => c,
        Err(e) => return Err(e),
    };
    if slot >= count {
        let mut reason = String::new();
        push_str(&mut reason, "slot ");
        push_decimal(&mut reason, slot as u64);
        push_str(&mut reason, " does not exist (");
        push_decimal(&mut reason, count as u64);
        push_str(&mut reason, " slots present)");
        assert(reason@ =~= node_missing_reason(slot, count));
        return Err(StorageError::CorruptPage { page_id: page_id.0, reason });
    }
    let at = slot_offset(slot);
    let start = read_u16(bytes, at) as usize;
    let end = start + read_u16(bytes, at + 2) as usize;
    let slots_end = slot_offset(count);
    if start < slots_end {
        let mut reason = String::new();
        push_str(&mut reason, "slot ");
        push_decimal(&mut reason, slot as u64);
        push_str(&mut reason, "'s entry at offset ");
        push_decimal(&mut reason, start as u64);
        push_str(&mut reason, " overlaps the ");
        push_decimal(&mut reason, slots_end as u64);
        push_str(&mut reason, "-byte slot array");
        assert(reason@ =~= node_overlap_reason(slot, start as int, slots_end as int));
        return Err(StorageError::CorruptPage { page_id: page_id.0, reason });
    }
    if end > bytes.len() {
        let mut reason = String::new();
        push_str(&mut reason, "slot ");
        push_decimal(&mut reason, slot as u64);
        push_str(&mut reason, "'s entry range ");
        push_decimal(&mut reason, start as u64);
        push_str(&mut reason, "..");
        push_decimal(&mut reason, end as u64);
        push_str(&mut reason, " runs past the ");
        push_decimal(&mut reason, bytes.len() as u64);
        push_str(&mut reason, "-byte page");
        assert(reason@ =~= node_past_end_reason(slot, start as int, end as int, bytes@.len() as int));
        return Err(StorageError::CorruptPage { page_id: page_id.0, reason });
    }
    Ok(slice_subrange(bytes, start, end))
}

/// Whether an entry of `payload_len` bytes fits with one more slot.
pub fn node_will_fit(bytes: &[u8], payload_len: usize) -> (r: bool)
    requires
        bytes@.len() == PAGE_SIZE,
    ensures
        r == (spec_slot_offset(spec_slot_count(bytes@) + 1) + payload_len <= spec_data_start(
            bytes@,
        )),
{
    let new_slots_end = HEADER_SIZE + (node_slot_count(bytes) as usize + 1) * SLOT_SIZE;
    let start = node_data_start(bytes);
    new_slots_end <= start && payload_len <= start - new_slots_end
}

/// What a binary search over a node's entries compares with its key.
#[derive(Clone, Copy, PartialEq, Eq, Debug)]
pub enum BoundProbe {
    /// The entry's key is at most the search key.
    KeyAtMost,
    /// The leaf entry's sort key is at most the search key.
    SortKeyAtMost,
    /// The leaf entry's sort key is below the search key.
    SortKeyBelow,
}

/// Whether `k` lies on the left side of a search for `key`: at most
/// `key`, or below it when `strict`.
pub open spec fn key_side(k: Seq<u8>, key: Seq<u8>, strict: bool) -> bool {
    if strict {
        lex_lt(k, key)
    } else {
        lex_le(k, key)
    }
}

/// Whether an entry lies on the left side of the search for `key`.
pub open spec fn probe_holds(probe: BoundProbe, payload: Seq<u8>, key: Seq<u8>) -> bool {
    key_side(probe_key(probe, payload), key, probe == BoundProbe::SortKeyBelow)
}

/// The key by which a probe orders entries.
pub open spec fn probe_key(probe: BoundProbe, payload: Seq<u8>) -> Seq<u8> {
    match probe {
        BoundProbe::KeyAtMost => spec_entry_key(payload),
        _ => spec_leaf_sort_key(payload),
    }
}

fn probe_exec(probe: BoundProbe, payload: &[u8], key: &[u8]) -> (r: bool)
    ensures
        r == probe_holds(probe, payload@, key@),
{
    assert(BoundProbe::SortKeyBelow != BoundProbe::KeyAtMost);
    assert(BoundProbe::SortKeyBelow != BoundProbe::SortKeyAtMost);
    match probe {
        BoundProbe::KeyAtMost => bytes_le(entry_key(payload), key),
        BoundProbe::SortKeyAtMost => bytes_le(leaf_sort_key(payload), key),
        BoundProbe::SortKeyBelow => bytes_lt(leaf_sort_key(payload), key),
    }
}

/// `lo` splits the node's entries for the search: the entry before it
/// lies on the left side and the entry at it on the right side.
pub open spec fn is_bound_at(s: Seq<u8>, probe: BoundProbe, key: Seq<u8>, lo: int) -> bool {
    &&& 0 <= lo <= spec_slot_count(s)
    &&& lo == 0 || (spec_entry(s, (lo - 1) as u16) matches Ok(e) && probe_holds(probe, e, key))
    &&& lo == spec_slot_count(s) || (spec_entry(s, lo as u16) matches Ok(e) && !probe_holds(
        probe,
        e,
        key,
    ))
}

/// What a search over a node's entries returns: the split point when it
/// read every entry it probed, else the corruption it met.
pub open spec fn bound_result_ok(
    s: Seq<u8>,
    probe: BoundProbe,
    key: Seq<u8>,
    page_id: PageId,
    r: Result<u16, StorageError>,
) -> bool {
    &&& spec_slot_count(s) > MAX_SLOTS ==> is_corrupt(r, page_id, node_count_reason(spec_slot_count(s)))
    &&& entries_readable(s) ==> r is Ok
    &&& r matches Ok(lo) ==> is_bound_at(s, probe, key, lo as int)
    &&& r is Err ==> spec_slot_count(s) > MAX_SLOTS || exists|i: u16|
        #![trigger spec_entry(s, i)]
        i < spec_slot_count(s) && (spec_entry(s, i) matches Err(reason) && is_corrupt(
            r,
            page_id,
            reason,
        ))
}

fn bound_search(bytes: &[u8], key: &[u8], page_id: PageId, probe: BoundProbe) -> (r: Result<
    u16,
    StorageError,
>)
    requires
        bytes@.len() == PAGE_SIZE,
    ensures
        bound_result_ok(bytes@, probe, key@, page_id, r),
{
    let count = match checked_slot_count(bytes, page_id) {
        Ok(c) => c,
        Err(e) => return Err(e),
    };
    let mut lo: u16 = 0;
    let mut hi: u16 = count;
    while lo < hi
        invariant
            bytes@.len() == PAGE_SIZE,
            count == spec_slot_count(bytes@),
            count <= MAX_SLOTS,
            lo <= hi <= count,
            lo == 0 || (spec_entry(bytes@, (lo - 1) as u16) matches Ok(e) && probe_holds(
                probe,
                e,
                key@,
            )),
            hi == count || (spec_entry(bytes@, hi) matches Ok(e) && !probe_holds(probe, e, key@)),
        decreases hi - lo,
    {
        let mid = lo + (hi - lo) / 2;
        let payload = match entry_payload(bytes, mid, page_id) {
            Ok(p) => p,
            Err(e) => {
                assert(spec_entry(bytes@, mid) is Err);
                return Err(e);
            },
        };
        if probe_exec(probe, payload, key) {
            lo = mid + 1;
            assert((lo - 1) as u16 == mid);
        } else {
            hi = mid;
        }
    }
    Ok(lo)
}

/// The first slot whose key is greater than `key`: where an internal
/// node's search for `key` ends.
pub fn upper_bound(bytes: &[u8], key: &[u8], page_id: PageId) -> (r: Result<u16, StorageError>)
    requires
        bytes@.len() == PAGE_SIZE,
    ensures
        bound_result_ok(bytes@, BoundProbe::KeyAtMost, key@, page_id, r),
{
    bound_search(bytes, key, page_id, BoundProbe::KeyAtMost)
}

/// The first slot whose sort key is greater than `sort_key`: where a new
/// leaf entry goes.
pub fn upper_bound_leaf(bytes: &[u8], sort_key: &[u8], page_id: PageId) -> (r: Result<
    u16,
    StorageError,
>)
    requires
        bytes@.len() == PAGE_SIZE,
    ensures
        bound_result_ok(bytes@, BoundProbe::SortKeyAtMost, sort_key@, page_id, r),
{
    bound_search(bytes, sort_key, page_id, BoundProbe::SortKeyAtMost)
}

/// The first slot whose sort key is not below `key`: where a scan from
/// `key` starts.
pub fn lower_bound_leaf(bytes: &[u8], key: &[u8], page_id: PageId) -> (r: Result<
    u16,
    StorageError,
>)
    requires
        bytes@.len() == PAGE_SIZE,
    ensures
        bound_result_ok(bytes@, BoundProbe::SortKeyBelow, key@, page_id, r),
{
    bound_search(bytes, key, page_id, BoundProbe::SortKeyBelow)
}

/// Bytewise order is transitive.
pub proof fn lemma_lex_le_transitive(a: Seq<u8>, b: Seq<u8>, c: Seq<u8>)
    requires
        lex_le(a, b),
        lex_le(b, c),
    ensures
        lex_le(a, c),
    decreases a.len(),
{
    if a.len() > 0 && a[0] == b[0] && b[0] == c[0] {
        lemma_lex_le_transitive(
            a.subrange(1, a.len() as int),
            b.subrange(1, b.len() as int),
            c.subrange(1, c.len() as int),
        );
    }
}

/// Bytewise order is antisymmetric.
pub proof fn lemma_lex_le_antisymmetric(a: Seq<u8>, b: Seq<u8>)
    requires
        lex_le(a, b),
        lex_le(b, a),
    ensures
        a == b,
    decreases a.len(),
{
    if a.len() == 0 {
        assert(a =~= b);
    } else {
        let ta = a.subrange(1, a.len() as int);
        let tb = b.subrange(1, b.len() as int);
        lemma_lex_le_antisymmetric(ta, tb);
        assert(a =~= seq![a[0]] + ta);
        assert(b =~= seq![b[0]] + tb);
    }
}

/// Keys in nondecreasing bytewise order.
pub open spec fn keys_sorted(keys: Seq<Seq<u8>>) -> bool {
    forall|i: int, j: int| 0 <= i <= j < keys.len() ==> lex_le(#[trigger] keys[i], #[trigger] keys[j])
}

/// In sorted keys, a split point of a search is the partition point:
/// every key before it lies on the left side, every key from it on the
/// right side.
pub proof fn lemma_sorted_bound_partitions(keys: Seq<Seq<u8>>, key: Seq<u8>, strict: bool, lo: int)
    requires
        keys_sorted(keys),
        0 <= lo <= keys.len(),
        lo == 0 || key_side(keys[lo - 1], key, strict),
        lo == keys.len() || !key_side(keys[lo], key, strict),
    ensures
        forall|i: int| 0 <= i < lo ==> key_side(#[trigger] keys[i], key, strict),
        forall|i: int| lo <= i < keys.len() ==> !key_side(#[trigger] keys[i], key, strict),
{
    assert forall|i: int| 0 <= i < lo implies key_side(#[trigger] keys[i], key, strict) by {
        let m = keys[lo - 1];
        assert(lex_le(keys[i], m));
        lemma_lex_le_transitive(keys[i], m, key);
        if strict && keys[i] == key {
            lemma_lex_le_antisymmetric(m, key);
        }
    }
    assert forall|i: int| lo <= i < keys.len() implies !key_side(#[trigger] keys[i], key, strict) by {
        let m = keys[lo];
        assert(lex_le(m, keys[i]));
        if key_side(keys[i], key, strict) {
            lemma_lex_le_transitive(m, keys[i], key);
            if strict && m == key {
                lemma_lex_le_antisymmetric(keys[i], key);
            }
        }
    }
}

/// The entry in `slot`, empty when it cannot be read.
pub open spec fn entry_at(s: Seq<u8>, slot: u16) -> Seq<u8> {
    match spec_entry(s, slot) {
        Ok(e) => e,
        Err(_) => Seq::empty(),
    }
}

/// The keys a probe orders a node's entries by, in slot order.
pub open spec fn node_keys(s: Seq<u8>, probe: BoundProbe) -> Seq<Seq<u8>> {
    Seq::new(spec_slot_count(s) as nat, |i: int| probe_key(probe, entry_at(s, i as u16)))
}

/// On a node whose entries are sorted, each search returns the partition
/// point: every entry before it lies on the left side of the search, every
/// entry from it on the right side.
pub proof fn lemma_node_bound_partitions(s: Seq<u8>, probe: BoundProbe, key: Seq<u8>, lo: int)
    requires
        entries_readable(s),
        keys_sorted(node_keys(s, probe)),
        is_bound_at(s, probe, key, lo),
    ensures
        forall|i: u16| i < lo ==> probe_holds(probe, #[trigger] entry_at(s, i), key),
        forall|i: u16| lo <= i < spec_slot_count(s) ==> !probe_holds(probe, #[trigger] entry_at(s, i), key),
{
    let keys = node_keys(s, probe);
    let strict = probe == BoundProbe::SortKeyBelow;
    lemma_sorted_bound_partitions(keys, key, strict, lo);
    assert forall|i: u16| i < lo implies probe_holds(probe, #[trigger] entry_at(s, i), key) by {
        assert(keys[i as int] == probe_key(probe, entry_at(s, i)));
    }
    assert forall|i: u16| lo <= i < spec_slot_count(s) implies !probe_holds(
        probe,
        #[trigger] entry_at(s, i),
        key,
    ) by {
        assert(keys[i as int] == probe_key(probe, entry_at(s, i)));
    }
}

/// The keys a probe orders a list of entries by.
pub open spec fn payload_keys(payloads: Seq<Vec<u8>>, probe: BoundProbe) -> Seq<Seq<u8>> {
    Seq::new(payloads.len(), |i: int| probe_key(probe, payloads[i]@))
}

/// `lo` splits a list of entries for the search: the entry before it lies
/// on the left side and the entry at it on the right side.
pub open spec fn is_bound_in(payloads: Seq<Vec<u8>>, probe: BoundProbe, key: Seq<u8>, lo: int) -> bool {
    &&& 0 <= lo <= payloads.len()
    &&& lo == 0 || probe_holds(probe, payloads[lo - 1]@, key)
    &&& lo == payloads.len() || !probe_holds(probe, payloads[lo]@, key)
}

fn bound_in(payloads: &[Vec<u8>], key: &[u8], probe: BoundProbe) -> (r: usize)
    ensures
        is_bound_in(payloads@, probe, key@, r as int),
{
    let mut lo: usize = 0;
    let mut hi: usize = payloads.len();
    while lo < hi
        invariant
            lo <= hi <= payloads@.len(),
            lo == 0 || probe_holds(probe, payloads@[lo - 1]@, key@),
            hi == payloads@.len() || !probe_holds(probe, payloads@[hi as int]@, key@),
        decreases hi - lo,
    {
        let mid = lo + (hi - lo) / 2;
        if probe_exec(probe, payloads[mid].as_slice(), key) {
            lo = mid + 1;
        } else {
            hi = mid;
        }
    }
    lo
}

/// The first entry, in a list sorted by key, whose key is greater than
/// `key`.
pub fn upper_bound_in(payloads: &[Vec<u8>], key: &[u8]) -> (r: usize)
    ensures
        is_bound_in(payloads@, BoundProbe::KeyAtMost, key@, r as int),
{
    bound_in(payloads, key, BoundProbe::KeyAtMost)
}

/// The first leaf entry, in a list sorted by sort key, whose sort key is
/// greater than `sort_key`.
pub fn upper_bound_in_leaf(payloads: &[Vec<u8>], sort_key: &[u8]) -> (r: usize)
    ensures
        is_bound_in(payloads@, BoundProbe::SortKeyAtMost, sort_key@, r as int),
{
    bound_in(payloads, sort_key, BoundProbe::SortKeyAtMost)
}

/// In a list of entries sorted for a probe, a search's split point is the
/// partition point.
pub proof fn lemma_bound_in_partitions(payloads: Seq<Vec<u8>>, probe: BoundProbe, key: Seq<u8>, lo: int)
    requires
        keys_sorted(payload_keys(payloads, probe)),
        is_bound_in(payloads, probe, key, lo),
    ensures
        forall|i: int| 0 <= i < lo ==> probe_holds(probe, (#[trigger] payloads[i])@, key),
        forall|i: int| lo <= i < payloads.len() ==> !probe_holds(probe, (#[trigger] payloads[i])@, key),
{
    let keys = payload_keys(payloads, probe);
    lemma_sorted_bound_partitions(keys, key, probe == BoundProbe::SortKeyBelow, lo);
    assert forall|i: int| 0 <= i < lo implies probe_holds(probe, (#[trigger] payloads[i])@, key) by {
        assert(keys[i] == probe_key(probe, payloads[i]@));
    }
    assert forall|i: int| lo <= i < payloads.len() implies !probe_holds(
        probe,
        (#[trigger] payloads[i])@,
        key,
    ) by {
        assert(keys[i] == probe_key(probe, payloads[i]@));
    }
}

/// The reason a search that ends left of every entry finds no child.
pub open spec fn no_tail_reason() -> Seq<char> {
    "internal node has no tail (leftmost child) pointer"@
}

/// Every readable entry has room for its key and a child page.
pub open spec fn entries_hold_children(s: Seq<u8>) -> bool {
    forall|i: u16|
        #![trigger spec_entry(s, i)]
        i < spec_slot_count(s) ==> (spec_entry(s, i) matches Ok(e) ==> e.len() >= KEY_LEN_PREFIX
            && KEY_LEN_PREFIX + spec_key_len(e) + CHILD_TRAILER_SIZE <= e.len())
}

/// The child an internal node's search that stops at `lo` descends to:
/// the tail for 0, else the child of the entry before `lo`.
pub open spec fn spec_child_at(s: Seq<u8>, lo: int) -> Result<PageId, Seq<char>> {
    if lo == 0 {
        if spec_tail(s) == 0 {
            Err(no_tail_reason())
        } else {
            Ok(PageId(spec_tail(s)))
        }
    } else {
        let e = entry_at(s, (lo - 1) as u16);
        Ok(PageId(le_u32_at(e, KEY_LEN_PREFIX + spec_key_len(e))))
    }
}

/// The child of an internal node to descend to for `key`.
pub fn child_for_key(bytes: &[u8], key: &[u8], page_id: PageId) -> (r: Result<PageId, StorageError>)
    requires
        bytes@.len() == PAGE_SIZE,
        entries_hold_children(bytes@),
    ensures
        spec_slot_count(bytes@) > MAX_SLOTS ==> is_corrupt(
            r,
            page_id,
            node_count_reason(spec_slot_count(bytes@)),
        ),
        r matches Ok(c) ==> exists|lo: int|
            is_bound_at(bytes@, BoundProbe::KeyAtMost, key@, lo) && spec_child_at(bytes@, lo)
                == Ok::<PageId, Seq<char>>(c),
        entries_readable(bytes@) ==> exists|lo: int|
            is_bound_at(bytes@, BoundProbe::KeyAtMost, key@, lo) && match spec_child_at(bytes@, lo) {
                Ok(c) => r == Ok::<PageId, StorageError>(c),
                Err(reason) => is_corrupt(r, page_id, reason),
            },
        r is Err ==> spec_slot_count(bytes@) > MAX_SLOTS || (exists|i: u16|
            #![trigger spec_entry(bytes@, i)]
            i < spec_slot_count(bytes@) && (spec_entry(bytes@, i) matches Err(reason)
                && is_corrupt(r, page_id, reason))) || (exists|lo: int|
            is_bound_at(bytes@, BoundProbe::KeyAtMost, key@, lo) && (spec_child_at(bytes@, lo) matches Err(
                reason,
            ) && is_corrupt(r, page_id, reason))),
{
    let idx = match upper_bound(bytes, key, page_id) {
        Ok(i) => i,
        Err(e) => return Err(e),
    };
    assert(is_bound_at(bytes@, BoundProbe::KeyAtMost, key@, idx as int));
    if idx == 0 {
        match tail_raw(bytes) {
            Some(c) => {
                assert(spec_child_at(bytes@, idx as int) == Ok::<PageId, Seq<char>>(c));
                Ok(c)
            },
            None => {
                let reason = String::from_str("internal node has no tail (leftmost child) pointer");
                proof {
                    reveal_strlit("internal node has no tail (leftmost child) pointer");
                }
                Err(StorageError::CorruptPage { page_id: page_id.0, reason })
            },
        }
    } else {
        let payload = match entry_payload(bytes, idx - 1, page_id) {
            Ok(p) => p,
            Err(e) => return Err(e),
        };
        assert(spec_entry(bytes@, (idx - 1) as u16) is Ok);
        let c = internal_child(payload);
        assert(spec_child_at(bytes@, idx as int) == Ok::<PageId, Seq<char>>(c));
        Ok(c)
    }
}

/// A node's tail and a copy of each entry in slot order.
pub fn read_entries(bytes: &[u8], page_id: PageId) -> (r: Result<
    (Option<PageId>, Vec<Vec<u8>>),
    StorageError,
>)
    requires
        bytes@.len() == PAGE_SIZE,
    ensures
        spec_slot_count(bytes@) > MAX_SLOTS ==> is_corrupt(
            r,
            page_id,
            node_count_reason(spec_slot_count(bytes@)),
        ),
        entries_readable(bytes@) ==> (r matches Ok((tail, es)) && tail == (if spec_tail(bytes@)
            == 0 {
            None::<PageId>
        } else {
            Some(PageId(spec_tail(bytes@)))
        }) && es@.len() == spec_slot_count(bytes@) && forall|i: int|
            0 <= i < es@.len() ==> (#[trigger] es@[i])@ == entry_at(bytes@, i as u16)),
        spec_slot_count(bytes@) <= MAX_SLOTS && !entries_readable(bytes@) ==> exists|i: u16|
            #![trigger spec_entry(bytes@, i)]
            i < spec_slot_count(bytes@) && (spec_entry(bytes@, i) matches Err(reason)
                && is_corrupt(r, page_id, reason)) && forall|j: u16|
                j < i ==> (#[trigger] spec_entry(bytes@, j)) is Ok,
{
    let tail = tail_raw(bytes);
    let count = match checked_slot_count(bytes, page_id) {
        Ok(c) => c,
        Err(e) => return Err(e),
    };
    let mut entries: Vec<Vec<u8>> = Vec::new();
    let mut slot: u16 = 0;
    while slot < count
        invariant
            bytes@.len() == PAGE_SIZE,
            count == spec_slot_count(bytes@),
            count <= MAX_SLOTS,
            slot <= count,
            entries@.len() == slot,
            forall|i: int| 0 <= i < slot ==> (#[trigger] entries@[i])@ == entry_at(bytes@, i as u16),
            forall|j: u16| j < slot ==> (#[trigger] spec_entry(bytes@, j)) is Ok,
        decreases count - slot,
    {
        let payload = match entry_payload(bytes, slot, page_id) {
            Ok(p) => p,
            Err(e) => {
                assert(!entries_readable(bytes@));
                return Err(e);
            },
        };
        let mut copy: Vec<u8> = Vec::new();
        push_bytes(&mut copy, payload);
        entries.push(copy);
        slot = slot + 1;
    }
    Ok((tail, entries))
}

/// The bytes a list of entries takes in a node, slots included, over its
/// first `n` entries.
pub open spec fn weight_prefix(entries: Seq<Vec<u8>>, n: int) -> int
    decreases n,
{
    if n <= 0 {
        0
    } else {
        weight_prefix(entries, n - 1) + SLOT_SIZE + entries[n - 1]@.len()
    }
}

pub open spec fn total_weight(entries: Seq<Vec<u8>>) -> int {
    weight_prefix(entries, entries.len() as int)
}

/// Whether the first `i + 1` entries reach half the total.
pub open spec fn reaches_half(entries: Seq<Vec<u8>>, i: int) -> bool {
    weight_prefix(entries, i + 1) >= total_weight(entries) / 2
}

/// `b` is the first entry at which the running weight reaches half the
/// total.
pub open spec fn is_balanced_split(entries: Seq<Vec<u8>>, b: int) -> bool {
    &&& 0 <= b < entries.len()
    &&& reaches_half(entries, b)
    &&& forall|j: int| 0 <= j < b ==> !reaches_half(entries, j)
}

proof fn lemma_weight_prefix_monotonic(entries: Seq<Vec<u8>>, i: int, j: int)
    requires
        0 <= i <= j <= entries.len(),
    ensures
        weight_prefix(entries, i) <= weight_prefix(entries, j),
    decreases j - i,
{
    if i < j {
        lemma_weight_prefix_monotonic(entries, i, j - 1);
    }
}

/// The split point is unique.
pub proof fn lemma_balanced_split_unique(entries: Seq<Vec<u8>>, a: int, b: int)
    requires
        is_balanced_split(entries, a),
        is_balanced_split(entries, b),
    ensures
        a == b,
{
}

/// The entry at which the running weight of entries first reaches half
/// the total.
pub fn byte_balanced_split_point(entries: &[Vec<u8>]) -> (r: usize)
    requires
        entries@.len() > 0,
        total_weight(entries@) <= usize::MAX,
    ensures
        is_balanced_split(entries@, r as int),
{
    let mut total: usize = 0;
    let mut i: usize = 0;
    while i < entries.len()
        invariant
            i <= entries@.len(),
            total == weight_prefix(entries@, i as int),
            total_weight(entries@) <= usize::MAX,
        decreases entries@.len() - i,
    {
        proof {
            lemma_weight_prefix_monotonic(entries@, i + 1, entries@.len() as int);
        }
        total = total + SLOT_SIZE + entries[i].len();
        i = i + 1;
    }
    let target = total / 2;
    let mut running: usize = 0;
    let mut i: usize = 0;
    while i < entries.len()
        invariant
            i <= entries@.len(),
            running == weight_prefix(entries@, i as int),
            total == total_weight(entries@),
            total_weight(entries@) <= usize::MAX,
            target == total / 2,
            forall|j: int| 0 <= j < i ==> !reaches_half(entries@, j),
        decreases entries@.len() - i,
    {
        proof {
            lemma_weight_prefix_monotonic(entries@, i + 1, entries@.len() as int);
        }
        running = running + SLOT_SIZE + entries[i].len();
        if running >= target {
            return i;
        }
        i = i + 1;
    }
    assert(!reaches_half(entries@, entries@.len() - 1));
    entries.len() - 1
}

/// Where a full leaf splits: just past the balanced point, keeping at
/// least one entry on each side.
pub fn leaf_split_point(entries: &[Vec<u8>]) -> (r: usize)
    requires
        entries@.len() >= 2,
        total_weight(entries@) <= usize::MAX,
    ensures
        1 <= r < entries@.len(),
        forall|b: int|
            is_balanced_split(entries@, b) ==> r == (if b + 1 < entries@.len() - 1 {
                b + 1
            } else {
                entries@.len() - 1
            }),
{
    let b = byte_balanced_split_point(entries);
    proof {
        assert forall|c: int| is_balanced_split(entries@, c) implies c == b by {
            lemma_balanced_split_unique(entries@, c, b as int);
        }
    }
    let last = entries.len() - 1;
    if b + 1 < last {
        b + 1
    } else {
        last
    }
}

/// Where a full internal node splits: at the balanced point, keeping a
/// key on each side when there are at least three entries.
pub fn internal_split_point(entries: &[Vec<u8>]) -> (r: usize)
    requires
        entries@.len() >= 1,
        total_weight(entries@) <= usize::MAX,
    ensures
        r < entries@.len(),
        entries@.len() >= 3 ==> 1 <= r <= entries@.len() - 2,
        forall|b: int|
            is_balanced_split(entries@, b) ==> r == (if entries@.len() >= 3 {
                if b < 1 {
                    1
                } else if b > entries@.len() - 2 {
                    entries@.len() - 2
                } else {
                    b
                }
            } else if b < entries@.len() - 1 {
                b
            } else {
                entries@.len() - 1
            }),
{
    let mid = byte_balanced_split_point(entries);
    proof {
        assert forall|c: int| is_balanced_split(entries@, c) implies c == mid by {
            lemma_balanced_split_unique(entries@, c, mid as int);
        }
    }
    let n = entries.len();
    if n >= 3 {
        if mid < 1 {
            1
        } else if mid > n - 2 {
            n - 2
        } else {
            mid
        }
    } else if mid < n - 1 {
        mid
    } else {
        n - 1
    }
}

/// Changed bytes closer than this are written as one run.
pub const REBUILD_MERGE_GAP: usize = 16;

/// A half-open range of byte positions.
#[derive(Clone, Copy, PartialEq, Eq, Debug)]
pub struct ByteRun {
    pub start: usize,
    pub end: usize,
}

pub open spec fn differs(old: Seq<u8>, new: Seq<u8>, i: int) -> bool {
    old[i] != new[i]
}

/// Some run holds position `j`.
pub open spec fn run_covers(runs: Seq<ByteRun>, j: int) -> bool {
    exists|k: int| 0 <= k < runs.len() && runs[k].start <= j < #[trigger] runs[k].end
}

/// A changed byte lies at or after `j`, before `end` and within the merge
/// gap of `j`.
pub open spec fn change_near(old: Seq<u8>, new: Seq<u8>, end: int, j: int) -> bool {
    exists|d: int| j <= d < end && d < j + REBUILD_MERGE_GAP && #[trigger] differs(old, new, d)
}

/// Runs in increasing order below `limit`, each starting and ending on a
/// changed byte, with no stretch of unchanged bytes as long as the merge
/// gap inside a run and at least that gap between runs.
pub open spec fn runs_well_shaped(old: Seq<u8>, new: Seq<u8>, runs: Seq<ByteRun>, limit: int) -> bool {
    &&& forall|k: int| 0 <= k < runs.len() ==> (#[trigger] runs[k]).start < runs[k].end <= limit
    &&& forall|k: int|
        0 <= k < runs.len() ==> differs(old, new, (#[trigger] runs[k]).start as int) && differs(
            old,
            new,
            runs[k].end - 1,
        )
    &&& forall|k: int|
        0 <= k < runs.len() - 1 ==> #[trigger] runs[k + 1].start >= runs[k].end + REBUILD_MERGE_GAP
    &&& forall|k: int, j: int|
        0 <= k < runs.len() && runs[k].start <= j < runs[k].end ==> #[trigger] change_near(
            old,
            new,
            runs[k].end as int,
            j,
        )
}

/// The runs of changed bytes between `old` and the first `old.len()`
/// bytes of `new`, runs closer than the merge gap merged.
pub fn changed_byte_runs(old: &[u8], new: &[u8]) -> (runs: Vec<ByteRun>)
    requires
        new@.len() >= old@.len(),
    ensures
        runs_well_shaped(old@, new@, runs@, old@.len() as int),
        forall|j: int| 0 <= j < old@.len() && differs(old@, new@, j) ==> run_covers(runs@, j),
{
    let n = old.len();
    let mut runs: Vec<ByteRun> = Vec::new();
    let mut i: usize = 0;
    while i < n
        invariant
            n == old@.len(),
            new@.len() >= n,
            i <= n,
            runs_well_shaped(old@, new@, runs@, i as int),
            forall|j: int| 0 <= j < i && differs(old@, new@, j) ==> run_covers(runs@, j),
        decreases n - i,
    {
        if old[i] == new[i] {
            i = i + 1;
        } else {
            let start = i;
            while i < n && old[i] != new[i]
                invariant
                    n == old@.len(),
                    new@.len() >= n,
                    start < n,
                    start <= i <= n,
                    differs(old@, new@, start as int),
                    forall|j: int| start <= j < i ==> differs(old@, new@, j),
                    runs_well_shaped(old@, new@, runs@, start as int),
                    forall|j: int| 0 <= j < start && differs(old@, new@, j) ==> run_covers(runs@, j),
                decreases n - i,
            {
                i = i + 1;
            }
            assert(differs(old@, new@, i - 1));
            let ghost before = runs@;
            let count = runs.len();
            if count > 0 && start - runs[count - 1].end < REBUILD_MERGE_GAP {
                let last = runs[count - 1];
                runs.set(count - 1, ByteRun { start: last.start, end: i });
                proof {
                    assert forall|k: int, j: int|
                        0 <= k < runs@.len() && runs@[k].start <= j < runs@[k].end implies #[trigger] change_near(
                        old@,
                        new@,
                        runs@[k].end as int,
                        j,
                    ) by {
                        if k < count - 1 {
                            assert(runs@[k] == before[k]);
                            assert(change_near(old@, new@, before[k].end as int, j));
                        } else if j < last.end {
                            assert(change_near(old@, new@, last.end as int, j));
                            let d = choose|d: int|
                                j <= d < last.end && d < j + REBUILD_MERGE_GAP && #[trigger] differs(
                                    old@,
                                    new@,
                                    d,
                                );
                            assert(j <= d < i && d < j + REBUILD_MERGE_GAP && differs(old@, new@, d));
                        } else if j < start {
                            assert(start as int <= i && differs(old@, new@, start as int));
                        } else {
                            assert(differs(old@, new@, j));
                        }
                    }
                    assert forall|j: int|
                        0 <= j < i && differs(old@, new@, j) implies run_covers(runs@, j) by {
                        if j < start {
                            assert(run_covers(before, j));
                            let k = choose|k: int|
                                0 <= k < before.len() && before[k].start <= j < #[trigger] before[k].end;
                            if k < count - 1 {
                                assert(runs@[k] == before[k]);
                            } else {
                                assert(runs@[k].start <= j < runs@[k].end);
                            }
                        } else {
                            assert(runs@[count - 1].start <= j < runs@[count - 1].end);
                        }
                    }
                }
            } else {
                runs.push(ByteRun { start, end: i });
                proof {
                    assert forall|k: int, j: int|
                        0 <= k < runs@.len() && runs@[k].start <= j < runs@[k].end implies #[trigger] change_near(
                        old@,
                        new@,
                        runs@[k].end as int,
                        j,
                    ) by {
                        if k < count {
                            assert(runs@[k] == before[k]);
                            assert(change_near(old@, new@, before[k].end as int, j));
                        } else {
                            assert(differs(old@, new@, j));
                        }
                    }
                    assert forall|j: int|
                        0 <= j < i && differs(old@, new@, j) implies run_covers(runs@, j) by {
                        if j < start {
                            assert(run_covers(before, j));
                            let k = choose|k: int|
                                0 <= k < before.len() && before[k].start <= j < #[trigger] before[k].end;
                            assert(runs@[k] == before[k]);
                        } else {
                            assert(runs@[count as int].start <= j < runs@[count as int].end);
                        }
                    }
                }
            }
        }
    }
    runs
}

/// `t` is `s` with `payload` inserted as entry `index`: the entry's bytes
/// go just below the current data, the slots from `index` on move up one,
/// and the header counts one more slot and the added data; nothing else
/// changes.
pub open spec fn is_node_insert(s: Seq<u8>, t: Seq<u8>, index: int, payload: Seq<u8>) -> bool {
    let count = spec_slot_count(s) as int;
    let ds = spec_data_start(s) - payload.len();
    &&& t.len() == PAGE_SIZE
    &&& forall|x: int| 0 <= x < SLOT_COUNT_AT ==> #[trigger] t[x] == s[x]
    &&& spec_slot_count(t) == count + 1
    &&& spec_data_used(t) == spec_data_used(s) + payload.len()
    &&& spec_tail(t) == spec_tail(s)
    &&& t.subrange(ds, ds + payload.len()) == payload
    &&& spec_entry_offset(t, index) == ds
    &&& spec_entry_len(t, index) == payload.len()
    &&& forall|j: int|
        0 <= j < index ==> #[trigger] spec_entry_offset(t, j) == spec_entry_offset(s, j)
            && spec_entry_len(t, j) == spec_entry_len(s, j)
    &&& forall|j: int|
        index <= j < count ==> #[trigger] spec_entry_offset(t, j + 1) == spec_entry_offset(s, j)
            && spec_entry_len(t, j + 1) == spec_entry_len(s, j)
    &&& forall|x: int| spec_slot_offset(count + 1) <= x < ds ==> #[trigger] t[x] == s[x]
    &&& forall|x: int| spec_data_start(s) <= x < PAGE_SIZE ==> #[trigger] t[x] == s[x]
}

/// The nine header bytes from the node kind on: the kind, no slots, no
/// data, and the tail.
pub open spec fn spec_init_header(is_internal: bool, tail: Option<PageId>) -> Seq<u8> {
    seq![if is_internal { INTERNAL_TAG } else { LEAF_TAG }] + spec_u16_to_le_bytes(0u16)
        + spec_u16_to_le_bytes(0u16) + spec_u32_to_le_bytes(
        match tail {
            Some(p) => p.0,
            None => 0u32,
        },
    )
}

/// A B+-tree node being read and written on behalf of transaction
/// `txn_id`.
pub struct BTreeNode {
    page: Page,
    txn_id: TxnId,
}

impl BTreeNode {
    pub closed spec fn bytes(&self) -> Seq<u8> {
        self.page.bytes()
    }

    pub closed spec fn spec_page_id(&self) -> PageId {
        self.page.spec_id()
    }

    pub closed spec fn spec_txn_id(&self) -> TxnId {
        self.txn_id
    }

    pub fn new(page: Page, txn_id: TxnId) -> (node: BTreeNode)
        ensures
            node.bytes() == page.bytes(),
            node.spec_page_id() == page.spec_id(),
            node.spec_txn_id() == txn_id,
    {
        BTreeNode { page, txn_id }
    }

    /// Hands the page back.
    pub fn into_page(self) -> (page: Page)
        ensures
            page.bytes() == self.bytes(),
            page.spec_id() == self.spec_page_id(),
    {
        self.page
    }

    pub fn page_id(&self) -> (id: PageId)
        ensures
            id == self.spec_page_id(),
    {
        self.page.id()
    }

    pub fn slot_count(&self) -> (r: u16)
        requires
            self.bytes().len() == PAGE_SIZE,
        ensures
            r == spec_slot_count(self.bytes()),
    {
        node_slot_count(self.page.data().as_slice())
    }

    /// Where an entry with `sort_key` goes: after every entry whose key
    /// (in an internal node) or sort key (in a leaf) is at most it.
    pub fn find_insert_index(&self, sort_key: &[u8]) -> (r: Result<u16, StorageError>)
        requires
            self.bytes().len() == PAGE_SIZE,
        ensures
            bound_result_ok(
                self.bytes(),
                if spec_is_internal(self.bytes()) {
                    BoundProbe::KeyAtMost
                } else {
                    BoundProbe::SortKeyAtMost
                },
                sort_key@,
                self.spec_page_id(),
                r,
            ),
    {
        let bytes = self.page.data().as_slice();
        if node_is_internal(bytes) {
            upper_bound(bytes, sort_key, self.page.id())
        } else {
            upper_bound_leaf(bytes, sort_key, self.page.id())
        }
    }

    pub fn will_fit(&self, payload_len: usize) -> (r: bool)
        requires
            self.bytes().len() == PAGE_SIZE,
        ensures
            r == (spec_slot_offset(spec_slot_count(self.bytes()) + 1) + payload_len
                <= spec_data_start(self.bytes())),
    {
        node_will_fit(self.page.data().as_slice(), payload_len)
    }

    /// Makes the page an empty node of the given kind with `tail`.
    pub fn init(&mut self, is_internal: bool, tail: Option<PageId>)
        requires
            old(self).bytes().len() == PAGE_SIZE,
        ensures
            final(self).spec_page_id() == old(self).spec_page_id(),
            final(self).spec_txn_id() == old(self).spec_txn_id(),
            final(self).bytes() == splice(
                old(self).bytes(),
                NODE_TYPE_AT as int,
                spec_init_header(is_internal, tail),
            ),
    {
        let mut header: Vec<u8> = Vec::new();
        header.push(if is_internal { INTERNAL_TAG } else { LEAF_TAG });
        push_u16(&mut header, 0);
        push_u16(&mut header, 0);
        let t = match tail {
            Some(p) => p.0,
            None => 0u32,
        };
        push_u32(&mut header, t);
        proof {
            lemma_auto_spec_u16_to_from_le_bytes();
            lemma_auto_spec_u32_to_from_le_bytes();
            assert(header@ =~= spec_init_header(is_internal, tail));
        }
        self.page.write_bytes(NODE_TYPE_AT, header.as_slice());
    }

    /// Inserts `payload` as entry `index`, moving the entries from `index`
    /// on up one slot.
    pub fn insert_at(&mut self, index: u16, payload: &[u8])
        requires
            old(self).bytes().len() == PAGE_SIZE,
            index <= spec_slot_count(old(self).bytes()),
            spec_slot_offset(spec_slot_count(old(self).bytes()) + 1) + payload@.len()
                <= spec_data_start(old(self).bytes()),
        ensures
            final(self).spec_page_id() == old(self).spec_page_id(),
            final(self).spec_txn_id() == old(self).spec_txn_id(),
            is_node_insert(old(self).bytes(), final(self).bytes(), index as int, payload@),
    {
        let ghost s0 = self.bytes();
        proof {
            lemma_auto_spec_u16_to_from_le_bytes();
        }
        let bytes = self.page.data().as_slice();
        let count = node_slot_count(bytes);
        let used = node_data_used(bytes);
        let data_at = node_data_start(bytes) - payload.len();
        let mut shifted: Vec<u8> = Vec::new();
        push_bytes(&mut shifted, slice_subrange(bytes, slot_offset(index), slot_offset(count)));
        self.page.write_bytes(data_at, payload);
        let ghost s1 = self.bytes();
        if index < count {
            self.page.write_bytes(slot_offset(index + 1), shifted.as_slice());
        }
        let ghost s2 = self.bytes();
        let mut entry: Vec<u8> = Vec::new();
        push_u16(&mut entry, data_at as u16);
        push_u16(&mut entry, payload.len() as u16);
        self.page.write_bytes(slot_offset(index), entry.as_slice());
        let ghost s3 = self.bytes();
        let mut header: Vec<u8> = Vec::new();
        push_u16(&mut header, count + 1);
        push_u16(&mut header, used + payload.len() as u16);
        self.page.write_bytes(SLOT_COUNT_AT, header.as_slice());
        proof {
            lemma_node_insert_steps(s0, s1, s2, s3, self.bytes(), index as int, payload@, shifted@, entry@, header@);
        }
    }
}

proof fn lemma_u16_pair_at(p: Seq<u8>, a: u16, b: u16)
    requires
        p == spec_u16_to_le_bytes(a) + spec_u16_to_le_bytes(b),
    ensures
        p.len() == 4,
        spec_u16_from_le_bytes(p.subrange(0, 2)) == a,
        spec_u16_from_le_bytes(p.subrange(2, 4)) == b,
{
    lemma_auto_spec_u16_to_from_le_bytes();
    assert(p.subrange(0, 2) =~= spec_u16_to_le_bytes(a));
    assert(p.subrange(2, 4) =~= spec_u16_to_le_bytes(b));
}

proof fn lemma_node_insert_steps(
    s0: Seq<u8>,
    s1: Seq<u8>,
    s2: Seq<u8>,
    s3: Seq<u8>,
    s4: Seq<u8>,
    index: int,
    payload: Seq<u8>,
    shifted: Seq<u8>,
    entry: Seq<u8>,
    header: Seq<u8>,
)
    requires
        s0.len() == PAGE_SIZE,
        0 <= index <= spec_slot_count(s0),
        spec_slot_offset(spec_slot_count(s0) + 1) + payload.len() <= spec_data_start(s0),
        shifted == s0.subrange(spec_slot_offset(index), spec_slot_offset(spec_slot_count(s0) as int)),
        s1 == splice(s0, spec_data_start(s0) - payload.len(), payload),
        index < spec_slot_count(s0) ==> s2 == splice(s1, spec_slot_offset(index + 1), shifted),
        index == spec_slot_count(s0) ==> s2 == s1,
        entry == spec_u16_to_le_bytes((spec_data_start(s0) - payload.len()) as u16)
            + spec_u16_to_le_bytes(payload.len() as u16),
        s3 == splice(s2, spec_slot_offset(index), entry),
        header == spec_u16_to_le_bytes((spec_slot_count(s0) + 1) as u16) + spec_u16_to_le_bytes(
            (spec_data_used(s0) + payload.len()) as u16,
        ),
        s4 == splice(s3, SLOT_COUNT_AT as int, header),
    ensures
        is_node_insert(s0, s4, index, payload),
{
    let count = spec_slot_count(s0) as int;
    let ds = spec_data_start(s0) - payload.len();
    lemma_u16_pair_at(entry, ds as u16, payload.len() as u16);
    lemma_u16_pair_at(
        header,
        (count + 1) as u16,
        (spec_data_used(s0) + payload.len()) as u16,
    );
    assert(s4.len() == PAGE_SIZE);
    assert(s4.subrange(13, 15) =~= header.subrange(0, 2));
    assert(s4.subrange(15, 17) =~= header.subrange(2, 4));
    assert(s4.subrange(17, 21) =~= s0.subrange(17, 21));
    assert(s4.subrange(ds, ds + payload.len()) =~= payload);
    assert(s4.subrange(spec_slot_offset(index), spec_slot_offset(index) + 2) =~= entry.subrange(0, 2));
    assert(s4.subrange(spec_slot_offset(index) + 2, spec_slot_offset(index) + 4) =~= entry.subrange(2, 4));
    assert forall|j: int| 0 <= j < index implies #[trigger] spec_entry_offset(s4, j)
        == spec_entry_offset(s0, j) && spec_entry_len(s4, j) == spec_entry_len(s0, j) by {
        let o = spec_slot_offset(j);
        assert(s4.subrange(o, o + 2) =~= s0.subrange(o, o + 2));
        assert(s4.subrange(o + 2, o + 4) =~= s0.subrange(o + 2, o + 4));
    }
    assert forall|j: int| index <= j < count implies #[trigger] spec_entry_offset(s4, j + 1)
        == spec_entry_offset(s0, j) && spec_entry_len(s4, j + 1) == spec_entry_len(s0, j) by {
        let o = spec_slot_offset(j);
        assert(s4.subrange(o + 4, o + 6) =~= s0.subrange(o, o + 2));
        assert(s4.subrange(o + 6, o + 8) =~= s0.subrange(o + 2, o + 4));
    }
}

/// A node whose header and entries are consistent: the slot array ends
/// before entry data begins and every entry lies in the data area.
pub open spec fn node_well_formed(s: Seq<u8>) -> bool {
    &&& s.len() == PAGE_SIZE
    &&& spec_slot_count(s) <= MAX_SLOTS
    &&& spec_data_used(s) <= PAGE_SIZE
    &&& spec_slot_offset(spec_slot_count(s) as int) <= spec_data_start(s)
    &&& forall|i: int|
        0 <= i < spec_slot_count(s) ==> spec_data_start(s) <= #[trigger] spec_entry_offset(s, i)
            && spec_entry_offset(s, i) + spec_entry_len(s, i) <= PAGE_SIZE
}

/// Inserting into a well-formed node keeps it well-formed; the new entry
/// reads back at `index`, the entries before it stay where they were and
/// those after it move up one slot.
pub proof fn lemma_insert_at_entries(s: Seq<u8>, t: Seq<u8>, index: int, payload: Seq<u8>)
    requires
        node_well_formed(s),
        0 <= index <= spec_slot_count(s),
        spec_slot_offset(spec_slot_count(s) + 1) + payload.len() <= spec_data_start(s),
        is_node_insert(s, t, index, payload),
    ensures
        node_well_formed(t),
        entries_readable(t),
        spec_slot_count(t) == spec_slot_count(s) + 1,
        entry_at(t, index as u16) == payload,
        forall|j: u16| j < index ==> #[trigger] entry_at(t, j) == entry_at(s, j),
        forall|j: u16|
            index <= j < spec_slot_count(s) ==> entry_at(t, (j + 1) as u16) == #[trigger] entry_at(s, j),
{
    let count = spec_slot_count(s) as int;
    let ds = spec_data_start(s) - payload.len();
    assert(spec_data_start(t) == ds);
    assert forall|i: int|
        0 <= i < spec_slot_count(t) implies spec_data_start(t) <= #[trigger] spec_entry_offset(t, i)
            && spec_entry_offset(t, i) + spec_entry_len(t, i) <= PAGE_SIZE by {
        if i < index {
            assert(spec_entry_offset(t, i) == spec_entry_offset(s, i));
        } else if i > index {
            assert(spec_entry_offset(t, (i - 1) + 1) == spec_entry_offset(s, i - 1));
        }
    }
    assert forall|j: u16| j < spec_slot_count(t) implies (#[trigger] spec_entry(t, j)) is Ok by {
        assert(spec_data_start(t) <= spec_entry_offset(t, j as int));
    }
    assert(t.subrange(ds, ds + payload.len()) == payload);
    assert forall|j: u16| j < index implies #[trigger] entry_at(t, j) == entry_at(s, j) by {
        let o = spec_entry_offset(s, j as int) as int;
        let l = spec_entry_len(s, j as int) as int;
        assert(spec_entry_offset(t, j as int) == o);
        assert(t.subrange(o, o + l) =~= s.subrange(o, o + l));
    }
    assert forall|j: u16|
        index <= j < spec_slot_count(s) implies entry_at(t, (j + 1) as u16) == #[trigger] entry_at(
        s,
        j,
    ) by {
        let o = spec_entry_offset(s, j as int) as int;
        let l = spec_entry_len(s, j as int) as int;
        assert(spec_entry_offset(t, j as int + 1) == o);
        assert(t.subrange(o, o + l) =~= s.subrange(o, o + l));
    }
}

/// The bytes of the first `n` entries together.
pub open spec fn len_prefix(entries: Seq<Vec<u8>>, n: int) -> int
    decreases n,
{
    if n <= 0 {
        0
    } else {
        len_prefix(entries, n - 1) + entries[n - 1]@.len()
    }
}

proof fn lemma_len_prefix_monotonic(entries: Seq<Vec<u8>>, i: int, j: int)
    requires
        0 <= i <= j <= entries.len(),
    ensures
        len_prefix(entries, i) <= len_prefix(entries, j),
    decreases j - i,
{
    if i < j {
        lemma_len_prefix_monotonic(entries, i, j - 1);
    }
}

/// The bytes a node of `entries` needs from the node kind on.
pub open spec fn rebuild_required(entries: Seq<Vec<u8>>) -> int {
    9 + 4 * entries.len() + len_prefix(entries, entries.len() as int)
}

/// The room a node has from the node kind on.
pub const NODE_CAPACITY: usize = 4084;

/// `t` is `s` rebuilt as a node of the given kind, tail and entries: the
/// header says so, entry `i` lies just below entry `i - 1` from the end
/// of the page down, and the bytes before the header and between the slot
/// array and the entry data are as they were.
pub open spec fn is_rebuilt_node(
    s: Seq<u8>,
    t: Seq<u8>,
    is_internal: bool,
    tail: Option<PageId>,
    entries: Seq<Vec<u8>>,
) -> bool {
    let n = entries.len() as int;
    &&& t.len() == PAGE_SIZE
    &&& forall|x: int| 0 <= x < NODE_TYPE_AT ==> #[trigger] t[x] == s[x]
    &&& t[NODE_TYPE_AT as int] == (if is_internal { INTERNAL_TAG } else { LEAF_TAG })
    &&& spec_slot_count(t) == n
    &&& spec_data_used(t) == len_prefix(entries, n)
    &&& spec_tail(t) == (match tail {
        Some(p) => p.0,
        None => 0u32,
    })
    &&& forall|i: int|
        0 <= i < n ==> #[trigger] spec_entry_offset(t, i) == PAGE_SIZE - len_prefix(entries, i + 1)
            && spec_entry_len(t, i) == entries[i]@.len() && t.subrange(
            spec_entry_offset(t, i) as int,
            spec_entry_offset(t, i) + spec_entry_len(t, i),
        ) == entries[i]@
    &&& forall|x: int|
        spec_slot_offset(n) <= x < PAGE_SIZE - len_prefix(entries, n) ==> #[trigger] t[x] == s[x]
}

/// Slot `k` of a node body under construction holds entry `k`.
spec fn body_slot_ok(b: Seq<u8>, entries: Seq<Vec<u8>>, k: int) -> bool {
    let end = NODE_CAPACITY - len_prefix(entries, k + 1);
    &&& le_u16_at(b, 9 + 4 * k) == (end + NODE_TYPE_AT) as u16
    &&& le_u16_at(b, 11 + 4 * k) == entries[k]@.len() as u16
    &&& b.subrange(end, end + entries[k]@.len()) == entries[k]@
}

proof fn lemma_body_slot_stable(b: Seq<u8>, b2: Seq<u8>, entries: Seq<Vec<u8>>, k: int, lo_end: int, hi_start: int)
    requires
        0 <= k < entries.len(),
        b.len() == NODE_CAPACITY,
        b2.len() == NODE_CAPACITY,
        body_slot_ok(b, entries, k),
        13 + 4 * k <= lo_end,
        lo_end <= hi_start,
        hi_start <= NODE_CAPACITY - len_prefix(entries, k + 1),
        len_prefix(entries, k + 1) <= NODE_CAPACITY,
        forall|x: int| 0 <= x < lo_end ==> #[trigger] b2[x] == b[x],
        forall|x: int| hi_start <= x < NODE_CAPACITY ==> #[trigger] b2[x] == b[x],
    ensures
        body_slot_ok(b2, entries, k),
{
    let end = NODE_CAPACITY - len_prefix(entries, k + 1);
    assert(len_prefix(entries, k + 1) == len_prefix(entries, k) + entries[k]@.len());
    lemma_len_prefix_monotonic(entries, 0, k);
    assert forall|x: int| 9 + 4 * k <= x < 13 + 4 * k implies b2[x] == b[x] by {
        assert(0 <= x < lo_end);
    }
    assert(b2.subrange(9 + 4 * k, 11 + 4 * k) =~= b.subrange(9 + 4 * k, 11 + 4 * k));
    assert(b2.subrange(11 + 4 * k, 13 + 4 * k) =~= b.subrange(11 + 4 * k, 13 + 4 * k));
    assert(b2.subrange(end, end + entries[k]@.len()) =~= b.subrange(end, end + entries[k]@.len()));
}

/// Runs that are well shaped never overlap and come in increasing order.
proof fn lemma_runs_ordered(old: Seq<u8>, new: Seq<u8>, runs: Seq<ByteRun>, limit: int, a: int, b: int)
    requires
        runs_well_shaped(old, new, runs, limit),
        0 <= a < b < runs.len(),
    ensures
        runs[a].end + REBUILD_MERGE_GAP <= runs[b].start,
    decreases b - a,
{
    assert(runs[b - 1 + 1].start >= runs[b - 1].end + REBUILD_MERGE_GAP);
    if a < b - 1 {
        lemma_runs_ordered(old, new, runs, limit, a, b - 1);
        assert(runs[b - 1].start < runs[b - 1].end);
    }
}

/// Bytes between the runs written so far and the next run are unchanged.
proof fn lemma_gap_unchanged(old: Seq<u8>, new: Seq<u8>, runs: Seq<ByteRun>, k: int, x: int)
    requires
        runs_well_shaped(old, new, runs, old.len() as int),
        forall|j: int| 0 <= j < old.len() && differs(old, new, j) ==> run_covers(runs, j),
        0 <= k <= runs.len(),
        0 <= x < old.len(),
        k > 0 ==> runs[k - 1].end <= x,
        k < runs.len() ==> x < runs[k].start,
    ensures
        !differs(old, new, x),
{
    if differs(old, new, x) {
        assert(run_covers(runs, x));
        let c = choose|c: int| 0 <= c < runs.len() && runs[c].start <= x < #[trigger] runs[c].end;
        if c < k - 1 {
            lemma_runs_ordered(old, new, runs, old.len() as int, c, k - 1);
            assert(runs[k - 1].start < runs[k - 1].end);
        } else if c > k {
            lemma_runs_ordered(old, new, runs, old.len() as int, k, c);
            assert(runs[k].start < runs[k].end);
        }
    }
}

impl BTreeNode {
    /// Rewrites the node as one of the given kind, tail and entries,
    /// writing only the runs of bytes that change.
    pub fn rebuild(&mut self, is_internal: bool, tail: Option<PageId>, entries: &[Vec<u8>]) -> (r:
        Result<(), StorageError>)
        requires
            old(self).bytes().len() == PAGE_SIZE,
            rebuild_required(entries@) <= usize::MAX,
        ensures
            final(self).spec_page_id() == old(self).spec_page_id(),
            final(self).spec_txn_id() == old(self).spec_txn_id(),
            rebuild_required(entries@) > NODE_CAPACITY ==> final(self).bytes() == old(self).bytes()
                && r == Err::<(), StorageError>(
                StorageError::NodeOverflow {
                    page_id: old(self).spec_page_id().0,
                    required: rebuild_required(entries@) as usize,
                    capacity: NODE_CAPACITY,
                },
            ),
            rebuild_required(entries@) <= NODE_CAPACITY ==> r is Ok && is_rebuilt_node(
                old(self).bytes(),
                final(self).bytes(),
                is_internal,
                tail,
                entries@,
            ),
    {
        let ghost s0 = self.bytes();
        let n = entries.len();
        let mut total: usize = 0;
        let mut i: usize = 0;
        while i < n
            invariant
                n == entries@.len(),
                i <= n,
                total == len_prefix(entries@, i as int),
                rebuild_required(entries@) <= usize::MAX,
            decreases n - i,
        {
            proof {
                lemma_len_prefix_monotonic(entries@, i + 1, n as int);
            }
            total = total + entries[i].len();
            i = i + 1;
        }
        let required = 9 + 4 * n + total;
        if required > NODE_CAPACITY {
            return Err(
                StorageError::NodeOverflow {
                    page_id: self.page.id().0,
                    required,
                    capacity: NODE_CAPACITY,
                },
            );
        }
        let mut current: Vec<u8> = Vec::new();
        push_bytes(&mut current, slice_subrange(self.page.data().as_slice(), NODE_TYPE_AT, PAGE_SIZE));
        let body = build_node_body(&current, is_internal, tail, entries, total);
        self.write_changed_runs(&current, &body);
        proof {
            lemma_rebuilt_from_body(s0, self.bytes(), body@, is_internal, tail, entries@);
        }
        Ok(())
    }
}

/// The node body, from the node kind on, for the given kind, tail and
/// entries over `current`.
fn build_node_body(
    current: &Vec<u8>,
    is_internal: bool,
    tail: Option<PageId>,
    entries: &[Vec<u8>],
    total: usize,
) -> (body: Vec<u8>)
    requires
        current@.len() == NODE_CAPACITY,
        total == len_prefix(entries@, entries@.len() as int),
        rebuild_required(entries@) <= NODE_CAPACITY,
    ensures
        body_ok(current@, body@, is_internal, tail, entries@),
{
    let n = entries.len();
    let required = 9 + 4 * n + total;
    let mut body: Vec<u8> = Vec::new();
    push_bytes(&mut body, current.as_slice());
    let ghost cur = current@;
    proof {
        lemma_auto_spec_u16_to_from_le_bytes();
        lemma_auto_spec_u32_to_from_le_bytes();
        lemma_len_prefix_monotonic(entries@, 0, n as int);
    }
    let mut header: Vec<u8> = Vec::new();
    header.push(if is_internal { INTERNAL_TAG } else { LEAF_TAG });
    push_u16(&mut header, n as u16);
    push_u16(&mut header, total as u16);
    let t = match tail {
        Some(p) => p.0,
        None => 0u32,
    };
    push_u32(&mut header, t);
    write_into(&mut body, 0, header.as_slice());
    let ghost hdr = header@;
    proof {
        assert(hdr =~= spec_body_header(is_internal, tail, entries@));
    }
    let mut data_end: usize = NODE_CAPACITY;
    let mut i: usize = 0;
    while i < n
        invariant
            n == entries@.len(),
            i <= n,
            required == rebuild_required(entries@),
            required <= NODE_CAPACITY,
            total == len_prefix(entries@, n as int),
            hdr.len() == 9,
            hdr == spec_body_header(is_internal, tail, entries@),
            body@.len() == NODE_CAPACITY,
            cur.len() == NODE_CAPACITY,
            data_end == NODE_CAPACITY - len_prefix(entries@, i as int),
            body@.subrange(0, 9) == hdr,
            forall|k: int| 0 <= k < i ==> #[trigger] body_slot_ok(body@, entries@, k),
            forall|x: int| 9 + 4 * i <= x < data_end ==> #[trigger] body@[x] == cur[x],
        decreases n - i,
    {
        proof {
            lemma_len_prefix_monotonic(entries@, i + 1, n as int);
            lemma_len_prefix_monotonic(entries@, 0, i as int);
            lemma_auto_spec_u16_to_from_le_bytes();
        }
        let ghost b0 = body@;
        let len_i = entries[i].len();
        data_end = data_end - len_i;
        write_into(&mut body, data_end, entries[i].as_slice());
        let mut slot: Vec<u8> = Vec::new();
        push_u16(&mut slot, (data_end + NODE_TYPE_AT) as u16);
        push_u16(&mut slot, len_i as u16);
        let ghost b1 = body@;
        write_into(&mut body, 9 + 4 * i, slot.as_slice());
        proof {
            let b2 = body@;
            lemma_u16_pair_at(slot@, (data_end + NODE_TYPE_AT) as u16, len_i as u16);
            assert forall|k: int| 0 <= k < i + 1 implies #[trigger] body_slot_ok(b2, entries@, k) by {
                if k < i {
                    lemma_len_prefix_monotonic(entries@, k + 1, i as int);
                    lemma_body_slot_stable(b0, b2, entries@, k, 9 + 4 * i, data_end + len_i);
                } else {
                    assert(b2.subrange(9 + 4 * k, 11 + 4 * k) =~= slot@.subrange(0, 2));
                    assert(b2.subrange(11 + 4 * k, 13 + 4 * k) =~= slot@.subrange(2, 4));
                    assert(b2.subrange(data_end as int, data_end + len_i) =~= entries@[k]@);
                }
            }
            assert(b2.subrange(0, 9) =~= b0.subrange(0, 9));
        }
        i = i + 1;
    }
    proof {
    assert(header@ =~= spec_body_header(is_internal, tail, entries@));
    }
    body
}

/// The first nine bytes of a rebuilt node body: kind, slot count, data in
/// use and tail.
spec fn spec_body_header(is_internal: bool, tail: Option<PageId>, entries: Seq<Vec<u8>>) -> Seq<u8> {
    seq![if is_internal { INTERNAL_TAG } else { LEAF_TAG }] + spec_u16_to_le_bytes(entries.len() as u16)
        + spec_u16_to_le_bytes(len_prefix(entries, entries.len() as int) as u16)
        + spec_u32_to_le_bytes(
        match tail {
            Some(p) => p.0,
            None => 0u32,
        },
    )
}

/// `body` is the node body for the given kind, tail and entries over
/// `current`.
spec fn body_ok(
    current: Seq<u8>,
    body: Seq<u8>,
    is_internal: bool,
    tail: Option<PageId>,
    entries: Seq<Vec<u8>>,
) -> bool {
    &&& body.len() == NODE_CAPACITY
    &&& body.subrange(0, 9) == spec_body_header(is_internal, tail, entries)
    &&& forall|k: int| 0 <= k < entries.len() ==> #[trigger] body_slot_ok(body, entries, k)
    &&& forall|x: int|
        9 + 4 * entries.len() <= x < NODE_CAPACITY - len_prefix(entries, entries.len() as int)
            ==> #[trigger] body[x] == current[x]
}

impl BTreeNode {
    /// Writes the runs of bytes where `body` differs from `current`, the
    /// node's bytes from the node kind on.
    fn write_changed_runs(&mut self, current: &Vec<u8>, body: &Vec<u8>)
        requires
            old(self).bytes().len() == PAGE_SIZE,
            current@ == old(self).bytes().subrange(NODE_TYPE_AT as int, PAGE_SIZE as int),
            body@.len() == NODE_CAPACITY,
        ensures
            final(self).spec_page_id() == old(self).spec_page_id(),
            final(self).spec_txn_id() == old(self).spec_txn_id(),
            final(self).bytes().len() == PAGE_SIZE,
            forall|x: int| 0 <= x < NODE_TYPE_AT ==> #[trigger] final(self).bytes()[x] == old(self).bytes()[x],
            forall|x: int| 0 <= x < NODE_CAPACITY ==> #[trigger] final(self).bytes()[NODE_TYPE_AT + x] == body@[x],
    {
        let ghost s0 = self.bytes();
        let ghost cur = current@;
        let runs = changed_byte_runs(current.as_slice(), body.as_slice());
        let ghost b = body@;
        proof {
            reveal(runs_exact);
        }
        let mut k: usize = 0;
        while k < runs.len()
            invariant
                self.bytes().len() == PAGE_SIZE,
                self.spec_page_id() == old(self).spec_page_id(),
                self.spec_txn_id() == old(self).spec_txn_id(),
                s0 == old(self).bytes(),
                cur == s0.subrange(NODE_TYPE_AT as int, PAGE_SIZE as int),
                cur == current@,
                b == body@,
                b.len() == NODE_CAPACITY,
                cur.len() == NODE_CAPACITY,
                k <= runs@.len(),
                runs_exact(cur, b, runs@),
                forall|x: int| 0 <= x < NODE_TYPE_AT ==> #[trigger] self.bytes()[x] == s0[x],
                applied_through(self.bytes(), cur, b, runs@, k as int),
            decreases runs@.len() - k,
        {
            let run = runs[k];
            proof {
                lemma_run_bounds(cur, b, runs@, k as int);
            }
            let ghost p0 = self.bytes();
            self.page.write_bytes(NODE_TYPE_AT + run.start, slice_subrange(body.as_slice(), run.start, run.end));
            proof {
                lemma_apply_run_step(p0, self.bytes(), cur, b, runs@, k as int);
            }
            k = k + 1;
        }
        proof {
            lemma_all_runs_applied(self.bytes(), cur, b, runs@);
        }
    }
}

proof fn lemma_rebuilt_from_body(
    s: Seq<u8>,
    t: Seq<u8>,
    b: Seq<u8>,
    is_internal: bool,
    tail: Option<PageId>,
    entries: Seq<Vec<u8>>,
)
    requires
        s.len() == PAGE_SIZE,
        t.len() == PAGE_SIZE,
        b.len() == NODE_CAPACITY,
        rebuild_required(entries) <= NODE_CAPACITY,
        body_ok(s.subrange(NODE_TYPE_AT as int, PAGE_SIZE as int), b, is_internal, tail, entries),
        forall|x: int| 0 <= x < NODE_TYPE_AT ==> #[trigger] t[x] == s[x],
        forall|x: int| 0 <= x < NODE_CAPACITY ==> #[trigger] t[NODE_TYPE_AT + x] == b[x],
    ensures
        is_rebuilt_node(s, t, is_internal, tail, entries),
{
    lemma_auto_spec_u16_to_from_le_bytes();
    lemma_auto_spec_u32_to_from_le_bytes();
    let hdr = spec_body_header(is_internal, tail, entries);
    let n = entries.len() as int;
    let tl = match tail {
        Some(p) => p.0,
        None => 0u32,
    };
    assert(t[NODE_TYPE_AT + 0] == b[0]);
    assert(b[0] == hdr[0]);
    assert forall|x: int| 12 <= x < PAGE_SIZE implies #[trigger] t[x] == b[x - 12] by {
        assert(t[NODE_TYPE_AT + (x - 12)] == b[x - 12]);
    }
    assert(t.subrange(13, 15) =~= hdr.subrange(1, 3));
    assert(hdr.subrange(1, 3) =~= spec_u16_to_le_bytes(n as u16));
    assert(t.subrange(15, 17) =~= hdr.subrange(3, 5));
    assert(hdr.subrange(3, 5) =~= spec_u16_to_le_bytes(len_prefix(entries, n) as u16));
    assert(t.subrange(17, 21) =~= hdr.subrange(5, 9));
    assert(hdr.subrange(5, 9) =~= spec_u32_to_le_bytes(tl));
    lemma_len_prefix_monotonic(entries, 0, n);
    assert forall|i: int| 0 <= i < n implies #[trigger] spec_entry_offset(t, i) == PAGE_SIZE
        - len_prefix(entries, i + 1) && spec_entry_len(t, i) == entries[i]@.len() && t.subrange(
        spec_entry_offset(t, i) as int,
        spec_entry_offset(t, i) + spec_entry_len(t, i),
    ) == entries[i]@ by {
        assert(body_slot_ok(b, entries, i));
        lemma_len_prefix_monotonic(entries, i + 1, n);
        assert(13 + 4 * i <= NODE_CAPACITY);
        lemma_len_prefix_monotonic(entries, 0, i);
        assert(len_prefix(entries, i + 1) == len_prefix(entries, i) + entries[i]@.len());
        let end = NODE_CAPACITY - len_prefix(entries, i + 1);
        assert(t.subrange(21 + 4 * i, 23 + 4 * i) =~= b.subrange(9 + 4 * i, 11 + 4 * i));
        assert(t.subrange(23 + 4 * i, 25 + 4 * i) =~= b.subrange(11 + 4 * i, 13 + 4 * i));
        assert(t.subrange(end + 12, end + 12 + entries[i]@.len()) =~= b.subrange(end, end + entries[i]@.len()));
    }
    assert forall|x: int|
        spec_slot_offset(n) <= x < PAGE_SIZE - len_prefix(entries, n) implies #[trigger] t[x] == s[x] by {
        assert(b[x - 12] == s.subrange(NODE_TYPE_AT as int, PAGE_SIZE as int)[x - 12]);
    }
}

/// The node bytes after the first `k` runs are written: the body up to
/// the end of run `k - 1`, the current bytes after it.
spec fn applied_through(p: Seq<u8>, cur: Seq<u8>, b: Seq<u8>, runs: Seq<ByteRun>, k: int) -> bool {
    &&& p.len() == PAGE_SIZE
    &&& forall|x: int|
        0 <= x < NODE_CAPACITY ==> #[trigger] p[NODE_TYPE_AT + x] == (if k > 0 && x < runs[k - 1].end {
            b[x]
        } else {
            cur[x]
        })
}

proof fn lemma_apply_run_step(p0: Seq<u8>, p1: Seq<u8>, cur: Seq<u8>, b: Seq<u8>, runs: Seq<ByteRun>, k: int)
    requires
        b.len() == NODE_CAPACITY,
        cur.len() == NODE_CAPACITY,
        0 <= k < runs.len(),
        runs_exact(cur, b, runs),
        applied_through(p0, cur, b, runs, k),
        p1 == splice(p0, NODE_TYPE_AT + runs[k].start, b.subrange(runs[k].start as int, runs[k].end as int)),
    ensures
        applied_through(p1, cur, b, runs, k + 1),
        forall|x: int| 0 <= x < NODE_TYPE_AT ==> #[trigger] p1[x] == p0[x],
{
    reveal(runs_exact);
    let run = runs[k];
    assert(run.start < run.end <= NODE_CAPACITY);
    if k > 0 {
        assert(runs[(k - 1) + 1].start >= runs[k - 1].end + REBUILD_MERGE_GAP);
    }
    assert forall|x: int| 0 <= x < NODE_CAPACITY implies #[trigger] p1[NODE_TYPE_AT + x] == (if k + 1 > 0
        && x < runs[k].end {
        b[x]
    } else {
        cur[x]
    }) by {
        if x < run.start {
            assert(p1[NODE_TYPE_AT + x] == p0[NODE_TYPE_AT + x]);
            if !(k > 0 && x < runs[k - 1].end) {
                lemma_gap_unchanged(cur, b, runs, k, x);
            }
        }
    }
}

proof fn lemma_all_runs_applied(p: Seq<u8>, cur: Seq<u8>, b: Seq<u8>, runs: Seq<ByteRun>)
    requires
        b.len() == NODE_CAPACITY,
        cur.len() == NODE_CAPACITY,
        runs_exact(cur, b, runs),
        applied_through(p, cur, b, runs, runs.len() as int),
    ensures
        forall|x: int| 0 <= x < NODE_CAPACITY ==> #[trigger] p[NODE_TYPE_AT + x] == b[x],
{
    reveal(runs_exact);
    let k = runs.len() as int;
    assert forall|x: int| 0 <= x < NODE_CAPACITY implies #[trigger] p[NODE_TYPE_AT + x] == b[x] by {
        if !(k > 0 && x < runs[k - 1].end) {
            lemma_gap_unchanged(cur, b, runs, k, x);
        }
    }
}

/// The runs are exactly the changed runs between `cur` and `b`.
#[verifier::opaque]
spec fn runs_exact(cur: Seq<u8>, b: Seq<u8>, runs: Seq<ByteRun>) -> bool {
    &&& runs_well_shaped(cur, b, runs, cur.len() as int)
    &&& forall|j: int| 0 <= j < cur.len() && differs(cur, b, j) ==> run_covers(runs, j)
}

proof fn lemma_run_bounds(cur: Seq<u8>, b: Seq<u8>, runs: Seq<ByteRun>, k: int)
    requires
        runs_exact(cur, b, runs),
        0 <= k < runs.len(),
    ensures
        runs[k].start < runs[k].end <= cur.len(),
{
    reveal(runs_exact);
}

/// A rebuilt node is well formed and reads back as what it was rebuilt
/// from: its kind, its tail and, slot by slot, its entries.
pub proof fn lemma_rebuilt_entries(
    s: Seq<u8>,
    t: Seq<u8>,
    is_internal: bool,
    tail: Option<PageId>,
    entries: Seq<Vec<u8>>,
)
    requires
        rebuild_required(entries) <= NODE_CAPACITY,
        is_rebuilt_node(s, t, is_internal, tail, entries),
    ensures
        node_well_formed(t),
        entries_readable(t),
        spec_is_internal(t) == is_internal,
        spec_tail(t) == (match tail {
            Some(p) => p.0,
            None => 0u32,
        }),
        spec_slot_count(t) == entries.len(),
        forall|i: u16| i < entries.len() ==> #[trigger] entry_at(t, i) == entries[i as int]@,
{
    let n = entries.len() as int;
    lemma_len_prefix_monotonic(entries, 0, n);
    assert(spec_data_start(t) == PAGE_SIZE - len_prefix(entries, n));
    assert forall|i: int| 0 <= i < n implies spec_data_start(t) <= #[trigger] spec_entry_offset(t, i)
        && spec_entry_offset(t, i) + spec_entry_len(t, i) <= PAGE_SIZE by {
        lemma_len_prefix_monotonic(entries, i + 1, n);
        lemma_len_prefix_monotonic(entries, 0, i);
        assert(len_prefix(entries, i + 1) == len_prefix(entries, i) + entries[i]@.len());
    }
    assert forall|j: u16| j < spec_slot_count(t) implies (#[trigger] spec_entry(t, j)) is Ok by {
        assert(spec_data_start(t) <= spec_entry_offset(t, j as int));
    }
    if is_internal {
        assert(spec_is_internal(t));
    } else {
        assert(LEAF_TAG != INTERNAL_TAG);
    }
}


/// Bytes past the first twelve agree: two images of one node, whatever
/// their checksums and LSNs.
pub open spec fn same_node(a: Seq<u8>, b: Seq<u8>) -> bool {
    &&& a.len() == b.len()
    &&& forall|x: int| NODE_TYPE_AT <= x < a.len() ==> #[trigger] a[x] == b[x]
}

proof fn lemma_applied_through_stamped(q: Seq<u8>, p: Seq<u8>, cur: Seq<u8>, b: Seq<u8>, runs: Seq<ByteRun>, k: int)
    requires
        applied_through(q, cur, b, runs, k),
        p.len() == q.len(),
        forall|x: int| NODE_TYPE_AT <= x < PAGE_SIZE ==> #[trigger] p[x] == q[x],
    ensures
        applied_through(p, cur, b, runs, k),
{
    assert forall|x: int| 0 <= x < NODE_CAPACITY implies #[trigger] p[NODE_TYPE_AT + x] == (if k > 0 && x < runs[k - 1].end {
        b[x]
    } else {
        cur[x]
    }) by {
        assert(p[NODE_TYPE_AT + x] == q[NODE_TYPE_AT + x]);
    }
}

/// Room in the log for the records of one node write: each changed run
/// of `n` bytes logs a record of at most 53 `n` bytes, and the runs of a
/// node hold at most `NODE_CAPACITY` bytes together.
pub open spec fn commit_log_room(v: LogView) -> bool {
    &&& v.next_lsn + 53 * NODE_CAPACITY <= u64::MAX
    &&& v.bytes_appended + 53 * NODE_CAPACITY <= u64::MAX
}

/// What an update record of `n` bytes before and after takes in the log.
proof fn lemma_update_len(page_id: u32, offset: u16, before: Seq<u8>, after: Seq<u8>)
    requires
        before.len() <= u32::MAX,
        after.len() <= u32::MAX,
    ensures
        record_len(KindView::Update { page_id, offset, before, after }) == 51 + before.len() + after.len(),
{
    crate::wal::lemma_le_lens();
}

/// Writes the node held in `node` over the page cached in `frame` on
/// behalf of `txn_id`: one logged write for each run of node bytes that
/// differ, runs closer than the merge gap merged. The first twelve bytes
/// of `node` (checksum and LSN) are not copied.
pub fn commit_node<D: BlockDevice, W: BlockDevice, S: SegmentStore>(
    pool: &mut BufferPool<D, W, S>,
    frame: FrameId,
    txn_id: TxnId,
    node: &Page,
) -> (r: Result<(), StorageError>)
    requires
        old(pool).inv(),
        frame.0 < old(pool).frames().len(),
        old(pool).frames()[frame.0 as int].page_id is Some,
    ensures
        final(pool).inv(),
        final(pool).table() == old(pool).table(),
        final(pool).spec_disk() == old(pool).spec_disk(),
        final(pool).spec_dwb() == old(pool).spec_dwb(),
        final(pool).frames().len() == old(pool).frames().len(),
        forall|i: int| 0 <= i < old(pool).frames().len() && i != frame.0 ==> #[trigger] final(pool).frames()[i] == old(pool).frames()[i],
        final(pool).frames()[frame.0 as int].page_id == old(pool).frames()[frame.0 as int].page_id,
        final(pool).frames()[frame.0 as int].pin_count == old(pool).frames()[frame.0 as int].pin_count,
        r is Ok ==> same_node(final(pool).frames()[frame.0 as int].page.bytes(), node.bytes()),
        commit_log_room(old(pool).spec_log().view()) ==> r is Ok,
{
    proof {
        node.lemma_len();
        old(pool).frames()[frame.0 as int].page.lemma_len();
    }
    let mut current: Vec<u8> = Vec::new();
    push_bytes(&mut current, slice_subrange(pool.page(frame).data().as_slice(), NODE_TYPE_AT, PAGE_SIZE));
    let mut body: Vec<u8> = Vec::new();
    push_bytes(&mut body, slice_subrange(node.data().as_slice(), NODE_TYPE_AT, PAGE_SIZE));
    let ghost cur = current@;
    let ghost b = body@;
    let runs = changed_byte_runs(current.as_slice(), body.as_slice());
    proof {
        reveal(runs_exact);
        let p0 = pool.frames()[frame.0 as int].page.bytes();
        assert forall|x: int| 0 <= x < NODE_CAPACITY implies #[trigger] p0[NODE_TYPE_AT + x] == cur[x] by {}
    }
    let mut k: usize = 0;
    while k < runs.len()
        invariant
            pool.inv(),
            frame.0 < pool.frames().len(),
            pool.frames()[frame.0 as int].page_id == old(pool).frames()[frame.0 as int].page_id,
            pool.frames()[frame.0 as int].page_id is Some,
            pool.frames()[frame.0 as int].pin_count == old(pool).frames()[frame.0 as int].pin_count,
            pool.table() == old(pool).table(),
            pool.spec_disk() == old(pool).spec_disk(),
            pool.spec_dwb() == old(pool).spec_dwb(),
            pool.frames().len() == old(pool).frames().len(),
            forall|i: int| 0 <= i < old(pool).frames().len() && i != frame.0 ==> #[trigger] pool.frames()[i] == old(pool).frames()[i],
            cur == current@,
            b == body@,
            cur.len() == NODE_CAPACITY,
            b.len() == NODE_CAPACITY,
            forall|x: int| 0 <= x < NODE_CAPACITY ==> #[trigger] b[x] == node.bytes()[NODE_TYPE_AT + x],
            k <= runs@.len(),
            runs_exact(cur, b, runs@),
            applied_through(pool.frames()[frame.0 as int].page.bytes(), cur, b, runs@, k as int),
            commit_log_room(old(pool).spec_log().view()) ==> ({
                let done = if k == 0 { 0int } else { runs@[k - 1].end as int };
                &&& done <= NODE_CAPACITY
                &&& pool.spec_log().view().next_lsn <= old(pool).spec_log().view().next_lsn + 53 * done
                &&& pool.spec_log().view().bytes_appended <= old(pool).spec_log().view().bytes_appended + 53 * done
            }),
        decreases runs@.len() - k,
    {
        let run = runs[k];
        proof {
            lemma_run_bounds(cur, b, runs@, k as int);
        }
        let ghost p0 = pool.frames()[frame.0 as int].page.bytes();
        let ghost lsn = pool.spec_log().view().next_lsn;
        let ghost v0 = pool.spec_log().view();
        proof {
            pool.frames()[frame.0 as int].page.lemma_len();
            reveal(runs_exact);
            if k > 0 {
                assert(runs@[k as int - 1 + 1].start >= runs@[k as int - 1].end + REBUILD_MERGE_GAP);
            }
            lemma_update_len(
                pool.frames()[frame.0 as int].page_id.unwrap().0,
                (NODE_TYPE_AT + run.start) as u16,
                pool.frames()[frame.0 as int].page.bytes().subrange(
                    (NODE_TYPE_AT + run.start) as int,
                    (NODE_TYPE_AT + run.start) + (run.end - run.start),
                ),
                b.subrange(run.start as int, run.end as int),
            );
        }
        match pool.write(frame, txn_id, NODE_TYPE_AT + run.start, slice_subrange(body.as_slice(), run.start, run.end)) {
            Ok(()) => {},
            Err(e) => return Err(e),
        }
        proof {
            let kind = KindView::Update {
                page_id: pool.frames()[frame.0 as int].page_id.unwrap().0,
                offset: (NODE_TYPE_AT + run.start) as u16,
                before: p0.subrange((NODE_TYPE_AT + run.start) as int, (NODE_TYPE_AT + run.start) + (run.end - run.start)),
                after: b.subrange(run.start as int, run.end as int),
            };
            let prev = if v0.last_lsns.dom().contains(txn_id.0) {
                Some(v0.last_lsns[txn_id.0])
            } else {
                None
            };
            crate::log_manager::lemma_record_len(v0.next_lsn, prev, txn_id.0, kind);
            let q = splice(p0, NODE_TYPE_AT + run.start, b.subrange(run.start as int, run.end as int));
            lemma_apply_run_step(p0, q, cur, b, runs@, k as int);
            let p1 = pool.frames()[frame.0 as int].page.bytes();
            assert(p1 == splice(q, 4, spec_u64_to_le_bytes(lsn)));
            lemma_auto_spec_u64_to_from_le_bytes();
            assert(q.len() == PAGE_SIZE);
            assert(p1.len() == PAGE_SIZE);
            assert forall|x: int| NODE_TYPE_AT <= x < PAGE_SIZE implies #[trigger] p1[x] == q[x] by {
                assert(p1[x] == q.subrange(12, q.len() as int)[x - 12]);
            }
            lemma_applied_through_stamped(q, p1, cur, b, runs@, (k + 1) as int);
        }
        k = k + 1;
    }
    proof {
        let p = pool.frames()[frame.0 as int].page.bytes();
        lemma_all_runs_applied(p, cur, b, runs@);
        assert forall|x: int| NODE_TYPE_AT <= x < p.len() implies #[trigger] p[x] == node.bytes()[x] by {
            assert(p[NODE_TYPE_AT + (x - NODE_TYPE_AT)] == b[x - NODE_TYPE_AT]);
        }
    }
    Ok(())
}

} // verus!
