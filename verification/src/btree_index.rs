//! A B+-tree index of byte-string keys to record ids, its nodes held in
//! buffer-pool pages.
//!
//! Every change to a node is written through the buffer pool, one logged
//! write for each run of node bytes that changed. A descent that passes
//! more internal nodes than `MAX_TREE_DEPTH` has met a cycle of child
//! pointers and reports the page as corrupt.

use vstd::bytes::*;
use vstd::prelude::*;
use vstd::slice::*;

use crate::block_device::BlockDevice;
use crate::btree::{
    commit_log_room, commit_node, entry_key, entry_payload, is_bound_at, leaf_rid, leaf_sort_key,
    lower_bound_leaf, node_is_internal, node_slot_count, same_node, spec_data_used,
    spec_entry, spec_entry_key, spec_entry_len, spec_entry_offset, spec_init_header,
    spec_is_internal, spec_key_len, spec_leaf_sort_key, spec_slot_count, spec_slot_offset,
    spec_tail, tail_raw, BTreeNode, BoundProbe, KEY_LEN_PREFIX, MAX_SLOTS, NODE_TYPE_AT,
    RID_TRAILER_SIZE, node_count_reason, entries_readable, bytes_eq, checked_slot_count,
    entry_at, spec_child_at, upper_bound, internal_child, no_tail_reason, CHILD_TRAILER_SIZE,
    bytes_lt, lex_lt, build_leaf_payload, build_internal_payload, read_entries, upper_bound_in,
    upper_bound_in_leaf, leaf_split_point, internal_split_point, len_prefix, weight_prefix,
    rebuild_required, total_weight, MAX_KEY_SIZE, slot_offset,
    node_data_used, entries_hold_children, lex_le, lemma_lex_le_transitive, lemma_lex_le_antisymmetric,
    is_rebuilt_node, lemma_rebuilt_entries, NODE_CAPACITY, is_bound_in, probe_holds, key_side,
    is_node_insert, spec_data_start, spec_leaf_payload, node_well_formed, keys_sorted, node_keys,
    lemma_node_bound_partitions, lemma_insert_at_entries, probe_key, lemma_leaf_payload_keys,
};
use crate::buffer::BufferPool;
use crate::codec::{le_u16_at, le_u32_at, splice};
use crate::error::{storage_message, StorageError};
use crate::fmt::{push_decimal, push_str, spec_decimal};
use crate::heap::is_corrupt;
use crate::ids::{FrameId, PageId, Rid, TxnId};
use crate::log_manager::SegmentStore;
use crate::page::{Page, PAGE_SIZE};

verus! {

/// How many internal nodes a descent passes before it reports a cycle.
/// Every internal node has at least two children, so a tree of pages
/// numbered by `u32` is never deeper than this.
pub const MAX_TREE_DEPTH: usize = 33;

/// Reading two images of a node that agree past the first twelve bytes
/// gives the same header and the same entries.
pub proof fn lemma_same_node_reads(a: Seq<u8>, b: Seq<u8>)
    requires
        a.len() == PAGE_SIZE,
        same_node(a, b),
    ensures
        spec_is_internal(a) == spec_is_internal(b),
        spec_slot_count(a) == spec_slot_count(b),
        spec_data_used(a) == spec_data_used(b),
        spec_tail(a) == spec_tail(b),
        forall|i: u16| #[trigger] spec_entry(a, i) == spec_entry(b, i),
{
    assert(a.subrange(13, 15) =~= b.subrange(13, 15));
    assert(a.subrange(15, 17) =~= b.subrange(15, 17));
    assert(a.subrange(17, 21) =~= b.subrange(17, 21));
    assert forall|i: u16| #[trigger] spec_entry(a, i) == spec_entry(b, i) by {
        let o = spec_slot_offset(i as int);
        if o + 4 <= PAGE_SIZE {
            assert(a.subrange(o, o + 2) =~= b.subrange(o, o + 2));
            assert(a.subrange(o + 2, o + 4) =~= b.subrange(o + 2, o + 4));
        }
        let count = spec_slot_count(a);
        if count <= MAX_SLOTS && i < count {
            assert(spec_entry_offset(a, i as int) == spec_entry_offset(b, i as int));
            assert(spec_entry_len(a, i as int) == spec_entry_len(b, i as int));
            let start = spec_entry_offset(a, i as int) as int;
            let len = spec_entry_len(a, i as int) as int;
            if start >= spec_slot_offset(count as int) && start + len <= a.len() {
                assert(a.subrange(start, start + len) =~= b.subrange(start, start + len));
            }
        }
    }
}

/// A leaf with no entries and no next leaf.
pub open spec fn is_empty_leaf(s: Seq<u8>) -> bool {
    &&& !spec_is_internal(s)
    &&& spec_slot_count(s) == 0
    &&& spec_data_used(s) == 0
    &&& spec_tail(s) == 0
}

/// A leaf with no next leaf: a whole tree of one node.
pub open spec fn is_lone_leaf(s: Seq<u8>) -> bool {
    !spec_is_internal(s) && spec_tail(s) == 0
}

/// The bytes of page `page_id` as `pool` caches it.
pub open spec fn cached_bytes<D: BlockDevice, W: BlockDevice, S: SegmentStore>(
    pool: BufferPool<D, W, S>,
    page_id: PageId,
) -> Seq<u8> {
    pool.frames()[pool.frame_of_spec(page_id).unwrap() as int].page.bytes()
}

/// The tree is a single cached leaf whose entries all read, and the pool
/// can pin it twice more.
pub open spec fn readable_lone_leaf<D: BlockDevice, W: BlockDevice, S: SegmentStore>(
    pool: BufferPool<D, W, S>,
    root: PageId,
) -> bool {
    let s = cached_bytes(pool, root);
    &&& pool.pinnable(root)
    &&& pool.access_clock() + 2 <= u64::MAX
    &&& is_lone_leaf(s)
    &&& entries_readable(s)
    &&& leaf_entries_fit(s)
}

/// Reads page `page_id` through the pool and hands back a copy of it.
pub(crate) fn read_node<D: BlockDevice, W: BlockDevice, S: SegmentStore>(
    pool: &mut BufferPool<D, W, S>,
    page_id: PageId,
) -> (r: Result<Page, StorageError>)
    requires
        old(pool).inv(),
    ensures
        final(pool).inv(),
        final(pool).frames().len() == old(pool).frames().len(),
        final(pool).spec_disk().spec_page_size() == old(pool).spec_disk().spec_page_size(),
        final(pool).spec_disk().next_page_id() == old(pool).spec_disk().next_page_id(),
        r matches Ok(p) ==> {
            &&& p.spec_id() == page_id
            &&& p.bytes() == final(pool).fetched_bytes(*old(pool), page_id)
            &&& final(pool).frame_of_spec(page_id) is Some
            &&& p.bytes() == cached_bytes(*final(pool), page_id)
        },
        r is Ok && old(pool).frame_of_spec(page_id) is Some ==> cached_bytes(*final(pool), page_id) == cached_bytes(
            *old(pool),
            page_id,
        ),
        old(pool).pinnable(page_id) ==> r is Ok,
        old(pool).frame_of_spec(page_id) is Some && r is Ok ==> cached_read(*old(pool), *final(pool)),
        old(pool).frame_of_spec(page_id) is Some && r is Err ==> *final(pool) == *old(pool),
{
    let frame = match pool.fetch_page(page_id) {
        Ok(f) => f,
        Err(e) => return Err(e),
    };
    let ghost mid = *pool;
    let copy = Page::from_bytes(page_id, pool.page(frame).data());
    pool.unpin(frame);
    proof {
        if old(pool).frame_of_spec(page_id) is Some {
            assert(pool.frames()[frame.0 as int] == old(pool).frames()[frame.0 as int]);
            assert(pool.frames() =~= old(pool).frames());
        }
    }
    Ok(copy)
}

/// `after` is `before` once a cached page has been read: every frame,
/// the page table, the log and the file are as they were, and one more
/// access has been counted.
pub open spec fn cached_read<D: BlockDevice, W: BlockDevice, S: SegmentStore>(
    before: BufferPool<D, W, S>,
    after: BufferPool<D, W, S>,
) -> bool {
    &&& after.frames() == before.frames()
    &&& after.table() == before.table()
    &&& after.spec_log() == before.spec_log()
    &&& after.spec_disk() == before.spec_disk()
    &&& after.spec_dwb() == before.spec_dwb()
    &&& after.access_clock() == before.access_clock() + 1
}

/// A leaf entry long enough for its key and record id.
pub open spec fn leaf_entry_fits(e: Seq<u8>) -> bool {
    e.len() >= 2 && KEY_LEN_PREFIX + spec_key_len(e) + RID_TRAILER_SIZE <= e.len()
}

/// Every entry of the leaf that can be read holds a record id.
pub open spec fn leaf_entries_fit(s: Seq<u8>) -> bool {
    forall|i: u16| i < spec_slot_count(s) ==> (#[trigger] spec_entry(s, i) matches Ok(e) ==> leaf_entry_fits(e))
}

/// The record id a leaf entry carries after its key.
pub open spec fn spec_leaf_rid(e: Seq<u8>) -> Rid {
    let at = KEY_LEN_PREFIX + spec_key_len(e);
    Rid { page_id: PageId(le_u32_at(e, at)), slot: le_u16_at(e, at + 4) }
}

pub open spec fn short_entry_reason(slot: u16) -> Seq<char> {
    "slot "@ + spec_decimal(slot as nat) + "'s entry is too short for its key and record id"@
}

/// A node's tail pointer, `None` when it is 0.
pub open spec fn tail_of(s: Seq<u8>) -> Option<PageId> {
    if spec_tail(s) == 0 {
        None
    } else {
        Some(PageId(spec_tail(s)))
    }
}

pub open spec fn opt_bytes(o: Option<&[u8]>) -> Option<Seq<u8>> {
    match o {
        Some(b) => Some(b@),
        None => None,
    }
}

/// Where a scan of a leaf for the entry after `after` lands: the first
/// slot, or the first slot whose sort key is not below `after`, stepped
/// past an entry whose sort key is `after` itself.
pub open spec fn scan_starts_at(s: Seq<u8>, after: Option<Seq<u8>>, slot: int) -> bool {
    match after {
        None => slot == 0,
        Some(a) => {
            ||| is_bound_at(s, BoundProbe::SortKeyBelow, a, slot) && (slot == spec_slot_count(s) || (spec_entry(
                s,
                slot as u16,
            ) matches Ok(e) && spec_leaf_sort_key(e) != a))
            ||| is_bound_at(s, BoundProbe::SortKeyBelow, a, slot - 1) && (spec_entry(s, (slot - 1) as u16) matches Ok(e)
                && spec_leaf_sort_key(e) == a)
        },
    }
}

/// What reading a slot of a leaf gives: the entry there, or, past the
/// last slot, the end of the leaf and the next leaf.
pub enum LeafScan {
    Entry { slot: u16, key: Vec<u8>, rid: Rid },
    EndOfLeaf { next_leaf_page_id: Option<PageId> },
}

/// `r` is what reading `slot` of leaf `s` (page `page_id`) gives.
pub open spec fn leaf_scan_ok(s: Seq<u8>, page_id: PageId, slot: u16, r: Result<LeafScan, StorageError>) -> bool {
    let count = spec_slot_count(s);
    if count > MAX_SLOTS {
        is_corrupt(r, page_id, node_count_reason(count))
    } else if slot >= count {
        r == Ok::<LeafScan, StorageError>(LeafScan::EndOfLeaf { next_leaf_page_id: tail_of(s) })
    } else {
        match spec_entry(s, slot) {
            Err(reason) => is_corrupt(r, page_id, reason),
            Ok(e) => if leaf_entry_fits(e) {
                r matches Ok(LeafScan::Entry { slot: found, key, rid }) && found == slot && key@ == spec_entry_key(e)
                    && rid == spec_leaf_rid(e)
            } else {
                is_corrupt(r, page_id, short_entry_reason(slot))
            },
        }
    }
}

/// Reads `slot` of the leaf `bytes` (page `page_id`).
pub fn scan_leaf_page(bytes: &[u8], page_id: PageId, slot: u16) -> (r: Result<LeafScan, StorageError>)
    requires
        bytes@.len() == PAGE_SIZE,
    ensures
        leaf_scan_ok(bytes@, page_id, slot, r),
{
    let count = match checked_slot_count(bytes, page_id) {
        Ok(c) => c,
        Err(e) => return Err(e),
    };
    if slot >= count {
        return Ok(LeafScan::EndOfLeaf { next_leaf_page_id: tail_raw(bytes) });
    }
    let payload = match entry_payload(bytes, slot, page_id) {
        Ok(p) => p,
        Err(e) => return Err(e),
    };
    let n = if payload.len() >= 2 {
        crate::codec::read_u16(payload, 0) as usize
    } else {
        0
    };
    if payload.len() < KEY_LEN_PREFIX + RID_TRAILER_SIZE || n > payload.len() - KEY_LEN_PREFIX - RID_TRAILER_SIZE {
        let mut reason = String::new();
        push_str(&mut reason, "slot ");
        push_decimal(&mut reason, slot as u64);
        push_str(&mut reason, "'s entry is too short for its key and record id");
        assert(reason@ =~= short_entry_reason(slot));
        return Err(StorageError::CorruptPage { page_id: page_id.0, reason });
    }
    let key = slice_to_vec(entry_key(payload));
    let rid = leaf_rid(payload);
    Ok(LeafScan::Entry { slot, key, rid })
}

/// What one step of a range scan through a leaf gives: the entry after
/// the sort key it last gave, or the end of the leaf and the next leaf.
pub enum AfterScan {
    Entry { slot: u16, key: Vec<u8>, sort_key: Vec<u8>, rid: Rid },
    EndOfLeaf { next_leaf_page_id: Option<PageId> },
}

/// `r` is what scanning leaf `s` (page `page_id`) for the entry after
/// `after` gives.
pub open spec fn after_scan_ok(
    s: Seq<u8>,
    page_id: PageId,
    after: Option<Seq<u8>>,
    r: Result<AfterScan, StorageError>,
) -> bool {
    let count = spec_slot_count(s);
    &&& count > MAX_SLOTS ==> is_corrupt(r, page_id, node_count_reason(count))
    &&& entries_readable(s) && leaf_entries_fit(s) ==> r is Ok
    &&& r matches Ok(AfterScan::EndOfLeaf { next_leaf_page_id }) ==> next_leaf_page_id == tail_of(s)
        && scan_starts_at(s, after, count as int)
    &&& r matches Ok(AfterScan::Entry { slot, key, sort_key, rid }) ==> {
        &&& slot < count
        &&& scan_starts_at(s, after, slot as int)
        &&& spec_entry(s, slot) matches Ok(e)
        &&& leaf_entry_fits(e)
        &&& key@ == spec_entry_key(e)
        &&& sort_key@ == spec_leaf_sort_key(e)
        &&& rid == spec_leaf_rid(e)
    }
}

/// One step of a range scan through the leaf `bytes` (page `page_id`):
/// the entry after `after` (from the first entry when `after` is `None`),
/// or the end of the leaf.
pub fn scan_after_page(bytes: &[u8], page_id: PageId, after: Option<&[u8]>) -> (r: Result<AfterScan, StorageError>)
    requires
        bytes@.len() == PAGE_SIZE,
    ensures
        after_scan_ok(bytes@, page_id, opt_bytes(after), r),
{
    let count = match checked_slot_count(bytes, page_id) {
        Ok(c) => c,
        Err(e) => return Err(e),
    };
    let mut slot: u16 = match after {
        Some(sort_key) => match lower_bound_leaf(bytes, sort_key, page_id) {
            Ok(s) => s,
            Err(e) => return Err(e),
        },
        None => 0,
    };
    let ghost lo = slot;
    match after {
        Some(sort_key) => {
            if slot < count {
                let payload = match entry_payload(bytes, slot, page_id) {
                    Ok(p) => p,
                    Err(e) => return Err(e),
                };
                if bytes_eq(leaf_sort_key(payload), sort_key) {
                    slot = slot + 1;
                }
            }
        },
        None => {},
    }
    if slot >= count {
        return Ok(AfterScan::EndOfLeaf { next_leaf_page_id: tail_raw(bytes) });
    }
    let payload = match entry_payload(bytes, slot, page_id) {
        Ok(p) => p,
        Err(e) => return Err(e),
    };
    let n = if payload.len() >= 2 {
        crate::codec::read_u16(payload, 0) as usize
    } else {
        0
    };
    if payload.len() < KEY_LEN_PREFIX + RID_TRAILER_SIZE || n > payload.len() - KEY_LEN_PREFIX - RID_TRAILER_SIZE {
        let mut reason = String::new();
        push_str(&mut reason, "slot ");
        push_decimal(&mut reason, slot as u64);
        push_str(&mut reason, "'s entry is too short for its key and record id");
        proof {
            assert(!leaf_entry_fits(payload@));
        }
        return Err(StorageError::CorruptPage { page_id: page_id.0, reason });
    }
    let key = slice_to_vec(entry_key(payload));
    let sort_key = slice_to_vec(leaf_sort_key(payload));
    let rid = leaf_rid(payload);
    Ok(AfterScan::Entry { slot, key, sort_key, rid })
}

pub open spec fn cycle_reason() -> Seq<char> {
    "the tree is deeper than "@ + spec_decimal(MAX_TREE_DEPTH as nat)
        + " levels: its child pointers form a cycle"@
}

/// The child the internal node `bytes` (page `page_id`) leads to for
/// `key`: the tail when every key is greater, else the child of the last
/// entry whose key is at most `key`.
fn child_for(bytes: &[u8], key: &[u8], page_id: PageId) -> (r: Result<PageId, StorageError>)
    requires
        bytes@.len() == PAGE_SIZE,
    ensures
        spec_slot_count(bytes@) > MAX_SLOTS ==> is_corrupt(r, page_id, node_count_reason(spec_slot_count(bytes@))),
        r matches Ok(c) ==> exists|lo: int|
            is_bound_at(bytes@, BoundProbe::KeyAtMost, key@, lo) && spec_child_at(bytes@, lo)
                == Ok::<PageId, Seq<char>>(c),
        entries_readable(bytes@) && entries_hold_children(bytes@) && spec_tail(bytes@) != 0 ==> r is Ok,
{
    let idx = match upper_bound(bytes, key, page_id) {
        Ok(i) => i,
        Err(e) => return Err(e),
    };
    assert(is_bound_at(bytes@, BoundProbe::KeyAtMost, key@, idx as int));
    if idx == 0 {
        match tail_raw(bytes) {
            Some(c) => {
                assert(spec_child_at(bytes@, idx as int) == Ok::<PageId, Seq<char>>(c));
                Ok(c)
            },
            None => {
                let reason = String::from_str("internal node has no tail (leftmost child) pointer");
                Err(StorageError::CorruptPage { page_id: page_id.0, reason })
            },
        }
    } else {
        let payload = match entry_payload(bytes, idx - 1, page_id) {
            Ok(p) => p,
            Err(e) => return Err(e),
        };
        let n = if payload.len() >= 2 {
            crate::codec::read_u16(payload, 0) as usize
        } else {
            0
        };
        if payload.len() < KEY_LEN_PREFIX + CHILD_TRAILER_SIZE || n > payload.len() - KEY_LEN_PREFIX - CHILD_TRAILER_SIZE {
            let mut reason = String::new();
            push_str(&mut reason, "slot ");
            push_decimal(&mut reason, (idx - 1) as u64);
            push_str(&mut reason, "'s entry is too short for its key and child page");
            return Err(StorageError::CorruptPage { page_id: page_id.0, reason });
        }
        let c = internal_child(payload);
        assert(spec_child_at(bytes@, idx as int) == Ok::<PageId, Seq<char>>(c));
        Ok(c)
    }
}

/// The record ids of the leaf's entries `start..end`.
pub open spec fn rid_run(s: Seq<u8>, start: int, end: int) -> Seq<Rid> {
    Seq::new((end - start) as nat, |j: int| spec_leaf_rid(entry_at(s, (start + j) as u16)))
}

/// The leaf's entries `start..end` all have key `key` and a record id, and
/// the entry at `end`, if any, has another key.
pub open spec fn is_key_run(s: Seq<u8>, key: Seq<u8>, start: int, end: int) -> bool {
    &&& 0 <= start <= end <= spec_slot_count(s)
    &&& forall|i: int|
        start <= i < end ==> (#[trigger] spec_entry(s, i as u16) matches Ok(e) && spec_entry_key(e) == key
            && leaf_entry_fits(e))
    &&& end == spec_slot_count(s) || (spec_entry(s, end as u16) matches Ok(e) && spec_entry_key(e) != key)
}

/// What `get` gives for `key` on a tree that is the one leaf `s`: the
/// record ids of the run of entries with key `key` that starts at the
/// first entry whose sort key is not below `key`.
pub open spec fn lone_leaf_get(s: Seq<u8>, key: Seq<u8>, v: Seq<Rid>) -> bool {
    exists|start: int, end: int|
        #![trigger is_key_run(s, key, start, end)]
        is_bound_at(s, BoundProbe::SortKeyBelow, key, start) && is_key_run(s, key, start, end) && v == rid_run(
            s,
            start,
            end,
        )
}

/// Appends to `results` the record ids of the run of entries with key
/// `key` in the leaf `bytes` (page `page_id`), starting at the first
/// entry not below `key` when `from_lower_bound`, else at the first
/// entry; says whether the run reached the end of the leaf.
fn collect_matches(
    bytes: &[u8],
    page_id: PageId,
    key: &[u8],
    from_lower_bound: bool,
    results: &mut Vec<Rid>,
) -> (r: Result<bool, StorageError>)
    requires
        bytes@.len() == PAGE_SIZE,
    ensures
        spec_slot_count(bytes@) > MAX_SLOTS ==> is_corrupt(r, page_id, node_count_reason(spec_slot_count(bytes@))),
        r matches Ok(ran_off) ==> exists|start: int, end: int|
            #![trigger is_key_run(bytes@, key@, start, end)]
            (if from_lower_bound {
                is_bound_at(bytes@, BoundProbe::SortKeyBelow, key@, start)
            } else {
                start == 0
            }) && is_key_run(bytes@, key@, start, end) && final(results)@ == old(results)@ + rid_run(
                bytes@,
                start,
                end,
            ) && ran_off == (end == spec_slot_count(bytes@)),
        entries_readable(bytes@) && leaf_entries_fit(bytes@) ==> r is Ok,
{
    let count = match checked_slot_count(bytes, page_id) {
        Ok(c) => c,
        Err(e) => return Err(e),
    };
    let mut idx: u16 = if from_lower_bound {
        match lower_bound_leaf(bytes, key, page_id) {
            Ok(i) => i,
            Err(e) => return Err(e),
        }
    } else {
        0
    };
    let ghost start = idx as int;
    let ghost base = results@;
    while idx < count
        invariant_except_break
            bytes@.len() == PAGE_SIZE,
            count == spec_slot_count(bytes@),
            count <= MAX_SLOTS,
            start <= idx <= count,
            forall|i: int|
                start <= i < idx ==> (#[trigger] spec_entry(bytes@, i as u16) matches Ok(e) && spec_entry_key(e) == key@
                    && leaf_entry_fits(e)),
            results@ == base + rid_run(bytes@, start, idx as int),
        ensures
            bytes@.len() == PAGE_SIZE,
            count == spec_slot_count(bytes@),
            start <= idx <= count,
            forall|i: int|
                start <= i < idx ==> (#[trigger] spec_entry(bytes@, i as u16) matches Ok(e) && spec_entry_key(e) == key@
                    && leaf_entry_fits(e)),
            results@ == base + rid_run(bytes@, start, idx as int),
            idx == count || (spec_entry(bytes@, idx) matches Ok(e) && spec_entry_key(e) != key@),
        decreases count - idx,
    {
        let payload = match entry_payload(bytes, idx, page_id) {
            Ok(p) => p,
            Err(e) => {
                proof {
                    assert(spec_entry(bytes@, idx) is Err);
                }
                return Err(e);
            },
        };
        if !bytes_eq(entry_key(payload), key) {
            break;
        }
        let n = if payload.len() >= 2 {
            crate::codec::read_u16(payload, 0) as usize
        } else {
            0
        };
        if payload.len() < KEY_LEN_PREFIX + RID_TRAILER_SIZE || n > payload.len() - KEY_LEN_PREFIX - RID_TRAILER_SIZE {
            let mut reason = String::new();
            push_str(&mut reason, "slot ");
            push_decimal(&mut reason, idx as u64);
            push_str(&mut reason, "'s entry is too short for its key and record id");
            return Err(StorageError::CorruptPage { page_id: page_id.0, reason });
        }
        let rid = leaf_rid(payload);
        results.push(rid);
        proof {
            assert(rid == spec_leaf_rid(entry_at(bytes@, idx)));
            assert(results@ =~= base + rid_run(bytes@, start, idx + 1));
        }
        idx = idx + 1;
    }
    assert(is_key_run(bytes@, key@, start, idx as int));
    Ok(idx == count)
}

/// The error for a descent that passed `MAX_TREE_DEPTH` internal nodes.
fn depth_error(page_id: PageId) -> (e: StorageError)
    ensures
        is_corrupt(Err::<(), StorageError>(e), page_id, cycle_reason()),
{
    let mut reason = String::new();
    push_str(&mut reason, "the tree is deeper than ");
    push_decimal(&mut reason, MAX_TREE_DEPTH as u64);
    push_str(&mut reason, " levels: its child pointers form a cycle");
    StorageError::CorruptPage { page_id: page_id.0, reason }
}

/// The largest entry an insert puts into a node list.
pub const ENTRY_BOUND: usize = 8192;

proof fn lemma_entries_bounded(entries: Seq<Vec<u8>>, n: int)
    requires
        0 <= n <= entries.len(),
        forall|i: int| 0 <= i < entries.len() ==> (#[trigger] entries[i])@.len() <= ENTRY_BOUND,
    ensures
        0 <= len_prefix(entries, n) <= n * ENTRY_BOUND,
        0 <= weight_prefix(entries, n) <= n * (ENTRY_BOUND + 4),
    decreases n,
{
    if n > 0 {
        lemma_entries_bounded(entries, n - 1);
    }
}

/// A list of entries small enough to weigh and rebuild.
proof fn lemma_entries_fit_usize(entries: Seq<Vec<u8>>)
    requires
        entries.len() <= 2048,
        forall|i: int| 0 <= i < entries.len() ==> (#[trigger] entries[i])@.len() <= ENTRY_BOUND,
    ensures
        rebuild_required(entries) <= usize::MAX,
        total_weight(entries) <= usize::MAX,
{
    lemma_entries_bounded(entries, entries.len() as int);
    assert(entries.len() * ENTRY_BOUND <= 2048 * ENTRY_BOUND) by (nonlinear_arith)
        requires entries.len() <= 2048;
    assert(entries.len() * (ENTRY_BOUND + 4) <= 2048 * (ENTRY_BOUND + 4)) by (nonlinear_arith)
        requires entries.len() <= 2048;
}

proof fn lemma_entry_at_len(s: Seq<u8>, i: u16)
    ensures
        entry_at(s, i).len() <= s.len(),
{
}

/// Inserts `payload` into node `page_id` where a search for `search_key`
/// puts it, when it fits; says whether it did.
fn insert_into_node<D: BlockDevice, W: BlockDevice, S: SegmentStore>(
    pool: &mut BufferPool<D, W, S>,
    page_id: PageId,
    txn_id: TxnId,
    search_key: &[u8],
    payload: &[u8],
) -> (r: Result<bool, StorageError>)
    requires
        old(pool).inv(),
    ensures
        final(pool).inv(),
        final(pool).frames().len() == old(pool).frames().len(),
        final(pool).spec_disk().spec_page_size() == old(pool).spec_disk().spec_page_size(),
        final(pool).spec_disk().next_page_id() == old(pool).spec_disk().next_page_id(),
        r is Ok && old(pool).frame_of_spec(page_id) is Some ==> node_insert_done(
            cached_bytes(*old(pool), page_id),
            search_key@,
            payload@,
            r->Ok_0,
            *final(pool),
            page_id,
        ),
        old(pool).pinnable(page_id) && !node_fits(cached_bytes(*old(pool), page_id), payload@.len() as int) ==> r
            == Ok::<bool, StorageError>(false),
        old(pool).pinnable(page_id) && commit_log_room(old(pool).spec_log().view()) && entries_readable(
            cached_bytes(*old(pool), page_id),
        ) ==> r is Ok,
{
    let frame = match pool.fetch_page(page_id) {
        Ok(f) => f,
        Err(e) => return Err(e),
    };
    let ghost f0 = pool.frames()[frame.0 as int].page.bytes();
    let mut node = BTreeNode::new(Page::from_bytes(page_id, pool.page(frame).data()), txn_id);
    proof {
        pool.frames()[frame.0 as int].page.lemma_len();
    }
    if !node.will_fit(payload.len()) {
        pool.unpin(frame);
        return Ok(false);
    }
    let idx = match node.find_insert_index(search_key) {
        Ok(i) => i,
        Err(e) => {
            pool.unpin(frame);
            return Err(e);
        },
    };
    node.insert_at(idx, payload);
    let page = node.into_page();
    let written = commit_node(pool, frame, txn_id, &page);
    pool.unpin(frame);
    proof {
        pool.lemma_frame_accounting();
        if written is Ok {
            assert(is_bound_at(f0, insert_probe(f0), search_key@, idx as int));
            assert(is_node_insert(f0, page.bytes(), idx as int, payload@));
        }
    }
    match written {
        Ok(()) => Ok(true),
        Err(e) => Err(e),
    }
}

/// The probe a search for where an entry goes uses in node `s`.
pub open spec fn insert_probe(s: Seq<u8>) -> BoundProbe {
    if spec_is_internal(s) {
        BoundProbe::KeyAtMost
    } else {
        BoundProbe::SortKeyAtMost
    }
}

/// Whether an entry of `n` bytes fits in node `s` with one more slot.
pub open spec fn node_fits(s: Seq<u8>, n: int) -> bool {
    spec_slot_offset(spec_slot_count(s) + 1) + n <= spec_data_start(s)
}

/// What an attempt to insert `payload` into node `s`, page `page_id`,
/// did: it said whether the payload fits, and when it did, the node the
/// pool now caches is `s` with the payload inserted where a search for
/// `search_key` ends.
pub open spec fn node_insert_done<D: BlockDevice, W: BlockDevice, S: SegmentStore>(
    s: Seq<u8>,
    search_key: Seq<u8>,
    payload: Seq<u8>,
    inserted: bool,
    pool: BufferPool<D, W, S>,
    page_id: PageId,
) -> bool {
    &&& inserted == node_fits(s, payload.len() as int)
    &&& inserted ==> pool.frame_of_spec(page_id) is Some && exists|idx: int, t: Seq<u8>|
        #![trigger is_node_insert(s, t, idx, payload)]
        is_bound_at(s, insert_probe(s), search_key, idx) && is_node_insert(s, t, idx, payload) && same_node(
            cached_bytes(pool, page_id),
            t,
        )
}

/// `c` holds, past its checksum and LSN, node `s` rebuilt with the given
/// kind, tail and entries.
pub open spec fn holds_rebuilt(
    s: Seq<u8>,
    c: Seq<u8>,
    is_internal: bool,
    tail: Option<PageId>,
    entries: Seq<Vec<u8>>,
) -> bool {
    exists|t: Seq<u8>|
        #![trigger is_rebuilt_node(s, t, is_internal, tail, entries)]
        is_rebuilt_node(s, t, is_internal, tail, entries) && same_node(c, t)
}

/// Rebuilds node `page_id` as a node of the given kind, tail and entries.
fn rebuild_node<D: BlockDevice, W: BlockDevice, S: SegmentStore>(
    pool: &mut BufferPool<D, W, S>,
    page_id: PageId,
    txn_id: TxnId,
    is_internal: bool,
    tail: Option<PageId>,
    entries: &[Vec<u8>],
) -> (r: Result<(), StorageError>)
    requires
        old(pool).inv(),
        rebuild_required(entries@) <= usize::MAX,
    ensures
        final(pool).inv(),
        final(pool).frames().len() == old(pool).frames().len(),
        final(pool).spec_disk().spec_page_size() == old(pool).spec_disk().spec_page_size(),
        final(pool).spec_disk().next_page_id() == old(pool).spec_disk().next_page_id(),
        r is Ok ==> final(pool).frame_of_spec(page_id) is Some && holds_rebuilt(
            final(pool).fetched_bytes(*old(pool), page_id),
            cached_bytes(*final(pool), page_id),
            is_internal,
            tail,
            entries@,
        ),
        rebuild_required(entries@) > NODE_CAPACITY ==> r is Err,
        old(pool).pinnable(page_id) && commit_log_room(old(pool).spec_log().view()) && rebuild_required(entries@)
            <= NODE_CAPACITY ==> r is Ok,
{
    let frame = match pool.fetch_page(page_id) {
        Ok(f) => f,
        Err(e) => return Err(e),
    };
    let mut node = BTreeNode::new(Page::from_bytes(page_id, pool.page(frame).data()), txn_id);
    proof {
        pool.frames()[frame.0 as int].page.lemma_len();
    }
    let ghost s0 = node.bytes();
    match node.rebuild(is_internal, tail, entries) {
        Ok(()) => {},
        Err(e) => {
            pool.unpin(frame);
            return Err(e);
        },
    }
    let page = node.into_page();
    let written = commit_node(pool, frame, txn_id, &page);
    pool.unpin(frame);
    proof {
        if written is Ok {
            assert(is_rebuilt_node(s0, page.bytes(), is_internal, tail, entries@));
            assert(same_node(cached_bytes(*pool, page_id), page.bytes()));
        }
    }
    written
}

/// Allocates a page and builds a node of the given kind, tail and entries
/// in it.
fn new_node<D: BlockDevice, W: BlockDevice, S: SegmentStore>(
    pool: &mut BufferPool<D, W, S>,
    txn_id: TxnId,
    is_internal: bool,
    tail: Option<PageId>,
    entries: &[Vec<u8>],
) -> (r: Result<PageId, StorageError>)
    requires
        old(pool).inv(),
        old(pool).spec_disk().next_page_id() < u32::MAX,
        rebuild_required(entries@) <= usize::MAX,
    ensures
        final(pool).inv(),
        final(pool).frames().len() == old(pool).frames().len(),
        final(pool).spec_disk().spec_page_size() == old(pool).spec_disk().spec_page_size(),
        final(pool).spec_disk().next_page_id() <= old(pool).spec_disk().next_page_id() + 1,
        old(pool).spec_disk().next_page_id() <= final(pool).spec_disk().next_page_id(),
        (r is Ok || !old(pool).poisoned()) ==> final(pool).spec_disk().next_page_id() == old(pool).spec_disk().next_page_id() + 1,
        r matches Ok(p) ==> p.0 == old(pool).spec_disk().next_page_id(),
{
    let (page_id, frame) = match pool.new_page(txn_id) {
        Ok(p) => p,
        Err(e) => return Err(e),
    };
    let mut node = BTreeNode::new(Page::from_bytes(page_id, pool.page(frame).data()), txn_id);
    proof {
        pool.frames()[frame.0 as int].page.lemma_len();
    }
    match node.rebuild(is_internal, tail, entries) {
        Ok(()) => {},
        Err(e) => {
            pool.unpin(frame);
            return Err(e);
        },
    }
    let page = node.into_page();
    let written = commit_node(pool, frame, txn_id, &page);
    pool.unpin(frame);
    match written {
        Ok(()) => Ok(page_id),
        Err(e) => Err(e),
    }
}

/// The items of the debug form of a byte list, over its first `n` bytes:
/// `1, 2, 3`.
pub open spec fn byte_items(b: Seq<u8>, n: int) -> Seq<char>
    decreases n,
{
    if n <= 0 {
        Seq::empty()
    } else if n == 1 {
        spec_decimal(b[0] as nat)
    } else {
        byte_items(b, n - 1) + ", "@ + spec_decimal(b[n - 1] as nat)
    }
}

/// The debug form of a byte list: `[1, 2, 3]`.
pub open spec fn byte_list_text(b: Seq<u8>) -> Seq<char> {
    "["@ + byte_items(b, b.len() as int) + "]"@
}

fn push_byte_list(out: &mut String, b: &[u8])
    ensures
        final(out)@ == old(out)@ + byte_list_text(b@),
{
    push_str(out, "[");
    let mut i: usize = 0;
    while i < b.len()
        invariant
            i <= b@.len(),
            out@ == old(out)@ + "["@ + byte_items(b@, i as int),
        decreases b@.len() - i,
    {
        if i > 0 {
            push_str(out, ", ");
        }
        push_decimal(out, b[i] as u64);
        proof {
            if i == 0 {
                assert(byte_items(b@, 1) == spec_decimal(b@[0] as nat));
                assert(out@ =~= old(out)@ + "["@ + byte_items(b@, 1));
            } else {
                assert(out@ =~= old(out)@ + "["@ + byte_items(b@, i + 1));
            }
        }
        i = i + 1;
    }
    push_str(out, "]");
    assert(out@ =~= old(out)@ + byte_list_text(b@));
}

/// The items of the debug form of a list of page ids, over its first `n`
/// ids: `PageId(1), PageId(2)`.
pub open spec fn page_items(ids: Seq<PageId>, n: int) -> Seq<char>
    decreases n,
{
    if n <= 0 {
        Seq::empty()
    } else if n == 1 {
        "PageId("@ + spec_decimal(ids[0].0 as nat) + ")"@
    } else {
        page_items(ids, n - 1) + ", PageId("@ + spec_decimal(ids[n - 1].0 as nat) + ")"@
    }
}

pub open spec fn page_list_text(ids: Seq<PageId>) -> Seq<char> {
    "["@ + page_items(ids, ids.len() as int) + "]"@
}

fn push_page_list(out: &mut String, ids: &[PageId])
    ensures
        final(out)@ == old(out)@ + page_list_text(ids@),
{
    push_str(out, "[");
    let mut i: usize = 0;
    while i < ids.len()
        invariant
            i <= ids@.len(),
            out@ == old(out)@ + "["@ + page_items(ids@, i as int),
        decreases ids@.len() - i,
    {
        if i > 0 {
            push_str(out, ", PageId(");
        } else {
            push_str(out, "PageId(");
        }
        push_decimal(out, ids[i].0 as u64);
        push_str(out, ")");
        proof {
            assert(out@ =~= old(out)@ + "["@ + page_items(ids@, i + 1));
        }
        i = i + 1;
    }
    push_str(out, "]");
    assert(out@ =~= old(out)@ + page_list_text(ids@));
}

/// `page N: ` and the text of `e`.
pub open spec fn page_error_text(page_id: PageId, e: StorageError) -> Seq<char> {
    "page "@ + spec_decimal(page_id.0 as nat) + ": "@ + storage_message(e)
}

fn page_error(page_id: PageId, e: &StorageError) -> (m: String)
    ensures
        m@ == page_error_text(page_id, *e),
{
    let mut out = String::new();
    push_str(&mut out, "page ");
    push_decimal(&mut out, page_id.0 as u64);
    push_str(&mut out, ": ");
    let text = e.message();
    push_str(&mut out, text.as_str());
    assert(out@ =~= page_error_text(page_id, *e));
    out
}

/// The key a node orders entry `i` by: its sort key in a leaf, its key in
/// an internal node.
pub open spec fn node_key(s: Seq<u8>, i: int) -> Seq<u8> {
    if spec_is_internal(s) {
        spec_entry_key(entry_at(s, i as u16))
    } else {
        spec_leaf_sort_key(entry_at(s, i as u16))
    }
}

/// The entry lengths the first `n` slots record, summed.
pub open spec fn len_sum(s: Seq<u8>, n: int) -> int
    decreases n,
{
    if n <= 0 {
        0
    } else {
        len_sum(s, n - 1) + spec_entry_len(s, n - 1)
    }
}

/// Entry `i`'s key is below entry `i + 1`'s.
pub open spec fn keys_ascend_at(s: Seq<u8>, i: int) -> bool {
    lex_lt(node_key(s, i), node_key(s, i + 1))
}

/// Entry `i`'s key lies in `[low, high)`, each bound when given.
pub open spec fn key_in_bounds(s: Seq<u8>, i: int, low: Option<Seq<u8>>, high: Option<Seq<u8>>) -> bool {
    &&& (low matches Some(l) ==> !lex_lt(node_key(s, i), l))
    &&& (high matches Some(h) ==> lex_lt(node_key(s, i), h))
}

/// A node the check of a tree accepts under the bounds it inherits: every
/// entry lies in the page clear of the slot array, the data in use is the
/// sum of the entry lengths, keys rise strictly in slot order and lie in
/// `[low, high)`, and an internal node has a leftmost child and a child in
/// every entry.
pub open spec fn node_checks_out(s: Seq<u8>, low: Option<Seq<u8>>, high: Option<Seq<u8>>) -> bool {
    let count = spec_slot_count(s) as int;
    &&& entries_readable(s)
    &&& len_sum(s, count) == spec_data_used(s)
    &&& forall|i: int| 0 <= i < count - 1 ==> #[trigger] keys_ascend_at(s, i)
    &&& forall|i: int| 0 <= i < count ==> #[trigger] key_in_bounds(s, i, low, high)
    &&& spec_is_internal(s) ==> spec_tail(s) != 0 && entries_hold_children(s)
}

/// The key a node of the given kind orders `payload` by: its key in an
/// internal node, its sort key in a leaf.
pub open spec fn kind_key(is_internal: bool, payload: Seq<u8>) -> Seq<u8> {
    if is_internal {
        spec_entry_key(payload)
    } else {
        spec_leaf_sort_key(payload)
    }
}

/// Entry `i`'s key is below entry `i + 1`'s.
pub open spec fn ascends_at(is_internal: bool, entries: Seq<Vec<u8>>, i: int) -> bool {
    lex_lt(kind_key(is_internal, entries[i]@), kind_key(is_internal, entries[i + 1]@))
}

/// The keys of `entries` rise strictly.
pub open spec fn ascending(is_internal: bool, entries: Seq<Vec<u8>>) -> bool {
    forall|i: int| 0 <= i < entries.len() - 1 ==> #[trigger] ascends_at(is_internal, entries, i)
}

/// Every key of `entries` lies in `[low, high)`, each bound when given.
pub open spec fn within(is_internal: bool, entries: Seq<Vec<u8>>, low: Option<Seq<u8>>, high: Option<Seq<u8>>) -> bool {
    forall|i: int|
        0 <= i < entries.len() ==> {
            &&& (low matches Some(l) ==> !lex_lt(#[trigger] kind_key(is_internal, entries[i]@), l))
            &&& (high matches Some(h) ==> lex_lt(kind_key(is_internal, entries[i]@), h))
        }
}

/// Every entry has room for its key and a child page.
pub open spec fn carry_children(entries: Seq<Vec<u8>>) -> bool {
    forall|i: int|
        0 <= i < entries.len() ==> (#[trigger] entries[i])@.len() >= KEY_LEN_PREFIX && KEY_LEN_PREFIX
            + spec_key_len(entries[i]@) + CHILD_TRAILER_SIZE <= entries[i]@.len()
}

/// Bytewise order is total.
pub proof fn lemma_lex_total(a: Seq<u8>, b: Seq<u8>)
    ensures
        lex_le(a, b) || lex_le(b, a),
    decreases a.len(),
{
    if a.len() > 0 && b.len() > 0 && a[0] == b[0] {
        lemma_lex_total(a.subrange(1, a.len() as int), b.subrange(1, b.len() as int));
    }
}

/// Strict bytewise order is transitive.
pub proof fn lemma_lex_lt_transitive(a: Seq<u8>, b: Seq<u8>, c: Seq<u8>)
    requires
        lex_lt(a, b),
        lex_lt(b, c),
    ensures
        lex_lt(a, c),
{
    lemma_lex_le_transitive(a, b, c);
    if a == c {
        lemma_lex_le_antisymmetric(a, b);
    }
}

/// In a strictly rising list every earlier key is below every later one.
pub proof fn lemma_ascending_pairs(is_internal: bool, entries: Seq<Vec<u8>>, i: int, j: int)
    requires
        ascending(is_internal, entries),
        0 <= i < j < entries.len(),
    ensures
        lex_lt(kind_key(is_internal, entries[i]@), kind_key(is_internal, entries[j]@)),
    decreases j - i,
{
    assert(ascends_at(is_internal, entries, j - 1));
    if i < j - 1 {
        lemma_ascending_pairs(is_internal, entries, i, j - 1);
        lemma_lex_lt_transitive(
            kind_key(is_internal, entries[i]@),
            kind_key(is_internal, entries[j - 1]@),
            kind_key(is_internal, entries[j]@),
        );
    }
}

/// Splitting a strictly rising list at `mid` puts every key before `mid`
/// below the key at `mid` and every key after it above: the key pushed up
/// to the parent separates the two halves.
pub proof fn lemma_split_separates(is_internal: bool, entries: Seq<Vec<u8>>, mid: int)
    requires
        ascending(is_internal, entries),
        0 <= mid < entries.len(),
    ensures
        forall|i: int| 0 <= i < mid ==> lex_lt(#[trigger] kind_key(is_internal, entries[i]@), kind_key(is_internal, entries[mid]@)),
        forall|i: int|
            mid < i < entries.len() ==> lex_lt(kind_key(is_internal, entries[mid]@), #[trigger] kind_key(is_internal, entries[i]@)),
        ascending(is_internal, entries.subrange(0, mid)),
        ascending(is_internal, entries.subrange(mid, entries.len() as int)),
        ascending(is_internal, entries.subrange(mid + 1, entries.len() as int)),
{
    assert forall|i: int| 0 <= i < mid implies lex_lt(#[trigger] kind_key(is_internal, entries[i]@), kind_key(is_internal, entries[mid]@)) by {
        lemma_ascending_pairs(is_internal, entries, i, mid);
    }
    assert forall|i: int| mid < i < entries.len() implies lex_lt(kind_key(is_internal, entries[mid]@), #[trigger] kind_key(is_internal, entries[i]@)) by {
        lemma_ascending_pairs(is_internal, entries, mid, i);
    }
    let l = entries.subrange(0, mid);
    assert forall|i: int| 0 <= i < l.len() - 1 implies #[trigger] ascends_at(is_internal, l, i) by {
        assert(ascends_at(is_internal, entries, i));
    }
    let r = entries.subrange(mid, entries.len() as int);
    assert forall|i: int| 0 <= i < r.len() - 1 implies #[trigger] ascends_at(is_internal, r, i) by {
        assert(ascends_at(is_internal, entries, mid + i));
    }
    let r1 = entries.subrange(mid + 1, entries.len() as int);
    assert forall|i: int| 0 <= i < r1.len() - 1 implies #[trigger] ascends_at(is_internal, r1, i) by {
        assert(ascends_at(is_internal, entries, mid + 1 + i));
    }
}

/// Putting a payload whose sort key is new where the search for its sort
/// key ends keeps a leaf's entries strictly rising.
pub proof fn lemma_insert_keeps_ascending(entries: Seq<Vec<u8>>, at: int, payload: Vec<u8>)
    requires
        ascending(false, entries),
        is_bound_in(entries, BoundProbe::SortKeyAtMost, spec_leaf_sort_key(payload@), at),
        forall|i: int| 0 <= i < entries.len() ==> #[trigger] kind_key(false, entries[i]@) != spec_leaf_sort_key(payload@),
    ensures
        ascending(false, entries.insert(at, payload)),
{
    let t = entries.insert(at, payload);
    let k = spec_leaf_sort_key(payload@);
    assert forall|i: int| 0 <= i < t.len() - 1 implies #[trigger] ascends_at(false, t, i) by {
        if i < at - 1 {
            assert(ascends_at(false, entries, i));
        } else if i == at - 1 {
            assert(t[i] == entries[at - 1]);
            assert(kind_key(false, entries[at - 1]@) != k);
        } else if i == at {
            assert(t[i + 1] == entries[at]);
            let e = kind_key(false, entries[at]@);
            assert(!lex_le(e, k));
            lemma_lex_total(e, k);
        } else {
            assert(t[i] == entries[i - 1]);
            assert(t[i + 1] == entries[i]);
            assert(ascends_at(false, entries, i - 1));
        }
    }
}

/// The entry lengths a rebuilt node records add up to its entries'.
proof fn lemma_rebuilt_len_sum(t: Seq<u8>, entries: Seq<Vec<u8>>, n: int)
    requires
        0 <= n <= entries.len(),
        forall|i: int| 0 <= i < entries.len() ==> #[trigger] spec_entry_len(t, i) == entries[i]@.len(),
    ensures
        len_sum(t, n) == len_prefix(entries, n),
    decreases n,
{
    if n > 0 {
        lemma_rebuilt_len_sum(t, entries, n - 1);
    }
}

/// A node rebuilt from entries whose keys rise strictly and lie in
/// `[low, high)` (an internal node with a leftmost child and a child in
/// every entry) passes the check under those bounds.
pub proof fn lemma_rebuilt_node_checks_out(
    s: Seq<u8>,
    t: Seq<u8>,
    is_internal: bool,
    tail: Option<PageId>,
    entries: Seq<Vec<u8>>,
    low: Option<Seq<u8>>,
    high: Option<Seq<u8>>,
)
    requires
        rebuild_required(entries) <= NODE_CAPACITY,
        is_rebuilt_node(s, t, is_internal, tail, entries),
        ascending(is_internal, entries),
        within(is_internal, entries, low, high),
        is_internal ==> (tail matches Some(p) && p.0 != 0),
        is_internal ==> carry_children(entries),
    ensures
        node_checks_out(t, low, high),
{
    lemma_rebuilt_entries(s, t, is_internal, tail, entries);
    let n = entries.len() as int;
    assert forall|i: int| 0 <= i < n implies #[trigger] node_key(t, i) == kind_key(is_internal, entries[i]@) by {
        assert(entry_at(t, i as u16) == entries[i]@);
    }
    assert forall|i: int| 0 <= i < n - 1 implies #[trigger] keys_ascend_at(t, i) by {
        assert(ascends_at(is_internal, entries, i));
        assert(node_key(t, i) == kind_key(is_internal, entries[i]@));
        assert(node_key(t, i + 1) == kind_key(is_internal, entries[i + 1]@));
    }
    assert forall|i: int| 0 <= i < n implies #[trigger] key_in_bounds(t, i, low, high) by {
        assert(node_key(t, i) == kind_key(is_internal, entries[i]@));
    }
    assert forall|i: int| 0 <= i < entries.len() implies #[trigger] spec_entry_len(t, i) == entries[i]@.len() by {
        let _o = spec_entry_offset(t, i);
    }
    lemma_rebuilt_len_sum(t, entries, n);
    if is_internal {
        assert forall|i: u16| i < spec_slot_count(t) implies (#[trigger] spec_entry(t, i) matches Ok(e) ==> e.len() >= KEY_LEN_PREFIX
            && KEY_LEN_PREFIX + spec_key_len(e) + CHILD_TRAILER_SIZE <= e.len()) by {
            assert(entry_at(t, i) == entries[i as int]@);
        }
    }
}

/// When two strings of one length differ, what follows them does not
/// change their order.
pub proof fn lemma_lex_concat(a: Seq<u8>, x: Seq<u8>, b: Seq<u8>, y: Seq<u8>)
    requires
        a.len() == b.len(),
        a != b,
    ensures
        lex_le(a + x, b + y) == lex_le(a, b),
    decreases a.len(),
{
    if a.len() == 0 {
        assert(a =~= b);
    } else if a[0] == b[0] {
        let ta = a.subrange(1, a.len() as int);
        let tb = b.subrange(1, b.len() as int);
        if ta == tb {
            assert(a =~= seq![a[0]] + ta);
            assert(b =~= seq![b[0]] + tb);
        }
        lemma_lex_concat(ta, x, tb, y);
        assert((a + x).subrange(1, (a + x).len() as int) =~= ta + x);
        assert((b + y).subrange(1, (b + y).len() as int) =~= tb + y);
    }
}

/// A string sorts at or before anything it begins.
pub proof fn lemma_lex_prefix(a: Seq<u8>, x: Seq<u8>)
    ensures
        lex_le(a, a + x),
    decreases a.len(),
{
    if a.len() > 0 {
        let ta = a.subrange(1, a.len() as int);
        lemma_lex_prefix(ta, x);
        assert((a + x).subrange(1, (a + x).len() as int) =~= ta + x);
    }
}

/// Strictly rising keys: each below the next.
pub open spec fn rising(keys: Seq<Seq<u8>>) -> bool {
    forall|i: int| 0 <= i < keys.len() - 1 ==> lex_lt(#[trigger] keys[i], keys[i + 1])
}

/// In strictly rising keys every earlier key is below every later one.
pub proof fn lemma_rising_pairs(keys: Seq<Seq<u8>>, i: int, j: int)
    requires
        rising(keys),
        0 <= i < j < keys.len(),
    ensures
        lex_lt(keys[i], keys[j]),
    decreases j - i,
{
    assert(lex_lt(keys[j - 1], keys[j]));
    if i < j - 1 {
        lemma_rising_pairs(keys, i, j - 1);
        lemma_lex_lt_transitive(keys[i], keys[j - 1], keys[j]);
    }
}

/// Strictly rising keys are sorted.
pub proof fn lemma_rising_sorted(keys: Seq<Seq<u8>>)
    requires
        rising(keys),
    ensures
        keys_sorted(keys),
{
    assert forall|i: int, j: int| 0 <= i <= j < keys.len() implies lex_le(#[trigger] keys[i], #[trigger] keys[j]) by {
        if i < j {
            lemma_rising_pairs(keys, i, j);
        } else {
            lemma_lex_total(keys[i], keys[i]);
        }
    }
}

/// Every entry of node `s` has a key of `n` bytes.
pub open spec fn keys_of_length(s: Seq<u8>, n: int) -> bool {
    forall|i: u16| i < spec_slot_count(s) ==> (#[trigger] spec_entry_key(entry_at(s, i))).len() == n
}

/// The record id read back from a built leaf entry is the one it was
/// built with.
proof fn lemma_leaf_payload_rid(key: Seq<u8>, rid: Rid)
    requires
        key.len() <= MAX_KEY_SIZE,
    ensures
        leaf_entry_fits(spec_leaf_payload(key, rid)),
        spec_leaf_rid(spec_leaf_payload(key, rid)) == rid,
{
    lemma_auto_spec_u16_to_from_le_bytes();
    lemma_auto_spec_u32_to_from_le_bytes();
    let p = spec_leaf_payload(key, rid);
    let n = key.len() as int;
    assert(p.subrange(0, 2) =~= spec_u16_to_le_bytes(key.len() as u16));
    assert(spec_key_len(p) == n);
    assert(p.subrange(2 + n, 2 + n + 4) =~= spec_u32_to_le_bytes(rid.page_id.0));
    assert(p.subrange(2 + n + 4, 2 + n + 6) =~= spec_u16_to_le_bytes(rid.slot));
}

/// A leaf entry's sort key is its key followed by the six bytes of its
/// record id.
proof fn lemma_sort_key_split(e: Seq<u8>)
    requires
        leaf_entry_fits(e),
    ensures
        spec_leaf_sort_key(e) == spec_entry_key(e) + e.subrange(
            KEY_LEN_PREFIX + spec_key_len(e),
            KEY_LEN_PREFIX + spec_key_len(e) + RID_TRAILER_SIZE,
        ),
{
    let n = spec_key_len(e);
    assert(spec_leaf_sort_key(e) =~= spec_entry_key(e) + e.subrange(2 + n, 2 + n + 6));
}

/// Keys of one length that differ keep their order whatever follows:
/// a key at or below `k + r` and `k + r` below `key + x` leaves `k` equal
/// to `key`.
proof fn lemma_squeezed_key(key: Seq<u8>, x: Seq<u8>, k: Seq<u8>, r: Seq<u8>)
    requires
        k.len() == key.len(),
        lex_le(key, k + r),
        lex_le(k + r, key + x),
    ensures
        k == key,
{
    if k != key {
        lemma_lex_concat(key, Seq::<u8>::empty(), k, r);
        assert(key + Seq::<u8>::empty() =~= key);
        lemma_lex_concat(k, r, key, x);
        lemma_lex_le_antisymmetric(key, k);
    }
}

/// Inserting an entry whose sort key is new where the search for it ends
/// keeps a leaf's sort keys strictly rising.
proof fn lemma_inserted_leaf_rising(r: Seq<u8>, t: Seq<u8>, idx: int, p: Seq<u8>)
    requires
        node_well_formed(r),
        entries_readable(r),
        !spec_is_internal(r),
        rising(node_keys(r, BoundProbe::SortKeyBelow)),
        !node_keys(r, BoundProbe::SortKeyBelow).contains(spec_leaf_sort_key(p)),
        is_bound_at(r, BoundProbe::SortKeyAtMost, spec_leaf_sort_key(p), idx),
        node_fits(r, p.len() as int),
        is_node_insert(r, t, idx, p),
    ensures
        entries_readable(t),
        spec_slot_count(t) == spec_slot_count(r) + 1,
        entry_at(t, idx as u16) == p,
        forall|j: u16| j < idx ==> #[trigger] entry_at(t, j) == entry_at(r, j),
        rising(node_keys(t, BoundProbe::SortKeyBelow)),
{
    let sk = spec_leaf_sort_key(p);
    lemma_insert_at_entries(r, t, idx, p);
    let kr = node_keys(r, BoundProbe::SortKeyBelow);
    let kt = node_keys(t, BoundProbe::SortKeyBelow);
    assert forall|i: int| 0 <= i < kt.len() - 1 implies lex_lt(#[trigger] kt[i], kt[i + 1]) by {
        if i + 1 < idx {
            assert(kt[i] == kr[i]);
            assert(kt[i + 1] == kr[i + 1]);
            assert(lex_lt(kr[i], kr[i + 1]));
        } else if i + 1 == idx {
            assert(kt[i] == kr[i]);
            assert(kt[i + 1] == sk);
            assert(kr.contains(kr[i]));
        } else if i == idx {
            assert(kt[i] == sk);
            assert(entry_at(t, (i + 1) as u16) == entry_at(r, i as u16));
            assert(kt[i + 1] == kr[i]);
            lemma_lex_total(kr[i], sk);
            assert(kr.contains(kr[i]));
        } else {
            assert(entry_at(t, i as u16) == entry_at(r, (i - 1) as u16));
            assert(entry_at(t, (i + 1) as u16) == entry_at(r, i as u16));
            assert(kt[i] == kr[i - 1]);
            assert(kt[i + 1] == kr[i]);
            assert(lex_lt(kr[i - 1], kr[i]));
        }
    }
}

/// In a leaf whose sort keys rise strictly, the run a `get` of `key`
/// collects covers every entry with key `key` whose entries before it have
/// keys of `key`'s length: entry `idx` among them.
#[verifier::spinoff_prover]
#[verifier::rlimit(40)]
proof fn lemma_run_covers(
    c: Seq<u8>,
    key: Seq<u8>,
    rid: Rid,
    idx: int,
    start: int,
    end: int,
    v: Seq<Rid>,
)
    requires
        entries_readable(c),
        rising(node_keys(c, BoundProbe::SortKeyBelow)),
        key.len() <= MAX_KEY_SIZE,
        0 <= idx < spec_slot_count(c),
        entry_at(c, idx as u16) == spec_leaf_payload(key, rid),
        forall|j: u16| j < idx ==> leaf_entry_fits(#[trigger] entry_at(c, j)) && spec_entry_key(entry_at(c, j)).len() == key.len(),
        is_bound_at(c, BoundProbe::SortKeyBelow, key, start),
        is_key_run(c, key, start, end),
        v == rid_run(c, start, end),
    ensures
        v.contains(rid),
{
    let p = spec_leaf_payload(key, rid);
    let sk = spec_leaf_sort_key(p);
    lemma_leaf_payload_keys(key, rid);
    lemma_leaf_payload_rid(key, rid);
    let kc = node_keys(c, BoundProbe::SortKeyBelow);
    lemma_rising_sorted(kc);
    lemma_node_bound_partitions(c, BoundProbe::SortKeyBelow, key, start);
    let tail = sk.subrange(key.len() as int, sk.len() as int);
    assert(key + tail =~= sk);
    lemma_lex_prefix(key, tail);
    if idx < start {
        assert(probe_holds(BoundProbe::SortKeyBelow, entry_at(c, idx as u16), key));
        lemma_lex_le_antisymmetric(key, sk);
    }
    if end <= idx {
        if end < idx {
            let e = entry_at(c, end as u16);
            assert(leaf_entry_fits(e));
            lemma_sort_key_split(e);
            let n = spec_key_len(e);
            let ke = spec_entry_key(e);
            assert(!probe_holds(BoundProbe::SortKeyBelow, e, key));
            lemma_lex_total(spec_leaf_sort_key(e), key);
            if lex_le(spec_leaf_sort_key(e), key) {
                lemma_lex_le_antisymmetric(spec_leaf_sort_key(e), key);
            }
            assert(kc[end] == spec_leaf_sort_key(e));
            assert(kc[idx] == sk);
            lemma_rising_pairs(kc, end, idx);
            lemma_squeezed_key(key, tail, ke, e.subrange(2 + n, 2 + n + 6));
        }
    }
    assert(v[idx - start] == rid);
}

/// A read gives back what a write wrote, for a tree of one leaf: after an
/// entry for `key` and `rid` goes into a leaf with room whose entries have
/// keys of `key`'s length and strictly rising sort keys (none equal to the
/// new one), the node the pool caches is still a lone leaf, and a `get` of
/// `key` on it gives `rid` among its results.
pub proof fn lemma_lone_leaf_insert_then_get(r: Seq<u8>, c: Seq<u8>, key: Seq<u8>, rid: Rid, v: Seq<Rid>)
    requires
        is_lone_leaf(r),
        node_well_formed(r),
        entries_readable(r),
        leaf_entries_fit(r),
        rising(node_keys(r, BoundProbe::SortKeyBelow)),
        keys_of_length(r, key.len() as int),
        !node_keys(r, BoundProbe::SortKeyBelow).contains(spec_leaf_sort_key(spec_leaf_payload(key, rid))),
        key.len() <= MAX_KEY_SIZE,
        node_fits(r, spec_leaf_payload(key, rid).len() as int),
        exists|idx: int, t: Seq<u8>|
            #![trigger is_node_insert(r, t, idx, spec_leaf_payload(key, rid))]
            is_bound_at(r, BoundProbe::SortKeyAtMost, spec_leaf_sort_key(spec_leaf_payload(key, rid)), idx)
                && is_node_insert(r, t, idx, spec_leaf_payload(key, rid)) && same_node(c, t),
    ensures
        is_lone_leaf(c),
        lone_leaf_get(c, key, v) ==> v.contains(rid),
{
    let p = spec_leaf_payload(key, rid);
    let (idx, t) = choose|idx: int, t: Seq<u8>|
        #![trigger is_node_insert(r, t, idx, spec_leaf_payload(key, rid))]
        is_bound_at(r, BoundProbe::SortKeyAtMost, spec_leaf_sort_key(spec_leaf_payload(key, rid)), idx)
            && is_node_insert(r, t, idx, spec_leaf_payload(key, rid)) && same_node(c, t);
    lemma_inserted_leaf_rising(r, t, idx, p);
    lemma_same_node_reads(t, c);
    assert(t[12] == r[12]);
    let kt = node_keys(t, BoundProbe::SortKeyBelow);
    let kc = node_keys(c, BoundProbe::SortKeyBelow);
    assert forall|i: int| 0 <= i < kc.len() implies #[trigger] kc[i] == kt[i] by {
        assert(spec_entry(c, i as u16) == spec_entry(t, i as u16));
    }
    assert(kc =~= kt);
    if lone_leaf_get(c, key, v) {
        let (start, end) = choose|start: int, end: int|
            #![trigger is_key_run(c, key, start, end)]
            is_bound_at(c, BoundProbe::SortKeyBelow, key, start) && is_key_run(c, key, start, end) && v == rid_run(
                c,
                start,
                end,
            );
        assert(spec_entry(c, idx as u16) == spec_entry(t, idx as u16));
        assert forall|j: u16| j < idx implies leaf_entry_fits(#[trigger] entry_at(c, j)) && spec_entry_key(entry_at(c, j)).len()
            == key.len() by {
            assert(spec_entry(c, j) == spec_entry(t, j));
            assert(entry_at(t, j) == entry_at(r, j));
            assert(spec_entry(r, j) is Ok);
        }
        assert forall|i: u16| i < spec_slot_count(c) implies (#[trigger] spec_entry(c, i)) is Ok by {
            assert(spec_entry(c, i) == spec_entry(t, i));
        }
        assert(entries_readable(c));
        lemma_run_covers(c, key, rid, idx, start, end, v);
    }
}

/// What a node hands on to the check of the tree: whether it is a leaf,
/// its keys in slot order and, for an internal node, its children, the
/// leftmost first.
pub struct NodeSummary {
    pub is_leaf: bool,
    pub keys: Vec<Vec<u8>>,
    pub children: Vec<PageId>,
}

/// Checks node `bytes` (page `page_id`) under the bounds it inherits.
pub fn check_node_page(bytes: &[u8], page_id: PageId, low: Option<&[u8]>, high: Option<&[u8]>) -> (r: Result<
    NodeSummary,
    String,
>)
    requires
        bytes@.len() == PAGE_SIZE,
    ensures
        r is Ok <==> node_checks_out(bytes@, opt_bytes(low), opt_bytes(high)),
        r matches Ok(sum) ==> {
            &&& sum.is_leaf == !spec_is_internal(bytes@)
            &&& sum.keys@.len() == spec_slot_count(bytes@)
            &&& forall|i: int| 0 <= i < sum.keys@.len() ==> (#[trigger] sum.keys@[i])@ == node_key(bytes@, i)
            &&& !sum.is_leaf ==> sum.children@.len() == spec_slot_count(bytes@) + 1 && sum.children@[0] == PageId(
                spec_tail(bytes@),
            ) && forall|i: int|
                0 <= i < spec_slot_count(bytes@) ==> (#[trigger] sum.children@[i + 1]).0 == le_u32_at(
                    entry_at(bytes@, i as u16),
                    KEY_LEN_PREFIX + spec_key_len(entry_at(bytes@, i as u16)),
                )
        },
{
    let ghost s = bytes@;
    let count = match checked_slot_count(bytes, page_id) {
        Ok(c) => c,
        Err(e) => return Err(page_error(page_id, &e)),
    };
    let is_leaf = !node_is_internal(bytes);
    let slots_end = slot_offset(count);
    let mut total: usize = 0;
    let mut keys: Vec<Vec<u8>> = Vec::new();
    let mut i: u16 = 0;
    while i < count
        invariant
            s == bytes@,
            s.len() == PAGE_SIZE,
            count == spec_slot_count(s),
            count <= MAX_SLOTS,
            slots_end == spec_slot_offset(count as int),
            is_leaf == !spec_is_internal(s),
            i <= count,
            total == len_sum(s, i as int),
            total <= i * 65535,
            keys@.len() == i,
            forall|j: int| 0 <= j < i ==> (#[trigger] keys@[j])@ == node_key(s, j),
            forall|j: u16| j < i ==> (#[trigger] spec_entry(s, j)) is Ok,
        decreases count - i,
    {
        let at = slot_offset(i);
        let offset = crate::codec::read_u16(bytes, at) as usize;
        let len = crate::codec::read_u16(bytes, at + 2);
        if offset < slots_end {
            let mut m = String::new();
            push_str(&mut m, "page ");
            push_decimal(&mut m, page_id.0 as u64);
            push_str(&mut m, ": slot ");
            push_decimal(&mut m, i as u64);
            push_str(&mut m, "'s entry at offset ");
            push_decimal(&mut m, offset as u64);
            push_str(&mut m, " overlaps the ");
            push_decimal(&mut m, slots_end as u64);
            push_str(&mut m, "-byte slot array");
            assert(spec_entry(s, i) is Err);
            return Err(m);
        }
        total = total + len as usize;
        let payload = match entry_payload(bytes, i, page_id) {
            Ok(p) => p,
            Err(e) => {
                assert(spec_entry(s, i) is Err);
                return Err(page_error(page_id, &e));
            },
        };
        let key = if is_leaf {
            slice_to_vec(leaf_sort_key(payload))
        } else {
            slice_to_vec(entry_key(payload))
        };
        keys.push(key);
        i = i + 1;
    }
    assert(entries_readable(s));
    let used = node_data_used(bytes);
    if total != used as usize {
        let mut m = String::new();
        push_str(&mut m, "page ");
        push_decimal(&mut m, page_id.0 as u64);
        push_str(&mut m, ": data_used ");
        push_decimal(&mut m, used as u64);
        push_str(&mut m, " does not match the sum of entry payload lengths ");
        push_decimal(&mut m, total as u64);
        return Err(m);
    }
    let mut k: usize = 1;
    while k < keys.len()
        invariant
            s == bytes@,
            keys@.len() == count,
            count == spec_slot_count(s),
            1 <= k,
            k <= keys@.len() || keys@.len() == 0,
            forall|j: int| 0 <= j < keys@.len() ==> (#[trigger] keys@[j])@ == node_key(s, j),
            forall|j: int| 0 <= j < k - 1 ==> #[trigger] keys_ascend_at(s, j),
        decreases keys@.len() - k,
    {
        if !bytes_lt(keys[k - 1].as_slice(), keys[k].as_slice()) {
            let mut m = String::new();
            push_str(&mut m, "page ");
            push_decimal(&mut m, page_id.0 as u64);
            push_str(&mut m, ": keys are not strictly increasing bytewise (");
            push_byte_list(&mut m, keys[k - 1].as_slice());
            push_str(&mut m, " then ");
            push_byte_list(&mut m, keys[k].as_slice());
            push_str(&mut m, ")");
            assert(!keys_ascend_at(s, k - 1));
            return Err(m);
        }
        k = k + 1;
    }
    let mut k: usize = 0;
    while k < keys.len()
        invariant
            s == bytes@,
            keys@.len() == count,
            count == spec_slot_count(s),
            k <= keys@.len(),
            forall|j: int| 0 <= j < keys@.len() ==> (#[trigger] keys@[j])@ == node_key(s, j),
            forall|j: int| 0 <= j < k ==> #[trigger] key_in_bounds(s, j, opt_bytes(low), opt_bytes(high)),
        decreases keys@.len() - k,
    {
        let key = keys[k].as_slice();
        match low {
            Some(l) => {
                if bytes_lt(key, l) {
                    let mut m = String::new();
                    push_str(&mut m, "page ");
                    push_decimal(&mut m, page_id.0 as u64);
                    push_str(&mut m, ": key ");
                    push_byte_list(&mut m, key);
                    push_str(&mut m, " is below its inherited lower bound");
                    assert(!key_in_bounds(s, k as int, opt_bytes(low), opt_bytes(high)));
                    return Err(m);
                }
            },
            None => {},
        }
        match high {
            Some(h) => {
                if !bytes_lt(key, h) {
                    let mut m = String::new();
                    push_str(&mut m, "page ");
                    push_decimal(&mut m, page_id.0 as u64);
                    push_str(&mut m, ": key ");
                    push_byte_list(&mut m, key);
                    push_str(&mut m, " is not below its inherited upper bound");
                    assert(!key_in_bounds(s, k as int, opt_bytes(low), opt_bytes(high)));
                    return Err(m);
                }
            },
            None => {},
        }
        k = k + 1;
    }
    if is_leaf {
        return Ok(NodeSummary { is_leaf: true, keys, children: Vec::new() });
    }
    let tail = match tail_raw(bytes) {
        Some(t) => t,
        None => {
            let mut m = String::new();
            push_str(&mut m, "page ");
            push_decimal(&mut m, page_id.0 as u64);
            push_str(&mut m, ": internal node has no tail (leftmost child) pointer");
            return Err(m);
        },
    };
    let mut children: Vec<PageId> = Vec::new();
    children.push(tail);
    let mut i: u16 = 0;
    while i < count
        invariant
            s == bytes@,
            s.len() == PAGE_SIZE,
            count == spec_slot_count(s),
            entries_readable(s),
            spec_is_internal(s),
            i <= count,
            children@.len() == i + 1,
            children@[0] == PageId(spec_tail(s)),
            forall|j: int|
                0 <= j < i ==> (#[trigger] children@[j + 1]).0 == le_u32_at(
                    entry_at(s, j as u16),
                    KEY_LEN_PREFIX + spec_key_len(entry_at(s, j as u16)),
                ),
            forall|j: u16|
                j < i ==> (#[trigger] spec_entry(s, j) matches Ok(e) ==> e.len() >= KEY_LEN_PREFIX
                    && KEY_LEN_PREFIX + spec_key_len(e) + CHILD_TRAILER_SIZE <= e.len()),
        decreases count - i,
    {
        let payload = match entry_payload(bytes, i, page_id) {
            Ok(p) => p,
            Err(e) => return Err(page_error(page_id, &e)),
        };
        let n = if payload.len() >= 2 {
            crate::codec::read_u16(payload, 0) as usize
        } else {
            0
        };
        if payload.len() < KEY_LEN_PREFIX + CHILD_TRAILER_SIZE || n > payload.len() - KEY_LEN_PREFIX - CHILD_TRAILER_SIZE {
            let mut m = String::new();
            push_str(&mut m, "page ");
            push_decimal(&mut m, page_id.0 as u64);
            push_str(&mut m, ": slot ");
            push_decimal(&mut m, i as u64);
            push_str(&mut m, "'s entry is too short for its key and child page");
            assert(!entries_hold_children(s));
            return Err(m);
        }
        let ghost before = children@;
        children.push(internal_child(payload));
        proof {
            assert forall|j: int| 0 <= j < i + 1 implies (#[trigger] children@[j + 1]).0 == le_u32_at(
                entry_at(s, j as u16),
                KEY_LEN_PREFIX + spec_key_len(entry_at(s, j as u16)),
            ) by {
                if j < i {
                    assert(children@[j + 1] == before[j + 1]);
                }
            }
        }
        i = i + 1;
    }
    assert(entries_hold_children(s));
    Ok(NodeSummary { is_leaf: false, keys, children })
}

/// What the check of a tree gathers as it walks it: the pages seen, the
/// depth of the first leaf, and the leaves in key order.
struct InvariantState {
    visited: Vec<u32>,
    leaf_depth: Option<usize>,
    leaves: Vec<PageId>,
}

fn contains_page(pages: &Vec<u32>, page: u32) -> (r: bool)
    ensures
        r == pages@.contains(page),
{
    let mut i: usize = 0;
    while i < pages.len()
        invariant
            i <= pages@.len(),
            forall|j: int| 0 <= j < i ==> pages@[j] != page,
        decreases pages@.len() - i,
    {
        if pages[i] == page {
            assert(pages@[i as int] == page);
            return true;
        }
        i = i + 1;
    }
    false
}

fn same_pages(a: &Vec<PageId>, b: &Vec<PageId>) -> (r: bool)
    ensures
        r == (a@ == b@),
{
    if a.len() != b.len() {
        return false;
    }
    let mut i: usize = 0;
    while i < a.len()
        invariant
            a@.len() == b@.len(),
            i <= a@.len(),
            forall|j: int| 0 <= j < i ==> a@[j] == b@[j],
        decreases a@.len() - i,
    {
        if a[i].0 != b[i].0 {
            return false;
        }
        i = i + 1;
    }
    assert(a@ =~= b@);
    true
}

/// A B+-tree index: the page of its root node.
pub struct BTreeIndex {
    root_page_id: PageId,
}

impl BTreeIndex {
    pub closed spec fn spec_root(&self) -> PageId {
        self.root_page_id
    }

    /// Allocates a page for the root and makes it an empty leaf.
    pub fn create<D: BlockDevice, W: BlockDevice, S: SegmentStore>(
        pool: &mut BufferPool<D, W, S>,
        txn_id: TxnId,
    ) -> (r: Result<BTreeIndex, StorageError>)
        requires
            old(pool).inv(),
            old(pool).spec_disk().next_page_id() < u32::MAX,
        ensures
            final(pool).inv(),
            final(pool).spec_disk().next_page_id() <= old(pool).spec_disk().next_page_id() + 1,
            old(pool).spec_disk().next_page_id() <= final(pool).spec_disk().next_page_id(),
            (r is Ok || !old(pool).poisoned()) ==> final(pool).spec_disk().next_page_id() == old(pool).spec_disk().next_page_id() + 1,
            r matches Ok(index) ==> {
                &&& index.spec_root().0 == old(pool).spec_disk().next_page_id()
                &&& final(pool).frame_of_spec(index.spec_root()) is Some
                &&& is_empty_leaf(cached_bytes(*final(pool), index.spec_root()))
            },
    {
        let (page_id, frame) = match pool.new_page(txn_id) {
            Ok(p) => p,
            Err(e) => return Err(e),
        };
        let mut node = BTreeNode::new(Page::from_bytes(page_id, pool.page(frame).data()), txn_id);
        node.init(false, None);
        let page = node.into_page();
        proof {
            page.lemma_len();
            lemma_auto_spec_u16_to_from_le_bytes();
            lemma_auto_spec_u32_to_from_le_bytes();
            let s = page.bytes();
            let h = spec_init_header(false, None);
            assert(s.subrange(13, 15) =~= h.subrange(1, 3));
            assert(s.subrange(15, 17) =~= h.subrange(3, 5));
            assert(s.subrange(17, 21) =~= h.subrange(5, 9));
            assert(h.subrange(1, 3) =~= spec_u16_to_le_bytes(0u16));
            assert(h.subrange(3, 5) =~= spec_u16_to_le_bytes(0u16));
            assert(h.subrange(5, 9) =~= spec_u32_to_le_bytes(0u32));
        }
        match commit_node(pool, frame, txn_id, &page) {
            Ok(()) => {
                proof {
                    pool.frames()[frame.0 as int].page.lemma_len();
                    lemma_same_node_reads(pool.frames()[frame.0 as int].page.bytes(), page.bytes());
                }
                pool.unpin(frame);
                Ok(BTreeIndex { root_page_id: page_id })
            },
            Err(e) => {
                pool.unpin(frame);
                Err(e)
            },
        }
    }

    /// The leaf a search for `key` ends in.
    fn descend_to_leaf<D: BlockDevice, W: BlockDevice, S: SegmentStore>(
        &self,
        pool: &mut BufferPool<D, W, S>,
        key: &[u8],
    ) -> (r: Result<PageId, StorageError>)
        requires
            old(pool).inv(),
        ensures
            final(pool).inv(),
            final(pool).frames().len() == old(pool).frames().len(),
            final(pool).spec_disk().spec_page_size() == old(pool).spec_disk().spec_page_size(),
            final(pool).spec_disk().next_page_id() == old(pool).spec_disk().next_page_id(),
            r matches Ok(leaf) ==> final(pool).frame_of_spec(leaf) is Some && !spec_is_internal(
                cached_bytes(*final(pool), leaf),
            ),
            r is Ok && old(pool).frame_of_spec(self.spec_root()) is Some && !spec_is_internal(
                cached_bytes(*old(pool), self.spec_root()),
            ) ==> r == Ok::<PageId, StorageError>(self.spec_root()) && cached_bytes(*final(pool), self.spec_root())
                == cached_bytes(*old(pool), self.spec_root()),
            old(pool).pinnable(self.spec_root()) && !spec_is_internal(cached_bytes(*old(pool), self.spec_root())) ==> r
                == Ok::<PageId, StorageError>(self.spec_root()) && cached_read(*old(pool), *final(pool)),
            descends_to_leaf_child(*old(pool), self.spec_root(), key@) ==> {
                &&& r matches Ok(leaf) && exists|lo: int|
                    is_bound_at(cached_bytes(*old(pool), self.spec_root()), BoundProbe::KeyAtMost, key@, lo)
                        && spec_child_at(cached_bytes(*old(pool), self.spec_root()), lo) == Ok::<PageId, Seq<char>>(leaf)
                &&& final(pool).frames() == old(pool).frames()
                &&& final(pool).table() == old(pool).table()
                &&& final(pool).access_clock() == old(pool).access_clock() + 2
            },
    {
        let ghost two = descends_to_leaf_child(*old(pool), self.spec_root(), key@);
        let ghost rb = cached_bytes(*old(pool), self.spec_root());
        let mut current = self.root_page_id;
        let mut depth: usize = 0;
        loop
            invariant
                pool.inv(),
                pool.frames().len() == old(pool).frames().len(),
                pool.spec_disk().spec_page_size() == old(pool).spec_disk().spec_page_size(),
                pool.spec_disk().next_page_id() == old(pool).spec_disk().next_page_id(),
                depth <= MAX_TREE_DEPTH,
                depth == 0 ==> current == self.spec_root() && *pool == *old(pool),
                depth > 0 ==> !(old(pool).frame_of_spec(self.spec_root()) is Some && !spec_is_internal(
                    cached_bytes(*old(pool), self.spec_root()),
                )),
                depth > 0 ==> !(old(pool).pinnable(self.spec_root()) && !spec_is_internal(
                    cached_bytes(*old(pool), self.spec_root()),
                )),
                two == descends_to_leaf_child(*old(pool), self.spec_root(), key@),
                rb == cached_bytes(*old(pool), self.spec_root()),
                two ==> depth <= 1,
                two && depth == 1 ==> {
                    &&& exists|lo: int|
                        is_bound_at(rb, BoundProbe::KeyAtMost, key@, lo) && spec_child_at(rb, lo) == Ok::<PageId, Seq<char>>(
                            current,
                        )
                    &&& pool.frames() == old(pool).frames()
                    &&& pool.table() == old(pool).table()
                    &&& pool.access_clock() == old(pool).access_clock() + 1
                },
            decreases MAX_TREE_DEPTH - depth,
        {
            let node = match read_node(pool, current) {
                Ok(n) => n,
                Err(e) => return Err(e),
            };
            proof {
                node.lemma_len();
            }
            let bytes = node.data().as_slice();
            if !node_is_internal(bytes) {
                return Ok(current);
            }
            let child = match child_for(bytes, key, current) {
                Ok(c) => c,
                Err(e) => return Err(e),
            };
            if depth == MAX_TREE_DEPTH {
                return Err(depth_error(current));
            }
            depth = depth + 1;
            current = child;
        }
    }

    /// The leftmost leaf: the tail pointers of internal nodes followed down
    /// from the root.
    fn leftmost_leaf<D: BlockDevice, W: BlockDevice, S: SegmentStore>(
        &self,
        pool: &mut BufferPool<D, W, S>,
    ) -> (r: Result<PageId, StorageError>)
        requires
            old(pool).inv(),
        ensures
            final(pool).inv(),
            final(pool).frames().len() == old(pool).frames().len(),
            final(pool).spec_disk().spec_page_size() == old(pool).spec_disk().spec_page_size(),
            final(pool).spec_disk().next_page_id() == old(pool).spec_disk().next_page_id(),
            r matches Ok(leaf) ==> final(pool).frame_of_spec(leaf) is Some && !spec_is_internal(
                cached_bytes(*final(pool), leaf),
            ),
            old(pool).pinnable(self.spec_root()) && !spec_is_internal(cached_bytes(*old(pool), self.spec_root())) ==> r
                == Ok::<PageId, StorageError>(self.spec_root()) && cached_read(*old(pool), *final(pool)),
            leftmost_is_leaf_child(*old(pool), self.spec_root()) ==> {
                &&& r == Ok::<PageId, StorageError>(PageId(spec_tail(cached_bytes(*old(pool), self.spec_root()))))
                &&& final(pool).frames() == old(pool).frames()
                &&& final(pool).table() == old(pool).table()
                &&& final(pool).access_clock() == old(pool).access_clock() + 2
            },
    {
        let ghost two = leftmost_is_leaf_child(*old(pool), self.spec_root());
        let ghost t = PageId(spec_tail(cached_bytes(*old(pool), self.spec_root())));
        let mut current = self.root_page_id;
        let mut depth: usize = 0;
        loop
            invariant
                pool.inv(),
                pool.frames().len() == old(pool).frames().len(),
                pool.spec_disk().spec_page_size() == old(pool).spec_disk().spec_page_size(),
                pool.spec_disk().next_page_id() == old(pool).spec_disk().next_page_id(),
                depth <= MAX_TREE_DEPTH,
                depth == 0 ==> current == self.spec_root() && *pool == *old(pool),
                depth > 0 ==> !(old(pool).pinnable(self.spec_root()) && !spec_is_internal(
                    cached_bytes(*old(pool), self.spec_root()),
                )),
                two == leftmost_is_leaf_child(*old(pool), self.spec_root()),
                t == PageId(spec_tail(cached_bytes(*old(pool), self.spec_root()))),
                two ==> depth <= 1,
                two && depth == 1 ==> current == t && pool.frames() == old(pool).frames() && pool.table() == old(
                    pool,
                ).table() && pool.access_clock() == old(pool).access_clock() + 1,
            decreases MAX_TREE_DEPTH - depth,
        {
            let node = match read_node(pool, current) {
                Ok(n) => n,
                Err(e) => return Err(e),
            };
            proof {
                node.lemma_len();
            }
            let bytes = node.data().as_slice();
            if !node_is_internal(bytes) {
                return Ok(current);
            }
            let child = match tail_raw(bytes) {
                Some(c) => c,
                None => {
                    let reason = String::from_str("internal node has no tail (leftmost child) pointer");
                    return Err(StorageError::CorruptPage { page_id: current.0, reason });
                },
            };
            if depth == MAX_TREE_DEPTH {
                return Err(depth_error(current));
            }
            depth = depth + 1;
            current = child;
        }
    }

    /// Where a scan from `start` begins: the leaf a search for `start` ends
    /// in and the first slot there whose sort key is not below `start`, or
    /// the leftmost leaf and its first slot.
    pub fn leaf_for_start<D: BlockDevice, W: BlockDevice, S: SegmentStore>(
        &self,
        pool: &mut BufferPool<D, W, S>,
        start: Option<&[u8]>,
    ) -> (r: Result<(PageId, u16), StorageError>)
        requires
            old(pool).inv(),
        ensures
            final(pool).inv(),
            final(pool).frames().len() == old(pool).frames().len(),
            final(pool).spec_disk().spec_page_size() == old(pool).spec_disk().spec_page_size(),
            final(pool).spec_disk().next_page_id() == old(pool).spec_disk().next_page_id(),
            r matches Ok((leaf, slot)) ==> {
                &&& final(pool).frame_of_spec(leaf) is Some
                &&& !spec_is_internal(cached_bytes(*final(pool), leaf))
                &&& match start {
                    Some(k) => is_bound_at(cached_bytes(*final(pool), leaf), BoundProbe::SortKeyBelow, k@, slot as int),
                    None => slot == 0,
                }
            },
            ({
                let rb = cached_bytes(*old(pool), self.spec_root());
                old(pool).pinnable(self.spec_root()) && !spec_is_internal(rb) && (start is None || (
                old(pool).access_clock() + 2 <= u64::MAX && entries_readable(rb)))
            }) ==> (r matches Ok((leaf, _)) && leaf == self.spec_root() && final(pool).frames() == old(pool).frames()
                && final(pool).table() == old(pool).table() && final(pool).access_clock() <= old(pool).access_clock() + 2),
    {
        match start {
            Some(key) => {
                let leaf = match self.descend_to_leaf(pool, key) {
                    Ok(l) => l,
                    Err(e) => return Err(e),
                };
                let node = match read_node(pool, leaf) {
                    Ok(n) => n,
                    Err(e) => return Err(e),
                };
                proof {
                    node.lemma_len();
                }
                match lower_bound_leaf(node.data().as_slice(), key, leaf) {
                    Ok(slot) => Ok((leaf, slot)),
                    Err(e) => Err(e),
                }
            },
            None => match self.leftmost_leaf(pool) {
                Ok(l) => Ok((l, 0)),
                Err(e) => Err(e),
            },
        }
    }

    /// The entry in `slot` of leaf `leaf_page_id`, or, past the last slot,
    /// the end of the leaf and the next leaf.
    pub fn scan_leaf<D: BlockDevice, W: BlockDevice, S: SegmentStore>(
        pool: &mut BufferPool<D, W, S>,
        leaf_page_id: PageId,
        slot: u16,
    ) -> (r: Result<LeafScan, StorageError>)
        requires
            old(pool).inv(),
        ensures
            final(pool).inv(),
            final(pool).frames().len() == old(pool).frames().len(),
            final(pool).spec_disk().spec_page_size() == old(pool).spec_disk().spec_page_size(),
            final(pool).spec_disk().next_page_id() == old(pool).spec_disk().next_page_id(),
            r is Ok ==> final(pool).frame_of_spec(leaf_page_id) is Some && final(pool).fetched_bytes(*old(pool), leaf_page_id)
                == cached_bytes(*final(pool), leaf_page_id) && leaf_scan_ok(
                final(pool).fetched_bytes(*old(pool), leaf_page_id),
                leaf_page_id,
                slot,
                r,
            ),
            old(pool).pinnable(leaf_page_id) ==> leaf_scan_ok(cached_bytes(*old(pool), leaf_page_id), leaf_page_id, slot, r),
    {
        let node = match read_node(pool, leaf_page_id) {
            Ok(n) => n,
            Err(e) => return Err(e),
        };
        proof {
            node.lemma_len();
        }
        scan_leaf_page(node.data().as_slice(), leaf_page_id, slot)
    }

    /// One step of a range scan through leaf `leaf_page_id`: the entry
    /// after `after`, or the end of the leaf and the next leaf.
    fn scan_after<D: BlockDevice, W: BlockDevice, S: SegmentStore>(
        pool: &mut BufferPool<D, W, S>,
        leaf_page_id: PageId,
        after: Option<&[u8]>,
    ) -> (r: Result<AfterScan, StorageError>)
        requires
            old(pool).inv(),
        ensures
            final(pool).inv(),
            final(pool).frames().len() == old(pool).frames().len(),
            final(pool).spec_disk().spec_page_size() == old(pool).spec_disk().spec_page_size(),
            final(pool).spec_disk().next_page_id() == old(pool).spec_disk().next_page_id(),
            r is Ok ==> final(pool).frame_of_spec(leaf_page_id) is Some && final(pool).fetched_bytes(*old(pool), leaf_page_id)
                == cached_bytes(*final(pool), leaf_page_id) && after_scan_ok(
                final(pool).fetched_bytes(*old(pool), leaf_page_id),
                leaf_page_id,
                opt_bytes(after),
                r,
            ),
            old(pool).pinnable(leaf_page_id) ==> after_scan_ok(
                cached_bytes(*old(pool), leaf_page_id),
                leaf_page_id,
                opt_bytes(after),
                r,
            ),
            old(pool).frame_of_spec(leaf_page_id) is Some && r is Ok ==> cached_read(*old(pool), *final(pool)),
    {
        let node = match read_node(pool, leaf_page_id) {
            Ok(n) => n,
            Err(e) => return Err(e),
        };
        proof {
            node.lemma_len();
        }
        scan_after_page(node.data().as_slice(), leaf_page_id, after)
    }

    /// The record ids of every entry with key `key`, in leaf order: the run
    /// that starts where a search for `key` ends, continued into the next
    /// leaf while it runs to the end of a leaf.
    pub fn get<D: BlockDevice, W: BlockDevice, S: SegmentStore>(
        &self,
        pool: &mut BufferPool<D, W, S>,
        key: &[u8],
    ) -> (r: Result<Vec<Rid>, StorageError>)
        requires
            old(pool).inv(),
        ensures
            final(pool).inv(),
            final(pool).frames().len() == old(pool).frames().len(),
            final(pool).spec_disk().spec_page_size() == old(pool).spec_disk().spec_page_size(),
            final(pool).spec_disk().next_page_id() == old(pool).spec_disk().next_page_id(),
            old(pool).frame_of_spec(self.spec_root()) is Some && is_lone_leaf(cached_bytes(*old(pool), self.spec_root()))
                ==> (r matches Ok(v) ==> lone_leaf_get(cached_bytes(*old(pool), self.spec_root()), key@, v@)),
            readable_lone_leaf(*old(pool), self.spec_root()) ==> r is Ok,
            get_reads_leaf(*old(pool), self.spec_root(), key@) ==> get_through_leaf(
                *old(pool),
                cached_bytes(*old(pool), self.spec_root()),
                key@,
                r,
            ),
            get_hops_on(*old(pool), self.spec_root(), key@) ==> get_through_two_leaves(
                *old(pool),
                cached_bytes(*old(pool), self.spec_root()),
                key@,
                r,
            ),
    {
        let ghost lone = old(pool).frame_of_spec(self.spec_root()) is Some && is_lone_leaf(
            cached_bytes(*old(pool), self.spec_root()),
        );
        let ghost root_bytes = cached_bytes(*old(pool), self.spec_root());
        let ghost readable = readable_lone_leaf(*old(pool), self.spec_root());
        let ghost g = get_reads_leaf(*old(pool), self.spec_root(), key@);
        let mut current = match self.descend_to_leaf(pool, key) {
            Ok(l) => l,
            Err(e) => return Err(e),
        };
        let ghost leaf0 = current;
        let ghost lb0 = cached_bytes(*old(pool), leaf0);
        let ghost mut s0: int = 0;
        let ghost mut e0: int = 0;
        let ghost gh = g && get_hops_on(*old(pool), self.spec_root(), key@);
        let ghost nb0 = cached_bytes(*old(pool), PageId(spec_tail(lb0)));
        let ghost mut hop_stage: int = 0;
        let ghost mut e2: int = 0;
        let mut results: Vec<Rid> = Vec::new();
        let mut first = true;
        let limit = pool.next_page_id();
        let mut hops: u32 = 0;
        loop
            invariant
                gh == (g && get_hops_on(*old(pool), self.spec_root(), key@)),
                nb0 == cached_bytes(*old(pool), PageId(spec_tail(lb0))),
                limit == old(pool).spec_disk().next_page_id(),
                first ==> hops == 0 && hop_stage == 0,
                hop_stage >= 0,
                gh && !first ==> hop_stage >= 1,
                gh && hop_stage == 1 ==> current == PageId(spec_tail(lb0)) && results@ == rid_run(lb0, s0, e0)
                    && pool.frames() == old(pool).frames() && pool.table() == old(pool).table() && pool.access_clock()
                    == old(pool).access_clock() + 3,
                gh && hop_stage >= 2 ==> is_key_run(nb0, key@, 0, e2) && e2 == spec_slot_count(nb0) && spec_tail(nb0)
                    != 0,
                g == get_reads_leaf(*old(pool), self.spec_root(), key@),
                lb0 == cached_bytes(*old(pool), leaf0),
                g ==> exists|lo: int|
                    is_bound_at(root_bytes, BoundProbe::KeyAtMost, key@, lo) && spec_child_at(root_bytes, lo)
                        == Ok::<PageId, Seq<char>>(leaf0),
                g && first ==> current == leaf0 && results@ == Seq::<Rid>::empty() && pool.frames() == old(pool).frames()
                    && pool.table() == old(pool).table() && pool.access_clock() == old(pool).access_clock() + 2,
                g && !first ==> is_bound_at(lb0, BoundProbe::SortKeyBelow, key@, s0) && is_key_run(lb0, key@, s0, e0)
                    && e0 == spec_slot_count(lb0) && spec_tail(lb0) != 0,
                pool.inv(),
                pool.frames().len() == old(pool).frames().len(),
                pool.spec_disk().spec_page_size() == old(pool).spec_disk().spec_page_size(),
                pool.spec_disk().next_page_id() == old(pool).spec_disk().next_page_id(),
                hops <= limit,
                lone == (old(pool).frame_of_spec(self.spec_root()) is Some && is_lone_leaf(
                    cached_bytes(*old(pool), self.spec_root()),
                )),
                root_bytes == cached_bytes(*old(pool), self.spec_root()),
                lone ==> first && current == self.spec_root() && results@ == Seq::<Rid>::empty()
                    && pool.frame_of_spec(self.spec_root()) is Some && cached_bytes(*pool, self.spec_root()) == root_bytes,
                readable == readable_lone_leaf(*old(pool), self.spec_root()),
                readable ==> lone && pool.pinnable(self.spec_root()) && entries_readable(root_bytes) && leaf_entries_fit(root_bytes)
                    && is_lone_leaf(root_bytes),
            decreases limit - hops,
        {
            let node = match read_node(pool, current) {
                Ok(n) => n,
                Err(e) => return Err(e),
            };
            proof {
                node.lemma_len();
                if lone {
                    assert(node.bytes() == root_bytes);
                }
            }
            let bytes = node.data().as_slice();
            let ghost results0 = results@;
            let ran_off = match collect_matches(bytes, current, key, first, &mut results) {
                Ok(b) => b,
                Err(e) => return Err(e),
            };
            proof {
                if lone {
                    let (start, end) = choose|start: int, end: int|
                        #![trigger is_key_run(bytes@, key@, start, end)]
                        is_bound_at(bytes@, BoundProbe::SortKeyBelow, key@, start) && is_key_run(bytes@, key@, start, end)
                            && results@ == results0 + rid_run(bytes@, start, end) && ran_off == (end == spec_slot_count(bytes@));
                    assert(results@ =~= rid_run(root_bytes, start, end));
                    assert(lone_leaf_get(root_bytes, key@, results@));
                }
                if g && first {
                    let (start, end) = choose|start: int, end: int|
                        #![trigger is_key_run(bytes@, key@, start, end)]
                        is_bound_at(bytes@, BoundProbe::SortKeyBelow, key@, start) && is_key_run(bytes@, key@, start, end)
                            && results@ == results0 + rid_run(bytes@, start, end) && ran_off == (end == spec_slot_count(bytes@));
                    s0 = start;
                    e0 = end;
                    assert(bytes@ == lb0);
                    assert(results@ =~= rid_run(lb0, start, end));
                }
                if gh && hop_stage == 1 {
                    let (start, end) = choose|start: int, end: int|
                        #![trigger is_key_run(bytes@, key@, start, end)]
                        start == 0 && is_key_run(bytes@, key@, start, end) && results@ == results0 + rid_run(
                            bytes@,
                            start,
                            end,
                        ) && ran_off == (end == spec_slot_count(bytes@));
                    e2 = end;
                    assert(bytes@ == nb0);
                    assert(results@ =~= rid_run(lb0, s0, e0) + rid_run(nb0, 0, end));
                }
            }
            first = false;
            if ran_off {
                match tail_raw(bytes) {
                    Some(next) => {
                        if hops == limit {
                            let reason = String::from_str(
                                "the leaf chain is longer than the file has pages: its next-leaf pointers form a cycle",
                            );
                            return Err(StorageError::CorruptPage { page_id: current.0, reason });
                        }
                        hops = hops + 1;
                        current = next;
                        proof {
                            hop_stage = hop_stage + 1;
                        }
                        continue;
                    },
                    None => {},
                }
            }
            return Ok(results);
        }
    }

    /// A scan of the entries from `start` (from the first entry when
    /// `None`) up to, not including, the first key at or past `end`.
    pub fn range_scan(&self, start: Option<&[u8]>, end: Option<&[u8]>) -> (it: BTreeRangeIterator)
        ensures
            it.spec_root() == self.spec_root(),
            it.spec_end() == opt_bytes(end),
            it.spec_state() == (RangeStateView::NotStarted { start: opt_bytes(start) }),
    {
        let end_copy = match end {
            Some(e) => Some(slice_to_vec(e)),
            None => None,
        };
        let start_copy = match start {
            Some(k) => Some(slice_to_vec(k)),
            None => None,
        };
        BTreeRangeIterator {
            root_page_id: self.root_page_id,
            end: end_copy,
            state: RangeState::NotStarted { start: start_copy },
        }
    }

    /// The internal nodes a search for `sort_key` passes, root first, and
    /// the leaf it ends in.
    fn descend_path<D: BlockDevice, W: BlockDevice, S: SegmentStore>(
        &self,
        pool: &mut BufferPool<D, W, S>,
        sort_key: &[u8],
    ) -> (r: Result<(Vec<PageId>, PageId), StorageError>)
        requires
            old(pool).inv(),
        ensures
            final(pool).inv(),
            final(pool).frames().len() == old(pool).frames().len(),
            final(pool).spec_disk().spec_page_size() == old(pool).spec_disk().spec_page_size(),
            final(pool).spec_disk().next_page_id() == old(pool).spec_disk().next_page_id(),
            r matches Ok((path, leaf)) ==> path@.len() <= MAX_TREE_DEPTH,
            r is Ok && old(pool).frame_of_spec(self.spec_root()) is Some && !spec_is_internal(
                cached_bytes(*old(pool), self.spec_root()),
            ) ==> r->Ok_0.1 == self.spec_root() && final(pool).frame_of_spec(self.spec_root()) is Some && cached_bytes(
                *final(pool),
                self.spec_root(),
            ) == cached_bytes(*old(pool), self.spec_root()),
            old(pool).pinnable(self.spec_root()) && !spec_is_internal(cached_bytes(*old(pool), self.spec_root())) ==> (
            r matches Ok((path, leaf)) && path@.len() == 0 && leaf == self.spec_root()) && cached_read(*old(pool), *final(pool)),
    {
        let mut path: Vec<PageId> = Vec::new();
        let mut current = self.root_page_id;
        loop
            invariant
                pool.inv(),
                pool.frames().len() == old(pool).frames().len(),
                pool.spec_disk().spec_page_size() == old(pool).spec_disk().spec_page_size(),
                pool.spec_disk().next_page_id() == old(pool).spec_disk().next_page_id(),
                path@.len() <= MAX_TREE_DEPTH,
                path@.len() == 0 ==> current == self.spec_root() && *pool == *old(pool),
                path@.len() > 0 ==> !(old(pool).frame_of_spec(self.spec_root()) is Some && !spec_is_internal(
                    cached_bytes(*old(pool), self.spec_root()),
                )),
                path@.len() > 0 ==> !(old(pool).pinnable(self.spec_root()) && !spec_is_internal(
                    cached_bytes(*old(pool), self.spec_root()),
                )),
            decreases MAX_TREE_DEPTH - path@.len(),
        {
            let node = match read_node(pool, current) {
                Ok(n) => n,
                Err(e) => return Err(e),
            };
            proof {
                node.lemma_len();
            }
            let bytes = node.data().as_slice();
            if !node_is_internal(bytes) {
                return Ok((path, current));
            }
            let child = match child_for(bytes, sort_key, current) {
                Ok(c) => c,
                Err(e) => return Err(e),
            };
            if path.len() == MAX_TREE_DEPTH {
                return Err(depth_error(current));
            }
            path.push(current);
            current = child;
        }
    }

    /// Adds an entry for `key` and `rid`. A full leaf splits in two at the
    /// byte-balanced point and pushes the right half's first sort key up;
    /// a full internal node splits and pushes its middle entry up; a full
    /// root is replaced by a new root over the two halves.
    pub fn insert<D: BlockDevice, W: BlockDevice, S: SegmentStore>(
        &mut self,
        pool: &mut BufferPool<D, W, S>,
        txn_id: TxnId,
        key: &[u8],
        rid: Rid,
    ) -> (r: Result<(), StorageError>)
        requires
            old(pool).inv(),
            old(pool).spec_disk().next_page_id() + MAX_TREE_DEPTH + 2 <= u32::MAX,
        ensures
            final(pool).inv(),
            key@.len() > MAX_KEY_SIZE ==> r == Err::<(), StorageError>(
                StorageError::KeyTooLarge { size: key@.len() as usize, max: MAX_KEY_SIZE },
            ) && *final(pool) == *old(pool) && *final(self) == *old(self),
            final(pool).spec_disk().next_page_id() <= old(pool).spec_disk().next_page_id() + MAX_TREE_DEPTH + 2,
            final(self).spec_root() == old(self).spec_root() || (old(pool).spec_disk().next_page_id()
                <= final(self).spec_root().0 < final(pool).spec_disk().next_page_id()),
            r is Ok && old(pool).pinnable(old(self).spec_root()) && !spec_is_internal(
                cached_bytes(*old(pool), old(self).spec_root()),
            ) && !node_fits(
                cached_bytes(*old(pool), old(self).spec_root()),
                spec_leaf_payload(key@, rid).len() as int,
            ) ==> old(pool).spec_disk().next_page_id() <= final(self).spec_root().0,
            r is Ok && old(pool).frame_of_spec(old(self).spec_root()) is Some && !spec_is_internal(
                cached_bytes(*old(pool), old(self).spec_root()),
            ) && node_fits(
                cached_bytes(*old(pool), old(self).spec_root()),
                spec_leaf_payload(key@, rid).len() as int,
            ) ==> final(self).spec_root() == old(self).spec_root() && node_insert_done(
                cached_bytes(*old(pool), old(self).spec_root()),
                spec_leaf_sort_key(spec_leaf_payload(key@, rid)),
                spec_leaf_payload(key@, rid),
                true,
                *final(pool),
                old(self).spec_root(),
            ),
            ({
                let s = cached_bytes(*old(pool), old(self).spec_root());
                &&& key@.len() <= MAX_KEY_SIZE
                &&& old(pool).pinnable(old(self).spec_root())
                &&& old(pool).access_clock() + 2 <= u64::MAX
                &&& !spec_is_internal(s)
                &&& entries_readable(s)
                &&& node_fits(s, spec_leaf_payload(key@, rid).len() as int)
                &&& commit_log_room(old(pool).spec_log().view())
            }) ==> r is Ok,
    {
        if key.len() > MAX_KEY_SIZE {
            return Err(StorageError::KeyTooLarge { size: key.len(), max: MAX_KEY_SIZE });
        }
        let ghost next0 = pool.spec_disk().next_page_id();
        let ghost full_lone = old(pool).pinnable(old(self).spec_root()) && !spec_is_internal(
            cached_bytes(*old(pool), old(self).spec_root()),
        ) && !node_fits(cached_bytes(*old(pool), old(self).spec_root()), spec_leaf_payload(key@, rid).len() as int);
        let ghost lone_fits = old(pool).frame_of_spec(old(self).spec_root()) is Some && !spec_is_internal(
            cached_bytes(*old(pool), old(self).spec_root()),
        ) && node_fits(cached_bytes(*old(pool), old(self).spec_root()), spec_leaf_payload(key@, rid).len() as int);
        let leaf_payload = build_leaf_payload(key, rid);
        let sort_key = slice_to_vec(leaf_sort_key(leaf_payload.as_slice()));
        let (mut path, leaf_page_id) = match self.descend_path(pool, sort_key.as_slice()) {
            Ok(p) => p,
            Err(e) => return Err(e),
        };
        match insert_into_node(pool, leaf_page_id, txn_id, sort_key.as_slice(), leaf_payload.as_slice()) {
            Ok(true) => return Ok(()),
            Ok(false) => {},
            Err(e) => return Err(e),
        }
        assert(!lone_fits);
        let leaf = match read_node(pool, leaf_page_id) {
            Ok(n) => n,
            Err(e) => return Err(e),
        };
        proof {
            leaf.lemma_len();
        }
        let (old_tail, mut payloads) = match read_entries(leaf.data().as_slice(), leaf_page_id) {
            Ok(t) => t,
            Err(e) => return Err(e),
        };
        proof {
            assert forall|i: int| 0 <= i < payloads@.len() implies (#[trigger] payloads@[i])@.len() <= ENTRY_BOUND by {
                lemma_entry_at_len(leaf.bytes(), i as u16);
            }
        }
        let insert_at = upper_bound_in_leaf(payloads.as_slice(), sort_key.as_slice());
        let ghost before = payloads@;
        proof {
            lemma_auto_spec_u16_to_from_le_bytes();
            lemma_auto_spec_u32_to_from_le_bytes();
            assert(leaf_payload@.len() <= ENTRY_BOUND);
        }
        payloads.insert(insert_at, leaf_payload);
        proof {
            assert forall|i: int| 0 <= i < payloads@.len() implies (#[trigger] payloads@[i])@.len() <= ENTRY_BOUND by {
                if i > insert_at {
                    assert(payloads@[i] == before[i - 1]);
                } else if i < insert_at {
                    assert(payloads@[i] == before[i]);
                }
            }
        }
        if payloads.len() < 2 {
            let reason = String::from_str("a full node has too few entries to split");
            return Err(StorageError::CorruptPage { page_id: leaf_page_id.0, reason });
        }
        proof {
            lemma_entries_fit_usize(payloads@);
        }
        let mid = leaf_split_point(payloads.as_slice());
        let right_payloads = payloads.split_off(mid);
        let left_payloads = payloads;
        proof {
            lemma_entries_fit_usize(right_payloads@);
            lemma_entries_fit_usize(left_payloads@);
        }
        let right_page_id = match new_node(pool, txn_id, false, old_tail, right_payloads.as_slice()) {
            Ok(p) => p,
            Err(e) => return Err(e),
        };
        match rebuild_node(pool, leaf_page_id, txn_id, false, Some(right_page_id), left_payloads.as_slice()) {
            Ok(()) => {},
            Err(e) => return Err(e),
        }
        let mut left_page_id = leaf_page_id;
        let mut pushed_key = slice_to_vec(leaf_sort_key(right_payloads[0].as_slice()));
        let mut pushed_right = right_page_id;
        proof {
            assert(pushed_key@.len() <= ENTRY_BOUND);
        }
        while path.len() > 0
            invariant
                pool.inv(),
                pool.spec_disk().next_page_id() + path@.len() <= next0 + MAX_TREE_DEPTH + 1,
                next0 + MAX_TREE_DEPTH + 2 <= u32::MAX,
                next0 <= pool.spec_disk().next_page_id(),
                pushed_key@.len() <= ENTRY_BOUND - 8,
                self.root_page_id == old(self).root_page_id,
                next0 == old(pool).spec_disk().next_page_id(),
                key@.len() <= MAX_KEY_SIZE,
                !lone_fits,
                full_lone ==> path@.len() == 0,
                full_lone == (old(pool).pinnable(old(self).spec_root()) && !spec_is_internal(
                    cached_bytes(*old(pool), old(self).spec_root()),
                ) && !node_fits(cached_bytes(*old(pool), old(self).spec_root()), spec_leaf_payload(key@, rid).len() as int)),
                lone_fits == (old(pool).frame_of_spec(old(self).spec_root()) is Some && !spec_is_internal(
                    cached_bytes(*old(pool), old(self).spec_root()),
                ) && node_fits(cached_bytes(*old(pool), old(self).spec_root()), spec_leaf_payload(key@, rid).len() as int)),
            decreases path@.len(),
        {
            assert(!full_lone);
            let parent = path.pop().unwrap();
            let internal_payload = build_internal_payload(pushed_key.as_slice(), pushed_right);
            match insert_into_node(pool, parent, txn_id, pushed_key.as_slice(), internal_payload.as_slice()) {
                Ok(true) => return Ok(()),
                Ok(false) => {},
                Err(e) => return Err(e),
            }
            let node = match read_node(pool, parent) {
                Ok(n) => n,
                Err(e) => return Err(e),
            };
            proof {
                node.lemma_len();
            }
            let (tail, mut entries) = match read_entries(node.data().as_slice(), parent) {
                Ok(t) => t,
                Err(e) => return Err(e),
            };
            let old_tail = match tail {
                Some(t) => t,
                None => {
                    let reason = String::from_str("internal node has no tail (leftmost child) pointer");
                    return Err(StorageError::CorruptPage { page_id: parent.0, reason });
                },
            };
            proof {
                assert forall|i: int| 0 <= i < entries@.len() implies (#[trigger] entries@[i])@.len() <= ENTRY_BOUND by {
                    lemma_entry_at_len(node.bytes(), i as u16);
                }
            }
            let at = upper_bound_in(entries.as_slice(), pushed_key.as_slice());
            let ghost before = entries@;
            proof {
                lemma_auto_spec_u16_to_from_le_bytes();
                lemma_auto_spec_u32_to_from_le_bytes();
                assert(internal_payload@.len() <= ENTRY_BOUND);
            }
            entries.insert(at, internal_payload);
            proof {
                assert forall|i: int| 0 <= i < entries@.len() implies (#[trigger] entries@[i])@.len() <= ENTRY_BOUND by {
                    if i > at {
                        assert(entries@[i] == before[i - 1]);
                    } else if i < at {
                        assert(entries@[i] == before[i]);
                    }
                }
            }
            proof {
                lemma_entries_fit_usize(entries@);
            }
            let split_at = internal_split_point(entries.as_slice());
            let pushed_entry = entries.remove(split_at);
            let right_entries = entries.split_off(split_at);
            let left_entries = entries;
            proof {
                lemma_entries_fit_usize(right_entries@);
                lemma_entries_fit_usize(left_entries@);
            }
            let n = if pushed_entry.len() >= 2 {
                crate::codec::read_u16(pushed_entry.as_slice(), 0) as usize
            } else {
                0
            };
            if pushed_entry.len() < KEY_LEN_PREFIX + CHILD_TRAILER_SIZE || n > pushed_entry.len() - KEY_LEN_PREFIX - CHILD_TRAILER_SIZE {
                let reason = String::from_str("an entry is too short for its key and child page");
                return Err(StorageError::CorruptPage { page_id: parent.0, reason });
            }
            let new_pushed_key = slice_to_vec(entry_key(pushed_entry.as_slice()));
            let new_pushed_tail = internal_child(pushed_entry.as_slice());
            let new_right = match new_node(pool, txn_id, true, Some(new_pushed_tail), right_entries.as_slice()) {
                Ok(p) => p,
                Err(e) => return Err(e),
            };
            match rebuild_node(pool, parent, txn_id, true, Some(old_tail), left_entries.as_slice()) {
                Ok(()) => {},
                Err(e) => return Err(e),
            }
            left_page_id = parent;
            pushed_key = new_pushed_key;
            pushed_right = new_right;
        }
        let root_entry = build_internal_payload(pushed_key.as_slice(), pushed_right);
        let mut root_entries: Vec<Vec<u8>> = Vec::new();
        root_entries.push(root_entry);
        proof {
            lemma_auto_spec_u16_to_from_le_bytes();
            lemma_auto_spec_u32_to_from_le_bytes();
            assert(root_entries@[0]@.len() <= ENTRY_BOUND);
            lemma_entries_fit_usize(root_entries@);
        }
        let new_root = match new_node(pool, txn_id, true, Some(left_page_id), root_entries.as_slice()) {
            Ok(p) => p,
            Err(e) => return Err(e),
        };
        self.root_page_id = new_root;
        Ok(())
    }

    /// Checks the subtree at `page_id` under the bounds it inherits, at
    /// `depth` below the root.
    fn check_node<D: BlockDevice, W: BlockDevice, S: SegmentStore>(
        &self,
        pool: &mut BufferPool<D, W, S>,
        page_id: PageId,
        low: Option<&[u8]>,
        high: Option<&[u8]>,
        depth: usize,
        state: &mut InvariantState,
    ) -> (r: Result<(), String>)
        requires
            old(pool).inv(),
            depth <= MAX_TREE_DEPTH,
        ensures
            final(pool).inv(),
            final(pool).frames().len() == old(pool).frames().len(),
            final(pool).spec_disk().spec_page_size() == old(pool).spec_disk().spec_page_size(),
            final(pool).spec_disk().next_page_id() == old(pool).spec_disk().next_page_id(),
            old(state).visited@.contains(page_id.0) ==> r is Err && *final(state) == *old(state) && *final(pool)
                == *old(pool),
            r is Ok ==> final(state).visited@.contains(page_id.0) && old(state).visited@.is_prefix_of(
                final(state).visited@,
            ),
            r is Ok ==> final(state).leaf_depth is Some && (old(state).leaf_depth is Some ==> final(state).leaf_depth
                == old(state).leaf_depth),
            r is Ok ==> old(state).leaves@.is_prefix_of(final(state).leaves@) && final(state).leaves@.len() > old(
                state,
            ).leaves@.len(),
            r is Ok && !old(state).visited@.contains(page_id.0) && old(pool).pinnable(page_id) && spec_is_internal(
                cached_bytes(*old(pool), page_id),
            ) ==> forall|i: int|
                0 <= i <= spec_slot_count(cached_bytes(*old(pool), page_id)) ==> final(state).visited@.contains(
                    #[trigger] node_child(cached_bytes(*old(pool), page_id), i),
                ),
            !old(state).visited@.contains(page_id.0) && old(pool).pinnable(page_id) && !node_checks_out(
                cached_bytes(*old(pool), page_id),
                opt_bytes(low),
                opt_bytes(high),
            ) ==> r is Err,
            ({
                let s = cached_bytes(*old(pool), page_id);
                &&& !old(state).visited@.contains(page_id.0)
                &&& old(pool).pinnable(page_id)
                &&& node_checks_out(s, opt_bytes(low), opt_bytes(high))
                &&& !spec_is_internal(s)
                &&& (old(state).leaf_depth is None || old(state).leaf_depth == Some(depth))
            }) ==> {
                &&& r is Ok
                &&& cached_read(*old(pool), *final(pool))
                &&& final(state).visited@ == old(state).visited@.push(page_id.0)
                &&& final(state).leaves@ == old(state).leaves@.push(page_id)
                &&& final(state).leaf_depth == Some(depth)
            },
            ({
                &&& depth < MAX_TREE_DEPTH
                &&& !old(state).visited@.contains(page_id.0)
                &&& over_sound_leaves(*old(pool), page_id, opt_bytes(low), opt_bytes(high), old(state).visited@)
                &&& (old(state).leaf_depth is None || old(state).leaf_depth == Some((depth + 1) as usize))
            }) ==> {
                let s = cached_bytes(*old(pool), page_id);
                let n = spec_slot_count(s) as int;
                &&& r is Ok
                &&& final(pool).frames() == old(pool).frames()
                &&& final(pool).table() == old(pool).table()
                &&& final(pool).access_clock() == old(pool).access_clock() + n + 2
                &&& final(state).visited@ == old(state).visited@.push(page_id.0) + children_of(s, n + 1)
                &&& final(state).leaves@ == old(state).leaves@ + children_of(s, n + 1).map_values(|c: u32| PageId(c))
                &&& final(state).leaf_depth == Some((depth + 1) as usize)
            },
        decreases MAX_TREE_DEPTH - depth,
    {
        let ghost sound = depth < MAX_TREE_DEPTH && !old(state).visited@.contains(page_id.0) && over_sound_leaves(
            *old(pool),
            page_id,
            opt_bytes(low),
            opt_bytes(high),
            old(state).visited@,
        ) && (old(state).leaf_depth is None || old(state).leaf_depth == Some((depth + 1) as usize));
        let ghost s0 = cached_bytes(*old(pool), page_id);
        if contains_page(&state.visited, page_id.0) {
            let mut m = String::new();
            push_str(&mut m, "page ");
            push_decimal(&mut m, page_id.0 as u64);
            push_str(&mut m, " is reachable from more than one parent");
            return Err(m);
        }
        state.visited.push(page_id.0);
        proof {
            let ov = old(state).visited@;
            assert(state.visited@[ov.len() as int] == page_id.0);
            assert(state.visited@.subrange(0, ov.len() as int) =~= ov);
        }
        let node = match read_node(pool, page_id) {
            Ok(n) => n,
            Err(e) => return Err(page_error(page_id, &e)),
        };
        proof {
            node.lemma_len();
        }
        let summary = match check_node_page(node.data().as_slice(), page_id, low, high) {
            Ok(s) => s,
            Err(m) => return Err(m),
        };
        if summary.is_leaf {
            match state.leaf_depth {
                None => {
                    state.leaf_depth = Some(depth);
                },
                Some(expected) => {
                    if expected != depth {
                        let mut m = String::new();
                        push_str(&mut m, "page ");
                        push_decimal(&mut m, page_id.0 as u64);
                        push_str(&mut m, ": leaf is at depth ");
                        push_decimal(&mut m, depth as u64);
                        push_str(&mut m, ", but another leaf is at depth ");
                        push_decimal(&mut m, expected as u64);
                        return Err(m);
                    }
                },
            }
            state.leaves.push(page_id);
            return Ok(());
        }
        if depth == MAX_TREE_DEPTH {
            let mut m = String::new();
            push_str(&mut m, "page ");
            push_decimal(&mut m, page_id.0 as u64);
            push_str(&mut m, ": the tree is deeper than ");
            push_decimal(&mut m, MAX_TREE_DEPTH as u64);
            push_str(&mut m, " levels: its child pointers form a cycle");
            return Err(m);
        }
        let count = summary.keys.len();
        proof {
            if old(pool).pinnable(page_id) {
                let cs = cached_bytes(*old(pool), page_id);
                assert(node.bytes() == cs);
                assert forall|c: int| 0 <= c < summary.children@.len() implies summary.children@[c].0 == #[trigger] node_child(
                    cs,
                    c,
                ) by {
                    if c > 0 {
                        assert(summary.children@[(c - 1) + 1] == summary.children@[c]);
                    }
                }
            }
        }
        let mut i: usize = 0;
        while i < summary.children.len()
            invariant
                pool.inv(),
                pool.frames().len() == old(pool).frames().len(),
                pool.spec_disk().spec_page_size() == old(pool).spec_disk().spec_page_size(),
                pool.spec_disk().next_page_id() == old(pool).spec_disk().next_page_id(),
                depth < MAX_TREE_DEPTH,
                count == summary.keys@.len(),
                summary.children@.len() == count + 1,
                i <= summary.children@.len(),
                state.visited@.contains(page_id.0),
                old(state).visited@.is_prefix_of(state.visited@),
                old(state).leaves@.is_prefix_of(state.leaves@),
                i > 0 ==> state.leaf_depth is Some && state.leaves@.len() > old(state).leaves@.len(),
                old(state).leaf_depth is Some ==> state.leaf_depth == old(state).leaf_depth,
                i == 0 ==> state.leaf_depth == old(state).leaf_depth && state.leaves@ == old(state).leaves@,
                !old(state).visited@.contains(page_id.0),
                old(pool).pinnable(page_id) ==> spec_is_internal(cached_bytes(*old(pool), page_id)),
                old(pool).pinnable(page_id) ==> (forall|c: int|
                    0 <= c < summary.children@.len() ==> summary.children@[c].0 == #[trigger] node_child(
                        cached_bytes(*old(pool), page_id),
                        c,
                    )),
                old(pool).pinnable(page_id) ==> summary.children@.len() == spec_slot_count(cached_bytes(*old(pool), page_id)) + 1,
                forall|c: int| 0 <= c < i ==> state.visited@.contains(#[trigger] summary.children@[c].0),
                sound == (depth < MAX_TREE_DEPTH && !old(state).visited@.contains(page_id.0) && over_sound_leaves(
                    *old(pool),
                    page_id,
                    opt_bytes(low),
                    opt_bytes(high),
                    old(state).visited@,
                ) && (old(state).leaf_depth is None || old(state).leaf_depth == Some((depth + 1) as usize))),
                s0 == cached_bytes(*old(pool), page_id),
                sound ==> {
                    &&& pool.frames() == old(pool).frames()
                    &&& pool.table() == old(pool).table()
                    &&& pool.access_clock() == old(pool).access_clock() + 1 + i
                    &&& state.visited@ == old(state).visited@.push(page_id.0) + children_of(s0, i as int)
                    &&& state.leaves@ == old(state).leaves@ + children_of(s0, i as int).map_values(|c: u32| PageId(c))
                    &&& i > 0 ==> state.leaf_depth == Some((depth + 1) as usize)
                    &&& count == spec_slot_count(s0)
                    &&& forall|k: int| 0 <= k < count ==> (#[trigger] summary.keys@[k])@ == node_key(s0, k)
                },
            decreases summary.children@.len() - i,
        {
            let ghost v1 = state.visited@;
            let ghost l1 = state.leaves@;
            let child_low: Option<&[u8]> = if i == 0 {
                low
            } else {
                Some(summary.keys[i - 1].as_slice())
            };
            let child_high: Option<&[u8]> = if i == count {
                high
            } else {
                Some(summary.keys[i].as_slice())
            };
            proof {
                if sound {
                    let child = node_child(s0, i as int);
                    assert(summary.children@[i as int].0 == child);
                    assert(summary.children@[i as int] == PageId(child));
                    let ov = old(state).visited@;
                    assert(!state.visited@.contains(child)) by {
                        if state.visited@.contains(child) {
                            let k = choose|k: int| 0 <= k < state.visited@.len() && state.visited@[k] == child;
                            if k < ov.len() {
                                assert(ov[k] == child);
                            } else if k > ov.len() {
                                let c = k - ov.len() - 1;
                                assert(children_of(s0, i as int)[c] == node_child(s0, c));
                            }
                        }
                    }
                    assert(pool.frame_of_spec(PageId(child)) == old(pool).frame_of_spec(PageId(child)));
                    assert(pool.pinnable(PageId(child)));
                    assert(cached_bytes(*pool, PageId(child)) == cached_bytes(*old(pool), PageId(child)));
                    if i > 0 {
                        assert(summary.keys@[i - 1]@ == node_key(s0, i - 1));
                    }
                    if i < count {
                        assert(summary.keys@[i as int]@ == node_key(s0, i as int));
                    }
                    assert(opt_bytes(child_low) == child_low_bound(s0, opt_bytes(low), i as int));
                    assert(opt_bytes(child_high) == child_high_bound(s0, opt_bytes(high), i as int));
                }
            }
            match self.check_node(pool, summary.children[i], child_low, child_high, depth + 1, state) {
                Ok(()) => {
                    proof {
                        if sound {
                            assert(state.visited@ =~= old(state).visited@.push(page_id.0) + children_of(s0, i + 1));
                            assert(state.leaves@ =~= old(state).leaves@ + children_of(s0, i + 1).map_values(
                                |c: u32| PageId(c),
                            ));
                        }
                    }
                    proof {
                        let ov = old(state).visited@;
                        let nv = state.visited@;
                        assert(v1 =~= nv.subrange(0, v1.len() as int));
                        assert(ov =~= v1.subrange(0, ov.len() as int));
                        assert(ov =~= nv.subrange(0, ov.len() as int));
                        let k = choose|k: int| 0 <= k < v1.len() && v1[k] == page_id.0;
                        assert(nv[k] == page_id.0);
                        assert forall|c: int| 0 <= c <= i implies nv.contains(#[trigger] summary.children@[c].0) by {
                            if c < i {
                                assert(v1.contains(summary.children@[c].0));
                                let kc = choose|kc: int| 0 <= kc < v1.len() && v1[kc] == summary.children@[c].0;
                                assert(nv[kc] == summary.children@[c].0);
                            }
                        }
                        let ol = old(state).leaves@;
                        let nl = state.leaves@;
                        assert(l1 =~= nl.subrange(0, l1.len() as int));
                        assert(ol =~= l1.subrange(0, ol.len() as int));
                        assert(ol =~= nl.subrange(0, ol.len() as int));
                    }
                },
                Err(m) => return Err(m),
            }
            i = i + 1;
        }
        Ok(())
    }

    /// Checks the tree: every node checks out under the key bounds its
    /// parents give it, no page is reached twice, every leaf lies at one
    /// depth, and the chain of next-leaf pointers from the leftmost leaf
    /// visits the leaves in key order. Says what is wrong otherwise.
    pub fn check_invariants<D: BlockDevice, W: BlockDevice, S: SegmentStore>(
        &self,
        pool: &mut BufferPool<D, W, S>,
    ) -> (r: Result<(), String>)
        requires
            old(pool).inv(),
        ensures
            final(pool).inv(),
            final(pool).frames().len() == old(pool).frames().len(),
            final(pool).spec_disk().spec_page_size() == old(pool).spec_disk().spec_page_size(),
            final(pool).spec_disk().next_page_id() == old(pool).spec_disk().next_page_id(),
            old(pool).pinnable(self.spec_root()) && !node_checks_out(
                cached_bytes(*old(pool), self.spec_root()),
                None,
                None,
            ) ==> r is Err,
            ({
                let s = cached_bytes(*old(pool), self.spec_root());
                &&& old(pool).pinnable(self.spec_root())
                &&& old(pool).access_clock() + 3 <= u64::MAX
                &&& is_lone_leaf(s)
                &&& node_checks_out(s, None, None)
            }) ==> r is Ok,
            ({
                let s = cached_bytes(*old(pool), self.spec_root());
                &&& over_sound_leaves(*old(pool), self.spec_root(), None, None, Seq::empty())
                &&& leaves_chained(*old(pool), s)
                &&& old(pool).access_clock() + 2 * spec_slot_count(s) + 6 <= u64::MAX
            }) ==> r is Ok,
    {
        let ghost rb = cached_bytes(*old(pool), self.spec_root());
        let ghost n = spec_slot_count(rb) as int;
        let ghost two_ok = over_sound_leaves(*old(pool), self.spec_root(), None, None, Seq::empty())
            && leaves_chained(*old(pool), rb) && old(pool).access_clock() + 2 * n + 6 <= u64::MAX;
        let ghost kids = children_of(rb, n + 1).map_values(|c: u32| PageId(c));
        let ghost lone_ok = old(pool).pinnable(self.spec_root()) && old(pool).access_clock() + 3 <= u64::MAX
            && is_lone_leaf(rb) && node_checks_out(rb, None, None);
        let mut state = InvariantState { visited: Vec::new(), leaf_depth: None, leaves: Vec::new() };
        match self.check_node(pool, self.root_page_id, None, None, 0, &mut state) {
            Ok(()) => {},
            Err(m) => return Err(m),
        }
        proof {
            if two_ok {
                assert(state.visited@ =~= Seq::<u32>::empty().push(self.spec_root().0) + children_of(rb, n + 1));
                assert(leftmost_is_leaf_child(*pool, self.spec_root())) by {
                    assert(node_child(rb, 0) == spec_tail(rb));
                    assert(cached_bytes(*pool, PageId(node_child(rb, 0))) == cached_bytes(*old(pool), PageId(node_child(rb, 0))));
                }
                assert(state.leaves@ =~= kids);
            }
        }
        let ghost clock1 = pool.access_clock();
        let mut via_tail: Vec<PageId> = Vec::new();
        let mut current = match self.leftmost_leaf(pool) {
            Ok(l) => l,
            Err(e) => return Err(e.message()),
        };
        proof {
            if two_ok {
                assert(current == kids[0]);
            }
        }
        loop
            invariant_except_break
                via_tail@.len() <= state.leaves@.len(),
                lone_ok ==> via_tail@.len() == 0 && current == self.spec_root() && pool.pinnable(self.spec_root())
                    && cached_bytes(*pool, self.spec_root()) == rb,
                two_ok ==> via_tail@.len() <= n && current == kids[via_tail@.len() as int] && via_tail@
                    == kids.take(via_tail@.len() as int),
            invariant
                two_ok == (over_sound_leaves(*old(pool), self.spec_root(), None, None, Seq::empty()) && leaves_chained(
                    *old(pool),
                    rb,
                ) && old(pool).access_clock() + 2 * n + 6 <= u64::MAX),
                n == spec_slot_count(rb) as int,
                kids == children_of(rb, n + 1).map_values(|c: u32| PageId(c)),
                two_ok ==> state.leaves@ == kids,
                two_ok ==> pool.frames() == old(pool).frames() && pool.table() == old(pool).table()
                    && pool.access_clock() == old(pool).access_clock() + n + 4 + via_tail@.len(),
                pool.inv(),
                pool.frames().len() == old(pool).frames().len(),
                pool.spec_disk().spec_page_size() == old(pool).spec_disk().spec_page_size(),
                pool.spec_disk().next_page_id() == old(pool).spec_disk().next_page_id(),
                lone_ok ==> state.leaves@ == seq![self.spec_root()] && is_lone_leaf(rb),
                rb == cached_bytes(*old(pool), self.spec_root()),
                lone_ok == (old(pool).pinnable(self.spec_root()) && old(pool).access_clock() + 3 <= u64::MAX
                    && is_lone_leaf(rb) && node_checks_out(rb, None, None)),
            ensures
                pool.inv(),
                pool.frames().len() == old(pool).frames().len(),
                pool.spec_disk().spec_page_size() == old(pool).spec_disk().spec_page_size(),
                pool.spec_disk().next_page_id() == old(pool).spec_disk().next_page_id(),
                lone_ok ==> via_tail@ == seq![self.spec_root()],
                two_ok ==> via_tail@ == kids,
            decreases state.leaves@.len() - via_tail@.len(),
        {
            proof {
                if two_ok {
                    let k = via_tail@.len() as int;
                    let child = kids[k];
                    assert(child == PageId(node_child(rb, k)));
                    assert(pool.frame_of_spec(child) == old(pool).frame_of_spec(child));
                    assert(cached_bytes(*pool, child) == cached_bytes(*old(pool), child));
                }
            }
            via_tail.push(current);
            let node = match read_node(pool, current) {
                Ok(n) => n,
                Err(e) => return Err(e.message()),
            };
            proof {
                node.lemma_len();
            }
            proof {
                if two_ok {
                    let k = via_tail@.len() - 1;
                    assert(via_tail@ =~= kids.take(k + 1));
                    if k < n {
                        assert(spec_tail(cached_bytes(*old(pool), kids[k])) == node_child(rb, k + 1));
                    }
                }
            }
            match tail_raw(node.data().as_slice()) {
                Some(next) => {
                    if via_tail.len() > state.leaves.len() {
                        break;
                    }
                    current = next;
                },
                None => break,
            }
        }
        if !same_pages(&via_tail, &state.leaves) {
            let mut m = String::new();
            push_str(&mut m, "leaf sibling chain ");
            push_page_list(&mut m, via_tail.as_slice());
            push_str(&mut m, " does not match key-order leaf traversal ");
            push_page_list(&mut m, state.leaves.as_slice());
            return Err(m);
        }
        Ok(())
    }

    /// The index whose root node is `root_page_id`.
    pub fn open(root_page_id: PageId) -> (index: BTreeIndex)
        ensures
            index.spec_root() == root_page_id,
    {
        BTreeIndex { root_page_id }
    }

    pub fn root_page_id(&self) -> (r: PageId)
        ensures
            r == self.spec_root(),
    {
        self.root_page_id
    }
}

/// The tree rooted at `root` is internal at the root, with a leaf as its
/// leftmost child; both are cached and the pool can pin each once more.
pub open spec fn leftmost_is_leaf_child<D: BlockDevice, W: BlockDevice, S: SegmentStore>(
    pool: BufferPool<D, W, S>,
    root: PageId,
) -> bool {
    let s = cached_bytes(pool, root);
    let t = PageId(spec_tail(s));
    &&& pool.pinnable(root)
    &&& spec_is_internal(s)
    &&& spec_tail(s) != 0
    &&& t != root
    &&& pool.frame_of_spec(t) is Some
    &&& pool.frames()[pool.frame_of_spec(t).unwrap() as int].pin_count < u32::MAX
    &&& pool.access_clock() + 2 < u64::MAX
    &&& !spec_is_internal(cached_bytes(pool, t))
}

/// The leaves under internal node `s` are chained in key order: each
/// child's next-leaf pointer names the child after it, the last names
/// none, and no child is page 0.
pub open spec fn leaves_chained<D: BlockDevice, W: BlockDevice, S: SegmentStore>(
    pool: BufferPool<D, W, S>,
    s: Seq<u8>,
) -> bool {
    let n = spec_slot_count(s) as int;
    &&& forall|c: int| 0 <= c <= n ==> #[trigger] node_child(s, c) != 0
    &&& forall|c: int|
        0 <= c < n ==> spec_tail(cached_bytes(pool, PageId(#[trigger] node_child(s, c)))) == node_child(s, c + 1)
    &&& spec_tail(cached_bytes(pool, PageId(node_child(s, n)))) == 0
}

/// A search for `key` in the tree rooted at `root` passes the root, an
/// internal node whose entries read and hold children, to a leaf: the
/// child the search picks is cached, a leaf and not the root, and the pool
/// can pin the root and it once more.
pub open spec fn descends_to_leaf_child<D: BlockDevice, W: BlockDevice, S: SegmentStore>(
    pool: BufferPool<D, W, S>,
    root: PageId,
    key: Seq<u8>,
) -> bool {
    let s = cached_bytes(pool, root);
    &&& pool.pinnable(root)
    &&& pool.access_clock() + 2 < u64::MAX
    &&& spec_is_internal(s)
    &&& entries_readable(s)
    &&& entries_hold_children(s)
    &&& spec_tail(s) != 0
    &&& forall|lo: int|
        #[trigger] is_bound_at(s, BoundProbe::KeyAtMost, key, lo) ==> (spec_child_at(s, lo) matches Ok(c) && c != root
            && pool.frame_of_spec(c) is Some && pool.frames()[pool.frame_of_spec(c).unwrap() as int].pin_count
            < u32::MAX && !spec_is_internal(cached_bytes(pool, c)))
}

/// A search for `key` from `root` passes an internal root to a leaf
/// whose entries all read and hold record ids, and the pool can pin the
/// leaf once more after the search.
pub open spec fn get_reads_leaf<D: BlockDevice, W: BlockDevice, S: SegmentStore>(
    pool: BufferPool<D, W, S>,
    root: PageId,
    key: Seq<u8>,
) -> bool {
    let s = cached_bytes(pool, root);
    &&& descends_to_leaf_child(pool, root, key)
    &&& pool.access_clock() + 3 < u64::MAX
    &&& forall|lo: int|
        #[trigger] is_bound_at(s, BoundProbe::KeyAtMost, key, lo) ==> (spec_child_at(s, lo) matches Ok(c)
            && entries_readable(cached_bytes(pool, c)) && leaf_entries_fit(cached_bytes(pool, c)))
}

/// What `get` gives for `key` on a tree whose internal root `rb` leads a
/// search to a leaf: the run of entries with key `key` there, from the
/// first whose sort key is not below `key`, is its record ids, unless the
/// run reaches the end of the leaf and a next leaf follows (the run goes
/// on there).
pub open spec fn get_through_leaf<D: BlockDevice, W: BlockDevice, S: SegmentStore>(
    pool: BufferPool<D, W, S>,
    rb: Seq<u8>,
    key: Seq<u8>,
    r: Result<Vec<Rid>, StorageError>,
) -> bool {
    exists|leaf: PageId, start: int, end: int|
        #![trigger is_key_run(cached_bytes(pool, leaf), key, start, end)]
        {
            let lb = cached_bytes(pool, leaf);
            &&& exists|lo: int|
                is_bound_at(rb, BoundProbe::KeyAtMost, key, lo) && spec_child_at(rb, lo) == Ok::<PageId, Seq<char>>(leaf)
            &&& is_bound_at(lb, BoundProbe::SortKeyBelow, key, start)
            &&& is_key_run(lb, key, start, end)
            &&& (end < spec_slot_count(lb) || spec_tail(lb) == 0) ==> (r matches Ok(v) && v@ == rid_run(lb, start, end))
        }
}

/// A search for `key` from `root` passes an internal root to a readable
/// leaf, and where that leaf has a next leaf, the next is cached, readable
/// and pinnable too; the pool can pin four times more and the file has
/// pages.
pub open spec fn get_hops_on<D: BlockDevice, W: BlockDevice, S: SegmentStore>(
    pool: BufferPool<D, W, S>,
    root: PageId,
    key: Seq<u8>,
) -> bool {
    let s = cached_bytes(pool, root);
    &&& get_reads_leaf(pool, root, key)
    &&& pool.access_clock() + 4 < u64::MAX
    &&& pool.spec_disk().next_page_id() > 0
    &&& forall|lo: int|
        #[trigger] is_bound_at(s, BoundProbe::KeyAtMost, key, lo) ==> (spec_child_at(s, lo) matches Ok(c) && (spec_tail(
            cached_bytes(pool, c),
        ) != 0 ==> {
            let n = PageId(spec_tail(cached_bytes(pool, c)));
            &&& pool.frame_of_spec(n) is Some
            &&& pool.frames()[pool.frame_of_spec(n).unwrap() as int].pin_count < u32::MAX
            &&& entries_readable(cached_bytes(pool, n))
            &&& leaf_entries_fit(cached_bytes(pool, n))
        }))
}

/// What `get` gives for `key` when its run may go on into the next leaf:
/// in the leaf a search picks, the run from the first entry whose sort
/// key is not below `key`; where that run reaches the end of the leaf and
/// a next leaf follows, the run of entries with key `key` at the start of
/// the next leaf is added, unless that one too reaches the end of its leaf
/// and a further leaf follows.
pub open spec fn get_through_two_leaves<D: BlockDevice, W: BlockDevice, S: SegmentStore>(
    pool: BufferPool<D, W, S>,
    rb: Seq<u8>,
    key: Seq<u8>,
    r: Result<Vec<Rid>, StorageError>,
) -> bool {
    exists|leaf: PageId, start: int, end: int|
        #![trigger is_key_run(cached_bytes(pool, leaf), key, start, end)]
        {
            let lb = cached_bytes(pool, leaf);
            let nb = cached_bytes(pool, PageId(spec_tail(lb)));
            &&& exists|lo: int|
                is_bound_at(rb, BoundProbe::KeyAtMost, key, lo) && spec_child_at(rb, lo) == Ok::<PageId, Seq<char>>(leaf)
            &&& is_bound_at(lb, BoundProbe::SortKeyBelow, key, start)
            &&& is_key_run(lb, key, start, end)
            &&& end == spec_slot_count(lb) && spec_tail(lb) != 0 ==> exists|end2: int|
                #![trigger is_key_run(cached_bytes(pool, PageId(spec_tail(lb))), key, 0, end2)]
                is_key_run(nb, key, 0, end2) && ((end2 < spec_slot_count(nb) || spec_tail(nb) == 0) ==> (r matches Ok(v)
                    && v@ == rid_run(lb, start, end) + rid_run(nb, 0, end2)))
        }
}

/// The lower key bound child `c` of internal node `s` inherits: the
/// node's own for the leftmost child, else the key before it.
pub open spec fn child_low_bound(s: Seq<u8>, low: Option<Seq<u8>>, c: int) -> Option<Seq<u8>> {
    if c == 0 {
        low
    } else {
        Some(node_key(s, c - 1))
    }
}

/// The upper key bound child `c` of internal node `s` inherits: the
/// node's own for the rightmost child, else the key at it.
pub open spec fn child_high_bound(s: Seq<u8>, high: Option<Seq<u8>>, c: int) -> Option<Seq<u8>> {
    if c == spec_slot_count(s) {
        high
    } else {
        Some(node_key(s, c))
    }
}

/// Internal node `page_id`, checking out under `low` and `high`, sits
/// over leaves only: each child is a distinct leaf, reached for the first
/// time, that checks out under the bounds the node gives it; the node and
/// its children are cached and the pool can pin each of them once more.
pub open spec fn over_sound_leaves<D: BlockDevice, W: BlockDevice, S: SegmentStore>(
    pool: BufferPool<D, W, S>,
    page_id: PageId,
    low: Option<Seq<u8>>,
    high: Option<Seq<u8>>,
    visited: Seq<u32>,
) -> bool {
    let s = cached_bytes(pool, page_id);
    let n = spec_slot_count(s) as int;
    &&& pool.pinnable(page_id)
    &&& spec_is_internal(s)
    &&& node_checks_out(s, low, high)
    &&& pool.access_clock() + n + 2 <= u64::MAX
    &&& forall|c: int|
        0 <= c <= n ==> {
            let child = PageId(#[trigger] node_child(s, c));
            &&& child != page_id
            &&& !visited.contains(child.0)
            &&& pool.frame_of_spec(child) is Some
            &&& pool.frames()[pool.frame_of_spec(child).unwrap() as int].pin_count < u32::MAX
            &&& !spec_is_internal(cached_bytes(pool, child))
            &&& node_checks_out(cached_bytes(pool, child), child_low_bound(s, low, c), child_high_bound(s, high, c))
        }
    &&& forall|c: int, d: int| 0 <= c < d <= n ==> node_child(s, c) != node_child(s, d)
}

/// The children of internal node `s`, the leftmost first.
pub open spec fn children_of(s: Seq<u8>, k: int) -> Seq<u32> {
    Seq::new(k as nat, |c: int| node_child(s, c))
}

/// Child `i` of internal node `s`: its tail for the first, else the page
/// the entry before it points at.
pub open spec fn node_child(s: Seq<u8>, i: int) -> u32 {
    if i == 0 {
        spec_tail(s)
    } else {
        le_u32_at(entry_at(s, (i - 1) as u16), KEY_LEN_PREFIX + spec_key_len(entry_at(s, (i - 1) as u16)))
    }
}

/// A leaf a scan can step through: every entry reads and holds a record
/// id, and the sort keys rise strictly.
pub open spec fn scannable_leaf(s: Seq<u8>) -> bool {
    &&& entries_readable(s)
    &&& leaf_entries_fit(s)
    &&& rising(node_keys(s, BoundProbe::SortKeyBelow))
}

/// `slot` splits leaf `s` at `after`: the entries before it sort at or
/// below `after`, the entries from it above (with no `after`, every entry
/// is above, and `slot` is the first).
pub open spec fn first_above(s: Seq<u8>, after: Option<Seq<u8>>, slot: int) -> bool {
    &&& 0 <= slot <= spec_slot_count(s)
    &&& forall|i: u16| i < slot ==> (after matches Some(a) && lex_le(
        spec_leaf_sort_key(#[trigger] entry_at(s, i)),
        a,
    ))
    &&& forall|i: u16| slot <= i < spec_slot_count(s) ==> (after matches Some(a) ==> lex_lt(
        a,
        spec_leaf_sort_key(#[trigger] entry_at(s, i)),
    ))
}

proof fn lemma_first_above_ordered(s: Seq<u8>, after: Option<Seq<u8>>, x: int, y: int)
    requires
        first_above(s, after, x),
        first_above(s, after, y),
    ensures
        y <= x,
{
    if x < y {
        let xi = x as u16;
        assert(xi as int == x);
        let sk = spec_leaf_sort_key(entry_at(s, xi));
        assert(xi < y);
        assert(after is Some);
        let a = after->0;
        assert(lex_le(sk, a));
        assert(lex_lt(a, sk));
        lemma_lex_le_antisymmetric(sk, a);
    }
}

/// A leaf splits at one slot only.
pub proof fn lemma_first_above_unique(s: Seq<u8>, after: Option<Seq<u8>>, x: int, y: int)
    requires
        first_above(s, after, x),
        first_above(s, after, y),
    ensures
        x == y,
{
    lemma_first_above_ordered(s, after, x, y);
    lemma_first_above_ordered(s, after, y, x);
}

/// A range scan through a scannable leaf visits its entries one after
/// another, in key order: after the entry in `slot` (the leaf's split at
/// `after`), the scan continues from that entry's sort key, where the leaf
/// splits at the next slot. With no `after`, it starts at the first slot.
pub proof fn lemma_scan_visits_next_slot(s: Seq<u8>, after: Option<Seq<u8>>, slot: int)
    requires
        scannable_leaf(s),
        first_above(s, after, slot),
        slot < spec_slot_count(s),
    ensures
        first_above(s, Some(spec_leaf_sort_key(entry_at(s, slot as u16))), slot + 1),
        first_above(s, None, 0),
{
    let keys = node_keys(s, BoundProbe::SortKeyBelow);
    let k = spec_leaf_sort_key(entry_at(s, slot as u16));
    assert(keys[slot] == k);
    assert forall|i: u16| i < slot + 1 implies (Some(k) matches Some(a) && lex_le(
        spec_leaf_sort_key(#[trigger] entry_at(s, i)),
        a,
    )) by {
        assert(keys[i as int] == spec_leaf_sort_key(entry_at(s, i)));
        if (i as int) < slot {
            lemma_rising_pairs(keys, i as int, slot);
        } else {
            lemma_lex_total(k, k);
        }
    }
    assert forall|i: u16| slot + 1 <= i < spec_slot_count(s) implies (Some(k) matches Some(a) ==> lex_lt(
        a,
        spec_leaf_sort_key(#[trigger] entry_at(s, i)),
    )) by {
        assert(keys[i as int] == spec_leaf_sort_key(entry_at(s, i)));
        lemma_rising_pairs(keys, slot, i as int);
    }
}

/// In a scannable leaf, where a scan step starts is where the leaf splits
/// at `after`.
pub proof fn lemma_scan_start_splits(s: Seq<u8>, after: Option<Seq<u8>>, slot: int)
    requires
        scannable_leaf(s),
        scan_starts_at(s, after, slot),
    ensures
        first_above(s, after, slot),
{
    let keys = node_keys(s, BoundProbe::SortKeyBelow);
    let n = spec_slot_count(s);
    match after {
        None => {},
        Some(a) => {
            lemma_rising_sorted(keys);
            let b = if is_bound_at(s, BoundProbe::SortKeyBelow, a, slot) && (slot == n || (spec_entry(s, slot as u16) matches Ok(e)
                && spec_leaf_sort_key(e) != a)) {
                slot
            } else {
                slot - 1
            };
            assert(is_bound_at(s, BoundProbe::SortKeyBelow, a, b));
            lemma_node_bound_partitions(s, BoundProbe::SortKeyBelow, a, b);
            assert forall|i: u16| i < slot implies (after matches Some(a2) && lex_le(
                spec_leaf_sort_key(#[trigger] entry_at(s, i)),
                a2,
            )) by {
                if i < b {
                    assert(probe_holds(BoundProbe::SortKeyBelow, entry_at(s, i), a));
                } else {
                    assert(i == b && b == slot - 1);
                    assert(spec_entry(s, (slot - 1) as u16) is Ok);
                    lemma_lex_total(a, a);
                }
            }
            assert forall|i: u16| slot <= i < n implies (after matches Some(a2) ==> lex_lt(
                a2,
                spec_leaf_sort_key(#[trigger] entry_at(s, i)),
            )) by {
                let ki = spec_leaf_sort_key(entry_at(s, i));
                assert(keys[i as int] == ki);
                if b == slot {
                    assert(!probe_holds(BoundProbe::SortKeyBelow, entry_at(s, i), a));
                    lemma_lex_total(ki, a);
                    if i == slot {
                        assert(spec_entry(s, slot as u16) is Ok);
                    } else {
                        let kb = spec_leaf_sort_key(entry_at(s, slot as u16));
                        assert(keys[slot] == kb);
                        assert(!probe_holds(BoundProbe::SortKeyBelow, entry_at(s, slot as u16), a));
                        lemma_lex_total(kb, a);
                        lemma_rising_pairs(keys, slot, i as int);
                        if kb == a {
                            assert(spec_entry(s, slot as u16) is Ok);
                        }
                        lemma_lex_le_transitive(a, kb, ki);
                        if a == ki {
                            lemma_lex_le_antisymmetric(kb, ki);
                        }
                    }
                } else {
                    assert(spec_entry(s, (slot - 1) as u16) is Ok);
                    assert(keys[slot - 1] == a);
                    lemma_rising_pairs(keys, slot - 1, i as int);
                }
            }
        },
    }
}

/// The leaf after leaf `page_id` in the leaf chain.
pub open spec fn next_leaf_of<D: BlockDevice, W: BlockDevice, S: SegmentStore>(
    pool: BufferPool<D, W, S>,
    page_id: PageId,
) -> PageId {
    PageId(spec_tail(cached_bytes(pool, page_id)))
}

/// A scan at `after` in leaf `page_id` has nothing left there and hands
/// on to the next leaf: both leaves are cached and scannable, the pool can
/// pin each once more, and the file has pages.
pub open spec fn hands_on<D: BlockDevice, W: BlockDevice, S: SegmentStore>(
    pool: BufferPool<D, W, S>,
    page_id: PageId,
    after: Option<Seq<u8>>,
) -> bool {
    let s = cached_bytes(pool, page_id);
    let t = next_leaf_of(pool, page_id);
    &&& pool.pinnable(page_id)
    &&& scannable_leaf(s)
    &&& forall|slot: int| #[trigger] first_above(s, after, slot) ==> slot == spec_slot_count(s)
    &&& spec_tail(s) != 0
    &&& pool.frame_of_spec(t) is Some
    &&& pool.frames()[pool.frame_of_spec(t).unwrap() as int].pin_count < u32::MAX
    &&& pool.access_clock() + 2 < u64::MAX
    &&& scannable_leaf(cached_bytes(pool, t))
    &&& pool.spec_disk().next_page_id() > 0
}

/// A scan over the tree rooted at `root` starts in a lone leaf: the root
/// is a cached leaf that a scan can step through, and the pool can pin it
/// three more times.
pub open spec fn starts_in_lone_leaf<D: BlockDevice, W: BlockDevice, S: SegmentStore>(
    pool: BufferPool<D, W, S>,
    root: PageId,
) -> bool {
    &&& pool.pinnable(root)
    &&& pool.access_clock() + 3 <= u64::MAX
    &&& !spec_is_internal(cached_bytes(pool, root))
    &&& scannable_leaf(cached_bytes(pool, root))
}

/// Whether `key` lies below the scan's end, if it has one.
pub open spec fn below_end(key: Seq<u8>, end: Option<Seq<u8>>) -> bool {
    match end {
        Some(e) => lex_lt(key, e),
        None => true,
    }
}

/// One scan step through leaf `s` (page `page_id`) after `after`: the
/// least entry sorting above `after` is given when its key lies below
/// `end`, and the scan stops at it otherwise; past the last entry the
/// scan stops when there is no next leaf (and goes on to it when there
/// is one).
pub open spec fn leaf_step_ok(
    s: Seq<u8>,
    page_id: PageId,
    after: Option<Seq<u8>>,
    end: Option<Seq<u8>>,
    r: Option<Result<(Vec<u8>, Rid), StorageError>>,
    next_state: RangeStateView,
) -> bool {
    forall|slot: int|
        #[trigger] first_above(s, after, slot) ==> if slot < spec_slot_count(s) {
            let e = entry_at(s, slot as u16);
            if below_end(spec_entry_key(e), end) {
                &&& r matches Some(Ok((k, rid))) && k@ == spec_entry_key(e) && rid == spec_leaf_rid(e)
                &&& next_state == (RangeStateView::InLeaf { page_id, after: Some(spec_leaf_sort_key(e)) })
            } else {
                r is None && next_state is Done
            }
        } else if spec_tail(s) == 0 {
            r is None && next_state is Done
        } else {
            true
        }
}

enum RangeState {
    NotStarted { start: Option<Vec<u8>> },
    InLeaf { page_id: PageId, after: Option<Vec<u8>> },
    Done,
}

/// Where a range scan stands.
pub enum RangeStateView {
    NotStarted { start: Option<Seq<u8>> },
    InLeaf { page_id: PageId, after: Option<Seq<u8>> },
    Done,
}

pub open spec fn opt_vec(o: Option<Vec<u8>>) -> Option<Seq<u8>> {
    match o {
        Some(v) => Some(v@),
        None => None,
    }
}

/// A range scan over an index, stepped by `next`.
pub struct BTreeRangeIterator {
    root_page_id: PageId,
    end: Option<Vec<u8>>,
    state: RangeState,
}

impl BTreeRangeIterator {
    pub closed spec fn spec_root(&self) -> PageId {
        self.root_page_id
    }

    pub closed spec fn spec_end(&self) -> Option<Seq<u8>> {
        opt_vec(self.end)
    }

    pub closed spec fn spec_state(&self) -> RangeStateView {
        match self.state {
            RangeState::NotStarted { start } => RangeStateView::NotStarted { start: opt_vec(start) },
            RangeState::InLeaf { page_id, after } => RangeStateView::InLeaf { page_id, after: opt_vec(after) },
            RangeState::Done => RangeStateView::Done,
        }
    }

    /// The next entry of the scan as its key and record id: the entry
    /// after the last one given, walking on through the next leaves past
    /// the end of a leaf. Gives `None` once the leaves run out or a key
    /// reaches the end of the range, and after an error.
    #[verifier::spinoff_prover]
    pub fn next<D: BlockDevice, W: BlockDevice, S: SegmentStore>(
        &mut self,
        pool: &mut BufferPool<D, W, S>,
    ) -> (r: Option<Result<(Vec<u8>, Rid), StorageError>>)
        requires
            old(pool).inv(),
        ensures
            final(pool).inv(),
            final(pool).frames().len() == old(pool).frames().len(),
            final(pool).spec_disk().spec_page_size() == old(pool).spec_disk().spec_page_size(),
            final(pool).spec_disk().next_page_id() == old(pool).spec_disk().next_page_id(),
            final(self).spec_root() == old(self).spec_root(),
            final(self).spec_end() == old(self).spec_end(),
            old(self).spec_state() is Done ==> r is None && final(self).spec_state() is Done,
            r is None ==> final(self).spec_state() is Done,
            r matches Some(Err(_)) ==> final(self).spec_state() is Done,
            r matches Some(Ok((key, rid))) ==> {
                &&& (old(self).spec_end() matches Some(end) ==> lex_lt(key@, end))
                &&& final(self).spec_state() matches RangeStateView::InLeaf { page_id, after }
                &&& final(pool).frame_of_spec(page_id) is Some
                &&& after matches Some(sort_key)
                &&& exists|slot: u16| #[trigger] spec_entry(cached_bytes(*final(pool), page_id), slot) matches Ok(e)
                    && spec_entry_key(e) == key@ && spec_leaf_sort_key(e) == sort_key && spec_leaf_rid(e) == rid
            },
            old(self).spec_state() matches RangeStateView::InLeaf { page_id, after } ==> (old(pool).pinnable(page_id)
                && scannable_leaf(cached_bytes(*old(pool), page_id)) ==> leaf_step_ok(
                cached_bytes(*old(pool), page_id),
                page_id,
                after,
                old(self).spec_end(),
                r,
                final(self).spec_state(),
            )),
            old(self).spec_state() matches RangeStateView::InLeaf { page_id, after } ==> (hands_on(
                *old(pool),
                page_id,
                after,
            ) ==> leaf_step_ok(
                cached_bytes(*old(pool), next_leaf_of(*old(pool), page_id)),
                next_leaf_of(*old(pool), page_id),
                after,
                old(self).spec_end(),
                r,
                final(self).spec_state(),
            )),
            old(self).spec_state() matches RangeStateView::NotStarted { start } ==> (starts_in_lone_leaf(
                *old(pool),
                old(self).spec_root(),
            ) ==> leaf_step_ok(
                cached_bytes(*old(pool), old(self).spec_root()),
                old(self).spec_root(),
                start,
                old(self).spec_end(),
                r,
                final(self).spec_state(),
            )),
    {
        let index = BTreeIndex { root_page_id: self.root_page_id };
        let begun: Option<Result<RangeState, StorageError>> = match &self.state {
            RangeState::NotStarted { start } => {
                let start_slice: Option<&[u8]> = match start {
                    Some(k) => Some(k.as_slice()),
                    None => None,
                };
                match index.leaf_for_start(pool, start_slice) {
                    Ok((page_id, _)) => {
                        let after = match start {
                            Some(k) => Some(slice_to_vec(k.as_slice())),
                            None => None,
                        };
                        Some(Ok(RangeState::InLeaf { page_id, after }))
                    },
                    Err(e) => Some(Err(e)),
                }
            },
            _ => None,
        };
        match begun {
            Some(Ok(state)) => {
                self.state = state;
            },
            Some(Err(e)) => {
                self.state = RangeState::Done;
                return Some(Err(e));
            },
            None => {},
        }
        let ghost mid_pool = *pool;
        let ghost mid_self = *self;
        let limit = pool.next_page_id();
        let mut hops: u32 = 0;
        let ghost mut first = true;
        let ghost mut second = false;
        let ghost mut past_second = false;
        let ghost ho = match mid_self.spec_state() {
            RangeStateView::InLeaf { page_id, after } => hands_on(mid_pool, page_id, after),
            _ => false,
        };
        let ghost hp = match mid_self.spec_state() {
            RangeStateView::InLeaf { page_id, after } => page_id,
            _ => PageId(0),
        };
        let ghost ha = match mid_self.spec_state() {
            RangeStateView::InLeaf { page_id, after } => after,
            _ => None,
        };
        let ghost tl = next_leaf_of(mid_pool, hp);
        loop
            invariant
                first ==> *self == mid_self && *pool == mid_pool,
                mid_pool.inv(),
                mid_self.root_page_id == old(self).root_page_id,
                mid_self.end == old(self).end,
                !(old(self).spec_state() is NotStarted) ==> mid_self == *old(self) && mid_pool == *old(pool),
                old(self).spec_state() matches RangeStateView::NotStarted { start } ==> (starts_in_lone_leaf(
                    *old(pool),
                    old(self).spec_root(),
                ) ==> mid_self.spec_state() == (RangeStateView::InLeaf { page_id: old(self).spec_root(), after: start })
                    && cached_bytes(mid_pool, old(self).spec_root()) == cached_bytes(*old(pool), old(self).spec_root())
                    && mid_pool.pinnable(old(self).spec_root())),
                !first ==> (mid_self.spec_state() matches RangeStateView::InLeaf { page_id, after } ==> (
                mid_pool.pinnable(page_id) && scannable_leaf(cached_bytes(mid_pool, page_id)) ==> (forall|slot: int|
                    #[trigger] first_above(cached_bytes(mid_pool, page_id), after, slot) ==> slot == spec_slot_count(
                        cached_bytes(mid_pool, page_id),
                    )) && (spec_tail(cached_bytes(mid_pool, page_id)) == 0 ==> self.spec_state() is Done))),
                pool.inv(),
                pool.frames().len() == old(pool).frames().len(),
                pool.spec_disk().spec_page_size() == old(pool).spec_disk().spec_page_size(),
                pool.spec_disk().next_page_id() == old(pool).spec_disk().next_page_id(),
                self.root_page_id == old(self).root_page_id,
                self.end == old(self).end,
                mid_self.spec_state() is Done ==> self.spec_state() is Done,
                hops <= limit,
                limit == mid_pool.spec_disk().next_page_id(),
                first ==> hops == 0,
                ho == (match mid_self.spec_state() {
                    RangeStateView::InLeaf { page_id, after } => hands_on(mid_pool, page_id, after),
                    _ => false,
                }),
                ho ==> mid_self.spec_state() == (RangeStateView::InLeaf { page_id: hp, after: ha }),
                tl == next_leaf_of(mid_pool, hp),
                second ==> !first,
                past_second ==> !first && !second,
                ho && !first ==> second || past_second,
                ho && second ==> self.spec_state() == (RangeStateView::InLeaf { page_id: tl, after: ha }) && pool.frames()
                    == mid_pool.frames() && pool.table() == mid_pool.table() && pool.access_clock()
                    == mid_pool.access_clock() + 1,
                ho && past_second ==> (forall|slot: int|
                    #[trigger] first_above(cached_bytes(mid_pool, tl), ha, slot) ==> slot == spec_slot_count(
                        cached_bytes(mid_pool, tl),
                    )) && (spec_tail(cached_bytes(mid_pool, tl)) == 0 ==> self.spec_state() is Done),
            decreases limit - hops, if self.state is NotStarted {
                2int
            } else if self.state is InLeaf {
                1int
            } else {
                0int
            },
        {
            let step = match &self.state {
                RangeState::Done => {
                    proof {
                        let root = old(self).spec_root();
                        if old(self).spec_state() is NotStarted && starts_in_lone_leaf(*old(pool), root) {
                            let start = old(self).spec_state()->start;
                            let cs = cached_bytes(*old(pool), root);
                            assert(cached_bytes(mid_pool, root) == cs);
                            assert(mid_self.spec_state() == (RangeStateView::InLeaf { page_id: root, after: start }));
                            assert(!first);
                            assert forall|slot: int| #[trigger] first_above(cs, start, slot) implies slot == spec_slot_count(cs) by {
                                assert(first_above(cached_bytes(mid_pool, root), start, slot));
                            }
                        }
                    }
                    return None;
                },
                RangeState::NotStarted { start } => {
                    let start_slice: Option<&[u8]> = match start {
                        Some(k) => Some(k.as_slice()),
                        None => None,
                    };
                    match index.leaf_for_start(pool, start_slice) {
                        Ok((page_id, _)) => {
                            let after = match start {
                                Some(k) => Some(slice_to_vec(k.as_slice())),
                                None => None,
                            };
                            RangeState::InLeaf { page_id, after }
                        },
                        Err(e) => {
                            self.state = RangeState::Done;
                            return Some(Err(e));
                        },
                    }
                },
                RangeState::InLeaf { page_id, after } => {
                    let page_id = *page_id;
                    let after_slice: Option<&[u8]> = match after {
                        Some(k) => Some(k.as_slice()),
                        None => None,
                    };
                    let ghost pre_scan = *pool;
                    proof {
                        if ho && second {
                            assert(page_id == tl);
                            assert(opt_bytes(after_slice) == ha);
                            assert(pre_scan.frame_of_spec(tl) == mid_pool.frame_of_spec(tl));
                            assert(pre_scan.pinnable(tl));
                            assert(mid_pool.pinnable(tl));
                            assert(cached_bytes(pre_scan, tl) == cached_bytes(mid_pool, tl));
                        }
                    }
                    let scan = match BTreeIndex::scan_after(pool, page_id, after_slice) {
                        Ok(s) => s,
                        Err(e) => {
                            self.state = RangeState::Done;
                            return Some(Err(e));
                        },
                    };
                    match scan {
                        AfterScan::EndOfLeaf { next_leaf_page_id } => {
                            proof {
                                if (first || (ho && second)) && mid_pool.pinnable(page_id) && scannable_leaf(cached_bytes(mid_pool, page_id)) {
                                    let cs = cached_bytes(mid_pool, page_id);
                                    lemma_scan_start_splits(cs, opt_bytes(after_slice), spec_slot_count(cached_bytes(mid_pool, page_id)) as int);
                                    assert forall|sl: int| #[trigger] first_above(cs, opt_bytes(after_slice), sl) implies sl == spec_slot_count(cached_bytes(mid_pool, page_id)) as int by {
                                        lemma_first_above_unique(cs, opt_bytes(after_slice), sl, spec_slot_count(cached_bytes(mid_pool, page_id)) as int);
                                    }
                                }
                            }
                            match next_leaf_page_id {
                                Some(next) => {
                                    if hops == limit {
                                        self.state = RangeState::Done;
                                        let reason = String::from_str(
                                            "the leaf chain is longer than the file has pages: its next-leaf pointers form a cycle",
                                        );
                                        return Some(Err(StorageError::CorruptPage { page_id: page_id.0, reason }));
                                    }
                                    hops = hops + 1;
                                    let after = match after {
                                        Some(k) => Some(slice_to_vec(k.as_slice())),
                                        None => None,
                                    };
                                    RangeState::InLeaf { page_id: next, after }
                                },
                                None => RangeState::Done,
                            }
                        },
                        AfterScan::Entry { slot, key, sort_key, rid } => {
                            match &self.end {
                                Some(end) => {
                                    if !bytes_lt(key.as_slice(), end.as_slice()) {
                                        self.state = RangeState::Done;
                                        proof {
                                            if (first || (ho && second)) && mid_pool.pinnable(page_id) && scannable_leaf(cached_bytes(mid_pool, page_id)) {
                                                let cs = cached_bytes(mid_pool, page_id);
                                                lemma_scan_start_splits(cs, opt_bytes(after_slice), slot as int);
                                                assert forall|sl: int| #[trigger] first_above(cs, opt_bytes(after_slice), sl) implies sl == slot as int by {
                                                    lemma_first_above_unique(cs, opt_bytes(after_slice), sl, slot as int);
                                                }
                                            }
                                        }
                                        return None;
                                    }
                                },
                                None => {},
                            }
                            self.state = RangeState::InLeaf { page_id, after: Some(sort_key) };
                            assert(spec_entry(cached_bytes(*pool, page_id), slot) is Ok);
                            proof {
                                if (first || (ho && second)) && mid_pool.pinnable(page_id) && scannable_leaf(cached_bytes(mid_pool, page_id)) {
                                    let cs = cached_bytes(mid_pool, page_id);
                                    lemma_scan_start_splits(cs, opt_bytes(after_slice), slot as int);
                                    assert forall|sl: int| #[trigger] first_above(cs, opt_bytes(after_slice), sl) implies sl == slot as int by {
                                        lemma_first_above_unique(cs, opt_bytes(after_slice), sl, slot as int);
                                    }
                                }
                            }
                            return Some(Ok((key, rid)));
                        },
                    }
                },
            };
            self.state = step;
            proof {
                if first {
                    second = true;
                } else if second {
                    second = false;
                    past_second = true;
                }
                first = false;
            }
        }
    }
}

} // verus!
