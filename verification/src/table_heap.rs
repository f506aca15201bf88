//! A table heap: a chain of slotted pages in the buffer pool, each
//! naming the next, that stores tuples and hands out their record ids.

use vstd::bytes::*;
use vstd::prelude::*;
use vstd::slice::*;

use crate::block_device::BlockDevice;
use crate::btree::{commit_log_room, commit_node, same_node};
use crate::btree_index::{cached_bytes, read_node};
use crate::buffer::BufferPool;
use crate::codec::{read_u16, splice};
use crate::error::StorageError;
use crate::fmt::{push_decimal, push_str, spec_decimal};
use crate::heap::{
    checked_slot_count, is_corrupt, lemma_insert_keeps_other_slots, lemma_insert_then_read, past_end_reason, well_formed, slot_offset, slotted_next_page_id,
    slotted_read, spec_data_used, spec_fits, spec_next_page_id, spec_read, spec_slot_count,
    spec_slot_offset, spec_tuple_len, spec_tuple_offset, SlottedPage, count_reason, MAX_SLOTS,
    MAX_TUPLE_SIZE, NO_NEXT_PAGE, SLOT_COUNT_AT,
};
use crate::ids::{FrameId, PageId, Rid, TxnId};
use crate::log_manager::SegmentStore;
use crate::page::{Page, PAGE_SIZE};

verus! {

/// Reading two images of a heap page that agree past the first twelve
/// bytes gives the same header and the same tuples.
pub proof fn lemma_same_page_reads(a: Seq<u8>, b: Seq<u8>)
    requires
        a.len() == PAGE_SIZE,
        same_node(a, b),
    ensures
        spec_slot_count(a) == spec_slot_count(b),
        spec_data_used(a) == spec_data_used(b),
        spec_next_page_id(a) == spec_next_page_id(b),
        forall|slot: u16| #[trigger] spec_read(a, slot) == spec_read(b, slot),
        forall|d: Seq<u8>| #[trigger] spec_fits(a, d) == spec_fits(b, d),
{
    assert(a.subrange(12, 14) =~= b.subrange(12, 14));
    assert(a.subrange(14, 16) =~= b.subrange(14, 16));
    assert(a.subrange(16, 20) =~= b.subrange(16, 20));
    assert forall|slot: u16| #[trigger] spec_read(a, slot) == spec_read(b, slot) by {
        let o = spec_slot_offset(slot as int);
        if o + 4 <= PAGE_SIZE {
            assert(a.subrange(o, o + 2) =~= b.subrange(o, o + 2));
            assert(a.subrange(o + 2, o + 4) =~= b.subrange(o + 2, o + 4));
        }
        let count = spec_slot_count(a);
        if count <= MAX_SLOTS && slot < count {
            let start = spec_tuple_offset(a, slot as int) as int;
            let len = spec_tuple_len(a, slot as int) as int;
            if start >= spec_slot_offset(count as int) && start + len <= a.len() {
                assert(a.subrange(start, start + len) =~= b.subrange(start, start + len));
            }
        }
    }
}

/// The tuple bytes a read gives, as a sequence.
pub open spec fn opt_tuple(o: Option<Vec<u8>>) -> Option<Seq<u8>> {
    match o {
        Some(v) => Some(v@),
        None => None,
    }
}

/// Inserts `tuple` into heap page `page_id` when it fits, giving its slot
/// and, either way, the page's next-page field.
fn try_insert_into<D: BlockDevice, W: BlockDevice, S: SegmentStore>(
    pool: &mut BufferPool<D, W, S>,
    page_id: PageId,
    txn_id: TxnId,
    tuple: &[u8],
) -> (r: Result<(Option<u16>, u32), StorageError>)
    requires
        old(pool).inv(),
    ensures
        final(pool).inv(),
        final(pool).frames().len() == old(pool).frames().len(),
        final(pool).spec_disk().spec_page_size() == old(pool).spec_disk().spec_page_size(),
        final(pool).spec_disk().next_page_id() == old(pool).spec_disk().next_page_id(),
        r matches Ok((Some(slot), _)) ==> (tuple@.len() > 0 ==> final(pool).frame_of_spec(page_id) is Some && spec_read(
            cached_bytes(*final(pool), page_id),
            slot,
        ) == Ok::<Option<Seq<u8>>, Seq<char>>(Some(tuple@))),
        old(pool).pinnable(page_id) && commit_log_room(old(pool).spec_log().view()) ==> r is Ok,
        old(pool).pinnable(page_id) ==> (r matches Ok((o, next)) ==> {
            let s = cached_bytes(*old(pool), page_id);
            &&& next == spec_next_page_id(s)
            &&& (o is Some <==> spec_fits(s, tuple@))
            &&& o matches Some(slot) ==> slot == spec_slot_count(s)
        }),
        old(pool).pinnable(page_id) && well_formed(cached_bytes(*old(pool), page_id)) ==> (r matches Ok((Some(slot), _))
            ==> final(pool).frame_of_spec(page_id) is Some && forall|j: u16|
            j != slot ==> #[trigger] spec_read(cached_bytes(*final(pool), page_id), j) == spec_read(
                cached_bytes(*old(pool), page_id),
                j,
            )),
{
    let frame = match pool.fetch_page(page_id) {
        Ok(f) => f,
        Err(e) => return Err(e),
    };
    proof {
        pool.frames()[frame.0 as int].page.lemma_len();
    }
    let mut sp = SlottedPage::new(Page::from_bytes(page_id, pool.page(frame).data()), txn_id);
    let ghost s0 = sp.bytes();
    let next = slotted_next_page_id(pool.page(frame).data().as_slice());
    match sp.insert(tuple) {
        Some(slot) => {
            let page = sp.into_page();
            match commit_node(pool, frame, txn_id, &page) {
                Ok(()) => {},
                Err(e) => {
                    pool.unpin(frame);
                    return Err(e);
                },
            }
            proof {
                pool.frames()[frame.0 as int].page.lemma_len();
                lemma_same_page_reads(pool.frames()[frame.0 as int].page.bytes(), page.bytes());
                if tuple@.len() > 0 {
                    lemma_insert_then_read(s0, tuple@);
                }
                if old(pool).pinnable(page_id) && well_formed(cached_bytes(*old(pool), page_id)) {
                    assert forall|j: u16| j != slot implies #[trigger] spec_read(cached_bytes(*pool, page_id), j) == spec_read(
                        cached_bytes(*old(pool), page_id),
                        j,
                    ) by {
                        lemma_insert_keeps_other_slots(s0, tuple@, j);
                    }
                }
            }
            pool.unpin(frame);
            Ok((Some(slot), next.0))
        },
        None => {
            pool.unpin(frame);
            Ok((None, next.0))
        },
    }
}

/// Whether `n` bytes written `offset` bytes into the live tuple in `slot`
/// of heap page `s` stay inside that tuple and inside the page.
pub open spec fn in_place_update_fits(s: Seq<u8>, slot: u16, offset: int, n: int) -> bool {
    let count = spec_slot_count(s);
    let len = spec_tuple_len(s, slot as int);
    &&& count <= MAX_SLOTS
    &&& slot < count
    &&& len > 0
    &&& offset + n <= len
    &&& spec_tuple_offset(s, slot as int) + offset + n <= PAGE_SIZE
}

/// A table heap: the first page of its chain.
pub struct TableHeap {
    first_page_id: PageId,
}

impl TableHeap {
    pub closed spec fn spec_first(&self) -> PageId {
        self.first_page_id
    }

    /// The heap whose chain starts at `first_page_id`.
    pub fn open(first_page_id: PageId) -> (heap: TableHeap)
        ensures
            heap.spec_first() == first_page_id,
    {
        TableHeap { first_page_id }
    }

    /// Allocates the first page of a new, empty heap.
    pub fn create<D: BlockDevice, W: BlockDevice, S: SegmentStore>(
        pool: &mut BufferPool<D, W, S>,
        txn_id: TxnId,
    ) -> (r: Result<TableHeap, StorageError>)
        requires
            old(pool).inv(),
            old(pool).spec_disk().next_page_id() < u32::MAX,
        ensures
            final(pool).inv(),
            r matches Ok(heap) ==> {
                let s = cached_bytes(*final(pool), heap.spec_first());
                &&& heap.spec_first().0 == old(pool).spec_disk().next_page_id()
                &&& final(pool).frame_of_spec(heap.spec_first()) is Some
                &&& spec_slot_count(s) == 0
                &&& spec_data_used(s) == 0
                &&& spec_next_page_id(s) == NO_NEXT_PAGE
            },
    {
        let (page_id, frame) = match pool.new_page(txn_id) {
            Ok(p) => p,
            Err(e) => return Err(e),
        };
        proof {
            pool.frames()[frame.0 as int].page.lemma_len();
        }
        let mut sp = SlottedPage::new(Page::from_bytes(page_id, pool.page(frame).data()), txn_id);
        sp.init();
        let page = sp.into_page();
        match commit_node(pool, frame, txn_id, &page) {
            Ok(()) => {
                proof {
                    pool.frames()[frame.0 as int].page.lemma_len();
                    lemma_same_page_reads(pool.frames()[frame.0 as int].page.bytes(), page.bytes());
                }
                pool.unpin(frame);
                Ok(TableHeap { first_page_id: page_id })
            },
            Err(e) => {
                pool.unpin(frame);
                Err(e)
            },
        }
    }

    pub fn first_page_id(&self) -> (r: PageId)
        ensures
            r == self.spec_first(),
    {
        self.first_page_id
    }

    /// The tuple `rid` names: `None` when its slot is past the count or
    /// deleted.
    pub fn get_tuple<D: BlockDevice, W: BlockDevice, S: SegmentStore>(
        &self,
        pool: &mut BufferPool<D, W, S>,
        rid: Rid,
    ) -> (r: Result<Option<Vec<u8>>, StorageError>)
        requires
            old(pool).inv(),
        ensures
            final(pool).inv(),
            final(pool).frames().len() == old(pool).frames().len(),
            final(pool).spec_disk().spec_page_size() == old(pool).spec_disk().spec_page_size(),
            final(pool).spec_disk().next_page_id() == old(pool).spec_disk().next_page_id(),
            r matches Ok(t) ==> spec_read(final(pool).fetched_bytes(*old(pool), rid.page_id), rid.slot) == Ok::<
                Option<Seq<u8>>,
                Seq<char>,
            >(opt_tuple(t)),
            old(pool).pinnable(rid.page_id) ==> (r is Ok <==> spec_read(cached_bytes(*old(pool), rid.page_id), rid.slot) is Ok),
    {
        let node = match read_node(pool, rid.page_id) {
            Ok(n) => n,
            Err(e) => return Err(e),
        };
        proof {
            node.lemma_len();
        }
        match slotted_read(node.data().as_slice(), rid.slot, rid.page_id) {
            Ok(Some(b)) => Ok(Some(slice_to_vec(b))),
            Ok(None) => Ok(None),
            Err(e) => Err(e),
        }
    }

    /// Marks the tuple `rid` names as deleted; a slot past the count is
    /// left alone.
    pub fn delete_tuple<D: BlockDevice, W: BlockDevice, S: SegmentStore>(
        &mut self,
        pool: &mut BufferPool<D, W, S>,
        txn_id: TxnId,
        rid: Rid,
    ) -> (r: Result<(), StorageError>)
        requires
            old(pool).inv(),
        ensures
            final(pool).inv(),
            *final(self) == *old(self),
            final(pool).frames().len() == old(pool).frames().len(),
            final(pool).spec_disk().spec_page_size() == old(pool).spec_disk().spec_page_size(),
            final(pool).spec_disk().next_page_id() == old(pool).spec_disk().next_page_id(),
            r is Ok ==> reads_back(*final(pool), rid, None),
            old(pool).pinnable(rid.page_id) && commit_log_room(old(pool).spec_log().view()) ==> (r is Ok
                <==> spec_slot_count(cached_bytes(*old(pool), rid.page_id)) <= MAX_SLOTS),
    {
        let frame = match pool.fetch_page(rid.page_id) {
            Ok(f) => f,
            Err(e) => return Err(e),
        };
        proof {
            pool.frames()[frame.0 as int].page.lemma_len();
        }
        let mut sp = SlottedPage::new(Page::from_bytes(rid.page_id, pool.page(frame).data()), txn_id);
        let ghost s0 = sp.bytes();
        match sp.delete(rid.slot) {
            Ok(()) => {},
            Err(e) => {
                pool.unpin(frame);
                return Err(e);
            },
        }
        let page = sp.into_page();
        proof {
            lemma_deleted_reads_none(s0, page.bytes(), rid.slot);
        }
        match commit_node(pool, frame, txn_id, &page) {
            Ok(()) => {
                proof {
                    pool.frames()[frame.0 as int].page.lemma_len();
                    lemma_same_page_reads(pool.frames()[frame.0 as int].page.bytes(), page.bytes());
                }
                pool.unpin(frame);
                Ok(())
            },
            Err(e) => {
                pool.unpin(frame);
                Err(e)
            },
        }
    }

    /// Overwrites `bytes.len()` bytes of the tuple `rid` names, `offset`
    /// bytes into it.
    pub fn update_tuple_in_place<D: BlockDevice, W: BlockDevice, S: SegmentStore>(
        &mut self,
        pool: &mut BufferPool<D, W, S>,
        txn_id: TxnId,
        rid: Rid,
        offset: usize,
        bytes: &[u8],
    ) -> (r: Result<(), StorageError>)
        requires
            old(pool).inv(),
            offset + bytes@.len() <= usize::MAX,
        ensures
            final(pool).inv(),
            *final(self) == *old(self),
            final(pool).frames().len() == old(pool).frames().len(),
            final(pool).spec_disk().spec_page_size() == old(pool).spec_disk().spec_page_size(),
            final(pool).spec_disk().next_page_id() == old(pool).spec_disk().next_page_id(),
            r is Ok ==> final(pool).frame_of_spec(rid.page_id) is Some && (spec_read(
                final(pool).fetched_bytes(*old(pool), rid.page_id),
                rid.slot,
            ) matches Ok(Some(t)) ==> reads_back(*final(pool), rid, Some(splice(t, offset as int, bytes@)))),
            old(pool).pinnable(rid.page_id) && commit_log_room(old(pool).spec_log().view()) ==> (r is Ok
                <==> in_place_update_fits(cached_bytes(*old(pool), rid.page_id), rid.slot, offset as int, bytes@.len() as int)),
            old(pool).pinnable(rid.page_id) ==> ({
                let s = cached_bytes(*old(pool), rid.page_id);
                let len = spec_tuple_len(s, rid.slot as int);
                spec_slot_count(s) <= MAX_SLOTS && rid.slot < spec_slot_count(s) && len > 0 && offset + bytes@.len() > len
            }) ==> r == Err::<(), StorageError>(
                StorageError::InPlaceUpdateOutOfBounds {
                    page_id: rid.page_id.0,
                    slot: rid.slot,
                    tuple_len: spec_tuple_len(cached_bytes(*old(pool), rid.page_id), rid.slot as int) as usize,
                    offset,
                    patch_len: bytes@.len() as usize,
                },
            ),
    {
        let frame = match pool.fetch_page(rid.page_id) {
            Ok(f) => f,
            Err(e) => return Err(e),
        };
        proof {
            pool.frames()[frame.0 as int].page.lemma_len();
        }
        let data = pool.page(frame).data().as_slice();
        let count = match checked_slot_count(data, rid.page_id) {
            Ok(c) => c,
            Err(e) => {
                pool.unpin(frame);
                return Err(e);
            },
        };
        if rid.slot < count {
            let at = slot_offset(rid.slot);
            let start = read_u16(data, at) as usize;
            let len = read_u16(data, at + 2) as usize;
            if offset + bytes.len() <= len && start + offset + bytes.len() > PAGE_SIZE {
                let mut reason = String::new();
                push_str(&mut reason, "slot ");
                push_decimal(&mut reason, rid.slot as u64);
                push_str(&mut reason, "'s tuple range ");
                push_decimal(&mut reason, start as u64);
                push_str(&mut reason, "..");
                push_decimal(&mut reason, (start + len) as u64);
                push_str(&mut reason, " runs past the ");
                push_decimal(&mut reason, PAGE_SIZE as u64);
                push_str(&mut reason, "-byte page");
                pool.unpin(frame);
                return Err(StorageError::CorruptPage { page_id: rid.page_id.0, reason });
            }
        }
        let mut sp = SlottedPage::new(Page::from_bytes(rid.page_id, pool.page(frame).data()), txn_id);
        let ghost s0 = sp.bytes();
        match sp.update_in_place(rid.slot, offset, bytes) {
            Ok(()) => {},
            Err(e) => {
                pool.unpin(frame);
                return Err(e);
            },
        }
        let page = sp.into_page();
        match commit_node(pool, frame, txn_id, &page) {
            Ok(()) => {
                proof {
                    pool.frames()[frame.0 as int].page.lemma_len();
                    lemma_same_page_reads(pool.frames()[frame.0 as int].page.bytes(), page.bytes());
                    if spec_read(s0, rid.slot) is Ok && spec_read(s0, rid.slot)->Ok_0 is Some {
                        lemma_update_reads(s0, rid.slot, offset as int, bytes@);
                    }
                }
                pool.unpin(frame);
                Ok(())
            },
            Err(e) => {
                pool.unpin(frame);
                Err(e)
            },
        }
    }

    /// Adds a page after `after` at the end of the chain, with `tuple` as
    /// its first tuple, and gives the page and the tuple's slot.
    fn append_page_with<D: BlockDevice, W: BlockDevice, S: SegmentStore>(
        &mut self,
        pool: &mut BufferPool<D, W, S>,
        txn_id: TxnId,
        after: PageId,
        tuple: &[u8],
    ) -> (r: Result<(PageId, u16), StorageError>)
        requires
            old(pool).inv(),
            old(pool).spec_disk().next_page_id() < u32::MAX,
            tuple@.len() <= MAX_TUPLE_SIZE,
        ensures
            final(pool).inv(),
            *final(self) == *old(self),
            r matches Ok((p, slot)) ==> (tuple@.len() > 0 ==> final(pool).frame_of_spec(p) is Some && spec_read(
                cached_bytes(*final(pool), p),
                slot,
            ) == Ok::<Option<Seq<u8>>, Seq<char>>(Some(tuple@))),
    {
        let (new_id, new_frame) = match pool.new_page(txn_id) {
            Ok(p) => p,
            Err(e) => return Err(e),
        };
        proof {
            pool.frames()[new_frame.0 as int].page.lemma_len();
        }
        if new_id.0 == NO_NEXT_PAGE || new_id.0 == after.0 {
            pool.unpin(new_frame);
            let reason = String::from_str("a new page cannot follow this page in the chain");
            return Err(StorageError::CorruptPage { page_id: after.0, reason });
        }
        let mut sp = SlottedPage::new(Page::from_bytes(new_id, pool.page(new_frame).data()), txn_id);
        sp.init();
        let ghost s0 = sp.bytes();
        proof {
            lemma_auto_spec_u16_to_from_le_bytes();
            lemma_auto_spec_u32_to_from_le_bytes();
            assert(s0.len() == PAGE_SIZE);
        }
        let slot = sp.insert(tuple).unwrap();
        let page = sp.into_page();
        proof {
            if tuple@.len() > 0 {
                lemma_insert_then_read(s0, tuple@);
            }
        }
        match commit_node(pool, new_frame, txn_id, &page) {
            Ok(()) => {},
            Err(e) => {
                pool.unpin(new_frame);
                return Err(e);
            },
        }
        proof {
            pool.frames()[new_frame.0 as int].page.lemma_len();
            lemma_same_page_reads(pool.frames()[new_frame.0 as int].page.bytes(), page.bytes());
        }
        let ghost new_bytes = pool.frames()[new_frame.0 as int].page.bytes();
        let link_frame = match pool.fetch_page(after) {
            Ok(f) => f,
            Err(e) => {
                pool.unpin(new_frame);
                return Err(e);
            },
        };
        proof {
            pool.frames()[link_frame.0 as int].page.lemma_len();
        }
        let mut link = SlottedPage::new(Page::from_bytes(after, pool.page(link_frame).data()), txn_id);
        link.set_next_page_id(new_id);
        let link_page = link.into_page();
        let linked = commit_node(pool, link_frame, txn_id, &link_page);
        pool.unpin(link_frame);
        pool.unpin(new_frame);
        proof {
            pool.lemma_frame_accounting();
        }
        match linked {
            Ok(()) => Ok((new_id, slot)),
            Err(e) => Err(e),
        }
    }

    /// Stores `tuple` in the first page of the chain with room for it,
    /// adding a page at the end when none has, and gives its record id.
    pub fn insert_tuple<D: BlockDevice, W: BlockDevice, S: SegmentStore>(
        &mut self,
        pool: &mut BufferPool<D, W, S>,
        txn_id: TxnId,
        tuple: &[u8],
    ) -> (r: Result<Rid, StorageError>)
        requires
            old(pool).inv(),
            old(pool).spec_disk().next_page_id() < u32::MAX,
        ensures
            final(pool).inv(),
            *final(self) == *old(self),
            tuple@.len() > MAX_TUPLE_SIZE ==> r == Err::<Rid, StorageError>(
                StorageError::TupleTooLarge { size: tuple@.len() as usize, max: MAX_TUPLE_SIZE },
            ) && *final(pool) == *old(pool),
            r matches Ok(rid) ==> (tuple@.len() > 0 ==> reads_back(*final(pool), rid, Some(tuple@))),
            ({
                let s = cached_bytes(*old(pool), old(self).spec_first());
                &&& tuple@.len() <= MAX_TUPLE_SIZE
                &&& old(pool).pinnable(old(self).spec_first())
                &&& spec_fits(s, tuple@)
                &&& commit_log_room(old(pool).spec_log().view())
            }) ==> (r matches Ok(rid) && rid.page_id == old(self).spec_first() && rid.slot == spec_slot_count(
                cached_bytes(*old(pool), old(self).spec_first()),
            )),
            ({
                let s = cached_bytes(*old(pool), old(self).spec_first());
                &&& old(pool).pinnable(old(self).spec_first())
                &&& well_formed(s)
                &&& spec_fits(s, tuple@)
            }) ==> (r matches Ok(rid) ==> forall|j: u16|
                j != rid.slot ==> #[trigger] spec_read(cached_bytes(*final(pool), old(self).spec_first()), j) == spec_read(
                    cached_bytes(*old(pool), old(self).spec_first()),
                    j,
                )),
    {
        if tuple.len() > MAX_TUPLE_SIZE {
            return Err(StorageError::TupleTooLarge { size: tuple.len(), max: MAX_TUPLE_SIZE });
        }
        let limit = pool.next_page_id();
        let mut hops: u32 = 0;
        let mut current = self.first_page_id;
        loop
            invariant
                pool.inv(),
                pool.spec_disk().next_page_id() == old(pool).spec_disk().next_page_id(),
                old(pool).spec_disk().next_page_id() < u32::MAX,
                tuple@.len() <= MAX_TUPLE_SIZE,
                hops <= limit,
                *self == *old(self),
                hops == 0 ==> current == old(self).spec_first() && *pool == *old(pool),
                hops > 0 ==> !(old(pool).pinnable(old(self).spec_first()) && spec_fits(
                    cached_bytes(*old(pool), old(self).spec_first()),
                    tuple@,
                )),
            decreases limit - hops,
        {
            let next = match try_insert_into(pool, current, txn_id, tuple) {
                Ok((Some(slot), _)) => return Ok(Rid::new(current, slot)),
                Ok((None, next)) => next,
                Err(e) => return Err(e),
            };
            if next == NO_NEXT_PAGE {
                return match self.append_page_with(pool, txn_id, current, tuple) {
                    Ok((p, slot)) => Ok(Rid::new(p, slot)),
                    Err(e) => Err(e),
                };
            }
            if hops == limit {
                let reason = String::from_str(
                    "the page chain is longer than the file has pages: its next-page pointers form a cycle",
                );
                return Err(StorageError::CorruptPage { page_id: current.0, reason });
            }
            hops = hops + 1;
            current = PageId(next);
        }
    }

    /// The first live tuple of page `page_id` at or after `from_slot`, or,
    /// when there is none, the end of the page and the next page.
    pub fn scan_page<D: BlockDevice, W: BlockDevice, S: SegmentStore>(
        pool: &mut BufferPool<D, W, S>,
        page_id: PageId,
        from_slot: u16,
    ) -> (r: Result<PageScan, StorageError>)
        requires
            old(pool).inv(),
        ensures
            final(pool).inv(),
            final(pool).frames().len() == old(pool).frames().len(),
            final(pool).spec_disk().spec_page_size() == old(pool).spec_disk().spec_page_size(),
            final(pool).spec_disk().next_page_id() == old(pool).spec_disk().next_page_id(),
            r is Ok ==> page_scan_ok(final(pool).fetched_bytes(*old(pool), page_id), page_id, from_slot, r),
            old(pool).pinnable(page_id) ==> page_scan_ok(cached_bytes(*old(pool), page_id), page_id, from_slot, r),
    {
        let node = match read_node(pool, page_id) {
            Ok(n) => n,
            Err(e) => return Err(e),
        };
        proof {
            node.lemma_len();
        }
        scan_heap_page(node.data().as_slice(), page_id, from_slot)
    }

    /// A scan of every live tuple, page by page along the chain.
    pub fn iter(&self) -> (it: TableIter)
        ensures
            it.spec_current() == Some(self.spec_first()),
    {
        TableIter { current_page: Some(self.first_page_id), buffered: Vec::new(), pos: 0 }
    }
}

/// After a delete, the slot reads as deleted.
proof fn lemma_deleted_reads_none(s: Seq<u8>, t: Seq<u8>, slot: u16)
    requires
        s.len() == PAGE_SIZE,
        spec_slot_count(s) <= MAX_SLOTS,
        t == (if slot < spec_slot_count(s) {
            splice(s, spec_slot_offset(slot as int) + 2, spec_u16_to_le_bytes(0))
        } else {
            s
        }),
    ensures
        spec_read(t, slot) == Ok::<Option<Seq<u8>>, Seq<char>>(None),
{
    if slot < spec_slot_count(s) {
        lemma_auto_spec_u16_to_from_le_bytes();
        let o = spec_slot_offset(slot as int);
        assert(t.subrange(12, 14) =~= s.subrange(12, 14));
        assert(t.subrange(o + 2, o + 4) =~= spec_u16_to_le_bytes(0));
    }
}

/// A slot's tuple updated in place reads back with the patch applied.
proof fn lemma_update_reads(s: Seq<u8>, slot: u16, offset: int, b: Seq<u8>)
    requires
        s.len() == PAGE_SIZE,
        spec_read(s, slot) matches Ok(Some(t)),
        0 <= offset,
        offset + b.len() <= spec_tuple_len(s, slot as int),
    ensures
        spec_read(splice(s, spec_tuple_offset(s, slot as int) + offset, b), slot) == Ok::<Option<Seq<u8>>, Seq<char>>(
            Some(splice(spec_read(s, slot)->Ok_0->Some_0, offset, b)),
        ),
{
    let start = spec_tuple_offset(s, slot as int) as int;
    let len = spec_tuple_len(s, slot as int) as int;
    let t = s.subrange(start, start + len);
    let u = splice(s, start + offset, b);
    let count = spec_slot_count(s);
    let o = spec_slot_offset(slot as int);
    assert(u.subrange(12, 14) =~= s.subrange(12, 14));
    assert(u.subrange(o, o + 2) =~= s.subrange(o, o + 2));
    assert(u.subrange(o + 2, o + 4) =~= s.subrange(o + 2, o + 4));
    assert(u.subrange(start, start + len) =~= splice(t, offset, b));
}

/// What scanning a heap page for a live tuple gives.
pub enum PageScan {
    Tuple { slot: u16, bytes: Vec<u8> },
    EndOfPage { next_page_id: Option<PageId> },
}

/// `r` is what scanning heap page `s` (page `page_id`) from `from` gives:
/// the first live tuple at or after `from`, the end of the page and its
/// next page, or the corruption the scan met first.
pub open spec fn page_scan_ok(s: Seq<u8>, page_id: PageId, from: u16, r: Result<PageScan, StorageError>) -> bool {
    let count = spec_slot_count(s);
    &&& count > MAX_SLOTS ==> is_corrupt(r, page_id, count_reason(count))
    &&& count <= MAX_SLOTS && (forall|j: u16| from <= j < count ==> (#[trigger] spec_read(s, j)) is Ok) ==> r is Ok
    &&& r matches Ok(PageScan::Tuple { slot, bytes }) ==> {
        &&& from <= slot < count
        &&& spec_read(s, slot) == Ok::<Option<Seq<u8>>, Seq<char>>(Some(bytes@))
        &&& forall|j: u16| from <= j < slot ==> #[trigger] spec_read(s, j) == Ok::<Option<Seq<u8>>, Seq<char>>(None)
    }
    &&& r matches Ok(PageScan::EndOfPage { next_page_id }) ==> {
        &&& count <= MAX_SLOTS
        &&& forall|j: u16| from <= j < count ==> #[trigger] spec_read(s, j) == Ok::<Option<Seq<u8>>, Seq<char>>(None)
        &&& next_page_id == (if spec_next_page_id(s) == NO_NEXT_PAGE {
            None
        } else {
            Some(PageId(spec_next_page_id(s)))
        })
    }
    &&& r is Err && count <= MAX_SLOTS ==> exists|j: u16|
        #![trigger spec_read(s, j)]
        from <= j < count && (spec_read(s, j) matches Err(reason) && is_corrupt(r, page_id, reason))
            && forall|i: u16| from <= i < j ==> #[trigger] spec_read(s, i) == Ok::<Option<Seq<u8>>, Seq<char>>(None)
}

/// Scans the heap page `bytes` (page `page_id`) from `from`.
pub fn scan_heap_page(bytes: &[u8], page_id: PageId, from: u16) -> (r: Result<PageScan, StorageError>)
    requires
        bytes@.len() == PAGE_SIZE,
    ensures
        page_scan_ok(bytes@, page_id, from, r),
{
    let count = match checked_slot_count(bytes, page_id) {
        Ok(c) => c,
        Err(e) => return Err(e),
    };
    let mut slot = from;
    while slot < count
        invariant
            bytes@.len() == PAGE_SIZE,
            count == spec_slot_count(bytes@),
            count <= MAX_SLOTS,
            from <= slot,
            forall|j: u16| from <= j < slot ==> #[trigger] spec_read(bytes@, j) == Ok::<Option<Seq<u8>>, Seq<char>>(None),
        decreases count - slot,
    {
        match slotted_read(bytes, slot, page_id) {
            Ok(Some(data)) => return Ok(PageScan::Tuple { slot, bytes: slice_to_vec(data) }),
            Ok(None) => {},
            Err(e) => return Err(e),
        }
        slot = slot + 1;
    }
    let next = slotted_next_page_id(bytes);
    if next.0 == NO_NEXT_PAGE {
        Ok(PageScan::EndOfPage { next_page_id: None })
    } else {
        Ok(PageScan::EndOfPage { next_page_id: Some(next) })
    }
}

/// Every slot of heap page `s` reads, live or empty.
pub open spec fn heap_page_reads(s: Seq<u8>) -> bool {
    &&& spec_slot_count(s) <= MAX_SLOTS
    &&& forall|j: u16| j < spec_slot_count(s) ==> (#[trigger] spec_read(s, j)) is Ok
}

/// No slot of heap page `s` holds a live tuple.
pub open spec fn page_all_empty(s: Seq<u8>) -> bool {
    forall|j: u16| j < spec_slot_count(s) ==> #[trigger] spec_read(s, j) == Ok::<Option<Seq<u8>>, Seq<char>>(None)
}

/// `slot` holds the first live tuple of heap page `s`, and it is `t`.
pub open spec fn first_live(s: Seq<u8>, slot: u16, t: Seq<u8>) -> bool {
    &&& slot < spec_slot_count(s)
    &&& spec_read(s, slot) == Ok::<Option<Seq<u8>>, Seq<char>>(Some(t))
    &&& forall|j: u16| j < slot ==> #[trigger] spec_read(s, j) == Ok::<Option<Seq<u8>>, Seq<char>>(None)
}

/// The scan reads page `current` next, and the pool holds it cached and
/// pinnable with every slot readable.
pub open spec fn next_page_reads<D: BlockDevice, W: BlockDevice, S: SegmentStore>(
    pool: BufferPool<D, W, S>,
    current: Option<PageId>,
) -> bool {
    &&& current is Some
    &&& pool.pinnable(current.unwrap())
    &&& heap_page_reads(cached_bytes(pool, current.unwrap()))
}

/// Heap page `p` holds no live tuple and hands a scan on to its next
/// page, which the pool holds cached and pinnable with every slot
/// readable; the pool can pin twice more and the file has pages.
pub open spec fn hands_on_page<D: BlockDevice, W: BlockDevice, S: SegmentStore>(
    pool: BufferPool<D, W, S>,
    p: PageId,
) -> bool {
    let s = cached_bytes(pool, p);
    &&& page_all_empty(s)
    &&& spec_next_page_id(s) != NO_NEXT_PAGE
    &&& next_page_reads(pool, Some(PageId(spec_next_page_id(s))))
    &&& pool.access_clock() + 2 < u64::MAX
    &&& pool.spec_disk().next_page_id() > 0
}

/// A scan of a heap's live tuples, stepped by `next`: it reads a page at
/// a time and hands out that page's tuples in slot order.
pub struct TableIter {
    current_page: Option<PageId>,
    buffered: Vec<(Rid, Vec<u8>)>,
    pos: usize,
}

impl TableIter {
    /// The page the scan reads next once what it holds is handed out.
    pub closed spec fn spec_current(&self) -> Option<PageId> {
        self.current_page
    }

    /// The tuples read from the last page, with their record ids.
    pub closed spec fn spec_buffered(&self) -> Seq<(Rid, Seq<u8>)> {
        self.buffered@.map_values(|e: (Rid, Vec<u8>)| (e.0, e.1@))
    }

    /// How many of the buffered tuples have been handed out.
    pub closed spec fn spec_pos(&self) -> int {
        self.pos as int
    }

    /// The next live tuple and its record id; `None` once the chain ends.
    /// An error leaves the scan where it was.
    pub fn next<D: BlockDevice, W: BlockDevice, S: SegmentStore>(
        &mut self,
        pool: &mut BufferPool<D, W, S>,
    ) -> (r: Option<Result<(Rid, Vec<u8>), StorageError>>)
        requires
            old(pool).inv(),
        ensures
            final(pool).inv(),
            final(pool).frames().len() == old(pool).frames().len(),
            final(pool).spec_disk().spec_page_size() == old(pool).spec_disk().spec_page_size(),
            final(pool).spec_disk().next_page_id() == old(pool).spec_disk().next_page_id(),
            r is None ==> final(self).spec_current() is None,
            old(self).spec_pos() < old(self).spec_buffered().len() ==> {
                &&& r matches Some(Ok((rid, t))) && (rid, t@) == old(self).spec_buffered()[old(self).spec_pos()]
                &&& final(self).spec_pos() == old(self).spec_pos() + 1
                &&& final(self).spec_buffered() == old(self).spec_buffered()
                &&& final(self).spec_current() == old(self).spec_current()
                &&& *final(pool) == *old(pool)
            },
            old(self).spec_pos() >= old(self).spec_buffered().len() && old(self).spec_current() is None ==> r is None,
            old(self).spec_pos() >= old(self).spec_buffered().len() ==> (r matches Some(Ok((rid, t))) ==> {
                &&& final(pool).frame_of_spec(rid.page_id) is Some
                &&& spec_read(cached_bytes(*final(pool), rid.page_id), rid.slot) == Ok::<Option<Seq<u8>>, Seq<char>>(Some(t@))
            }),
            old(self).spec_pos() >= old(self).spec_buffered().len() && next_page_reads(*old(pool), old(self).spec_current()) ==> {
                let p = old(self).spec_current().unwrap();
                let s = cached_bytes(*old(pool), p);
                &&& !page_all_empty(s) ==> (r matches Some(Ok((rid, t))) && rid.page_id == p && first_live(s, rid.slot, t@))
                &&& page_all_empty(s) && spec_next_page_id(s) == NO_NEXT_PAGE ==> r is None
            },
            old(self).spec_pos() >= old(self).spec_buffered().len() && next_page_reads(*old(pool), old(self).spec_current())
                && hands_on_page(*old(pool), old(self).spec_current().unwrap()) ==> {
                let q = PageId(spec_next_page_id(cached_bytes(*old(pool), old(self).spec_current().unwrap())));
                let s = cached_bytes(*old(pool), q);
                &&& !page_all_empty(s) ==> (r matches Some(Ok((rid, t))) && rid.page_id == q && first_live(s, rid.slot, t@))
                &&& page_all_empty(s) && spec_next_page_id(s) == NO_NEXT_PAGE ==> r is None
            },
    {
        let limit = pool.next_page_id();
        let mut hops: u32 = 0;
        let mut followed = false;
        let mut prev_page = PageId(0);
        let ghost mut fresh = false;
        let ghost mut fills: int = 0;
        let ghost c = old(self).spec_pos() >= old(self).spec_buffered().len() && next_page_reads(*old(pool), old(self).spec_current());
        let ghost p0 = old(self).spec_current().unwrap();
        let ghost s0 = cached_bytes(*old(pool), p0);
        let ghost c2 = c && hands_on_page(*old(pool), p0);
        let ghost p1 = PageId(spec_next_page_id(s0));
        let ghost s1 = cached_bytes(*old(pool), p1);
        loop
            invariant
                c2 == (c && hands_on_page(*old(pool), p0)),
                p1 == PageId(spec_next_page_id(s0)),
                s1 == cached_bytes(*old(pool), p1),
                fills <= 1 ==> hops == 0,
                limit == old(pool).spec_disk().next_page_id(),
                fills == 1 && c ==> pool.frames() == old(pool).frames() && pool.table() == old(pool).table()
                    && pool.access_clock() == old(pool).access_clock() + 1 && (self.buffered@.len() == 0
                    && spec_next_page_id(s0) != NO_NEXT_PAGE ==> self.current_page == Some(p1)),
                fills == 2 && c2 ==> {
                    &&& self.buffered@.len() > 0 ==> self.pos == 0 && self.buffered@[0].0.page_id == p1 && first_live(
                        s1,
                        self.buffered@[0].0.slot,
                        self.buffered@[0].1@,
                    )
                    &&& self.buffered@.len() == 0 ==> page_all_empty(s1) && (spec_next_page_id(s1) == NO_NEXT_PAGE
                        ==> self.current_page is None)
                },
                fills >= 3 && c2 ==> page_all_empty(s1) && spec_next_page_id(s1) != NO_NEXT_PAGE,
                pool.inv(),
                pool.frames().len() == old(pool).frames().len(),
                pool.spec_disk().spec_page_size() == old(pool).spec_disk().spec_page_size(),
                pool.spec_disk().next_page_id() == old(pool).spec_disk().next_page_id(),
                hops <= limit,
                !fresh ==> *self == *old(self) && *pool == *old(pool),
                fresh <==> fills >= 1,
                fills >= 0,
                followed == fresh,
                c == (old(self).spec_pos() >= old(self).spec_buffered().len() && next_page_reads(*old(pool), old(self).spec_current())),
                p0 == old(self).spec_current().unwrap(),
                s0 == cached_bytes(*old(pool), p0),
                fills == 1 && c ==> {
                    &&& self.buffered@.len() > 0 ==> self.pos == 0 && self.buffered@[0].0.page_id == p0 && first_live(
                        s0,
                        self.buffered@[0].0.slot,
                        self.buffered@[0].1@,
                    )
                    &&& self.buffered@.len() == 0 ==> page_all_empty(s0) && (spec_next_page_id(s0) == NO_NEXT_PAGE
                        ==> self.current_page is None)
                },
                fills >= 2 && c ==> page_all_empty(s0) && spec_next_page_id(s0) != NO_NEXT_PAGE,
                fresh ==> old(self).spec_pos() >= old(self).spec_buffered().len() && old(self).spec_current() is Some,
                fresh ==> forall|k: int|
                    0 <= k < self.buffered@.len() ==> {
                        let e = #[trigger] self.buffered@[k];
                        &&& pool.frame_of_spec(e.0.page_id) is Some
                        &&& spec_read(cached_bytes(*pool, e.0.page_id), e.0.slot) == Ok::<Option<Seq<u8>>, Seq<char>>(
                            Some(e.1@),
                        )
                    },
            decreases limit - hops, if followed {
                0int
            } else {
                1int
            },
        {
            if self.pos < self.buffered.len() {
                let rid = self.buffered[self.pos].0;
                let bytes = slice_to_vec(self.buffered[self.pos].1.as_slice());
                proof {
                    if !fresh {
                        assert(self.spec_buffered()[self.pos as int] == (self.buffered@[self.pos as int].0, self.buffered@[self.pos as int].1@));
                    } else {
                        let e = self.buffered@[self.pos as int];
                        assert(pool.frame_of_spec(e.0.page_id) is Some);
                    }
                }
                let ghost b0 = self.spec_buffered();
                self.pos = self.pos + 1;
                proof {
                    assert(self.spec_buffered() == b0);
                }
                return Some(Ok((rid, bytes)));
            }
            let page_id = match self.current_page {
                Some(p) => p,
                None => return None,
            };
            if followed {
                if hops == limit {
                    self.current_page = None;
                    let reason = String::from_str(
                        "the page chain is longer than the file has pages: its next-page pointers form a cycle",
                    );
                    return Some(Err(StorageError::CorruptPage { page_id: prev_page.0, reason }));
                }
                hops = hops + 1;
            }
            let node = match read_node(pool, page_id) {
                Ok(n) => n,
                Err(e) => return Some(Err(e)),
            };
            proof {
                node.lemma_len();
            }
            let data = node.data().as_slice();
            let count = match checked_slot_count(data, page_id) {
                Ok(c) => c,
                Err(e) => return Some(Err(e)),
            };
            proof {
                if fills == 1 && c {
                    assert(page_all_empty(s0) && spec_next_page_id(s0) != NO_NEXT_PAGE);
                }
                if fills == 2 && c2 {
                    assert(page_all_empty(s1) && spec_next_page_id(s1) != NO_NEXT_PAGE);
                }
            }
            self.buffered = Vec::new();
            self.pos = 0;
            proof {
                fresh = true;
                fills = fills + 1;
            }
            let mut slot: u16 = 0;
            while slot < count
                invariant
                    data@.len() == PAGE_SIZE,
                    data@ == cached_bytes(*pool, page_id),
                    pool.frame_of_spec(page_id) is Some,
                    fresh,
                    fills >= 1,
                    c == (old(self).spec_pos() >= old(self).spec_buffered().len() && next_page_reads(*old(pool), old(self).spec_current())),
                    p0 == old(self).spec_current().unwrap(),
                    s0 == cached_bytes(*old(pool), p0),
                    fills == 1 && c ==> data@ == s0 && page_id == p0,
                    fills == 1 && c ==> {
                        &&& self.buffered@.len() > 0 ==> self.buffered@[0].0.page_id == page_id && first_live(
                            data@,
                            self.buffered@[0].0.slot,
                            self.buffered@[0].1@,
                        )
                        &&& self.buffered@.len() == 0 ==> forall|j: u16| j < slot ==> #[trigger] spec_read(data@, j)
                            == Ok::<Option<Seq<u8>>, Seq<char>>(None)
                    },
                    fills >= 2 && c ==> page_all_empty(s0) && spec_next_page_id(s0) != NO_NEXT_PAGE,
                    c2 == (c && hands_on_page(*old(pool), p0)),
                    p1 == PageId(spec_next_page_id(s0)),
                    s1 == cached_bytes(*old(pool), p1),
                    fills == 2 && c2 ==> data@ == s1 && page_id == p1,
                    fills == 2 && c2 ==> {
                        &&& self.buffered@.len() > 0 ==> self.buffered@[0].0.page_id == page_id && first_live(
                            data@,
                            self.buffered@[0].0.slot,
                            self.buffered@[0].1@,
                        )
                        &&& self.buffered@.len() == 0 ==> forall|j: u16| j < slot ==> #[trigger] spec_read(data@, j)
                            == Ok::<Option<Seq<u8>>, Seq<char>>(None)
                    },
                    fills >= 3 && c2 ==> page_all_empty(s1) && spec_next_page_id(s1) != NO_NEXT_PAGE,
                    count == spec_slot_count(data@),
                    old(self).spec_pos() >= old(self).spec_buffered().len() && old(self).spec_current() is Some,
                    forall|k: int|
                        0 <= k < self.buffered@.len() ==> {
                            let e = #[trigger] self.buffered@[k];
                            &&& pool.frame_of_spec(e.0.page_id) is Some
                            &&& spec_read(cached_bytes(*pool, e.0.page_id), e.0.slot) == Ok::<Option<Seq<u8>>, Seq<char>>(
                                Some(e.1@),
                            )
                        },
                    slot <= count,
                    self.pos == 0,
                    pool.inv(),
                    pool.frames().len() == old(pool).frames().len(),
                    pool.spec_disk().spec_page_size() == old(pool).spec_disk().spec_page_size(),
                    pool.spec_disk().next_page_id() == old(pool).spec_disk().next_page_id(),
                decreases count - slot,
            {
                match slotted_read(data, slot, page_id) {
                    Ok(Some(d)) => self.buffered.push((Rid::new(page_id, slot), slice_to_vec(d))),
                    Ok(None) => {},
                    Err(e) => return Some(Err(e)),
                }
                slot = slot + 1;
            }
            let next = slotted_next_page_id(data);
            followed = true;
            prev_page = page_id;
            if next.0 == NO_NEXT_PAGE {
                self.current_page = None;
            } else {
                self.current_page = Some(next);
            }
        }
    }
}

/// The pool caches page `rid.page_id`, and reading `rid.slot` there gives
/// `t`.
pub open spec fn reads_back<D: BlockDevice, W: BlockDevice, S: SegmentStore>(
    pool: BufferPool<D, W, S>,
    rid: Rid,
    t: Option<Seq<u8>>,
) -> bool {
    &&& pool.frame_of_spec(rid.page_id) is Some
    &&& spec_read(cached_bytes(pool, rid.page_id), rid.slot) == Ok::<Option<Seq<u8>>, Seq<char>>(t)
}

/// A read gives back what was last stored: once insert, update or delete
/// leaves `rid` reading as `t` in the pool's cache, a `get_tuple` of
/// `rid` that succeeds gives `t`, whatever state the fetch leaves the pool
/// in.
pub proof fn lemma_get_reads_back<D: BlockDevice, W: BlockDevice, S: SegmentStore>(
    before: BufferPool<D, W, S>,
    after: BufferPool<D, W, S>,
    rid: Rid,
    t: Option<Seq<u8>>,
    got: Option<Seq<u8>>,
)
    requires
        reads_back(before, rid, t),
        spec_read(after.fetched_bytes(before, rid.page_id), rid.slot) == Ok::<Option<Seq<u8>>, Seq<char>>(got),
    ensures
        got == t,
{
}

} // verus!
