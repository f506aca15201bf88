//! Slotted heap pages: a header, a slot array growing up from the header,
//! and tuple bytes growing down from the end of the page.
//!
//! Header fields: the slot count (`u16` at byte 12), the bytes of tuple
//! data in use (`u16` at 14) and the next page of the heap (`u32` at 16,
//! 0 for none). Slot `i` is four bytes at `20 + 4 * i`: the tuple's offset
//! and its length, each a `u16`; a length of 0 marks a deleted tuple.

use vstd::bytes::*;
use vstd::prelude::*;
use vstd::slice::*;

use crate::codec::{le_u16_at, le_u32_at, push_u16, push_u32, read_u16, read_u32, splice};
use crate::error::StorageError;
use crate::fmt::{push_decimal, push_str, spec_decimal};
use crate::ids::{PageId, TxnId};
use crate::page::{Page, PAGE_SIZE};
pub use crate::table_heap::{PageScan, TableHeap, TableIter};

verus! {

pub const NO_NEXT_PAGE: u32 = 0;

pub const SLOT_COUNT_AT: usize = 12;

pub const DATA_USED_AT: usize = 14;

pub const NEXT_PAGE_ID_AT: usize = 16;

pub const HEADER_SIZE: usize = 20;

pub const SLOT_SIZE: usize = 4;

/// How many slots fit between the header and the end of a page.
pub const MAX_SLOTS: u16 = 1019;

/// The largest tuple a page with no other tuple holds.
pub const MAX_TUPLE_SIZE: usize = 4072;

pub open spec fn spec_slot_offset(slot: int) -> int {
    HEADER_SIZE + slot * SLOT_SIZE
}

pub open spec fn spec_slot_count(s: Seq<u8>) -> u16 {
    le_u16_at(s, SLOT_COUNT_AT as int)
}

pub open spec fn spec_data_used(s: Seq<u8>) -> u16 {
    le_u16_at(s, DATA_USED_AT as int)
}

/// Where tuple data begins: the end of the page less the data in use, or
/// 0 when the header claims more than a page.
pub open spec fn spec_data_start(s: Seq<u8>) -> int {
    if spec_data_used(s) <= PAGE_SIZE {
        PAGE_SIZE - spec_data_used(s)
    } else {
        0
    }
}

pub open spec fn spec_next_page_id(s: Seq<u8>) -> u32 {
    le_u32_at(s, NEXT_PAGE_ID_AT as int)
}

/// The free bytes between the end of the slot array and the start of
/// tuple data, or 0 when they overlap.
pub open spec fn spec_free_space(s: Seq<u8>) -> int {
    let slots_end = spec_slot_offset(spec_slot_count(s) as int);
    if spec_data_start(s) >= slots_end {
        spec_data_start(s) - slots_end
    } else {
        0
    }
}

pub open spec fn spec_tuple_offset(s: Seq<u8>, slot: int) -> u16 {
    le_u16_at(s, spec_slot_offset(slot))
}

pub open spec fn spec_tuple_len(s: Seq<u8>, slot: int) -> u16 {
    le_u16_at(s, spec_slot_offset(slot) + 2)
}

pub open spec fn count_reason(count: u16) -> Seq<char> {
    "slot count "@ + spec_decimal(count as nat) + " exceeds the "@ + spec_decimal(
        MAX_SLOTS as nat,
    ) + " slots a "@ + spec_decimal(PAGE_SIZE as nat) + "-byte page can hold"@
}

pub open spec fn overlap_reason(slot: u16, start: int, slots_end: int) -> Seq<char> {
    "slot "@ + spec_decimal(slot as nat) + "'s tuple at offset "@ + spec_decimal(start as nat)
        + " overlaps the "@ + spec_decimal(slots_end as nat) + "-byte slot array"@
}

pub open spec fn past_end_reason(slot: u16, start: int, end: int, len: int) -> Seq<char> {
    "slot "@ + spec_decimal(slot as nat) + "'s tuple range "@ + spec_decimal(start as nat) + ".."@
        + spec_decimal(end as nat) + " runs past the "@ + spec_decimal(len as nat)
        + "-byte page"@
}

pub open spec fn missing_reason(slot: u16) -> Seq<char> {
    "slot "@ + spec_decimal(slot as nat) + " does not exist"@
}

pub open spec fn deleted_reason(slot: u16) -> Seq<char> {
    "slot "@ + spec_decimal(slot as nat) + " is deleted"@
}

/// `r` is the corrupt-page error for `page_id` with `reason`.
pub open spec fn is_corrupt<T>(r: Result<T, StorageError>, page_id: PageId, reason: Seq<char>) -> bool {
    match r {
        Err(StorageError::CorruptPage { page_id: p, reason: why }) => p == page_id.0 && why@
            == reason,
        _ => false,
    }
}

/// What reading `slot` gives: `None` for a slot past the count or a
/// deleted tuple, the tuple's bytes otherwise; `Err` with the reason text
/// when the page is corrupt.
pub open spec fn spec_read(s: Seq<u8>, slot: u16) -> Result<Option<Seq<u8>>, Seq<char>> {
    let count = spec_slot_count(s);
    if count > MAX_SLOTS {
        Err(count_reason(count))
    } else if slot >= count {
        Ok(None)
    } else {
        let start = spec_tuple_offset(s, slot as int) as int;
        let len = spec_tuple_len(s, slot as int) as int;
        let slots_end = spec_slot_offset(count as int);
        if len == 0 {
            Ok(None)
        } else if start < slots_end {
            Err(overlap_reason(slot, start, slots_end))
        } else if start + len > s.len() {
            Err(past_end_reason(slot, start, start + len, s.len() as int))
        } else {
            Ok(Some(s.subrange(start, start + len)))
        }
    }
}

/// A heap page whose header and live tuples are consistent: the slot
/// array ends before tuple data begins and every live tuple lies in the
/// data area.
pub open spec fn well_formed(s: Seq<u8>) -> bool {
    &&& s.len() == PAGE_SIZE
    &&& spec_slot_count(s) <= MAX_SLOTS
    &&& spec_data_used(s) <= PAGE_SIZE
    &&& spec_slot_offset(spec_slot_count(s) as int) <= spec_data_start(s)
    &&& forall|i: int|
        0 <= i < spec_slot_count(s) && spec_tuple_len(s, i) > 0 ==> spec_data_start(s)
            <= #[trigger] spec_tuple_offset(s, i) && spec_tuple_offset(s, i) + spec_tuple_len(s, i)
            <= PAGE_SIZE
}

/// The page after inserting `data` as slot `count` when it fits: the
/// tuple goes just below the current data, then the slot entry, then the
/// header's count and data in use.
pub open spec fn spec_inserted(s: Seq<u8>, data: Seq<u8>) -> Seq<u8> {
    let count = spec_slot_count(s);
    let ds = spec_data_start(s) - data.len();
    let with_data = splice(s, ds, data);
    let with_slot = splice(
        with_data,
        spec_slot_offset(count as int),
        spec_u16_to_le_bytes(ds as u16) + spec_u16_to_le_bytes(data.len() as u16),
    );
    splice(
        with_slot,
        SLOT_COUNT_AT as int,
        spec_u16_to_le_bytes((count + 1) as u16) + spec_u16_to_le_bytes((PAGE_SIZE - ds) as u16),
    )
}

/// Whether `data` fits in the page as a new slot.
pub open spec fn spec_fits(s: Seq<u8>, data: Seq<u8>) -> bool {
    spec_slot_offset(spec_slot_count(s) as int + 1) + data.len() <= spec_data_start(s)
}

/// An empty page's header fields: slot count, data in use and next page,
/// all 0.
pub open spec fn spec_empty_header() -> Seq<u8> {
    spec_u16_to_le_bytes(0) + spec_u16_to_le_bytes(0) + spec_u32_to_le_bytes(NO_NEXT_PAGE)
}

pub fn slot_offset(slot: u16) -> (r: usize)
    ensures
        r == spec_slot_offset(slot as int),
{
    HEADER_SIZE + slot as usize * SLOT_SIZE
}

pub fn slotted_slot_count(bytes: &[u8]) -> (r: u16)
    requires
        bytes@.len() == PAGE_SIZE,
    ensures
        r == spec_slot_count(bytes@),
{
    read_u16(bytes, SLOT_COUNT_AT)
}

pub fn checked_slot_count(bytes: &[u8], page_id: PageId) -> (r: Result<u16, StorageError>)
    requires
        bytes@.len() == PAGE_SIZE,
    ensures
        spec_slot_count(bytes@) > MAX_SLOTS ==> is_corrupt(
            r,
            page_id,
            count_reason(spec_slot_count(bytes@)),
        ),
        spec_slot_count(bytes@) <= MAX_SLOTS ==> r == Ok::<u16, StorageError>(
            spec_slot_count(bytes@),
        ),
{
    let count = slotted_slot_count(bytes);
    if count > MAX_SLOTS {
        let mut reason = String::new();
        push_str(&mut reason, "slot count ");
        push_decimal(&mut reason, count as u64);
        push_str(&mut reason, " exceeds the ");
        push_decimal(&mut reason, MAX_SLOTS as u64);
        push_str(&mut reason, " slots a ");
        push_decimal(&mut reason, PAGE_SIZE as u64);
        push_str(&mut reason, "-byte page can hold");
        assert(reason@ =~= count_reason(count));
        return Err(StorageError::CorruptPage { page_id: page_id.0, reason });
    }
    Ok(count)
}

pub fn slotted_data_used(bytes: &[u8]) -> (r: u16)
    requires
        bytes@.len() == PAGE_SIZE,
    ensures
        r == spec_data_used(bytes@),
{
    read_u16(bytes, DATA_USED_AT)
}

pub fn slotted_data_start(bytes: &[u8]) -> (r: usize)
    requires
        bytes@.len() == PAGE_SIZE,
    ensures
        r == spec_data_start(bytes@),
{
    let used = slotted_data_used(bytes) as usize;
    if used <= PAGE_SIZE {
        PAGE_SIZE - used
    } else {
        0
    }
}

pub fn slotted_next_page_id(bytes: &[u8]) -> (r: PageId)
    requires
        bytes@.len() == PAGE_SIZE,
    ensures
        r.0 == spec_next_page_id(bytes@),
{
    PageId(read_u32(bytes, NEXT_PAGE_ID_AT))
}

pub fn slotted_free_space(bytes: &[u8]) -> (r: usize)
    requires
        bytes@.len() == PAGE_SIZE,
    ensures
        r == spec_free_space(bytes@),
{
    let slots_end = HEADER_SIZE + slotted_slot_count(bytes) as usize * SLOT_SIZE;
    let start = slotted_data_start(bytes);
    if start >= slots_end {
        start - slots_end
    } else {
        0
    }
}

/// The offset and length in `slot`'s entry, or `None` past the slot count.
pub fn slotted_slot_entry(bytes: &[u8], slot: u16, page_id: PageId) -> (r: Result<
    Option<(u16, u16)>,
    StorageError,
>)
    requires
        bytes@.len() == PAGE_SIZE,
    ensures
        spec_slot_count(bytes@) > MAX_SLOTS ==> is_corrupt(
            r,
            page_id,
            count_reason(spec_slot_count(bytes@)),
        ),
        spec_slot_count(bytes@) <= MAX_SLOTS ==> r == Ok::<Option<(u16, u16)>, StorageError>(
            if slot < spec_slot_count(bytes@) {
                Some((spec_tuple_offset(bytes@, slot as int), spec_tuple_len(bytes@, slot as int)))
            } else {
                None
            },
        ),
{
    let count = match checked_slot_count(bytes, page_id) {
        Ok(c) => c,
        Err(e) => return Err(e),
    };
    if slot >= count {
        return Ok(None);
    }
    let at = slot_offset(slot);
    Ok(Some((read_u16(bytes, at), read_u16(bytes, at + 2))))
}

/// The bytes of the tuple in `slot`.
pub fn slotted_read<'a>(bytes: &'a [u8], slot: u16, page_id: PageId) -> (r: Result<
    Option<&'a [u8]>,
    StorageError,
>)
    requires
        bytes@.len() == PAGE_SIZE,
    ensures
        match spec_read(bytes@, slot) {
            Ok(None) => r matches Ok(None),
            Ok(Some(t)) => r matches Ok(Some(b)) && b@ == t,
            Err(reason) => is_corrupt(r, page_id, reason),
        },
{
    let entry = match slotted_slot_entry(bytes, slot, page_id) {
        Ok(e) => e,
        Err(e) => return Err(e),
    };
    let (offset, len) = match entry {
        Some(e) => e,
        None => return Ok(None),
    };
    if len == 0 {
        return Ok(None);
    }
    let count = slotted_slot_count(bytes);
    let slots_end = slot_offset(count);
    let start = offset as usize;
    let end = start + len as usize;
    if start < slots_end {
        let mut reason = String::new();
        push_str(&mut reason, "slot ");
        push_decimal(&mut reason, slot as u64);
        push_str(&mut reason, "'s tuple at offset ");
        push_decimal(&mut reason, start as u64);
        push_str(&mut reason, " overlaps the ");
        push_decimal(&mut reason, slots_end as u64);
        push_str(&mut reason, "-byte slot array");
        assert(reason@ =~= overlap_reason(slot, start as int, slots_end as int));
        return Err(StorageError::CorruptPage { page_id: page_id.0, reason });
    }
    if end > bytes.len() {
        let mut reason = String::new();
        push_str(&mut reason, "slot ");
        push_decimal(&mut reason, slot as u64);
        push_str(&mut reason, "'s tuple range ");
        push_decimal(&mut reason, start as u64);
        push_str(&mut reason, "..");
        push_decimal(&mut reason, end as u64);
        push_str(&mut reason, " runs past the ");
        push_decimal(&mut reason, bytes.len() as u64);
        push_str(&mut reason, "-byte page");
        assert(reason@ =~= past_end_reason(slot, start as int, end as int, bytes@.len() as int));
        return Err(StorageError::CorruptPage { page_id: page_id.0, reason });
    }
    Ok(Some(slice_subrange(bytes, start, end)))
}

/// A heap page being read and written through the slotted layout, on
/// behalf of transaction `txn_id`.
pub struct SlottedPage {
    page: Page,
    txn_id: TxnId,
}

impl SlottedPage {
    pub closed spec fn bytes(&self) -> Seq<u8> {
        self.page.bytes()
    }

    pub closed spec fn spec_page_id(&self) -> PageId {
        self.page.spec_id()
    }

    pub closed spec fn spec_txn_id(&self) -> TxnId {
        self.txn_id
    }

    pub fn new(page: Page, txn_id: TxnId) -> (sp: SlottedPage)
        ensures
            sp.bytes() == page.bytes(),
            sp.spec_page_id() == page.spec_id(),
            sp.spec_txn_id() == txn_id,
    {
        SlottedPage { page, txn_id }
    }

    /// Hands the page back.
    pub fn into_page(self) -> (page: Page)
        ensures
            page.bytes() == self.bytes(),
            page.spec_id() == self.spec_page_id(),
    {
        self.page
    }

    pub fn page_id(&self) -> (id: PageId)
        ensures
            id == self.spec_page_id(),
    {
        self.page.id()
    }

    /// Clears the header: no slots, no data, no next page.
    /// Makes the page an empty heap page: no slots, no tuple data, no next
    /// page.
    pub fn init(&mut self)
        requires
            old(self).bytes().len() == PAGE_SIZE,
        ensures
            final(self).spec_page_id() == old(self).spec_page_id(),
            final(self).spec_txn_id() == old(self).spec_txn_id(),
            final(self).bytes() == splice(old(self).bytes(), SLOT_COUNT_AT as int, spec_empty_header()),
            spec_slot_count(final(self).bytes()) == 0,
            spec_data_used(final(self).bytes()) == 0,
            spec_next_page_id(final(self).bytes()) == NO_NEXT_PAGE,
    {
        let mut header: Vec<u8> = Vec::new();
        push_u16(&mut header, 0);
        push_u16(&mut header, 0);
        push_u32(&mut header, NO_NEXT_PAGE);
        proof {
            lemma_auto_spec_u16_to_from_le_bytes();
            lemma_auto_spec_u32_to_from_le_bytes();
        }
        self.page.write_bytes(SLOT_COUNT_AT, header.as_slice());
        proof {
            let s = self.page.bytes();
            assert(s.subrange(12, 14) =~= spec_u16_to_le_bytes(0));
            assert(s.subrange(14, 16) =~= spec_u16_to_le_bytes(0));
            assert(s.subrange(16, 20) =~= spec_u32_to_le_bytes(NO_NEXT_PAGE));
        }
    }

    pub fn slot_count(&self) -> (r: u16)
        requires
            self.bytes().len() == PAGE_SIZE,
        ensures
            r == spec_slot_count(self.bytes()),
    {
        slotted_slot_count(self.page.data().as_slice())
    }

    /// The bytes of the tuple in `slot`.
    pub fn read(&self, slot: u16) -> (r: Result<Option<&[u8]>, StorageError>)
        requires
            self.bytes().len() == PAGE_SIZE,
        ensures
            match spec_read(self.bytes(), slot) {
                Ok(None) => r matches Ok(None),
                Ok(Some(t)) => r matches Ok(Some(b)) && b@ == t,
                Err(reason) => is_corrupt(r, self.spec_page_id(), reason),
            },
    {
        slotted_read(self.page.data().as_slice(), slot, self.page.id())
    }

    pub fn free_space(&self) -> (r: usize)
        requires
            self.bytes().len() == PAGE_SIZE,
        ensures
            r == spec_free_space(self.bytes()),
    {
        slotted_free_space(self.page.data().as_slice())
    }

    /// The next page of the heap, if any.
    pub fn next_page_id(&self) -> (r: Option<PageId>)
        requires
            self.bytes().len() == PAGE_SIZE,
        ensures
            r == (if spec_next_page_id(self.bytes()) == NO_NEXT_PAGE {
                None
            } else {
                Some(PageId(spec_next_page_id(self.bytes())))
            }),
    {
        let id = slotted_next_page_id(self.page.data().as_slice());
        if id.0 == NO_NEXT_PAGE {
            None
        } else {
            Some(id)
        }
    }

    /// Links the heap's next page; page 0 is the database header, never a
    /// heap page.
    pub fn set_next_page_id(&mut self, next: PageId)
        requires
            old(self).bytes().len() == PAGE_SIZE,
            next.0 != NO_NEXT_PAGE,
        ensures
            final(self).spec_page_id() == old(self).spec_page_id(),
            final(self).spec_txn_id() == old(self).spec_txn_id(),
            final(self).bytes() == splice(old(self).bytes(), NEXT_PAGE_ID_AT as int, spec_u32_to_le_bytes(next.0)),
    {
        let enc = u32_to_le_bytes(next.0);
        self.page.write_bytes(NEXT_PAGE_ID_AT, enc.as_slice());
    }

    /// Stores `data` as a new tuple in the next slot and returns the slot,
    /// or returns `None` and leaves the page as it is when it does not fit.
    pub fn insert(&mut self, data: &[u8]) -> (r: Option<u16>)
        requires
            old(self).bytes().len() == PAGE_SIZE,
        ensures
            final(self).spec_page_id() == old(self).spec_page_id(),
            final(self).spec_txn_id() == old(self).spec_txn_id(),
            spec_fits(old(self).bytes(), data@) ==> r == Some(spec_slot_count(old(self).bytes()))
                && final(self).bytes() == spec_inserted(old(self).bytes(), data@),
            !spec_fits(old(self).bytes(), data@) ==> r is None && final(self).bytes() == old(self).bytes(),
    {
        let count = self.slot_count();
        let new_slots_end = HEADER_SIZE + (count as usize + 1) * SLOT_SIZE;
        let space_end = slotted_data_start(self.page.data().as_slice());
        if data.len() > space_end || new_slots_end > space_end - data.len() {
            return None;
        }
        proof {
            lemma_auto_spec_u16_to_from_le_bytes();
        }
        let data_start = space_end - data.len();
        self.page.write_bytes(data_start, data);
        let mut entry: Vec<u8> = Vec::new();
        push_u16(&mut entry, data_start as u16);
        push_u16(&mut entry, data.len() as u16);
        assert(entry@.len() == 4);
        assert(self.page.bytes().len() == PAGE_SIZE);
        self.page.write_bytes(slot_offset(count), entry.as_slice());
        let mut header: Vec<u8> = Vec::new();
        push_u16(&mut header, count + 1);
        push_u16(&mut header, (PAGE_SIZE - data_start) as u16);
        assert(header@.len() == 4);
        self.page.write_bytes(SLOT_COUNT_AT, header.as_slice());
        Some(count)
    }

    /// Marks the tuple in `slot` deleted; a slot past the count is left
    /// alone.
    pub fn delete(&mut self, slot: u16) -> (r: Result<(), StorageError>)
        requires
            old(self).bytes().len() == PAGE_SIZE,
        ensures
            final(self).spec_page_id() == old(self).spec_page_id(),
            final(self).spec_txn_id() == old(self).spec_txn_id(),
            spec_slot_count(old(self).bytes()) > MAX_SLOTS ==> is_corrupt(
                r,
                old(self).spec_page_id(),
                count_reason(spec_slot_count(old(self).bytes())),
            ) && final(self).bytes() == old(self).bytes(),
            spec_slot_count(old(self).bytes()) <= MAX_SLOTS ==> r is Ok && final(self).bytes() == if slot
                < spec_slot_count(old(self).bytes()) {
                splice(old(self).bytes(), spec_slot_offset(slot as int) + 2, spec_u16_to_le_bytes(0))
            } else {
                old(self).bytes()
            },
    {
        let page_id = self.page.id();
        let entry = match slotted_slot_entry(self.page.data().as_slice(), slot, page_id) {
            Ok(e) => e,
            Err(e) => return Err(e),
        };
        if entry.is_some() {
            let zeros = u16_to_le_bytes(0);
            proof {
                lemma_auto_spec_u16_to_from_le_bytes();
            }
            self.page.write_bytes(slot_offset(slot) + 2, zeros.as_slice());
        }
        Ok(())
    }
    /// Overwrites `bytes.len()` bytes of the tuple in `slot`, starting
    /// `offset` bytes into it.
    pub fn update_in_place(&mut self, slot: u16, offset: usize, bytes: &[u8]) -> (r: Result<
        (),
        StorageError,
    >)
        requires
            old(self).bytes().len() == PAGE_SIZE,
            offset + bytes@.len() <= usize::MAX,
            spec_slot_count(old(self).bytes()) <= MAX_SLOTS && slot < spec_slot_count(
                old(self).bytes(),
            ) && offset + bytes@.len() <= spec_tuple_len(old(self).bytes(), slot as int)
                ==> spec_tuple_offset(old(self).bytes(), slot as int) + offset + bytes@.len()
                <= PAGE_SIZE,
        ensures
            final(self).spec_page_id() == old(self).spec_page_id(),
            final(self).spec_txn_id() == old(self).spec_txn_id(),
            ({
                let s = old(self).bytes();
                let page_id = old(self).spec_page_id();
                let count = spec_slot_count(s);
                let len = spec_tuple_len(s, slot as int);
                if count > MAX_SLOTS {
                    is_corrupt(r, page_id, count_reason(count)) && final(self).bytes() == s
                } else if slot >= count {
                    is_corrupt(r, page_id, missing_reason(slot)) && final(self).bytes() == s
                } else if len == 0 {
                    is_corrupt(r, page_id, deleted_reason(slot)) && final(self).bytes() == s
                } else if offset + bytes@.len() > len {
                    r == Err::<(), StorageError>(
                        StorageError::InPlaceUpdateOutOfBounds {
                            page_id: page_id.0,
                            slot,
                            tuple_len: len as usize,
                            offset,
                            patch_len: bytes@.len() as usize,
                        },
                    ) && final(self).bytes() == s
                } else {
                    r is Ok && final(self).bytes() == splice(
                        s,
                        spec_tuple_offset(s, slot as int) + offset,
                        bytes@,
                    )
                }
            }),
    {
        let page_id = self.page.id();
        let entry = match slotted_slot_entry(self.page.data().as_slice(), slot, page_id) {
            Ok(e) => e,
            Err(e) => return Err(e),
        };
        let (tuple_start, tuple_len) = match entry {
            Some(e) => e,
            None => {
                let mut reason = String::new();
                push_str(&mut reason, "slot ");
                push_decimal(&mut reason, slot as u64);
                push_str(&mut reason, " does not exist");
                assert(reason@ =~= missing_reason(slot));
                return Err(StorageError::CorruptPage { page_id: page_id.0, reason });
            },
        };
        if tuple_len == 0 {
            let mut reason = String::new();
            push_str(&mut reason, "slot ");
            push_decimal(&mut reason, slot as u64);
            push_str(&mut reason, " is deleted");
            assert(reason@ =~= deleted_reason(slot));
            return Err(StorageError::CorruptPage { page_id: page_id.0, reason });
        }
        if offset + bytes.len() > tuple_len as usize {
            return Err(
                StorageError::InPlaceUpdateOutOfBounds {
                    page_id: page_id.0,
                    slot,
                    tuple_len: tuple_len as usize,
                    offset,
                    patch_len: bytes.len(),
                },
            );
        }
        self.page.write_bytes(tuple_start as usize + offset, bytes);
        Ok(())
    }
}

/// A splice leaves the bytes outside what it writes as they were.
pub proof fn lemma_splice_outside(s: Seq<u8>, at: int, src: Seq<u8>, x: int, n: int)
    requires
        0 <= at,
        at + src.len() <= s.len(),
        0 <= x,
        0 <= n,
        x + n <= s.len(),
        x + n <= at || at + src.len() <= x,
    ensures
        splice(s, at, src).len() == s.len(),
        splice(s, at, src).subrange(x, x + n) == s.subrange(x, x + n),
{
    assert(splice(s, at, src).subrange(x, x + n) =~= s.subrange(x, x + n));
}

/// A splice puts its bytes where it writes them.
pub proof fn lemma_splice_inside(s: Seq<u8>, at: int, src: Seq<u8>, x: int, n: int)
    requires
        0 <= at <= x,
        0 <= n,
        x + n <= at + src.len(),
        at + src.len() <= s.len(),
    ensures
        splice(s, at, src).len() == s.len(),
        splice(s, at, src).subrange(x, x + n) == src.subrange(x - at, x - at + n),
{
    assert(splice(s, at, src).subrange(x, x + n) =~= src.subrange(x - at, x - at + n));
}

proof fn lemma_u16_pair(a: u16, b: u16)
    ensures
        (spec_u16_to_le_bytes(a) + spec_u16_to_le_bytes(b)).len() == 4,
        (spec_u16_to_le_bytes(a) + spec_u16_to_le_bytes(b)).subrange(0, 2) == spec_u16_to_le_bytes(a),
        (spec_u16_to_le_bytes(a) + spec_u16_to_le_bytes(b)).subrange(2, 4) == spec_u16_to_le_bytes(b),
        spec_u16_from_le_bytes(spec_u16_to_le_bytes(a)) == a,
        spec_u16_from_le_bytes(spec_u16_to_le_bytes(b)) == b,
{
    lemma_auto_spec_u16_to_from_le_bytes();
    let p = spec_u16_to_le_bytes(a) + spec_u16_to_le_bytes(b);
    assert(p.subrange(0, 2) =~= spec_u16_to_le_bytes(a));
    assert(p.subrange(2, 4) =~= spec_u16_to_le_bytes(b));
}

/// The header fields and the new slot's entry of an inserted page.
proof fn lemma_inserted_fields(s: Seq<u8>, data: Seq<u8>)
    requires
        s.len() == PAGE_SIZE,
        spec_fits(s, data),
    ensures
        ({
            let t = spec_inserted(s, data);
            let count = spec_slot_count(s);
            let ds = spec_data_start(s) - data.len();
            &&& t.len() == PAGE_SIZE
            &&& spec_slot_count(t) == count + 1
            &&& spec_data_used(t) == PAGE_SIZE - ds
            &&& spec_data_start(t) == ds
            &&& spec_tuple_offset(t, count as int) == ds
            &&& spec_tuple_len(t, count as int) == data.len()
            &&& t.subrange(ds, ds + data.len()) == data
            &&& forall|i: int|
                0 <= i < count ==> spec_tuple_offset(t, i) == spec_tuple_offset(s, i)
                    && spec_tuple_len(t, i) == spec_tuple_len(s, i)
            &&& forall|x: int, n: int|
                0 <= n && spec_slot_offset(count as int + 1) <= x && x + n <= ds ==> #[trigger] t.subrange(x, x + n)
                    == s.subrange(x, x + n)
            &&& forall|x: int, n: int|
                0 <= n && spec_data_start(s) <= x && x + n <= PAGE_SIZE ==> #[trigger] t.subrange(x, x + n)
                    == s.subrange(x, x + n)
        }),
{
    let count = spec_slot_count(s);
    let ds = spec_data_start(s) - data.len();
    let so = spec_slot_offset(count as int);
    let entry = spec_u16_to_le_bytes(ds as u16) + spec_u16_to_le_bytes(data.len() as u16);
    let header = spec_u16_to_le_bytes((count + 1) as u16) + spec_u16_to_le_bytes(
        (PAGE_SIZE - ds) as u16,
    );
    lemma_u16_pair(ds as u16, data.len() as u16);
    lemma_u16_pair((count + 1) as u16, (PAGE_SIZE - ds) as u16);
    let a = splice(s, ds, data);
    let b = splice(a, so, entry);
    let t = splice(b, SLOT_COUNT_AT as int, header);
    assert(t == spec_inserted(s, data));
    lemma_splice_outside(s, ds, data, 0, 0);
    lemma_splice_outside(a, so, entry, 0, 0);
    lemma_splice_outside(b, 12, header, 0, 0);
    lemma_splice_inside(b, 12, header, 12, 2);
    lemma_splice_inside(b, 12, header, 14, 2);
    lemma_splice_outside(b, 12, header, so, 2);
    lemma_splice_outside(b, 12, header, so + 2, 2);
    lemma_splice_inside(a, so, entry, so, 2);
    lemma_splice_inside(a, so, entry, so + 2, 2);
    lemma_splice_outside(b, 12, header, ds, data.len() as int);
    lemma_splice_outside(a, so, entry, ds, data.len() as int);
    lemma_splice_inside(s, ds, data, ds, data.len() as int);
    assert(data.subrange(0, data.len() as int) =~= data);
    assert forall|i: int| 0 <= i < count implies spec_tuple_offset(t, i) == spec_tuple_offset(s, i)
        && spec_tuple_len(t, i) == spec_tuple_len(s, i) by {
        let o = spec_slot_offset(i);
        lemma_splice_outside(b, 12, header, o, 2);
        lemma_splice_outside(a, so, entry, o, 2);
        lemma_splice_outside(s, ds, data, o, 2);
        lemma_splice_outside(b, 12, header, o + 2, 2);
        lemma_splice_outside(a, so, entry, o + 2, 2);
        lemma_splice_outside(s, ds, data, o + 2, 2);
    }
    assert forall|x: int, n: int|
        0 <= n && spec_slot_offset(count as int + 1) <= x && x + n <= ds implies #[trigger] t.subrange(x, x + n)
            == s.subrange(x, x + n) by {
        lemma_splice_outside(b, 12, header, x, n);
        lemma_splice_outside(a, so, entry, x, n);
        lemma_splice_outside(s, ds, data, x, n);
    }
    assert forall|x: int, n: int|
        0 <= n && spec_data_start(s) <= x && x + n <= PAGE_SIZE implies #[trigger] t.subrange(x, x + n)
            == s.subrange(x, x + n) by {
        lemma_splice_outside(b, 12, header, x, n);
        lemma_splice_outside(a, so, entry, x, n);
        lemma_splice_outside(s, ds, data, x, n);
    }
}

/// A tuple inserted into a page reads back as the bytes inserted.
/// Inserting a tuple into a well-formed page leaves every other slot
/// reading as it did.
pub proof fn lemma_insert_keeps_other_slots(s: Seq<u8>, data: Seq<u8>, j: u16)
    requires
        well_formed(s),
        spec_fits(s, data),
        j != spec_slot_count(s),
    ensures
        spec_read(spec_inserted(s, data), j) == spec_read(s, j),
{
    lemma_inserted_fields(s, data);
    let t = spec_inserted(s, data);
    let count = spec_slot_count(s);
    if j < count {
        let start = spec_tuple_offset(s, j as int) as int;
        let len = spec_tuple_len(s, j as int) as int;
        if len > 0 {
            assert(spec_data_start(s) <= start);
            assert(t.subrange(start, start + len) == s.subrange(start, start + len));
        }
    }
}

pub proof fn lemma_insert_then_read(s: Seq<u8>, data: Seq<u8>)
    requires
        s.len() == PAGE_SIZE,
        spec_fits(s, data),
        data.len() > 0,
    ensures
        spec_read(spec_inserted(s, data), spec_slot_count(s)) == Ok::<Option<Seq<u8>>, Seq<char>>(
            Some(data),
        ),
{
    lemma_inserted_fields(s, data);
}

/// Inserting into a well-formed page keeps it well-formed and leaves
/// every tuple already there reading as before.
pub proof fn lemma_insert_keeps_page(s: Seq<u8>, data: Seq<u8>, slot: u16)
    requires
        well_formed(s),
        spec_fits(s, data),
        slot < spec_slot_count(s),
    ensures
        well_formed(spec_inserted(s, data)),
        spec_read(spec_inserted(s, data), slot) == spec_read(s, slot),
{
    lemma_inserted_fields(s, data);
    let t = spec_inserted(s, data);
    let count = spec_slot_count(s);
    assert forall|i: int|
        0 <= i < spec_slot_count(t) && spec_tuple_len(t, i) > 0 implies spec_data_start(t)
            <= #[trigger] spec_tuple_offset(t, i) && spec_tuple_offset(t, i) + spec_tuple_len(t, i)
            <= PAGE_SIZE by {
        if i < count {
            assert(spec_tuple_offset(t, i) == spec_tuple_offset(s, i));
        }
    }
    let start = spec_tuple_offset(s, slot as int) as int;
    let len = spec_tuple_len(s, slot as int) as int;
    if len > 0 {
        assert(t.subrange(start, start + len) == s.subrange(start, start + len));
    }
}

/// A deleted tuple reads as absent.
pub proof fn lemma_delete_then_read(s: Seq<u8>, slot: u16)
    requires
        s.len() == PAGE_SIZE,
        spec_slot_count(s) <= MAX_SLOTS,
        slot < spec_slot_count(s),
    ensures
        spec_read(splice(s, spec_slot_offset(slot as int) + 2, spec_u16_to_le_bytes(0)), slot)
            == Ok::<Option<Seq<u8>>, Seq<char>>(None),
{
    lemma_auto_spec_u16_to_from_le_bytes();
    let z = spec_u16_to_le_bytes(0);
    let o = spec_slot_offset(slot as int) + 2;
    lemma_splice_outside(s, o, z, 12, 2);
    lemma_splice_inside(s, o, z, o, 2);
    assert(z.subrange(0, 2) =~= z);
}

} // verus!
