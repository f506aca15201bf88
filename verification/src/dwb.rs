//! The double-write buffer: a side file that holds a copy of every page of
//! a flush batch until the batch has reached the database file, so that a
//! page torn by a crash mid-write can be restored.
//!
//! Layout: a header page, then one page-sized slot per batch entry. The
//! header is `magic (8) | count: u32 | count x (page_id: u32, crc: u32) |
//! crc: u32` where the last CRC covers everything before it and each entry
//! CRC is the CRC of its slot's full content.

use vstd::bytes::*;
use vstd::prelude::*;
use vstd::slice::*;

use crate::block_device::{written, resized, BlockDevice, DeviceError};
use crate::codec::{le_u32_at, read_u32, splice};
use crate::crc::{crc32, spec_crc32};
use crate::error::StorageError;
use crate::ids::PageId;
use crate::page::{spec_stamped, stamp_checksum, write_page_bytes, Page, PAGE_SIZE};

verus! {

pub const ENTRY_COUNT_OFFSET: usize = 8;
pub const ENTRIES_OFFSET: usize = 12;
pub const ENTRY_SIZE: usize = 8;

/// The largest capacity whose header fits in one page.
pub const MAX_CAPACITY: usize = 510;

/// `FDBDWB02`, the header's magic number.
pub open spec fn spec_dwb_magic() -> Seq<u8> {
    seq![70u8, 68u8, 66u8, 68u8, 87u8, 66u8, 48u8, 50u8]
}

fn dwb_magic() -> (m: Vec<u8>)
    ensures
        m@ == spec_dwb_magic(),
{
    let mut m = Vec::new();
    m.push(70u8);
    m.push(68u8);
    m.push(66u8);
    m.push(68u8);
    m.push(87u8);
    m.push(66u8);
    m.push(48u8);
    m.push(50u8);
    assert(m@ =~= spec_dwb_magic());
    m
}

pub open spec fn entries_bytes(entries: Seq<(u32, u32)>) -> Seq<u8>
    decreases entries.len(),
{
    if entries.len() == 0 {
        Seq::empty()
    } else {
        entries_bytes(entries.drop_last()) + spec_u32_to_le_bytes(entries.last().0)
            + spec_u32_to_le_bytes(entries.last().1)
    }
}

/// The header bytes before its CRC.
pub open spec fn header_content(entries: Seq<(u32, u32)>) -> Seq<u8> {
    spec_dwb_magic() + spec_u32_to_le_bytes(entries.len() as u32) + entries_bytes(entries)
}

/// The full header page for a batch.
pub open spec fn spec_header(entries: Seq<(u32, u32)>) -> Seq<u8> {
    let c = header_content(entries);
    splice(Seq::new(PAGE_SIZE as nat, |i: int| 0u8), 0, c + spec_u32_to_le_bytes(spec_crc32(c)))
}

/// Where slot `index` starts.
pub open spec fn slot_offset(index: int) -> int {
    (1 + index) * PAGE_SIZE
}

/// The batch a header page records, if it is a valid header of a non-empty
/// batch that fits the buffer's capacity.
pub open spec fn spec_read_batch(h: Seq<u8>, capacity: usize) -> Option<Seq<(u32, u32)>> {
    let count = le_u32_at(h, ENTRY_COUNT_OFFSET as int) as int;
    let content_end = ENTRIES_OFFSET + count * ENTRY_SIZE;
    if h.subrange(0, 8) != spec_dwb_magic() {
        None
    } else if count == 0 || count > capacity {
        None
    } else if content_end + 4 > PAGE_SIZE {
        None
    } else if spec_crc32(h.subrange(0, content_end)) != le_u32_at(h, content_end) {
        None
    } else {
        Some(
            Seq::new(
                count as nat,
                |i: int|
                    (
                        le_u32_at(h, ENTRIES_OFFSET + i * ENTRY_SIZE),
                        le_u32_at(h, ENTRIES_OFFSET + i * ENTRY_SIZE + 4),
                    ),
            ),
        )
    }
}

pub proof fn lemma_entries_bytes_len(entries: Seq<(u32, u32)>)
    ensures
        entries_bytes(entries).len() == 8 * entries.len(),
    decreases entries.len(),
{
    lemma_auto_spec_u32_to_from_le_bytes();
    if entries.len() > 0 {
        lemma_entries_bytes_len(entries.drop_last());
        assert(spec_u32_to_le_bytes(entries.last().0).len() == 4);
        assert(spec_u32_to_le_bytes(entries.last().1).len() == 4);
    }
}

proof fn lemma_entries_bytes_at(entries: Seq<(u32, u32)>, i: int)
    requires
        0 <= i < entries.len(),
    ensures
        entries_bytes(entries).len() == 8 * entries.len(),
        entries_bytes(entries).subrange(8 * i, 8 * i + 4) == spec_u32_to_le_bytes(entries[i].0),
        entries_bytes(entries).subrange(8 * i + 4, 8 * i + 8) == spec_u32_to_le_bytes(
            entries[i].1,
        ),
    decreases entries.len(),
{
    lemma_auto_spec_u32_to_from_le_bytes();
    lemma_entries_bytes_len(entries);
    let init = entries.drop_last();
    lemma_entries_bytes_len(init);
    assert(spec_u32_to_le_bytes(entries.last().0).len() == 4);
    assert(spec_u32_to_le_bytes(entries.last().1).len() == 4);
    let eb = entries_bytes(entries);
    if i < entries.len() - 1 {
        lemma_entries_bytes_at(init, i);
        assert(eb.subrange(8 * i, 8 * i + 4) =~= entries_bytes(init).subrange(8 * i, 8 * i + 4));
        assert(eb.subrange(8 * i + 4, 8 * i + 8) =~= entries_bytes(init).subrange(
            8 * i + 4,
            8 * i + 8,
        ));
    } else {
        assert(eb.subrange(8 * i, 8 * i + 4) =~= spec_u32_to_le_bytes(entries.last().0));
        assert(eb.subrange(8 * i + 4, 8 * i + 8) =~= spec_u32_to_le_bytes(entries.last().1));
    }
}

/// Reading back a written header gives the batch that was written; a
/// header of an empty batch reads as "nothing to recover".
pub proof fn lemma_header_round_trip(entries: Seq<(u32, u32)>, capacity: usize)
    requires
        entries.len() <= capacity,
        capacity <= MAX_CAPACITY,
    ensures
        entries.len() > 0 ==> spec_read_batch(spec_header(entries), capacity) == Some(entries),
        entries.len() == 0 ==> spec_read_batch(spec_header(entries), capacity) is None,
{
    lemma_auto_spec_u32_to_from_le_bytes();
    lemma_entries_bytes_len(entries);
    let n = entries.len() as int;
    let c = header_content(entries);
    let h = spec_header(entries);
    assert(spec_u32_to_le_bytes(entries.len() as u32).len() == 4);
    assert(spec_u32_to_le_bytes(spec_crc32(c)).len() == 4);
    assert(c.len() == 12 + 8 * n);
    assert(h.subrange(0, 8) =~= spec_dwb_magic());
    assert(h.subrange(8, 12) =~= spec_u32_to_le_bytes(entries.len() as u32));
    assert(le_u32_at(h, 8) == entries.len() as u32);
    if n > 0 {
        assert(h.subrange(0, 12 + 8 * n) =~= c);
        assert(h.subrange(12 + 8 * n, 16 + 8 * n) =~= spec_u32_to_le_bytes(spec_crc32(c)));
        let got = spec_read_batch(h, capacity)->0;
        assert forall|i: int| 0 <= i < n implies got[i] == entries[i] by {
            lemma_entries_bytes_at(entries, i);
            assert(h.subrange(12 + 8 * i, 16 + 8 * i) =~= entries_bytes(entries).subrange(
                8 * i,
                8 * i + 4,
            ));
            assert(h.subrange(16 + 8 * i, 20 + 8 * i) =~= entries_bytes(entries).subrange(
                8 * i + 4,
                8 * i + 8,
            ));
            assert(spec_u32_to_le_bytes(entries[i].0).len() == 4);
            assert(spec_u32_to_le_bytes(entries[i].1).len() == 4);
        }
        assert(got =~= entries);
    }
}

/// A write leaves the bytes outside its range as they were.
pub proof fn lemma_written_elsewhere(s: Seq<u8>, off: nat, b: Seq<u8>, lo: int, hi: int)
    requires
        0 <= lo <= hi <= s.len(),
        hi <= off || lo >= off + b.len(),
    ensures
        written(s, off, b).subrange(lo, hi) == s.subrange(lo, hi),
{
    assert(written(s, off, b).subrange(lo, hi) =~= s.subrange(lo, hi));
}

/// A page-sized copy of `bytes`.
fn to_page_array(bytes: &[u8]) -> (a: [u8; PAGE_SIZE])
    requires
        bytes@.len() == PAGE_SIZE,
    ensures
        a@ == bytes@,
{
    let mut a = [0u8; PAGE_SIZE];
    write_page_bytes(&mut a, 0, bytes);
    assert(a@ =~= bytes@);
    a
}

/// The double-write buffer over its device.
pub struct DoubleWriteBuffer<W: BlockDevice> {
    device: W,
    capacity: usize,
}

impl<W: BlockDevice> DoubleWriteBuffer<W> {
    pub const DEFAULT_CAPACITY: usize = 64;

    pub closed spec fn contents(&self) -> Seq<u8> {
        self.device.contents()
    }

    pub closed spec fn spec_capacity(&self) -> usize {
        self.capacity
    }

    pub closed spec fn inv(&self) -> bool {
        &&& self.device.inv()
        &&& 0 < self.capacity <= MAX_CAPACITY
    }

    pub proof fn lemma_capacity_bounds(&self)
        requires
            self.inv(),
        ensures
            0 < self.spec_capacity() <= MAX_CAPACITY,
    {
    }

    /// The batch the header currently records.
    pub open spec fn recorded_batch(&self) -> Option<Seq<(u32, u32)>> {
        spec_read_batch(self.contents().subrange(0, PAGE_SIZE as int), self.spec_capacity())
    }

    /// Closes the buffer, handing its device back.
    pub fn into_device(self) -> (d: W)
        requires
            self.inv(),
        ensures
            d.inv(),
            d.contents() == self.contents(),
    {
        self.device
    }

    /// Opens the buffer, growing its device to a header plus `capacity` slots.
    pub fn open_with_device(device: W, capacity: usize) -> (r: Result<Self, StorageError>)
        requires
            device.inv(),
            capacity <= MAX_CAPACITY,
        ensures
            match r {
                Ok(b) => {
                    &&& b.inv()
                    &&& b.spec_capacity() == capacity
                    &&& b.contents() == if device.contents().len() < (1 + capacity) * PAGE_SIZE {
                        resized(device.contents(), ((1 + capacity) * PAGE_SIZE) as nat)
                    } else {
                        device.contents()
                    }
                },
                Err(StorageError::InvalidDwbCapacity) => capacity == 0,
                Err(StorageError::Io(_)) => capacity > 0,
                Err(_) => false,
            },
            capacity == 0 <==> r matches Err(StorageError::InvalidDwbCapacity),
    {
        if capacity == 0 {
            return Err(StorageError::InvalidDwbCapacity);
        }
        let mut device = device;
        let expected_len = (1 + capacity) as u64 * PAGE_SIZE as u64;
        let len = match device.size() {
            Ok(n) => n,
            Err(e) => return Err(StorageError::Io(e)),
        };
        if len < expected_len {
            match device.set_len(expected_len) {
                Ok(()) => {},
                Err(e) => return Err(StorageError::Io(e)),
            }
        }
        Ok(DoubleWriteBuffer { device, capacity })
    }

    pub fn capacity(&self) -> (c: usize)
        ensures
            c == self.spec_capacity(),
    {
        self.capacity
    }

    fn offset_of_slot(&self, index: usize) -> (o: u64)
        requires
            index <= u32::MAX,
        ensures
            o == slot_offset(index as int),
    {
        assert((1 + index as int) * 4096 <= 0x1_0000_0000int * 4096) by (nonlinear_arith)
            requires
                index <= u32::MAX,
        ;
        (1 + index as u64) * PAGE_SIZE as u64
    }

    /// Copies a batch of pages into the slots, then records it in the
    /// header, then syncs.
    pub fn write_batch(&mut self, pages: &[Page]) -> (r: Result<(), StorageError>)
        requires
            old(self).inv(),
            pages@.len() <= old(self).spec_capacity(),
        ensures
            final(self).inv(),
            final(self).spec_capacity() == old(self).spec_capacity(),
            r is Ok ==> {
                let entries = Seq::new(
                    pages@.len(),
                    |i: int| (pages@[i].spec_id().0, spec_crc32(spec_stamped(pages@[i].bytes()))),
                );
                &&& final(self).contents().len() >= slot_offset(pages@.len() as int)
                &&& final(self).contents().subrange(0, PAGE_SIZE as int) == spec_header(entries)
                &&& forall|i: int|
                    0 <= i < pages@.len() ==> final(self).contents().subrange(
                        slot_offset(i),
                        slot_offset(i) + PAGE_SIZE,
                    ) == spec_stamped(#[trigger] pages@[i].bytes())
            },
            r is Err ==> r->Err_0 is Io,
    {
        let mut entries: Vec<(u32, u32)> = Vec::new();
        let mut i: usize = 0;
        while i < pages.len()
            invariant
                self.device.inv(),
                self.capacity == old(self).capacity,
                0 < self.capacity <= MAX_CAPACITY,
                i <= pages@.len(),
                pages@.len() <= self.capacity,
                entries@.len() == i,
                forall|k: int|
                    0 <= k < i ==> #[trigger] entries@[k] == (
                        pages@[k].spec_id().0,
                        spec_crc32(spec_stamped(pages@[k].bytes())),
                    ),
                i > 0 ==> self.device.contents().len() >= slot_offset(i as int),
                forall|k: int|
                    0 <= k < i ==> self.device.contents().subrange(
                        slot_offset(k),
                        slot_offset(k) + PAGE_SIZE,
                    ) == spec_stamped(#[trigger] pages@[k].bytes()),
            decreases pages@.len() - i,
        {
            let mut scratch = *pages[i].data();
            stamp_checksum(&mut scratch);
            let offset = self.offset_of_slot(i);
            let ghost before = self.device.contents();
            match self.device.write_at(offset, scratch.as_slice()) {
                Ok(()) => {},
                Err(e) => return Err(StorageError::Io(e)),
            }
            proof {
                assert forall|k: int| 0 <= k < i implies self.device.contents().subrange(
                    slot_offset(k),
                    slot_offset(k) + PAGE_SIZE,
                ) == spec_stamped(#[trigger] pages@[k].bytes()) by {
                    lemma_written_elsewhere(
                        before,
                        offset as nat,
                        scratch@,
                        slot_offset(k),
                        slot_offset(k) + PAGE_SIZE,
                    );
                }
                assert(self.device.contents().subrange(slot_offset(i as int), slot_offset(i as int) + PAGE_SIZE) =~= scratch@);
            }
            entries.push((pages[i].id().0, crc32(scratch.as_slice())));
            i = i + 1;
        }
        let header = self.encode_header(&entries);
        let ghost before = self.device.contents();
        match self.device.write_at(0, header.as_slice()) {
            Ok(()) => {},
            Err(e) => return Err(StorageError::Io(e)),
        }
        proof {
            assert forall|k: int| 0 <= k < pages@.len() implies self.device.contents().subrange(
                slot_offset(k),
                slot_offset(k) + PAGE_SIZE,
            ) == spec_stamped(#[trigger] pages@[k].bytes()) by {
                lemma_written_elsewhere(
                    before,
                    0,
                    header@,
                    slot_offset(k),
                    slot_offset(k) + PAGE_SIZE,
                );
            }
            let e = Seq::new(
                pages@.len(),
                |i: int| (pages@[i].spec_id().0, spec_crc32(spec_stamped(pages@[i].bytes()))),
            );
            assert(entries@ =~= e);
            assert(self.device.contents().subrange(0, PAGE_SIZE as int) =~= header@);
        }
        match self.device.sync_all() {
            Ok(()) => Ok(()),
            Err(e) => Err(StorageError::Io(e)),
        }
    }

    /// Records an empty batch in the header, then syncs.
    pub fn clear_batch(&mut self) -> (r: Result<(), StorageError>)
        requires
            old(self).inv(),
        ensures
            final(self).inv(),
            final(self).spec_capacity() == old(self).spec_capacity(),
            r is Ok ==> final(self).contents() == written(
                old(self).contents(),
                0,
                spec_header(Seq::empty()),
            ),
            r is Ok ==> final(self).recorded_batch() is None,
            r is Err ==> r->Err_0 is Io,
    {
        let empty: Vec<(u32, u32)> = Vec::new();
        let header = self.encode_header(&empty);
        proof {
            assert(empty@ =~= Seq::<(u32, u32)>::empty());
        }
        match self.device.write_at(0, header.as_slice()) {
            Ok(()) => {},
            Err(e) => return Err(StorageError::Io(e)),
        }
        proof {
            lemma_header_round_trip(Seq::empty(), self.capacity);
            assert(self.device.contents().subrange(0, PAGE_SIZE as int) =~= header@);
        }
        match self.device.sync_all() {
            Ok(()) => Ok(()),
            Err(e) => Err(StorageError::Io(e)),
        }
    }

    fn encode_header(&self, entries: &Vec<(u32, u32)>) -> (h: [u8; PAGE_SIZE])
        requires
            entries@.len() <= MAX_CAPACITY,
        ensures
            h@ == spec_header(entries@),
    {
        let mut content: Vec<u8> = dwb_magic();
        let count = entries.len() as u32;
        crate::codec::push_u32(&mut content, count);
        let ghost mid = content@;
        let mut i: usize = 0;
        while i < entries.len()
            invariant
                i <= entries@.len(),
                content@ == mid + entries_bytes(entries@.take(i as int)),
            decreases entries@.len() - i,
        {
            let (id, crc) = entries[i];
            crate::codec::push_u32(&mut content, id);
            crate::codec::push_u32(&mut content, crc);
            proof {
                assert(entries@.take(i as int + 1).drop_last() =~= entries@.take(i as int));
            }
            i = i + 1;
        }
        proof {
            assert(entries@.take(i as int) =~= entries@);
            assert(content@ =~= header_content(entries@));
            lemma_entries_bytes_len(entries@);
            lemma_auto_spec_u32_to_from_le_bytes();
            assert(spec_u32_to_le_bytes(count).len() == 4);
        }
        let crc = crc32(content.as_slice());
        crate::codec::push_u32(&mut content, crc);
        proof {
            lemma_auto_spec_u32_to_from_le_bytes();
            assert(spec_u32_to_le_bytes(crc).len() == 4);
        }
        let mut buf = [0u8; PAGE_SIZE];
        write_page_bytes(&mut buf, 0, content.as_slice());
        buf
    }

    /// The batch recorded in the header, or `None` when there is nothing to
    /// recover.
    pub fn read_batch(&self) -> (r: Result<Option<Vec<(PageId, u32)>>, StorageError>)
        requires
            self.inv(),
        ensures
            match r {
                Ok(None) => self.contents().len() >= PAGE_SIZE && self.recorded_batch() is None,
                Ok(Some(v)) => {
                    &&& self.contents().len() >= PAGE_SIZE
                    &&& self.recorded_batch() == Some(
                        v@.map_values(|e: (PageId, u32)| (e.0.0, e.1)),
                    )
                },
                Err(e) => e is Io,
            },
    {
        let header = match self.device.read_at(0, PAGE_SIZE) {
            Ok(h) => h,
            Err(e) => return Err(StorageError::Io(e)),
        };
        let ghost h = header@;
        let m = dwb_magic();
        let mut i: usize = 0;
        while i < 8
            invariant
                i <= 8,
                header@.len() == PAGE_SIZE,
                self.contents().len() >= PAGE_SIZE,
                header@ == self.contents().subrange(0, PAGE_SIZE as int),
                m@ == spec_dwb_magic(),
                forall|k: int| 0 <= k < i ==> header@[k] == m@[k],
            decreases 8 - i,
        {
            if header[i] != m[i] {
                proof {
                    assert(header@.subrange(0, 8)[i as int] != spec_dwb_magic()[i as int]);
                    assert(header@.subrange(0, 8) != spec_dwb_magic());
                    assert(header@ == self.contents().subrange(0, PAGE_SIZE as int));
                    assert(spec_read_batch(header@, self.capacity) is None);
                }
                return Ok(None);
            }
            i = i + 1;
        }
        assert(header@.subrange(0, 8) =~= spec_dwb_magic());
        let count = read_u32(header.as_slice(), ENTRY_COUNT_OFFSET) as usize;
        if count == 0 || count > self.capacity {
            return Ok(None);
        }
        let content_end = ENTRIES_OFFSET + count * ENTRY_SIZE;
        if content_end + 4 > PAGE_SIZE {
            return Ok(None);
        }
        let stored_crc = read_u32(header.as_slice(), content_end);
        if crc32(slice_subrange(header.as_slice(), 0, content_end)) != stored_crc {
            return Ok(None);
        }
        let mut entries: Vec<(PageId, u32)> = Vec::new();
        let mut j: usize = 0;
        while j < count
            invariant
                j <= count,
                count <= MAX_CAPACITY,
                header@ == h,
                h.len() == PAGE_SIZE,
                ENTRIES_OFFSET + count * ENTRY_SIZE + 4 <= PAGE_SIZE,
                entries@.len() == j,
                forall|k: int|
                    0 <= k < j ==> (#[trigger] entries@[k]).0.0 == le_u32_at(
                        h,
                        ENTRIES_OFFSET + k * ENTRY_SIZE,
                    ) && entries@[k].1 == le_u32_at(h, ENTRIES_OFFSET + k * ENTRY_SIZE + 4),
            decreases count - j,
        {
            let at = ENTRIES_OFFSET + j * ENTRY_SIZE;
            let id = read_u32(header.as_slice(), at);
            let crc = read_u32(header.as_slice(), at + 4);
            entries.push((PageId(id), crc));
            j = j + 1;
        }
        proof {
            let got = entries@.map_values(|e: (PageId, u32)| (e.0.0, e.1));
            let want = spec_read_batch(h, self.capacity)->0;
            assert(got =~= want);
        }
        Ok(Some(entries))
    }

    /// The content of slot `index`.
    pub fn read_slot(&self, index: usize) -> (r: Result<[u8; PAGE_SIZE], StorageError>)
        requires
            self.inv(),
            index <= u32::MAX,
        ensures
            match r {
                Ok(b) => {
                    &&& slot_offset(index as int) + PAGE_SIZE <= self.contents().len()
                    &&& b@ == self.contents().subrange(
                        slot_offset(index as int),
                        slot_offset(index as int) + PAGE_SIZE,
                    )
                },
                Err(e) => e is Io,
            },
    {
        let bytes = match self.device.read_at(self.offset_of_slot(index), PAGE_SIZE) {
            Ok(b) => b,
            Err(e) => return Err(StorageError::Io(e)),
        };
        Ok(to_page_array(bytes.as_slice()))
    }

    /// Overwrites slot `index` with raw content, then syncs.
    pub fn write_raw_slot(&mut self, index: usize, content: &[u8; PAGE_SIZE]) -> (r: Result<
        (),
        StorageError,
    >)
        requires
            old(self).inv(),
            index <= u32::MAX,
        ensures
            final(self).inv(),
            final(self).spec_capacity() == old(self).spec_capacity(),
            r is Ok ==> final(self).contents() == written(
                old(self).contents(),
                slot_offset(index as int) as nat,
                content@,
            ),
            r is Err ==> r->Err_0 is Io,
    {
        let offset = self.offset_of_slot(index);
        match self.device.write_at(offset, content.as_slice()) {
            Ok(()) => {},
            Err(e) => return Err(StorageError::Io(e)),
        }
        match self.device.sync_all() {
            Ok(()) => Ok(()),
            Err(e) => Err(StorageError::Io(e)),
        }
    }

    /// Records `entries` in the header without touching the slots, then
    /// syncs.
    pub fn write_raw_header_entries(&mut self, entries: &[(PageId, u32)]) -> (r: Result<
        (),
        StorageError,
    >)
        requires
            old(self).inv(),
            entries@.len() <= MAX_CAPACITY,
        ensures
            final(self).inv(),
            final(self).spec_capacity() == old(self).spec_capacity(),
            r is Ok ==> final(self).contents() == written(
                old(self).contents(),
                0,
                spec_header(entries@.map_values(|e: (PageId, u32)| (e.0.0, e.1))),
            ),
            r is Err ==> r->Err_0 is Io,
    {
        let mut raw: Vec<(u32, u32)> = Vec::new();
        let mut i: usize = 0;
        while i < entries.len()
            invariant
                i <= entries@.len(),
                raw@ == entries@.take(i as int).map_values(|e: (PageId, u32)| (e.0.0, e.1)),
            decreases entries@.len() - i,
        {
            let (id, crc) = entries[i];
            raw.push((id.0, crc));
            proof {
                assert(entries@.take(i as int + 1).map_values(|e: (PageId, u32)| (e.0.0, e.1))
                    =~= raw@);
            }
            i = i + 1;
        }
        proof {
            assert(entries@.take(i as int) =~= entries@);
        }
        let header = self.encode_header(&raw);
        match self.device.write_at(0, header.as_slice()) {
            Ok(()) => {},
            Err(e) => return Err(StorageError::Io(e)),
        }
        match self.device.sync_all() {
            Ok(()) => Ok(()),
            Err(e) => Err(StorageError::Io(e)),
        }
    }
}

} // verus!
