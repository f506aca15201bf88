//! The database file: a header page followed by checksummed data pages.

use vstd::bytes::*;
use vstd::prelude::*;
use vstd::slice::*;

use crate::block_device::{written, resized, BlockDevice};
use crate::codec::{le_u32_at, read_u32, splice};
use crate::error::StorageError;
use crate::fmt::{push_decimal, push_str, spec_decimal};
use crate::ids::PageId;
use crate::page::{
    checksum_of, checksum_ok, spec_checksum_of, spec_checksum_ok, spec_stamped, stamp_checksum,
    write_page_bytes, Page, PAGE_SIZE,
};

verus! {

/// The on-disk format version this build reads and writes.
pub const HEADER_VERSION: u32 = 9;

pub const MAGIC_START: usize = 12;
pub const VERSION_START: usize = 20;
pub const CATALOG_FIRST_PAGE_START: usize = 24;
pub const PAGE_SIZE_START: usize = 28;
pub const LAST_CHECKPOINT_LSN_START: usize = 32;
pub const INDEX_CATALOG_FIRST_PAGE_START: usize = 40;

/// The header fields a freshly opened file must carry, read from its first
/// 32 bytes.
pub const HEADER_READ_LEN: usize = 32;

/// `FERRODB\0`, the file's magic number.
pub open spec fn spec_magic() -> Seq<u8> {
    seq![70u8, 69u8, 82u8, 82u8, 79u8, 68u8, 66u8, 0u8]
}

fn magic() -> (m: Vec<u8>)
    ensures
        m@ == spec_magic(),
{
    let mut m = Vec::new();
    m.push(70u8);
    m.push(69u8);
    m.push(82u8);
    m.push(82u8);
    m.push(79u8);
    m.push(68u8);
    m.push(66u8);
    m.push(0u8);
    assert(m@ =~= spec_magic());
    m
}

/// The unstamped header page of a new file with the given page size.
pub open spec fn spec_raw_header(page_size: u32) -> Seq<u8> {
    let z = Seq::new(PAGE_SIZE as nat, |i: int| 0u8);
    let a = splice(z, MAGIC_START as int, spec_magic());
    let b = splice(a, VERSION_START as int, spec_u32_to_le_bytes(HEADER_VERSION));
    let c = splice(b, CATALOG_FIRST_PAGE_START as int, spec_u32_to_le_bytes(0xFFFF_FFFFu32));
    let d = splice(c, INDEX_CATALOG_FIRST_PAGE_START as int, spec_u32_to_le_bytes(0xFFFF_FFFFu32));
    splice(d, PAGE_SIZE_START as int, spec_u32_to_le_bytes(page_size))
}

/// Where page `id` starts in the file.
pub open spec fn page_offset(id: u32, page_size: usize) -> int {
    id as int * page_size as int
}

/// The reason given when the magic number is wrong.
pub open spec fn bad_magic_reason() -> Seq<char> {
    "bad magic in database header"@
}

pub open spec fn bad_version_reason(version: u32) -> Seq<char> {
    "unsupported on-disk format version "@ + spec_decimal(version as nat)
        + ": this build reads and writes version 9"@
}

pub open spec fn page_size_mismatch_reason(stored: u32, requested: usize) -> Seq<char> {
    "page size mismatch: database was created with page_size "@ + spec_decimal(stored as nat)
        + ", but "@ + spec_decimal(requested as nat) + " was requested"@
}

/// Owns the database file: allocates pages, and reads and writes them with
/// their checksums.
pub struct DiskManager<D: BlockDevice> {
    device: D,
    page_size: usize,
    next_page_id: u32,
    extended_len: u64,
}

impl<D: BlockDevice> DiskManager<D> {
    pub closed spec fn contents(&self) -> Seq<u8> {
        self.device.contents()
    }

    pub closed spec fn spec_page_size(&self) -> usize {
        self.page_size
    }

    /// The id the next allocated page will get.
    pub closed spec fn next_page_id(&self) -> u32 {
        self.next_page_id
    }

    pub closed spec fn inv(&self) -> bool {
        &&& self.device.inv()
        &&& 0 < self.page_size <= u32::MAX
    }

    /// The file is at least as long as this manager last grew it to; a
    /// failed device operation may break this.
    pub closed spec fn len_tracked(&self) -> bool {
        self.extended_len <= self.device.contents().len()
    }

    /// Closes the manager, handing its device back.
    pub fn into_device(self) -> (d: D)
        requires
            self.inv(),
        ensures
            d.inv(),
            d.contents() == self.contents(),
    {
        self.device
    }

    /// Opens the file on `device`, writing a fresh header if it is empty.
    ///
    /// An existing file must be a whole number of pages and carry the
    /// magic number, format version 9 and the requested page size.
    pub fn open_with_device(device: D, page_size: usize) -> (r: Result<Self, StorageError>)
        requires
            device.inv(),
            0 < page_size <= u32::MAX,
        ensures
            match r {
                Ok(m) => {
                    &&& m.inv()
                    &&& m.len_tracked()
                    &&& m.spec_page_size() == page_size
                    &&& if device.contents().len() == 0 {
                        &&& m.contents() == written(
                            device.contents(),
                            0,
                            spec_stamped(spec_raw_header(page_size as u32)),
                        )
                        &&& m.next_page_id() == 1
                    } else {
                        &&& m.contents() == device.contents()
                        &&& device.contents().len() % (page_size as nat) == 0
                        &&& device.contents().subrange(MAGIC_START as int, 20) == spec_magic()
                        &&& le_u32_at(device.contents(), VERSION_START as int) == HEADER_VERSION
                        &&& le_u32_at(device.contents(), PAGE_SIZE_START as int) == page_size
                        &&& m.next_page_id() == (device.contents().len() / (page_size as nat))
                            as u32
                    }
                },
                Err(StorageError::TruncatedFile { actual, expected, page_size: ps }) => {
                    &&& actual == device.contents().len()
                    &&& (actual as nat) % (page_size as nat) != 0
                    &&& expected == actual - (actual as nat) % (page_size as nat)
                    &&& ps == page_size
                },
                Err(StorageError::CorruptPage { page_id, reason }) => {
                    &&& page_id == 0
                    &&& device.contents().len() > 0
                    &&& device.contents().len() % (page_size as nat) == 0
                    &&& {
                        ||| device.contents().subrange(MAGIC_START as int, 20) != spec_magic()
                            && reason@ == bad_magic_reason()
                        ||| device.contents().subrange(MAGIC_START as int, 20) == spec_magic()
                            && le_u32_at(device.contents(), VERSION_START as int)
                            != HEADER_VERSION && reason@ == bad_version_reason(
                            le_u32_at(device.contents(), VERSION_START as int),
                        )
                        ||| device.contents().subrange(MAGIC_START as int, 20) == spec_magic()
                            && le_u32_at(device.contents(), VERSION_START as int)
                            == HEADER_VERSION && le_u32_at(
                            device.contents(),
                            PAGE_SIZE_START as int,
                        ) != page_size && reason@ == page_size_mismatch_reason(
                            le_u32_at(device.contents(), PAGE_SIZE_START as int),
                            page_size,
                        )
                    }
                },
                Err(StorageError::Io(_)) => true,
                Err(_) => false,
            },
    {
        let device_len = match device.size() {
            Ok(n) => n,
            Err(e) => return Err(StorageError::Io(e)),
        };
        if device_len == 0 {
            let mut manager = DiskManager {
                device,
                page_size,
                next_page_id: 1,
                extended_len: 0,
            };
            manager.write_header()?;
            manager.extended_len = if page_size <= PAGE_SIZE {
                page_size as u64
            } else {
                PAGE_SIZE as u64
            };
            return Ok(manager);
        }
        if device_len % page_size as u64 != 0 {
            let whole_pages = device_len / page_size as u64;
            proof {
                assert(whole_pages * page_size == device_len - device_len % (page_size as u64))
                    by (nonlinear_arith)
                    requires
                        whole_pages == device_len / (page_size as u64),
                        page_size > 0,
                ;
            }
            return Err(StorageError::TruncatedFile {
                actual: device_len,
                expected: whole_pages * page_size as u64,
                page_size,
            });
        }
        if device_len < HEADER_READ_LEN as u64 {
            // A file shorter than the header cannot carry the magic number.
            return Err(StorageError::Io(crate::block_device::DeviceError::UnexpectedEof));
        }
        let header_buf = match device.read_at(0, HEADER_READ_LEN) {
            Ok(b) => b,
            Err(e) => return Err(StorageError::Io(e)),
        };
        let m = magic();
        let mut magic_ok = true;
        let mut i: usize = 0;
        while i < 8
            invariant
                i <= 8,
                header_buf@.len() == HEADER_READ_LEN,
                m@ == spec_magic(),
                magic_ok == (forall|k: int| 0 <= k < i ==> header_buf@[MAGIC_START + k] == m@[k]),
            decreases 8 - i,
        {
            if header_buf[MAGIC_START + i] != m[i] {
                magic_ok = false;
            }
            i = i + 1;
        }
        proof {
            let got = device.contents().subrange(MAGIC_START as int, 20);
            assert(header_buf@ == device.contents().subrange(0, HEADER_READ_LEN as int));
            if magic_ok {
                assert(got =~= spec_magic());
            } else {
                assert(got != spec_magic());
            }
        }
        if !magic_ok {
            let mut reason = String::new();
            push_str(&mut reason, "bad magic in database header");
            return Err(StorageError::CorruptPage { page_id: 0, reason });
        }
        let version = read_u32(header_buf.as_slice(), VERSION_START);
        proof {
            assert(header_buf@.subrange(20, 24) =~= device.contents().subrange(20, 24));
            assert(header_buf@.subrange(28, 32) =~= device.contents().subrange(28, 32));
        }
        if version != HEADER_VERSION {
            let mut reason = String::new();
            push_str(&mut reason, "unsupported on-disk format version ");
            push_decimal(&mut reason, version as u64);
            push_str(&mut reason, ": this build reads and writes version 9");
            return Err(StorageError::CorruptPage { page_id: 0, reason });
        }
        let stored_page_size = read_u32(header_buf.as_slice(), PAGE_SIZE_START);
        if stored_page_size as usize != page_size {
            let mut reason = String::new();
            push_str(&mut reason, "page size mismatch: database was created with page_size ");
            push_decimal(&mut reason, stored_page_size as u64);
            push_str(&mut reason, ", but ");
            push_decimal(&mut reason, page_size as u64);
            push_str(&mut reason, " was requested");
            return Err(StorageError::CorruptPage { page_id: 0, reason });
        }
        let next_page_id = (device_len / page_size as u64) as u32;
        Ok(DiskManager { device, page_size, next_page_id, extended_len: device_len })
    }

    /// Reads the page's bytes without checking its checksum.
    pub fn read_page_unchecked(&self, page_id: PageId) -> (r: Result<Page, StorageError>)
        requires
            self.inv(),
        ensures
            match r {
                Ok(p) => {
                    &&& p.spec_id() == page_id
                    &&& page_offset(page_id.0, self.spec_page_size()) + self.spec_page_size()
                        <= self.contents().len()
                    &&& page_offset(page_id.0, self.spec_page_size()) + PAGE_SIZE
                        <= self.contents().len()
                    &&& p.bytes() == self.contents().subrange(
                        page_offset(page_id.0, self.spec_page_size()),
                        page_offset(page_id.0, self.spec_page_size()) + PAGE_SIZE,
                    )
                },
                Err(StorageError::PageNotFound(id)) => {
                    &&& id == page_id.0
                    &&& page_offset(page_id.0, self.spec_page_size()) + self.spec_page_size()
                        > self.contents().len()
                },
                Err(StorageError::Io(_)) => true,
                Err(_) => false,
            },
    {
        let offset = self.offset_of(page_id);
        let device_len = match self.device.size() {
            Ok(n) => n,
            Err(e) => return Err(StorageError::Io(e)),
        };
        if offset > device_len || (self.page_size as u64) > device_len - offset {
            return Err(StorageError::PageNotFound(page_id.0));
        }
        let bytes = match self.device.read_at(offset, PAGE_SIZE) {
            Ok(b) => b,
            Err(e) => return Err(StorageError::Io(e)),
        };
        let mut data = [0u8; PAGE_SIZE];
        write_page_bytes(&mut data, 0, bytes.as_slice());
        proof {
            assert(data@ =~= bytes@);
        }
        Ok(Page::from_bytes(page_id, &data))
    }

    /// Reads a page and checks its checksum.
    pub fn read_page(&self, page_id: PageId) -> (r: Result<Page, StorageError>)
        requires
            self.inv(),
        ensures
            match r {
                Ok(p) => {
                    &&& p.spec_id() == page_id
                    &&& page_offset(page_id.0, self.spec_page_size()) + PAGE_SIZE
                        <= self.contents().len()
                    &&& p.bytes() == self.contents().subrange(
                        page_offset(page_id.0, self.spec_page_size()),
                        page_offset(page_id.0, self.spec_page_size()) + PAGE_SIZE,
                    )
                    &&& spec_checksum_ok(p.bytes())
                },
                Err(StorageError::PageNotFound(id)) => {
                    &&& id == page_id.0
                    &&& page_offset(page_id.0, self.spec_page_size()) + self.spec_page_size()
                        > self.contents().len()
                },
                Err(StorageError::ChecksumMismatch { page_id: id, expected, actual }) => {
                    let s = self.contents().subrange(
                        page_offset(page_id.0, self.spec_page_size()),
                        page_offset(page_id.0, self.spec_page_size()) + PAGE_SIZE,
                    );
                    &&& page_offset(page_id.0, self.spec_page_size()) + PAGE_SIZE
                        <= self.contents().len()
                    &&& id == page_id.0
                    &&& !spec_checksum_ok(s)
                    &&& expected == le_u32_at(s, 0)
                    &&& actual == spec_checksum_of(s)
                },
                Err(StorageError::Io(_)) => true,
                Err(_) => false,
            },
    {
        let page = self.read_page_unchecked(page_id)?;
        if !checksum_ok(page.data()) {
            let expected = read_u32(page.data().as_slice(), 0);
            let actual = checksum_of(page.data());
            return Err(StorageError::ChecksumMismatch { page_id: page_id.0, expected, actual });
        }
        Ok(page)
    }

    /// Writes a page at its place in the file, with a fresh checksum.
    pub fn write_page(&mut self, page_id: PageId, page: &Page) -> (r: Result<(), StorageError>)
        requires
            old(self).inv(),
        ensures
            final(self).inv(),
            final(self).spec_page_size() == old(self).spec_page_size(),
            final(self).next_page_id() == old(self).next_page_id(),
            r is Ok ==> final(self).contents() == written(
                old(self).contents(),
                page_offset(page_id.0, old(self).spec_page_size()) as nat,
                spec_stamped(page.bytes()),
            ),
            r is Ok && old(self).len_tracked() ==> final(self).len_tracked(),
            r is Err ==> r->Err_0 is Io,
    {
        let offset = self.offset_of(page_id);
        let mut scratch = *page.data();
        stamp_checksum(&mut scratch);
        match self.device.write_at(offset, scratch.as_slice()) {
            Ok(()) => Ok(()),
            Err(e) => Err(StorageError::Io(e)),
        }
    }

    /// The id the next allocated page will get.
    pub(crate) fn peek_next_page_id(&self) -> (id: u32)
        ensures
            id == self.next_page_id(),
    {
        self.next_page_id
    }

    /// Hands out the next page id, growing the file to hold it.
    pub fn allocate_page(&mut self) -> (r: Result<PageId, StorageError>)
        requires
            old(self).inv(),
            old(self).next_page_id() < u32::MAX,
        ensures
            final(self).inv(),
            final(self).spec_page_size() == old(self).spec_page_size(),
            final(self).next_page_id() == old(self).next_page_id() + 1,
            r is Ok ==> r->Ok_0.0 == old(self).next_page_id(),
            r is Ok && old(self).len_tracked() ==> final(self).len_tracked() && final(self).contents().len() >= (old(self).next_page_id() + 1) * old(self).spec_page_size(),
            r is Err ==> r->Err_0 is Io,
    {
        let page_id = self.next_page_id;
        self.next_page_id = page_id + 1;
        proof {
            lemma_page_end_fits(page_id as int + 1, self.page_size as int);
        }
        let target_len = (page_id as u64 + 1) * self.page_size as u64;
        self.extend_to_at_least(target_len)?;
        Ok(PageId(page_id))
    }

    /// Makes sure `page_id` is allocated, growing the file to hold it.
    pub fn ensure_allocated(&mut self, page_id: PageId) -> (r: Result<(), StorageError>)
        requires
            old(self).inv(),
            page_id.0 < u32::MAX,
        ensures
            final(self).inv(),
            final(self).spec_page_size() == old(self).spec_page_size(),
            final(self).next_page_id() == if old(self).next_page_id() < page_id.0 + 1 {
                (page_id.0 + 1) as u32
            } else {
                old(self).next_page_id()
            },
            r is Ok && old(self).len_tracked() ==> final(self).len_tracked(),
            r is Ok && old(self).len_tracked() && old(self).next_page_id() < page_id.0 + 1
                ==> final(self).contents().len() >= (page_id.0 + 1) * old(self).spec_page_size(),
            r is Ok && old(self).next_page_id() >= page_id.0 + 1 ==> final(self).contents()
                == old(self).contents(),
            r is Ok ==> final(self).contents() == old(self).contents() || final(self).contents() == resized(
                old(self).contents(),
                ((page_id.0 + 1) * old(self).spec_page_size()) as nat,
            ),
            r is Err ==> r->Err_0 is Io,
    {
        let needed = page_id.0 + 1;
        if self.next_page_id < needed {
            self.next_page_id = needed;
            proof {
                lemma_page_end_fits(needed as int, self.page_size as int);
            }
            let target_len = needed as u64 * self.page_size as u64;
            self.extend_to_at_least(target_len)?;
        }
        Ok(())
    }

    /// Grows the file to `target_len` bytes unless this manager already did.
    fn extend_to_at_least(&mut self, target_len: u64) -> (r: Result<(), StorageError>)
        requires
            old(self).inv(),
        ensures
            final(self).inv(),
            final(self).page_size == old(self).page_size,
            final(self).next_page_id == old(self).next_page_id,
            r is Ok && old(self).extended_len < target_len ==> final(self).contents() == resized(
                old(self).contents(),
                target_len as nat,
            ),
            r is Ok && old(self).extended_len >= target_len ==> final(self).contents() == old(self).contents(),
            r is Ok && old(self).len_tracked() ==> final(self).len_tracked() && final(self).contents().len() >= target_len,
            r is Err ==> r->Err_0 is Io,
    {
        if self.extended_len < target_len {
            match self.device.set_len(target_len) {
                Ok(()) => {},
                Err(e) => return Err(StorageError::Io(e)),
            }
            self.extended_len = target_len;
        }
        Ok(())
    }

    /// Makes every write so far durable.
    pub fn sync(&mut self) -> (r: Result<(), StorageError>)
        requires
            old(self).inv(),
        ensures
            final(self).inv(),
            r is Ok ==> final(self).contents() == old(self).contents(),
            r is Ok && old(self).len_tracked() ==> final(self).len_tracked(),
            final(self).spec_page_size() == old(self).spec_page_size(),
            final(self).next_page_id() == old(self).next_page_id(),
            r is Err ==> r->Err_0 is Io,
    {
        match self.device.sync_all() {
            Ok(()) => Ok(()),
            Err(e) => Err(StorageError::Io(e)),
        }
    }

    pub fn page_size(&self) -> (s: usize)
        ensures
            s == self.spec_page_size(),
    {
        self.page_size
    }

    fn offset_of(&self, page_id: PageId) -> (o: u64)
        requires
            self.inv(),
        ensures
            o == page_offset(page_id.0, self.page_size),
    {
        proof {
            assert(page_id.0 as int * self.page_size as int <= 0xFFFF_FFFFu32 as int * 0xFFFF_FFFFu32 as int)
                by (nonlinear_arith)
                requires
                    self.page_size <= u32::MAX,
            ;
        }
        page_id.0 as u64 * self.page_size as u64
    }

    /// Writes the header page of a new file.
    fn write_header(&mut self) -> (r: Result<(), StorageError>)
        requires
            old(self).inv(),
        ensures
            final(self).inv(),
            final(self).page_size == old(self).page_size,
            final(self).next_page_id == old(self).next_page_id,
            final(self).extended_len == old(self).extended_len,
            r is Ok ==> final(self).contents() == written(
                old(self).contents(),
                0,
                spec_stamped(spec_raw_header(old(self).page_size as u32)),
            ),
            r is Err ==> r->Err_0 is Io,
    {
        let mut buf = [0u8; PAGE_SIZE];
        let m = magic();
        write_page_bytes(&mut buf, MAGIC_START, m.as_slice());
        let v = u32_to_le_bytes(HEADER_VERSION);
        write_page_bytes(&mut buf, VERSION_START, v.as_slice());
        let c = u32_to_le_bytes(0xFFFF_FFFFu32);
        write_page_bytes(&mut buf, CATALOG_FIRST_PAGE_START, c.as_slice());
        write_page_bytes(&mut buf, INDEX_CATALOG_FIRST_PAGE_START, c.as_slice());
        let p = u32_to_le_bytes(self.page_size as u32);
        write_page_bytes(&mut buf, PAGE_SIZE_START, p.as_slice());
        let ghost raw = buf@;
        proof {
            assert(raw =~= spec_raw_header(self.page_size as u32));
        }
        stamp_checksum(&mut buf);
        match self.device.write_at(0, buf.as_slice()) {
            Ok(()) => Ok(()),
            Err(e) => Err(StorageError::Io(e)),
        }
    }
}

proof fn lemma_page_end_fits(n: int, page_size: int)
    requires
        0 <= n <= u32::MAX,
        0 <= page_size <= u32::MAX,
    ensures
        n * page_size <= u64::MAX,
{
    assert(n * page_size <= 0xFFFF_FFFFu32 as int * 0xFFFF_FFFFu32 as int) by (nonlinear_arith)
        requires
            0 <= n <= 0xFFFF_FFFFu32 as int,
            0 <= page_size <= 0xFFFF_FFFFu32 as int,
    ;
}

/// What a read of a page gives back after a successful write of it: the
/// written bytes with a matching checksum.
pub proof fn lemma_read_after_write(s: Seq<u8>, offset: nat, bytes: Seq<u8>)
    requires
        bytes.len() == PAGE_SIZE,
    ensures
        written(s, offset, spec_stamped(bytes)).subrange(offset as int, offset + PAGE_SIZE)
            == spec_stamped(bytes),
        spec_checksum_ok(spec_stamped(bytes)),
{
    crate::page::lemma_stamped_page_checks(bytes);
    let w = written(s, offset, spec_stamped(bytes));
    assert(w.subrange(offset as int, offset + PAGE_SIZE) =~= spec_stamped(bytes));
}

} // verus!
