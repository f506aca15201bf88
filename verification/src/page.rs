//! Fixed-size pages and the checksum that guards each one on disk.
//!
//! Every page reserves bytes `0..4` for a CRC-32 of bytes `4..PAGE_SIZE`
//! and bytes `4..12` for the LSN of the last log record applied to it.

use vstd::bytes::*;
use vstd::prelude::*;
use vstd::slice::*;

use crate::codec::{le_u32_at, le_u64_at, read_u32, read_u64, splice};
use crate::crc::{crc32, spec_crc32};
use crate::ids::{Lsn, PageId};

verus! {

pub const PAGE_SIZE: usize = 4096;

/// First byte past the stored checksum.
pub const CHECKSUM_END: usize = 4;

/// Where the page LSN starts.
pub const PAGE_LSN_START: usize = 4;

/// The checksum a page's content should carry: the CRC of everything past
/// the checksum field.
pub open spec fn spec_checksum_of(s: Seq<u8>) -> u32 {
    spec_crc32(s.subrange(CHECKSUM_END as int, s.len() as int))
}

pub open spec fn all_zero(s: Seq<u8>) -> bool {
    forall|i: int| 0 <= i < s.len() ==> s[i] == 0
}

/// A page passes its check when it was never written (all zero) or when
/// its stored checksum matches its content.
pub open spec fn spec_checksum_ok(s: Seq<u8>) -> bool {
    all_zero(s) || le_u32_at(s, 0) == spec_checksum_of(s)
}

/// The page with its checksum field rewritten to match its content.
pub open spec fn spec_stamped(s: Seq<u8>) -> Seq<u8> {
    splice(s, 0, spec_u32_to_le_bytes(spec_checksum_of(s)))
}

/// Overwrites `dst[at..at + src.len()]` with `src`.
pub fn write_page_bytes(dst: &mut [u8; PAGE_SIZE], at: usize, src: &[u8])
    requires
        at + src@.len() <= PAGE_SIZE,
    ensures
        final(dst)@ == splice(old(dst)@, at as int, src@),
{
    let mut i: usize = 0;
    while i < src.len()
        invariant
            at + src@.len() <= PAGE_SIZE,
            dst@.len() == PAGE_SIZE,
            i <= src@.len(),
            forall|k: int| 0 <= k < at ==> dst@[k] == old(dst)@[k],
            forall|k: int| at + src@.len() <= k < PAGE_SIZE ==> dst@[k] == old(dst)@[k],
            forall|k: int| 0 <= k < i ==> dst@[at + k] == src@[k],
            forall|k: int| at + i <= k < at + src@.len() ==> dst@[k] == old(dst)@[k],
        decreases src@.len() - i,
    {
        dst[at + i] = src[i];
        i = i + 1;
    }
    assert(dst@ =~= splice(old(dst)@, at as int, src@));
}

/// The CRC of the page content past the checksum field.
pub fn checksum_of(bytes: &[u8; PAGE_SIZE]) -> (crc: u32)
    ensures
        crc == spec_checksum_of(bytes@),
{
    let s: &[u8] = bytes.as_slice();
    crc32(slice_subrange(s, CHECKSUM_END, PAGE_SIZE))
}

/// Writes the page's checksum into its checksum field.
pub fn stamp_checksum(bytes: &mut [u8; PAGE_SIZE])
    ensures
        final(bytes)@ == spec_stamped(old(bytes)@),
        spec_checksum_ok(final(bytes)@),
{
    let crc = checksum_of(bytes);
    let enc = u32_to_le_bytes(crc);
    write_page_bytes(bytes, 0, enc.as_slice());
    proof {
        lemma_stamped_page_checks(old(bytes)@);
    }
}

/// Whether the page is all zero or carries a checksum matching its content.
pub fn checksum_ok(bytes: &[u8; PAGE_SIZE]) -> (ok: bool)
    ensures
        ok == spec_checksum_ok(bytes@),
{
    let mut i: usize = 0;
    let mut zero = true;
    while i < PAGE_SIZE
        invariant
            i <= PAGE_SIZE,
            bytes@.len() == PAGE_SIZE,
            zero == (forall|k: int| 0 <= k < i ==> bytes@[k] == 0),
        decreases PAGE_SIZE - i,
    {
        if bytes[i] != 0 {
            zero = false;
        }
        i = i + 1;
    }
    if zero {
        return true;
    }
    let expected = read_u32(bytes.as_slice(), 0);
    expected == checksum_of(bytes)
}

/// The checksum of a page does not depend on its checksum field.
pub proof fn lemma_checksum_ignores_its_field(a: Seq<u8>, b: Seq<u8>)
    requires
        a.len() == PAGE_SIZE,
        b.len() == PAGE_SIZE,
        a.subrange(CHECKSUM_END as int, PAGE_SIZE as int) == b.subrange(
            CHECKSUM_END as int,
            PAGE_SIZE as int,
        ),
    ensures
        spec_checksum_of(a) == spec_checksum_of(b),
{
}

/// A stamped page always passes its checksum check, and stamping changes
/// nothing but the checksum field.
pub proof fn lemma_stamped_page_checks(s: Seq<u8>)
    requires
        s.len() == PAGE_SIZE,
    ensures
        spec_stamped(s).len() == PAGE_SIZE,
        spec_stamped(s).subrange(CHECKSUM_END as int, PAGE_SIZE as int) == s.subrange(
            CHECKSUM_END as int,
            PAGE_SIZE as int,
        ),
        spec_checksum_ok(spec_stamped(s)),
{
    lemma_auto_spec_u32_to_from_le_bytes();
    let crc = spec_checksum_of(s);
    let t = spec_stamped(s);
    assert(spec_u32_to_le_bytes(crc).len() == 4);
    assert(t.subrange(CHECKSUM_END as int, PAGE_SIZE as int) =~= s.subrange(
        CHECKSUM_END as int,
        PAGE_SIZE as int,
    ));
    assert(t.subrange(0, 4) =~= spec_u32_to_le_bytes(crc));
}

/// A page held in memory: its id and its bytes.
#[derive(Clone)]
pub struct Page {
    id: PageId,
    data: [u8; PAGE_SIZE],
}

impl Page {
    pub closed spec fn spec_id(&self) -> PageId {
        self.id
    }

    pub closed spec fn bytes(&self) -> Seq<u8> {
        self.data@
    }

    /// A zeroed page.
    pub fn new(id: PageId) -> (page: Page)
        ensures
            page.spec_id() == id,
            page.bytes().len() == PAGE_SIZE,
            all_zero(page.bytes()),
    {
        Page { id, data: [0u8; PAGE_SIZE] }
    }

    /// A page holding a copy of `bytes`.
    pub fn from_bytes(id: PageId, bytes: &[u8; PAGE_SIZE]) -> (page: Page)
        ensures
            page.spec_id() == id,
            page.bytes() == bytes@,
    {
        Page { id, data: *bytes }
    }

    pub fn id(&self) -> (id: PageId)
        ensures
            id == self.spec_id(),
    {
        self.id
    }

    pub fn data(&self) -> (data: &[u8; PAGE_SIZE])
        ensures
            data@ == self.bytes(),
    {
        &self.data
    }

    /// Overwrites `bytes.len()` bytes starting at `at`.
    pub fn write_bytes(&mut self, at: usize, bytes: &[u8])
        requires
            at + bytes@.len() <= PAGE_SIZE,
        ensures
            final(self).spec_id() == old(self).spec_id(),
            final(self).bytes() == splice(old(self).bytes(), at as int, bytes@),
    {
        write_page_bytes(&mut self.data, at, bytes);
    }

    /// The LSN stored in the page header.
    pub fn page_lsn(&self) -> (lsn: Lsn)
        ensures
            lsn.0 == le_u64_at(self.bytes(), PAGE_LSN_START as int),
    {
        Lsn(read_u64(self.data.as_slice(), PAGE_LSN_START))
    }

    /// Stores `lsn` in the page header.
    pub fn set_page_lsn(&mut self, lsn: Lsn)
        ensures
            final(self).spec_id() == old(self).spec_id(),
            final(self).bytes() == splice(
                old(self).bytes(),
                PAGE_LSN_START as int,
                spec_u64_to_le_bytes(lsn.0),
            ),
            final(self).page_lsn_spec() == lsn.0,
    {
        let enc = u64_to_le_bytes(lsn.0);
        write_page_bytes(&mut self.data, PAGE_LSN_START, enc.as_slice());
        proof {
            lemma_auto_spec_u64_to_from_le_bytes();
            assert(self.data@.subrange(4, 12) =~= spec_u64_to_le_bytes(lsn.0));
        }
    }

    /// A page holds exactly a page of bytes.
    pub proof fn lemma_len(&self)
        ensures
            self.bytes().len() == PAGE_SIZE,
    {
    }

    pub open spec fn page_lsn_spec(&self) -> u64 {
        le_u64_at(self.bytes(), PAGE_LSN_START as int)
    }
}

} // verus!
