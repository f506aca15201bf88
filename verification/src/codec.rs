//! Little-endian integer fields inside byte buffers.

use vstd::bytes::*;
use vstd::prelude::*;
use vstd::slice::*;

verus! {

/// `s` with the bytes of `src` written starting at `at`.
pub open spec fn splice(s: Seq<u8>, at: int, src: Seq<u8>) -> Seq<u8> {
    s.subrange(0, at) + src + s.subrange(at + src.len(), s.len() as int)
}

/// The little-endian `u16` stored at `at`.
pub open spec fn le_u16_at(s: Seq<u8>, at: int) -> u16 {
    spec_u16_from_le_bytes(s.subrange(at, at + 2))
}

/// The little-endian `u32` stored at `at`.
pub open spec fn le_u32_at(s: Seq<u8>, at: int) -> u32 {
    spec_u32_from_le_bytes(s.subrange(at, at + 4))
}

/// The little-endian `u64` stored at `at`.
pub open spec fn le_u64_at(s: Seq<u8>, at: int) -> u64 {
    spec_u64_from_le_bytes(s.subrange(at, at + 8))
}

pub fn read_u16(bytes: &[u8], at: usize) -> (v: u16)
    requires
        at + 2 <= bytes.len(),
    ensures
        v == le_u16_at(bytes@, at as int),
{
    u16_from_le_bytes(slice_subrange(bytes, at, at + 2))
}

pub fn read_u32(bytes: &[u8], at: usize) -> (v: u32)
    requires
        at + 4 <= bytes.len(),
    ensures
        v == le_u32_at(bytes@, at as int),
{
    u32_from_le_bytes(slice_subrange(bytes, at, at + 4))
}

pub fn read_u64(bytes: &[u8], at: usize) -> (v: u64)
    requires
        at + 8 <= bytes.len(),
    ensures
        v == le_u64_at(bytes@, at as int),
{
    u64_from_le_bytes(slice_subrange(bytes, at, at + 8))
}

/// Overwrites `dst[at..at + src.len()]` with `src`.
pub fn write_into(dst: &mut Vec<u8>, at: usize, src: &[u8])
    requires
        at + src@.len() <= old(dst).len(),
    ensures
        final(dst)@ == splice(old(dst)@, at as int, src@),
{
    let mut i: usize = 0;
    while i < src.len()
        invariant
            at + src@.len() <= dst.len(),
            dst@.len() == old(dst)@.len(),
            i <= src@.len(),
            forall|k: int| 0 <= k < at ==> dst@[k] == old(dst)@[k],
            forall|k: int| at + src@.len() <= k < dst@.len() ==> dst@[k] == old(dst)@[k],
            forall|k: int| 0 <= k < i ==> dst@[at + k] == src@[k],
            forall|k: int| at + i <= k < at + src@.len() ==> dst@[k] == old(dst)@[k],
        decreases src@.len() - i,
    {
        dst.set(at + i, src[i]);
        i = i + 1;
    }
    assert(dst@ =~= splice(old(dst)@, at as int, src@));
}

/// Appends the little-endian bytes of `v`.
pub fn push_u16(buf: &mut Vec<u8>, v: u16)
    ensures
        final(buf)@ == old(buf)@ + spec_u16_to_le_bytes(v),
{
    let mut b = u16_to_le_bytes(v);
    buf.append(&mut b);
}

/// Appends the little-endian bytes of `v`.
pub fn push_u32(buf: &mut Vec<u8>, v: u32)
    ensures
        final(buf)@ == old(buf)@ + spec_u32_to_le_bytes(v),
{
    let mut b = u32_to_le_bytes(v);
    buf.append(&mut b);
}

/// Appends the little-endian bytes of `v`.
pub fn push_u64(buf: &mut Vec<u8>, v: u64)
    ensures
        final(buf)@ == old(buf)@ + spec_u64_to_le_bytes(v),
{
    let mut b = u64_to_le_bytes(v);
    buf.append(&mut b);
}

/// Appends every byte of `src`.
pub fn push_bytes(buf: &mut Vec<u8>, src: &[u8])
    ensures
        final(buf)@ == old(buf)@ + src@,
{
    let mut i: usize = 0;
    while i < src.len()
        invariant
            i <= src@.len(),
            buf@ == old(buf)@ + src@.take(i as int),
        decreases src@.len() - i,
    {
        buf.push(src[i]);
        i = i + 1;
        assert(buf@ =~= old(buf)@ + src@.take(i as int));
    }
    assert(src@.take(i as int) =~= src@);
}

} // verus!
