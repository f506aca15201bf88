//! CRC-32 (IEEE 802.3, reflected polynomial `0xEDB88320`).

use vstd::prelude::*;

verus! {

/// One shift of the reflected CRC-32 register.
pub open spec fn crc_shift(c: u32) -> u32 {
    if c & 1 == 1 {
        (c >> 1) ^ 0xEDB8_8320u32
    } else {
        c >> 1
    }
}

/// The register after absorbing one byte: xor it in, then eight shifts.
pub open spec fn crc_absorb(c: u32, b: u8) -> u32 {
    crc_shift(crc_shift(crc_shift(crc_shift(crc_shift(crc_shift(crc_shift(crc_shift(
        c ^ (b as u32),
    ))))))))
}

/// The register after absorbing every byte of `s`, in order, from `init`.
pub open spec fn crc_register(init: u32, s: Seq<u8>) -> u32
    decreases s.len(),
{
    if s.len() == 0 {
        init
    } else {
        crc_absorb(crc_register(init, s.drop_last()), s.last())
    }
}

/// CRC-32 of a byte sequence: start from all ones, invert at the end.
pub open spec fn spec_crc32(s: Seq<u8>) -> u32 {
    !crc_register(0xFFFF_FFFFu32, s)
}

fn shift(c: u32) -> (r: u32)
    ensures
        r == crc_shift(c),
{
    if c & 1 == 1 {
        (c >> 1) ^ 0xEDB8_8320u32
    } else {
        c >> 1
    }
}

fn absorb(c: u32, b: u8) -> (r: u32)
    ensures
        r == crc_absorb(c, b),
{
    let x = c ^ (b as u32);
    shift(shift(shift(shift(shift(shift(shift(shift(x))))))))
}

/// Computes the CRC-32 of `bytes`.
pub fn crc32(bytes: &[u8]) -> (crc: u32)
    ensures
        crc == spec_crc32(bytes@),
{
    let mut c: u32 = 0xFFFF_FFFF;
    let mut i: usize = 0;
    while i < bytes.len()
        invariant
            i <= bytes@.len(),
            c == crc_register(0xFFFF_FFFFu32, bytes@.take(i as int)),
        decreases bytes@.len() - i,
    {
        proof {
            assert(bytes@.take(i as int + 1).drop_last() =~= bytes@.take(i as int));
        }
        c = absorb(c, bytes[i]);
        i = i + 1;
    }
    proof {
        assert(bytes@.take(i as int) =~= bytes@);
    }
    !c
}


} // verus!
