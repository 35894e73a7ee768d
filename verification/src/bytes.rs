//! Little-endian integers at fixed offsets of a byte sequence.

use vstd::prelude::*;

verus! {

/// The unsigned integer whose little-endian encoding is the `width` bytes of
/// `s` starting at `at`.
pub open spec fn spec_le(s: Seq<u8>, at: int, width: nat) -> nat
    decreases width,
{
    if width == 0 {
        0
    } else {
        s[at] as nat + 256 * spec_le(s, at + 1, (width - 1) as nat)
    }
}

pub open spec fn spec_le_u16(s: Seq<u8>, at: int) -> u16 {
    (s[at] as int + 0x100 * (s[at + 1] as int)) as u16
}

pub open spec fn spec_le_u32(s: Seq<u8>, at: int) -> u32 {
    (spec_le_u16(s, at) as int + 0x1_0000 * (spec_le_u16(s, at + 2) as int)) as u32
}

pub open spec fn spec_le_u64(s: Seq<u8>, at: int) -> u64 {
    (spec_le_u32(s, at) as int + 0x1_0000_0000 * (spec_le_u32(s, at + 4) as int)) as u64
}

pub open spec fn spec_le_u128(s: Seq<u8>, at: int) -> u128 {
    (spec_le_u64(s, at) as int + 0x1_0000_0000_0000_0000 * (spec_le_u64(s, at + 8) as int)) as u128
}

/// The fixed-width readings are the positional value of their bytes.
pub proof fn lemma_le_is_positional(s: Seq<u8>, at: int)
    ensures
        spec_le_u16(s, at) == spec_le(s, at, 2),
        spec_le_u32(s, at) == spec_le(s, at, 4),
        spec_le_u64(s, at) == spec_le(s, at, 8),
        spec_le_u128(s, at) == spec_le(s, at, 16),
{
    reveal_with_fuel(spec_le, 17);
}

/// Reads the 16-bit little-endian integer at `at`.
pub(crate) fn le_u16(data: &[u8], at: usize) -> (r: u16)
    requires
        at + 2 <= data.len(),
    ensures
        r == spec_le_u16(data@, at as int),
{
    let b0: u16 = data[at] as u16;
    let b1: u16 = data[at + 1] as u16;
    b0 + 0x100 * b1
}

/// Reads the 32-bit little-endian integer at `at`.
pub(crate) fn le_u32(data: &[u8], at: usize) -> (r: u32)
    requires
        at + 4 <= data.len(),
    ensures
        r == spec_le_u32(data@, at as int),
{
    let lo: u32 = le_u16(data, at) as u32;
    let hi: u32 = le_u16(data, at + 2) as u32;
    lo + 0x1_0000 * hi
}

/// Reads the 64-bit little-endian integer at `at`.
pub(crate) fn le_u64(data: &[u8], at: usize) -> (r: u64)
    requires
        at + 8 <= data.len(),
    ensures
        r == spec_le_u64(data@, at as int),
{
    let lo: u64 = le_u32(data, at) as u64;
    let hi: u64 = le_u32(data, at + 4) as u64;
    lo + 0x1_0000_0000 * hi
}

/// Reads the 128-bit little-endian integer at `at`.
pub(crate) fn le_u128(data: &[u8], at: usize) -> (r: u128)
    requires
        at + 16 <= data.len(),
    ensures
        r == spec_le_u128(data@, at as int),
{
    let lo: u128 = le_u64(data, at) as u128;
    let hi: u128 = le_u64(data, at + 8) as u128;
    lo + 0x1_0000_0000_0000_0000 * hi
}

} // verus!
