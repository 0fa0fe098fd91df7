//! Shifts and masks read as the arithmetic they stand for.

use vstd::prelude::*;

verus! {

/// Right shifts of a `u32` are divisions by powers of two.
pub proof fn lemma_u32_shr(v: u32)
    by (bit_vector)
    ensures
        v >> 2 == v / 4,
        v >> 3 == v / 8,
        v >> 8 == v / 256,
        v >> 10 == v / 1024,
        v >> 13 == v / 8192,
        v >> 16 == v / 65536,
        v >> 23 == v / 8388608,
        v >> 26 == v / 67108864,
        v >> 27 == v / 134217728,
        v >> 28 == v / 268435456,
        v >> 30 == v / 1073741824,
{
}

/// Low-bit masks of a `u32` are remainders by powers of two.
pub proof fn lemma_u32_mask(v: u32)
    by (bit_vector)
    ensures
        v & 7 == v % 8,
        v & 15 == v % 16,
        v & 63 == v % 64,
        v & 255 == v % 256,
        v & 1023 == v % 1024,
        (v as u16) as u32 == v % 65536,
{
}

/// Shifts and masks of a `usize` as arithmetic.
pub proof fn lemma_usize_bits(v: usize)
    by (bit_vector)
    ensures
        v >> 1 == v / 2,
        v & 255 == v % 256,
        v < 256 ==> v << 8 == v * 256,
{
}

/// An `i32` shifted right keeps its sign: it is the division rounded towards
/// minus infinity, which is what `/` means on integers in specifications.
pub proof fn lemma_i32_shr(v: i32)
    ensures
        (v >> 4) as int == (v as int) / 16,
        (v >> 8) as int == (v as int) / 256,
{
    let b: u32 = (v as u32) ^ 0x8000_0000u32;
    assert(b as int == v as int + 0x8000_0000) by (bit_vector)
        requires
            b == (v as u32) ^ 0x8000_0000u32,
    ;
    assert((v >> 4) == ((b >> 4) as i32) - 0x800_0000i32 && (v >> 8) == ((b >> 8) as i32)
        - 0x80_0000i32) by (bit_vector)
        requires
            b == (v as u32) ^ 0x8000_0000u32,
    ;
    assert(b >> 4 == b / 16 && b >> 8 == b / 256) by (bit_vector);
}

} // verus!
