//! Population count of unsigned integers.
use vstd::prelude::*;

verus! {

/// Bit `i` of `x`, as 0 or 1.
pub open spec fn bit16(x: u16, i: u16) -> u16 {
    (x >> i) & 1
}

/// Number of set bits of a `u16`: the sum of its 16 bits.
pub open spec fn popcount16(x: u16) -> int {
    bit16(x, 0) + bit16(x, 1) + bit16(x, 2) + bit16(x, 3) + bit16(x, 4) + bit16(x, 5)
        + bit16(x, 6) + bit16(x, 7) + bit16(x, 8) + bit16(x, 9) + bit16(x, 10) + bit16(x, 11)
        + bit16(x, 12) + bit16(x, 13) + bit16(x, 14) + bit16(x, 15)
}

/// Bit `i` of `x`, as 0 or 1.
pub open spec fn bit32(x: u32, i: u32) -> u32 {
    (x >> i) & 1
}

/// Number of set bits of a `u32`: the sum of its 32 bits.
pub open spec fn popcount32(x: u32) -> int {
    bit32(x, 0) + bit32(x, 1) + bit32(x, 2) + bit32(x, 3) + bit32(x, 4) + bit32(x, 5)
        + bit32(x, 6) + bit32(x, 7) + bit32(x, 8) + bit32(x, 9) + bit32(x, 10) + bit32(x, 11)
        + bit32(x, 12) + bit32(x, 13) + bit32(x, 14) + bit32(x, 15) + bit32(x, 16) + bit32(x, 17)
        + bit32(x, 18) + bit32(x, 19) + bit32(x, 20) + bit32(x, 21) + bit32(x, 22) + bit32(x, 23)
        + bit32(x, 24) + bit32(x, 25) + bit32(x, 26) + bit32(x, 27) + bit32(x, 28) + bit32(x, 29)
        + bit32(x, 30) + bit32(x, 31)
}

/// Bit `i` of `x`, as 0 or 1.
pub open spec fn bit64(x: u64, i: u64) -> u64 {
    (x >> i) & 1
}

/// Number of set bits of a `u64`: the sum of its 64 bits.
pub open spec fn popcount64(x: u64) -> int {
    bit64(x, 0) + bit64(x, 1) + bit64(x, 2) + bit64(x, 3) + bit64(x, 4) + bit64(x, 5)
        + bit64(x, 6) + bit64(x, 7) + bit64(x, 8) + bit64(x, 9) + bit64(x, 10) + bit64(x, 11)
        + bit64(x, 12) + bit64(x, 13) + bit64(x, 14) + bit64(x, 15) + bit64(x, 16) + bit64(x, 17)
        + bit64(x, 18) + bit64(x, 19) + bit64(x, 20) + bit64(x, 21) + bit64(x, 22) + bit64(x, 23)
        + bit64(x, 24) + bit64(x, 25) + bit64(x, 26) + bit64(x, 27) + bit64(x, 28) + bit64(x, 29)
        + bit64(x, 30) + bit64(x, 31) + bit64(x, 32) + bit64(x, 33) + bit64(x, 34) + bit64(x, 35)
        + bit64(x, 36) + bit64(x, 37) + bit64(x, 38) + bit64(x, 39) + bit64(x, 40) + bit64(x, 41)
        + bit64(x, 42) + bit64(x, 43) + bit64(x, 44) + bit64(x, 45) + bit64(x, 46) + bit64(x, 47)
        + bit64(x, 48) + bit64(x, 49) + bit64(x, 50) + bit64(x, 51) + bit64(x, 52) + bit64(x, 53)
        + bit64(x, 54) + bit64(x, 55) + bit64(x, 56) + bit64(x, 57) + bit64(x, 58) + bit64(x, 59)
        + bit64(x, 60) + bit64(x, 61) + bit64(x, 62) + bit64(x, 63)
}

/// Number of set bits of a `u128`: those of its high 64 bits and those of its
/// low 64 bits.
pub open spec fn popcount128(x: u128) -> int {
    popcount64((x >> 64u128) as u64) + popcount64((x & 0xffff_ffff_ffff_ffffu128) as u64)
}

/// Counting the set bits of an integer.
pub trait BitCount: Sized {
    /// The number of bits that are 1 in `self`.
    fn bitcount(self) -> Self;
}

impl BitCount for u16 {
    fn bitcount(self) -> (r: u16)
        ensures
            r == popcount16(self),
    {
        let x0 = self;
        assert((x0 & 0x5555u16) + ((x0 & 0xaaaau16) >> 1) <= 0xffff) by (bit_vector);
        let x1 = (x0 & 0x5555u16) + ((x0 & 0xaaaau16) >> 1);
        assert((x1 & 0x3333u16) + ((x1 & 0xccccu16) >> 2) <= 0xffff) by (bit_vector)
            requires x1 == (x0 & 0x5555u16) + ((x0 & 0xaaaau16) >> 1);
        let x2 = (x1 & 0x3333u16) + ((x1 & 0xccccu16) >> 2);
        assert(x2 + (x2 >> 4) <= 0xffff) by (bit_vector)
            requires
                x1 == (x0 & 0x5555u16) + ((x0 & 0xaaaau16) >> 1),
                x2 == (x1 & 0x3333u16) + ((x1 & 0xccccu16) >> 2);
        let x3 = (x2 + (x2 >> 4)) & 0x0f0fu16;
        assert(x3 + (x3 >> 8) <= 0xffff) by (bit_vector)
            requires
                x1 == (x0 & 0x5555u16) + ((x0 & 0xaaaau16) >> 1),
                x2 == (x1 & 0x3333u16) + ((x1 & 0xccccu16) >> 2),
                x3 == ((x2 + (x2 >> 4)) as u16) & 0x0f0fu16;
        let x4 = (x3 + (x3 >> 8)) & 0x00ffu16;
        assert(x4 == popcount16(x0)) by (bit_vector)
            requires
                x1 == (x0 & 0x5555u16) + ((x0 & 0xaaaau16) >> 1),
                x2 == (x1 & 0x3333u16) + ((x1 & 0xccccu16) >> 2),
                x3 == ((x2 + (x2 >> 4)) as u16) & 0x0f0fu16,
                x4 == ((x3 + (x3 >> 8)) as u16) & 0x00ffu16;
        x4
    }
}

impl BitCount for u32 {
    fn bitcount(self) -> (r: u32)
        ensures
            r == popcount32(self),
    {
        let x0 = self;
        assert((x0 & 0x55555555u32) + ((x0 & 0xaaaaaaaau32) >> 1) <= 0xffff_ffff) by (bit_vector);
        let x1 = (x0 & 0x55555555u32) + ((x0 & 0xaaaaaaaau32) >> 1);
        assert((x1 & 0x33333333u32) + ((x1 & 0xccccccccu32) >> 2) <= 0xffff_ffff) by (bit_vector)
            requires x1 == (x0 & 0x55555555u32) + ((x0 & 0xaaaaaaaau32) >> 1);
        let x2 = (x1 & 0x33333333u32) + ((x1 & 0xccccccccu32) >> 2);
        assert(x2 + (x2 >> 4) <= 0xffff_ffff) by (bit_vector)
            requires
                x1 == (x0 & 0x55555555u32) + ((x0 & 0xaaaaaaaau32) >> 1),
                x2 == (x1 & 0x33333333u32) + ((x1 & 0xccccccccu32) >> 2);
        let x3 = (x2 + (x2 >> 4)) & 0x0f0f0f0fu32;
        assert(x3 + (x3 >> 8) <= 0xffff_ffff) by (bit_vector)
            requires
                x1 == (x0 & 0x55555555u32) + ((x0 & 0xaaaaaaaau32) >> 1),
                x2 == (x1 & 0x33333333u32) + ((x1 & 0xccccccccu32) >> 2),
                x3 == ((x2 + (x2 >> 4)) as u32) & 0x0f0f0f0fu32;
        let x4 = x3 + (x3 >> 8);
        assert(x4 + (x4 >> 16) <= 0xffff_ffff) by (bit_vector)
            requires
                x1 == (x0 & 0x55555555u32) + ((x0 & 0xaaaaaaaau32) >> 1),
                x2 == (x1 & 0x33333333u32) + ((x1 & 0xccccccccu32) >> 2),
                x3 == ((x2 + (x2 >> 4)) as u32) & 0x0f0f0f0fu32,
                x4 == x3 + (x3 >> 8);
        let x5 = (x4 + (x4 >> 16)) & 0x000000ffu32;
        assert(x5 == popcount32(x0)) by (bit_vector)
            requires
                x1 == (x0 & 0x55555555u32) + ((x0 & 0xaaaaaaaau32) >> 1),
                x2 == (x1 & 0x33333333u32) + ((x1 & 0xccccccccu32) >> 2),
                x3 == ((x2 + (x2 >> 4)) as u32) & 0x0f0f0f0fu32,
                x4 == x3 + (x3 >> 8),
                x5 == ((x4 + (x4 >> 16)) as u32) & 0x000000ffu32;
        x5
    }
}

impl BitCount for u64 {
    fn bitcount(self) -> (r: u64)
        ensures
            r == popcount64(self),
            r <= 64,
    {
        let x0 = self;
        assert((x0 & 0x5555555555555555u64) + ((x0 & 0xaaaaaaaaaaaaaaaau64) >> 1) <= 0xffff_ffff_ffff_ffff) by (bit_vector);
        let x1 = (x0 & 0x5555555555555555u64) + ((x0 & 0xaaaaaaaaaaaaaaaau64) >> 1);
        assert((x1 & 0x3333333333333333u64) + ((x1 & 0xccccccccccccccccu64) >> 2) <= 0xffff_ffff_ffff_ffff) by (bit_vector)
            requires x1 == (x0 & 0x5555555555555555u64) + ((x0 & 0xaaaaaaaaaaaaaaaau64) >> 1);
        let x2 = (x1 & 0x3333333333333333u64) + ((x1 & 0xccccccccccccccccu64) >> 2);
        assert(x2 + (x2 >> 4) <= 0xffff_ffff_ffff_ffff) by (bit_vector)
            requires
                x1 == (x0 & 0x5555555555555555u64) + ((x0 & 0xaaaaaaaaaaaaaaaau64) >> 1),
                x2 == (x1 & 0x3333333333333333u64) + ((x1 & 0xccccccccccccccccu64) >> 2);
        let x3 = (x2 + (x2 >> 4)) & 0x0f0f0f0f0f0f0f0fu64;
        assert(x3 == x3 & 0x0f0f0f0f0f0f0f0fu64) by (bit_vector)
            requires x3 == ((x2 + (x2 >> 4)) as u64) & 0x0f0f0f0f0f0f0f0fu64;
        assert(x3 + (x3 >> 8) <= 0xffff_ffff_ffff_ffff) by (bit_vector)
            requires
                x3 == x3 & 0x0f0f0f0f0f0f0f0fu64;
        let x4 = x3 + (x3 >> 8);
        assert(x4 + (x4 >> 16) <= 0xffff_ffff_ffff_ffff) by (bit_vector)
            requires
                x3 == x3 & 0x0f0f0f0f0f0f0f0fu64,
                x4 == x3 + (x3 >> 8);
        let x5 = x4 + (x4 >> 16);
        assert(x5 + (x5 >> 32) <= 0xffff_ffff_ffff_ffff) by (bit_vector)
            requires
                x3 == x3 & 0x0f0f0f0f0f0f0f0fu64,
                x4 == x3 + (x3 >> 8),
                x5 == x4 + (x4 >> 16);
        let x6 = (x5 + (x5 >> 32)) & 0x000000ffu64;
        assert((x3 >> 0u64) & 0xffu64 <= 8 && (x3 >> 0u64) & 0xffu64 == bit64(x0, 0) + bit64(x0, 1) + bit64(x0, 2) + bit64(x0, 3) + bit64(x0, 4) + bit64(x0, 5) + bit64(x0, 6) + bit64(x0, 7)) by (bit_vector)
            requires
                x1 == (x0 & 0x5555555555555555u64) + ((x0 & 0xaaaaaaaaaaaaaaaau64) >> 1),
                x2 == (x1 & 0x3333333333333333u64) + ((x1 & 0xccccccccccccccccu64) >> 2),
                x3 == ((x2 + (x2 >> 4)) as u64) & 0x0f0f0f0f0f0f0f0fu64;
        assert((x3 >> 8u64) & 0xffu64 <= 8 && (x3 >> 8u64) & 0xffu64 == bit64(x0, 8) + bit64(x0, 9) + bit64(x0, 10) + bit64(x0, 11) + bit64(x0, 12) + bit64(x0, 13) + bit64(x0, 14) + bit64(x0, 15)) by (bit_vector)
            requires
                x1 == (x0 & 0x5555555555555555u64) + ((x0 & 0xaaaaaaaaaaaaaaaau64) >> 1),
                x2 == (x1 & 0x3333333333333333u64) + ((x1 & 0xccccccccccccccccu64) >> 2),
                x3 == ((x2 + (x2 >> 4)) as u64) & 0x0f0f0f0f0f0f0f0fu64;
        assert((x3 >> 16u64) & 0xffu64 <= 8 && (x3 >> 16u64) & 0xffu64 == bit64(x0, 16) + bit64(x0, 17) + bit64(x0, 18) + bit64(x0, 19) + bit64(x0, 20) + bit64(x0, 21) + bit64(x0, 22) + bit64(x0, 23)) by (bit_vector)
            requires
                x1 == (x0 & 0x5555555555555555u64) + ((x0 & 0xaaaaaaaaaaaaaaaau64) >> 1),
                x2 == (x1 & 0x3333333333333333u64) + ((x1 & 0xccccccccccccccccu64) >> 2),
                x3 == ((x2 + (x2 >> 4)) as u64) & 0x0f0f0f0f0f0f0f0fu64;
        assert((x3 >> 24u64) & 0xffu64 <= 8 && (x3 >> 24u64) & 0xffu64 == bit64(x0, 24) + bit64(x0, 25) + bit64(x0, 26) + bit64(x0, 27) + bit64(x0, 28) + bit64(x0, 29) + bit64(x0, 30) + bit64(x0, 31)) by (bit_vector)
            requires
                x1 == (x0 & 0x5555555555555555u64) + ((x0 & 0xaaaaaaaaaaaaaaaau64) >> 1),
                x2 == (x1 & 0x3333333333333333u64) + ((x1 & 0xccccccccccccccccu64) >> 2),
                x3 == ((x2 + (x2 >> 4)) as u64) & 0x0f0f0f0f0f0f0f0fu64;
        assert((x3 >> 32u64) & 0xffu64 <= 8 && (x3 >> 32u64) & 0xffu64 == bit64(x0, 32) + bit64(x0, 33) + bit64(x0, 34) + bit64(x0, 35) + bit64(x0, 36) + bit64(x0, 37) + bit64(x0, 38) + bit64(x0, 39)) by (bit_vector)
            requires
                x1 == (x0 & 0x5555555555555555u64) + ((x0 & 0xaaaaaaaaaaaaaaaau64) >> 1),
                x2 == (x1 & 0x3333333333333333u64) + ((x1 & 0xccccccccccccccccu64) >> 2),
                x3 == ((x2 + (x2 >> 4)) as u64) & 0x0f0f0f0f0f0f0f0fu64;
        assert((x3 >> 40u64) & 0xffu64 <= 8 && (x3 >> 40u64) & 0xffu64 == bit64(x0, 40) + bit64(x0, 41) + bit64(x0, 42) + bit64(x0, 43) + bit64(x0, 44) + bit64(x0, 45) + bit64(x0, 46) + bit64(x0, 47)) by (bit_vector)
            requires
                x1 == (x0 & 0x5555555555555555u64) + ((x0 & 0xaaaaaaaaaaaaaaaau64) >> 1),
                x2 == (x1 & 0x3333333333333333u64) + ((x1 & 0xccccccccccccccccu64) >> 2),
                x3 == ((x2 + (x2 >> 4)) as u64) & 0x0f0f0f0f0f0f0f0fu64;
        assert((x3 >> 48u64) & 0xffu64 <= 8 && (x3 >> 48u64) & 0xffu64 == bit64(x0, 48) + bit64(x0, 49) + bit64(x0, 50) + bit64(x0, 51) + bit64(x0, 52) + bit64(x0, 53) + bit64(x0, 54) + bit64(x0, 55)) by (bit_vector)
            requires
                x1 == (x0 & 0x5555555555555555u64) + ((x0 & 0xaaaaaaaaaaaaaaaau64) >> 1),
                x2 == (x1 & 0x3333333333333333u64) + ((x1 & 0xccccccccccccccccu64) >> 2),
                x3 == ((x2 + (x2 >> 4)) as u64) & 0x0f0f0f0f0f0f0f0fu64;
        assert((x3 >> 56u64) & 0xffu64 <= 8 && (x3 >> 56u64) & 0xffu64 == bit64(x0, 56) + bit64(x0, 57) + bit64(x0, 58) + bit64(x0, 59) + bit64(x0, 60) + bit64(x0, 61) + bit64(x0, 62) + bit64(x0, 63)) by (bit_vector)
            requires
                x1 == (x0 & 0x5555555555555555u64) + ((x0 & 0xaaaaaaaaaaaaaaaau64) >> 1),
                x2 == (x1 & 0x3333333333333333u64) + ((x1 & 0xccccccccccccccccu64) >> 2),
                x3 == ((x2 + (x2 >> 4)) as u64) & 0x0f0f0f0f0f0f0f0fu64;
        assert(x6 == ((x3 >> 0u64) & 0xffu64) + ((x3 >> 8u64) & 0xffu64) + ((x3 >> 16u64) & 0xffu64) + ((x3 >> 24u64) & 0xffu64) + ((x3 >> 32u64) & 0xffu64) + ((x3 >> 40u64) & 0xffu64) + ((x3 >> 48u64) & 0xffu64) + ((x3 >> 56u64) & 0xffu64)) by (bit_vector)
            requires
                x3 == x3 & 0x0f0f0f0f0f0f0f0fu64,
                x4 == x3 + (x3 >> 8),
                x5 == x4 + (x4 >> 16),
                x6 == ((x5 + (x5 >> 32)) as u64) & 0x000000ffu64;
        x6
    }
}

impl BitCount for u128 {
    fn bitcount(self) -> (r: u128)
        ensures
            r == popcount128(self),
    {
        let high = ((self >> 64u128) as u64).bitcount();
        let low = ((self & 0xffff_ffff_ffff_ffffu128) as u64).bitcount();
        (high + low) as u128
    }
}

} // verus!
