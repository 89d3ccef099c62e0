//! Bit-level view of IEEE-754 binary64 numbers.
//!
//! The engine stores every scalar as the 64-bit pattern of a binary64
//! number. This module classifies such patterns and converts between a
//! pattern and the pair (significand, binary exponent) that the
//! arbitrary-precision arithmetic behind `arith` works on.

use vstd::prelude::*;
use vstd::std_specs::bits::axiom_u64_leading_zeros;
use vstd::std_specs::bits::u64_leading_zeros;

verus! {

pub const SIGN_MASK: u64 = 0x8000_0000_0000_0000;
pub const EXP_MASK: u64 = 0x7FF0_0000_0000_0000;
pub const FRAC_MASK: u64 = 0x000F_FFFF_FFFF_FFFF;
pub const IMPLICIT_BIT: u64 = 0x0010_0000_0000_0000;

pub const ZERO_BITS: u64 = 0;
pub const NEG_ZERO_BITS: u64 = 0x8000_0000_0000_0000;
pub const ONE_BITS: u64 = 0x3FF0_0000_0000_0000;
pub const TWO_BITS: u64 = 0x4000_0000_0000_0000;
pub const THREE_BITS: u64 = 0x4008_0000_0000_0000;
pub const POS_INF_BITS: u64 = 0x7FF0_0000_0000_0000;
pub const NEG_INF_BITS: u64 = 0xFFF0_0000_0000_0000;
/// The canonical quiet not-a-number pattern.
pub const NAN_BITS: u64 = 0x7FF8_0000_0000_0000;

/// The biased exponent field of a pattern.
pub open spec fn exp_field(x: u64) -> u64 {
    (x >> 52u64) & 0x7FFu64
}

/// The fraction field of a pattern.
pub open spec fn frac_field(x: u64) -> u64 {
    x & FRAC_MASK
}

/// Whether the sign bit is set.
pub open spec fn sign_bit(x: u64) -> bool {
    (x & SIGN_MASK) != 0
}

pub open spec fn is_nan_bits(x: u64) -> bool {
    exp_field(x) == 0x7FFu64 && frac_field(x) != 0
}

pub open spec fn is_inf_bits(x: u64) -> bool {
    exp_field(x) == 0x7FFu64 && frac_field(x) == 0
}

pub open spec fn is_zero_bits(x: u64) -> bool {
    exp_field(x) == 0 && frac_field(x) == 0
}

pub open spec fn is_finite_bits(x: u64) -> bool {
    exp_field(x) != 0x7FFu64
}

/// The integral significand of a finite pattern: the magnitude of the
/// number is `dec_m(x) * 2^dec_q(x)`.
pub open spec fn dec_m(x: u64) -> u64 {
    if exp_field(x) == 0 {
        frac_field(x)
    } else {
        frac_field(x) | IMPLICIT_BIT
    }
}

/// The binary exponent that goes with `dec_m`.
pub open spec fn dec_q(x: u64) -> int {
    if exp_field(x) == 0 {
        -1074
    } else {
        exp_field(x) - 1075
    }
}

/// Number of significant bits of `m`: 0 for 0, and otherwise the unique
/// `b` with `2^(b-1) <= m < 2^b`.
pub open spec fn bit_len(m: u64) -> int {
    64 - u64_leading_zeros(m)
}

/// The pattern that denotes `sign * m * 2^q`, with the magnitude rounded
/// to nearest (ties to even) into binary64: overflow gives an infinity,
/// a magnitude below the subnormal range gives a zero of the same sign.
/// Significands of more than 53 bits are not meaningful here and map to
/// the canonical not-a-number pattern.
pub open spec fn spec_encode(neg: bool, m: u64, q: int) -> u64 {
    let sign: u64 = if neg { SIGN_MASK } else { 0u64 };
    let bl: int = bit_len(m);
    if m == 0 {
        sign
    } else if bl > 53 {
        NAN_BITS
    } else if q + bl - 1 > 1023 {
        sign | POS_INF_BITS
    } else if q + bl - 1 >= -1022 {
        sign | (((q + bl - 1 + 1023) as u64) << 52u64) | ((m << ((53 - bl) as u64)) & FRAC_MASK)
    } else {
        let s: int = -1074 - q;
        if s >= 54 {
            sign
        } else if s <= 0 {
            sign | (m << ((-s) as u64))
        } else {
            let k0: u64 = m >> (s as u64);
            let rem: u64 = m & (((1u64 << (s as u64)) - 1) as u64);
            let half: u64 = (1u64 << ((s - 1) as u64));
            if rem > half || (rem == half && (k0 & 1) == 1) {
                sign | ((k0 + 1) as u64)
            } else {
                sign | k0
            }
        }
    }
}

/// Splits a finite pattern into sign, integral significand and binary
/// exponent.
pub fn decode(x: u64) -> (r: (bool, u64, i64))
    requires
        is_finite_bits(x),
    ensures
        r.0 == sign_bit(x),
        r.1 == dec_m(x),
        r.2 as int == dec_q(x),
{
    let ef: u64 = (x >> 52u64) & 0x7FFu64;
    let fr: u64 = x & FRAC_MASK;
    let neg: bool = (x & SIGN_MASK) != 0;
    proof {
        assert((x >> 52u64) & 0x7FFu64 <= 0x7FF) by (bit_vector);
    }
    if ef == 0 {
        (neg, fr, -1074i64)
    } else {
        (neg, fr | IMPLICIT_BIT, (ef as i64) - 1075i64)
    }
}

/// Builds the pattern for `sign * m * 2^q` as `spec_encode` describes.
pub fn encode(neg: bool, m: u64, q: i64) -> (r: u64)
    ensures
        r == spec_encode(neg, m, q as int),
{
    proof {
        axiom_u64_leading_zeros(m);
    }
    let sign: u64 = if neg { SIGN_MASK } else { 0u64 };
    let lz: u32 = m.leading_zeros();
    let bl: i64 = 64i64 - (lz as i64);
    if m == 0 {
        sign
    } else if bl > 53 {
        NAN_BITS
    } else {
        let e: i128 = (q as i128) + (bl as i128) - 1;
        if e > 1023 {
            sign | POS_INF_BITS
        } else if e >= -1022 {
            let be: u64 = (e + 1023) as u64;
            sign | (be << 52u64) | ((m << ((53i64 - bl) as u64)) & FRAC_MASK)
        } else {
            let s: i128 = -1074 - (q as i128);
            if s >= 54 {
                sign
            } else if s <= 0 {
                sign | (m << ((-s) as u64))
            } else {
                let su: u64 = s as u64;
                proof {
                    assert(1u64 << su >= 1 && m >> su < 0x8000_0000_0000_0000) by (bit_vector)
                        requires 1 <= su < 54;
                }
                let k0: u64 = m >> su;
                let rem: u64 = m & ((1u64 << su) - 1);
                let half: u64 = 1u64 << (su - 1);
                if rem > half || (rem == half && (k0 & 1) == 1) {
                    sign | (k0 + 1)
                } else {
                    sign | k0
                }
            }
        }
    }
}

} // verus!
