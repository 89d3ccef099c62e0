//! Binary64 arithmetic on bit patterns.
//!
//! The four elementary operations are performed by `rustc_apfloat`, a
//! software implementation of IEEE-754 arithmetic that works directly on
//! bit patterns; their results are named by uninterpreted functions. The
//! transcendental operations (`exp`, `pow`) decompose the pattern into
//! integral significand and binary exponent in verified code, hand the
//! core computation to `dashu_float` at 53 bits of precision with
//! round-to-nearest-even, and re-encode the result in verified code,
//! handling every special value (not-a-number, infinities, signed zeros,
//! negative bases) here.

use vstd::prelude::*;
use rustc_apfloat::Float;
use rustc_apfloat::ieee::Double;
use crate::bits::FRAC_MASK;
use crate::bits::IMPLICIT_BIT;
use crate::bits::NAN_BITS;
use crate::bits::NEG_INF_BITS;
use crate::bits::NEG_ZERO_BITS;
use crate::bits::ONE_BITS;
use crate::bits::POS_INF_BITS;
use crate::bits::SIGN_MASK;
use crate::bits::TWO_BITS;
use crate::bits::ZERO_BITS;
use crate::bits::decode;
use crate::bits::dec_m;
use crate::bits::dec_q;
use crate::bits::encode;
use crate::bits::exp_field;
use crate::bits::frac_field;
use crate::bits::is_finite_bits;
use crate::bits::is_inf_bits;
use crate::bits::is_nan_bits;
use crate::bits::is_zero_bits;
use crate::bits::sign_bit;
use crate::bits::spec_encode;

verus! {

/// The IEEE-754 binary64 sum of two bit patterns.
pub uninterp spec fn add64(a: u64, b: u64) -> u64;

/// The IEEE-754 binary64 difference of two bit patterns.
pub uninterp spec fn sub64(a: u64, b: u64) -> u64;

/// The IEEE-754 binary64 product of two bit patterns.
pub uninterp spec fn mul64(a: u64, b: u64) -> u64;

/// The IEEE-754 binary64 quotient of two bit patterns.
pub uninterp spec fn div64(a: u64, b: u64) -> u64;

/// What `dashu_float`'s exponential returns on `m * 2^q` at 53 bits of
/// precision, round to nearest, ties to even: a tag (0 ok, 1 overflow,
/// 2 underflow, 3 no result), a signed significand and a binary exponent.
pub uninterp spec fn exp_parts(m: i64, q: i64) -> (u8, i64, i64);

/// What `dashu_float`'s power function returns on base `bm * 2^bq` and
/// exponent `em * 2^eq`, reported like `exp_parts`.
pub uninterp spec fn powf_parts(bm: i64, bq: i64, em: i64, eq: i64) -> (u8, i64, i64);

/// Relies on rustc_apfloat's `Double` addition: IEEE-754 binary64, round
/// to nearest, ties to even, a deterministic function of the bit patterns.
#[verifier::external_body]
fn raw_add(a: u64, b: u64) -> (r: u64)
    ensures
        r == add64(a, b),
{
    ((Double::from_bits(a as u128) + Double::from_bits(b as u128)).value.to_bits()) as u64
}

/// Relies on rustc_apfloat's `Double` subtraction, as `raw_add` does on
/// its addition.
#[verifier::external_body]
fn raw_sub(a: u64, b: u64) -> (r: u64)
    ensures
        r == sub64(a, b),
{
    ((Double::from_bits(a as u128) - Double::from_bits(b as u128)).value.to_bits()) as u64
}

/// Relies on rustc_apfloat's `Double` multiplication, as `raw_add` does
/// on its addition.
#[verifier::external_body]
fn raw_mul(a: u64, b: u64) -> (r: u64)
    ensures
        r == mul64(a, b),
{
    ((Double::from_bits(a as u128) * Double::from_bits(b as u128)).value.to_bits()) as u64
}

/// Relies on rustc_apfloat's `Double` division, as `raw_add` does on its
/// addition.
#[verifier::external_body]
fn raw_div(a: u64, b: u64) -> (r: u64)
    ensures
        r == div64(a, b),
{
    ((Double::from_bits(a as u128) / Double::from_bits(b as u128)).value.to_bits()) as u64
}

/// Relies on dashu_float's `Context::exp` at precision 53, round to
/// nearest, ties to even: correctly rounded, deterministic in its
/// arguments; overflow and underflow are reported as error values, never
/// a panic, for finite arguments.
#[verifier::external_body]
fn dashu_exp(m: i64, q: i64) -> (r: (u8, i64, i64))
    ensures
        r == exp_parts(m, q),
{
    let ctx = dashu_float::Context::<dashu_float::round::mode::HalfEven>::new(53);
    match ctx.exp(&dashu_float::Repr::<2>::new(m.into(), q as isize), None) {
        Ok(v) => {
            let (sig, q2) = v.value().into_repr().into_parts();
            (0u8, i64::try_from(sig).unwrap_or(0), q2 as i64)
        }
        Err(dashu_float::FpError::Overflow(_)) => (1u8, 0i64, 0i64),
        Err(dashu_float::FpError::Underflow(_)) => (2u8, 0i64, 0i64),
        Err(_) => (3u8, 0i64, 0i64),
    }
}

/// Relies on dashu_float's `Context::powf` at precision 53, round to
/// nearest, ties to even, reported as in `dashu_exp`. Only called with a
/// positive finite base and a finite non-zero exponent, for which the
/// function neither panics nor leaves its domain.
#[verifier::external_body]
fn dashu_powf(bm: i64, bq: i64, em: i64, eq: i64) -> (r: (u8, i64, i64))
    ensures
        r == powf_parts(bm, bq, em, eq),
{
    let ctx = dashu_float::Context::<dashu_float::round::mode::HalfEven>::new(53);
    let base = dashu_float::Repr::<2>::new(bm.into(), bq as isize);
    let expo = dashu_float::Repr::<2>::new(em.into(), eq as isize);
    match ctx.powf(&base, &expo, None) {
        Ok(v) => {
            let (sig, q2) = v.value().into_repr().into_parts();
            (0u8, i64::try_from(sig).unwrap_or(0), q2 as i64)
        }
        Err(dashu_float::FpError::Overflow(_)) => (1u8, 0i64, 0i64),
        Err(dashu_float::FpError::Underflow(_)) => (2u8, 0i64, 0i64),
        Err(_) => (3u8, 0i64, 0i64),
    }
}

/// Adds two patterns.
pub fn add_bits(a: u64, b: u64) -> (r: u64)
    ensures
        r == add64(a, b),
{
    raw_add(a, b)
}

/// Subtracts the second pattern from the first.
pub fn sub_bits(a: u64, b: u64) -> (r: u64)
    ensures
        r == sub64(a, b),
{
    raw_sub(a, b)
}

/// Multiplies two patterns.
pub fn mul_bits(a: u64, b: u64) -> (r: u64)
    ensures
        r == mul64(a, b),
{
    raw_mul(a, b)
}

/// Divides the first pattern by the second.
pub fn div_bits(a: u64, b: u64) -> (r: u64)
    ensures
        r == div64(a, b),
{
    raw_div(a, b)
}

/// Turns a reported (tag, significand, exponent) triple into a pattern
/// of the given sign.
pub open spec fn finish_parts(neg: bool, r: (u8, i64, i64)) -> u64 {
    if r.0 == 1 {
        if neg { NEG_INF_BITS } else { POS_INF_BITS }
    } else if r.0 == 2 {
        if neg { NEG_ZERO_BITS } else { ZERO_BITS }
    } else if r.0 == 0 && 1 <= r.1 && r.1 < 0x20_0000_0000_0000i64 {
        spec_encode(neg, r.1 as u64, r.2 as int)
    } else {
        NAN_BITS
    }
}

/// The signed significand of a finite pattern, for handing to
/// `dashu_float`.
pub open spec fn signed_m(x: u64) -> int {
    if sign_bit(x) { -(dec_m(x) as int) } else { dec_m(x) as int }
}

/// The exponential of a pattern: special values resolved here, the
/// finite non-zero case computed by `exp_parts` and re-encoded.
pub open spec fn exp64(x: u64) -> u64 {
    if is_nan_bits(x) {
        NAN_BITS
    } else if is_inf_bits(x) {
        if sign_bit(x) { ZERO_BITS } else { POS_INF_BITS }
    } else if is_zero_bits(x) {
        ONE_BITS
    } else {
        finish_parts(false, exp_parts(signed_m(x) as i64, dec_q(x) as i64))
    }
}

/// The hyperbolic tangent of a pattern, computed as the engine's forward
/// rule prescribes: with `E = exp(2x)`, the value is `(E - 1) / (E + 1)`.
pub open spec fn tanh64(x: u64) -> u64 {
    let ebits = exp64(mul64(x, TWO_BITS));
    div64(sub64(ebits, ONE_BITS), add64(ebits, ONE_BITS))
}

/// Computes `exp64`.
pub fn exp_bits(x: u64) -> (r: u64)
    ensures
        r == exp64(x),
{
    let ef: u64 = (x >> 52u64) & 0x7FFu64;
    let fr: u64 = x & FRAC_MASK;
    if ef == 0x7FF {
        if fr != 0 {
            NAN_BITS
        } else if (x & SIGN_MASK) != 0 {
            ZERO_BITS
        } else {
            POS_INF_BITS
        }
    } else if ef == 0 && fr == 0 {
        ONE_BITS
    } else {
        let (neg, m, q) = decode(x);
        proof {
            assert(((x & FRAC_MASK) | IMPLICIT_BIT) < 0x40_0000_0000_0000u64) by (bit_vector);
            assert((x & FRAC_MASK) < 0x40_0000_0000_0000u64) by (bit_vector);
        }
        let sm: i64 = if neg { -(m as i64) } else { m as i64 };
        let t: (u8, i64, i64) = dashu_exp(sm, q);
        if t.0 == 1 {
            POS_INF_BITS
        } else if t.0 == 2 {
            ZERO_BITS
        } else if t.0 == 0 && 1 <= t.1 && t.1 < 0x20_0000_0000_0000i64 {
            encode(false, t.1 as u64, t.2)
        } else {
            NAN_BITS
        }
    }
}

/// Whether the finite value `±m * 2^q` is an integer.
pub open spec fn parts_int(m: u64, q: int) -> bool {
    if m == 0 {
        true
    } else if q >= 0 {
        true
    } else if q >= -63 {
        m & (((1u64 << ((-q) as u64)) - 1) as u64) == 0
    } else {
        false
    }
}

/// Whether the finite value `±m * 2^q` is an odd integer.
pub open spec fn parts_odd(m: u64, q: int) -> bool {
    if q > 0 || q < -63 || !parts_int(m, q) {
        false
    } else {
        (m >> ((-q) as u64)) & 1 == 1
    }
}

/// Whether a finite pattern denotes an integer.
pub open spec fn is_int_bits(x: u64) -> bool {
    parts_int(dec_m(x), dec_q(x))
}

/// Whether a finite pattern denotes an odd integer.
pub open spec fn is_odd_bits(x: u64) -> bool {
    parts_odd(dec_m(x), dec_q(x))
}

/// Decides integrality and parity of the finite value `±m * 2^q`.
fn int_parity(m: u64, q: i64) -> (r: (bool, bool))
    requires
        -1074 <= q < 2048,
    ensures
        r.0 == parts_int(m, q as int),
        r.1 == parts_odd(m, q as int),
{
    proof {
        assert(m >> 0u64 == m) by (bit_vector);
        assert(forall|sh: u64| #[trigger] (0u64 >> sh) & 1u64 == 0u64) by (bit_vector);
    }
    if m == 0 {
        (true, false)
    } else if q >= 0 {
        (true, q == 0 && m & 1 == 1)
    } else if q >= -63 {
        let s: u64 = (-q) as u64;
        proof {
            assert(1u64 << s >= 1) by (bit_vector)
                requires s < 64;
        }
        let whole: bool = m & ((1u64 << s) - 1) == 0;
        (whole, whole && (m >> s) & 1 == 1)
    } else {
        (false, false)
    }
}

/// The power `a^e` of two patterns, with the IEEE-754 `pow` special
/// cases resolved here and the finite core computed by `powf_parts` on
/// the positive base, the sign restored from the exponent's parity.
pub open spec fn pow64(a: u64, e: u64) -> u64 {
    if is_zero_bits(e) {
        ONE_BITS
    } else if a == ONE_BITS {
        ONE_BITS
    } else if is_nan_bits(a) || is_nan_bits(e) {
        NAN_BITS
    } else if is_inf_bits(e) {
        let mag = a & 0x7FFF_FFFF_FFFF_FFFFu64;
        if mag == ONE_BITS {
            ONE_BITS
        } else if (mag > ONE_BITS) == !sign_bit(e) {
            POS_INF_BITS
        } else {
            ZERO_BITS
        }
    } else if is_inf_bits(a) {
        if sign_bit(a) {
            if !sign_bit(e) {
                if is_odd_bits(e) { NEG_INF_BITS } else { POS_INF_BITS }
            } else {
                if is_odd_bits(e) { NEG_ZERO_BITS } else { ZERO_BITS }
            }
        } else {
            if !sign_bit(e) { POS_INF_BITS } else { ZERO_BITS }
        }
    } else if is_zero_bits(a) {
        if !sign_bit(e) {
            if is_odd_bits(e) && sign_bit(a) { NEG_ZERO_BITS } else { ZERO_BITS }
        } else {
            if is_odd_bits(e) && sign_bit(a) { NEG_INF_BITS } else { POS_INF_BITS }
        }
    } else if sign_bit(a) && !is_int_bits(e) {
        NAN_BITS
    } else {
        let neg_r = sign_bit(a) && is_odd_bits(e);
        finish_parts(
            neg_r,
            powf_parts(dec_m(a) as i64, dec_q(a) as i64, signed_m(e) as i64, dec_q(e) as i64),
        )
    }
}

/// Computes `pow64`.
pub fn pow_bits(a: u64, e: u64) -> (r: u64)
    ensures
        r == pow64(a, e),
{
    let aef: u64 = (a >> 52u64) & 0x7FFu64;
    let afr: u64 = a & FRAC_MASK;
    let eef: u64 = (e >> 52u64) & 0x7FFu64;
    let efr: u64 = e & FRAC_MASK;
    if eef == 0 && efr == 0 {
        return ONE_BITS;
    }
    if a == ONE_BITS {
        return ONE_BITS;
    }
    if (aef == 0x7FF && afr != 0) || (eef == 0x7FF && efr != 0) {
        return NAN_BITS;
    }
    if eef == 0x7FF {
        let mag: u64 = a & 0x7FFF_FFFF_FFFF_FFFF;
        if mag == ONE_BITS {
            return ONE_BITS;
        } else if (mag > ONE_BITS) == ((e & SIGN_MASK) == 0) {
            return POS_INF_BITS;
        } else {
            return ZERO_BITS;
        }
    }
    let (eneg, em, eq) = decode(e);
    proof {
        assert(((e & FRAC_MASK) | IMPLICIT_BIT) < 0x40_0000_0000_0000u64) by (bit_vector);
        assert((e & FRAC_MASK) < 0x40_0000_0000_0000u64) by (bit_vector);
        assert(((e >> 52u64) & 0x7FFu64) < 2048) by (bit_vector);
    }
    let (eint, eodd) = int_parity(em, eq);
    if aef == 0x7FF {
        if (a & SIGN_MASK) != 0 {
            if !eneg {
                return if eodd { NEG_INF_BITS } else { POS_INF_BITS };
            } else {
                return if eodd { NEG_ZERO_BITS } else { ZERO_BITS };
            }
        } else {
            return if !eneg { POS_INF_BITS } else { ZERO_BITS };
        }
    }
    if aef == 0 && afr == 0 {
        let aneg: bool = (a & SIGN_MASK) != 0;
        if !eneg {
            return if eodd && aneg { NEG_ZERO_BITS } else { ZERO_BITS };
        } else {
            return if eodd && aneg { NEG_INF_BITS } else { POS_INF_BITS };
        }
    }
    let (aneg, am, aq) = decode(a);
    if aneg && !eint {
        return NAN_BITS;
    }
    proof {
        assert(((a & FRAC_MASK) | IMPLICIT_BIT) < 0x40_0000_0000_0000u64) by (bit_vector);
        assert((a & FRAC_MASK) < 0x40_0000_0000_0000u64) by (bit_vector);
    }
    let neg_r: bool = aneg && eodd;
    let sem: i64 = if eneg { -(em as i64) } else { em as i64 };
    let t: (u8, i64, i64) = dashu_powf(am as i64, aq, sem, eq);
    if t.0 == 1 {
        if neg_r { NEG_INF_BITS } else { POS_INF_BITS }
    } else if t.0 == 2 {
        if neg_r { NEG_ZERO_BITS } else { ZERO_BITS }
    } else if t.0 == 0 && 1 <= t.1 && t.1 < 0x20_0000_0000_0000i64 {
        encode(neg_r, t.1 as u64, t.2)
    } else {
        NAN_BITS
    }
}

} // verus!
