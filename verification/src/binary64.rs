//! The IEEE 754 binary64 encoding, read as integers.
//!
//! An encoding is a `u64`: one sign bit, eleven exponent bits, fifty-two
//! fraction bits. The functions here say which value an encoding denotes and
//! decide equality and order of those values on the encodings alone.

use vstd::arithmetic::power2::{
    lemma2_to64, lemma_pow2_adds, lemma_pow2_pos, lemma_pow2_strictly_increases,
    lemma_pow2_unfold, pow2,
};
use vstd::prelude::*;

verus! {

/// The sign bit of an encoding.
pub const SIGN_BIT: u64 = 0x8000_0000_0000_0000;

/// The encoding of positive infinity: every exponent bit set, no fraction bit.
pub const INFINITY: u64 = 0x7ff0_0000_0000_0000;

/// The weight of the lowest exponent bit, two to the power 52.
pub const FRACTION_RANGE: u64 = 0x0010_0000_0000_0000;

/// The encoding with the sign bit cleared: the encoding of the absolute value.
pub open spec fn magnitude(bits: u64) -> u64 {
    if bits >= SIGN_BIT {
        (bits - SIGN_BIT) as u64
    } else {
        bits
    }
}

/// Whether the sign bit is set. It may be set on zero, infinity and NaN too.
pub open spec fn sign_negative(bits: u64) -> bool {
    bits >= SIGN_BIT
}

/// Whether the encoding denotes no number.
pub open spec fn encodes_nan(bits: u64) -> bool {
    magnitude(bits) > INFINITY
}

/// Clears the sign bit.
pub fn abs(bits: u64) -> (r: u64)
    ensures
        r == magnitude(bits),
{
    if bits >= SIGN_BIT {
        bits - SIGN_BIT
    } else {
        bits
    }
}

/// Tells whether the encoding denotes no number.
pub fn is_nan(bits: u64) -> (r: bool)
    ensures
        r == encodes_nan(bits),
{
    abs(bits) > INFINITY
}

/// The exponent field of an encoding, from 0 to 2047.
pub open spec fn exponent_field(bits: u64) -> nat {
    (magnitude(bits) / FRACTION_RANGE) as nat
}

/// The fraction field of an encoding, below two to the power 52.
pub open spec fn fraction_field(bits: u64) -> nat {
    (magnitude(bits) % FRACTION_RANGE) as nat
}

/// The absolute value that an encoding denotes, counted in units of two to
/// the power -1074, the smallest positive binary64 value. Every finite
/// binary64 value is a whole number of these units: a subnormal encoding
/// denotes its fraction field, a normal one the fraction field with the
/// implicit leading bit, shifted by the exponent field.
///
/// On the encoding of an infinity the same formula gives two to the power
/// 2098, which lies above every finite value, so the order of these numbers
/// is the order of the extended reals. On a NaN the number has no meaning.
pub open spec fn scaled_magnitude(bits: u64) -> nat {
    let e = exponent_field(bits);
    let f = fraction_field(bits);
    if e == 0 {
        f
    } else {
        (FRACTION_RANGE as nat + f) * pow2((e - 1) as nat)
    }
}

/// The value that an encoding denotes, in the units of `scaled_magnitude`.
/// Both zeros denote 0.
pub open spec fn scaled_value(bits: u64) -> int {
    if sign_negative(bits) {
        -(scaled_magnitude(bits) as int)
    } else {
        scaled_magnitude(bits) as int
    }
}

/// Where the values of one exponent field lie: a subnormal magnitude stays
/// below two to the power 52 units, and a magnitude with exponent field `e`
/// above zero lies from two to the power `e + 51` units up to, but not
/// reaching, twice as much.
proof fn lemma_binade(bits: u64)
    ensures
        exponent_field(bits) == 0 ==> scaled_magnitude(bits) < FRACTION_RANGE,
        exponent_field(bits) > 0 ==> FRACTION_RANGE * pow2((exponent_field(bits) - 1) as nat)
            <= scaled_magnitude(bits) < FRACTION_RANGE * pow2(exponent_field(bits)),
{
    let r = FRACTION_RANGE as int;
    let e = exponent_field(bits);
    let f = fraction_field(bits) as int;
    if e > 0 {
        let q = pow2((e - 1) as nat) as int;
        lemma_pow2_unfold(e);
        lemma_pow2_pos((e - 1) as nat);
        assert(r * q <= (r + f) * q < r * (2 * q)) by (nonlinear_arith)
            requires
                0 <= f < r,
                q > 0,
        ;
    }
}

/// Powers of two grow with the exponent.
proof fn lemma_pow2_increases(e1: nat, e2: nat)
    requires
        e1 <= e2,
    ensures
        pow2(e1) <= pow2(e2),
{
    if e1 < e2 {
        lemma_pow2_strictly_increases(e1, e2);
    }
}

/// A larger encoding of an absolute value denotes a larger value.
proof fn lemma_magnitude_increases(a: u64, b: u64)
    requires
        magnitude(a) < magnitude(b),
    ensures
        scaled_magnitude(a) < scaled_magnitude(b),
{
    let r = FRACTION_RANGE as int;
    let ea = exponent_field(a);
    let fa = fraction_field(a) as int;
    let eb = exponent_field(b);
    let fb = fraction_field(b) as int;
    if ea == eb {
        if ea > 0 {
            let p = pow2((ea - 1) as nat) as int;
            lemma_pow2_pos((ea - 1) as nat);
            assert((r + fa) * p < (r + fb) * p) by (nonlinear_arith)
                requires
                    fa < fb,
                    p > 0,
            ;
        }
    } else {
        let pa = pow2(ea) as int;
        let pb = pow2((eb - 1) as nat) as int;
        lemma_binade(a);
        lemma_binade(b);
        lemma2_to64();
        lemma_pow2_increases(ea, (eb - 1) as nat);
        assert(r * pa <= r * pb) by (nonlinear_arith)
            requires
                0 < r,
                pa <= pb,
        ;
    }
}

/// The encodings of absolute values are ordered as the values they denote:
/// a larger encoding is a larger value, and only equal encodings denote
/// equal values.
pub proof fn lemma_encoding_order(a: u64, b: u64)
    ensures
        magnitude(a) < magnitude(b) <==> scaled_magnitude(a) < scaled_magnitude(b),
        magnitude(a) == magnitude(b) <==> scaled_magnitude(a) == scaled_magnitude(b),
{
    if magnitude(a) < magnitude(b) {
        lemma_magnitude_increases(a, b);
    } else if magnitude(b) < magnitude(a) {
        lemma_magnitude_increases(b, a);
    }
}

/// Equality of the values that two encodings denote: neither is a NaN, and
/// the values are the same. The two zeros are equal; a NaN equals nothing,
/// itself included.
pub open spec fn value_eq(a: u64, b: u64) -> bool {
    !encodes_nan(a) && !encodes_nan(b) && scaled_value(a) == scaled_value(b)
}

/// Strict order of the values that two encodings denote. With a NaN on
/// either side it does not hold.
pub open spec fn value_lt(a: u64, b: u64) -> bool {
    !encodes_nan(a) && !encodes_nan(b) && scaled_value(a) < scaled_value(b)
}

/// Order of the values that two encodings denote. With a NaN on either side
/// it does not hold.
pub open spec fn value_le(a: u64, b: u64) -> bool {
    !encodes_nan(a) && !encodes_nan(b) && scaled_value(a) <= scaled_value(b)
}

/// Decides whether two encodings denote equal values.
pub fn eq(a: u64, b: u64) -> (r: bool)
    ensures
        r == value_eq(a, b),
{
    if is_nan(a) || is_nan(b) {
        return false;
    }
    proof {
        lemma_encoding_order(a, b);
        lemma_encoding_order(a, 0);
        lemma_encoding_order(b, 0);
    }
    a == b || (abs(a) == 0 && abs(b) == 0)
}

/// Decides whether the value of `a` lies below the value of `b`.
pub fn lt(a: u64, b: u64) -> (r: bool)
    ensures
        r == value_lt(a, b),
{
    if is_nan(a) || is_nan(b) {
        return false;
    }
    proof {
        lemma_encoding_order(a, b);
        lemma_encoding_order(a, 0);
        lemma_encoding_order(b, 0);
    }
    let ma = abs(a);
    let mb = abs(b);
    if a >= SIGN_BIT {
        if b >= SIGN_BIT {
            mb < ma
        } else {
            ma != 0 || mb != 0
        }
    } else {
        b < SIGN_BIT && ma < mb
    }
}

/// Decides whether the value of `a` does not exceed the value of `b`.
pub fn le(a: u64, b: u64) -> (r: bool)
    ensures
        r == value_le(a, b),
{
    if is_nan(a) || is_nan(b) {
        return false;
    }
    proof {
        lemma_encoding_order(a, b);
        lemma_encoding_order(a, 0);
        lemma_encoding_order(b, 0);
    }
    let ma = abs(a);
    let mb = abs(b);
    if a >= SIGN_BIT {
        b < SIGN_BIT || mb <= ma
    } else {
        if b >= SIGN_BIT {
            ma == 0 && mb == 0
        } else {
            ma <= mb
        }
    }
}

/// Whether the encoding denotes a number that is not infinite.
pub open spec fn encodes_finite(bits: u64) -> bool {
    magnitude(bits) < INFINITY
}

/// How far two numbers are apart.
pub open spec fn distance(x: int, y: int) -> int {
    if x < y {
        y - x
    } else {
        x - y
    }
}

/// Whether the encoding denotes the whole number `n`, exactly.
pub open spec fn denotes_integer(bits: u64, n: int) -> bool {
    encodes_finite(bits) && scaled_value(bits) == n * pow2(1074)
}

/// The significand of a normal encoding: the fraction field with the
/// implicit leading bit. The encoding denotes the significand times two to
/// the power of the exponent field less 1075.
pub open spec fn significand(bits: u64) -> nat {
    FRACTION_RANGE as nat + fraction_field(bits)
}

/// A positive normal encoding whose significand is `n` times two to the
/// power `1075 - e`, for its exponent field `e`, denotes `n`.
pub proof fn lemma_denotes_integer(bits: u64, n: int, k: nat)
    requires
        !sign_negative(bits),
        encodes_finite(bits),
        exponent_field(bits) > 0,
        exponent_field(bits) + k == 1075,
        significand(bits) == n * pow2(k),
    ensures
        denotes_integer(bits, n),
{
    let u = pow2((exponent_field(bits) - 1) as nat) as int;
    let q = pow2(k) as int;
    lemma_pow2_adds(k, (exponent_field(bits) - 1) as nat);
    assert((n * q) * u == n * (q * u)) by (nonlinear_arith);
}

/// A positive normal encoding whose significand, times two to the power
/// `e - 1075` for its exponent field `e`, is `n`, denotes `n`.
pub proof fn lemma_denotes_large_integer(bits: u64, n: int, k: nat)
    requires
        !sign_negative(bits),
        encodes_finite(bits),
        exponent_field(bits) == 1075 + k,
        significand(bits) * pow2(k) == n,
    ensures
        denotes_integer(bits, n),
{
    let m = significand(bits) as int;
    let q = pow2(k) as int;
    let p = pow2(1074) as int;
    lemma_pow2_adds(k, 1074);
    assert(m * (q * p) == (m * q) * p) by (nonlinear_arith);
}

} // verus!
