//! Arithmetic on binary64 encodings: each operation gives the exact result
//! of the operation on the values, rounded to the nearest binary64 value.

use crate::binary64::{
    abs, denotes_integer, distance, encodes_finite, encodes_nan, is_nan, lemma_encoding_order,
    magnitude, scaled_magnitude, scaled_value, sign_negative, FRACTION_RANGE, INFINITY, SIGN_BIT,
};
use crate::rounding::{
    floors, lemma_rounded_exists, lemma_rounded_scales, lemma_rounded_zero, lemma_rounding_error,
    lemma_rounding_error_whole, round_pack, rounded, weight,
};
use vstd::arithmetic::div_mod::lemma_fundamental_div_mod;
use vstd::arithmetic::power2::{
    lemma2_to64, lemma2_to64_rest, lemma_pow2_adds, lemma_pow2_pos, lemma_pow2_strictly_increases,
    lemma_pow2_unfold, pow2,
};
use vstd::prelude::*;

verus! {

/// The NaN that every operation without a result gives.
pub const NAN: u64 = 0x7ff8_0000_0000_0000;

/// Whether the encoding denotes zero, of either sign.
pub open spec fn encodes_zero(bits: u64) -> bool {
    magnitude(bits) == 0
}

/// Whether the encoding denotes an infinity, of either sign.
pub open spec fn encodes_infinity(bits: u64) -> bool {
    magnitude(bits) == INFINITY
}

/// The encoding with the given sign and magnitude.
pub open spec fn signed(negative: bool, m: u64) -> u64 {
    if negative {
        (m + SIGN_BIT) as u64
    } else {
        m
    }
}

/// The product of two encodings: the product of the values they denote,
/// rounded to the nearest binary64 value, with the sign that the signs of
/// the factors give. An infinity times zero, and anything times a NaN, is
/// the NaN.
pub open spec fn product(a: u64, b: u64) -> u64 {
    if encodes_nan(a) || encodes_nan(b) {
        NAN
    } else if (encodes_infinity(a) && encodes_zero(b)) || (encodes_zero(a) && encodes_infinity(b)) {
        NAN
    } else if encodes_infinity(a) || encodes_infinity(b) {
        signed(sign_negative(a) != sign_negative(b), INFINITY)
    } else {
        signed(
            sign_negative(a) != sign_negative(b),
            rounded((scaled_magnitude(a) * scaled_magnitude(b)) as int, pow2(1074) as int),
        )
    }
}

/// Puts a sign on a magnitude.
fn with_sign(negative: bool, m: u64) -> (r: u64)
    requires
        m <= INFINITY,
    ensures
        r == signed(negative, m),
{
    if negative {
        m + SIGN_BIT
    } else {
        m
    }
}

/// Splits a finite magnitude into its significand and the place of the
/// significand's lowest digit, counted from two to the power -1074.
fn split(m: u64) -> (r: (u64, i32))
    requires
        m < INFINITY,
    ensures
        r.0 * pow2(r.1 as nat) == scaled_magnitude(m),
        r.0 < 2 * FRACTION_RANGE,
        0 <= r.1 <= 2045,
        r.1 == 0 || r.0 >= FRACTION_RANGE,
        r.0 == 0 <==> m == 0,
{
    let e = m / FRACTION_RANGE;
    let f = m % FRACTION_RANGE;
    proof {
        lemma2_to64();
        assert(f * pow2(0) == f) by (nonlinear_arith)
            requires
                pow2(0) == 1,
        ;
    }
    if e == 0 {
        (f, 0)
    } else {
        (f + FRACTION_RANGE, (e - 1) as i32)
    }
}

/// Multiplies two encodings.
pub fn mul(a: u64, b: u64) -> (r: u64)
    ensures
        r == product(a, b),
{
    if is_nan(a) || is_nan(b) {
        return NAN;
    }
    let ma = abs(a);
    let mb = abs(b);
    let negative = (a >= SIGN_BIT) != (b >= SIGN_BIT);
    if ma == INFINITY || mb == INFINITY {
        if ma == 0 || mb == 0 {
            return NAN;
        }
        return with_sign(negative, INFINITY);
    }
    let (wa, ta) = split(ma);
    let (wb, tb) = split(mb);
    assert(wa * wb < 0x400_0000_0000_0000_0000_0000_0000) by (nonlinear_arith)
        requires
            wa < 0x20_0000_0000_0000,
            wb < 0x20_0000_0000_0000,
    ;
    let w: u128 = (wa as u128) * (wb as u128);
    let t: i32 = ta + tb - 1074;
    let ghost num = (scaled_magnitude(a) * scaled_magnitude(b)) as int;
    let ghost den = pow2(1074) as int;
    proof {
        let pa = pow2(ta as nat) as int;
        let pb = pow2(tb as nat) as int;
        let k = pow2(1200) as int;
        lemma_pow2_adds(ta as nat, tb as nat);
        lemma_pow2_adds((ta + tb) as nat, 1200);
        lemma_pow2_adds((t + 1200) as nat, 1074);
        lemma_pow2_pos(1074);
        lemma_pow2_pos((t + 1200) as nat);
        let unit = (weight(t as int) * den) as int;
        assert(unit == (pa * pb) * k);
        assert(unit > 0) by (nonlinear_arith)
            requires
                unit == weight(t as int) * den,
                weight(t as int) > 0,
                den > 0,
        ;
        assert(num == (wa * pa) * (wb * pb));
        assert(((wa * pa) * (wb * pb)) * k == (wa * wb) * ((pa * pb) * k)) by (nonlinear_arith);
        assert(num * pow2(1200) - (w as int) * unit == 0);
    }
    let m = round_pack(w, t, false, Ghost(num), Ghost(den));
    with_sign(negative, m)
}

/// The quotient of two encodings: the quotient of the values they denote,
/// rounded to the nearest binary64 value, with the sign that the signs of
/// the two give. Zero by zero, an infinity by an infinity, and anything with
/// a NaN, is the NaN; what is not zero, divided by zero, is an infinity.
pub open spec fn quotient(a: u64, b: u64) -> u64 {
    if encodes_nan(a) || encodes_nan(b) {
        NAN
    } else if (encodes_infinity(a) && encodes_infinity(b)) || (encodes_zero(a) && encodes_zero(b)) {
        NAN
    } else if encodes_infinity(a) || encodes_zero(b) {
        signed(sign_negative(a) != sign_negative(b), INFINITY)
    } else if encodes_infinity(b) {
        signed(sign_negative(a) != sign_negative(b), 0)
    } else {
        signed(
            sign_negative(a) != sign_negative(b),
            rounded((scaled_magnitude(a) * pow2(1074)) as int, scaled_magnitude(b) as int),
        )
    }
}

/// Divides one encoding by another.
pub fn div(a: u64, b: u64) -> (r: u64)
    ensures
        r == quotient(a, b),
{
    if is_nan(a) || is_nan(b) {
        return NAN;
    }
    let ma = abs(a);
    let mb = abs(b);
    let negative = (a >= SIGN_BIT) != (b >= SIGN_BIT);
    if ma == INFINITY {
        if mb == INFINITY {
            return NAN;
        }
        return with_sign(negative, INFINITY);
    }
    if mb == 0 {
        if ma == 0 {
            return NAN;
        }
        return with_sign(negative, INFINITY);
    }
    if mb == INFINITY {
        return with_sign(negative, 0);
    }
    let (wa0, ta) = split(ma);
    let (wb, tb) = split(mb);
    let ghost den = scaled_magnitude(b) as int;
    let ghost num = (scaled_magnitude(a) * pow2(1074)) as int;
    proof {
        lemma_pow2_pos(tb as nat);
        assert(den > 0) by (nonlinear_arith)
            requires
                den == wb * pow2(tb as nat),
                wb > 0,
                pow2(tb as nat) > 0,
        ;
    }
    if ma == 0 {
        proof {
            assert(scaled_magnitude(a) * pow2(1074) == 0) by (nonlinear_arith)
                requires
                    scaled_magnitude(a) == 0,
            ;
            lemma_rounded_zero(den);
        }
        return with_sign(negative, 0);
    }
    let mut wa = wa0;
    let mut z: i32 = 0;
    proof {
        lemma2_to64();
        assert(wa0 * pow2(0) == wa0) by (nonlinear_arith)
            requires
                pow2(0) == 1,
        ;
    }
    while wa < 0x10_0000_0000_0000
        invariant
            0 < wa < 0x20_0000_0000_0000,
            0 < wa0,
            0 <= z <= 52,
            wa == wa0 * pow2(z as nat),
        decreases 52 - z,
    {
        proof {
            lemma_pow2_unfold((z + 1) as nat);
            assert(wa0 * (2 * pow2(z as nat)) == 2 * (wa0 * pow2(z as nat))) by (nonlinear_arith);
            if z >= 52 {
                lemma2_to64_rest();
                assert(wa0 * pow2(52) >= pow2(52)) by (nonlinear_arith)
                    requires
                        wa0 >= 1,
                ;
            }
            assert(z < 52);
        }
        wa = wa * 2;
        z = z + 1;
    }
    assert((wa as u128) * 0x2_0000_0000_0000_0000 < 0x40_0000_0000_0000_0000_0000_0000_0000)
        by (nonlinear_arith)
        requires
            wa < 0x20_0000_0000_0000,
    ;
    let dividend: u128 = (wa as u128) * 0x1_0000_0000_0000_0000;
    let q: u128 = dividend / (wb as u128);
    let rem: u128 = dividend % (wb as u128);
    let t: i32 = ta - tb - z + 1010;
    proof {
        let pa = pow2(ta as nat) as int;
        let pb = pow2(tb as nat) as int;
        let pz = pow2(z as nat) as int;
        let k = pow2(1200) as int;
        let g = (weight(t as int) * pb) as int;
        let c = pow2(64) as int;
        let unit = (weight(t as int) * den) as int;
        lemma2_to64();
        lemma_pow2_pos(z as nat);
        lemma_pow2_pos(ta as nat);
        lemma_pow2_pos((t + 1200) as nat);
        // The weights on both sides are the same power of two.
        lemma_pow2_adds((t + 1200) as nat, tb as nat);
        lemma_pow2_adds((t + 1200 + tb) as nat, 64);
        lemma_pow2_adds((t + 1264 + tb) as nat, z as nat);
        lemma_pow2_adds(ta as nat, 1074);
        lemma_pow2_adds((ta + 1074) as nat, 1200);
        lemma_pow2_pos((t + 1200 + tb) as nat);
        assert(g == pow2((t + 1200 + tb) as nat));
        assert(g > 0);
        assert((g * c) * pz == (pa * pow2(1074)) * k);
        // The dividend is the exact numerator at the weight of the quotient.
        let sa = scaled_magnitude(a) as int;
        assert(sa == wa0 * pa);
        assert(wa == wa0 * pz);
        assert((num * k) * pz == ((wa * c) * g) * pz) by (nonlinear_arith)
            requires
                num == sa * pow2(1074),
                sa == wa0 * pa,
                wa == wa0 * pz,
                (g * c) * pz == (pa * pow2(1074)) * k,
        ;
        assert(num * k == (wa * c) * g) by (nonlinear_arith)
            requires
                (num * k) * pz == ((wa * c) * g) * pz,
                pz > 0,
        ;
        assert(dividend == wa * c);
        assert(dividend == q * wb + rem) by {
            lemma_fundamental_div_mod(dividend as int, wb as int);
            assert((wb as int) * (q as int) == q * wb) by (nonlinear_arith);
        }
        assert(unit == g * wb) by (nonlinear_arith)
            requires
                unit == weight(t as int) * den,
                den == wb * pb,
                g == weight(t as int) * pb,
        ;
        assert(num * k - q * unit == g * rem) by (nonlinear_arith)
            requires
                num * k == (wa * c) * g,
                wa * c == q * wb + rem,
                unit == g * wb,
        ;
        assert(0 <= g * rem < g * wb && (g * rem > 0 <==> rem > 0)) by (nonlinear_arith)
            requires
                g > 0,
                0 <= rem < wb,
        ;
        // The quotient has more digits than a significand.
        assert(q >= 0x20_0000_0000_0000) by (nonlinear_arith)
            requires
                wa * c == q * wb + rem,
                0 <= rem < wb,
                wb < 0x20_0000_0000_0000,
                wa >= 0x10_0000_0000_0000,
                c == 0x1_0000_0000_0000_0000,
                q >= 0,
        ;
    }
    let m = round_pack(q, t, rem != 0, Ghost(num), Ghost(den));
    with_sign(negative, m)
}

/// The encoding of a sum whose exact value is `v` units: zero where `v` is
/// zero, negative only if both terms were, and else `v` rounded to the
/// nearest binary64 value.
pub open spec fn rounded_sum(v: int, both_negative: bool) -> u64 {
    if v == 0 {
        signed(both_negative, 0)
    } else if v < 0 {
        signed(true, rounded(-v, 1))
    } else {
        signed(false, rounded(v, 1))
    }
}

/// The sum of two encodings: the sum of the values they denote, rounded to
/// the nearest binary64 value. Terms that cancel give the positive zero; two
/// zeros give the negative zero only if both are negative. Infinities of
/// opposite signs, and anything with a NaN, give the NaN.
pub open spec fn sum(a: u64, b: u64) -> u64 {
    if encodes_nan(a) || encodes_nan(b) {
        NAN
    } else if encodes_infinity(a) && encodes_infinity(b) && sign_negative(a) != sign_negative(b) {
        NAN
    } else if encodes_infinity(a) {
        a
    } else if encodes_infinity(b) {
        b
    } else {
        rounded_sum(scaled_value(a) + scaled_value(b), sign_negative(a) && sign_negative(b))
    }
}

/// The encoding with the sign bit turned over.
pub open spec fn negated(a: u64) -> u64 {
    if a >= SIGN_BIT {
        (a - SIGN_BIT) as u64
    } else {
        (a + SIGN_BIT) as u64
    }
}

/// The difference of two encodings: the sum of the first and the second
/// with its sign turned over.
pub open spec fn difference(a: u64, b: u64) -> u64 {
    sum(a, negated(b))
}

/// A number of units with a sign.
pub open spec fn with_sign_of(negative: bool, units: int) -> int {
    if negative {
        -units
    } else {
        units
    }
}

/// Moves a significand `d` places up.
fn shifted(w: u64, d: i32) -> (r: u128)
    requires
        w < 2 * FRACTION_RANGE,
        0 <= d <= 63,
    ensures
        r == w * pow2(d as nat),
        r < 0x10_0000_0000_0000_0000_0000_0000_0000,
{
    let mut r: u128 = w as u128;
    let mut i: i32 = 0;
    proof {
        lemma2_to64();
        assert(w * pow2(0) == w) by (nonlinear_arith)
            requires
                pow2(0) == 1,
        ;
    }
    while i < d
        invariant
            0 <= i <= d <= 63,
            w < 2 * FRACTION_RANGE,
            r == w * pow2(i as nat),
            r < 0x20_0000_0000_0000 * pow2(i as nat),
            pow2(i as nat) <= 0x8000_0000_0000_0000,
        decreases d - i,
    {
        proof {
            lemma_pow2_unfold((i + 1) as nat);
            lemma_pow2_pos(i as nat);
            lemma2_to64();
            lemma2_to64_rest();
            if i + 1 < 63 {
                lemma_pow2_strictly_increases((i + 1) as nat, 63);
            }
            assert(w * (2 * pow2(i as nat)) == 2 * (w * pow2(i as nat))) by (nonlinear_arith);
            assert(0x20_0000_0000_0000 * pow2(i as nat) <= 0x20_0000_0000_0000
                * 0x8000_0000_0000_0000) by (nonlinear_arith)
                requires
                    pow2(i as nat) <= 0x8000_0000_0000_0000,
            ;
        }
        r = r * 2;
        i = i + 1;
    }
    proof {
        assert(0x20_0000_0000_0000 * pow2(i as nat) <= 0x20_0000_0000_0000
            * 0x8000_0000_0000_0000) by (nonlinear_arith)
            requires
                pow2(i as nat) <= 0x8000_0000_0000_0000,
        ;
    }
    r
}

/// Adds two finite values, each given by its sign, its significand and the
/// place of the significand's lowest digit. The first stands at a place not
/// below that of the second.
fn add_ordered(na: bool, wa: u64, ta: i32, nb: bool, wb: u64, tb: i32) -> (r: u64)
    requires
        wa < 2 * FRACTION_RANGE,
        wb < 2 * FRACTION_RANGE,
        0 <= tb <= ta <= 2045,
        ta == 0 || wa >= FRACTION_RANGE,
    ensures
        r == rounded_sum(
            with_sign_of(na, wa * pow2(ta as nat)) + with_sign_of(nb, wb * pow2(tb as nat)),
            na && nb,
        ),
{
    let ghost a = (wa * pow2(ta as nat)) as int;
    let ghost b = (wb * pow2(tb as nat)) as int;
    let ghost k = pow2(1200) as int;
    proof {
        lemma_pow2_pos(ta as nat);
        lemma_pow2_pos(tb as nat);
        lemma_pow2_pos(1200);
        assert(a >= 0 && b >= 0 && (b == 0 <==> wb == 0) && (a == 0 <==> wa == 0))
            by (nonlinear_arith)
            requires
                a == wa * pow2(ta as nat),
                b == wb * pow2(tb as nat),
                pow2(ta as nat) > 0,
                pow2(tb as nat) > 0,
        ;
    }
    // A zero may be taken to stand at any place.
    let tl: i32 = if wb == 0 {
        ta
    } else {
        tb
    };
    proof {
        assert(b == wb * pow2(tl as nat)) by (nonlinear_arith)
            requires
                b == wb * pow2(tb as nat),
                wb == 0 || tl == tb,
        ;
    }
    let d = ta - tl;
    if d > 63 {
        let w: u128 = if na == nb {
            (wa as u128) * 4
        } else {
            (wa as u128) * 4 - 1
        };
        let ghost num = if na == nb {
            a + b
        } else {
            a - b
        };
        proof {
            let u = pow2((ta - 2) as nat) as int;
            let unit = (weight((ta - 2) as int) * 1) as int;
            lemma_pow2_adds((ta - 2) as nat, 1200);
            lemma_pow2_adds((ta - 2) as nat, 2);
            lemma_pow2_adds(tb as nat, 53);
            lemma2_to64();
            lemma2_to64_rest();
            lemma_pow2_pos((ta - 2) as nat);
            if tb + 53 < ta - 2 {
                lemma_pow2_strictly_increases((tb + 53) as nat, (ta - 2) as nat);
            }
            assert(unit == u * k);
            assert(a == (4 * wa) * u) by (nonlinear_arith)
                requires
                    a == wa * pow2(ta as nat),
                    pow2(ta as nat) == u * 4,
            ;
            assert(0 < b < u) by (nonlinear_arith)
                requires
                    b == wb * pow2(tb as nat),
                    0 < wb < 0x20_0000_0000_0000,
                    pow2(tb as nat) > 0,
                    pow2(tb as nat) * 0x20_0000_0000_0000 <= u,
            ;
            assert(0 < b * k < u * k) by (nonlinear_arith)
                requires
                    0 < b < u,
                    k > 0,
            ;
            assert((a + b) * k - (4 * wa) * (u * k) == b * k) by (nonlinear_arith)
                requires
                    a == (4 * wa) * u,
            ;
            assert((a - b) * k - (4 * wa - 1) * (u * k) == u * k - b * k) by (nonlinear_arith)
                requires
                    a == (4 * wa) * u,
            ;
            assert(a > b) by (nonlinear_arith)
                requires
                    a == (4 * wa) * u,
                    wa >= 1,
                    0 < b < u,
            ;
            assert(floors(num, 1, w as int, true, (ta - 2) as int));
        }
        let m = round_pack(w, ta - 2, true, Ghost(num), Ghost(1));
        return with_sign(na, m);
    }
    let big = shifted(wa, d);
    proof {
        let pl = pow2(tl as nat) as int;
        lemma_pow2_adds(d as nat, tl as nat);
        lemma_pow2_adds(tl as nat, 1200);
        assert(a == big * pl) by (nonlinear_arith)
            requires
                a == wa * pow2(ta as nat),
                big == wa * pow2(d as nat),
                pow2(ta as nat) == pow2(d as nat) * pl,
        ;
        let unit = (weight(tl as int) * 1) as int;
        lemma_pow2_pos((tl + 1200) as nat);
        assert(unit == pl * k && unit > 0);
        assert((a + b) * k - (big + wb) * unit == 0) by (nonlinear_arith)
            requires
                a == big * pl,
                b == wb * pl,
                unit == pl * k,
        ;
        assert((a - b) * k - (big - wb) * unit == 0) by (nonlinear_arith)
            requires
                a == big * pl,
                b == wb * pl,
                unit == pl * k,
        ;
        assert((b - a) * k - (wb - big) * unit == 0) by (nonlinear_arith)
            requires
                a == big * pl,
                b == wb * pl,
                unit == pl * k,
        ;
        assert((a < b <==> big < wb) && (a == b <==> big == wb)) by (nonlinear_arith)
            requires
                a == big * pl,
                b == wb * pl,
                pl > 0,
        ;
        lemma_rounded_zero(1);
    }
    if na == nb {
        let w: u128 = big + (wb as u128);
        let m = round_pack(w, tl, false, Ghost(a + b), Ghost(1));
        with_sign(na, m)
    } else if big == wb as u128 {
        0
    } else if big > wb as u128 {
        let w: u128 = big - (wb as u128);
        let m = round_pack(w, tl, false, Ghost(a - b), Ghost(1));
        with_sign(na, m)
    } else {
        let w: u128 = (wb as u128) - big;
        let m = round_pack(w, tl, false, Ghost(b - a), Ghost(1));
        with_sign(nb, m)
    }
}

/// Adds two encodings.
pub fn add(a: u64, b: u64) -> (r: u64)
    ensures
        r == sum(a, b),
{
    if is_nan(a) || is_nan(b) {
        return NAN;
    }
    let ma = abs(a);
    let mb = abs(b);
    let na = a >= SIGN_BIT;
    let nb = b >= SIGN_BIT;
    if ma == INFINITY {
        if mb == INFINITY && na != nb {
            return NAN;
        }
        return a;
    }
    if mb == INFINITY {
        return b;
    }
    let (wa, ta) = split(ma);
    let (wb, tb) = split(mb);
    if ta >= tb {
        add_ordered(na, wa, ta, nb, wb, tb)
    } else {
        add_ordered(nb, wb, tb, na, wa, ta)
    }
}

/// Turns the sign of an encoding over.
pub fn neg(a: u64) -> (r: u64)
    ensures
        r == negated(a),
{
    if a >= SIGN_BIT {
        a - SIGN_BIT
    } else {
        a + SIGN_BIT
    }
}

/// Subtracts one encoding from another.
pub fn sub(a: u64, b: u64) -> (r: u64)
    ensures
        r == difference(a, b),
{
    self::add(a, neg(b))
}

/// The order of the factors does not matter to a product.
pub proof fn lemma_product_commutes(a: u64, b: u64)
    ensures
        product(a, b) == product(b, a),
{
    assert(scaled_magnitude(a) * scaled_magnitude(b) == scaled_magnitude(b) * scaled_magnitude(a))
        by (nonlinear_arith);
}

/// The order of the terms does not matter to a sum.
pub proof fn lemma_sum_commutes(a: u64, b: u64)
    ensures
        sum(a, b) == sum(b, a),
{
}

/// Multiplying a finite value by an encoding that denotes a positive whole
/// number `n` gives `n` times the value, rounded.
pub proof fn lemma_product_by_integer(x: u64, c: u64, n: int)
    requires
        encodes_finite(x),
        !sign_negative(c),
        denotes_integer(c, n),
        n > 0,
    ensures
        product(x, c) == signed(sign_negative(x), rounded(scaled_magnitude(x) * n, 1)),
{
    let p = pow2(1074) as int;
    let s = scaled_magnitude(x) as int;
    lemma_pow2_pos(1074);
    assert(s * (n * p) == (s * n) * p && 1 * p == p) by (nonlinear_arith);
    lemma_rounded_scales(s * n, 1, p);
}

/// Dividing a finite value by an encoding that denotes a positive whole
/// number `n` gives the value over `n`, rounded.
pub proof fn lemma_quotient_by_integer(x: u64, c: u64, n: int)
    requires
        encodes_finite(x),
        !sign_negative(c),
        denotes_integer(c, n),
        n > 0,
    ensures
        quotient(x, c) == signed(sign_negative(x), rounded(scaled_magnitude(x) as int, n)),
{
    let p = pow2(1074) as int;
    let s = scaled_magnitude(x) as int;
    lemma_pow2_pos(1074);
    assert(n * p > 0) by (nonlinear_arith)
        requires
            n > 0,
            p > 0,
    ;
    lemma_rounded_scales(s, n, p);
}

/// Whether the encoding denotes a normal number: finite, and not below the
/// smallest magnitude that has all 53 digits.
pub open spec fn encodes_normal(bits: u64) -> bool {
    FRACTION_RANGE <= magnitude(bits) < INFINITY
}

/// Multiplying by a factor and dividing by it again brings a value back to
/// within its part in two to the power 50, where neither result leaves the
/// normal numbers.
pub proof fn lemma_product_quotient_returns(a: u64, k: u64)
    requires
        !encodes_nan(a),
        !encodes_nan(k),
        encodes_normal(product(a, k)),
        encodes_normal(quotient(product(a, k), k)),
    ensures
        sign_negative(quotient(product(a, k), k)) == sign_negative(a),
        distance(
            scaled_magnitude(quotient(product(a, k), k)) as int,
            scaled_magnitude(a) as int,
        ) * 0x4_0000_0000_0000 <= scaled_magnitude(a),
{
    let p = pow2(1074) as int;
    let sa = scaled_magnitude(a) as int;
    let sk = scaled_magnitude(k) as int;
    let there = product(a, k);
    let back = quotient(there, k);
    let st = scaled_magnitude(there) as int;
    let sb = scaled_magnitude(back) as int;
    lemma_pow2_pos(1074);
    lemma_rounded_zero(p);
    lemma_rounded_exists(sa * sk, p);
    assert(sk > 0) by {
        if sk == 0 {
            assert(sa * sk == 0) by (nonlinear_arith)
                requires
                    sk == 0,
            ;
        }
    }
    lemma_rounded_exists(st * p, sk);
    lemma_rounding_error(sa * sk, p);
    lemma_rounding_error(st * p, sk);
    let x = sa * sk;
    let y = st * p;
    let z = sb * sk;
    assert(distance(z, x) * 0x4_0000_0000_0000 <= x);
    assert(distance(sb, sa) * 0x4_0000_0000_0000 <= sa) by (nonlinear_arith)
        requires
            distance(sb * sk, sa * sk) * 0x4_0000_0000_0000 <= sa * sk,
            sk > 0,
    {
        assert(distance(sb * sk, sa * sk) == distance(sb, sa) * sk);
    }
}

/// Dividing by a divisor and multiplying by it again brings a value back to
/// within its part in two to the power 50, where neither result leaves the
/// normal numbers.
pub proof fn lemma_quotient_product_returns(a: u64, k: u64)
    requires
        !encodes_nan(a),
        !encodes_nan(k),
        encodes_normal(quotient(a, k)),
        encodes_normal(product(quotient(a, k), k)),
    ensures
        sign_negative(product(quotient(a, k), k)) == sign_negative(a),
        distance(
            scaled_magnitude(product(quotient(a, k), k)) as int,
            scaled_magnitude(a) as int,
        ) * 0x4_0000_0000_0000 <= scaled_magnitude(a),
{
    let p = pow2(1074) as int;
    let sa = scaled_magnitude(a) as int;
    let sk = scaled_magnitude(k) as int;
    let there = quotient(a, k);
    let back = product(there, k);
    let st = scaled_magnitude(there) as int;
    let sb = scaled_magnitude(back) as int;
    lemma_pow2_pos(1074);
    lemma_encoding_order(k, 0);
    assert(sk > 0);
    lemma_rounded_exists(sa * p, sk);
    lemma_rounded_exists(st * sk, p);
    lemma_rounding_error(sa * p, sk);
    lemma_rounding_error(st * sk, p);
    let x = sa * p;
    let y = st * sk;
    let z = sb * p;
    assert(distance(z, x) * 0x4_0000_0000_0000 <= x);
    assert(distance(sb, sa) * 0x4_0000_0000_0000 <= sa) by (nonlinear_arith)
        requires
            distance(sb * p, sa * p) * 0x4_0000_0000_0000 <= sa * p,
            p > 0,
    {
        assert(distance(sb * p, sa * p) == distance(sb, sa) * p);
    }
}

/// The value of a rounded sum lies within the exact sum's part in two to the
/// power 52 of the exact sum, where it is finite.
proof fn lemma_rounded_sum_error(v: int, both_negative: bool)
    requires
        encodes_finite(rounded_sum(v, both_negative)),
    ensures
        distance(scaled_value(rounded_sum(v, both_negative)), v) * FRACTION_RANGE <= distance(v, 0),
{
    if v > 0 {
        lemma_rounded_exists(v, 1);
        lemma_rounding_error_whole(v);
    } else if v < 0 {
        lemma_rounded_exists(-v, 1);
        lemma_rounding_error_whole(-v);
    }
}

/// Adding a term and subtracting it again brings a value back to within a
/// millionth part of itself, where the term is not larger than two to the
/// power 30 times the value and neither result is infinite.
pub proof fn lemma_sum_difference_returns(a: u64, b: u64)
    requires
        !encodes_nan(a),
        !encodes_nan(b),
        encodes_finite(sum(a, b)),
        encodes_finite(difference(sum(a, b), b)),
        scaled_magnitude(b) <= 0x4000_0000 * scaled_magnitude(a),
    ensures
        distance(scaled_value(difference(sum(a, b), b)), scaled_value(a)) * 1_000_000
            <= scaled_magnitude(a),
{
    let there = sum(a, b);
    let back = difference(there, b);
    let va = scaled_value(a);
    let vb = scaled_value(b);
    lemma_rounded_sum_error(va + vb, sign_negative(a) && sign_negative(b));
    assert(scaled_value(negated(b)) == -vb);
    lemma_rounded_sum_error(
        scaled_value(there) - vb,
        sign_negative(there) && sign_negative(negated(b)),
    );
}

} // verus!
