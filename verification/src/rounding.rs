//! Rounding to the nearest binary64 value, ties to even.
//!
//! A number to be rounded is a ratio `num / den` of whole numbers, counted
//! in the units of `scaled_magnitude`: two to the power -1074 each. It is
//! never negative here: the sign of a result is settled apart from its
//! magnitude.

use crate::binary64::{
    distance, exponent_field, fraction_field, lemma_encoding_order, scaled_magnitude, significand,
    FRACTION_RANGE, INFINITY,
};
use vstd::arithmetic::power2::{
    lemma2_to64, lemma_pow2_adds, lemma_pow2_pos, lemma_pow2_strictly_increases,
    lemma_pow2_unfold, pow2,
};
use vstd::prelude::*;

verus! {

/// Whether `num / den` does not lie below the point halfway from the
/// magnitude before `m` to `m`, nor on that point unless `m` is even.
pub open spec fn reaches(m: u64, num: int, den: int) -> bool {
    let halfway = scaled_magnitude((m - 1) as u64) + scaled_magnitude(m);
    2 * num > halfway * den || (2 * num == halfway * den && m % 2 == 0)
}

/// Whether `num / den` does not lie above the point halfway from `m` to the
/// magnitude after it, nor on that point unless `m` is even.
pub open spec fn stays(m: u64, num: int, den: int) -> bool {
    let halfway = scaled_magnitude(m) + scaled_magnitude((m + 1) as u64);
    2 * num < halfway * den || (2 * num == halfway * den && m % 2 == 0)
}

/// Whether the magnitude with encoding `m` is `num / den` rounded to the
/// nearest binary64 value: no other is nearer, and halfway between two the
/// one with the even encoding is taken. What lies halfway from the largest
/// finite magnitude to two to the power 1024, or beyond, is rounded to
/// infinity.
pub open spec fn rounds_to(m: u64, num: int, den: int) -> bool {
    &&& m <= INFINITY
    &&& (m == 0 || reaches(m, num, den))
    &&& (m == INFINITY || stays(m, num, den))
}

/// The encoding of `num / den` rounded to the nearest binary64 magnitude,
/// for `num` not negative and `den` positive.
pub open spec fn rounded(num: int, den: int) -> u64 {
    choose|m: u64| rounds_to(m, num, den)
}

/// Of two roundings of one number neither lies above the other.
proof fn lemma_rounds_to_ordered(m1: u64, m2: u64, num: int, den: int)
    requires
        den > 0,
        rounds_to(m1, num, den),
        rounds_to(m2, num, den),
    ensures
        m2 <= m1,
{
    if m1 < m2 {
        let a = scaled_magnitude(m1) as int;
        let b = scaled_magnitude((m1 + 1) as u64) as int;
        let c = scaled_magnitude((m2 - 1) as u64) as int;
        let d = scaled_magnitude(m2) as int;
        lemma_encoding_order(m1, (m2 - 1) as u64);
        lemma_encoding_order((m1 + 1) as u64, m2);
        assert(a <= c && b <= d);
        assert((a + b) * den <= (c + d) * den) by (nonlinear_arith)
            requires
                a + b <= c + d,
                den > 0,
        ;
        if m1 + 1 < m2 {
            assert((a + b) * den < (c + d) * den) by (nonlinear_arith)
                requires
                    a + b < c + d,
                    den > 0,
            ;
        }
    }
}

/// Rounding has one result: whatever magnitude is found to be `num / den`
/// rounded is the one that `rounded` names.
pub proof fn lemma_rounded_unique(m: u64, num: int, den: int)
    requires
        den > 0,
        rounds_to(m, num, den),
    ensures
        rounded(num, den) == m,
{
    let c = rounded(num, den);
    lemma_rounds_to_ordered(c, m, num, den);
    lemma_rounds_to_ordered(m, c, num, den);
}

/// The last magnitude up to `n` that the number reaches, or zero if it
/// reaches none.
proof fn lemma_last_reached(num: int, den: int, n: u64) -> (m: u64)
    requires
        n <= INFINITY,
    ensures
        m <= n,
        m == 0 || reaches(m, num, den),
        forall|j: u64| m < j <= n ==> !reaches(j, num, den),
    decreases n,
{
    if n == 0 || reaches(n, num, den) {
        n
    } else {
        lemma_last_reached(num, den, (n - 1) as u64)
    }
}

/// Every number has a rounding, and `rounded` names it.
pub proof fn lemma_rounded_exists(num: int, den: int)
    requires
        den > 0,
    ensures
        rounds_to(rounded(num, den), num, den),
{
    let m = lemma_last_reached(num, den, INFINITY);
    if m != INFINITY {
        assert(!reaches((m + 1) as u64, num, den));
    }
    assert(rounds_to(m, num, den));
}

/// A number that a magnitude denotes is rounded to that magnitude.
pub proof fn lemma_rounded_exact(m: u64, num: int, den: int)
    requires
        den > 0,
        m <= INFINITY,
        num == scaled_magnitude(m) * den,
    ensures
        rounded(num, den) == m,
{
    let s = scaled_magnitude(m) as int;
    if m != 0 {
        let below = scaled_magnitude((m - 1) as u64) as int;
        lemma_encoding_order((m - 1) as u64, m);
        assert((below + s) * den < 2 * (s * den)) by (nonlinear_arith)
            requires
                below < s,
                den > 0,
        ;
    }
    if m != INFINITY {
        let above = scaled_magnitude((m + 1) as u64) as int;
        lemma_encoding_order(m, (m + 1) as u64);
        assert((s + above) * den > 2 * (s * den)) by (nonlinear_arith)
            requires
                s < above,
                den > 0,
        ;
    }
    lemma_rounded_unique(m, num, den);
}

/// Zero rounds to zero.
pub proof fn lemma_rounded_zero(den: int)
    requires
        den > 0,
    ensures
        rounded(0, den) == 0,
{
    assert(scaled_magnitude(0) == 0);
    assert(0 == 0 * den) by (nonlinear_arith);
    lemma_rounded_exact(0, 0, den);
}

/// Rounding goes by the ratio alone: a common factor of `num` and `den`
/// changes nothing.
pub proof fn lemma_rounded_scales(num: int, den: int, k: int)
    requires
        den > 0,
        k > 0,
    ensures
        rounded(num * k, den * k) == rounded(num, den),
{
    let m = rounded(num, den);
    lemma_rounded_exists(num, den);
    assert(den * k > 0) by (nonlinear_arith)
        requires
            den > 0,
            k > 0,
    ;
    if m != 0 {
        let h = scaled_magnitude((m - 1) as u64) + scaled_magnitude(m);
        assert((2 * num > h * den ==> 2 * (num * k) > h * (den * k)) && (2 * num == h * den ==> 2
            * (num * k) == h * (den * k))) by (nonlinear_arith)
            requires
                k > 0,
        ;
    }
    if m != INFINITY {
        let h = scaled_magnitude(m) + scaled_magnitude((m + 1) as u64);
        assert((2 * num < h * den ==> 2 * (num * k) < h * (den * k)) && (2 * num == h * den ==> 2
            * (num * k) == h * (den * k))) by (nonlinear_arith)
            requires
                k > 0,
        ;
    }
    lemma_rounded_unique(m, num * k, den * k);
}

/// The magnitude that an encoding put together from an exponent and a
/// significand denotes: `t * 2^52 + w` denotes `w * 2^t`, for `w` from two
/// to the power 52 up to two to the power 53, or below that where `t` is 0.
pub proof fn lemma_scaled_of_parts(t: nat, w: nat)
    requires
        w <= 2 * FRACTION_RANGE,
        t == 0 || w >= FRACTION_RANGE,
        t * FRACTION_RANGE + w <= INFINITY,
    ensures
        scaled_magnitude((t * FRACTION_RANGE + w) as u64) == w * pow2(t),
{
    let r = FRACTION_RANGE as nat;
    let m = (t * r + w) as u64;
    lemma2_to64();
    if w < r {
        assert(exponent_field(m) == 0);
        assert(fraction_field(m) == w);
    } else if w < 2 * r {
        assert(exponent_field(m) == t + 1);
        assert(fraction_field(m) == w - r);
    } else {
        assert(exponent_field(m) == t + 2);
        assert(fraction_field(m) == 0);
        lemma_pow2_unfold(t + 1);
        assert(r * (2 * pow2(t)) == (2 * r) * pow2(t)) by (nonlinear_arith);
    }
}

/// One over `d` is rounded to a normal magnitude with exponent field `e`
/// and a fraction field that is not zero if the significand times `d` comes
/// within less than half of `d` of two to the power `1075 - e`.
pub proof fn lemma_rounded_inverse(m: u64, d: int, k: nat)
    requires
        d > 0,
        FRACTION_RANGE < m < INFINITY,
        fraction_field(m) > 0,
        exponent_field(m) + k == 1075,
        2 * distance(significand(m) * d, pow2(k) as int) < d,
    ensures
        rounded(pow2(1074) as int, d) == m,
{
    let t = (exponent_field(m) - 1) as nat;
    let w = significand(m) as int;
    let g = pow2(t) as int;
    let q = pow2(k) as int;
    let p = pow2(1074) as int;
    lemma_scaled_of_parts(t, (w - 1) as nat);
    lemma_scaled_of_parts(t, w as nat);
    lemma_scaled_of_parts(t, (w + 1) as nat);
    lemma_pow2_adds(k, t);
    lemma_pow2_pos(t);
    assert(m == t * FRACTION_RANGE + w);
    let below = scaled_magnitude((m - 1) as u64) as int;
    let here = scaled_magnitude(m) as int;
    let above = scaled_magnitude((m + 1) as u64) as int;
    assert(2 * p > (below + here) * d && 2 * p < (here + above) * d) by (nonlinear_arith)
        requires
            below == (w - 1) * g,
            here == w * g,
            above == (w + 1) * g,
            p == q * g,
            g > 0,
            2 * distance(w * d, q) < d,
    {
        assert((below + here) * d == (2 * (w * d) - d) * g);
        assert((here + above) * d == (2 * (w * d) + d) * g);
        assert(2 * p == (2 * q) * g);
    }
    lemma_rounded_unique(m, p, d);
}

/// How far rounding moves a number: where the result is a normal magnitude,
/// by no more than the number's part in two to the power 52.
pub proof fn lemma_rounding_error(num: int, den: int)
    requires
        den > 0,
        FRACTION_RANGE <= rounded(num, den) < INFINITY,
    ensures
        distance(scaled_magnitude(rounded(num, den)) * den, num) * FRACTION_RANGE <= num,
{
    let r = FRACTION_RANGE as int;
    let m = rounded(num, den);
    let t = (exponent_field(m) - 1) as nat;
    let w = r + fraction_field(m);
    let g = pow2(t) as int;
    let s = scaled_magnitude(m) as int;
    lemma_rounded_exists(num, den);
    lemma_scaled_of_parts(t, w as nat);
    lemma_scaled_of_parts(t, (w + 1) as nat);
    lemma_pow2_pos(t);
    lemma2_to64();
    assert(m == t * r + w);
    let above = scaled_magnitude((m + 1) as u64) as int;
    let below = scaled_magnitude((m - 1) as u64) as int;
    assert(s == w * g && above == (w + 1) * g);
    if num >= s * den {
        assert((num - s * den) * r <= num) by (nonlinear_arith)
            requires
                2 * num <= (s + above) * den,
                s == w * g,
                above == (w + 1) * g,
                w >= r,
                r == 0x10_0000_0000_0000,
                g > 0,
                den > 0,
                num >= s * den,
        {
            assert((s + above) * den == 2 * (s * den) + g * den);
            assert(s * den >= r * (g * den));
        }
    } else if w > r {
        lemma_scaled_of_parts(t, (w - 1) as nat);
        assert(below == (w - 1) * g);
        assert((s * den - num) * r <= num) by (nonlinear_arith)
            requires
                2 * num >= (below + s) * den,
                s == w * g,
                below == (w - 1) * g,
                w > r,
                r == 0x10_0000_0000_0000,
                g > 0,
                den > 0,
                num < s * den,
        {
            assert((below + s) * den == 2 * (s * den) - g * den);
            assert((below + s) * den == 2 * (below * den) + g * den);
            assert(below * den >= r * (g * den));
        }
    } else if t >= 1 {
        let h = pow2((t - 1) as nat) as int;
        lemma_scaled_of_parts((t - 1) as nat, (2 * r - 1) as nat);
        lemma_pow2_unfold(t);
        lemma_pow2_pos((t - 1) as nat);
        assert(m - 1 == (t - 1) * r + (2 * r - 1));
        assert(below == (2 * r - 1) * h);
        assert((s * den - num) * r <= num) by (nonlinear_arith)
            requires
                2 * num >= (below + s) * den,
                s == r * (2 * h),
                below == (2 * r - 1) * h,
                r == 0x10_0000_0000_0000,
                h > 0,
                den > 0,
                num < s * den,
        {
            assert((below + s) * den == 2 * (s * den) - h * den);
            assert((below + s) * den == (4 * r - 1) * (h * den));
            assert(h * den > 0);
        }
    } else {
        lemma_scaled_of_parts(0, (r - 1) as nat);
        assert(g == 1);
        assert((r - 1) * g == r - 1 && w * g == w) by (nonlinear_arith)
            requires
                g == 1,
        ;
        assert(below == r - 1 && s == r);
        assert((s * den - num) * r <= num) by (nonlinear_arith)
            requires
                2 * num >= (below + s) * den,
                s == r,
                below == r - 1,
                r == 0x10_0000_0000_0000,
                den > 0,
                num < s * den,
        {
            assert((below + s) * den == 2 * (s * den) - den);
        }
    }
}

/// How far rounding moves a whole number of units: below two to the power
/// 53 not at all, and else by no more than its part in two to the power 52.
pub proof fn lemma_rounding_error_whole(num: int)
    requires
        num >= 0,
        rounded(num, 1) < INFINITY,
    ensures
        distance(scaled_magnitude(rounded(num, 1)) as int, num) * FRACTION_RANGE <= num,
{
    let r = FRACTION_RANGE as nat;
    let m = rounded(num, 1);
    if m >= r {
        lemma_rounding_error(num, 1);
    } else {
        lemma_rounded_exists(num, 1);
        lemma2_to64();
        lemma_scaled_of_parts(0, m as nat);
        lemma_scaled_of_parts(0, (m + 1) as nat);
        if m > 0 {
            lemma_scaled_of_parts(0, (m - 1) as nat);
        }
    }
}

/// Two to the power `t + 1200`: the weight of a digit at place `t`, with
/// room for places below zero.
pub open spec fn weight(t: int) -> nat {
    pow2((t + 1200) as nat)
}

/// Whether `num / den` is `w + h / 2 + e` times two to the power `t`, where
/// `h` is 1 if `half` and else 0, and `e`, at least 0 and below one half,
/// is above 0 exactly if `sticky`.
spec fn brackets(num: int, den: int, w: int, half: bool, sticky: bool, t: int) -> bool {
    let unit = weight(t) * den;
    let excess = 2 * num * pow2(1200) - (2 * w + if half { 1int } else { 0int }) * unit;
    &&& -1200 <= t
    &&& 0 <= excess < unit
    &&& (sticky <==> excess > 0)
}

/// Dropping the lowest digit of `w` keeps the bracket: the digit becomes
/// the half, and what was there before is remembered as sticky.
proof fn lemma_brackets_halved(num: int, den: int, w: int, half: bool, sticky: bool, t: int)
    requires
        den > 0,
        w >= 0,
        brackets(num, den, w, half, sticky, t),
    ensures
        brackets(num, den, w / 2, w % 2 == 1, half || sticky, t + 1),
{
    let unit = (weight(t) * den) as int;
    let h = if half { 1int } else { 0int };
    let b = w % 2;
    lemma_pow2_unfold((t + 1201) as nat);
    lemma_pow2_pos((t + 1200) as nat);
    assert(weight(t + 1) * den == 2 * unit) by (nonlinear_arith)
        requires
            weight(t + 1) == 2 * weight(t),
            unit == weight(t) * den,
    ;
    assert(unit > 0) by (nonlinear_arith)
        requires
            unit == weight(t) * den,
            weight(t) > 0,
            den > 0,
    ;
    assert((2 * (w / 2) + b) * (2 * unit) == (2 * w + h) * unit - h * unit) by (nonlinear_arith)
        requires
            2 * (w / 2) + b == w,
    ;
}

/// Doubling `w` one place lower keeps an exact bracket.
proof fn lemma_brackets_doubled(num: int, den: int, w: int, t: int)
    requires
        -1200 < t,
        brackets(num, den, w, false, false, t),
    ensures
        brackets(num, den, 2 * w, false, false, t - 1),
{
    let unit = (weight(t - 1) * den) as int;
    lemma_pow2_unfold((t + 1200) as nat);
    assert(weight(t) * den == 2 * unit) by (nonlinear_arith)
        requires
            weight(t) == 2 * weight(t - 1),
            unit == weight(t - 1) * den,
    ;
    assert((2 * (2 * w)) * unit == (2 * w) * (2 * unit)) by (nonlinear_arith);
}

/// At a place that is not below zero the bracket can be read without the
/// room below: twice `num` exceeds `2 * w + h` units of `2^t * den` by less
/// than one unit.
proof fn lemma_brackets_above_zero(num: int, den: int, w: int, half: bool, sticky: bool, t: int)
    requires
        den > 0,
        t >= 0,
        brackets(num, den, w, half, sticky, t),
    ensures
        0 <= 2 * num - (2 * w + if half { 1int } else { 0int }) * (pow2(t as nat) * den) < pow2(
            t as nat,
        ) * den,
        sticky <==> 2 * num - (2 * w + if half { 1int } else { 0int }) * (pow2(t as nat) * den)
            > 0,
{
    let k = pow2(1200) as int;
    let u = (pow2(t as nat) * den) as int;
    let a = 2 * num;
    let b = 2 * w + if half { 1int } else { 0int };
    lemma_pow2_adds(t as nat, 1200);
    lemma_pow2_pos(1200);
    assert(weight(t) * den == k * u) by (nonlinear_arith)
        requires
            weight(t) == pow2(t as nat) * k,
            u == pow2(t as nat) * den,
    ;
    assert(a * k - b * (k * u) == k * (a - b * u)) by (nonlinear_arith);
    assert(0 <= a - b * u < u && (k * (a - b * u) > 0 <==> a - b * u > 0)) by (nonlinear_arith)
        requires
            k > 0,
            0 <= k * (a - b * u) < k * u,
    ;
}

/// Whether `num / den` is `w + e` times two to the power `t`, where `e`, at
/// least 0 and below 1, is above 0 exactly if `sticky`: `w` is the number
/// cut off at place `t`, and `sticky` tells whether anything was cut off.
pub open spec fn floors(num: int, den: int, w: int, sticky: bool, t: int) -> bool {
    let unit = weight(t) * den;
    let excess = num * pow2(1200) - w * unit;
    &&& -1200 <= t
    &&& 0 <= excess < unit
    &&& (sticky <==> excess > 0)
}

/// A number cut off at a place with nothing lost is bracketed there.
proof fn lemma_floors_exact(num: int, den: int, w: int, t: int)
    requires
        den > 0,
        floors(num, den, w, false, t),
    ensures
        brackets(num, den, w, false, false, t),
{
    let unit = (weight(t) * den) as int;
    lemma_pow2_pos((t + 1200) as nat);
    assert(unit > 0) by (nonlinear_arith)
        requires
            unit == weight(t) * den,
            weight(t) > 0,
            den > 0,
    ;
    assert(2 * num * pow2(1200) - (2 * w + 0) * unit == 2 * (num * pow2(1200) - w * unit))
        by (nonlinear_arith);
}

/// A number cut off at a place is bracketed one place higher, its lowest
/// digit becoming the half.
proof fn lemma_floors_halved(num: int, den: int, w: int, sticky: bool, t: int)
    requires
        den > 0,
        w >= 0,
        floors(num, den, w, sticky, t),
    ensures
        brackets(num, den, w / 2, w % 2 == 1, sticky, t + 1),
{
    let unit = (weight(t) * den) as int;
    let b = w % 2;
    lemma_pow2_unfold((t + 1201) as nat);
    assert(weight(t + 1) * den == 2 * unit) by (nonlinear_arith)
        requires
            weight(t + 1) == 2 * weight(t),
            unit == weight(t) * den,
    ;
    assert(2 * num * pow2(1200) - (2 * (w / 2) + b) * (2 * unit) == 2 * (num * pow2(1200) - w
        * unit)) by (nonlinear_arith)
        requires
            2 * (w / 2) + b == w,
    ;
}

/// Whether a bracket is rounded up: from the half on, but on the half itself
/// only to make the lowest digit even.
spec fn rounds_up(w: int, half: bool, sticky: bool) -> bool {
    half && (sticky || w % 2 == 1)
}

/// Once a bracket has the width of a significand, the rounded magnitude is
/// the encoding put together from its place and its digits, or the next one
/// where the bracket is rounded up.
proof fn lemma_round_decision(num: int, den: int, w: int, half: bool, sticky: bool, t: int)
    requires
        den > 0,
        0 <= t,
        0 <= w < 2 * FRACTION_RANGE,
        t == 0 || w >= FRACTION_RANGE,
        t * FRACTION_RANGE + w < INFINITY,
        brackets(num, den, w, half, sticky, t),
    ensures
        rounds_to(
            (t * FRACTION_RANGE + w + if rounds_up(w, half, sticky) {
                1int
            } else {
                0int
            }) as u64,
            num,
            den,
        ),
{
    let r = FRACTION_RANGE as int;
    let m0 = (t * r + w) as u64;
    let m1 = (m0 + 1) as u64;
    let p = pow2(t as nat) as int;
    let u = p * den;
    let h = if half { 1int } else { 0int };
    let s0 = scaled_magnitude(m0) as int;
    let s1 = scaled_magnitude(m1) as int;
    lemma_scaled_of_parts(t as nat, w as nat);
    lemma_scaled_of_parts(t as nat, (w + 1) as nat);
    lemma_brackets_above_zero(num, den, w, half, sticky, t);
    lemma_pow2_pos(t as nat);
    assert(s0 == w * p && s1 == (w + 1) * p);
    assert((s0 + s1) * den == (2 * w + 1) * u && 2 * s0 * den == (2 * w) * u && 2 * s1 * den == (2
        * w + 2) * u && u > 0) by (nonlinear_arith)
        requires
            s0 == w * p,
            s1 == (w + 1) * p,
            u == p * den,
            p > 0,
            den > 0,
    ;
    assert((2 * w + h) * u == (2 * w) * u + h * u) by (nonlinear_arith);
    assert((2 * w + 1) * u == (2 * w) * u + u) by (nonlinear_arith);
    assert((2 * w + 2) * u == (2 * w) * u + 2 * u) by (nonlinear_arith);
    if rounds_up(w, half, sticky) {
        if m1 != INFINITY {
            let m2 = (m1 + 1) as u64;
            let s2 = scaled_magnitude(m2) as int;
            lemma_encoding_order(m1, m2);
            assert((s1 + s2) * den > 2 * s1 * den) by (nonlinear_arith)
                requires
                    s2 > s1,
                    den > 0,
            ;
        }
    } else {
        if m0 != 0 {
            let mp = (m0 - 1) as u64;
            let sp = scaled_magnitude(mp) as int;
            lemma_encoding_order(mp, m0);
            assert((sp + s0) * den < 2 * s0 * den) by (nonlinear_arith)
                requires
                    sp < s0,
                    den > 0,
            ;
        }
    }
}

/// A bracket that reaches two to the power 1024 is rounded to infinity.
proof fn lemma_round_overflow(num: int, den: int, w: int, half: bool, sticky: bool, t: int)
    requires
        den > 0,
        t >= 2046,
        w >= FRACTION_RANGE,
        brackets(num, den, w, half, sticky, t),
    ensures
        rounds_to(INFINITY, num, den),
{
    let r = FRACTION_RANGE as int;
    let p = pow2(t as nat) as int;
    let q = pow2(2046) as int;
    let u = p * den;
    let h = if half { 1int } else { 0int };
    let top = scaled_magnitude(INFINITY) as int;
    let below = scaled_magnitude((INFINITY - 1) as u64) as int;
    lemma_brackets_above_zero(num, den, w, half, sticky, t);
    lemma_scaled_of_parts(2046, r as nat);
    lemma_encoding_order((INFINITY - 1) as u64, INFINITY);
    lemma_pow2_pos(2046);
    if t > 2046 {
        lemma_pow2_strictly_increases(2046, t as nat);
    }
    assert((below + top) * den < (2 * w + h) * u) by (nonlinear_arith)
        requires
            below < top,
            top == r * q,
            0 < q <= p,
            0 < r <= w,
            0 <= h,
            u == p * den,
            den > 0,
    {
        assert(r * q <= w * q);
        assert(w * q <= w * p);
        assert(top <= w * p);
        assert((below + top) * den < (2 * (w * p)) * den);
        assert((2 * (w * p)) * den == (2 * w) * (p * den));
        assert((2 * w) * u <= (2 * w + h) * u);
    }
}

/// A number cut off so far below the units that all 128 digits of `w` stay
/// under one half of a unit is rounded to zero.
proof fn lemma_round_vanishes(num: int, den: int, w: int, sticky: bool, t: int)
    requires
        den > 0,
        0 <= w < 0x1_0000_0000_0000_0000_0000_0000_0000_0000,
        t < -130,
        floors(num, den, w, sticky, t),
    ensures
        rounded(num, den) == 0,
{
    let k = pow2(1200) as int;
    let g = weight(t) as int;
    let c = pow2(128) as int;
    lemma2_to64();
    lemma_pow2_adds(64, 64);
    lemma_pow2_adds(128, (t + 1200) as nat);
    lemma_pow2_strictly_increases((t + 1328) as nat, 1199);
    lemma_pow2_unfold(1200);
    lemma_pow2_pos((t + 1200) as nat);
    assert(2 * num < den) by (nonlinear_arith)
        requires
            num * k - w * (g * den) < g * den,
            0 <= w < c,
            c * g < pow2(1199),
            k == 2 * pow2(1199),
            g > 0,
            den > 0,
    {
        assert((w + 1) * (g * den) <= c * (g * den));
        assert(c * (g * den) == (c * g) * den);
        assert((c * g) * den < pow2(1199) * den);
        assert(num * k < pow2(1199) * den);
        assert(num * k == (2 * num) * pow2(1199));
    }
    let halfway = scaled_magnitude(0) + scaled_magnitude(1);
    assert(halfway == 1);
    assert(halfway * den == den) by (nonlinear_arith)
        requires
            halfway == 1,
    ;
    lemma_rounded_unique(0, num, den);
}

/// The empty bracket is zero.
proof fn lemma_round_zero(num: int, den: int, t: int)
    requires
        den > 0,
        brackets(num, den, 0, false, false, t),
    ensures
        rounded(num, den) == 0,
{
    let unit = (weight(t) * den) as int;
    lemma_pow2_pos(1200);
    assert((2 * 0 + 0int) * unit == 0) by (nonlinear_arith);
    assert(num == 0) by (nonlinear_arith)
        requires
            2 * num * pow2(1200) == 0,
            pow2(1200) > 0,
    ;
    lemma_rounded_zero(den);
}

/// Rounds to the nearest binary64 magnitude a number cut off at place `t`:
/// `w` times two to the power `t`, or, with `sticky`, some number above it
/// and below `w + 1` times that power.
pub(crate) fn round_pack(
    w: u128,
    t: i32,
    sticky: bool,
    Ghost(num): Ghost<int>,
    Ghost(den): Ghost<int>,
) -> (m: u64)
    requires
        den > 0,
        -1200 <= t <= 4000,
        sticky ==> w >= 2 * FRACTION_RANGE,
        floors(num, den, w as int, sticky, t as int),
    ensures
        m == rounded(num, den),
        m <= INFINITY,
{
    if t < -130 {
        proof {
            lemma_round_vanishes(num, den, w as int, sticky, t as int);
        }
        return 0;
    }
    let mut w = w;
    let mut t = t;
    let mut half = false;
    let mut sticky = sticky;
    if sticky {
        proof {
            lemma_floors_halved(num, den, w as int, sticky, t as int);
        }
        half = w % 2 == 1;
        w = w / 2;
        t = t + 1;
    } else {
        proof {
            lemma_floors_exact(num, den, w as int, t as int);
        }
    }
    while t < 0
        invariant
            den > 0,
            -1200 <= t <= 4001,
            brackets(num, den, w as int, half, sticky, t as int),
            (half || sticky) ==> w >= FRACTION_RANGE || t <= 0,
        decreases -t,
    {
        proof {
            lemma_brackets_halved(num, den, w as int, half, sticky, t as int);
        }
        sticky = sticky || half;
        half = w % 2 == 1;
        w = w / 2;
        t = t + 1;
    }
    let ghost t1 = t;
    proof {
        lemma2_to64();
        assert(w * pow2(0) == w) by (nonlinear_arith)
            requires
                pow2(0) == 1,
        ;
    }
    while w >= 0x20_0000_0000_0000
        invariant
            den > 0,
            0 <= t1 <= t,
            t1 <= 4001,
            w * pow2((t - t1) as nat) <= u128::MAX,
            t - t1 <= 128,
            brackets(num, den, w as int, half, sticky, t as int),
            (half || sticky) ==> w >= FRACTION_RANGE || t <= 0,
        decreases w,
    {
        proof {
            lemma_brackets_halved(num, den, w as int, half, sticky, t as int);
            let k = (t - t1) as nat;
            lemma_pow2_unfold(k + 1);
            assert((w / 2) * (2 * pow2(k)) <= w * pow2(k)) by (nonlinear_arith)
                requires
                    w >= 0,
            ;
            if k >= 128 {
                lemma2_to64();
                lemma_pow2_adds(64, 64);
                if k > 128 {
                    lemma_pow2_strictly_increases(128, k);
                }
                assert(w * pow2(k) >= pow2(k)) by (nonlinear_arith)
                    requires
                        w >= 1,
                ;
            }
        }
        sticky = sticky || half;
        half = w % 2 == 1;
        w = w / 2;
        t = t + 1;
    }
    if w == 0 && !half && !sticky {
        proof {
            lemma_round_zero(num, den, t as int);
        }
        return 0;
    }
    while w < 0x10_0000_0000_0000 && t > 0
        invariant
            den > 0,
            0 <= t <= 4200,
            w < 0x20_0000_0000_0000,
            w > 0 || half || sticky,
            brackets(num, den, w as int, half, sticky, t as int),
            (half || sticky) ==> w >= FRACTION_RANGE || t <= 0,
        decreases t,
    {
        proof {
            lemma_brackets_doubled(num, den, w as int, t as int);
        }
        w = w * 2;
        t = t - 1;
    }
    if t >= 2046 {
        proof {
            lemma_round_overflow(num, den, w as int, half, sticky, t as int);
            lemma_rounded_unique(INFINITY, num, den);
        }
        return INFINITY;
    }
    proof {
        lemma_round_decision(num, den, w as int, half, sticky, t as int);
    }
    let m0: u64 = (t as u64) * FRACTION_RANGE + (w as u64);
    let m: u64 = if half && (sticky || w % 2 == 1) {
        m0 + 1
    } else {
        m0
    };
    proof {
        lemma_rounded_unique(m, num, den);
    }
    m
}

} // verus!
