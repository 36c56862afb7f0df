//! Electrical charge, held in coulombs.

use crate::arithmetic::{
    difference, encodes_normal, lemma_product_by_integer, lemma_product_quotient_returns,
    lemma_quotient_by_integer, lemma_quotient_product_returns, product, quotient, sum,
};
use crate::binary64::{
    denotes_integer, distance, encodes_finite, encodes_nan, lemma_denotes_integer,
    lemma_denotes_large_integer, lemma_encoding_order, magnitude, scaled_magnitude, scaled_value,
    sign_negative, value_eq, value_lt, INFINITY,
};
use crate::measurement::{
    ascending, equal, minus, over, partial_compare, pick_appropriate_units, plus, ratio, times,
    value_ordering, Measurement,
};
use crate::rounding::{
    lemma_rounded_exact, lemma_rounded_inverse, lemma_rounded_scales, rounded,
};
use std::cmp::Ordering;
use std::ops::{Add, Div, Mul, Sub};
use vstd::arithmetic::power2::{
    lemma2_to64, lemma2_to64_rest, lemma_pow2_adds, lemma_pow2_pos, pow2,
};
use vstd::prelude::*;
use vstd::std_specs::cmp::PartialEqSpec;
use vstd::std_specs::ops::{DivSpec, MulSpec};

verus! {

/// The speed of light in metres per second, 299 792 458, which ties the
/// electrostatic unit of charge to the coulomb.
pub const SPEED_OF_LIGHT: u64 = 0x41b1_de78_4a00_0000;

/// The number 10: the coulombs in one abcoulomb, and, with the speed of
/// light, the statcoulombs in one coulomb.
pub const TEN: u64 = 0x4024_0000_0000_0000;

/// The number of statcoulombs in one coulomb: ten times the speed of light.
pub open spec fn statcoulombs_per_coulomb() -> u64 {
    product(TEN, SPEED_OF_LIGHT)
}

/// The multiplier of the femtocoulomb, the binary64 value nearest to 1e-15.
pub const FEMTO: u64 = 0x3cd2_03af_9ee7_5616;

/// The multiplier of the picocoulomb, the binary64 value nearest to 1e-12.
pub const PICO: u64 = 0x3d71_9799_812d_ea11;

/// The multiplier of the nanocoulomb, the binary64 value nearest to 1e-9.
pub const NANO: u64 = 0x3e11_2e0b_e826_d695;

/// The multiplier of the microcoulomb, the binary64 value nearest to 1e-6.
pub const MICRO: u64 = 0x3eb0_c6f7_a0b5_ed8d;

/// The multiplier of the millicoulomb, the binary64 value nearest to 1e-3.
pub const MILLI: u64 = 0x3f50_624d_d2f1_a9fc;

/// The multiplier of the coulomb: 1.
pub const ONE: u64 = 0x3ff0_0000_0000_0000;

/// The multiplier of the kilocoulomb: 1e3.
pub const KILO: u64 = 0x408f_4000_0000_0000;

/// The multiplier of the megacoulomb: 1e6.
pub const MEGA: u64 = 0x412e_8480_0000_0000;

/// The multiplier of the gigacoulomb: 1e9.
pub const GIGA: u64 = 0x41cd_cd65_0000_0000;

/// The multiplier of the teracoulomb: 1e12.
pub const TERA: u64 = 0x426d_1a94_a200_0000;

/// The multiplier of the petacoulomb: 1e15.
pub const PETA: u64 = 0x430c_6bf5_2634_0000;

/// The multiplier of the exacoulomb: 1e18.
pub const EXA: u64 = 0x43ab_c16d_674e_c800;

/// The scales a charge may be displayed in, from the smallest to the largest.
pub open spec fn charge_scales() -> Seq<(&'static str, u64)> {
    seq![
        ("fC", FEMTO),
        ("pC", PICO),
        ("nC", NANO),
        ("\u{00B5}C", MICRO),
        ("mC", MILLI),
        ("C", ONE),
        ("kC", KILO),
        ("MC", MEGA),
        ("GC", GIGA),
        ("TC", TERA),
        ("PC", PETA),
        ("EC", EXA),
    ]
}

/// The scales of a charge are positive and ascending, so the laws of scale
/// selection hold of every charge.
pub proof fn lemma_charge_scales_ascending()
    ensures
        ascending(charge_scales()),
        value_lt(0, charge_scales()[0].1),
{
    assert forall|a: u64, b: u64| a < b <= INFINITY implies value_lt(a, b) by {
        lemma_encoding_order(a, b);
    }
}

/// What the multipliers of the scales denote: the whole powers of ten
/// exactly, and the inverse powers of ten rounded to the nearest binary64
/// value.
pub proof fn lemma_charge_multipliers()
    ensures
        FEMTO == rounded(pow2(1074) as int, 1_000_000_000_000_000),
        PICO == rounded(pow2(1074) as int, 1_000_000_000_000),
        NANO == rounded(pow2(1074) as int, 1_000_000_000),
        MICRO == rounded(pow2(1074) as int, 1_000_000),
        MILLI == rounded(pow2(1074) as int, 1_000),
        denotes_integer(ONE, 1),
        denotes_integer(KILO, 1_000),
        denotes_integer(MEGA, 1_000_000),
        denotes_integer(GIGA, 1_000_000_000),
        denotes_integer(TERA, 1_000_000_000_000),
        denotes_integer(PETA, 1_000_000_000_000_000),
        denotes_integer(EXA, 1_000_000_000_000_000_000),
{
    lemma2_to64();
    lemma2_to64_rest();
    lemma_pow2_adds(51, 51);
    lemma_pow2_adds(46, 46);
    lemma_pow2_adds(41, 41);
    lemma_pow2_adds(36, 36);
    lemma_rounded_inverse(FEMTO, 1_000_000_000_000_000, 102);
    lemma_rounded_inverse(PICO, 1_000_000_000_000, 92);
    lemma_rounded_inverse(NANO, 1_000_000_000, 82);
    lemma_rounded_inverse(MICRO, 1_000_000, 72);
    lemma_rounded_inverse(MILLI, 1_000, 62);
    lemma_denotes_integer(ONE, 1, 52);
    lemma_denotes_integer(KILO, 1_000, 43);
    lemma_denotes_integer(MEGA, 1_000_000, 33);
    lemma_denotes_integer(GIGA, 1_000_000_000, 23);
    lemma_denotes_integer(TERA, 1_000_000_000_000, 13);
    lemma_denotes_integer(PETA, 1_000_000_000_000_000, 3);
    lemma_denotes_large_integer(EXA, 1_000_000_000_000_000_000, 7);
}

/// The factors between the units are whole numbers, denoted exactly: 10
/// coulombs to the abcoulomb, 299 792 458 for the speed of light, and
/// 2 997 924 580 statcoulombs to the coulomb.
pub proof fn lemma_unit_factors()
    ensures
        denotes_integer(TEN, 10),
        denotes_integer(SPEED_OF_LIGHT, 299_792_458),
        statcoulombs_per_coulomb() == 0x41e6_5616_5c80_0000,
        denotes_integer(statcoulombs_per_coulomb(), 2_997_924_580),
{
    let f: u64 = 0x41e6_5616_5c80_0000;
    let p = pow2(1074) as int;
    lemma2_to64();
    lemma2_to64_rest();
    lemma_pow2_pos(1074);
    lemma_denotes_integer(TEN, 10, 49);
    lemma_denotes_integer(SPEED_OF_LIGHT, 299_792_458, 24);
    lemma_denotes_integer(f, 2_997_924_580, 21);
    assert((10 * p) * (299_792_458 * p) == (2_997_924_580 * p) * p) by (nonlinear_arith);
    lemma_rounded_exact(
        f,
        (scaled_magnitude(TEN) * scaled_magnitude(SPEED_OF_LIGHT)) as int,
        p,
    );
}

/// An electrical charge. It holds the binary64 encoding of its value in
/// coulombs and nothing else.
#[derive(Copy, Clone, Debug)]
pub struct Charge {
    coulombs: u64,
}

impl Charge {
    /// The charge whose value in coulombs has the given encoding.
    pub closed spec fn of_coulombs(coulombs: u64) -> Charge {
        Charge { coulombs }
    }

    /// A charge is what its value in coulombs is.
    pub proof fn lemma_of_coulombs(self, coulombs: u64)
        ensures
            Charge::of_coulombs(coulombs).base_units() == coulombs,
            Charge::of_coulombs(self.base_units()) == self,
    {
    }

    /// The charge of the given number of coulombs.
    pub fn from_coulombs(coulombs: u64) -> (charge: Self)
        ensures
            charge == Charge::of_coulombs(coulombs),
            charge.base_units() == coulombs,
    {
        Charge { coulombs }
    }

    /// The charge of the given number of abcoulombs: ten coulombs each.
    pub fn from_abcoulombs(abcoulombs: u64) -> (charge: Self)
        ensures
            charge.base_units() == product(abcoulombs, TEN),
    {
        Self::from_coulombs(crate::arithmetic::mul(abcoulombs, TEN))
    }

    /// The charge of the given number of statcoulombs, of which a coulomb
    /// holds ten times the speed of light.
    pub fn from_statcoulombs(statcoulombs: u64) -> (charge: Self)
        ensures
            charge.base_units() == quotient(statcoulombs, statcoulombs_per_coulomb()),
    {
        Self::from_coulombs(
            crate::arithmetic::div(
                statcoulombs,
                crate::arithmetic::mul(TEN, SPEED_OF_LIGHT),
            ),
        )
    }

    /// The number of coulombs of this charge.
    pub fn as_coulombs(&self) -> (coulombs: u64)
        ensures
            coulombs == self.base_units(),
    {
        self.coulombs
    }

    /// The number of abcoulombs of this charge.
    pub fn as_abcoulombs(&self) -> (abcoulombs: u64)
        ensures
            abcoulombs == quotient(self.base_units(), TEN),
    {
        crate::arithmetic::div(self.coulombs, TEN)
    }

    /// The number of statcoulombs of this charge.
    pub fn as_statcoulombs(&self) -> (statcoulombs: u64)
        ensures
            statcoulombs == product(self.base_units(), statcoulombs_per_coulomb()),
    {
        crate::arithmetic::mul(self.coulombs, crate::arithmetic::mul(TEN, SPEED_OF_LIGHT))
    }
}

impl Measurement for Charge {
    closed spec fn base_units(&self) -> u64 {
        self.coulombs
    }

    open spec fn base_units_name() -> &'static str {
        "C"
    }

    open spec fn unit_scales() -> Seq<(&'static str, u64)> {
        charge_scales()
    }

    proof fn lemma_unit_scales_nonempty() {
    }

    fn as_base_units(&self) -> (units: u64) {
        self.coulombs
    }

    fn from_base_units(units: u64) -> (quantity: Self) {
        Self::from_coulombs(units)
    }

    fn get_base_units_name(&self) -> (name: &'static str) {
        "C"
    }

    fn get_appropriate_units(&self) -> (unit: (&'static str, u64)) {
        let list = [
            ("fC", FEMTO),
            ("pC", PICO),
            ("nC", NANO),
            ("\u{00B5}C", MICRO),
            ("mC", MILLI),
            ("C", ONE),
            ("kC", KILO),
            ("MC", MEGA),
            ("GC", GIGA),
            ("TC", TERA),
            ("PC", PETA),
            ("EC", EXA),
        ];
        assert(list@ =~= charge_scales());
        pick_appropriate_units(self.coulombs, list.as_slice())
    }
}

impl PartialEq for Charge {
    /// Two charges are equal when their values in coulombs are: the two
    /// zeros are equal, and a NaN equals nothing.
    fn eq(&self, other: &Self) -> (r: bool) {
        equal(self, other)
    }
}

impl vstd::std_specs::cmp::PartialEqSpecImpl for Charge {
    open spec fn obeys_eq_spec() -> bool {
        true
    }

    open spec fn eq_spec(&self, other: &Self) -> bool {
        value_eq(self.base_units(), other.base_units())
    }
}

impl PartialOrd for Charge {
    /// Charges are ordered as their values in coulombs are; a NaN is not
    /// ordered with anything.
    fn partial_cmp(&self, other: &Self) -> (r: Option<Ordering>) {
        partial_compare(self, other)
    }
}

impl vstd::std_specs::cmp::PartialOrdSpecImpl for Charge {
    open spec fn obeys_partial_cmp_spec() -> bool {
        true
    }

    open spec fn partial_cmp_spec(&self, other: &Self) -> Option<Ordering> {
        value_ordering(self.base_units(), other.base_units())
    }
}

impl Add for Charge {
    type Output = Charge;

    /// Adds the values of two charges.
    fn add(self, rhs: Charge) -> (r: Charge)
        ensures
            r.base_units() == sum(self.base_units(), rhs.base_units()),
    {
        plus(&self, &rhs)
    }
}

impl vstd::std_specs::ops::AddSpecImpl for Charge {
    open spec fn obeys_add_spec() -> bool {
        true
    }

    open spec fn add_req(self, rhs: Charge) -> bool {
        true
    }

    open spec fn add_spec(self, rhs: Charge) -> Charge {
        Charge::of_coulombs(sum(self.base_units(), rhs.base_units()))
    }
}

impl Sub for Charge {
    type Output = Charge;

    /// Subtracts the value of one charge from that of another.
    fn sub(self, rhs: Charge) -> (r: Charge)
        ensures
            r.base_units() == difference(self.base_units(), rhs.base_units()),
    {
        minus(&self, &rhs)
    }
}

impl vstd::std_specs::ops::SubSpecImpl for Charge {
    open spec fn obeys_sub_spec() -> bool {
        true
    }

    open spec fn sub_req(self, rhs: Charge) -> bool {
        true
    }

    open spec fn sub_spec(self, rhs: Charge) -> Charge {
        Charge::of_coulombs(difference(self.base_units(), rhs.base_units()))
    }
}

impl Mul<u64> for Charge {
    type Output = Charge;

    /// Multiplies the value of a charge by a factor, a binary64 encoding.
    fn mul(self, rhs: u64) -> (r: Charge)
        ensures
            r.base_units() == product(self.base_units(), rhs),
    {
        times(&self, rhs)
    }
}

impl vstd::std_specs::ops::MulSpecImpl<u64> for Charge {
    open spec fn obeys_mul_spec() -> bool {
        true
    }

    open spec fn mul_req(self, rhs: u64) -> bool {
        true
    }

    open spec fn mul_spec(self, rhs: u64) -> Charge {
        Charge::of_coulombs(product(self.base_units(), rhs))
    }
}

impl Mul<Charge> for u64 {
    type Output = Charge;

    /// Multiplies the value of a charge by a factor, a binary64 encoding,
    /// written before the charge.
    fn mul(self, rhs: Charge) -> (r: Charge)
        ensures
            r.base_units() == product(rhs.base_units(), self),
    {
        times(&rhs, self)
    }
}

impl vstd::std_specs::ops::MulSpecImpl<Charge> for u64 {
    open spec fn obeys_mul_spec() -> bool {
        true
    }

    open spec fn mul_req(self, rhs: Charge) -> bool {
        true
    }

    open spec fn mul_spec(self, rhs: Charge) -> Charge {
        Charge::of_coulombs(product(rhs.base_units(), self))
    }
}

impl Div<u64> for Charge {
    type Output = Charge;

    /// Divides the value of a charge by a divisor, a binary64 encoding.
    fn div(self, rhs: u64) -> (r: Charge)
        ensures
            r.base_units() == quotient(self.base_units(), rhs),
    {
        over(&self, rhs)
    }
}

impl vstd::std_specs::ops::DivSpecImpl<u64> for Charge {
    open spec fn obeys_div_spec() -> bool {
        true
    }

    open spec fn div_req(self, rhs: u64) -> bool {
        true
    }

    open spec fn div_spec(self, rhs: u64) -> Charge {
        Charge::of_coulombs(quotient(self.base_units(), rhs))
    }
}

impl Div<Charge> for Charge {
    type Output = u64;

    /// Divides one charge by another. What comes back is no charge but a
    /// plain number, as a binary64 encoding.
    fn div(self, rhs: Charge) -> (r: u64) {
        ratio(&self, &rhs)
    }
}

impl vstd::std_specs::ops::DivSpecImpl<Charge> for Charge {
    open spec fn obeys_div_spec() -> bool {
        true
    }

    open spec fn div_req(self, rhs: Charge) -> bool {
        true
    }

    open spec fn div_spec(self, rhs: Charge) -> u64 {
        quotient(self.base_units(), rhs.base_units())
    }
}

/// A factor may be written before a charge or after it: the product is the
/// same charge. The two compare equal unless the product is a NaN, which
/// equals nothing.
pub proof fn lemma_scalar_multiplication_commutes(a: Charge, k: u64)
    ensures
        k.mul_spec(a) == a.mul_spec(k),
        k.mul_spec(a).eq_spec(&a.mul_spec(k)) <==> !encodes_nan(product(a.base_units(), k)),
{
}

/// The ratio of two charges given in coulombs is the quotient of the two
/// numbers of coulombs.
pub proof fn lemma_ratio_of_coulombs(x: u64, y: u64)
    ensures
        Charge::of_coulombs(x).div_spec(Charge::of_coulombs(y)) == quotient(x, y),
{
}

/// A number of abcoulombs made into a charge and read as abcoulombs again
/// comes back with its sign and within its part in two to the power 50,
/// where the number of coulombs between and the number that comes back are
/// normal.
pub proof fn lemma_abcoulombs_return(x: u64)
    requires
        !encodes_nan(x),
        encodes_normal(product(x, TEN)),
        encodes_normal(quotient(product(x, TEN), TEN)),
    ensures
        sign_negative(quotient(product(x, TEN), TEN)) == sign_negative(x),
        distance(
            scaled_magnitude(quotient(product(x, TEN), TEN)) as int,
            scaled_magnitude(x) as int,
        ) * 0x4_0000_0000_0000 <= scaled_magnitude(x),
{
    lemma_product_quotient_returns(x, TEN);
}

/// A number of statcoulombs made into a charge and read as statcoulombs
/// again comes back with its sign and within its part in two to the power
/// 50, where the number of coulombs between and the number that comes back
/// are normal.
pub proof fn lemma_statcoulombs_return(x: u64)
    requires
        !encodes_nan(x),
        encodes_normal(quotient(x, statcoulombs_per_coulomb())),
        encodes_normal(
            product(quotient(x, statcoulombs_per_coulomb()), statcoulombs_per_coulomb()),
        ),
    ensures
        sign_negative(
            product(quotient(x, statcoulombs_per_coulomb()), statcoulombs_per_coulomb()),
        ) == sign_negative(x),
        distance(
            scaled_magnitude(
                product(quotient(x, statcoulombs_per_coulomb()), statcoulombs_per_coulomb()),
            ) as int,
            scaled_magnitude(x) as int,
        ) * 0x4_0000_0000_0000 <= scaled_magnitude(x),
{
    lemma_unit_factors();
    lemma_quotient_product_returns(x, statcoulombs_per_coulomb());
}

/// The same charge given in abcoulombs and in coulombs is equal: where the
/// number of coulombs is ten times the number of abcoulombs, the two charges
/// made of them have the same value.
pub proof fn lemma_abcoulombs_equal_coulombs(abcoulombs: u64, coulombs: u64)
    requires
        encodes_finite(abcoulombs),
        encodes_finite(coulombs),
        scaled_value(coulombs) == 10 * scaled_value(abcoulombs),
    ensures
        value_eq(product(abcoulombs, TEN), coulombs),
{
    let s = scaled_magnitude(abcoulombs) as int;
    lemma_unit_factors();
    lemma_product_by_integer(abcoulombs, TEN, 10);
    assert(s * 10 == scaled_magnitude(magnitude(coulombs)) * 1);
    lemma_rounded_exact(magnitude(coulombs), s * 10, 1);
}

/// The same charge given in statcoulombs and in coulombs is equal: where
/// the number of statcoulombs is 2 997 924 580 times the number of coulombs,
/// the two charges made of them have the same value.
pub proof fn lemma_statcoulombs_equal_coulombs(statcoulombs: u64, coulombs: u64)
    requires
        encodes_finite(statcoulombs),
        encodes_finite(coulombs),
        scaled_value(statcoulombs) == 2_997_924_580 * scaled_value(coulombs),
    ensures
        value_eq(quotient(statcoulombs, statcoulombs_per_coulomb()), coulombs),
{
    let s = scaled_magnitude(coulombs) as int;
    lemma_unit_factors();
    lemma_quotient_by_integer(statcoulombs, statcoulombs_per_coulomb(), 2_997_924_580);
    assert(scaled_magnitude(statcoulombs) == s * 2_997_924_580);
    lemma_rounded_scales(s, 1, 2_997_924_580);
    assert(s == scaled_magnitude(magnitude(coulombs)) * 1);
    lemma_rounded_exact(magnitude(coulombs), s, 1);
    assert(1 * 2_997_924_580 == 2_997_924_580);
}

} // verus!
