//! What every kind of quantity has in common: the conversion to and from a
//! base unit, and the choice of a scale to display a value in.

use crate::arithmetic::{difference, product, quotient, sum};
use crate::binary64::{
    abs, encodes_nan, eq, le, lt, magnitude, scaled_value, value_eq, value_le, value_lt,
};
use std::cmp::Ordering;
use vstd::prelude::*;

verus! {

/// A kind of quantity: one value, held in a base unit as a binary64 encoding,
/// with the scales it may be displayed in.
pub trait Measurement: Sized {
    /// The encoding of the value in the base unit. A quantity is nothing but
    /// this number.
    spec fn base_units(&self) -> u64;

    /// The symbol of the base unit.
    spec fn base_units_name() -> &'static str;

    /// The display scales of this kind of quantity, symbol and multiplier,
    /// from the smallest multiplier to the largest.
    spec fn unit_scales() -> Seq<(&'static str, u64)>;

    /// Every kind of quantity has a scale to display it in.
    proof fn lemma_unit_scales_nonempty()
        ensures
            Self::unit_scales().len() > 0,
    ;

    /// The value in the base unit.
    fn as_base_units(&self) -> (units: u64)
        ensures
            units == self.base_units(),
    ;

    /// The quantity with the given value in the base unit. Every encoding is
    /// taken as it is, those of infinities and NaNs too.
    fn from_base_units(units: u64) -> (quantity: Self)
        ensures
            quantity.base_units() == units,
    ;

    /// The symbol of the base unit.
    fn get_base_units_name(&self) -> (name: &'static str)
        ensures
            name == Self::base_units_name(),
    ;

    /// The scale to display this quantity in: the last of `unit_scales` whose
    /// multiplier does not exceed the absolute value, or the first if there
    /// is none. A caller divides the value by the multiplier that comes back.
    fn get_appropriate_units(&self) -> (unit: (&'static str, u64))
        ensures
            unit == Self::unit_scales()[appropriate_index(self.base_units(), Self::unit_scales())],
    ;
}

/// How the values of two encodings compare: not at all with a NaN on either
/// side, else as the values they denote.
pub open spec fn value_ordering(a: u64, b: u64) -> Option<Ordering> {
    if encodes_nan(a) || encodes_nan(b) {
        None
    } else if scaled_value(a) < scaled_value(b) {
        Some(Ordering::Less)
    } else if scaled_value(a) == scaled_value(b) {
        Some(Ordering::Equal)
    } else {
        Some(Ordering::Greater)
    }
}

/// Tells whether two quantities of one kind have equal values.
pub fn equal<M: Measurement>(a: &M, b: &M) -> (r: bool)
    ensures
        r == value_eq(a.base_units(), b.base_units()),
{
    eq(a.as_base_units(), b.as_base_units())
}

/// Compares two quantities of one kind by their values.
pub fn partial_compare<M: Measurement>(a: &M, b: &M) -> (r: Option<Ordering>)
    ensures
        r == value_ordering(a.base_units(), b.base_units()),
{
    let x = a.as_base_units();
    let y = b.as_base_units();
    if lt(x, y) {
        Some(Ordering::Less)
    } else if eq(x, y) {
        Some(Ordering::Equal)
    } else if lt(y, x) {
        Some(Ordering::Greater)
    } else {
        None
    }
}

/// The sum of two quantities of one kind: their values are added.
pub fn plus<M: Measurement>(a: &M, b: &M) -> (r: M)
    ensures
        r.base_units() == sum(a.base_units(), b.base_units()),
{
    M::from_base_units(crate::arithmetic::add(a.as_base_units(), b.as_base_units()))
}

/// The difference of two quantities of one kind: the value of the second is
/// subtracted from that of the first.
pub fn minus<M: Measurement>(a: &M, b: &M) -> (r: M)
    ensures
        r.base_units() == difference(a.base_units(), b.base_units()),
{
    M::from_base_units(crate::arithmetic::sub(a.as_base_units(), b.as_base_units()))
}

/// A quantity scaled up: its value is multiplied by a factor, itself a
/// binary64 encoding.
pub fn times<M: Measurement>(a: &M, factor: u64) -> (r: M)
    ensures
        r.base_units() == product(a.base_units(), factor),
{
    M::from_base_units(crate::arithmetic::mul(a.as_base_units(), factor))
}

/// A quantity scaled down: its value is divided by a divisor, itself a
/// binary64 encoding.
pub fn over<M: Measurement>(a: &M, divisor: u64) -> (r: M)
    ensures
        r.base_units() == quotient(a.base_units(), divisor),
{
    M::from_base_units(crate::arithmetic::div(a.as_base_units(), divisor))
}

/// The ratio of two quantities of one kind, a plain number: the encoding of
/// the quotient of their values.
pub fn ratio<M: Measurement>(a: &M, b: &M) -> (r: u64)
    ensures
        r == quotient(a.base_units(), b.base_units()),
{
    crate::arithmetic::div(a.as_base_units(), b.as_base_units())
}

/// Whether a scale is not too coarse for a value: its multiplier does not
/// exceed the absolute value. No scale fits a NaN, and a NaN multiplier fits
/// nothing.
pub open spec fn scale_fits(value: u64, multiplier: u64) -> bool {
    value_le(multiplier, magnitude(value))
}

/// Whether `i` is the place of the scale to display `value` in: the last scale
/// of the list that fits, or the first scale where none fits.
pub open spec fn is_appropriate_index(
    value: u64,
    list: Seq<(&'static str, u64)>,
    i: int,
) -> bool {
    &&& 0 <= i < list.len()
    &&& forall|j: int| i < j < list.len() ==> !scale_fits(value, (#[trigger] list[j]).1)
    &&& (i == 0 || scale_fits(value, list[i].1))
}

/// The place of the scale to display `value` in, for a list that is not empty.
pub open spec fn appropriate_index(value: u64, list: Seq<(&'static str, u64)>) -> int {
    choose|i: int| is_appropriate_index(value, list, i)
}

/// At most one place is appropriate, so whatever place is found to be
/// appropriate is the one that `appropriate_index` names.
pub proof fn lemma_appropriate_index_unique(value: u64, list: Seq<(&'static str, u64)>, i: int)
    requires
        is_appropriate_index(value, list, i),
    ensures
        appropriate_index(value, list) == i,
{
    let c = appropriate_index(value, list);
    assert(is_appropriate_index(value, list, c));
    if c < i {
        assert(!scale_fits(value, list[i].1));
    } else if i < c {
        assert(!scale_fits(value, list[c].1));
    }
}

/// Selects the scale to display `value` in from `list`, which holds the
/// symbol and the multiplier of each scale and is meant to run from the
/// smallest multiplier to the largest: the last scale whose multiplier does
/// not exceed the absolute value, or the first scale if there is none.
pub fn pick_appropriate_units(value: u64, list: &[(&'static str, u64)]) -> (unit: (
    &'static str,
    u64,
))
    requires
        list@.len() > 0,
    ensures
        unit == list@[appropriate_index(value, list@)],
{
    let size = abs(value);
    let mut i: usize = list.len();
    while i > 0
        invariant
            i <= list@.len(),
            size == magnitude(value),
            forall|j: int| i <= j < list@.len() ==> !scale_fits(value, (#[trigger] list@[j]).1),
        decreases i,
    {
        i = i - 1;
        if le(list[i].1, size) {
            proof {
                lemma_appropriate_index_unique(value, list@, i as int);
            }
            return list[i];
        }
    }
    proof {
        lemma_appropriate_index_unique(value, list@, 0);
    }
    list[0]
}

/// Whether the multipliers of a list run from the smallest to the largest,
/// each below the next.
pub open spec fn ascending(list: Seq<(&'static str, u64)>) -> bool {
    forall|i: int, j: int|
        0 <= i < j < list.len() ==> value_lt((#[trigger] list[i]).1, (#[trigger] list[j]).1)
}

/// Some place is appropriate once no scale from `n` on fits.
proof fn lemma_appropriate_below(value: u64, list: Seq<(&'static str, u64)>, n: int)
    requires
        0 <= n <= list.len(),
        list.len() > 0,
        forall|j: int| n <= j < list.len() ==> !scale_fits(value, (#[trigger] list[j]).1),
    ensures
        is_appropriate_index(value, list, appropriate_index(value, list)),
    decreases n,
{
    if n == 0 {
        lemma_appropriate_index_unique(value, list, 0);
    } else if scale_fits(value, list[n - 1].1) {
        lemma_appropriate_index_unique(value, list, n - 1);
    } else {
        lemma_appropriate_below(value, list, n - 1);
    }
}

/// In every list that is not empty some place is appropriate.
pub proof fn lemma_appropriate_index_exists(value: u64, list: Seq<(&'static str, u64)>)
    requires
        list.len() > 0,
    ensures
        is_appropriate_index(value, list, appropriate_index(value, list)),
{
    lemma_appropriate_below(value, list, list.len() as int);
}

/// A value that reaches the multiplier at place `k` of an ascending list and
/// stays below the next one is displayed in the scale at `k`: between two
/// thresholds the lower one is chosen.
pub proof fn lemma_between_thresholds(value: u64, list: Seq<(&'static str, u64)>, k: int)
    requires
        ascending(list),
        0 <= k < list.len(),
        scale_fits(value, list[k].1),
        k + 1 < list.len() ==> !scale_fits(value, list[k + 1].1),
    ensures
        appropriate_index(value, list) == k,
{
    assert forall|j: int| k < j < list.len() implies !scale_fits(value, (#[trigger] list[j]).1) by {
        if k + 1 < j {
            assert(value_lt(list[k + 1].1, list[j].1));
        }
    }
    lemma_appropriate_index_unique(value, list, k);
}

/// A value whose magnitude is exactly the multiplier at place `k` of an
/// ascending list is displayed in the scale at `k`.
pub proof fn lemma_at_threshold(value: u64, list: Seq<(&'static str, u64)>, k: int)
    requires
        ascending(list),
        0 <= k < list.len(),
        value_eq(magnitude(value), list[k].1),
    ensures
        appropriate_index(value, list) == k,
{
    if k + 1 < list.len() {
        assert(value_lt(list[k].1, list[k + 1].1));
    }
    lemma_between_thresholds(value, list, k);
}

/// A value whose magnitude stays below every multiplier, or is a NaN, is
/// displayed in the first scale.
pub proof fn lemma_below_all_thresholds(value: u64, list: Seq<(&'static str, u64)>)
    requires
        list.len() > 0,
        forall|j: int| 0 <= j < list.len() ==> !scale_fits(value, (#[trigger] list[j]).1),
    ensures
        appropriate_index(value, list) == 0,
{
    lemma_appropriate_index_unique(value, list, 0);
}

/// Zero, of either sign, is displayed in the first scale of an ascending
/// list of positive multipliers.
pub proof fn lemma_zero_takes_first(value: u64, list: Seq<(&'static str, u64)>)
    requires
        ascending(list),
        list.len() > 0,
        value_lt(0, list[0].1),
        magnitude(value) == 0,
    ensures
        appropriate_index(value, list) == 0,
{
    assert forall|j: int| 0 <= j < list.len() implies !scale_fits(value, (#[trigger] list[j]).1) by {
        if 0 < j {
            assert(value_lt(list[0].1, list[j].1));
        }
    }
    lemma_below_all_thresholds(value, list);
}

/// A value whose magnitude reaches the last multiplier is displayed in the
/// last scale.
pub proof fn lemma_above_largest(value: u64, list: Seq<(&'static str, u64)>)
    requires
        list.len() > 0,
        scale_fits(value, list[list.len() - 1].1),
    ensures
        appropriate_index(value, list) == list.len() - 1,
{
    lemma_appropriate_index_unique(value, list, list.len() - 1);
}

} // verus!
