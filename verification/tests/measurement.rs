use measurements::charge::Charge;
use measurements::measurement::{
    equal, minus, over, partial_compare, pick_appropriate_units, plus, ratio, times,
};
use std::cmp::Ordering;

fn bits(value: f64) -> u64 {
    value.to_bits()
}

fn lengths() -> [(&'static str, u64); 3] {
    [("mm", bits(1e-3)), ("m", bits(1.0)), ("km", bits(1e3))]
}

#[test]
fn pick_takes_the_last_scale_that_fits() {
    let list = lengths();
    assert_eq!(pick_appropriate_units(bits(1.0), &list), ("m", bits(1.0)));
    assert_eq!(pick_appropriate_units(bits(999.0), &list), ("m", bits(1.0)));
    assert_eq!(pick_appropriate_units(bits(-999.0), &list), ("m", bits(1.0)));
    assert_eq!(pick_appropriate_units(bits(1000.0), &list), ("km", bits(1e3)));
    assert_eq!(pick_appropriate_units(bits(0.02), &list), ("mm", bits(1e-3)));
    assert_eq!(pick_appropriate_units(bits(4e9), &list), ("km", bits(1e3)));
}

#[test]
fn pick_falls_back_to_the_first_scale() {
    let list = lengths();
    assert_eq!(pick_appropriate_units(bits(0.0), &list), ("mm", bits(1e-3)));
    assert_eq!(pick_appropriate_units(bits(1e-9), &list), ("mm", bits(1e-3)));
    assert_eq!(pick_appropriate_units(bits(f64::NAN), &list), ("mm", bits(1e-3)));
}

#[test]
fn pick_on_a_single_scale() {
    let list = [("s", bits(1.0))];
    for value in [0.0, 0.5, 1.0, 7.0, -1e9, f64::INFINITY, f64::NAN] {
        assert_eq!(pick_appropriate_units(bits(value), &list), ("s", bits(1.0)));
    }
}

#[test]
fn pick_on_a_list_out_of_order_takes_the_last_that_fits() {
    let list = [("b", bits(100.0)), ("a", bits(1.0)), ("c", bits(1e6))];
    assert_eq!(pick_appropriate_units(bits(500.0), &list), ("a", bits(1.0)));
    assert_eq!(pick_appropriate_units(bits(0.5), &list), ("b", bits(100.0)));
    assert_eq!(pick_appropriate_units(bits(2e6), &list), ("c", bits(1e6)));
}

#[test]
fn pick_passes_over_a_nan_multiplier() {
    let list = [("x", bits(1.0)), ("nan", bits(f64::NAN)), ("y", bits(1e3))];
    assert_eq!(pick_appropriate_units(bits(5.0), &list), ("x", bits(1.0)));
    assert_eq!(pick_appropriate_units(bits(5e3), &list), ("y", bits(1e3)));
}

#[test]
fn generic_comparisons() {
    let a = Charge::from_coulombs(bits(2.0));
    let b = Charge::from_coulombs(bits(4.0));
    let n = Charge::from_coulombs(bits(f64::NAN));
    assert!(equal(&a, &a));
    assert!(!equal(&a, &b));
    assert!(!equal(&n, &n));
    assert_eq!(partial_compare(&a, &b), Some(Ordering::Less));
    assert_eq!(partial_compare(&b, &a), Some(Ordering::Greater));
    assert_eq!(partial_compare(&a, &a), Some(Ordering::Equal));
    assert_eq!(partial_compare(&a, &n), None);
    assert_eq!(
        partial_compare(&Charge::from_coulombs(bits(0.0)), &Charge::from_coulombs(bits(-0.0))),
        Some(Ordering::Equal)
    );
}

#[test]
fn generic_arithmetic() {
    let a = Charge::from_coulombs(bits(20.0));
    let b = Charge::from_coulombs(bits(40.0));
    assert_eq!(plus(&a, &b).as_coulombs(), bits(60.0));
    assert_eq!(minus(&a, &b).as_coulombs(), bits(-20.0));
    assert_eq!(times(&a, bits(0.25)).as_coulombs(), bits(5.0));
    assert_eq!(over(&a, bits(8.0)).as_coulombs(), bits(2.5));
    assert_eq!(ratio(&a, &b), bits(0.5));
    assert_eq!(over(&a, bits(3.0)).as_coulombs(), bits(20.0 / 3.0));
}
