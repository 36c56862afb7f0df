use measurements::charge::{
    Charge, EXA, FEMTO, GIGA, KILO, MEGA, MICRO, MILLI, NANO, ONE, PETA, PICO, SPEED_OF_LIGHT, TEN,
    TERA,
};
use measurements::measurement::Measurement;

fn coulombs(value: f64) -> Charge {
    Charge::from_coulombs(value.to_bits())
}

fn abcoulombs(value: f64) -> Charge {
    Charge::from_abcoulombs(value.to_bits())
}

fn statcoulombs(value: f64) -> Charge {
    Charge::from_statcoulombs(value.to_bits())
}

fn assert_almost_eq(a: f64, b: f64) {
    if !((a - b).abs() < 0.00001) {
        panic!("{} and {} differ by more than 0.00001", a, b);
    }
}

#[test]
fn as_coulombs() {
    let u = abcoulombs(1.234);
    assert_almost_eq(f64::from_bits(u.as_coulombs()), 12.340);
}

#[test]
fn as_abcoulombs() {
    let u = coulombs(10_000.0);
    assert_almost_eq(f64::from_bits(u.as_abcoulombs()), 1000.0);
}

#[test]
fn as_statcoulombs() {
    let u = coulombs(0.0002);
    assert_almost_eq(f64::from_bits(u.as_statcoulombs()), 599584.916);
}

#[test]
fn add() {
    let a = coulombs(20.0);
    let b = abcoulombs(4.0);
    let c = a + b;
    assert_almost_eq(f64::from_bits(c.as_coulombs()), 60.0);
}

#[test]
fn sub() {
    let a = abcoulombs(20.0);
    let b = coulombs(150.0);
    let c = a - b;
    assert_almost_eq(f64::from_bits(c.as_coulombs()), 50.0);
}

#[test]
fn mul() {
    let a = coulombs(10.0);
    let b = 4.0f64.to_bits() * a;
    assert_almost_eq(f64::from_bits(b.as_abcoulombs()), 4.0);
}

#[test]
fn div() {
    let a = abcoulombs(2.0);
    let b = coulombs(40.0);
    let c = a / b;
    let d = a / 2.0f64.to_bits();
    assert_almost_eq(f64::from_bits(c), 0.5);
    assert_almost_eq(f64::from_bits(d.as_coulombs()), 10.0);
}

#[test]
fn eq() {
    let a = coulombs(10.0);
    let b = abcoulombs(1.0);
    assert_eq!(a, b);
}

#[test]
fn neq() {
    let a = coulombs(2.0);
    let b = abcoulombs(2.0);
    assert_ne!(a, b);
}

#[test]
fn cmp() {
    let a = coulombs(2.0);
    let b = coulombs(4.0);
    assert_eq!(a < b, true);
    assert_eq!(a <= b, true);
    assert_eq!(a > b, false);
    assert_eq!(a >= b, false);
}

#[test]
fn constants_are_the_encodings_of_their_values() {
    assert_eq!(SPEED_OF_LIGHT, 299_792_458.0f64.to_bits());
    assert_eq!(TEN, 10.0f64.to_bits());
    assert_eq!(FEMTO, 1e-15f64.to_bits());
    assert_eq!(PICO, 1e-12f64.to_bits());
    assert_eq!(NANO, 1e-9f64.to_bits());
    assert_eq!(MICRO, 1e-6f64.to_bits());
    assert_eq!(MILLI, 1e-3f64.to_bits());
    assert_eq!(ONE, 1e0f64.to_bits());
    assert_eq!(KILO, 1e3f64.to_bits());
    assert_eq!(MEGA, 1e6f64.to_bits());
    assert_eq!(GIGA, 1e9f64.to_bits());
    assert_eq!(TERA, 1e12f64.to_bits());
    assert_eq!(PETA, 1e15f64.to_bits());
    assert_eq!(EXA, 1e18f64.to_bits());
}

#[test]
fn base_units_round_trip_exactly() {
    for bits in [
        0u64,
        0x8000_0000_0000_0000,
        1,
        72.0f64.to_bits(),
        (-1.5e-300f64).to_bits(),
        f64::MAX.to_bits(),
        f64::INFINITY.to_bits(),
        f64::NEG_INFINITY.to_bits(),
        0x7ff8_0000_0000_0001,
        0xfff0_0000_dead_beef,
    ] {
        assert_eq!(Charge::from_coulombs(bits).as_coulombs(), bits);
        assert_eq!(Charge::from_base_units(bits).as_base_units(), bits);
        assert_eq!(Charge::from_coulombs(bits).as_base_units(), bits);
    }
    assert_eq!(coulombs(72.0).get_base_units_name(), "C");
}

#[test]
fn conversions_are_the_rounded_products_and_quotients() {
    let values: [f64; 11] =
        [0.0, -0.0, 1.0, 1.234, -7.5e-9, 0.0002, 10_000.0, 3.3e200, 1e-320, f64::MAX, f64::INFINITY];
    for value in values {
        let factor = 10.0 * 299_792_458.0;
        assert_eq!(abcoulombs(value).as_coulombs(), (value * 10.0).to_bits());
        assert_eq!(coulombs(value).as_abcoulombs(), (value / 10.0).to_bits());
        assert_eq!(statcoulombs(value).as_coulombs(), (value / factor).to_bits());
        assert_eq!(coulombs(value).as_statcoulombs(), (value * factor).to_bits());
    }
    assert!(f64::from_bits(abcoulombs(f64::NAN).as_coulombs()).is_nan());
    assert!(f64::from_bits(coulombs(f64::NAN).as_statcoulombs()).is_nan());
}

#[test]
fn units_round_trip_within_tolerance() {
    let values: [f64; 8] = [1.0, 1.234, -7.5e-9, 0.0002, 10_000.0, 599584.916, 1e-12, -3.0e20];
    for value in values {
        let tolerance = value.abs() * 1e-12;
        let back = f64::from_bits(coulombs(value).as_coulombs());
        assert_eq!(back, value);
        let back = f64::from_bits(abcoulombs(value).as_abcoulombs());
        assert!((back - value).abs() <= tolerance, "{} came back as {}", value, back);
        let back = f64::from_bits(statcoulombs(value).as_statcoulombs());
        assert!((back - value).abs() <= tolerance, "{} came back as {}", value, back);
    }
}

#[test]
fn end_to_end_examples() {
    assert_almost_eq(f64::from_bits(coulombs(0.0002).as_statcoulombs()), 599584.916);
    assert_almost_eq(f64::from_bits(coulombs(10000.0).as_abcoulombs()), 1000.0);
    assert_almost_eq(f64::from_bits(abcoulombs(1.234).as_coulombs()), 12.340);
}

#[test]
fn arithmetic_identities_within_tolerance() {
    let pairs: [(f64, f64); 4] = [(20.0, 4.0), (1.5e-7, 2.25e3), (-3.75, 0.1), (1e10, -1e-10)];
    for (x, y) in pairs {
        let a = coulombs(x);
        let b = coulombs(y);
        let back = f64::from_bits((a + b - b).as_coulombs());
        assert!((back - x).abs() <= x.abs() * 1e-6 + y.abs() * 1e-15, "{} + {} - {} gave {}", x, y, y, back);
        let back = f64::from_bits((a * y.to_bits() / y.to_bits()).as_coulombs());
        assert!((back - x).abs() <= x.abs() * 1e-6, "{} * {} / {} gave {}", x, y, y, back);
    }
}

#[test]
fn scalar_multiplication_commutes() {
    let pairs: [(f64, f64); 5] =
        [(10.0, 4.0), (-2.5, 0.1), (1e300, 1e10), (0.0, -3.0), (f64::INFINITY, 2.0)];
    for (x, k) in pairs {
        let a = coulombs(x);
        assert_eq!(k.to_bits() * a, a * k.to_bits());
        assert_eq!((k.to_bits() * a).as_coulombs(), (a * k.to_bits()).as_coulombs());
        assert_eq!((a * k.to_bits()).as_coulombs(), (x * k).to_bits());
    }
    // A NaN product is the same encoding either way, though it equals nothing.
    let a = coulombs(f64::INFINITY);
    let zero = 0.0f64.to_bits();
    assert_eq!((zero * a).as_coulombs(), (a * zero).as_coulombs());
    assert!(zero * a != a * zero);
}

#[test]
fn division_of_quantities_is_the_ratio_of_values() {
    let pairs: [(f64, f64); 6] =
        [(2.0, 40.0), (1.0, 3.0), (-7.0, 0.5), (0.0, 5.0), (5.0, 0.0), (1e-320, 3.0)];
    for (x, y) in pairs {
        assert_eq!(coulombs(x) / coulombs(y), (x / y).to_bits());
        let r = f64::from_bits(abcoulombs(x) / abcoulombs(y));
        if (x / y).is_finite() {
            assert!((r - x / y).abs() <= (x / y).abs() * 1e-12);
        } else {
            assert_eq!(r, x / y);
        }
    }
    assert!(f64::from_bits(coulombs(0.0) / coulombs(0.0)).is_nan());
}

#[test]
fn equality_across_units() {
    assert_eq!(coulombs(10.0), abcoulombs(1.0));
    assert_eq!(coulombs(1.0), statcoulombs(2_997_924_580.0));
    assert_eq!(abcoulombs(0.5), statcoulombs(5.0 * 2_997_924_580.0));
    assert_eq!(coulombs(0.0), coulombs(-0.0));
    assert_ne!(coulombs(f64::NAN), coulombs(f64::NAN));
    assert_ne!(coulombs(1.0), coulombs(-1.0));
}

#[test]
fn ordering_follows_the_values() {
    let values = [f64::NEG_INFINITY, -4.0, -1e-310, -0.0, 0.0, 5e-324, 2.0, 4.0, 1e300, f64::INFINITY, f64::NAN];
    for x in values {
        for y in values {
            let (a, b) = (coulombs(x), coulombs(y));
            assert_eq!(a == b, x == y, "{} == {}", x, y);
            assert_eq!(a != b, x != y, "{} != {}", x, y);
            assert_eq!(a < b, x < y, "{} < {}", x, y);
            assert_eq!(a <= b, x <= y, "{} <= {}", x, y);
            assert_eq!(a > b, x > y, "{} > {}", x, y);
            assert_eq!(a >= b, x >= y, "{} >= {}", x, y);
            assert_eq!(a.partial_cmp(&b), x.partial_cmp(&y), "{} against {}", x, y);
        }
    }
}

fn scale_of(value: f64) -> (&'static str, f64) {
    let (symbol, multiplier) = coulombs(value).get_appropriate_units();
    (symbol, f64::from_bits(multiplier))
}

#[test]
fn scale_at_a_threshold_is_that_threshold() {
    let table = [
        ("fC", 1e-15),
        ("pC", 1e-12),
        ("nC", 1e-9),
        ("\u{00B5}C", 1e-6),
        ("mC", 1e-3),
        ("C", 1e0),
        ("kC", 1e3),
        ("MC", 1e6),
        ("GC", 1e9),
        ("TC", 1e12),
        ("PC", 1e15),
        ("EC", 1e18),
    ];
    for (symbol, multiplier) in table {
        assert_eq!(scale_of(multiplier), (symbol, multiplier));
        assert_eq!(scale_of(-multiplier), (symbol, multiplier));
    }
}

#[test]
fn scale_between_thresholds_is_the_lower_one() {
    assert_eq!(scale_of(1280.0), ("kC", 1e3));
    assert_eq!(scale_of(-1280.0), ("kC", 1e3));
    assert_eq!(scale_of(999.999), ("C", 1e0));
    assert_eq!(scale_of(0.5), ("mC", 1e-3));
    assert_eq!(scale_of(2.5e-7), ("nC", 1e-9));
    assert_eq!(scale_of(f64::from_bits(KILO - 1)), ("C", 1e0));
    assert_eq!(scale_of(f64::from_bits(KILO + 1)), ("kC", 1e3));
    assert_eq!(scale_of(9.99e17), ("PC", 1e15));
}

#[test]
fn scale_of_zero_and_of_small_values_is_the_smallest() {
    assert_eq!(scale_of(0.0), ("fC", 1e-15));
    assert_eq!(scale_of(-0.0), ("fC", 1e-15));
    assert_eq!(scale_of(1e-20), ("fC", 1e-15));
    assert_eq!(scale_of(5e-324), ("fC", 1e-15));
    assert_eq!(scale_of(f64::NAN), ("fC", 1e-15));
}

#[test]
fn scale_of_large_values_is_the_largest() {
    assert_eq!(scale_of(1e30), ("EC", 1e18));
    assert_eq!(scale_of(-4.2e19), ("EC", 1e18));
    assert_eq!(scale_of(f64::MAX), ("EC", 1e18));
    assert_eq!(scale_of(f64::INFINITY), ("EC", 1e18));
    assert_eq!(scale_of(f64::NEG_INFINITY), ("EC", 1e18));
}
