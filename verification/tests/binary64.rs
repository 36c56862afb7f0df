use measurements::binary64::{abs, eq, is_nan, le, lt, INFINITY, SIGN_BIT};

fn values() -> Vec<f64> {
    vec![
        f64::NEG_INFINITY,
        -f64::MAX,
        -1e300,
        -4.0,
        -2.0,
        -1.0000000000000002,
        -1.0,
        -f64::MIN_POSITIVE,
        -f64::from_bits(0x000f_ffff_ffff_ffff),
        -5e-324,
        -0.0,
        0.0,
        5e-324,
        1e-320,
        f64::from_bits(0x000f_ffff_ffff_ffff),
        f64::MIN_POSITIVE,
        0.1,
        1.0,
        1.0000000000000002,
        2.0,
        4.0,
        1e300,
        f64::MAX,
        f64::INFINITY,
        f64::NAN,
        f64::from_bits(0x7ff0_0000_0000_0001),
        f64::from_bits(0xfff8_0000_0000_0000),
        f64::from_bits(0xffff_ffff_ffff_ffff),
    ]
}

#[test]
fn comparisons_agree_with_the_values() {
    for x in values() {
        for y in values() {
            let (a, b) = (x.to_bits(), y.to_bits());
            assert_eq!(eq(a, b), x == y, "{:e} == {:e}", x, y);
            assert_eq!(lt(a, b), x < y, "{:e} < {:e}", x, y);
            assert_eq!(le(a, b), x <= y, "{:e} <= {:e}", x, y);
        }
    }
}

#[test]
fn comparisons_agree_on_generated_values() {
    let mut state = 99u64;
    for _ in 0..200_000 {
        state = state.wrapping_mul(6364136223846793005).wrapping_add(1442695040888963407);
        let a = state ^ (state >> 29);
        state = state.wrapping_mul(6364136223846793005).wrapping_add(1442695040888963407);
        let b = if state & 3 == 0 { a ^ (state >> 61) } else { state ^ (state >> 31) };
        let (x, y) = (f64::from_bits(a), f64::from_bits(b));
        assert_eq!(eq(a, b), x == y, "{:#x} == {:#x}", a, b);
        assert_eq!(lt(a, b), x < y, "{:#x} < {:#x}", a, b);
        assert_eq!(le(a, b), x <= y, "{:#x} <= {:#x}", a, b);
    }
}

#[test]
fn abs_clears_the_sign() {
    for x in values() {
        assert_eq!(abs(x.to_bits()), x.abs().to_bits());
    }
    assert_eq!(abs(SIGN_BIT), 0);
    assert_eq!(abs(INFINITY + SIGN_BIT), INFINITY);
}

#[test]
fn is_nan_tells_nans() {
    for x in values() {
        assert_eq!(is_nan(x.to_bits()), x.is_nan());
    }
    assert!(!is_nan(INFINITY));
    assert!(is_nan(INFINITY + 1));
}
