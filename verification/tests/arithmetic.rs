use measurements::arithmetic::{add, div, mul, neg, sub, NAN};

/// A small generator of bit patterns: a 64-bit linear congruential step
/// followed by a mix, so that every exponent and both signs turn up.
fn next(state: &mut u64) -> u64 {
    *state = state.wrapping_mul(6364136223846793005).wrapping_add(1442695040888963407);
    let mut x = *state;
    x ^= x >> 33;
    x = x.wrapping_mul(0xff51afd7ed558ccd);
    x ^= x >> 33;
    x
}

fn special_values() -> Vec<f64> {
    vec![
        0.0,
        -0.0,
        1.0,
        -1.0,
        1.5,
        2.0,
        3.0,
        10.0,
        0.1,
        1e-3,
        1e15,
        1e-15,
        299_792_458.0,
        2_997_924_580.0,
        f64::MIN_POSITIVE,
        -f64::MIN_POSITIVE,
        f64::from_bits(1),
        f64::from_bits(2),
        f64::from_bits(3),
        -f64::from_bits(1),
        f64::from_bits(0x000f_ffff_ffff_ffff),
        f64::from_bits(0x0010_0000_0000_0001),
        f64::MAX,
        -f64::MAX,
        f64::MAX / 2.0,
        f64::EPSILON,
        1.0 + f64::EPSILON,
        1.0 - f64::EPSILON / 2.0,
        f64::INFINITY,
        f64::NEG_INFINITY,
        f64::NAN,
        9007199254740993.0,
        4503599627370497.0,
        1.3407807929942597e154,
        1.4916681462400413e-154,
        2.2250738585072009e-308,
    ]
}

fn same(expected: f64, got: u64) -> bool {
    if expected.is_nan() {
        got == NAN
    } else {
        expected.to_bits() == got
    }
}

#[test]
fn mul_agrees_on_special_values() {
    let values = special_values();
    for a in values.iter() {
        for b in values.iter() {
            let got = mul(a.to_bits(), b.to_bits());
            assert!(same(a * b, got), "{:e} * {:e}: {:#x} against {:#x}", a, b, got, (a * b).to_bits());
        }
    }
}

#[test]
fn mul_agrees_on_generated_values() {
    let mut state = 1u64;
    for _ in 0..200_000 {
        let a = next(&mut state);
        let b = next(&mut state);
        let expected = f64::from_bits(a) * f64::from_bits(b);
        let got = mul(a, b);
        assert!(same(expected, got), "{:#x} * {:#x}: {:#x} against {:#x}", a, b, got, expected.to_bits());
    }
}

#[test]
fn mul_agrees_near_the_ends_of_the_range() {
    let mut state = 7u64;
    for _ in 0..100_000 {
        let a = next(&mut state);
        let b = next(&mut state);
        // Exponents chosen so that products fall around the subnormal range
        // and around the overflow threshold.
        let small = (a & 0x800f_ffff_ffff_ffff) | ((0x3ff - 520 + (a >> 60)) << 52);
        let small2 = (b & 0x800f_ffff_ffff_ffff) | ((0x3ff - 520 + (b >> 60)) << 52);
        let large = (a & 0x800f_ffff_ffff_ffff) | ((0x3ff + 505 + (a >> 60)) << 52);
        let large2 = (b & 0x800f_ffff_ffff_ffff) | ((0x3ff + 505 + (b >> 60)) << 52);
        for (x, y) in [(small, small2), (large, large2), (small, b & 0x800f_ffff_ffff_ffff)] {
            let expected = f64::from_bits(x) * f64::from_bits(y);
            let got = mul(x, y);
            assert!(same(expected, got), "{:#x} * {:#x}: {:#x} against {:#x}", x, y, got, expected.to_bits());
        }
    }
}

#[test]
fn div_agrees_on_special_values() {
    let values = special_values();
    for a in values.iter() {
        for b in values.iter() {
            let got = div(a.to_bits(), b.to_bits());
            assert!(same(a / b, got), "{:e} / {:e}: {:#x} against {:#x}", a, b, got, (a / b).to_bits());
        }
    }
}

#[test]
fn div_agrees_on_generated_values() {
    let mut state = 2u64;
    for _ in 0..200_000 {
        let a = next(&mut state);
        let b = next(&mut state);
        let expected = f64::from_bits(a) / f64::from_bits(b);
        let got = div(a, b);
        assert!(same(expected, got), "{:#x} / {:#x}: {:#x} against {:#x}", a, b, got, expected.to_bits());
    }
}

#[test]
fn div_agrees_near_the_ends_of_the_range() {
    let mut state = 11u64;
    for _ in 0..100_000 {
        let a = next(&mut state);
        let b = next(&mut state);
        let fraction = 0x800f_ffff_ffff_ffff;
        // Quotients around the subnormal range, around the overflow
        // threshold, and of subnormal operands.
        let low = (a & fraction) | ((0x3ff - 520 + (a >> 60)) << 52);
        let high = (b & fraction) | ((0x3ff + 505 + (b >> 60)) << 52);
        let near = (b & fraction) | ((0x3ff - 525 + (b >> 60)) << 52);
        for (x, y) in [(low, high), (high, low), (a & fraction, near), (near, a & fraction), (a & fraction, b & fraction)] {
            let expected = f64::from_bits(x) / f64::from_bits(y);
            let got = div(x, y);
            assert!(same(expected, got), "{:#x} / {:#x}: {:#x} against {:#x}", x, y, got, expected.to_bits());
        }
    }
}

#[test]
fn add_and_sub_agree_on_special_values() {
    let values = special_values();
    for a in values.iter() {
        for b in values.iter() {
            let got = add(a.to_bits(), b.to_bits());
            assert!(same(a + b, got), "{:e} + {:e}: {:#x} against {:#x}", a, b, got, (a + b).to_bits());
            let got = sub(a.to_bits(), b.to_bits());
            assert!(same(a - b, got), "{:e} - {:e}: {:#x} against {:#x}", a, b, got, (a - b).to_bits());
        }
    }
}

#[test]
fn add_and_sub_agree_on_generated_values() {
    let mut state = 3u64;
    for _ in 0..200_000 {
        let a = next(&mut state);
        let b = next(&mut state);
        let (x, y) = (f64::from_bits(a), f64::from_bits(b));
        assert!(same(x + y, add(a, b)), "{:#x} + {:#x}", a, b);
        assert!(same(x - y, sub(a, b)), "{:#x} - {:#x}", a, b);
    }
}

#[test]
fn add_and_sub_agree_on_values_of_nearby_size() {
    let mut state = 5u64;
    for _ in 0..200_000 {
        let a = next(&mut state);
        let step = next(&mut state);
        // The second term has an exponent within 70 of the first, so that
        // digits are lost, carried and cancelled in every way.
        let exponent = (a >> 52) & 0x7ff;
        let offset = step % 141;
        let other = (exponent + offset).saturating_sub(70).min(0x7fe);
        let b = (step & 0x800f_ffff_ffff_ffff) | (other << 52);
        let (x, y) = (f64::from_bits(a), f64::from_bits(b));
        assert!(same(x + y, add(a, b)), "{:#x} + {:#x}", a, b);
        assert!(same(x - y, sub(a, b)), "{:#x} - {:#x}", a, b);
        // Nearly equal terms.
        let c = a ^ (step & 0x7);
        let z = f64::from_bits(c);
        assert!(same(x - z, sub(a, c)), "{:#x} - {:#x}", a, c);
        assert!(same(x + z, add(a, c)), "{:#x} + {:#x}", a, c);
    }
}

#[test]
fn neg_turns_the_sign_over() {
    for a in special_values() {
        if !a.is_nan() {
            assert_eq!(neg(a.to_bits()), (-a).to_bits());
        }
    }
    assert_eq!(neg(0), 0x8000_0000_0000_0000);
    assert_eq!(neg(0x8000_0000_0000_0000), 0);
}
