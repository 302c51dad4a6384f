use julia::complex::Complex;
use julia::fixed::{div_floor, floor_sqrt, SCALE};

#[test]
fn complex_multiplication() {
    let z1 = Complex(10 * SCALE, 2 * SCALE);
    let z2 = Complex(3 * SCALE, 53 * SCALE);
    let z3 = z1 * z2;

    assert_eq!(z3, Complex(-76 * SCALE, 536 * SCALE));
}

#[test]
fn complex_addition() {
    let z1 = Complex(10 * SCALE, 2 * SCALE);
    let z2 = Complex(3 * SCALE, 53 * SCALE);
    let z3 = z1 + z2;

    assert_eq!(z3, Complex(13 * SCALE, 55 * SCALE));
}

#[test]
fn scale_is_one_unit() {
    assert_eq!(SCALE, 1_000_000_000);
    let one = Complex(SCALE, 0);
    let z = Complex(123_456_789, -987_654_321);
    assert_eq!(one * z, z);
    assert_eq!(z * one, z);
}

#[test]
fn multiplication_rounds_down() {
    // 1e-9 * -1e-9 lies just below zero: the floor is one step below zero.
    assert_eq!(Complex(1, 0) * Complex(-1, 0), Complex(-1, 0));
    // 1e-9 * 1e-9 lies just above zero.
    assert_eq!(Complex(1, 0) * Complex(1, 0), Complex(0, 0));
    // i * i = -1, and (a + bi)(c + di) with mixed signs.
    assert_eq!(Complex(0, SCALE) * Complex(0, SCALE), Complex(-SCALE, 0));
    assert_eq!(
        Complex(1_500_000_000, -500_000_000) * Complex(-250_000_000, 2_000_000_000),
        Complex(625_000_000, 3_125_000_000)
    );
    assert_eq!(Complex(3, 0) * Complex(0, -500_000_000), Complex(0, -2));
}

#[test]
fn multiplication_at_the_limits() {
    let big = Complex(i64::MAX, 0);
    assert_eq!(big * Complex(SCALE, 0), big);
    assert_eq!(Complex(i64::MIN, 0) * Complex(SCALE, 0), Complex(i64::MIN, 0));
    assert_eq!(Complex(i64::MIN, i64::MIN) * Complex(0, 0), Complex(0, 0));
}

#[test]
fn addition_is_component_wise() {
    assert_eq!(Complex(1, 2) + Complex(-3, 40), Complex(-2, 42));
    assert_eq!(Complex(i64::MAX, i64::MIN) + Complex(0, 0), Complex(i64::MAX, i64::MIN));
    assert_eq!(Complex(i64::MAX - 1, i64::MIN + 1) + Complex(1, -1), Complex(i64::MAX, i64::MIN));
}

#[test]
fn abs_is_the_modulus_rounded_down() {
    assert_eq!(Complex(3 * SCALE, 4 * SCALE).abs(), 5 * SCALE as u64);
    assert_eq!(Complex(-3 * SCALE, 4 * SCALE).abs(), 5 * SCALE as u64);
    assert_eq!(Complex(0, 0).abs(), 0);
    assert_eq!(Complex(1, 1).abs(), 1);
    assert_eq!(Complex(2, 2).abs(), 2);
    assert_eq!(Complex(0, -7).abs(), 7);
    // sqrt(2) to nine places
    assert_eq!(Complex(SCALE, SCALE).abs(), 1_414_213_562);
    // the largest modulus there is: sqrt(2) * 2^63
    assert_eq!(Complex(i64::MIN, i64::MIN).abs(), 13_043_817_825_332_782_212);
}

#[test]
fn floor_sqrt_brackets_its_argument() {
    assert_eq!(floor_sqrt(0), 0);
    assert_eq!(floor_sqrt(1), 1);
    assert_eq!(floor_sqrt(3), 1);
    assert_eq!(floor_sqrt(4), 2);
    assert_eq!(floor_sqrt(99), 9);
    assert_eq!(floor_sqrt(100), 10);
    assert_eq!(floor_sqrt(u128::MAX), u64::MAX);
    assert_eq!(floor_sqrt((u64::MAX as u128) * (u64::MAX as u128)), u64::MAX);
    assert_eq!(floor_sqrt((u64::MAX as u128) * (u64::MAX as u128) - 1), u64::MAX - 1);
    for n in 0u128..2000 {
        let r = floor_sqrt(n) as u128;
        assert!(r * r <= n && n < (r + 1) * (r + 1));
    }
}

#[test]
fn div_floor_rounds_towards_minus_infinity() {
    assert_eq!(div_floor(7, 2), 3);
    assert_eq!(div_floor(-7, 2), -4);
    assert_eq!(div_floor(-8, 2), -4);
    assert_eq!(div_floor(-1, 1_000_000_000), -1);
    assert_eq!(div_floor(0, 5), 0);
    assert_eq!(div_floor(i128::MIN, 1), i128::MIN);
    assert_eq!(div_floor(i128::MIN, i128::MAX), -2);
    assert_eq!(div_floor(i128::MAX, i128::MAX), 1);
    for a in -50i128..50 {
        for d in 1i128..9 {
            assert_eq!(div_floor(a, d), a.div_euclid(d));
        }
    }
}
