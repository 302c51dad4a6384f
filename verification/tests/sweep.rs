use julia::complex::Complex;
use julia::fixed::SCALE;
use julia::kernel::classify;
use julia::sweep::{steps_between, sweep};

#[test]
fn steps_round_to_nearest_with_halves_up() {
    assert_eq!(steps_between(0, 10, 4), 3); // 2.5
    assert_eq!(steps_between(0, 9, 4), 2); // 2.25
    assert_eq!(steps_between(0, 11, 4), 3); // 2.75
    assert_eq!(steps_between(0, 12, 4), 3);
    assert_eq!(steps_between(0, 1, 2), 1); // 0.5
    assert_eq!(steps_between(0, 1, 3), 0);
    assert_eq!(steps_between(5, 5, 1), 0);
    assert_eq!(steps_between(-SCALE, SCALE, SCALE / 10), 20);
    assert_eq!(steps_between(-7, 8, 1), 15);
}

#[test]
fn steps_of_a_reversed_axis_are_cut_towards_zero() {
    assert_eq!(steps_between(10, 0, 4), -2); // -2.5
    assert_eq!(steps_between(11, 0, 4), -2); // -2.75
    assert_eq!(steps_between(12, 0, 4), -3);
    assert_eq!(steps_between(1, 0, 2), 0);
    assert_eq!(steps_between(0, -9, 1), -9);
}

#[test]
fn steps_stay_within_32_bits() {
    assert_eq!(steps_between(i64::MIN, i64::MAX, 1), i32::MAX);
    assert_eq!(steps_between(0, i32::MAX as i64, 1), i32::MAX);
    assert_eq!(steps_between(0, i32::MAX as i64 - 1, 1), i32::MAX - 1);
    assert_eq!(steps_between(0, i32::MAX as i64 + 5, 1), i32::MAX);
    assert_eq!(steps_between(i64::MAX, i64::MIN, 1), i32::MIN);
    assert_eq!(steps_between(0, i32::MIN as i64, 1), i32::MIN);
    assert_eq!(steps_between(0, i32::MIN as i64 + 1, 1), i32::MIN + 1);
    assert_eq!(steps_between(i64::MIN, i64::MAX, i64::MAX), 2);
    assert_eq!(steps_between(i64::MAX, i64::MIN, i64::MAX), -2);
}

#[test]
fn sweep_keeps_the_escaping_samples_in_grid_order() {
    let set = sweep(
        SCALE,
        Complex(-2 * SCALE, -2 * SCALE),
        Complex(2 * SCALE, 2 * SCALE),
        Complex(0, 0),
    );
    let s = SCALE;
    assert_eq!(
        set,
        vec![
            (-2 * s, -2 * s, 0),
            (-2 * s, -s, 0),
            (-2 * s, 0, 1),
            (-2 * s, s, 0),
            (-s, -2 * s, 0),
            (-s, -s, 2),
            (-s, s, 2),
            (0, -2 * s, 1),
            (s, -2 * s, 0),
            (s, -s, 2),
            (s, s, 2),
        ]
    );
}

#[test]
fn sweep_excludes_the_upper_edges() {
    let set = sweep(SCALE, Complex(2 * SCALE, 2 * SCALE), Complex(4 * SCALE, 5 * SCALE), Complex(0, 0));
    let s = SCALE;
    assert_eq!(
        set,
        vec![
            (2 * s, 2 * s, 0),
            (2 * s, 3 * s, 0),
            (2 * s, 4 * s, 0),
            (3 * s, 2 * s, 0),
            (3 * s, 3 * s, 0),
            (3 * s, 4 * s, 0),
        ]
    );
}

#[test]
fn sweep_with_a_fractional_step() {
    let set = sweep(
        SCALE / 2,
        Complex(0, 0),
        Complex(3 * SCALE / 2, SCALE),
        Complex(SCALE / 4, SCALE / 2),
    );
    assert_eq!(
        set,
        vec![
            (500_000_000, 0, 11),
            (500_000_000, 500_000_000, 10),
            (1_000_000_000, 0, 2),
            (1_000_000_000, 500_000_000, 2),
        ]
    );
}

#[test]
fn sweep_of_a_thin_rectangle() {
    let s = SCALE;
    // half a step rounds up to one column
    assert_eq!(
        sweep(s, Complex(0, 0), Complex(s / 2, 5 * s), Complex(0, 0)),
        vec![(0, 2 * s, 1), (0, 3 * s, 0), (0, 4 * s, 0)]
    );
    // less than half a step leaves none
    assert_eq!(sweep(s, Complex(0, 0), Complex(s / 2 - 1, 5 * s), Complex(0, 0)), vec![]);
}

#[test]
fn sweep_of_an_empty_or_reversed_rectangle_is_empty() {
    let c = Complex(0, 0);
    assert_eq!(sweep(SCALE, Complex(3 * SCALE, 3 * SCALE), Complex(3 * SCALE, 9 * SCALE), c), vec![]);
    assert_eq!(sweep(SCALE, Complex(3 * SCALE, 3 * SCALE), Complex(9 * SCALE, 3 * SCALE), c), vec![]);
    assert_eq!(sweep(SCALE, Complex(9 * SCALE, 3 * SCALE), Complex(3 * SCALE, 9 * SCALE), c), vec![]);
    assert_eq!(sweep(SCALE, Complex(3 * SCALE, 9 * SCALE), Complex(9 * SCALE, 3 * SCALE), c), vec![]);
    assert_eq!(sweep(1, Complex(i64::MAX, i64::MAX), Complex(i64::MIN, i64::MIN), c), vec![]);
}

#[test]
fn sweep_drops_bounded_samples() {
    // every sample lies within the unit disc and the constant is zero
    let set = sweep(
        SCALE / 4,
        Complex(-SCALE / 2, -SCALE / 2),
        Complex(SCALE / 2, SCALE / 2),
        Complex(0, 0),
    );
    assert_eq!(set, vec![]);
}

#[test]
fn sweep_across_the_whole_plane() {
    let step = 1i64 << 62;
    let set = sweep(step, Complex(i64::MIN, i64::MIN), Complex(i64::MAX, i64::MAX), Complex(0, 0));
    // a 4 x 4 grid; only the origin stays bounded
    assert_eq!(set.len(), 15);
    assert_eq!(set[0], (i64::MIN, i64::MIN, 0));
    assert_eq!(set[1], (i64::MIN, -step, 0));
    assert_eq!(set[9], (0, -step, 0));
    assert_eq!(set[10], (0, step, 0));
    assert_eq!(set[14], (step, step, 0));
}

#[test]
fn sweep_rates_each_sample_like_the_kernel() {
    let min = Complex(-3 * SCALE / 2, -SCALE);
    let max = Complex(3 * SCALE / 2, SCALE);
    let c = Complex(-400_000_000, 600_000_000);
    let step = SCALE / 8;
    let set = sweep(step, min, max, c);
    let mut expected = Vec::new();
    for x in 0..24i64 {
        for y in 0..16i64 {
            let p = Complex(min.0 + x * step, min.1 + y * step);
            if let Some(k) = classify(p, c) {
                expected.push((p.0, p.1, k));
            }
        }
    }
    assert!(!expected.is_empty());
    assert_eq!(set, expected);
}
