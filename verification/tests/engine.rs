use julia::complex::Complex;
use julia::engine::{finish, gather, run, JuliaSet, DEFAULT_STRIPS};
use julia::fixed::SCALE;
use julia::kernel::classify;
use julia::sweep::sweep;

fn unit_square(strips: usize) -> JuliaSet {
    JuliaSet::with_strips(
        Complex(-SCALE, -SCALE),
        Complex(SCALE, SCALE),
        Complex(-SCALE, SCALE / 10),
        SCALE / 10,
        strips,
    )
}

fn edges(engine: &JuliaSet) -> Vec<i64> {
    let mut out = Vec::new();
    for i in 0..engine.strips() {
        let (lo, hi, _) = engine.partition(i);
        if i == 0 {
            out.push(lo.0);
        } else {
            assert_eq!(out[i], lo.0);
        }
        out.push(hi.0);
    }
    out
}

#[test]
fn new_engine_has_twelve_strips() {
    let engine = JuliaSet::new(Complex(1, 2), Complex(3, 4), Complex(5, 6), 7);
    assert_eq!(DEFAULT_STRIPS, 12);
    assert_eq!(engine.strips(), 12);
    assert_eq!(engine.min(), Complex(1, 2));
    assert_eq!(engine.max(), Complex(3, 4));
    assert_eq!(engine.constant(), Complex(5, 6));
    assert_eq!(engine.resolution(), 7);
}

#[test]
fn setters_take_effect_on_the_next_evaluation() {
    let mut engine = unit_square(4);
    let first = engine.calculate().unwrap();
    assert_eq!(first.len(), 286);

    engine.set_constant(Complex(0, 0));
    assert_eq!(engine.constant(), Complex(0, 0));
    engine.set_resolution(SCALE / 2);
    assert_eq!(engine.resolution(), SCALE / 2);
    let s = SCALE;
    assert_eq!(
        engine.calculate(),
        Some(vec![
            (-s, -s, 2),
            (-s, -s / 2, 3),
            (-s, s / 2, 3),
            (-s / 2, -s, 3),
            (s / 2, -s, 3),
        ])
    );

    engine.set_constant(Complex(-SCALE, SCALE / 10));
    engine.set_resolution(SCALE / 10);
    engine.set_min(Complex(-2 * SCALE, -SCALE));
    assert_eq!(engine.min(), Complex(-2 * SCALE, -SCALE));
    assert_eq!(engine.calculate().unwrap().len(), 479);
    engine.set_max(Complex(2 * SCALE, SCALE));
    assert_eq!(engine.max(), Complex(2 * SCALE, SCALE));
    assert_eq!(engine.calculate().unwrap().len(), 667);
    assert_eq!(engine.strips(), 4);
}

#[test]
fn strips_follow_the_height_of_the_rectangle() {
    let mut engine = unit_square(4);
    engine.set_min(Complex(-SCALE, -SCALE / 2));
    engine.set_max(Complex(SCALE, SCALE / 2));
    let (lo, hi, c) = engine.partition(2);
    assert_eq!(lo, Complex(0, -SCALE / 2));
    assert_eq!(hi, Complex(SCALE / 2, SCALE / 2));
    assert_eq!(c, Complex(-SCALE, SCALE / 10));
    let points = engine.calculate().unwrap();
    assert_eq!(points.len(), 91);
    assert_eq!(points[0], (-SCALE, -SCALE / 2, 2));
    assert_eq!(points[1], (-SCALE, -400_000_000, 3));
    assert_eq!(points[2], (-SCALE, -300_000_000, 7));
}

#[test]
fn unit_square_with_four_strips() {
    let engine = unit_square(4);
    let points = engine.calculate().expect("some sample escapes");
    assert!(!points.is_empty());
    for &(x, y, iteration) in &points {
        assert!(iteration < 100);
        assert!(-SCALE <= x && x <= SCALE);
        assert!(-SCALE <= y && y <= SCALE);
        assert_eq!(classify(Complex(x, y), Complex(-SCALE, SCALE / 10)), Some(iteration));
    }
    assert_eq!(points.len(), 286);
    assert_eq!(points[0], (-SCALE, -SCALE, 1));
    assert_eq!(points[100], (-400_000_000, -SCALE, 1));
    assert_eq!(points[285], (900_000_000, 900_000_000, 2));
    assert_eq!(points.iter().map(|p| p.2).max(), Some(14));
    assert_eq!(points.iter().map(|p| p.2 as u64).sum::<u64>(), 1121);
}

#[test]
fn coarse_resolution_gives_no_result() {
    // a step of more than twice the extent leaves no sample
    let engine = JuliaSet::with_strips(
        Complex(-SCALE, -SCALE),
        Complex(SCALE, SCALE),
        Complex(-SCALE, SCALE / 10),
        5 * SCALE,
        4,
    );
    assert_eq!(engine.calculate(), None);
    let engine = JuliaSet::new(
        Complex(-SCALE, -SCALE),
        Complex(SCALE, SCALE),
        Complex(-SCALE, SCALE / 10),
        4 * SCALE + 1,
    );
    assert_eq!(engine.calculate(), None);
    // coarse along the imaginary axis only
    let engine = JuliaSet::with_strips(
        Complex(-SCALE, 0),
        Complex(SCALE, SCALE / 100),
        Complex(-SCALE, SCALE / 10),
        SCALE / 10,
        4,
    );
    assert_eq!(engine.calculate(), None);
}

#[test]
fn step_between_one_and_two_extents_keeps_the_corner_sample() {
    // 2 / 2.5 rounds to one sample per axis: the lower corner, which escapes
    let engine = JuliaSet::new(
        Complex(-SCALE, -SCALE),
        Complex(SCALE, SCALE),
        Complex(-SCALE, SCALE / 10),
        5 * SCALE / 2,
    );
    assert_eq!(engine.calculate(), Some(vec![(-SCALE, -SCALE, 1)]));
}

#[test]
fn nothing_escapes_gives_no_result() {
    let engine = JuliaSet::new(
        Complex(-SCALE / 2, -SCALE / 2),
        Complex(SCALE / 2, SCALE / 2),
        Complex(0, 0),
        SCALE / 4,
    );
    assert_eq!(engine.calculate(), None);
}

#[test]
fn empty_and_reversed_rectangles_give_no_result() {
    let c = Complex(0, 0);
    assert_eq!(JuliaSet::new(Complex(3 * SCALE, 0), Complex(3 * SCALE, SCALE), c, 1000).calculate(), None);
    assert_eq!(
        JuliaSet::with_strips(Complex(5 * SCALE, 0), Complex(3 * SCALE, SCALE), c, SCALE / 4, 3)
            .calculate(),
        None
    );
    let reversed = JuliaSet::with_strips(Complex(5, 0), Complex(-6, 1), c, 1, 3);
    assert_eq!(edges(&reversed), vec![-6, -6, -6, -6]);
    let flat = JuliaSet::with_strips(Complex(5, 0), Complex(5, 1), c, 1, 3);
    assert_eq!(edges(&flat), vec![5, 5, 5, 5]);
}

#[test]
fn engine_without_strips_gives_no_result() {
    let engine = JuliaSet::with_strips(
        Complex(-SCALE, -SCALE),
        Complex(SCALE, SCALE),
        Complex(-SCALE, SCALE / 10),
        SCALE / 10,
        0,
    );
    assert_eq!(engine.plan(), vec![]);
    assert_eq!(engine.calculate(), None);
}

#[test]
fn strips_tile_the_real_axis() {
    let c = Complex(0, 0);
    let e = |min: i64, max: i64, resolution: i64, strips: usize| {
        edges(&JuliaSet::with_strips(Complex(min, 0), Complex(max, 1), c, resolution, strips))
    };
    assert_eq!(e(0, 10, 3, 4), vec![0, 3, 6, 9, 10]);
    assert_eq!(e(0, 10, 3, 1), vec![0, 10]);
    assert_eq!(e(0, 10, 1, 3), vec![0, 4, 8, 10]);
    assert_eq!(e(-5, 6, 1, 3), vec![-5, -1, 3, 6]);
    assert_eq!(e(-5, 6, 7, 3), vec![-5, 2, 6, 6]);
    assert_eq!(
        edges(&unit_square(4)),
        vec![-SCALE, -SCALE / 2, 0, SCALE / 2, SCALE]
    );
    let s = SCALE;
    assert_eq!(
        edges(&unit_square(12)),
        vec![
            -s,
            -800_000_000,
            -600_000_000,
            -400_000_000,
            -200_000_000,
            0,
            200_000_000,
            400_000_000,
            600_000_000,
            800_000_000,
            s,
            s,
            s
        ]
    );
}

#[test]
fn strips_of_the_widest_rectangle() {
    let c = Complex(0, 0);
    let wide = JuliaSet::with_strips(Complex(i64::MIN, 0), Complex(i64::MAX, 0), c, i64::MAX, 5);
    assert_eq!(edges(&wide), vec![i64::MIN, -1, i64::MAX - 1, i64::MAX, i64::MAX, i64::MAX]);
    let fine = JuliaSet::with_strips(Complex(i64::MIN, 0), Complex(i64::MAX, 0), c, 1, 3);
    assert_eq!(
        edges(&fine),
        vec![i64::MIN, -3_074_457_345_618_258_603, 3_074_457_345_618_258_602, i64::MAX]
    );
    let many = JuliaSet::with_strips(Complex(i64::MIN, 0), Complex(i64::MAX, 0), c, 3, usize::MAX);
    assert_eq!(many.partition(0).0, Complex(i64::MIN, 0));
    assert_eq!(many.partition(0).1, Complex(i64::MIN + 3, 0));
    assert_eq!(many.partition(1).1, Complex(i64::MIN + 6, 0));
    assert_eq!(many.partition(usize::MAX - 1).0, Complex(i64::MAX, 0));
    assert_eq!(many.partition(usize::MAX - 1).1, Complex(i64::MAX, 0));
}

#[test]
fn plan_lists_every_strip_in_dispatch_order() {
    let engine = unit_square(4);
    let tasks = engine.plan();
    assert_eq!(tasks.len(), 4);
    for (i, task) in tasks.iter().enumerate() {
        assert_eq!(*task, engine.partition(i));
        assert_eq!(task.2, Complex(-SCALE, SCALE / 10));
        assert_eq!(task.0 .1, -SCALE);
        assert_eq!(task.1 .1, SCALE);
    }
    assert_eq!(tasks[0].0 .0, -SCALE);
    assert_eq!(tasks[3].1 .0, SCALE);
}

#[test]
fn calculate_is_the_strips_swept_in_order() {
    let engine = unit_square(4);
    let mut expected = Vec::new();
    for task in engine.plan() {
        let part = run(engine.resolution(), task);
        assert_eq!(part, sweep(engine.resolution(), task.0, task.1, task.2));
        expected.extend(part);
    }
    assert_eq!(engine.calculate(), Some(expected));
}

#[test]
fn whole_steps_make_strips_and_rectangle_agree() {
    let s = SCALE;
    let engine = JuliaSet::with_strips(Complex(-2 * s, -2 * s), Complex(2 * s, 2 * s), Complex(0, 0), s, 3);
    assert_eq!(edges(&engine), vec![-2 * s, 0, 2 * s, 2 * s]);
    assert_eq!(
        engine.calculate(),
        Some(sweep(s, Complex(-2 * s, -2 * s), Complex(2 * s, 2 * s), Complex(0, 0)))
    );
}

#[test]
fn number_of_strips_does_not_change_the_frame() {
    let min = Complex(-SCALE, -SCALE);
    let max = Complex(SCALE, SCALE);
    let c = Complex(-SCALE, SCALE / 10);
    let whole = sweep(SCALE / 10, min, max, c);
    assert_eq!(whole.len(), 286);
    for strips in 1..=25usize {
        let engine = JuliaSet::with_strips(min, max, c, SCALE / 10, strips);
        assert_eq!(engine.calculate(), Some(whole.clone()));
    }
    // a step that does not divide the extent, and strips that end between samples
    let min = Complex(-1_234_567_890, -987_654_321);
    let max = Complex(1_111_111_111, 1_000_000_007);
    let c = Complex(-400_000_000, 600_000_000);
    let whole = sweep(77_777_777, min, max, c);
    assert!(!whole.is_empty());
    for strips in [1usize, 2, 3, 5, 7, 12, 29, 30, 31, 64, 1000] {
        let engine = JuliaSet::with_strips(min, max, c, 77_777_777, strips);
        assert_eq!(engine.calculate(), Some(whole.clone()));
    }
}

#[test]
fn calculate_twice_gives_the_same_points() {
    let engine = unit_square(4);
    let mut first = engine.calculate().unwrap();
    let mut second = engine.calculate().unwrap();
    assert_eq!(first, second);
    first.sort();
    second.sort();
    assert_eq!(first, second);
}

#[test]
fn arrival_order_does_not_change_the_points() {
    let engine = unit_square(4);
    let parts: Vec<Vec<(i64, i64, u32)>> =
        engine.plan().into_iter().map(|task| run(engine.resolution(), task)).collect();
    let in_order = gather(parts.clone()).unwrap();
    assert_eq!(Some(in_order.clone()), engine.calculate());

    let shuffled = vec![parts[2].clone(), parts[0].clone(), parts[3].clone(), parts[1].clone()];
    let out_of_order = gather(shuffled).unwrap();
    assert_ne!(in_order, out_of_order);
    let mut a = in_order;
    let mut b = out_of_order;
    a.sort();
    b.sort();
    assert_eq!(a, b);
}

#[test]
fn gather_joins_messages_in_arrival_order() {
    assert_eq!(
        gather(vec![vec![(1, 2, 3)], vec![], vec![(4, 5, 6), (7, 8, 9)]]),
        Some(vec![(1, 2, 3), (4, 5, 6), (7, 8, 9)])
    );
    assert_eq!(
        gather(vec![vec![(4, 5, 6), (7, 8, 9)], vec![(1, 2, 3)]]),
        Some(vec![(4, 5, 6), (7, 8, 9), (1, 2, 3)])
    );
    assert_eq!(gather(vec![]), None);
    assert_eq!(gather(vec![vec![], vec![], vec![]]), None);
}

#[test]
fn finish_tells_an_empty_frame_from_a_result() {
    assert_eq!(finish(vec![]), None);
    assert_eq!(finish(vec![(0, 0, 0)]), Some(vec![(0, 0, 0)]));
}

#[test]
fn frame_loop_slides_the_constant() {
    let mut engine = JuliaSet::new(
        Complex(-SCALE, -SCALE),
        Complex(SCALE, SCALE),
        Complex(-SCALE, SCALE / 10),
        SCALE / 20,
    );
    let mut slide = 0i64;
    for _ in 0..3 {
        engine.set_constant(Complex(slide, 400_000_000));
        let set = engine.calculate().unwrap();
        for &(x, y, a) in &set {
            assert!(a < 100 && -SCALE <= x && x < SCALE && -SCALE <= y && y < SCALE);
        }
        slide += 1_000_000;
    }
}
