//! Sweeping the kernel over the regular grid of one rectangle.
use vstd::prelude::*;
use vstd::arithmetic::div_mod::lemma_fundamental_div_mod_converse;
use crate::complex::{Complex, fits};
use crate::kernel::{classify, escape_time, lemma_escape_time_meaning, MAX_ITERATIONS};

verus! {

/// One rated sample: its real part, its imaginary part, its escape time.
pub type Rated = (i64, i64, u32);

/// The quotient `n / d` rounded to the nearest whole number, halves upwards;
/// a negative quotient is cut towards zero. The result is kept within 32 bits.
pub open spec fn nearest_quotient(n: int, d: int) -> int {
    if n >= 0 {
        let q = (2 * n + d) / (2 * d);
        if q > i32::MAX {
            i32::MAX as int
        } else {
            q
        }
    } else {
        let q = -((-n) / d);
        if q < i32::MIN {
            i32::MIN as int
        } else {
            q
        }
    }
}

/// Number of grid samples along an axis from `lo` up to `hi`.
pub open spec fn axis_count(lo: int, hi: int, resolution: int) -> nat {
    let q = nearest_quotient(hi - lo, resolution);
    if q > 0 {
        q as nat
    } else {
        0
    }
}

/// The grid sample in column `x` and row `y`, counted from the corner `min`.
pub open spec fn grid_point(resolution: int, min: (int, int), x: int, y: int) -> (int, int) {
    (min.0 + x * resolution, min.1 + y * resolution)
}

/// The `k`-th sample of a grid with the given number of rows: samples run
/// along the imaginary axis first.
pub open spec fn sample(resolution: int, min: (int, int), rows: int, k: int) -> (int, int) {
    grid_point(resolution, min, k / rows, k % rows)
}

/// All grid samples of the rectangle, in sweep order.
pub open spec fn samples(resolution: int, min: (int, int), max: (int, int)) -> Seq<(int, int)> {
    let cols = axis_count(min.0, max.0, resolution);
    let rows = axis_count(min.1, max.1, resolution);
    Seq::new(cols * rows, |k: int| sample(resolution, min, rows as int, k))
}

/// Rates one sample: an escaping point with its escape time, nothing for a
/// point that stays bounded.
pub open spec fn rate(c: (int, int)) -> spec_fn((int, int)) -> Option<Rated> {
    |p: (int, int)|
        match escape_time(p, c) {
            Some(k) => Some((p.0 as i64, p.1 as i64, k)),
            None => None,
        }
}

/// The escape-time field of a rectangle: its escaping samples, in sweep order.
pub open spec fn field(resolution: int, min: (int, int), max: (int, int), c: (int, int)) -> Seq<
    Rated,
> {
    samples(resolution, min, max).filter_map(rate(c))
}

/// Number of samples along an axis, as a machine integer; not positive when
/// `hi` does not lie above `lo` by at least half a step.
pub fn steps_between(lo: i64, hi: i64, resolution: i64) -> (n: i32)
    requires
        resolution > 0,
    ensures
        n == nearest_quotient(hi - lo, resolution as int),
{
    let span: i128 = hi as i128 - lo as i128;
    let d: i128 = resolution as i128;
    if span >= 0 {
        let q: i128 = span / d;
        let r: i128 = span % d;
        let rounded: i128 = if 2 * r >= d {
            q + 1
        } else {
            q
        };
        proof {
            assert(span == q * d + r) by (nonlinear_arith)
                requires
                    d > 0,
                    q == span / d,
                    r == span % d,
            ;
            if 2 * r >= d {
                assert(2 * span + d == (q + 1) * (2 * d) + (2 * r - d)) by (nonlinear_arith)
                    requires
                        span == q * d + r,
                ;
                lemma_fundamental_div_mod_converse(2 * span + d, 2 * d, q + 1, 2 * r - d);
            } else {
                assert(2 * span + d == q * (2 * d) + (2 * r + d)) by (nonlinear_arith)
                    requires
                        span == q * d + r,
                ;
                lemma_fundamental_div_mod_converse(2 * span + d, 2 * d, q as int, 2 * r + d);
            }
        }
        if rounded > i32::MAX as i128 {
            i32::MAX
        } else {
            rounded as i32
        }
    } else {
        let q: i128 = (-span) / d;
        if q > 0x8000_0000 {
            i32::MIN
        } else {
            (-q) as i32
        }
    }
}

/// The samples of an axis stay below its upper end.
pub proof fn lemma_axis_within(lo: int, hi: int, resolution: int, i: int)
    requires
        resolution > 0,
        0 <= i < axis_count(lo, hi, resolution),
    ensures
        lo <= lo + i * resolution < hi,
{
    let n = hi - lo;
    let d = resolution;
    let q = (2 * n + d) / (2 * d);
    assert(n >= 0);
    assert(i + 1 <= q);
    assert(q * (2 * d) <= 2 * n + d) by (nonlinear_arith)
        requires
            d > 0,
            q == (2 * n + d) / (2 * d),
    ;
    assert((i + 1) * (2 * d) <= q * (2 * d)) by (nonlinear_arith)
        requires
            i + 1 <= q,
            d > 0,
    ;
    assert((i + 1) * (2 * d) == 2 * (i * d) + 2 * d) by (nonlinear_arith);
    assert(i * d >= 0) by (nonlinear_arith)
        requires
            i >= 0,
            d > 0,
    ;
}

/// Without the 32-bit limit, an axis with its upper end not below its lower
/// end holds the quotient of its length by the step, rounded to nearest.
pub open spec fn unlimited(lo: int, hi: int, resolution: int) -> bool {
    lo <= hi && (2 * (hi - lo) + resolution) / (2 * resolution) <= i32::MAX
}

/// An axis of `k` whole steps holds `k` samples.
pub proof fn lemma_axis_whole(lo: int, resolution: int, k: int)
    requires
        resolution > 0,
        0 <= k <= i32::MAX,
    ensures
        axis_count(lo, lo + k * resolution, resolution) == k,
        unlimited(lo, lo + k * resolution, resolution),
{
    let d = resolution;
    let n = k * d;
    assert(n >= 0) by (nonlinear_arith)
        requires
            n == k * d,
            k >= 0,
            d > 0,
    ;
    assert(2 * n + d == k * (2 * d) + d) by (nonlinear_arith)
        requires
            n == k * d,
    ;
    lemma_fundamental_div_mod_converse(2 * n + d, 2 * d, k, d);
}

/// Moving the lower end of an axis up by `k` whole steps removes its first
/// `k` samples.
pub proof fn lemma_axis_shift(lo: int, hi: int, resolution: int, k: int)
    requires
        resolution > 0,
        k >= 0,
        lo + k * resolution <= hi,
        unlimited(lo, hi, resolution),
    ensures
        axis_count(lo + k * resolution, hi, resolution) == axis_count(lo, hi, resolution) - k,
        unlimited(lo + k * resolution, hi, resolution),
{
    let d = resolution;
    let n = hi - lo;
    let m = hi - (lo + k * d);
    let q = (2 * n + d) / (2 * d);
    let rem = (2 * n + d) % (2 * d);
    assert(k * d >= 0) by (nonlinear_arith)
        requires
            k >= 0,
            d > 0,
    ;
    assert(2 * n + d == q * (2 * d) + rem && 0 <= rem < 2 * d) by (nonlinear_arith)
        requires
            d > 0,
            q == (2 * n + d) / (2 * d),
            rem == (2 * n + d) % (2 * d),
    ;
    assert(2 * m + d == (q - k) * (2 * d) + rem) by (nonlinear_arith)
        requires
            2 * n + d == q * (2 * d) + rem,
            m == n - k * d,
    ;
    lemma_fundamental_div_mod_converse(2 * m + d, 2 * d, q - k, rem);
}

/// An axis shorter than half a sampling step holds no sample.
pub proof fn lemma_coarse_axis(lo: int, hi: int, resolution: int)
    requires
        resolution > 0,
    ensures
        2 * (hi - lo) < resolution ==> axis_count(lo, hi, resolution) == 0,
{
    let n = hi - lo;
    let d = resolution;
    if 0 <= n && 2 * n < d {
        assert((2 * n + d) / (2 * d) == 0) by (nonlinear_arith)
            requires
                0 <= 2 * n + d < 2 * d,
        ;
    } else if n < 0 {
        assert((-n) / d >= 0) by (nonlinear_arith)
            requires
                -n > 0,
                d > 0,
        ;
    }
}

/// The `k`-th sample written by its column `x` and row `y`.
pub proof fn lemma_sample_at(resolution: int, min: (int, int), rows: int, x: int, y: int)
    requires
        0 <= y < rows,
    ensures
        sample(resolution, min, rows, x * rows + y) == grid_point(resolution, min, x, y),
{
    lemma_fundamental_div_mod_converse(x * rows + y, rows, x, y);
}

/// Evaluates the kernel at every grid sample of the rectangle from `min` up
/// to `max` and keeps the escaping ones, each with its escape time.
pub fn sweep(resolution: i64, min: Complex, max: Complex, constant: Complex) -> (set: Vec<Rated>)
    requires
        resolution > 0,
    ensures
        set@ == field(resolution as int, min@, max@, constant@),
{
    let steps_x: i32 = steps_between(min.0, max.0, resolution);
    let steps_y: i32 = steps_between(min.1, max.1, resolution);
    let cols: u32 = if steps_x > 0 {
        steps_x as u32
    } else {
        0
    };
    let rows: u32 = if steps_y > 0 {
        steps_y as u32
    } else {
        0
    };
    let ghost all = samples(resolution as int, min@, max@);
    let ghost f = rate(constant@);
    let mut set: Vec<Rated> = Vec::new();
    assert(all.take(0).filter_map(f) =~= Seq::<Rated>::empty());
    let mut x: u32 = 0;
    while x < cols
        invariant
            resolution > 0,
            x <= cols,
            cols == axis_count(min@.0, max@.0, resolution as int),
            rows == axis_count(min@.1, max@.1, resolution as int),
            all == samples(resolution as int, min@, max@),
            all.len() == cols * rows,
            f == rate(constant@),
            set@ == all.take(x * rows).filter_map(f),
        decreases cols - x,
    {
        let mut y: u32 = 0;
        assert(x * rows + 0 == x * rows);
        while y < rows
            invariant
                resolution > 0,
                x < cols,
                y <= rows,
                cols == axis_count(min@.0, max@.0, resolution as int),
                rows == axis_count(min@.1, max@.1, resolution as int),
                all == samples(resolution as int, min@, max@),
                all.len() == cols * rows,
                f == rate(constant@),
                set@ == all.take(x * rows + y).filter_map(f),
            decreases rows - y,
        {
            let ghost k: int = x * rows + y;
            proof {
                lemma_axis_within(min@.0, max@.0, resolution as int, x as int);
                lemma_axis_within(min@.1, max@.1, resolution as int, y as int);
                lemma_sample_at(resolution as int, min@, rows as int, x as int, y as int);
                assert(0 <= k < cols * rows) by (nonlinear_arith)
                    requires
                        k == x * rows + y,
                        0 <= x < cols,
                        0 <= y < rows,
                ;
                all.lemma_filter_map_take_succ(f, k);
            }
            let px: i64 = (min.0 as i128 + (x as i128) * (resolution as i128)) as i64;
            let py: i64 = (min.1 as i128 + (y as i128) * (resolution as i128)) as i64;
            assert(all[k] == (px as int, py as int));
            match classify(Complex(px, py), constant) {
                Some(iter) => {
                    set.push((px, py, iter));
                },
                None => {},
            }
            y = y + 1;
        }
        assert(x * rows + rows == (x + 1) * rows) by (nonlinear_arith);
        x = x + 1;
    }
    assert(all.take(cols * rows) =~= all);
    set
}

/// Every member of a field is a grid sample inside the rectangle, lower
/// edges included and upper edges excluded, rated with its own escape time.
pub proof fn lemma_field_sound(
    resolution: int,
    min: (int, int),
    max: (int, int),
    c: (int, int),
    i: int,
)
    requires
        resolution > 0,
        fits(min),
        fits(max),
        0 <= i < field(resolution, min, max, c).len(),
    ensures
        ({
            let e = field(resolution, min, max, c)[i];
            &&& min.0 <= e.0 < max.0
            &&& min.1 <= e.1 < max.1
            &&& e.2 < MAX_ITERATIONS
            &&& escape_time((e.0 as int, e.1 as int), c) == Some(e.2)
            &&& exists|x: int, y: int|
                0 <= x < axis_count(min.0, max.0, resolution) && 0 <= y < axis_count(
                    min.1,
                    max.1,
                    resolution,
                ) && (e.0 as int, e.1 as int) == #[trigger] grid_point(resolution, min, x, y)
        }),
{
    let all = samples(resolution, min, max);
    let f = rate(c);
    let e = field(resolution, min, max, c)[i];
    let cols = axis_count(min.0, max.0, resolution) as int;
    let rows = axis_count(min.1, max.1, resolution) as int;
    assert(all.filter_map(f).contains(e));
    all.lemma_filter_map_contains(f, e);
    let t = choose|t: (int, int)| #[trigger] all.contains(t) && f(t) == Some(e);
    let k = choose|k: int| 0 <= k < all.len() && all[k] == t;
    assert(0 <= k < cols * rows);
    assert(rows > 0) by (nonlinear_arith)
        requires
            0 <= k < cols * rows,
            cols >= 0,
            rows >= 0,
    ;
    let x = k / rows;
    let y = k % rows;
    assert(0 <= x < cols && 0 <= y < rows && k == x * rows + y) by (nonlinear_arith)
        requires
            0 <= k < cols * rows,
            rows > 0,
            x == k / rows,
            y == k % rows,
    ;
    lemma_axis_within(min.0, max.0, resolution, x);
    lemma_axis_within(min.1, max.1, resolution, y);
    lemma_escape_time_meaning(t, c);
    assert((e.0 as int, e.1 as int) == grid_point(resolution, min, x, y));
}

/// A mapped element of a sequence is found in its `filter_map`.
proof fn lemma_filter_map_keeps<A, B>(s: Seq<A>, f: spec_fn(A) -> Option<B>, i: int)
    requires
        0 <= i < s.len(),
        f(s[i]) is Some,
    ensures
        s.filter_map(f).contains(f(s[i])->0),
    decreases s.len(),
{
    let rest = s.drop_last();
    let head = rest.filter_map(f);
    if i == s.len() - 1 {
        let whole = head + seq![f(s[i])->0];
        assert(whole[head.len() as int] == f(s[i])->0);
    } else {
        lemma_filter_map_keeps(rest, f, i);
        let b = f(s[i])->0;
        let j = choose|j: int| 0 <= j < head.len() && head[j] == b;
        assert(s.filter_map(f)[j] == b);
    }
}

/// Every escaping grid sample of the rectangle is a member of its field.
pub proof fn lemma_field_complete(
    resolution: int,
    min: (int, int),
    max: (int, int),
    c: (int, int),
    x: int,
    y: int,
)
    requires
        resolution > 0,
        0 <= x < axis_count(min.0, max.0, resolution),
        0 <= y < axis_count(min.1, max.1, resolution),
        escape_time(grid_point(resolution, min, x, y), c) is Some,
    ensures
        field(resolution, min, max, c).contains(
            (
                grid_point(resolution, min, x, y).0 as i64,
                grid_point(resolution, min, x, y).1 as i64,
                escape_time(grid_point(resolution, min, x, y), c)->0,
            ),
        ),
{
    let all = samples(resolution, min, max);
    let cols = axis_count(min.0, max.0, resolution) as int;
    let rows = axis_count(min.1, max.1, resolution) as int;
    let k = x * rows + y;
    assert(0 <= k < cols * rows) by (nonlinear_arith)
        requires
            k == x * rows + y,
            0 <= x < cols,
            0 <= y < rows,
    ;
    lemma_sample_at(resolution, min, rows, x, y);
    lemma_filter_map_keeps(all, rate(c), k);
}

} // verus!
