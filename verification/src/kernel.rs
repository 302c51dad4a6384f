//! The escape-time kernel: how many steps of `z <- z*z + c` an orbit takes to
//! leave the disc of radius two.
use vstd::prelude::*;
use crate::complex::{Complex, norm_sqr, product, sum};
use crate::fixed::{SCALE, div_floor};

verus! {

/// Number of orbit points that are examined before a point counts as bounded.
pub const MAX_ITERATIONS: u32 = 100;

/// The point lies strictly outside the disc of radius two.
pub open spec fn escaped(p: (int, int)) -> bool {
    norm_sqr(p) > 4 * (SCALE as int) * (SCALE as int)
}

/// One step of the recurrence.
pub open spec fn next_point(p: (int, int), c: (int, int)) -> (int, int) {
    sum(product(p, p), c)
}

/// The `k`-th point of the orbit that starts at `z`.
pub open spec fn orbit(z: (int, int), c: (int, int), k: nat) -> (int, int)
    decreases k,
{
    if k == 0 {
        z
    } else {
        next_point(orbit(z, c, (k - 1) as nat), c)
    }
}

/// None of the orbit points with index below `k` has escaped.
pub open spec fn bounded_before(z: (int, int), c: (int, int), k: nat) -> bool {
    forall|j: nat| j < k ==> !escaped(#[trigger] orbit(z, c, j))
}

/// The least index from `k` on, below the budget, at which the orbit is
/// outside the disc; the budget itself if there is none.
pub open spec fn first_escape(z: (int, int), c: (int, int), k: nat) -> nat
    decreases MAX_ITERATIONS - k,
{
    if k >= MAX_ITERATIONS {
        MAX_ITERATIONS as nat
    } else if escaped(orbit(z, c, k)) {
        k
    } else {
        first_escape(z, c, k + 1)
    }
}

/// The escape time of `z`: the index of the first orbit point outside the disc,
/// if there is one among the first `MAX_ITERATIONS` points.
pub open spec fn escape_time(z: (int, int), c: (int, int)) -> Option<u32> {
    let k = first_escape(z, c, 0);
    if k < MAX_ITERATIONS {
        Some(k as u32)
    } else {
        None
    }
}

/// `first_escape` finds the first escaped orbit point at or after `k`.
pub proof fn lemma_first_escape(z: (int, int), c: (int, int), k: nat)
    requires
        k <= MAX_ITERATIONS,
    ensures
        k <= first_escape(z, c, k) <= MAX_ITERATIONS,
        forall|j: nat| k <= j < first_escape(z, c, k) ==> !escaped(#[trigger] orbit(z, c, j)),
        first_escape(z, c, k) < MAX_ITERATIONS ==> escaped(orbit(z, c, first_escape(z, c, k))),
    decreases MAX_ITERATIONS - k,
{
    if k < MAX_ITERATIONS && !escaped(orbit(z, c, k)) {
        lemma_first_escape(z, c, k + 1);
    }
}

/// What an escape time says of the orbit: `Some(k)` when the `k`-th point is
/// outside the disc and every earlier point inside, `None` when every point
/// within the budget is inside.
pub proof fn lemma_escape_time_meaning(z: (int, int), c: (int, int))
    ensures
        match escape_time(z, c) {
            Some(k) => k < MAX_ITERATIONS && escaped(orbit(z, c, k as nat)) && bounded_before(
                z,
                c,
                k as nat,
            ),
            None => bounded_before(z, c, MAX_ITERATIONS as nat),
        },
{
    lemma_first_escape(z, c, 0);
}

/// The escape time is the one index `k` below the budget at which the orbit is
/// outside the disc while every earlier orbit point is inside.
pub proof fn lemma_escape_time_is(z: (int, int), c: (int, int), k: nat)
    requires
        k < MAX_ITERATIONS,
        escaped(orbit(z, c, k)),
        bounded_before(z, c, k),
    ensures
        escape_time(z, c) == Some(k as u32),
{
    lemma_first_escape(z, c, 0);
    let f = first_escape(z, c, 0);
    if f < k {
        assert(escaped(orbit(z, c, f)));
    } else if f > k {
        assert(!escaped(orbit(z, c, k)));
    }
}

/// A point whose orbit stays in the disc for the whole budget has no escape time.
pub proof fn lemma_escape_time_none(z: (int, int), c: (int, int))
    requires
        bounded_before(z, c, MAX_ITERATIONS as nat),
    ensures
        escape_time(z, c) is None,
{
    lemma_first_escape(z, c, 0);
    let f = first_escape(z, c, 0);
    if f < MAX_ITERATIONS {
        assert(escaped(orbit(z, c, f)));
    }
}

/// A point that starts strictly outside the disc escapes at once, whatever the
/// constant.
pub proof fn lemma_outside_escapes_at_zero(z: (int, int), c: (int, int))
    requires
        escaped(z),
    ensures
        escape_time(z, c) == Some(0u32),
{
    assert(orbit(z, c, 0) == z);
    lemma_escape_time_is(z, c, 0);
}

/// The orbit of a fixed point of the recurrence stays at that point.
pub proof fn lemma_fixed_point_orbit(z: (int, int), c: (int, int), k: nat)
    requires
        next_point(z, c) == z,
    ensures
        orbit(z, c, k) == z,
    decreases k,
{
    if k > 0 {
        lemma_fixed_point_orbit(z, c, (k - 1) as nat);
    }
}

/// A fixed point of the recurrence inside the disc never escapes.
pub proof fn lemma_fixed_point_bounded(z: (int, int), c: (int, int))
    requires
        next_point(z, c) == z,
        !escaped(z),
    ensures
        escape_time(z, c) is None,
{
    assert forall|j: nat| j < MAX_ITERATIONS implies !escaped(#[trigger] orbit(z, c, j)) by {
        lemma_fixed_point_orbit(z, c, j);
    }
    lemma_escape_time_none(z, c);
}

/// The origin is a fixed point of the recurrence with constant zero, so it
/// never escapes.
pub proof fn lemma_origin_bounded()
    ensures
        escape_time((0, 0), (0, 0)) is None,
{
    assert(next_point((0, 0), (0, 0)) == (0int, 0int));
    lemma_fixed_point_bounded((0, 0), (0, 0));
}

/// Tests whether a point held in wide integers is outside the disc.
fn is_outside(re: i128, im: i128) -> (out: bool)
    ensures
        out == escaped((re as int, im as int)),
        !out ==> -2 * SCALE <= re <= 2 * SCALE && -2 * SCALE <= im <= 2 * SCALE,
{
    let limit: i128 = 2 * (SCALE as i128);
    if re > limit || re < -limit || im > limit || im < -limit {
        proof {
            let s = SCALE as int;
            assert(re * re + im * im > 4 * s * s) by (nonlinear_arith)
                requires
                    s > 0,
                    re > 2 * s || re < -2 * s || im > 2 * s || im < -2 * s,
            ;
        }
        true
    } else {
        assert(re * re <= 4 * (SCALE as int) * (SCALE as int) && im * im <= 4 * (SCALE as int) * (
        SCALE as int) && re * re >= 0 && im * im >= 0) by (nonlinear_arith)
            requires
                SCALE == 1_000_000_000,
                -2 * SCALE <= re <= 2 * SCALE,
                -2 * SCALE <= im <= 2 * SCALE,
        ;
        re * re + im * im > 4 * (SCALE as i128) * (SCALE as i128)
    }
}

/// One step of the recurrence from a point inside the disc, in wide integers.
fn advance(re: i128, im: i128, constant: Complex) -> (next: (i128, i128))
    requires
        -2 * SCALE <= re <= 2 * SCALE,
        -2 * SCALE <= im <= 2 * SCALE,
    ensures
        (next.0 as int, next.1 as int) == next_point((re as int, im as int), constant@),
{
    assert(0 <= re * re <= 4 * (SCALE as int) * (SCALE as int) && 0 <= im * im <= 4 * (
    SCALE as int) * (SCALE as int) && -4 * (SCALE as int) * (SCALE as int) <= re * im <= 4 * (
    SCALE as int) * (SCALE as int)) by (nonlinear_arith)
        requires
            SCALE == 1_000_000_000,
            -2 * SCALE <= re <= 2 * SCALE,
            -2 * SCALE <= im <= 2 * SCALE,
    ;
    let cross: i128 = re * im;
    assert(re * im + im * re == cross + cross) by (nonlinear_arith)
        requires
            cross == re * im,
    ;
    let sq_re: i128 = div_floor(re * re - im * im, SCALE as i128);
    let sq_im: i128 = div_floor(cross + cross, SCALE as i128);
    (sq_re + constant.0 as i128, sq_im + constant.1 as i128)
}

/// Escape time of `z` under the recurrence with the given constant: `Some(k)`
/// when the `k`-th orbit point is the first outside the disc of radius two,
/// `None` when the first `MAX_ITERATIONS` orbit points all stay inside.
pub fn classify(z: Complex, constant: Complex) -> (result: Option<u32>)
    ensures
        result == escape_time(z@, constant@),
{
    let mut re: i128 = z.0 as i128;
    let mut im: i128 = z.1 as i128;
    let mut iter: u32 = 0;
    while iter < MAX_ITERATIONS
        invariant
            iter <= MAX_ITERATIONS,
            (re as int, im as int) == orbit(z@, constant@, iter as nat),
            bounded_before(z@, constant@, iter as nat),
        decreases MAX_ITERATIONS - iter,
    {
        if is_outside(re, im) {
            proof {
                lemma_escape_time_is(z@, constant@, iter as nat);
            }
            return Some(iter);
        }
        let next = advance(re, im, constant);
        re = next.0;
        im = next.1;
        iter = iter + 1;
    }
    proof {
        lemma_escape_time_none(z@, constant@);
    }
    None
}

} // verus!
