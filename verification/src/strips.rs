//! How a rectangle is cut into vertical strips.
use vstd::prelude::*;

verus! {

/// What an engine evaluates: the rectangle from `min` up to `max`, the
/// sampling step, the constant of the recurrence and the number of strips.
pub struct Region {
    pub resolution: int,
    pub min: (int, int),
    pub max: (int, int),
    pub constant: (int, int),
    pub strips: nat,
}

/// `n / d` rounded up to a whole number.
pub open spec fn ceil_div(n: int, d: int) -> int {
    if n % d == 0 {
        n / d
    } else {
        n / d + 1
    }
}

/// Number of sampling steps in a full strip: the least with which `strips`
/// strips reach across the rectangle.
pub open spec fn strip_steps(r: Region) -> int {
    ceil_div(r.max.0 - r.min.0, r.strips * r.resolution)
}

/// Width of a full strip.
pub open spec fn strip_width(r: Region) -> int {
    r.resolution * strip_steps(r)
}

/// The `i`-th strip boundary along the real axis, never beyond the upper end
/// of the rectangle.
pub open spec fn strip_edge(r: Region, i: int) -> int {
    let e = r.min.0 + i * strip_width(r);
    if e > r.max.0 {
        r.max.0
    } else {
        e
    }
}

/// Corners of the `i`-th strip: it runs between two neighbouring boundaries
/// and has the full height of the rectangle.
pub open spec fn strip(r: Region, i: int) -> ((int, int), (int, int)) {
    ((strip_edge(r, i), r.min.1), (strip_edge(r, i + 1), r.max.1))
}

/// Strips of positive width reach across the rectangle, and each is less
/// than one sampling step wider than an equal share.
pub proof fn lemma_strip_width(r: Region)
    requires
        r.resolution > 0,
        r.strips >= 1,
    ensures
        r.strips * strip_width(r) >= r.max.0 - r.min.0,
        r.max.0 > r.min.0 ==> 0 < strip_width(r) < (r.max.0 - r.min.0) + r.resolution,
        r.max.0 > r.min.0 ==> strip_steps(r) >= 1,
        r.max.0 <= r.min.0 ==> strip_width(r) <= 0,
        r.max.0 == r.min.0 ==> strip_width(r) == 0,
{
    let span = r.max.0 - r.min.0;
    let n = r.strips as int;
    let res = r.resolution;
    let d = n * res;
    let s = ceil_div(span, d);
    assert(d > 0 && d >= res) by (nonlinear_arith)
        requires
            d == n * res,
            n >= 1,
            res > 0,
    ;
    assert(span == d * (span / d) + span % d && 0 <= span % d < d) by (nonlinear_arith)
        requires
            d > 0,
    ;
    assert(d * s >= span && d * (s - 1) < span) by (nonlinear_arith)
        requires
            span == d * (span / d) + span % d,
            0 <= span % d < d,
            s == if span % d == 0 {
                span / d
            } else {
                span / d + 1
            },
    ;
    assert(n * (res * s) == d * s) by (nonlinear_arith)
        requires
            d == n * res,
    ;
    if span > 0 {
        assert(s >= 1) by (nonlinear_arith)
            requires
                d * s >= span,
                span > 0,
                d > 0,
        ;
        assert(res * s > 0 && res * (s - 1) <= d * (s - 1)) by (nonlinear_arith)
            requires
                s >= 1,
                res > 0,
                d >= res,
        ;
        assert(res * s == res * (s - 1) + res) by (nonlinear_arith);
    } else {
        assert(s <= 0) by (nonlinear_arith)
            requires
                d * (s - 1) < span,
                span <= 0,
                d > 0,
        ;
        assert(res * s <= 0) by (nonlinear_arith)
            requires
                s <= 0,
                res > 0,
        ;
        if span == 0 {
            assert(s >= 0) by (nonlinear_arith)
                requires
                    d * s >= 0,
                    d > 0,
            ;
            assert(res * s == 0) by (nonlinear_arith)
                requires
                    s == 0,
            ;
        }
    }
}

/// The strip boundaries rise from the lower end of the rectangle to its
/// upper end: the strips cover the rectangle's extent along the real axis
/// with no gap and no overlap, and the last one ends exactly at the upper end.
pub proof fn lemma_strips_cover(r: Region)
    requires
        r.resolution > 0,
        r.strips >= 1,
        r.min.0 <= r.max.0,
    ensures
        strip_edge(r, 0) == r.min.0,
        strip_edge(r, r.strips as int) == r.max.0,
        forall|i: int|
            0 <= i < r.strips ==> r.min.0 <= #[trigger] strip_edge(r, i) <= strip_edge(r, i + 1)
                <= r.max.0,
        forall|i: int|
            0 <= i < r.strips ==> (#[trigger] strip(r, i)).0.0 == strip_edge(r, i) && strip(
                r,
                i,
            ).1.0 == strip_edge(r, i + 1),
        strip(r, r.strips - 1).1.0 == r.max.0,
{
    lemma_strip_width(r);
    let w = strip_width(r);
    assert forall|i: int| 0 <= i < r.strips implies r.min.0 <= #[trigger] strip_edge(r, i)
        <= strip_edge(r, i + 1) <= r.max.0 by {
        assert(i * w >= 0 && (i + 1) * w == i * w + w) by (nonlinear_arith)
            requires
                i >= 0,
                w >= 0,
        ;
    }
}

/// A rectangle without extent along the real axis has all its strip
/// boundaries at its upper end.
pub proof fn lemma_strips_degenerate(r: Region)
    requires
        r.resolution > 0,
        r.strips >= 1,
        r.max.0 <= r.min.0,
    ensures
        forall|i: int| 0 <= i <= r.strips ==> #[trigger] strip_edge(r, i) == r.max.0,
{
    lemma_strip_width(r);
    let w = strip_width(r);
    let n = r.strips as int;
    assert forall|i: int| 0 <= i <= r.strips implies #[trigger] strip_edge(r, i) == r.max.0 by {
        assert(i * w >= n * w) by (nonlinear_arith)
            requires
                0 <= i <= n,
                w <= 0,
        ;
    }
}

/// The coordinate `x` lies in the `i`-th strip, ends included.
pub open spec fn in_strip(r: Region, i: int, x: int) -> bool {
    strip(r, i).0.0 <= x <= strip(r, i).1.0
}

/// A coordinate between the lower end and the `k`-th boundary lies in one of
/// the first `k` strips.
proof fn lemma_reach_up_to(r: Region, x: int, k: int)
    requires
        r.resolution > 0,
        r.strips >= 1,
        1 <= k <= r.strips,
        r.min.0 <= x <= strip_edge(r, k),
    ensures
        exists|i: int| 0 <= i < k && #[trigger] in_strip(r, i, x),
    decreases k,
{
    lemma_strips_cover(r);
    if x >= strip_edge(r, k - 1) {
        assert(in_strip(r, k - 1, x));
    } else {
        lemma_reach_up_to(r, x, k - 1);
        let i = choose|i: int| 0 <= i < k - 1 && #[trigger] in_strip(r, i, x);
        assert(in_strip(r, i, x));
    }
}

/// The strips cover the rectangle's extent along the real axis exactly: a
/// coordinate lies in some strip if and only if it lies between the lower
/// end and the upper end.
pub proof fn lemma_strips_reach(r: Region, x: int)
    requires
        r.resolution > 0,
        r.strips >= 1,
        r.min.0 <= r.max.0,
    ensures
        (exists|i: int| 0 <= i < r.strips && #[trigger] in_strip(r, i, x)) <==> r.min.0 <= x
            <= r.max.0,
{
    lemma_strips_cover(r);
    if r.min.0 <= x <= r.max.0 {
        lemma_reach_up_to(r, x, r.strips as int);
    }
    if exists|i: int| 0 <= i < r.strips && #[trigger] in_strip(r, i, x) {
        let i = choose|i: int| 0 <= i < r.strips && #[trigger] in_strip(r, i, x);
        assert(r.min.0 <= strip_edge(r, i) <= strip_edge(r, i + 1) <= r.max.0);
    }
}

} // verus!
