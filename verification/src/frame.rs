//! The frame of a region: what one evaluation yields, stated over the
//! fields of its strips.
use vstd::prelude::*;
use crate::complex::fits;
use crate::gathering::{
    lemma_arrival_order,
    lemma_flatten_keeps,
    lemma_flatten_member,
    lemma_flatten_of_empty,
};
use crate::kernel::{escape_time, MAX_ITERATIONS};
use crate::gathering::lemma_filter_map_split;
use crate::strips::{
    Region,
    lemma_strip_width,
    lemma_strips_cover,
    lemma_strips_degenerate,
    strip,
    strip_edge,
    strip_steps,
    strip_width,
};
use crate::sweep::{
    Rated,
    axis_count,
    field,
    grid_point,
    lemma_axis_shift,
    lemma_axis_whole,
    lemma_coarse_axis,
    lemma_field_complete,
    lemma_field_sound,
    rate,
    samples,
    unlimited,
};
use vstd::arithmetic::div_mod::lemma_fundamental_div_mod_converse;

verus! {

/// The field of the `i`-th strip.
pub open spec fn strip_field(r: Region, i: int) -> Seq<Rated> {
    field(r.resolution, strip(r, i).0, strip(r, i).1, r.constant)
}

/// The fields of all strips, in dispatch order.
pub open spec fn strip_fields(r: Region) -> Seq<Seq<Rated>> {
    Seq::new(r.strips, |i: int| strip_field(r, i))
}

/// The frame of a region: the fields of its strips, one after the other.
pub open spec fn frame(r: Region) -> Seq<Rated> {
    strip_fields(r).flatten()
}

/// Every point of a frame is a grid sample inside the rectangle, lower edges
/// included and upper edges excluded, and carries its own escape time, which
/// is below the iteration budget.
pub proof fn lemma_frame_sound(r: Region, k: int)
    requires
        r.resolution > 0,
        fits(r.min),
        fits(r.max),
        0 <= k < frame(r).len(),
    ensures
        r.min.0 <= frame(r)[k].0 < r.max.0,
        r.min.1 <= frame(r)[k].1 < r.max.1,
        frame(r)[k].2 < MAX_ITERATIONS,
        escape_time((frame(r)[k].0 as int, frame(r)[k].1 as int), r.constant) == Some(
            frame(r)[k].2,
        ),
{
    let parts = strip_fields(r);
    lemma_flatten_member(parts, k);
    let (i, j) = choose|i: int, j: int|
        0 <= i < parts.len() && 0 <= j < parts[i].len() && #[trigger] parts[i][j]
            == parts.flatten()[k];
    if r.min.0 <= r.max.0 {
        lemma_strips_cover(r);
    } else {
        lemma_strips_degenerate(r);
    }
    assert(r.min.0 <= strip_edge(r, i) || strip_edge(r, i) == r.max.0);
    assert(strip_edge(r, i + 1) <= r.max.0);
    lemma_field_sound(r.resolution, strip(r, i).0, strip(r, i).1, r.constant, j);
}

/// Every escaping grid sample of every strip is a point of the frame.
pub proof fn lemma_frame_complete(r: Region, i: int, x: int, y: int)
    requires
        r.resolution > 0,
        0 <= i < r.strips,
        0 <= x < axis_count(strip(r, i).0.0, strip(r, i).1.0, r.resolution),
        0 <= y < axis_count(r.min.1, r.max.1, r.resolution),
        escape_time(grid_point(r.resolution, strip(r, i).0, x, y), r.constant) is Some,
    ensures
        frame(r).contains(
            (
                grid_point(r.resolution, strip(r, i).0, x, y).0 as i64,
                grid_point(r.resolution, strip(r, i).0, x, y).1 as i64,
                escape_time(grid_point(r.resolution, strip(r, i).0, x, y), r.constant)->0,
            ),
        ),
{
    let parts = strip_fields(r);
    lemma_field_complete(r.resolution, strip(r, i).0, strip(r, i).1, r.constant, x, y);
    let e = (
        grid_point(r.resolution, strip(r, i).0, x, y).0 as i64,
        grid_point(r.resolution, strip(r, i).0, x, y).1 as i64,
        escape_time(grid_point(r.resolution, strip(r, i).0, x, y), r.constant)->0,
    );
    let j = choose|j: int| 0 <= j < parts[i].len() && parts[i][j] == e;
    lemma_flatten_keeps(parts, i, j);
}

/// A sampling step of more than twice the rectangle's extent along either
/// axis leaves no sample, so the frame is empty.
pub proof fn lemma_coarse_frame_empty(r: Region)
    requires
        r.resolution > 0,
        2 * (r.max.0 - r.min.0) < r.resolution || 2 * (r.max.1 - r.min.1) < r.resolution,
    ensures
        frame(r).len() == 0,
{
    let parts = strip_fields(r);
    if r.strips >= 1 {
        if r.min.0 <= r.max.0 {
            lemma_strips_cover(r);
        } else {
            lemma_strips_degenerate(r);
        }
    }
    assert forall|i: int| 0 <= i < parts.len() implies (#[trigger] parts[i]).len() == 0 by {
        let lo = strip(r, i).0;
        let hi = strip(r, i).1;
        let res = r.resolution;
        assert(hi.0 - lo.0 <= r.max.0 - r.min.0 || hi.0 - lo.0 <= 0);
        assert(hi.1 - lo.1 == r.max.1 - r.min.1);
        lemma_coarse_axis(lo.0, hi.0, res);
        lemma_coarse_axis(lo.1, hi.1, res);
        let cols = axis_count(lo.0, hi.0, res);
        let rows = axis_count(lo.1, hi.1, res);
        assert(cols * rows == 0) by (nonlinear_arith)
            requires
                cols == 0 || rows == 0,
        ;
        assert(samples(res, lo, hi).len() == 0);
    }
    lemma_flatten_of_empty(parts);
}

/// The strips' fields join to the same collection of points, each as often,
/// in whatever order they arrive: two evaluations of one region agree up to
/// the order of their points.
pub proof fn lemma_frame_any_order(r: Region, arrived: Seq<Seq<Rated>>)
    requires
        arrived.to_multiset() == strip_fields(r).to_multiset(),
    ensures
        arrived.flatten().to_multiset() == frame(r).to_multiset(),
        arrived.flatten().len() == frame(r).len(),
{
    lemma_arrival_order(arrived, strip_fields(r));
}

/// Number of grid columns of the rectangle that lie before strip `i`.
pub open spec fn columns_before(r: Region, i: int) -> int {
    let all = axis_count(r.min.0, r.max.0, r.resolution) as int;
    if i * strip_steps(r) < all {
        i * strip_steps(r)
    } else {
        all
    }
}

/// Where the `j`-th strip boundary lies among the grid columns.
proof fn lemma_edge_column(r: Region, j: int)
    requires
        r.resolution > 0,
        r.strips >= 1,
        r.min.0 < r.max.0,
        unlimited(r.min.0, r.max.0, r.resolution),
        0 <= j,
    ensures
        0 <= columns_before(r, j) <= axis_count(r.min.0, r.max.0, r.resolution),
        j * strip_width(r) <= r.max.0 - r.min.0 ==> columns_before(r, j) == j * strip_steps(r)
            && strip_edge(r, j) == r.min.0 + columns_before(r, j) * r.resolution,
        j * strip_width(r) > r.max.0 - r.min.0 ==> columns_before(r, j) == axis_count(
            r.min.0,
            r.max.0,
            r.resolution,
        ) && strip_edge(r, j) == r.max.0,
{
    lemma_strip_width(r);
    let d = r.resolution;
    let s = strip_steps(r);
    let w = strip_width(r);
    let span = r.max.0 - r.min.0;
    let all = axis_count(r.min.0, r.max.0, d) as int;
    assert(j * s >= 0) by (nonlinear_arith)
        requires
            j >= 0,
            s >= 1,
    ;
    assert(j * w == (j * s) * d) by (nonlinear_arith)
        requires
            w == d * s,
    ;
    if j * w <= span {
        lemma_axis_shift(r.min.0, r.max.0, d, j * s);
    } else {
        let q = (2 * span + d) / (2 * d);
        assert(q * (2 * d) <= 2 * span + d) by (nonlinear_arith)
            requires
                d > 0,
                q == (2 * span + d) / (2 * d),
        ;
        assert(q <= j * s) by (nonlinear_arith)
            requires
                q * (2 * d) <= 2 * span + d,
                (j * s) * d > span,
                d > 0,
        ;
    }
}

/// The columns of strip `i` are the columns of the rectangle from
/// `columns_before(r, i)` up to `columns_before(r, i + 1)`.
proof fn lemma_strip_columns(r: Region, i: int)
    requires
        r.resolution > 0,
        r.strips >= 1,
        r.min.0 < r.max.0,
        unlimited(r.min.0, r.max.0, r.resolution),
        0 <= i,
    ensures
        0 <= columns_before(r, i) <= columns_before(r, i + 1) <= axis_count(
            r.min.0,
            r.max.0,
            r.resolution,
        ),
        axis_count(strip_edge(r, i), strip_edge(r, i + 1), r.resolution) == columns_before(
            r,
            i + 1,
        ) - columns_before(r, i),
        columns_before(r, i) < columns_before(r, i + 1) ==> strip_edge(r, i) == r.min.0
            + columns_before(r, i) * r.resolution,
{
    lemma_strip_width(r);
    lemma_edge_column(r, i);
    lemma_edge_column(r, i + 1);
    let d = r.resolution;
    let s = strip_steps(r);
    let w = strip_width(r);
    let span = r.max.0 - r.min.0;
    let all = axis_count(r.min.0, r.max.0, d) as int;
    assert((i + 1) * w == i * w + w && (i + 1) * s == i * s + s) by (nonlinear_arith);
    assert(i * s >= 0) by (nonlinear_arith)
        requires
            i >= 0,
            s >= 1,
    ;
    if (i + 1) * w <= span {
        let lo = strip_edge(r, i);
        assert(strip_edge(r, i + 1) == lo + s * d) by (nonlinear_arith)
            requires
                lo == r.min.0 + (i * s) * d,
                strip_edge(r, i + 1) == r.min.0 + (i * s + s) * d,
        ;
        lemma_axis_whole(lo, d, s);
    } else if i * w <= span {
        lemma_axis_shift(r.min.0, r.max.0, d, i * s);
    } else {
        lemma_axis_whole(r.max.0, d, 0);
    }
}

/// The samples of strip `i` are a stretch of the samples of the rectangle.
proof fn lemma_strip_samples(r: Region, i: int)
    requires
        r.resolution > 0,
        r.strips >= 1,
        r.min.0 < r.max.0,
        unlimited(r.min.0, r.max.0, r.resolution),
        0 <= i,
    ensures
        ({
            let rows = axis_count(r.min.1, r.max.1, r.resolution) as int;
            let all = samples(r.resolution, r.min, r.max);
            &&& 0 <= columns_before(r, i) * rows <= columns_before(r, i + 1) * rows <= all.len()
            &&& samples(r.resolution, strip(r, i).0, strip(r, i).1) == all.subrange(
                columns_before(r, i) * rows,
                columns_before(r, i + 1) * rows,
            )
        }),
{
    lemma_strip_columns(r, i);
    let d = r.resolution;
    let rows = axis_count(r.min.1, r.max.1, d) as int;
    let cols = axis_count(r.min.0, r.max.0, d) as int;
    let all = samples(d, r.min, r.max);
    let lo = strip(r, i).0;
    let hi = strip(r, i).1;
    let part = samples(d, lo, hi);
    let a = columns_before(r, i);
    let b = columns_before(r, i + 1);
    assert(0 <= a * rows <= b * rows <= cols * rows && (b - a) * rows == b * rows - a * rows)
        by (nonlinear_arith)
        requires
            0 <= a <= b <= cols,
            rows >= 0,
    ;
    let stretch = all.subrange(a * rows, b * rows);
    assert(part.len() == stretch.len());
    assert forall|k: int| 0 <= k < part.len() implies part[k] == stretch[k] by {
        assert(rows > 0 && a < b) by (nonlinear_arith)
            requires
                0 <= k < (b - a) * rows,
                rows >= 0,
                a <= b,
        ;
        let x = k / rows;
        let y = k % rows;
        assert(k == x * rows + y && 0 <= y < rows) by (nonlinear_arith)
            requires
                rows > 0,
                x == k / rows,
                y == k % rows,
        ;
        assert(a * rows + k == (a + x) * rows + y) by (nonlinear_arith)
            requires
                k == x * rows + y,
        ;
        lemma_fundamental_div_mod_converse(a * rows + k, rows, a + x, y);
        assert(lo.0 + x * d == r.min.0 + (a + x) * d) by (nonlinear_arith)
            requires
                lo.0 == r.min.0 + a * d,
        ;
    }
    assert(part =~= stretch);
}

/// The fields of the first `i` strips, one after the other, are the rated
/// samples of the rectangle that lie before strip `i`.
proof fn lemma_frame_prefix(r: Region, i: int)
    requires
        r.resolution > 0,
        r.strips >= 1,
        r.min.0 < r.max.0,
        unlimited(r.min.0, r.max.0, r.resolution),
        0 <= i <= r.strips,
    ensures
        strip_fields(r).take(i).flatten() == samples(r.resolution, r.min, r.max).take(
            columns_before(r, i) * axis_count(r.min.1, r.max.1, r.resolution),
        ).filter_map(rate(r.constant)),
    decreases i,
{
    let parts = strip_fields(r);
    let all = samples(r.resolution, r.min, r.max);
    let rows = axis_count(r.min.1, r.max.1, r.resolution) as int;
    let f = rate(r.constant);
    if i == 0 {
        lemma_edge_column(r, 0);
        lemma_strip_width(r);
        assert(0 * strip_width(r) == 0 && 0 * strip_steps(r) == 0) by (nonlinear_arith);
        assert(columns_before(r, 0) == 0);
        assert(columns_before(r, 0) * rows == 0) by (nonlinear_arith)
            requires
                columns_before(r, 0) == 0,
        ;
        assert(parts.take(0) =~= Seq::<Seq<Rated>>::empty());
        assert(all.take(0).filter_map(f) =~= Seq::<Rated>::empty());
    } else {
        lemma_frame_prefix(r, i - 1);
        lemma_strip_samples(r, i - 1);
        assert(parts.take(i) =~= parts.take(i - 1).push(parts[i - 1]));
        parts.take(i - 1).lemma_flatten_push(parts[i - 1]);
        lemma_filter_map_split(
            all,
            f,
            columns_before(r, i - 1) * rows,
            columns_before(r, i) * rows,
        );
    }
}

/// Cutting the rectangle into strips changes nothing: the frame is the field
/// of the whole rectangle, sample for sample and in the same order, whatever
/// the number of strips.
pub proof fn lemma_frame_is_field(r: Region)
    requires
        r.resolution > 0,
        r.strips >= 1,
        r.max.0 - r.min.0 <= i32::MAX * r.resolution,
    ensures
        frame(r) == field(r.resolution, r.min, r.max, r.constant),
{
    let d = r.resolution;
    let all = samples(d, r.min, r.max);
    let parts = strip_fields(r);
    let n = r.strips as int;
    if r.min.0 < r.max.0 {
        let span = r.max.0 - r.min.0;
        assert((2 * span + d) / (2 * d) <= i32::MAX) by (nonlinear_arith)
            requires
                d > 0,
                span <= i32::MAX * d,
        ;
        lemma_frame_prefix(r, n);
        lemma_edge_column(r, n);
        lemma_strip_width(r);
        let s = strip_steps(r);
        let cols = axis_count(r.min.0, r.max.0, d) as int;
        if n * strip_width(r) == span {
            assert(span == (n * s) * d) by (nonlinear_arith)
                requires
                    span == n * (d * s),
            ;
            assert(n * s >= 0) by (nonlinear_arith)
                requires
                    n >= 1,
                    s >= 1,
            ;
            lemma_axis_shift(r.min.0, r.max.0, d, n * s);
            lemma_axis_whole(r.max.0, d, 0);
        }
        assert(columns_before(r, n) == cols);
        assert(parts.take(n) =~= parts);
        assert(all.take(all.len() as int) =~= all);
    } else {
        lemma_strips_degenerate(r);
        assert forall|i: int| 0 <= i < parts.len() implies (#[trigger] parts[i]).len() == 0 by {
            lemma_axis_whole(r.max.0, d, 0);
            let cols = axis_count(strip(r, i).0.0, strip(r, i).1.0, d);
            let rows = axis_count(strip(r, i).0.1, strip(r, i).1.1, d);
            assert(cols * rows == 0) by (nonlinear_arith)
                requires
                    cols == 0,
            ;
            assert(samples(d, strip(r, i).0, strip(r, i).1).len() == 0);
        }
        lemma_flatten_of_empty(parts);
        lemma_coarse_axis(r.min.0, r.max.0, d);
        if r.min.0 == r.max.0 {
            lemma_axis_whole(r.min.0, d, 0);
        }
        let cols = axis_count(r.min.0, r.max.0, d);
        let rows = axis_count(r.min.1, r.max.1, d);
        assert(cols * rows == 0) by (nonlinear_arith)
            requires
                cols == 0,
        ;
        assert(all.len() == 0);
        assert(frame(r) =~= field(d, r.min, r.max, r.constant));
    }
}

} // verus!
