//! One step of corner cutting: every edge of a polyline or polygon is
//! replaced by the two points a quarter and three quarters along it.

use vstd::prelude::*;
use vstd::arithmetic::div_mod::{lemma_mod_bound, lemma_mod_self_0, lemma_small_mod};
use crate::point::{blend, interpolate, lemma_blend_between, lemma_blend_keeps_alignment, lemma_coarser_alignment, on_grid, Point};

verus! {

/// How many edges a sequence of `len` points has: consecutive pairs, plus
/// the edge from the last point back to the first when the shape is closed.
/// Fewer than two points have no edge.
pub open spec fn edge_count(len: nat, closed: bool) -> nat {
    if len < 2 {
        0
    } else if closed {
        len
    } else {
        (len - 1) as nat
    }
}

/// The `k`-th point of the refined sequence: edge `k / 2` runs from
/// `points[k / 2]` to its successor (cyclically), and contributes its
/// quarter point at even `k`, its three-quarter point at odd `k`.
pub open spec fn cut_point(points: Seq<Point>, k: int) -> Point {
    let p1 = points[k / 2];
    let p2 = points[(k / 2 + 1) % (points.len() as int)];
    if k % 2 == 0 {
        interpolate(p1, p2, 1)
    } else {
        interpolate(p1, p2, 3)
    }
}

/// The result of one refinement step. Sequences shorter than two points
/// are left as they are; otherwise each edge, in traversal order, yields
/// its two cut points, and none of the input points is kept.
pub open spec fn refined(points: Seq<Point>, closed: bool) -> Seq<Point> {
    if points.len() < 2 {
        points
    } else {
        Seq::new(2 * edge_count(points.len(), closed), |k: int| cut_point(points, k))
    }
}

/// Whether `p` lies on the line `a * x + b * y == c`.
pub open spec fn on_line(p: Point, a: int, b: int, c: int) -> bool {
    a * (p.x as int) + b * (p.y as int) == c
}

/// Whether both coordinates of every point are multiples of `unit`.
pub open spec fn aligned(points: Seq<Point>, unit: int) -> bool {
    forall|i: int| 0 <= i < points.len() ==> on_grid(#[trigger] points[i], unit)
}

/// Whether `q` is at most `bound` away from `p` in each coordinate.
pub open spec fn near(p: Point, q: Point, bound: int) -> bool {
    &&& -bound <= q.x - p.x <= bound
    &&& -bound <= q.y - p.y <= bound
}

/// Whether the edge that starts at `points[i]` ends within `bound` of
/// where it starts.
pub open spec fn edge_within(points: Seq<Point>, i: int, bound: int) -> bool {
    near(points[i], points[(i + 1) % (points.len() as int)], bound)
}

/// Whether every edge of the sequence spans at most `bound` in each
/// coordinate.
pub open spec fn edges_within(points: Seq<Point>, closed: bool, bound: int) -> bool {
    forall|i: int| 0 <= i < edge_count(points.len(), closed) ==> #[trigger] edge_within(points, i, bound)
}

/// Refines `points` once by corner cutting. `is_closed` adds the edge from
/// the last point back to the first.
pub fn chaikin(points: &[Point], is_closed: bool) -> (new_points: Vec<Point>)
    ensures
        new_points@ == refined(points@, is_closed),
        points@.len() < 2 ==> new_points@ == points@,
        points@.len() >= 2 && !is_closed ==> new_points@.len() == 2 * (points@.len() - 1),
        points@.len() >= 2 && is_closed ==> new_points@.len() == 2 * points@.len(),
{
    let n: usize = points.len();
    if n < 2 {
        return vstd::slice::slice_to_vec(points);
    }
    let mut new_points: Vec<Point> = Vec::new();
    let mut i: usize = 0;
    while i < n - 1
        invariant
            n == points@.len(),
            n >= 2,
            i <= n - 1,
            new_points@.len() == 2 * i,
            forall|k: int| 0 <= k < 2 * i ==> new_points@[k] == cut_point(points@, k),
        decreases n - 1 - i,
    {
        let p1: Point = points[i];
        let p2: Point = points[i + 1];
        let q: Point = p1.quarter(p2);
        let r: Point = p1.three_quarters(p2);
        proof {
            lemma_small_mod((i + 1) as nat, n as nat);
        }
        new_points.push(q);
        new_points.push(r);
        i = i + 1;
    }
    if is_closed {
        let p1: Point = points[n - 1];
        let p2: Point = points[0];
        let q: Point = p1.quarter(p2);
        let r: Point = p1.three_quarters(p2);
        proof {
            lemma_mod_self_0(n as int);
        }
        new_points.push(q);
        new_points.push(r);
    }
    assert(new_points@ =~= refined(points@, is_closed));
    new_points
}

/// Cutting corners keeps a straight run straight: if every point lies on
/// the line `a * x + b * y == c` and no cut is rounded, then every point of
/// the refined sequence lies on that same line.
pub proof fn lemma_refined_stays_on_line(points: Seq<Point>, closed: bool, a: int, b: int, c: int)
    requires
        aligned(points, 4),
        forall|i: int| 0 <= i < points.len() ==> on_line(#[trigger] points[i], a, b, c),
    ensures
        forall|k: int|
            0 <= k < refined(points, closed).len() ==> on_line(
                #[trigger] refined(points, closed)[k],
                a,
                b,
                c,
            ),
{
    let out = refined(points, closed);
    if points.len() >= 2 {
        assert forall|k: int| 0 <= k < out.len() implies on_line(#[trigger] out[k], a, b, c) by {
            let n = points.len() as int;
            let p1 = points[k / 2];
            let p2 = points[(k / 2 + 1) % n];
            assert(0 <= k / 2 < n);
            assert(0 <= (k / 2 + 1) % n < n);
            assert(on_line(p1, a, b, c) && on_line(p2, a, b, c));
            let w: int = if k % 2 == 0 { 1 } else { 3 };
            assert(out[k] == interpolate(p1, p2, w));
            lemma_interpolate_on_line(p1, p2, w, a, b, c);
        }
    }
}

/// A cut between two aligned points of a line lies on that line.
proof fn lemma_interpolate_on_line(p1: Point, p2: Point, w: int, a: int, b: int, c: int)
    requires
        w == 1 || w == 3,
        on_grid(p1, 4),
        on_grid(p2, 4),
        on_line(p1, a, b, c),
        on_line(p2, a, b, c),
    ensures
        on_line(interpolate(p1, p2, w), a, b, c),
{
    let x1 = p1.x as int;
    let y1 = p1.y as int;
    let x2 = p2.x as int;
    let y2 = p2.y as int;
    let qx = blend(x1, x2, w);
    let qy = blend(y1, y2, w);
    lemma_blend_keeps_alignment(x1, x2, w, 1);
    lemma_blend_keeps_alignment(y1, y2, w, 1);
    lemma_blend_between(x1, x2, w);
    lemma_blend_between(y1, y2, w);
    assert(interpolate(p1, p2, w).x as int == qx);
    assert(interpolate(p1, p2, w).y as int == qy);
    let m: int = 4 - w;
    lemma_scaled_sum(a, qx, x1, x2, m, w);
    lemma_scaled_sum(b, qy, y1, y2, m, w);
    assert(m * (a * x1) + m * (b * y1) == m * c) by (nonlinear_arith)
        requires
            a * x1 + b * y1 == c,
    ;
    assert(w * (a * x2) + w * (b * y2) == w * c) by (nonlinear_arith)
        requires
            a * x2 + b * y2 == c,
    ;
    assert(m * c + w * c == 4 * c) by (nonlinear_arith)
        requires
            m + w == 4,
    ;
    assert(4 * (a * qx) + 4 * (b * qy) == 4 * c);
}

/// The coordinates of a cut between two points aligned to four times
/// `unit`: exact, within `i32`, and aligned to `unit`.
proof fn lemma_interpolate_exact(p1: Point, p2: Point, w: int, unit: int)
    requires
        w == 1 || w == 3,
        unit > 0,
        on_grid(p1, 4 * unit),
        on_grid(p2, 4 * unit),
    ensures
        4 * interpolate(p1, p2, w).x == (4 - w) * p1.x + w * p2.x,
        4 * interpolate(p1, p2, w).y == (4 - w) * p1.y + w * p2.y,
        on_grid(interpolate(p1, p2, w), unit),
{
    lemma_blend_keeps_alignment(p1.x as int, p2.x as int, w, unit);
    lemma_blend_keeps_alignment(p1.y as int, p2.y as int, w, unit);
    lemma_blend_between(p1.x as int, p2.x as int, w);
    lemma_blend_between(p1.y as int, p2.y as int, w);
}

/// Refinement uses up one factor of four of the alignment and no more:
/// points aligned to four times `unit` are cut without rounding into
/// points aligned to `unit`.
pub proof fn lemma_refined_keeps_alignment(points: Seq<Point>, closed: bool, unit: int)
    requires
        unit > 0,
        aligned(points, 4 * unit),
    ensures
        aligned(refined(points, closed), unit),
{
    let out = refined(points, closed);
    let n = points.len() as int;
    assert forall|k: int| 0 <= k < out.len() implies on_grid(#[trigger] out[k], unit) by {
        if n < 2 {
            lemma_coarser_alignment(points[k].x as int, unit);
            lemma_coarser_alignment(points[k].y as int, unit);
        } else {
            let p1 = points[k / 2];
            let p2 = points[(k / 2 + 1) % n];
            assert(0 <= k / 2 < n);
            assert(0 <= (k / 2 + 1) % n < n);
            let w: int = if k % 2 == 0 { 1 } else { 3 };
            lemma_interpolate_exact(p1, p2, w, unit);
        }
    }
}

/// The two cuts of one edge are half as far apart as its ends.
proof fn lemma_cuts_of_one_edge(a: Point, b: Point, bound: int)
    requires
        on_grid(a, 4),
        on_grid(b, 4),
        near(a, b, 2 * bound),
    ensures
        near(interpolate(a, b, 1), interpolate(a, b, 3), bound),
{
    lemma_interpolate_exact(a, b, 1, 1);
    lemma_interpolate_exact(a, b, 3, 1);
}

/// Where one edge ends and the next begins, the last cut of the first
/// and the first cut of the second are at most half an edge apart.
proof fn lemma_cuts_around_a_corner(a: Point, b: Point, c: Point, bound: int)
    requires
        on_grid(a, 4),
        on_grid(b, 4),
        on_grid(c, 4),
        near(a, b, 2 * bound),
        near(b, c, 2 * bound),
    ensures
        near(interpolate(a, b, 3), interpolate(b, c, 1), bound),
{
    lemma_interpolate_exact(a, b, 3, 1);
    lemma_interpolate_exact(b, c, 1, 1);
}

/// Edge `i` of the refined sequence's source: its two ends are in the
/// sequence, on the grid and near each other.
proof fn lemma_edge_ends(points: Seq<Point>, closed: bool, bound: int, i: int)
    requires
        aligned(points, 4),
        edges_within(points, closed, bound),
        0 <= i < edge_count(points.len(), closed),
    ensures
        0 <= i < points.len(),
        0 <= (i + 1) % (points.len() as int) < points.len(),
        on_grid(points[i], 4),
        on_grid(points[(i + 1) % (points.len() as int)], 4),
        near(points[i], points[(i + 1) % (points.len() as int)], bound),
{
    lemma_mod_bound(i + 1, points.len() as int);
    assert(edge_within(points, i, bound));
}

/// Each refinement halves the step from one point to the next. If every
/// edge of an aligned sequence spans at most `2 * bound` in each
/// coordinate, every edge of the refined sequence spans at most `bound`.
pub proof fn lemma_refined_edges_halve(points: Seq<Point>, closed: bool, bound: int)
    requires
        aligned(points, 4),
        edges_within(points, closed, 2 * bound),
    ensures
        edges_within(refined(points, closed), closed, bound),
{
    let out = refined(points, closed);
    let n = points.len() as int;
    let edges = edge_count(points.len(), closed) as int;
    let m = out.len() as int;
    assert forall|k: int| 0 <= k < edge_count(out.len(), closed) implies #[trigger] edge_within(
        out,
        k,
        bound,
    ) by {
        assert(n >= 2 && m == 2 * edges && 2 <= m);
        let i = k / 2;
        lemma_edge_ends(points, closed, 2 * bound, i);
        let a = points[i];
        let b = points[(i + 1) % n];
        if k % 2 == 0 {
            lemma_small_mod((k + 1) as nat, m as nat);
            assert(out[k] == interpolate(a, b, 1));
            assert(out[k + 1] == interpolate(a, b, 3));
            lemma_cuts_of_one_edge(a, b, bound);
        } else {
            // The next point is the first cut of the following edge, which
            // starts where this edge ends.
            let j: int = if k + 1 < m { i + 1 } else { 0 };
            if k + 1 < m {
                lemma_small_mod((k + 1) as nat, m as nat);
                lemma_small_mod((i + 1) as nat, n as nat);
            } else {
                lemma_mod_self_0(m);
                lemma_mod_self_0(n);
            }
            assert((k + 1) % m == 2 * j);
            assert((i + 1) % n == j);
            lemma_edge_ends(points, closed, 2 * bound, j);
            let c = points[(j + 1) % n];
            assert(out[k] == interpolate(a, b, 3));
            assert(out[2 * j] == interpolate(b, c, 1));
            lemma_cuts_around_a_corner(a, b, c, bound);
        }
    }
}

/// Scaling a weighted sum scales each of its terms.
proof fn lemma_scaled_sum(a: int, q: int, u: int, v: int, m: int, w: int)
    requires
        4 * q == m * u + w * v,
    ensures
        4 * (a * q) == m * (a * u) + w * (a * v),
{
    assert(a * (4 * q) == a * (m * u) + a * (w * v)) by (nonlinear_arith)
        requires
            4 * q == m * u + w * v,
    ;
    assert(a * (4 * q) == 4 * (a * q)) by (nonlinear_arith);
    assert(a * (m * u) == m * (a * u)) by (nonlinear_arith);
    assert(a * (w * v) == w * (a * v)) by (nonlinear_arith);
}

} // verus!
