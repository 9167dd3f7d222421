//! Laws of what a path draws: its segments, and the curves that they are.

use crate::arith::Arith;
use crate::curve::{curves_of, prepared};
use crate::geom::{
    between, cubic_at, cubic_point, from_to, moved, moved_back, quad_at, CubicBez, Point, Vec2,
};
use crate::moments::translated;
use crate::path::{pen, segments_of, Line, PathEl, PathSeg};
use crate::polynomial::{lemma_constants, regroup, spread, swap, Poly};
use crate::simplify::stays;
use crate::stretches::{law_points_move_with_curve, moved_curve};
use crate::subdivision::{law_raising_keeps_curve, law_straight_is_even, lemma_seen_from, seen_from};
use vstd::prelude::*;

verus! {

/// A cubic curve is the mean of its control values, with the weights of
/// Bernstein.
pub proof fn law_cubic_value(a: real, b: real, c: real, d: real, t: real)
    ensures
        ({
            let s = 1real - t;
            cubic_at(a, b, c, d, t) == a * (s * s * s) + 3real * (b * (s * s * t)) + 3real * (c * (s
                * (t * t))) + d * (t * t * t)
        }),
{
    lemma_constants();
    let s = 1real - t;
    let (u, v) = (b * (s * s * 3real), c * (s * 3real));
    let inner = v + d * t;
    spread(v, d * t, t);
    let (p, q) = (v * t, (d * t) * t);
    spread(u, p + q, t);
    spread(p, q, t);
    assert(u * t == 3real * (b * (s * s * t))) by {
        let k = s * s;
        assert((b * (k * 3real)) * t == 3real * (b * (k * t))) by (nonlinear_arith);
    }
    assert(p * t == 3real * (c * (s * (t * t)))) by {
        assert((c * (s * 3real)) * t == 3real * (c * (s * t))) by (nonlinear_arith);
        regroup(3real, c * (s * t), t);
        regroup(c, s * t, t);
        regroup(s, t, t);
    }
    assert(q * t == d * (t * t * t)) by {
        regroup(d, t, t);
        regroup(d, t * t, t);
    }
}

/// A quadratic curve is the mean of its control values, with the weights of
/// Bernstein.
pub proof fn law_quadratic_value(a: real, b: real, c: real, t: real)
    ensures
        ({
            let s = 1real - t;
            quad_at(a, b, c, t) == a * (s * s) + 2real * (b * (s * t)) + c * (t * t)
        }),
{
    lemma_constants();
    let s = 1real - t;
    let u = b * (s * 2real);
    spread(u, c * t, t);
    assert((b * (s * 2real)) * t == 2real * (b * (s * t))) by (nonlinear_arith);
    regroup(c, t, t);
}

/// A polynomial close to `t`: what the derivative at `t` tells, and a rest that
/// vanishes with the square of the distance.
pub proof fn law_slope_is_derivative(p: Poly, t: real, k: real)
    ensures
        p.at(t + k) == p.at(t) + p.slope().at(t) * k + (p.c2 + 3real * (p.c3 * t) + p.c3 * k) * (k
            * k),
{
    lemma_seen_from(p, t, k);
    let q = seen_from(p, t);
    let k2 = k * k;
    spread(q.c2, q.c3 * k, k2);
    regroup(q.c3, k, k2);
    regroup(k, k, k);
    regroup(k, k2, 1real);
    swap(k, k2);
}

/// A segment as a cubic curve is the segment: a line is run through evenly, and
/// a curve is where its own control points have it.
pub proof fn law_segment_is_its_cubic(seg: PathSeg<real>, t: real)
    ensures
        ({
            let at = cubic_point(seg.cubic(), t);
            let s = 1real - t;
            match seg {
                PathSeg::Line(l) => {
                    &&& at.x == l.p0.x + (l.p1.x - l.p0.x) * t
                    &&& at.y == l.p0.y + (l.p1.y - l.p0.y) * t
                },
                PathSeg::Quad(q) => {
                    &&& at.x == q.p0.x * (s * s) + 2real * (q.p1.x * (s * t)) + q.p2.x * (t * t)
                    &&& at.y == q.p0.y * (s * s) + 2real * (q.p1.y * (s * t)) + q.p2.y * (t * t)
                },
                PathSeg::Cubic(c) => {
                    &&& at.x == c.p0.x * (s * s * s) + 3real * (c.p1.x * (s * s * t)) + 3real * (
                    c.p2.x * (s * (t * t))) + c.p3.x * (t * t * t)
                    &&& at.y == c.p0.y * (s * s * s) + 3real * (c.p1.y * (s * s * t)) + 3real * (
                    c.p2.y * (s * (t * t))) + c.p3.y * (t * t * t)
                },
            }
        }),
{
    match seg {
        PathSeg::Line(l) => {
            law_straight_is_even(l.p0, l.p1, t);
        },
        PathSeg::Quad(q) => {
            law_raising_keeps_curve(q, t);
            law_quadratic_value(q.p0.x, q.p1.x, q.p2.x, t);
            law_quadratic_value(q.p0.y, q.p1.y, q.p2.y, t);
        },
        PathSeg::Cubic(c) => {
            law_cubic_value(c.p0.x, c.p1.x, c.p2.x, c.p3.x, t);
            law_cubic_value(c.p0.y, c.p1.y, c.p2.y, c.p3.y, t);
        },
    }
}

/// A prepared path holds the segments of the path as cubic curves, all of them
/// and in their order.
pub proof fn law_prepared_path_holds_the_segments(path: Seq<PathEl>)
    ensures
        prepared(curves_of(path)).els.len() == segments_of(path).len(),
        forall|i: int|
            0 <= i < segments_of(path).len() ==> (#[trigger] prepared(curves_of(path)).els[i]).c
                == segments_of(path)[i].cubic(),
{
}

/// Steps between points: the step from `p` to `q` leads from `p` to `q`, and
/// back; `t` times the step leads to the mean of the two with the weights `1 - t`
/// and `t`.
pub proof fn law_steps(p: Point<real>, q: Point<real>, t: real)
    ensures
        moved(p, from_to(p, q)) == q,
        moved_back(q, from_to(p, q)) == p,
        ({
            let m = between(p, q, t);
            &&& m.x == p.x * (1real - t) + q.x * t
            &&& m.y == p.y * (1real - t) + q.y * t
        }),
{
    assert((q.x - p.x) * t == q.x * t - p.x * t) by (nonlinear_arith);
    assert((q.y - p.y) * t == q.y * t - p.y * t) by (nonlinear_arith);
    assert(p.x * (1real - t) == p.x - p.x * t) by (nonlinear_arith);
    assert(p.y * (1real - t) == p.y - p.y * t) by (nonlinear_arith);
}

/// A translated curve is where the curve is, less the origin.
pub proof fn law_translated_points(c: CubicBez<real>, o: Point<real>, t: real)
    ensures
        cubic_point(translated(c, o), t).x == cubic_point(c, t).x - o.x,
        cubic_point(translated(c, o), t).y == cubic_point(c, t).y - o.y,
{
    let v = Vec2 { x: 0real - o.x, y: 0real - o.y };
    assert(translated(c, o) == moved_curve(c, v));
    law_points_move_with_curve(c, v, t);
}

/// The point at which an element ends.
pub open spec fn end_of(el: PathEl) -> Point {
    match el {
        PathEl::MoveTo(p) => p,
        PathEl::LineTo(p) => p,
        PathEl::QuadTo(_, p) => p,
        PathEl::CurveTo(_, _, p) => p,
        PathEl::ClosePath => arbitrary(),
    }
}

/// Whether `seg` is what `el` draws from `p`.
pub open spec fn is_drawn(seg: PathSeg, p: Point, el: PathEl) -> bool {
    match (el, seg) {
        (PathEl::LineTo(q), PathSeg::Line(l)) => l.p0 == p && l.p1 == q,
        (PathEl::QuadTo(q1, q2), PathSeg::Quad(q)) => q.p0 == p && q.p1 == q1 && q.p2 == q2,
        (PathEl::CurveTo(q1, q2, q3), PathSeg::Cubic(c)) => {
            c.p0 == p && c.p1 == q1 && c.p2 == q2 && c.p3 == q3
        },
        _ => false,
    }
}

/// An element draws one segment, with its own control points, from where the
/// element before it ends; a move draws none.
pub proof fn law_elements_draw_segments(a: Seq<PathEl>, el: PathEl)
    requires
        a.len() > 0,
        !(a.last() is ClosePath),
        !(el is ClosePath),
    ensures
        ({
            let (before, after) = (segments_of(a), segments_of(a.push(el)));
            if el is MoveTo {
                after == before
            } else {
                &&& after.len() == before.len() + 1
                &&& after.drop_last() == before
                &&& is_drawn(after.last(), end_of(a.last()), el)
            }
        }),
{
    assert(a.push(el).drop_last() =~= a);
    if !(el is MoveTo) {
        assert(segments_of(a.push(el)).drop_last() =~= segments_of(a));
    }
}

/// Two points that are equal as numbers.
pub open spec fn coincide(p: Point, q: Point) -> bool {
    &&& !p.x.nan() && !q.x.nan() && p.x.value() == q.x.value()
    &&& !p.y.nan() && !q.y.nan() && p.y.value() == q.y.value()
}

/// Where the pen is after a subpath has been begun at `p` and drawn on.
pub(crate) proof fn lemma_pen(a: Seq<PathEl>, p: Point, b: Seq<PathEl>)
    requires
        forall|i: int| 0 <= i < b.len() ==> (#[trigger] b[i]).draws(),
    ensures
        ({
            let path = a.push(PathEl::MoveTo(p)) + b;
            pen(path) == Some((p, end_of(path.last())))
        }),
    decreases b.len(),
{
    let head = a.push(PathEl::MoveTo(p));
    let path = head + b;
    if b.len() == 0 {
        assert(path =~= head);
        assert(head.drop_last() =~= a);
    } else {
        let c = b.drop_last();
        assert forall|i: int| 0 <= i < c.len() implies (#[trigger] c[i]).draws() by {
            assert(b[i].draws());
        }
        lemma_pen(a, p, c);
        assert(path.drop_last() =~= head + c);
        assert(path.last() == b.last());
        assert(b[b.len() - 1].draws());
    }
}

/// A closing draws a line back to where its subpath began, unless the pen is
/// there already; what is drawn next begins there.
pub proof fn law_closings_draw_back(a: Seq<PathEl>, p: Point, b: Seq<PathEl>, el: PathEl)
    requires
        forall|i: int| 0 <= i < b.len() ==> (#[trigger] b[i]).draws(),
        el.draws(),
    ensures
        ({
            let path = a.push(PathEl::MoveTo(p)) + b;
            let closed = path.push(PathEl::ClosePath);
            let q = end_of(path.last());
            let (before, after) = (segments_of(path), segments_of(closed));
            let next = segments_of(closed.push(el));
            &&& if coincide(q, p) {
                after == before
            } else {
                &&& after.len() == before.len() + 1
                &&& after.drop_last() == before
                &&& after.last() == PathSeg::Line(Line { p0: q, p1: p })
            }
            &&& next.len() == after.len() + 1
            &&& next.drop_last() == after
            &&& is_drawn(next.last(), p, el) || (coincide(q, p) && is_drawn(next.last(), q, el))
        }),
{
    let path = a.push(PathEl::MoveTo(p)) + b;
    let closed = path.push(PathEl::ClosePath);
    lemma_pen(a, p, b);
    assert(closed.drop_last() =~= path);
    assert(closed.push(el).drop_last() =~= closed);
    assert(segments_of(closed).drop_last() =~= segments_of(path) || coincide(
        end_of(path.last()),
        p,
    ));
    assert(segments_of(closed.push(el)).drop_last() =~= segments_of(closed));
}

/// Closing a subpath again draws nothing, as long as the point at which it
/// began can be compared.
pub proof fn law_closing_again(a: Seq<PathEl>, p: Point, b: Seq<PathEl>)
    requires
        forall|i: int| 0 <= i < b.len() ==> (#[trigger] b[i]).draws(),
        coincide(p, p),
    ensures
        ({
            let closed = (a.push(PathEl::MoveTo(p)) + b).push(PathEl::ClosePath);
            segments_of(closed.push(PathEl::ClosePath)) == segments_of(closed)
        }),
{
    let path = a.push(PathEl::MoveTo(p)) + b;
    let closed = path.push(PathEl::ClosePath);
    lemma_pen(a, p, b);
    assert(closed.drop_last() =~= path);
    assert(closed.push(PathEl::ClosePath).drop_last() =~= closed);
}

/// A path that does not begin with a move begins where its first element ends:
/// that element is drawn from there, and a closing draws back to there.
pub proof fn law_paths_without_a_move(b: Seq<PathEl>)
    requires
        b.len() > 0,
        forall|i: int| 0 <= i < b.len() ==> (#[trigger] b[i]).draws(),
    ensures
        ({
            let (p, q) = (end_of(b[0]), end_of(b.last()));
            let (before, after) = (segments_of(b), segments_of(b.push(PathEl::ClosePath)));
            &&& before.len() == b.len()
            &&& is_drawn(before[0], p, b[0])
            &&& if coincide(q, p) {
                after == before
            } else {
                &&& after.len() == before.len() + 1
                &&& after.drop_last() == before
                &&& after.last() == PathSeg::Line(Line { p0: q, p1: p })
            }
        }),
{
    lemma_pen_without_a_move(b);
    assert(b.push(PathEl::ClosePath).drop_last() =~= b);
    assert(segments_of(b.push(PathEl::ClosePath)).drop_last() =~= segments_of(b) || coincide(
        end_of(b.last()),
        end_of(b[0]),
    ));
}

proof fn lemma_pen_without_a_move(b: Seq<PathEl>)
    requires
        b.len() > 0,
        forall|i: int| 0 <= i < b.len() ==> (#[trigger] b[i]).draws(),
    ensures
        pen(b) == Some((end_of(b[0]), end_of(b.last()))),
        segments_of(b).len() == b.len(),
        is_drawn(segments_of(b)[0], end_of(b[0]), b[0]),
    decreases b.len(),
{
    let c = b.drop_last();
    assert(b[b.len() - 1].draws());
    if c.len() == 0 {
        assert(c =~= Seq::<PathEl>::empty());
        assert(segments_of(c) == Seq::<PathSeg>::empty());
        assert(pen(c) is None);
        assert(b.last() == b[0]);
    } else {
        assert forall|i: int| 0 <= i < c.len() implies (#[trigger] c[i]).draws() by {
            assert(b[i].draws());
        }
        lemma_pen_without_a_move(c);
        assert(c[0] == b[0]);
        assert(segments_of(b)[0] == segments_of(c)[0]);
    }
}

/// An element stays where the pen is if all points that it names are that
/// point, as numbers; any other goes somewhere.
pub proof fn law_staying(el: PathEl, p: Point)
    ensures
        stays(el, p) == match el {
            PathEl::LineTo(q) => coincide(p, q),
            PathEl::QuadTo(q1, q2) => coincide(p, q1) && coincide(p, q2),
            PathEl::CurveTo(q1, q2, q3) => coincide(p, q1) && coincide(p, q2) && coincide(p, q3),
            _ => false,
        },
{
}

}
