//! The moment integrals of stretches of a path, where nothing is rounded.

use crate::arith::{whole, Arith};
use crate::curve::{
    moments_difference, moments_sum, no_moments, part_moments, prepared,
    running_moments, shifted_moments, stretch_moments, stretch_moments_from, Prepared,
};
use crate::definite::law_part_moments_add_up;
use crate::geom::{
    cubic_at, cubic_part, cubic_point, cubic_velocity, from_to, moved, CubicBez, Point, Vec2,
};
use crate::moments::{area_form, moments_of, translated, x_form, y_form};
use crate::polynomial::{
    advance, bezier, distribute, law_bezier_value, lemma_constants, regroup, spread, spread2,
    spread3, swap, x_poly, y_poly, Poly,
};
use crate::subdivision::law_velocity_is_derivative;
use vstd::prelude::*;

verus! {

/// A curve, moved by `v`.
pub open spec fn moved_curve<A: Arith>(c: CubicBez<A>, v: Vec2<A>) -> CubicBez<A> {
    CubicBez { p0: moved(c.p0, v), p1: moved(c.p1, v), p2: moved(c.p2, v), p3: moved(c.p3, v) }
}

/// Curves, all moved by `v`.
pub open spec fn moved_curves<A: Arith>(curves: Seq<CubicBez<A>>, v: Vec2<A>) -> Seq<CubicBez<A>> {
    Seq::new(curves.len(), |i: int| moved_curve(curves[i], v))
}

/// The points of a moved curve are the moved points of the curve, and the
/// derivative stays the same.
pub proof fn law_points_move_with_curve(c: CubicBez<real>, v: Vec2<real>, t: real)
    ensures
        cubic_point(moved_curve(c, v), t) == moved(cubic_point(c, t), v),
        cubic_velocity(moved_curve(c, v), t) == cubic_velocity(c, t),
{
    lemma_moved_value(c.p0.x, c.p1.x, c.p2.x, c.p3.x, v.x, t);
    lemma_moved_value(c.p0.y, c.p1.y, c.p2.y, c.p3.y, v.y, t);
    let m = moved_curve(c, v);
    assert(m.p1.x - m.p0.x == c.p1.x - c.p0.x);
    assert(m.p2.x - m.p1.x == c.p2.x - c.p1.x);
    assert(m.p3.x - m.p2.x == c.p3.x - c.p2.x);
    assert(m.p1.y - m.p0.y == c.p1.y - c.p0.y);
    assert(m.p2.y - m.p1.y == c.p2.y - c.p1.y);
    assert(m.p3.y - m.p2.y == c.p3.y - c.p2.y);
}

proof fn lemma_moved_value(a: real, b: real, c: real, d: real, v: real, t: real)
    ensures
        cubic_at(a + v, b + v, c + v, d + v, t) == cubic_at(a, b, c, d, t) + v,
{
    law_bezier_value(a, b, c, d, t);
    law_bezier_value(a + v, b + v, c + v, d + v, t);
    let (p, q) = (bezier(a, b, c, d), bezier(a + v, b + v, c + v, d + v));
    assert(p.c1 == q.c1);
    assert(p.c2 == q.c2);
    assert(p.c3 == q.c3);
}

/// A part of a moved curve, seen from a moved point.
proof fn lemma_moved_part(c: CubicBez<real>, v: Vec2<real>, t0: real, t1: real, o: Point<real>)
    ensures
        translated(cubic_part(moved_curve(c, v), t0, t1), moved(o, v)) == translated(
            cubic_part(c, t0, t1),
            o,
        ),
{
    law_points_move_with_curve(c, v, t0);
    law_points_move_with_curve(c, v, t1);
}

proof fn lemma_moved_sums(curves: Seq<CubicBez<real>>, v: Vec2<real>, o: Point<real>, n: nat)
    requires
        n <= curves.len(),
    ensures
        running_moments(moved_curves(curves, v), moved(o, v), n) == running_moments(curves, o, n),
    decreases n,
{
    if n > 0 {
        lemma_moved_sums(curves, v, o, (n - 1) as nat);
        assert(translated(moved_curve(curves[n - 1], v), moved(o, v)) == translated(
            curves[n - 1],
            o,
        ));
    }
}

/// Whether there is a place on a path of `n` curves at parameter `t` of curve
/// `i`: it lies on a curve, or is the end of the path, which counts as the
/// beginning of a curve behind the last.
pub open spec fn is_place(n: nat, i: int, t: real) -> bool {
    0 <= i < n || (i == n && t == 0real)
}

/// Moment integrals of a stretch of a path are relative to where the stretch
/// begins: moving the path does not change them.
pub proof fn law_moments_move_with_path(
    curves: Seq<CubicBez<real>>,
    v: Vec2<real>,
    i0: int,
    t0: real,
    i1: int,
    t1: real,
    start: Point<real>,
    end: Point<real>,
)
    requires
        is_place(curves.len(), i0, t0),
        is_place(curves.len(), i1, t1),
        i0 < curves.len() || i1 == i0,
        curves.len() > 0,
    ensures
        stretch_moments_from(
            prepared(moved_curves(curves, v)),
            i0,
            t0,
            i1,
            t1,
            moved(start, v),
            moved(end, v),
        ) == stretch_moments_from(prepared(curves), i0, t0, i1, t1, start, end),
{
    let path = prepared(curves);
    let other = prepared(moved_curves(curves, v));
    lemma_constants();
    assert(other.origin == moved(path.origin, v));
    if i0 < curves.len() {
        lemma_moved_part(curves[i0], v, t0, t1, path.origin);
        lemma_moved_part(curves[i0], v, t0, whole(1), path.origin);
    }
    if i1 < curves.len() {
        lemma_moved_part(curves[i1], v, whole(0), t1, path.origin);
    }
    if i1 > i0 + 1 {
        lemma_moved_sums(curves, v, path.origin, i1 as nat);
        lemma_moved_sums(curves, v, path.origin, (i0 + 1) as nat);
    }
    assert(stretch_moments(other, i0, t0, i1, t1) == stretch_moments(path, i0, t0, i1, t1));
    assert(from_to(other.origin, moved(start, v)) == from_to(path.origin, start));
}

/// Moment integrals seen from `s`, for a curve that runs from the abscissa `u0`
/// to `u1`.
spec fn reduced(m: (real, real, real), s: Vec2<real>, u0: real, u1: real) -> (real, real, real) {
    (
        m.0 - (s.y * u1 - s.y * u0),
        m.1 - s.x * m.0 - (s.y * (u1 * u1) - s.y * (u0 * u0)) / 2real + ((s.x * s.y) * u1 - (s.x
            * s.y) * u0),
        m.2 - 2real * (s.y * m.0) + ((s.y * s.y) * u1 - (s.y * s.y) * u0),
    )
}

proof fn lemma_shifted_is_reduced(m: (real, real, real), s: Vec2<real>, u: real)
    ensures
        shifted_moments(m, s, u) == reduced(m, s, s.x, u),
{
    lemma_constants();
    let dx = u - s.x;
    swap(s.y, dx);
    spread2(1real, u, -1real, s.x, s.y);
    swap(u, s.y);
    swap(s.x, s.y);
    let sxy = s.x * s.y;
    swap(sxy, dx);
    spread2(1real, u, -1real, s.x, sxy);
    swap(u, sxy);
    swap(s.x, sxy);
    let syy = s.y * s.y;
    swap(syy, dx);
    spread2(1real, u, -1real, s.x, syy);
    swap(u, syy);
    swap(s.x, syy);
    regroup(2real, s.y, m.0);
    let (uu, ss) = (u * u, s.x * s.x);
    let w = (1real / 2real) * (u + s.x) * dx;
    assert(w == (uu - ss) / 2real) by {
        let sum = u + s.x;
        regroup(1real / 2real, sum, dx);
        swap(sum, dx);
        spread2(1real, u, -1real, s.x, sum);
        swap(u, sum);
        swap(s.x, sum);
        spread(u, s.x, u);
        spread(u, s.x, s.x);
        swap(u, s.x);
    }
    swap(s.y, w);
    spread2(1real / 2real, uu, -(1real / 2real), ss, s.y);
    swap(uu, s.y);
    swap(ss, s.y);
}

proof fn lemma_reduced_sum(
    m: (real, real, real),
    n: (real, real, real),
    s: Vec2<real>,
    u0: real,
    u1: real,
    u2: real,
)
    ensures
        moments_sum(reduced(m, s, u0, u1), reduced(n, s, u1, u2)) == reduced(
            moments_sum(m, n),
            s,
            u0,
            u2,
        ),
{
    swap(s.x, m.0 + n.0);
    spread(m.0, n.0, s.x);
    swap(s.x, m.0);
    swap(s.x, n.0);
    swap(s.y, m.0 + n.0);
    spread(m.0, n.0, s.y);
    swap(s.y, m.0);
    swap(s.y, n.0);
}

/// The moment integrals of one curve, seen from `start` in place of `o`.
proof fn lemma_curve_reduced(c: CubicBez<real>, o: Point<real>, start: Point<real>)
    ensures
        moments_of(translated(c, start)) == reduced(
            moments_of(translated(c, o)),
            from_to(o, start),
            c.p0.x - o.x,
            c.p3.x - o.x,
        ),
{
    reveal(moments_of);
    lemma_constants();
    let s = from_to(o, start);
    let (b, d) = (translated(c, o), translated(c, start));
    let (x0, y0) = (b.p0.x, b.p0.y);
    let (x1, y1) = (b.p1.x - b.p0.x, b.p1.y - b.p0.y);
    let (x2, y2) = (b.p2.x - b.p0.x, b.p2.y - b.p0.y);
    let (x3, y3) = (b.p3.x - b.p0.x, b.p3.y - b.p0.y);
    assert(d.p0.x == x0 - s.x && d.p0.y == y0 - s.y);
    assert(d.p1.x - d.p0.x == x1 && d.p1.y - d.p0.y == y1);
    assert(d.p2.x - d.p0.x == x2 && d.p2.y - d.p0.y == y2);
    assert(d.p3.x - d.p0.x == x3 && d.p3.y - d.p0.y == y3);
    let a = area_form(x1, y1, x2, y2, x3, y3);
    let fx = x_form(x1, y1, x2, y2, x3, y3);
    let fy = y_form(x1, y1, x2, y2, x3, y3);
    let u1 = x0 + x3;
    let (m, n) = (moments_of(b), moments_of(d));
    let lift = x3 * y0;
    let low = x3 * (y0 - s.y);
    let syx3 = s.y * x3;
    // The area.
    assert(low == lift - syx3) by {
        swap(x3, y0 - s.y);
        spread2(1real, y0, -1real, s.y, x3);
        swap(y0, x3);
    }
    assert(s.y * u1 == s.y * x0 + syx3) by {
        swap(s.y, u1);
        spread(x0, x3, s.y);
        swap(x0, s.y);
        swap(x3, s.y);
    }
    assert(n.0 == m.0 - syx3);
    // The moment of `x`.
    assert((x0 - s.x) * n.0 == x0 * m.0 - x0 * syx3 - s.x * m.0 + s.x * syx3) by {
        swap(x0 - s.x, n.0);
        spread2(1real, m.0, -1real, syx3, x0 - s.x);
        swap(m.0, x0 - s.x);
        swap(syx3, x0 - s.x);
        spread2(1real, x0, -1real, s.x, m.0);
        spread2(1real, x0, -1real, s.x, syx3);
    }
    let half = (1real / 2real) * x3;
    assert(half * low == half * lift - (x3 * syx3) / 2real) by {
        swap(half, low);
        spread2(1real, lift, -1real, syx3, half);
        swap(lift, half);
        swap(syx3, half);
        regroup(1real / 2real, x3, syx3);
    }
    assert(s.y * (u1 * u1) == s.y * (x0 * x0) + 2real * (x0 * syx3) + x3 * syx3) by {
        assert(u1 * u1 == x0 * x0 + 2real * (x0 * x3) + x3 * x3) by (nonlinear_arith)
            requires
                u1 == x0 + x3,
        ;
        swap(s.y, u1 * u1);
        spread3(1real, x0 * x0, 2real, x0 * x3, 1real, x3 * x3, s.y);
        swap(s.y, x0 * x0);
        swap(s.y, x3);
        regroup(x0, x3, s.y);
        regroup(x3, x3, s.y);
    }
    let sxy = s.x * s.y;
    assert(sxy * u1 == sxy * x0 + s.x * syx3) by {
        swap(sxy, u1);
        spread(x0, x3, sxy);
        swap(x0, sxy);
        swap(x3, sxy);
        regroup(s.x, s.y, x3);
    }
    assert(n.1 == reduced(m, s, x0, u1).1);
    // The moment of `y`.
    let syy = s.y * s.y;
    assert(syy * u1 == syy * x0 + s.y * syx3) by {
        swap(syy, u1);
        spread(x0, x3, syy);
        swap(x0, syy);
        swap(x3, syy);
        regroup(s.y, s.y, x3);
    }
    assert((y0 - s.y) * a == y0 * a - s.y * a) by {
        spread2(1real, y0, -1real, s.y, a);
    }
    assert((y0 - s.y) * low == y0 * lift - y0 * syx3 - s.y * lift + s.y * syx3) by {
        swap(y0 - s.y, low);
        spread2(1real, lift, -1real, syx3, y0 - s.y);
        swap(lift, y0 - s.y);
        swap(syx3, y0 - s.y);
        spread2(1real, y0, -1real, s.y, lift);
        spread2(1real, y0, -1real, s.y, syx3);
    }
    assert(y0 * syx3 == s.y * lift) by (nonlinear_arith)
        requires
            syx3 == s.y * x3,
            lift == x3 * y0,
    ;
    assert(s.y * m.0 == (s.y * a) / 20real + s.y * lift) by {
        swap(s.y, m.0);
        spread2(1real / 20real, a, 1real, lift, s.y);
        swap(a, s.y);
        swap(lift, s.y);
    }
    assert(n.2 == reduced(m, s, x0, u1).2);
}

/// A curve begins at its first point and ends at its last.
pub proof fn law_curve_meets_its_ends(c: CubicBez<real>)
    ensures
        cubic_point(c, whole(0)) == c.p0,
        cubic_point(c, whole(1)) == c.p3,
{
    lemma_constants();
    lemma_ends(c.p0.x, c.p1.x, c.p2.x, c.p3.x);
    lemma_ends(c.p0.y, c.p1.y, c.p2.y, c.p3.y);
}

proof fn lemma_ends(a: real, b: real, c: real, d: real)
    ensures
        cubic_at(a, b, c, d, 0real) == a,
        cubic_at(a, b, c, d, 1real) == d,
{
    law_bezier_value(a, b, c, d, 0real);
    law_bezier_value(a, b, c, d, 1real);
    lemma_end_values(bezier(a, b, c, d));
}

proof fn lemma_end_values(p: Poly)
    ensures
        p.at(0real) == p.c0,
        p.at(1real) == p.c0 + p.c1 + p.c2 + p.c3,
{
    let (c1, c2, c3) = (p.c1, p.c2, p.c3);
    assert(c1 * 0real + c2 * (0real * 0real) + c3 * (0real * 0real * 0real) == 0real)
        by (nonlinear_arith);
    assert(c1 * 1real + c2 * (1real * 1real) + c3 * (1real * 1real * 1real) == c1 + c2 + c3)
        by (nonlinear_arith);
}

/// A part of no extent has no moments.
pub(crate) proof fn lemma_no_extent(c: CubicBez<real>, t: real, o: Point<real>)
    ensures
        moments_of(translated(cubic_part(c, t, t), o)) == no_moments::<real>(),
{
    reveal(moments_of);
    lemma_constants();
    let s = (t - t) * (1real / 3real);
    assert(s == 0real);
    let part = cubic_part(c, t, t);
    let v = cubic_velocity(c, t);
    assert(v.x * 0real == 0real && v.y * 0real == 0real);
    assert(part.p1 == part.p0 && part.p2 == part.p0 && part.p3 == part.p0);
    let b = translated(part, o);
    assert(area_form(0real, 0real, 0real, 0real, 0real, 0real) == 0real);
    assert(x_form(0real, 0real, 0real, 0real, 0real, 0real) == 0real);
    assert(y_form(0real, 0real, 0real, 0real, 0real, 0real) == 0real);
    assert(b.p0.x - b.p0.x == 0real && b.p0.y - b.p0.y == 0real);
    assert(0real * b.p0.y == 0real && b.p0.x * 0real == 0real && b.p0.y * 0real == 0real);
}

/// The moment integrals of a part of a curve, seen from `start`.
pub open spec fn piece_moments<A: Arith>(c: CubicBez<A>, t0: A, t1: A, start: Point<A>) -> (
    A,
    A,
    A,
) {
    moments_of(translated(cubic_part(c, t0, t1), start))
}

/// The moment integrals of the curves from `i` up to `j`, seen from `start`.
pub open spec fn curves_moments<A: Arith>(
    curves: Seq<CubicBez<A>>,
    i: int,
    j: int,
    start: Point<A>,
) -> (A, A, A)
    decreases j,
{
    if j <= i || j <= 0 {
        no_moments()
    } else {
        moments_sum(
            curves_moments(curves, i, j - 1, start),
            moments_of(translated(curves[j - 1], start)),
        )
    }
}

/// Curve `i` ends where the next begins.
pub open spec fn joined_at<A: Arith>(curves: Seq<CubicBez<A>>, i: int) -> bool {
    curves[i].p3 == curves[i + 1].p0
}

proof fn lemma_curves_reduced(
    curves: Seq<CubicBez<real>>,
    i: int,
    j: int,
    o: Point<real>,
    start: Point<real>,
)
    requires
        0 <= i <= j < curves.len(),
        forall|k: int| i <= k < j ==> #[trigger] joined_at(curves, k),
    ensures
        curves_moments(curves, i, j, start) == reduced(
            moments_difference(
                running_moments(curves, o, j as nat),
                running_moments(curves, o, i as nat),
            ),
            from_to(o, start),
            curves[i].p0.x - o.x,
            curves[j].p0.x - o.x,
        ),
    decreases j - i,
{
    lemma_constants();
    let s = from_to(o, start);
    let (mi, mj) = (running_moments(curves, o, i as nat), running_moments(curves, o, j as nat));
    if i == j {
        let d = moments_difference(mi, mi);
        assert(d == (0real, 0real, 0real));
        assert(s.x * 0real == 0real && s.y * 0real == 0real);
    } else {
        let mk = running_moments(curves, o, (j - 1) as nat);
        assert(joined_at(curves, j - 1));
        lemma_curves_reduced(curves, i, j - 1, o, start);
        lemma_curve_reduced(curves[j - 1], o, start);
        let last = moments_of(translated(curves[j - 1], o));
        let (u0, u1, u2) = (
            curves[i].p0.x - o.x,
            curves[j - 1].p0.x - o.x,
            curves[j].p0.x - o.x,
        );
        lemma_reduced_sum(moments_difference(mk, mi), last, s, u0, u1, u2);
        assert(mj == moments_sum(mk, last));
        assert(moments_sum(moments_difference(mk, mi), last) == moments_difference(mj, mi));
    }
}

/// The moment integrals of a stretch of connected curves are those of its
/// pieces, all seen from where the stretch begins: the rest of the curve on
/// which it begins, the curves between, and the part of the curve on which it
/// ends.
pub proof fn law_stretch_is_sum_of_pieces(
    curves: Seq<CubicBez<real>>,
    i0: int,
    t0: real,
    i1: int,
    t1: real,
)
    requires
        0 <= i0 <= i1 < curves.len(),
        forall|i: int| i0 <= i < i1 ==> #[trigger] joined_at(curves, i),
    ensures
        ({
            let (start, end) = (cubic_point(curves[i0], t0), cubic_point(curves[i1], t1));
            stretch_moments_from(prepared(curves), i0, t0, i1, t1, start, end) == if i0 == i1 {
                piece_moments(curves[i0], t0, t1, start)
            } else {
                moments_sum(
                    moments_sum(
                        piece_moments(curves[i0], t0, whole(1), start),
                        curves_moments(curves, i0 + 1, i1, start),
                    ),
                    piece_moments(curves[i1], whole(0), t1, start),
                )
            }
        }),
{
    let path = prepared(curves);
    let o = path.origin;
    let (start, end) = (cubic_point(curves[i0], t0), cubic_point(curves[i1], t1));
    let s = from_to(o, start);
    let u = end.x - o.x;
    lemma_shifted_is_reduced(stretch_moments(path, i0, t0, i1, t1), s, u);
    if i0 == i1 {
        let part = cubic_part(curves[i0], t0, t1);
        lemma_curve_reduced(part, o, start);
        if t1 == t0 {
            lemma_no_extent(curves[i0], t0, o);
        }
        assert(part_moments(path, i0, t0, t1) == moments_of(translated(part, o)));
    } else {
        lemma_constants();
        law_curve_meets_its_ends(curves[i0]);
        law_curve_meets_its_ends(curves[i1]);
        let first = cubic_part(curves[i0], t0, 1real);
        let last = cubic_part(curves[i1], 0real, t1);
        lemma_curve_reduced(first, o, start);
        lemma_curve_reduced(last, o, start);
        if t0 == 1real {
            lemma_no_extent(curves[i0], t0, o);
        }
        if t1 == 0real {
            lemma_no_extent(curves[i1], t1, o);
        }
        let m = moments_of(translated(first, o));
        let n = moments_of(translated(last, o));
        assert(part_moments(path, i0, t0, 1real) == m);
        assert(part_moments(path, i1, 0real, t1) == n);
        lemma_curves_reduced(curves, i0 + 1, i1, o, start);
        assert(joined_at(curves, i0));
        let d = moments_difference(
            running_moments(curves, o, i1 as nat),
            running_moments(curves, o, (i0 + 1) as nat),
        );
        let (u0, u1) = (curves[i0 + 1].p0.x - o.x, curves[i1].p0.x - o.x);
        lemma_reduced_sum(m, d, s, s.x, u0, u1);
        lemma_reduced_sum(moments_sum(m, d), n, s, s.x, u1, u);
        assert(stretch_moments(path, i0, t0, i1, t1) == moments_sum(moments_sum(m, d), n));
    }
}

/// A part of a curve, seen from `o`.
proof fn lemma_part_seen_from(c: CubicBez<real>, t0: real, t1: real, o: Point<real>)
    ensures
        translated(cubic_part(c, t0, t1), o) == cubic_part(translated(c, o), t0, t1),
{
    let v = Vec2 { x: 0real - o.x, y: 0real - o.y };
    let m = moved_curve(c, v);
    assert(m == translated(c, o));
    law_points_move_with_curve(c, v, t0);
    law_points_move_with_curve(c, v, t1);
}

/// The whole of a curve is a part of it.
pub(crate) proof fn lemma_whole_part(c: CubicBez<real>)
    ensures
        cubic_part(c, whole(0), whole(1)) == c,
{
    lemma_constants();
    law_curve_meets_its_ends(c);
    law_velocity_is_derivative(c, 0real);
    law_velocity_is_derivative(c, 1real);
    lemma_end_values(x_poly(c).slope());
    lemma_end_values(y_poly(c).slope());
    let s = (1real - 0real) * (1real / 3real);
    assert(s == 1real / 3real);
    let (v, w) = (cubic_velocity(c, 0real), cubic_velocity(c, 1real));
    assert(v.x == 3real * (c.p1.x - c.p0.x) && v.y == 3real * (c.p1.y - c.p0.y));
    assert(w.x == 3real * (c.p3.x - c.p2.x) && w.y == 3real * (c.p3.y - c.p2.y));
    assert(v.x * s == c.p1.x - c.p0.x && v.y * s == c.p1.y - c.p0.y);
    assert(w.x * s == c.p3.x - c.p2.x && w.y * s == c.p3.y - c.p2.y);
}

/// A part of no extent, or any other part.
proof fn lemma_part_moments(path: Prepared<real>, i: int, t0: real, t1: real)
    ensures
        part_moments(path, i, t0, t1) == moments_of(
            cubic_part(translated(path.els[i].c, path.origin), t0, t1),
        ),
{
    lemma_part_seen_from(path.els[i].c, t0, t1, path.origin);
    if t1 == t0 {
        lemma_no_extent(path.els[i].c, t0, path.origin);
    }
}

/// Cut anywhere, a stretch of a path has the moment integrals of the two
/// stretches, added up, all relative to the path's origin.
pub proof fn law_stretches_add_up(
    curves: Seq<CubicBez<real>>,
    i0: int,
    t0: real,
    i1: int,
    t1: real,
    i2: int,
    t2: real,
)
    requires
        0 <= i0 <= i1 <= i2,
        is_place(curves.len(), i0, t0),
        is_place(curves.len(), i1, t1),
        is_place(curves.len(), i2, t2),
    ensures
        moments_sum(
            stretch_moments(prepared(curves), i0, t0, i1, t1),
            stretch_moments(prepared(curves), i1, t1, i2, t2),
        ) == stretch_moments(prepared(curves), i0, t0, i2, t2),
{
    if i1 == curves.len() {
        lemma_constants();
        let path = prepared(curves);
        assert(stretch_moments(path, i1, t1, i2, t2) == no_moments::<real>());
        let m = stretch_moments(path, i0, t0, i1, t1);
        assert(moments_sum(m, no_moments::<real>()) == m);
    } else {
        lemma_cut_on_curve(curves, i0, t0, i1, t1, i2, t2);
    }
}

/// The same, for a cut on one of the curves.
proof fn lemma_cut_on_curve(
    curves: Seq<CubicBez<real>>,
    i0: int,
    t0: real,
    i1: int,
    t1: real,
    i2: int,
    t2: real,
)
    requires
        0 <= i0 <= i1 <= i2 <= curves.len(),
        i1 < curves.len(),
    ensures
        moments_sum(
            stretch_moments(prepared(curves), i0, t0, i1, t1),
            stretch_moments(prepared(curves), i1, t1, i2, t2),
        ) == stretch_moments(prepared(curves), i0, t0, i2, t2),
{
    let path = prepared(curves);
    let o = path.origin;
    let (zero, one) = (whole::<real>(0), whole::<real>(1));
    lemma_constants();
    let c = translated(curves[i1], o);
    if i0 == i1 && i1 == i2 {
        lemma_part_moments(path, i1, t0, t1);
        lemma_part_moments(path, i1, t1, t2);
        lemma_part_moments(path, i1, t0, t2);
        law_part_moments_add_up(c, t0, t1, t2);
    } else if i0 == i1 {
        lemma_part_moments(path, i1, t0, t1);
        lemma_part_moments(path, i1, t1, one);
        lemma_part_moments(path, i1, t0, one);
        law_part_moments_add_up(c, t0, t1, one);
    } else if i1 == i2 {
        lemma_part_moments(path, i1, zero, t1);
        lemma_part_moments(path, i1, t1, t2);
        lemma_part_moments(path, i1, zero, t2);
        law_part_moments_add_up(c, zero, t1, t2);
    } else {
        lemma_part_moments(path, i1, zero, t1);
        lemma_part_moments(path, i1, t1, one);
        law_part_moments_add_up(c, zero, t1, one);
        lemma_whole_part(c);
        let (before, with) = (
            running_moments(curves, o, i1 as nat),
            running_moments(curves, o, (i1 + 1) as nat),
        );
        assert(with == moments_sum(before, moments_of(c)));
        assert(path.els[i1].moments == with);
        assert(path.els[i1 - 1].moments == before);
    }
}

/// The moment integrals of a stretch of connected curves that goes on to the
/// end of the path are those of its pieces, all seen from where it begins: the
/// rest of the curve on which it begins, and all curves behind it. The end of
/// the path counts as the beginning of a curve behind the last.
pub proof fn law_stretch_to_the_end(curves: Seq<CubicBez<real>>, i0: int, t0: real)
    requires
        0 <= i0 < curves.len(),
        forall|i: int| i0 <= i < curves.len() - 1 ==> #[trigger] joined_at(curves, i),
    ensures
        ({
            let n = curves.len() as int;
            let (start, end) = (cubic_point(curves[i0], t0), curves.last().p3);
            stretch_moments_from(prepared(curves), i0, t0, n, whole(0), start, end) == moments_sum(
                piece_moments(curves[i0], t0, whole(1), start),
                curves_moments(curves, i0 + 1, n, start),
            )
        }),
{
    let n = curves.len() as int;
    let path = prepared(curves);
    let o = path.origin;
    let (start, end) = (cubic_point(curves[i0], t0), curves.last().p3);
    let s = from_to(o, start);
    let u = end.x - o.x;
    lemma_constants();
    lemma_shifted_is_reduced(stretch_moments(path, i0, t0, n, 0real), s, u);
    law_curve_meets_its_ends(curves[i0]);
    let first = cubic_part(curves[i0], t0, 1real);
    lemma_curve_reduced(first, o, start);
    if t0 == 1real {
        lemma_no_extent(curves[i0], t0, o);
    }
    let m = moments_of(translated(first, o));
    assert(part_moments(path, i0, t0, 1real) == m);
    assert(part_moments(path, n, 0real, 0real) == no_moments::<real>());
    if i0 == n - 1 {
        assert(curves_moments(curves, i0 + 1, n, start) == no_moments::<real>());
    } else {
        let k = n - 1;
        assert(joined_at(curves, i0));
        lemma_curves_reduced(curves, i0 + 1, k, o, start);
        lemma_curve_reduced(curves[k], o, start);
        let last = moments_of(translated(curves[k], o));
        let d = moments_difference(
            running_moments(curves, o, k as nat),
            running_moments(curves, o, (i0 + 1) as nat),
        );
        let (u0, u1) = (curves[i0 + 1].p0.x - o.x, curves[k].p0.x - o.x);
        lemma_reduced_sum(d, last, s, u0, u1, u);
        lemma_reduced_sum(m, moments_sum(d, last), s, s.x, u0, u);
        assert(running_moments(curves, o, n as nat) == moments_sum(
            running_moments(curves, o, k as nat),
            last,
        ));
        assert(stretch_moments(path, i0, t0, n, 0real) == moments_sum(m, moments_sum(d, last)));
    }
}

/// Moment integrals seen from another point: `d` is the step to it from where
/// the moments were taken, and `w` the width of the stretch that begins there.
pub open spec fn carried<A: Arith>(m: (A, A, A), d: Vec2<A>, w: A) -> (A, A, A) {
    let (a, x, y) = m;
    (
        a.plus(d.y.times(w)),
        x.plus(d.x.times(a)).plus(A::ratio(1, 2).times(d.y.times(w.times(w)))).plus(
            d.x.times(d.y.times(w)),
        ),
        y.plus(whole::<A>(2).times(d.y.times(a))).plus(d.y.times(d.y.times(w))),
    )
}

/// Taken from one point, and carried to another.
proof fn lemma_carried_back(
    m: (real, real, real),
    s: Vec2<real>,
    p: Vec2<real>,
    u: real,
)
    ensures
        carried(reduced(m, p, p.x, u), (Vec2 { x: p.x - s.x, y: p.y - s.y }), u - p.x) == reduced(
            m,
            s,
            p.x,
            u,
        ),
{
    lemma_constants();
    let (x, y) = (p.x - s.x, p.y - s.y);
    let w = u - p.x;
    let r = reduced(m, p, p.x, u);
    let q = reduced(m, s, p.x, u);
    let (pw, sw) = (p.y * w, s.y * w);
    // The area.
    distribute(p.y, u, p.x);
    distribute(s.y, u, p.x);
    spread2(1real, p.y, -1real, s.y, w);
    let yw = y * w;
    assert(r.0 == m.0 - pw);
    assert(yw == pw - sw);
    assert(q.0 == m.0 - sw);
    // The moment of `y`.
    let c = carried(r, Vec2 { x, y }, w);
    assert(y * r.0 == y * (m.0 - pw));
    assert(y * yw == y * (pw - sw));
    assert(x * r.0 == x * (m.0 - pw));
    assert(x * yw == x * (pw - sw));
    assert(c.2 == q.2) by {
        distribute(p.y * p.y, u, p.x);
        distribute(s.y * s.y, u, p.x);
        regroup(p.y, p.y, w);
        regroup(s.y, s.y, w);
        distribute(y, m.0, pw);
        distribute(y, pw, sw);
        spread2(1real, p.y, -1real, s.y, m.0);
        spread2(1real, p.y, -1real, s.y, pw);
        spread2(1real, p.y, -1real, s.y, sw);
        advance(p.y, s.y, w);
        assert(r.2 == m.2 - 2real * (p.y * m.0) + p.y * pw);
        assert(q.2 == m.2 - 2real * (s.y * m.0) + s.y * sw);
        assert(y * m.0 == p.y * m.0 - s.y * m.0);
        assert(y * pw == p.y * pw - s.y * pw);
        assert(y * sw == p.y * sw - s.y * sw);
        assert(c.2 == r.2 + 2real * (y * r.0) + y * yw);
    }
    // The moment of `x`.
    let (uu, pp) = (u * u, p.x * p.x);
    let ww = w * w;
    assert(ww == uu - 2real * (p.x * u) + pp) by {
        distribute(w, u, p.x);
        swap(w, u);
        swap(w, p.x);
        distribute(u, u, p.x);
        distribute(p.x, u, p.x);
        swap(u, p.x);
    }
    assert(c.1 == q.1) by {
        // Every term over the products of `u` and `p.x` with the steps.
        let (pu, pq) = (p.y * u, p.y * p.x);
        let (su, sq) = (s.y * u, s.y * p.x);
        distribute(x, m.0, pw);
        spread2(1real, p.x, -1real, s.x, m.0);
        spread2(1real, p.x, -1real, s.x, pw);
        distribute(x, pw, sw);
        spread2(1real, p.x, -1real, s.x, sw);
        distribute(p.x, pu, pq);
        distribute(p.x, su, sq);
        distribute(s.x, su, sq);
        distribute(s.x, pu, pq);
        regroup(s.x, s.y, u);
        regroup(s.x, s.y, p.x);
        regroup(p.x, p.y, u);
        regroup(p.x, p.y, p.x);
        advance(p.x, p.y, u);
        advance(p.x, p.y, p.x);
        advance(p.x, s.y, u);
        advance(p.x, s.y, p.x);
        spread2(1real, p.y, -1real, s.y, ww);
        swap(p.y, ww);
        swap(s.y, ww);
        spread3(1real, uu, -2real, p.x * u, 1real, pp, p.y);
        spread3(1real, uu, -2real, p.x * u, 1real, pp, s.y);
        swap(uu, p.y);
        swap(p.x * u, p.y);
        swap(pp, p.y);
        swap(uu, s.y);
        swap(p.x * u, s.y);
        swap(pp, s.y);
    }
}

/// Moment integrals of a stretch from those of two that it is cut into, each
/// relative to where it begins itself: those of the second are carried over by
/// the step from the one beginning to the other.
pub proof fn law_stretches_join(
    curves: Seq<CubicBez<real>>,
    i0: int,
    t0: real,
    i1: int,
    t1: real,
    i2: int,
    t2: real,
    p0: Point<real>,
    p1: Point<real>,
    p2: Point<real>,
)
    requires
        0 <= i0 <= i1 <= i2,
        is_place(curves.len(), i0, t0),
        is_place(curves.len(), i1, t1),
        is_place(curves.len(), i2, t2),
    ensures
        stretch_moments_from(prepared(curves), i0, t0, i2, t2, p0, p2) == moments_sum(
            stretch_moments_from(prepared(curves), i0, t0, i1, t1, p0, p1),
            carried(
                stretch_moments_from(prepared(curves), i1, t1, i2, t2, p1, p2),
                from_to(p0, p1),
                p2.x.minus(p1.x),
            ),
        ),
{
    let path = prepared(curves);
    let o = path.origin;
    let (s, p) = (from_to(o, p0), from_to(o, p1));
    let u = p2.x - o.x;
    let m = stretch_moments(path, i0, t0, i1, t1);
    let n = stretch_moments(path, i1, t1, i2, t2);
    law_stretches_add_up(curves, i0, t0, i1, t1, i2, t2);
    lemma_shifted_is_reduced(m, s, p1.x - o.x);
    lemma_shifted_is_reduced(n, p, u);
    lemma_shifted_is_reduced(moments_sum(m, n), s, u);
    lemma_reduced_sum(m, n, s, s.x, p.x, u);
    lemma_carried_back(n, s, p, u);
    assert(from_to(p0, p1) == (Vec2 { x: p.x - s.x, y: p.y - s.y }));
    assert(p2.x - p1.x == u - p.x);
}

/// A stretch of exactly one curve has the moment integrals of that curve alone,
/// also where its ends are taken for the end of the curve before, or for the
/// beginning of the curve behind.
pub proof fn law_stretch_of_one_curve(curves: Seq<CubicBez<real>>, k: int, i0: int, i1: int)
    requires
        0 <= k < curves.len(),
        0 <= i0,
        i0 == k || i0 == k - 1,
        i1 == k || i1 == k + 1,
    ensures
        ({
            let c = curves[k];
            let (t0, t1) = ((k - i0) as real, (k + 1 - i1) as real);
            stretch_moments_from(prepared(curves), i0, t0, i1, t1, c.p0, c.p3) == moments_of(
                translated(c, c.p0),
            )
        }),
{
    let path = prepared(curves);
    let o = path.origin;
    let c = curves[k];
    let (t0, t1) = ((k - i0) as real, (k + 1 - i1) as real);
    let m = moments_of(translated(c, o));
    lemma_constants();
    lemma_whole_part(c);
    lemma_shifted_is_reduced(m, from_to(o, c.p0), c.p3.x - o.x);
    lemma_curve_reduced(c, o, c.p0);
    let none = no_moments::<real>();
    assert(stretch_moments(path, i0, t0, i1, t1) == m) by {
        if i0 == k {
            assert(part_moments(path, k, 0real, 1real) == m);
            if i1 == k + 1 {
                assert(part_moments(path, i1, 0real, 0real) == none);
            }
        } else {
            assert(part_moments(path, i0, 1real, 1real) == none);
            if i1 == k {
                assert(part_moments(path, k, 0real, 1real) == m);
            } else {
                assert(part_moments(path, i1, 0real, 0real) == none);
                let before = running_moments(curves, o, k as nat);
                assert(running_moments(curves, o, (k + 1) as nat) == moments_sum(before, m));
                assert(path.els[i1 - 1].moments == running_moments(curves, o, (k + 1) as nat));
                assert(path.els[i0].moments == before);
            }
        }
    }
}

proof fn lemma_sums_differ(curves: Seq<CubicBez<real>>, o: Point<real>, i: int, j: int)
    requires
        0 <= i <= j <= curves.len(),
    ensures
        curves_moments(curves, i, j, o) == moments_difference(
            running_moments(curves, o, j as nat),
            running_moments(curves, o, i as nat),
        ),
    decreases j - i,
{
    lemma_constants();
    if i < j {
        lemma_sums_differ(curves, o, i, j - 1);
    }
}

/// A range that runs backward over a join: its moments and those of the range
/// that runs forward are together those of all curves that the two touch, all
/// relative to the path's origin.
pub proof fn law_backward_stretch(
    curves: Seq<CubicBez<real>>,
    i0: int,
    t0: real,
    i1: int,
    t1: real,
)
    requires
        0 <= i0 < i1 < curves.len(),
    ensures
        moments_sum(
            stretch_moments(prepared(curves), i0, t0, i1, t1),
            stretch_moments(prepared(curves), i1, t1, i0, t0),
        ) == curves_moments(curves, i0, i1 + 1, curves[0].p0),
{
    let path = prepared(curves);
    let o = path.origin;
    let (zero, one) = (whole::<real>(0), whole::<real>(1));
    lemma_constants();
    let (c, d) = (translated(curves[i0], o), translated(curves[i1], o));
    lemma_part_moments(path, i0, t0, one);
    lemma_part_moments(path, i0, zero, t0);
    lemma_part_moments(path, i1, t1, one);
    lemma_part_moments(path, i1, zero, t1);
    law_part_moments_add_up(c, zero, t0, one);
    law_part_moments_add_up(d, zero, t1, one);
    lemma_whole_part(c);
    lemma_whole_part(d);
    lemma_sums_differ(curves, o, i0, i1 + 1);
    let r = running_moments(curves, o, i0 as nat);
    let s = running_moments(curves, o, i1 as nat);
    assert(running_moments(curves, o, (i0 + 1) as nat) == moments_sum(r, moments_of(c)));
    assert(running_moments(curves, o, (i1 + 1) as nat) == moments_sum(s, moments_of(d)));
    assert(path.els[i0].moments == running_moments(curves, o, (i0 + 1) as nat));
    assert(path.els[i1 - 1].moments == s);
}

}
