//! Parts of curves, derivatives and curves of higher degree, where nothing is
//! rounded.

use crate::arith::Arith;
use crate::geom::{
    between, cubic_at, cubic_part, cubic_point, cubic_velocity, quad_at, quad_point, raised,
    straight, CubicBez, Point, QuadBez, Vec2,
};
use crate::polynomial::{
    bezier, law_bezier_value, law_quad_value, lemma_constants, lemma_slope_at, regroup, spread,
    spread2, spread3, spread4, swap, x_poly, y_poly, Poly,
};
use vstd::prelude::*;

verus! {

/// The derivative of a curve at `t` is the derivative there of the polynomials
/// that the curve follows.
pub proof fn law_velocity_is_derivative(c: CubicBez<real>, t: real)
    ensures
        cubic_velocity(c, t) == (Vec2 { x: x_poly(c).slope().at(t), y: y_poly(c).slope().at(t) }),
{
    lemma_velocity(c.p0.x, c.p1.x, c.p2.x, c.p3.x, t);
    lemma_velocity(c.p0.y, c.p1.y, c.p2.y, c.p3.y, t);
    lemma_constants();
}

proof fn lemma_velocity(a: real, b: real, c: real, d: real, t: real)
    ensures
        quad_at((b - a) * 3real, (c - b) * 3real, (d - c) * 3real, t)
            == bezier(a, b, c, d).slope().at(t),
{
    law_quad_value((b - a) * 3real, (c - b) * 3real, (d - c) * 3real, t);
}

/// The polynomial as seen from `t`.
pub open spec fn seen_from(p: Poly, t: real) -> Poly {
    Poly { c0: p.at(t), c1: p.slope().at(t), c2: p.c2 + 3real * (p.c3 * t), c3: p.c3 }
}

pub(crate) proof fn lemma_seen_from(p: Poly, t: real, k: real)
    ensures
        p.at(t + k) == seen_from(p, t).at(k),
        p.slope().at(t + k) == seen_from(p, t).slope().at(k),
{
    let (t2, k2) = (t * t, k * k);
    let (t3, k3) = (t * t * t, k * k * k);
    let tk = t * k;
    let s = t + k;
    assert(s * s == t2 + 2real * tk + k2) by (nonlinear_arith)
        requires
            s == t + k,
            t2 == t * t,
            tk == t * k,
            k2 == k * k,
    ;
    assert(s * s * s == t3 + 3real * (t2 * k) + 3real * (t * k2) + k3) by {
        spread3(1real, t2, 2real, tk, 1real, k2, s);
        swap(t2, s);
        swap(tk, s);
        swap(k2, s);
        spread(t, k, t2);
        spread(t, k, tk);
        spread(t, k, k2);
        swap(t, t2);
        swap(k, t2);
        regroup(t, t, k);
        swap(k, tk);
        regroup(t, k, k);
        swap(k, k2);
    }
    // Both sides, term by term.
    swap(p.c1, s);
    spread(t, k, p.c1);
    swap(t, p.c1);
    swap(k, p.c1);
    swap(p.c2, s * s);
    spread3(1real, t2, 2real, tk, 1real, k2, p.c2);
    swap(t2, p.c2);
    swap(tk, p.c2);
    swap(k2, p.c2);
    regroup(p.c2, t, k);
    swap(p.c3, s * s * s);
    spread4(1real, t3, 3real, t2 * k, 3real, t * k2, 1real, k3, p.c3);
    swap(t3, p.c3);
    swap(t2 * k, p.c3);
    swap(t * k2, p.c3);
    swap(k3, p.c3);
    regroup(p.c3, t2, k);
    regroup(p.c3, t, k2);
    let q = seen_from(p, t);
    lemma_slope_at(p, t);
    lemma_slope_at(p, s);
    spread3(1real, p.c1, 2real, p.c2 * t, 3real, p.c3 * t2, k);
    spread2(1real, p.c2, 3real, p.c3 * t, k2);
    assert(p.at(s) == q.at(k));
    swap(p.c2, s);
    spread(t, k, p.c2);
    swap(t, p.c2);
    swap(k, p.c2);
    swap(p.c3, s * s);
    spread3(1real, t2, 2real, tk, 1real, k2, p.c3);
    swap(t2, p.c3);
    swap(tk, p.c3);
    swap(k2, p.c3);
    regroup(p.c3, t, k);
    lemma_slope_at(q, k);
    spread2(1real, p.c2, 3real, p.c3 * t, k);
}

/// The polynomial with the parameter run through `h` times as fast.
pub open spec fn sped_up(p: Poly, h: real) -> Poly {
    Poly { c0: p.c0, c1: p.c1 * h, c2: p.c2 * (h * h), c3: p.c3 * (h * h * h) }
}

proof fn lemma_sped_up(p: Poly, h: real, u: real)
    ensures
        sped_up(p, h).at(u) == p.at(h * u),
{
    let v = h * u;
    assert(v * v == (h * h) * (u * u)) by (nonlinear_arith)
        requires
            v == h * u,
    ;
    assert(v * v * v == (h * h * h) * (u * u * u)) by (nonlinear_arith)
        requires
            v == h * u,
    ;
    regroup(p.c1, h, u);
    regroup(p.c2, h * h, u * u);
    regroup(p.c3, h * h * h, u * u * u);
}

/// One coordinate of a part of a curve, as a polynomial.
pub(crate) proof fn lemma_part(a: real, b: real, c: real, d: real, t0: real, t1: real)
    ensures
        ({
            let p = bezier(a, b, c, d);
            let s = (t1 - t0) * (1real / 3real);
            let (w0, w3) = (p.at(t0), p.at(t1));
            bezier(w0, w0 + p.slope().at(t0) * s, w3 - p.slope().at(t1) * s, w3) == sped_up(
                seen_from(p, t0),
                t1 - t0,
            )
        }),
{
    let p = bezier(a, b, c, d);
    let h = t1 - t0;
    let q = seen_from(p, t0);
    let (h2, h3) = (h * h, h * h * h);
    lemma_seen_from(p, t0, h);
    let (m0, m1) = (p.slope().at(t0), p.slope().at(t1));
    assert(m0 * (h * (1real / 3real)) == (m0 * h) / 3real) by {
        regroup(m0, h, 1real / 3real);
    }
    assert(m1 * (h * (1real / 3real)) == (m1 * h) / 3real) by {
        regroup(m1, h, 1real / 3real);
    }
    lemma_slope_at(q, h);
    assert(m1 == q.c1 + 2real * (q.c2 * h) + 3real * (q.c3 * h2));
    spread3(1real, q.c1, 2real, q.c2 * h, 3real, q.c3 * h2, h);
    regroup(q.c2, h, h);
    regroup(q.c3, h2, h);
}

/// A part of a curve follows the curve: at `u` it is where the curve is `u` of
/// the way from the one parameter to the other.
pub proof fn law_part_follows_curve(c: CubicBez<real>, t0: real, t1: real, u: real)
    ensures
        cubic_point(cubic_part(c, t0, t1), u) == cubic_point(c, t0 + (t1 - t0) * u),
{
    let part = cubic_part(c, t0, t1);
    lemma_constants();
    law_velocity_is_derivative(c, t0);
    law_velocity_is_derivative(c, t1);
    lemma_follows(c.p0.x, c.p1.x, c.p2.x, c.p3.x, t0, t1, u);
    lemma_follows(c.p0.y, c.p1.y, c.p2.y, c.p3.y, t0, t1, u);
    law_bezier_value(c.p0.x, c.p1.x, c.p2.x, c.p3.x, t0);
    law_bezier_value(c.p0.x, c.p1.x, c.p2.x, c.p3.x, t1);
    law_bezier_value(c.p0.y, c.p1.y, c.p2.y, c.p3.y, t0);
    law_bezier_value(c.p0.y, c.p1.y, c.p2.y, c.p3.y, t1);
    law_bezier_value(part.p0.x, part.p1.x, part.p2.x, part.p3.x, u);
    law_bezier_value(part.p0.y, part.p1.y, part.p2.y, part.p3.y, u);
    law_bezier_value(c.p0.x, c.p1.x, c.p2.x, c.p3.x, t0 + (t1 - t0) * u);
    law_bezier_value(c.p0.y, c.p1.y, c.p2.y, c.p3.y, t0 + (t1 - t0) * u);
}

proof fn lemma_follows(a: real, b: real, c: real, d: real, t0: real, t1: real, u: real)
    ensures
        ({
            let p = bezier(a, b, c, d);
            let s = (t1 - t0) * (1real / 3real);
            let (w0, w3) = (p.at(t0), p.at(t1));
            bezier(w0, w0 + p.slope().at(t0) * s, w3 - p.slope().at(t1) * s, w3).at(u) == p.at(
                t0 + (t1 - t0) * u,
            )
        }),
{
    let p = bezier(a, b, c, d);
    lemma_part(a, b, c, d, t0, t1);
    lemma_sped_up(seen_from(p, t0), t1 - t0, u);
    lemma_seen_from(p, t0, (t1 - t0) * u);
}

/// A quadratic curve, raised, is the same curve.
pub proof fn law_raising_keeps_curve(q: QuadBez<real>, t: real)
    ensures
        cubic_point(raised(q), t) == quad_point(q, t),
{
    lemma_constants();
    lemma_raised(q.p0.x, q.p1.x, q.p2.x, t);
    lemma_raised(q.p0.y, q.p1.y, q.p2.y, t);
}

proof fn lemma_raised(a: real, b: real, c: real, t: real)
    ensures
        cubic_at(a, a + (b - a) * (2real / 3real), c + (b - c) * (2real / 3real), c, t)
            == quad_at(a, b, c, t),
{
    law_quad_value(a, b, c, t);
    law_bezier_value(a, a + (b - a) * (2real / 3real), c + (b - c) * (2real / 3real), c, t);
}

/// A straight line as a cubic curve is run through evenly.
pub proof fn law_straight_is_even(p: Point<real>, q: Point<real>, t: real)
    ensures
        cubic_point(straight(p, q), t) == between(p, q, t),
{
    lemma_constants();
    lemma_straight(p.x, q.x, t);
    lemma_straight(p.y, q.y, t);
}

proof fn lemma_straight(a: real, b: real, t: real)
    ensures
        cubic_at(a, a + (b - a) * (1real / 3real), b + (a - b) * (1real / 3real), b, t) == a + (b
            - a) * t,
{
    let (p1, p2) = (a + (b - a) * (1real / 3real), b + (a - b) * (1real / 3real));
    law_bezier_value(a, p1, p2, b, t);
    let line = Poly { c0: a, c1: b - a, c2: 0real, c3: 0real };
    assert(bezier(a, p1, p2, b) == line);
    let (t2, t3) = (t * t, t * t * t);
    assert(0real * t2 == 0real && 0real * t3 == 0real) by (nonlinear_arith);
}

}
