//! The moment integrals over ranges of the parameter, where nothing is rounded.

use crate::arith::{whole, Arith};
use crate::curve::{
    moments_sum, no_moments, path_derivative, path_point, path_velocity, placed, prepared,
    range_moments, scaled,
};
use crate::drawing::law_slope_is_derivative;
use crate::geom::{cubic_point, from_to, moved, CubicBez, Vec2};
use crate::moments::{moments_of, translated};
use crate::polynomial::{
    law_bezier_value, lemma_constants, regroup, spread, swap, x_poly, y_poly,
};
use crate::stretches::{
    carried, curves_moments, is_place, joined_at, law_curve_meets_its_ends,
    law_moments_move_with_path, law_points_move_with_curve, law_stretch_is_sum_of_pieces,
    law_stretch_to_the_end, law_stretches_join, lemma_no_extent, lemma_whole_part, moved_curves,
    piece_moments,
};
use crate::subdivision::law_velocity_is_derivative;
use vstd::prelude::*;

verus! {

/// The parameter runs evenly through the curves: the index of the curve and the
/// parameter on it add up to `n` times the parameter, the parameter on the
/// curve lies below one, and only the end of the range falls behind the last
/// curve.
pub proof fn law_parameter_is_even(n: nat, t: real)
    requires
        n > 0,
        0real <= t <= 1real,
    ensures
        ({
            let (i, u) = scaled(n, t);
            &&& i <= n
            &&& 0real <= u < 1real
            &&& i as real + u == t * (n as real)
            &&& i == n <==> t == 1real
            &&& is_place(n, i as int, u)
        }),
{
    lemma_constants();
    let s = t * (n as real);
    let r = n as real;
    assert(0real <= s <= r) by (nonlinear_arith)
        requires
            s == t * r,
            0real <= t <= 1real,
            r > 0real,
    ;
    assert(t < 1real ==> s < r) by (nonlinear_arith)
        requires
            s == t * r,
            r > 0real,
    ;
    assert(t == 1real ==> s == r);
    let f = s.floor();
    assert(f as real <= s && s < (f + 1) as real);
}

proof fn lemma_ordered(n: nat, r: real, t: real)
    requires
        n > 0,
        0real <= r <= t <= 1real,
    ensures
        scaled(n, r).0 <= scaled(n, t).0,
{
    lemma_constants();
    let w = n as real;
    let (x, y) = (r * w, t * w);
    assert(0real <= x <= y) by (nonlinear_arith)
        requires
            x == r * w,
            y == t * w,
            0real <= r <= t,
            w > 0real,
    ;
    let (f, g) = (x.floor(), y.floor());
    assert(f as real <= x && y < (g + 1) as real);
}

/// Moving a path does not change the moment integrals over any range.
pub proof fn law_ranges_move_with_path(
    curves: Seq<CubicBez<real>>,
    v: Vec2<real>,
    r: real,
    t: real,
)
    requires
        curves.len() > 0,
        0real <= r <= t <= 1real,
    ensures
        range_moments(prepared(moved_curves(curves, v)), r, t) == range_moments(
            prepared(curves),
            r,
            t,
        ),
{
    let n = curves.len();
    law_parameter_is_even(n, r);
    law_parameter_is_even(n, t);
    lemma_ordered(n, r, t);
    let path = prepared(curves);
    let other = prepared(moved_curves(curves, v));
    let ((i0, u0), (i1, u1)) = (scaled(n, r), scaled(n, t));
    let ((j0, w0), (j1, w1)) = (placed(n, r), placed(n, t));
    law_points_move_with_curve(curves[j0 as int], v, w0);
    law_points_move_with_curve(curves[j1 as int], v, w1);
    assert(path_point(other, r) == moved(path_point(path, r), v));
    assert(path_point(other, t) == moved(path_point(path, t), v));
    law_moments_move_with_path(
        curves,
        v,
        i0 as int,
        u0,
        i1 as int,
        u1,
        path_point(path, r),
        path_point(path, t),
    );
}

/// The moment integrals over a range from those over the two parts of it, each
/// relative to its own start: those of the second are carried over by the step
/// from the one start to the other. Any cut gives the same whole.
pub proof fn law_ranges_add_up(curves: Seq<CubicBez<real>>, r: real, s: real, t: real)
    requires
        curves.len() > 0,
        0real <= r <= s <= t <= 1real,
    ensures
        ({
            let path = prepared(curves);
            range_moments(path, r, t) == moments_sum(
                range_moments(path, r, s),
                carried(
                    range_moments(path, s, t),
                    from_to(path_point(path, r), path_point(path, s)),
                    path_point(path, t).x.minus(path_point(path, s).x),
                ),
            )
        }),
{
    let n = curves.len();
    let path = prepared(curves);
    law_parameter_is_even(n, r);
    law_parameter_is_even(n, s);
    law_parameter_is_even(n, t);
    lemma_ordered(n, r, s);
    lemma_ordered(n, s, t);
    let ((i0, u0), (i1, u1), (i2, u2)) = (scaled(n, r), scaled(n, s), scaled(n, t));
    law_stretches_join(
        curves,
        i0 as int,
        u0,
        i1 as int,
        u1,
        i2 as int,
        u2,
        path_point(path, r),
        path_point(path, s),
        path_point(path, t),
    );
}

/// The moment integrals of a path without gaps over a range are those of its
/// pieces, all seen from where the range begins.
pub proof fn law_range_is_sum_of_pieces(curves: Seq<CubicBez<real>>, r: real, t: real)
    requires
        curves.len() > 0,
        0real <= r <= t <= 1real,
        r < 1real,
        forall|i: int| 0 <= i < curves.len() - 1 ==> #[trigger] joined_at(curves, i),
    ensures
        ({
            let n = curves.len();
            let ((i0, u0), (i1, u1)) = (scaled(n, r), scaled(n, t));
            let start = path_point(prepared(curves), r);
            let first = curves[i0 as int];
            range_moments(prepared(curves), r, t) == if i0 == i1 {
                piece_moments(first, u0, u1, start)
            } else {
                moments_sum(
                    moments_sum(
                        piece_moments(first, u0, whole(1), start),
                        curves_moments(curves, (i0 + 1) as int, i1 as int, start),
                    ),
                    if i1 < n {
                        piece_moments(curves[i1 as int], whole(0), u1, start)
                    } else {
                        no_moments()
                    },
                )
            }
        }),
{
    let n = curves.len();
    law_parameter_is_even(n, r);
    law_parameter_is_even(n, t);
    lemma_ordered(n, r, t);
    lemma_constants();
    let ((i0, u0), (i1, u1)) = (scaled(n, r), scaled(n, t));
    let path = prepared(curves);
    assert(path_point(path, r) == cubic_point(curves[i0 as int], u0));
    if i1 == n {
        law_stretch_to_the_end(curves, i0 as int, u0);
        law_curve_meets_its_ends(curves.last());
        assert(path_point(path, t) == curves.last().p3);
    } else {
        law_stretch_is_sum_of_pieces(curves, i0 as int, u0, i1 as int, u1);
        assert(path_point(path, t) == cubic_point(curves[i1 as int], u1));
    }
}

proof fn lemma_even_step(n: nat, k: nat)
    requires
        k < n,
    ensures
        scaled(n, real::ratio(k, n)) == (k, 0real),
        0real <= real::ratio(k, n) < 1real,
{
    lemma_constants();
    let (x, w) = (k as real, n as real);
    let t = x / w;
    assert(t * w == x && 0real <= t && t < 1real) by (nonlinear_arith)
        requires
            t == x / w,
            0real <= x < w,
    ;
    assert(x.floor() == k);
}

/// A range of exactly one curve has the moment integrals of that curve alone:
/// what comes before and behind it in the path has no influence.
pub proof fn law_range_of_one_curve(curves: Seq<CubicBez<real>>, k: nat)
    requires
        k < curves.len(),
        k + 1 < curves.len() ==> joined_at(curves, k as int),
    ensures
        ({
            let n = curves.len();
            let c = curves[k as int];
            let m = range_moments(prepared(curves), real::ratio(k, n), real::ratio(k + 1, n));
            &&& m == range_moments(prepared(seq![c]), whole(0), whole(1))
            &&& m == moments_of(translated(c, c.p0))
        }),
{
    lemma_one_curve(curves, k);
    let c = curves[k as int];
    lemma_constants();
    lemma_one_curve(seq![c], 0);
}

proof fn lemma_one_curve(curves: Seq<CubicBez<real>>, k: nat)
    requires
        k < curves.len(),
        k + 1 < curves.len() ==> joined_at(curves, k as int),
    ensures
        range_moments(
            prepared(curves),
            real::ratio(k, curves.len()),
            real::ratio(k + 1, curves.len()),
        ) == moments_of(translated(curves[k as int], curves[k as int].p0)),
{
    let n = curves.len();
    let c = curves[k as int];
    let path = prepared(curves);
    let (r, t) = (real::ratio(k, n), real::ratio(k + 1, n));
    lemma_constants();
    lemma_even_step(n, k);
    law_curve_meets_its_ends(c);
    lemma_whole_part(c);
    let start = c.p0;
    let j: int = (k + 1) as int;
    assert(path_point(path, r) == start);
    assert(piece_moments(c, whole(0), whole(1), start) == moments_of(translated(c, start)));
    if k + 1 == n {
        assert(t == 1real) by {
            let w = n as real;
            assert(w / w == 1real) by (nonlinear_arith)
                requires
                    w > 0real,
            ;
        }
        law_parameter_is_even(n, t);
        law_stretch_to_the_end(curves, k as int, 0real);
        assert(path_point(path, t) == c.p3);
        assert(curves_moments(curves, j, n as int, start) == no_moments::<real>());
    } else {
        lemma_even_step(n, k + 1);
        let next = curves[j];
        law_curve_meets_its_ends(next);
        assert(path_point(path, t) == next.p0);
        law_stretch_is_sum_of_pieces(curves, k as int, 0real, j, 0real);
        assert(curves_moments(curves, j, j, start) == no_moments::<real>());
        lemma_no_extent(next, 0real, start);
    }
}

/// A prepared path is where its curves are, and moves as they do: the range
/// from zero to one is divided evenly among them. The whole part of `n` times
/// the parameter tells the curve, and the rest the parameter on it; the end of
/// the range, and what lies less than a curve behind it, is the end of the last
/// curve. What lies before the range falls on the first curve.
pub proof fn law_samples_follow_the_curves(curves: Seq<CubicBez<real>>, t: real)
    requires
        curves.len() > 0,
        t * (curves.len() as real) < (curves.len() + 1) as real,
    ensures
        ({
            let n = curves.len();
            let s = t * (n as real);
            let k = if s < 0real {
                0
            } else if s < n as real {
                s.floor()
            } else {
                n - 1
            };
            let u = if s < n as real {
                s - s.floor() as real
            } else {
                1real
            };
            let (x, y) = (x_poly(curves[k]), y_poly(curves[k]));
            let (p, v) = (path_point(prepared(curves), t), path_velocity(prepared(curves), t));
            &&& 0 <= k < n
            &&& 0real <= u <= 1real
            &&& p.x == x.at(u) && p.y == y.at(u)
            &&& v.x == x.slope().at(u) && v.y == y.slope().at(u)
        }),
{
    let n = curves.len();
    lemma_constants();
    let s = t * (n as real);
    let f = s.floor();
    assert(f as real <= s && s < (f + 1) as real);
    let k = if s < 0real {
        0
    } else if s < n as real {
        f
    } else {
        n - 1
    };
    let u = if s < n as real {
        s - f as real
    } else {
        1real
    };
    assert((f as real).floor() == f);
    assert(whole::<real>(n) == n as real && whole::<real>(1) == 1real);
    assert(s.floored() == f as real);
    assert(s.floored().whole_part() == (if f < 0 {
        0
    } else {
        f
    }));
    assert(scaled(n, t).1 == s - f as real);
    assert(s >= n as real ==> f == n);
    assert(placed(n, t) == (k as nat, u));
    let c = curves[k];
    law_velocity_is_derivative(c, u);
    law_bezier_value(c.p0.x, c.p1.x, c.p2.x, c.p3.x, u);
    law_bezier_value(c.p0.y, c.p1.y, c.p2.y, c.p3.y, u);
}

/// What is sampled as the derivative is the derivative of what is sampled as
/// the point: between two parameters on one curve, `k` curves apart, the point
/// moves by `k` times the derivative, and a rest that vanishes with the square
/// of `k`. By the parameter of the path, the derivative is `n` times that.
pub proof fn law_velocity_is_slope_of_points(curves: Seq<CubicBez<real>>, t: real, h: real)
    requires
        curves.len() > 0,
        0real <= t < 1real,
        0real <= t + h < 1real,
        (t * (curves.len() as real)).floor() == ((t + h) * (curves.len() as real)).floor(),
    ensures
        ({
            let n = curves.len() as real;
            let path = prepared(curves);
            let k = h * n;
            let (p, q, v) = (path_point(path, t), path_point(path, t + h), path_velocity(path, t));
            let (c, u) = (curves[(t * n).floor()], t * n - (t * n).floor() as real);
            let (x, y) = (x_poly(c), y_poly(c));
            &&& q.x == p.x + v.x * k + (x.c2 + 3real * (x.c3 * u) + x.c3 * k) * (k * k)
            &&& q.y == p.y + v.y * k + (y.c2 + 3real * (y.c3 * u) + y.c3 * k) * (k * k)
        }),
{
    let n = curves.len();
    let w = n as real;
    law_parameter_is_even(n, t);
    law_parameter_is_even(n, t + h);
    law_samples_follow_the_curves(curves, t);
    law_samples_follow_the_curves(curves, t + h);
    let f = (t * w).floor();
    let u = t * w - f as real;
    let k = h * w;
    let (x, y) = (x_poly(curves[f]), y_poly(curves[f]));
    spread(t, h, w);
    assert((t + h) * w - f as real == u + k);
    law_slope_is_derivative(x, u, k);
    law_slope_is_derivative(y, u, k);
}

/// The derivative by the parameter of the path: a step of the parameter on one
/// curve moves the point by the step times the derivative, and a rest that
/// vanishes with the square of the step.
pub proof fn law_derivative_by_the_parameter(curves: Seq<CubicBez<real>>, t: real, h: real)
    requires
        curves.len() > 0,
        0real <= t < 1real,
        0real <= t + h < 1real,
        (t * (curves.len() as real)).floor() == ((t + h) * (curves.len() as real)).floor(),
    ensures
        ({
            let n = curves.len() as real;
            let path = prepared(curves);
            let (p, q) = (path_point(path, t), path_point(path, t + h));
            let d = path_derivative(path, t);
            let (c, u) = (curves[(t * n).floor()], t * n - (t * n).floor() as real);
            let (x, y) = (x_poly(c), y_poly(c));
            let k = h * n;
            &&& q.x == p.x + d.x * h + (x.c2 + 3real * (x.c3 * u) + x.c3 * k) * (k * k)
            &&& q.y == p.y + d.y * h + (y.c2 + 3real * (y.c3 * u) + y.c3 * k) * (k * k)
        }),
{
    let n = curves.len();
    let w = n as real;
    lemma_constants();
    law_velocity_is_slope_of_points(curves, t, h);
    assert(whole::<real>(n) == w);
    let v = path_velocity(prepared(curves), t);
    regroup(v.x, w, h);
    regroup(v.y, w, h);
    swap(w, h);
}

}
