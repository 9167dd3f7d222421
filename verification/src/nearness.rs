//! Laws of the rounded moment integrals over ranges: what holds exactly where
//! nothing is rounded holds, with rounding, as nearly as the bounds say.

use crate::arith::{whole, Arith};
use crate::bounded::{
    bounded_range, bounds, exact_curve, exact_curves, exact_range, extent, given, given_curve,
    given_curves, law_range_moments_are_close, lemma_carried_bounded, lemma_extent_times,
    lemma_given, lemma_minus_sound, lemma_number, lemma_point_bounded, lemma_product_error,
    lemma_ratio_error, lemma_same_number, lemma_slack, lemma_stretch_bounded,
    lemma_stretch_from_bounded, lemma_sum_bounded, lemma_unity, lemma_zero_and_one, number,
    rounded_point, slack, unity, unrounded_point, Bounded,
};
use crate::curve::{
    moments_sum, path_point, placed, prepared, range_moments, scaled, stretch_moments,
    stretch_moments_from,
};
use crate::definite::{lemma_cancel, lemma_quotient};
use crate::float::{closest, Float};
use crate::geom::{cubic_point, from_to, CubicBez, Point};
use crate::moments::{moments_of, translated};
use crate::parameter::{
    exact_limit, law_parameter_is_split, lemma_scaled, lemma_split_end, lemma_split_ordered,
    lemma_whole,
};
use crate::polynomial::{advance, distribute, swap};
use crate::rounding::{
    law_rounding_keeps_order, lemma_round_expand, lemma_units_increase, HIDDEN, INFINITE,
};
use crate::stretches::{
    carried, is_place, joined_at, law_curve_meets_its_ends, law_stretch_of_one_curve,
    law_stretches_join,
};
use vstd::arithmetic::power2::{
    lemma2_to64_rest, lemma_pow2_pos, lemma_pow2_strictly_increases, pow2,
};
use vstd::prelude::*;

verus! {

/// The point at `t`, over bounded numbers.
pub open spec fn bounded_point(curves: Seq<CubicBez>, t: Float) -> Point<Bounded> {
    let (j, w) = placed(curves.len(), t);
    cubic_point(given_curve(curves[j as int]), given(w))
}

/// Whether each of three numbers lies no farther from its counterpart than both
/// bounds together, unless a step has overflowed.
pub open spec fn lie_near(
    x: (Float, Float, Float),
    y: (Float, Float, Float),
    a: (Bounded, Bounded, Bounded),
    b: (Bounded, Bounded, Bounded),
) -> bool {
    &&& a.0.finite && b.0.finite ==> extent(number(x.0) - number(y.0)) <= a.0.error + b.0.error
    &&& a.1.finite && b.1.finite ==> extent(number(x.1) - number(y.1)) <= a.1.error + b.1.error
    &&& a.2.finite && b.2.finite ==> extent(number(x.2) - number(y.2)) <= a.2.error + b.2.error
}

/// What is near to the same is near to each other.
proof fn lemma_lie_near(
    x: (Float, Float, Float),
    y: (Float, Float, Float),
    a: (Bounded, Bounded, Bounded),
    b: (Bounded, Bounded, Bounded),
    exact: (real, real, real),
)
    requires
        bounds(a, x, exact),
        bounds(b, y, exact),
    ensures
        lie_near(x, y, a, b),
{
}

/// A path cut at `s`: its moments from those of both parts, each taken relative
/// to its own start.
pub open spec fn joint_moments<A: Arith>(
    m: (A, A, A),
    n: (A, A, A),
    p: Point<A>,
    q: Point<A>,
    e: Point<A>,
) -> (A, A, A) {
    moments_sum(m, carried(n, from_to(p, q), e.x.minus(q.x)))
}

proof fn lemma_joint_bounded(
    m: (Bounded, Bounded, Bounded),
    mr: (Float, Float, Float),
    me: (real, real, real),
    n: (Bounded, Bounded, Bounded),
    nr: (Float, Float, Float),
    ne: (real, real, real),
    p: Point<Bounded>,
    q: Point<Bounded>,
    e: Point<Bounded>,
)
    requires
        bounds(m, mr, me),
        bounds(n, nr, ne),
        p.x.sound() && p.y.sound(),
        q.x.sound() && q.y.sound(),
        e.x.sound() && e.y.sound(),
    ensures
        bounds(
            joint_moments(m, n, p, q, e),
            joint_moments(mr, nr, rounded_point(p), rounded_point(q), rounded_point(e)),
            joint_moments(me, ne, unrounded_point(p), unrounded_point(q), unrounded_point(e)),
        ),
{
    let d = from_to(p, q);
    let w = e.x.minus(q.x);
    lemma_minus_sound(q.x, p.x);
    lemma_minus_sound(q.y, p.y);
    lemma_minus_sound(e.x, q.x);
    lemma_carried_bounded(n, nr, ne, d, w);
    let (dr, de) = (
        from_to(rounded_point(p), rounded_point(q)),
        from_to(unrounded_point(p), unrounded_point(q)),
    );
    lemma_sum_bounded(
        m,
        mr,
        me,
        carried(n, d, w),
        carried(nr, dr, rounded_point(e).x.minus(rounded_point(q).x)),
        carried(ne, de, unrounded_point(e).x.minus(unrounded_point(q).x)),
    );
}

/// A place that a rounded parameter names.
proof fn lemma_place(n: usize, t: Float)
    requires
        0 < n <= exact_limit(),
        whole::<Float>(0).le(t),
        t.le(whole(1)),
    ensures
        is_place(n as nat, scaled(n as nat, t).0 as int, number(scaled(n as nat, t).1)),
{
    law_parameter_is_split(n, t);
    lemma_split_end(n, t);
    lemma_whole(0);
    let u = scaled(n as nat, t).1;
    lemma_zero_number(u);
}

/// What is zero stands for zero.
proof fn lemma_zero_number(u: Float)
    requires
        u.magnitude() < INFINITE,
    ensures
        u.value() == 0 ==> number(u) == 0real,
{
    let w = unity();
    lemma_unity();
    if u.value() == 0 {
        assert(0real / w == 0real) by (nonlinear_arith)
            requires
                w > 0real,
        ;
    }
}

/// The exact moments of a range from those of two parts.
proof fn lemma_exact_ranges_join(curves: Seq<CubicBez>, r: Float, s: Float, t: Float)
    requires
        0 < curves.len() <= exact_limit(),
        curves.len() <= usize::MAX,
        whole::<Float>(0).le(r),
        r.le(s),
        s.le(t),
        t.le(whole(1)),
    ensures
        exact_range(curves, r, t) == joint_moments(
            exact_range(curves, r, s),
            exact_range(curves, s, t),
            unrounded_point(bounded_point(curves, r)),
            unrounded_point(bounded_point(curves, s)),
            unrounded_point(bounded_point(curves, t)),
        ),
{
    let n = curves.len();
    let m: usize = n as usize;
    lemma_whole(0);
    lemma_whole(1);
    lemma_place(m, r);
    lemma_place(m, s);
    lemma_place(m, t);
    lemma_split_ordered(m, r, s);
    lemma_split_ordered(m, s, t);
    lemma_exact_point(curves, r);
    lemma_exact_point(curves, s);
    lemma_exact_point(curves, t);
    let ((i0, u0), (i1, u1), (i2, u2)) = (scaled(n, r), scaled(n, s), scaled(n, t));
    law_stretches_join(
        exact_curves(curves),
        i0 as int,
        number(u0),
        i1 as int,
        number(u1),
        i2 as int,
        number(u2),
        unrounded_point(bounded_point(curves, r)),
        unrounded_point(bounded_point(curves, s)),
        unrounded_point(bounded_point(curves, t)),
    );
}

/// A point over bounded numbers is that of the path, and the exact one.
proof fn lemma_exact_point(curves: Seq<CubicBez>, t: Float)
    requires
        0 < curves.len() <= exact_limit(),
        curves.len() <= usize::MAX,
        whole::<Float>(0).le(t),
        t.le(whole(1)),
    ensures
        ({
            let (j, w) = placed(curves.len(), t);
            let b = bounded_point(curves, t);
            &&& b.x.sound() && b.y.sound()
            &&& rounded_point(b) == path_point(prepared(curves), t)
            &&& unrounded_point(b) == cubic_point(exact_curve(curves[j as int]), number(w))
        }),
{
    let (j, w) = placed(curves.len(), t);
    lemma_split_end(curves.len() as usize, t);
    lemma_given(curves[j as int]);
    assert(given(w).sound());
    lemma_point_bounded(given_curve(curves[j as int]), given(w));
}

/// Cut anywhere, the moment integrals over a range are, as nearly as the bounds
/// say, those that come from both parts: the moments of the second, relative to
/// its own start, are carried over by the step from the one start to the other.
pub proof fn law_rounded_ranges_add_up(curves: Seq<CubicBez>, r: Float, s: Float, t: Float)
    requires
        0 < curves.len() <= exact_limit(),
        curves.len() <= usize::MAX,
        whole::<Float>(0).le(r),
        r.le(s),
        s.le(t),
        t.le(whole(1)),
    ensures
        ({
            let path = prepared(curves);
            let joint = joint_moments(
                range_moments(path, r, s),
                range_moments(path, s, t),
                path_point(path, r),
                path_point(path, s),
                path_point(path, t),
            );
            let bounded = joint_moments(
                bounded_range(curves, r, s),
                bounded_range(curves, s, t),
                bounded_point(curves, r),
                bounded_point(curves, s),
                bounded_point(curves, t),
            );
            &&& bounds(bounded, joint, exact_range(curves, r, t))
            &&& lie_near(
                range_moments(path, r, t),
                joint,
                bounded_range(curves, r, t),
                bounded,
            )
        }),
{
    let path = prepared(curves);
    lemma_whole(0);
    lemma_whole(1);
    law_range_moments_are_close(curves, r, s);
    law_range_moments_are_close(curves, s, t);
    law_range_moments_are_close(curves, r, t);
    lemma_exact_point(curves, r);
    lemma_exact_point(curves, s);
    lemma_exact_point(curves, t);
    let (p, q, e) = (bounded_point(curves, r), bounded_point(curves, s), bounded_point(curves, t));
    lemma_joint_bounded(
        bounded_range(curves, r, s),
        range_moments(path, r, s),
        exact_range(curves, r, s),
        bounded_range(curves, s, t),
        range_moments(path, s, t),
        exact_range(curves, s, t),
        p,
        q,
        e,
    );
    lemma_exact_ranges_join(curves, r, s, t);
    lemma_lie_near(
        range_moments(path, r, t),
        joint_moments(
            range_moments(path, r, s),
            range_moments(path, s, t),
            path_point(path, r),
            path_point(path, s),
            path_point(path, t),
        ),
        bounded_range(curves, r, t),
        joint_moments(
            bounded_range(curves, r, s),
            bounded_range(curves, s, t),
            p,
            q,
            e,
        ),
        exact_range(curves, r, t),
    );
}

/// The number of curves up to which a parameter cannot miss the join it is
/// meant for by half a curve.
pub open spec fn joint_limit() -> nat {
    0x4_0000_0000_0000
}

/// How far the parameter of a join may miss it, in curves: rounding the
/// parameter, and scaling it.
pub open spec fn landing_error(n: nat, t: Float) -> real {
    (n as real) * slack(t) + slack(t.times(whole(n)))
}

/// The parameter on a curve to which `k / n`, rounded, leads: exactly zero, or
/// one where it falls on the curve before.
pub open spec fn landed(n: nat, k: nat) -> Bounded {
    let t = Float::ratio(k, n);
    let (i, u) = scaled(n, t);
    Bounded {
        rounded: u,
        exact: (k - i) as real,
        error: landing_error(n, t),
        finite: true,
    }
}

/// A fraction that is not above one is rounded to no more than one.
proof fn lemma_fraction_in_range(k: nat, n: nat)
    requires
        k <= n,
        0 < n,
    ensures
        whole::<Float>(0).le(Float::ratio(k, n)),
        Float::ratio(k, n).le(whole(1)),
        Float::ratio(k, n).magnitude() < INFINITE,
        k == n ==> Float::ratio(k, n) == whole::<Float>(1),
{
    let one: nat = pow2(1074);
    lemma_pow2_pos(1074);
    lemma_whole(0);
    lemma_whole(1);
    reveal(closest);
    assert(0 * one == 0 && 1 * one == one);
    assert(k * one <= n * one) by (nonlinear_arith)
        requires
            k <= n,
    ;
    law_rounding_keeps_order(k * one, n * one, n);
    lemma_round_expand(one, 1, n);
    assert(one * n == n * one) by (nonlinear_arith);
    assert(1 * n == n);
    let (a, b) = (Float::ratio(k, n).magnitude(), whole::<Float>(1).magnitude());
    assert(a <= b);
    if a < b {
        lemma_units_increase(a, b);
    }
}

/// Where the parameter of a join leads: to the beginning of the curve behind
/// it, or the end of the curve before, missing it by less than half a curve.
proof fn lemma_landed(n: usize, k: nat)
    requires
        0 < n <= joint_limit(),
        k <= n,
    ensures
        ({
            let b = landed(n as nat, k);
            let i = scaled(n as nat, Float::ratio(k, n as nat)).0;
            &&& b.sound()
            &&& b.error < 1real / 2real
            &&& i == k || i == k - 1
            &&& k == n ==> i == n
        }),
{
    let m: nat = n as nat;
    let t = Float::ratio(k, m);
    let v = t.times(whole(m));
    let (i, u) = scaled(m, t);
    let w = m as real;
    lemma_fraction_in_range(k, m);
    law_parameter_is_split(n, t);
    lemma_split_end(n, t);
    lemma_whole(0);
    lemma_whole(1);
    lemma_whole(m);
    lemma_unity();
    let s = unity();
    let one: nat = pow2(1074);
    lemma_pow2_pos(1074);
    assert(0 * one == 0 && 1 * one == one);
    // The scaled parameter is the index and the rest.
    assert(v.magnitude() < INFINITE) by {
        lemma_scaled(n, t);
    }
    lemma_number(v);
    lemma_number(u);
    lemma_number(t);
    assert(number(v) == i as real + number(u)) by {
        distribute(s, i as real, number(u));
        assert(s * (i as real) == (i * one) as real) by (nonlinear_arith)
            requires
                s == one as real,
        ;
        lemma_cancel(s, number(v), i as real + number(u));
    }
    assert(0real <= number(u) && number(u) < 1real) by {
        assert(number(u) >= 0real && number(u) < 1real) by (nonlinear_arith)
            requires
                s > 0real,
                s * number(u) >= 0real,
                s * number(u) < s,
        ;
    }
    // How far both roundings miss.
    let f = real::ratio(k, m);
    lemma_ratio_error(k, m);
    assert(number(whole::<Float>(m)) == w) by {
        lemma_number(whole(m));
        assert(s * w == (m * one) as real) by (nonlinear_arith)
            requires
                s == one as real,
                w == m as real,
        ;
        lemma_cancel(s, number(whole::<Float>(m)), w);
    }
    lemma_product_error(t, whole(m));
    let x = number(t) - f;
    lemma_extent_times(w, x, slack(t));
    distribute(w, number(t), f);
    lemma_quotient(k as real, w);
    swap(number(t), w);
    let e = landing_error(m, t);
    assert(extent(number(v) - k as real) <= e);
    lemma_slack(t);
    lemma_slack(v);
    assert(e >= 0real) by (nonlinear_arith)
        requires
            e == w * slack(t) + slack(v),
            w >= 0real,
            slack(t) >= 0real,
            slack(v) >= 0real,
    ;
    // The bound, in units.
    assert(v.value() <= n * one) by (nonlinear_arith)
        requires
            v.value() == i * one + u.value(),
            i <= n,
            u.value() < one,
            i == n ==> u.value() == 0,
    ;
    assert(i * one >= 0) by (nonlinear_arith);
    lemma_landing_error(n, t, v);
    assert(i == k || i == k - 1);
}

/// The bound on missing a join.
proof fn lemma_landing_error(n: usize, t: Float, v: Float)
    requires
        0 < n <= joint_limit(),
        0 <= t.value() <= pow2(1074),
        0 <= v.value() <= n * pow2(1074),
    ensures
        (n as nat as real) * slack(t) + slack(v) < 1real / 2real,
{
    let one: nat = pow2(1074);
    let s = unity();
    let q = 9007199254740992real * s;
    let w = n as nat as real;
    lemma_unity();
    lemma_slack(t);
    lemma_slack(v);
    lemma2_to64_rest();
    lemma_pow2_strictly_increases(64, 1074);
    let (a, b) = (slack(t), slack(v));
    let (x, y): (int, int) = (t.value() + HIDDEN, v.value() + HIDDEN);
    let e = w * a + b;
    assert(q * e == w * (q * a) + q * b) by {
        distribute(q, w * a, b);
        advance(q, w, a);
    }
    let z: int = n * x + y;
    assert(q * e == z as real) by {
        assert(w * (x as real) == (n * x) as real) by (nonlinear_arith)
            requires
                w == n as nat as real,
        ;
    }
    // In whole numbers: at most twice the number of curves, and some units.
    assert(n * x <= n * one + n * HIDDEN) by (nonlinear_arith)
        requires
            x <= one + HIDDEN,
    ;
    assert(n * one <= 0x4_0000_0000_0000 * one) by (nonlinear_arith)
        requires
            n <= 0x4_0000_0000_0000,
    ;
    assert(n * HIDDEN <= 0x4_0000_0000_0000 * HIDDEN) by (nonlinear_arith)
        requires
            n <= 0x4_0000_0000_0000,
    ;
    assert(2 * z < 0x20_0000_0000_0000 * one);
    assert(q == (0x20_0000_0000_0000 * one) as real);
    assert(2real * (q * e) < q);
    assert(e < 1real / 2real) by (nonlinear_arith)
        requires
            q > 0real,
            2real * (q * e) < q,
    ;
}

/// The moment integrals of one curve of a path, over bounded numbers.
pub open spec fn bounded_segment(curves: Seq<CubicBez>, k: nat) -> (Bounded, Bounded, Bounded) {
    let n = curves.len();
    let i0 = scaled(n, Float::ratio(k, n)).0 as int;
    let i1 = scaled(n, Float::ratio(k + 1, n)).0 as int;
    let (t0, t1) = (landed(n, k), landed(n, k + 1));
    stretch_moments_from(
        prepared(given_curves(curves)),
        i0,
        t0,
        i1,
        t1,
        cubic_point(given_curve(curves[i0]), t0),
        if i1 == n {
            cubic_point(given_curve(curves[n - 1]), given(whole(1)))
        } else {
            cubic_point(given_curve(curves[i1]), t1)
        },
    )
}

/// The stretch between two joins, relative to the origin of the path.
proof fn lemma_segment_stretch(curves: Seq<CubicBez>, k: nat)
    requires
        k < curves.len() <= joint_limit(),
        curves.len() <= usize::MAX,
    ensures
        ({
            let n = curves.len();
            let ((i0, u0), (i1, u1)) = (
                scaled(n, Float::ratio(k, n)),
                scaled(n, Float::ratio(k + 1, n)),
            );
            let (b0, b1) = (landed(n, k), landed(n, k + 1));
            bounds(
                stretch_moments(prepared(given_curves(curves)), i0 as int, b0, i1 as int, b1),
                stretch_moments(prepared(curves), i0 as int, u0, i1 as int, u1),
                stretch_moments(
                    prepared(exact_curves(curves)),
                    i0 as int,
                    b0.exact,
                    i1 as int,
                    b1.exact,
                ),
            )
        }),
{
    let n = curves.len();
    let m: usize = n as usize;
    let (r, t) = (Float::ratio(k, n), Float::ratio(k + 1, n));
    let (b0, b1) = (landed(n, k), landed(n, k + 1));
    let ((i0, u0), (i1, u1)) = (scaled(n, r), scaled(n, t));
    lemma_landed(m, k);
    lemma_landed(m, k + 1);
    lemma_fraction_in_range(k, n);
    lemma_fraction_in_range(k + 1, n);
    law_parameter_is_split(m, r);
    lemma_split_end(m, r);
    lemma_split_end(m, t);
    lemma_zero_and_one();
    lemma_same_number(u1, u0);
    lemma_same_number(u1, whole(0));
    lemma_whole(0);
    assert(0 * pow2(1074) == 0);
    // Where both ends fall on one curve, they are nearly a curve apart.
    assert(i0 == i1 ==> b0.exact == 0real && b1.exact == 1real);
    assert(i0 == i1 ==> number(u0) != number(u1));
    assert(number(u1) == 0real ==> b1.exact == 0real);
    lemma_stretch_bounded(curves, i0 as int, b0, i1 as int, b1);
}

/// The curve and the parameter at which the stretch ends.
spec fn landing_end(curves: Seq<CubicBez>, k: nat) -> (int, Bounded) {
    let n = curves.len();
    let i = scaled(n, Float::ratio(k + 1, n)).0 as int;
    if i == n {
        (n - 1, given(whole(1)))
    } else {
        (i, landed(n, k + 1))
    }
}

/// The points at both ends are the ends of the curve.
proof fn lemma_segment_points(curves: Seq<CubicBez>, k: nat)
    requires
        k < curves.len() <= joint_limit(),
        curves.len() <= usize::MAX,
        forall|i: int| 0 <= i < curves.len() - 1 ==> #[trigger] joined_at(curves, i),
    ensures
        ({
            let n = curves.len();
            let (r, t) = (Float::ratio(k, n), Float::ratio(k + 1, n));
            let c = exact_curve(curves[k as int]);
            let (j, w) = landing_end(curves, k);
            let p0 = cubic_point(given_curve(curves[scaled(n, r).0 as int]), landed(n, k));
            let p1 = cubic_point(given_curve(curves[j]), w);
            &&& p0.x.sound() && p0.y.sound() && p1.x.sound() && p1.y.sound()
            &&& rounded_point(p0) == path_point(prepared(curves), r)
            &&& rounded_point(p1) == path_point(prepared(curves), t)
            &&& unrounded_point(p0) == c.p0
            &&& unrounded_point(p1) == c.p3
        }),
{
    let n = curves.len();
    let m: usize = n as usize;
    let e = exact_curves(curves);
    let c = e[k as int];
    let i0 = scaled(n, Float::ratio(k, n)).0 as int;
    let i1 = scaled(n, Float::ratio(k + 1, n)).0 as int;
    let b0 = landed(n, k);
    let (j, w) = landing_end(curves, k);
    lemma_landed(m, k);
    lemma_landed(m, k + 1);
    lemma_zero_and_one();
    assert(w.sound());
    lemma_given(curves[i0]);
    lemma_given(curves[j]);
    lemma_point_bounded(given_curve(curves[i0]), b0);
    lemma_point_bounded(given_curve(curves[j]), w);
    law_curve_meets_its_ends(e[i0]);
    law_curve_meets_its_ends(e[j]);
    if i0 + 1 == k {
        assert(joined_at(curves, i0));
    }
    if i1 == k + 1 && i1 < n {
        assert(joined_at(curves, k as int));
    }
}

proof fn lemma_bounded_segment(curves: Seq<CubicBez>, k: nat)
    requires
        k < curves.len() <= joint_limit(),
        curves.len() <= usize::MAX,
        forall|i: int| 0 <= i < curves.len() - 1 ==> #[trigger] joined_at(curves, i),
    ensures
        ({
            let n = curves.len();
            let c = exact_curve(curves[k as int]);
            bounds(
                bounded_segment(curves, k),
                range_moments(prepared(curves), Float::ratio(k, n), Float::ratio(k + 1, n)),
                moments_of(translated(c, c.p0)),
            )
        }),
{
    let n = curves.len();
    let i0 = scaled(n, Float::ratio(k, n)).0 as int;
    let i1 = scaled(n, Float::ratio(k + 1, n)).0 as int;
    let (b0, b1) = (landed(n, k), landed(n, k + 1));
    let (j, w) = landing_end(curves, k);
    lemma_landed(n as usize, k);
    lemma_landed(n as usize, k + 1);
    lemma_segment_stretch(curves, k);
    lemma_segment_points(curves, k);
    lemma_stretch_from_bounded(
        curves,
        i0,
        b0,
        i1,
        b1,
        cubic_point(given_curve(curves[i0]), b0),
        cubic_point(given_curve(curves[j]), w),
    );
    law_stretch_of_one_curve(exact_curves(curves), k as int, i0, i1);
}

/// The moment integrals over a range of exactly one curve of a path without
/// gaps are, as nearly as the bounds say, those of the path that holds this
/// curve alone: both lie near the moment integrals of the curve, and what comes
/// before and behind it has no influence.
pub proof fn law_rounded_range_of_one_curve(curves: Seq<CubicBez>, k: nat)
    requires
        k < curves.len() <= joint_limit(),
        curves.len() <= usize::MAX,
        forall|i: int| 0 <= i < curves.len() - 1 ==> #[trigger] joined_at(curves, i),
    ensures
        ({
            let n = curves.len();
            let c = curves[k as int];
            let exact = moments_of(translated(exact_curve(c), exact_curve(c).p0));
            let m = range_moments(prepared(curves), Float::ratio(k, n), Float::ratio(k + 1, n));
            let alone = range_moments(prepared(seq![c]), whole::<Float>(0), whole(1));
            &&& bounds(bounded_segment(curves, k), m, exact)
            &&& bounds(bounded_segment(seq![c], 0), alone, exact)
            &&& lie_near(m, alone, bounded_segment(curves, k), bounded_segment(seq![c], 0))
        }),
{
    let n = curves.len();
    let c = curves[k as int];
    let one = seq![c];
    lemma_bounded_segment(curves, k);
    lemma_bounded_segment(one, 0);
    lemma_fraction_in_range(1, 1);
    assert(one[0] == c);
    let exact = moments_of(translated(exact_curve(c), exact_curve(c).p0));
    lemma_lie_near(
        range_moments(prepared(curves), Float::ratio(k, n), Float::ratio(k + 1, n)),
        range_moments(prepared(one), whole::<Float>(0), whole(1)),
        bounded_segment(curves, k),
        bounded_segment(one, 0),
        exact,
    );
}

}
