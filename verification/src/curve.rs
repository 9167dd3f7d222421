//! A path prepared for curve fitting: its segments as cubic curves, with the
//! running sums of their moment integrals.

use crate::arith::{whole, Arith};
use crate::float::Float;
use crate::geom::{
    cubic_part, cubic_point, cubic_velocity, from_to, stretched, zero_point, CubicBez, Point, Vec2,
};
use crate::moments::{moment_integrals, moments_of, translate, translated};
use crate::parameter::{exact_limit, law_clamped_is_on_curve};
use crate::path::{segments, segments_of, PathEl};
use core::ops::Range;
use vstd::prelude::*;

verus! {

/// A cubic curve of a prepared path.
#[derive(Debug)]
pub struct SimplifyCubic<A = Float> {
    pub c: CubicBez<A>,
    /// The sums of the moment integrals of all curves up to and with this one.
    pub moments: (A, A, A),
}

/// A Bézier path which has been prepared for simplification.
#[derive(Debug)]
pub struct SimplifyBezPath {
    els: Vec<SimplifyCubic>,
    /// The reference point the moment integrals are computed relative to.
    origin: Point,
}

/// A point of the curve, and the tangent there.
#[derive(Clone, Copy, Debug)]
pub struct CurveFitSample {
    pub p: Point,
    pub tangent: Vec2,
}

/// What a prepared path holds.
pub struct Prepared<A> {
    pub els: Seq<SimplifyCubic<A>>,
    pub origin: Point<A>,
}

impl View for SimplifyBezPath {
    type V = Prepared<Float>;

    closed spec fn view(&self) -> Prepared<Float> {
        Prepared { els: self.els@, origin: self.origin }
    }
}

pub open spec fn no_moments<A: Arith>() -> (A, A, A) {
    (whole(0), whole(0), whole(0))
}

pub open spec fn moments_sum<A: Arith>(m: (A, A, A), n: (A, A, A)) -> (A, A, A) {
    (m.0.plus(n.0), m.1.plus(n.1), m.2.plus(n.2))
}

pub open spec fn moments_difference<A: Arith>(m: (A, A, A), n: (A, A, A)) -> (A, A, A) {
    (m.0.minus(n.0), m.1.minus(n.1), m.2.minus(n.2))
}

/// The moment integrals of the first `n` curves, relative to `origin`, summed
/// from the first on.
pub open spec fn running_moments<A: Arith>(
    curves: Seq<CubicBez<A>>,
    origin: Point<A>,
    n: nat,
) -> (A, A, A)
    decreases n,
{
    if n == 0 {
        no_moments()
    } else {
        moments_sum(
            running_moments(curves, origin, (n - 1) as nat),
            moments_of(translated(curves[n - 1], origin)),
        )
    }
}

/// Where a sequence of curves begins.
pub open spec fn curves_start<A: Arith>(curves: Seq<CubicBez<A>>) -> Point<A> {
    if curves.len() == 0 {
        zero_point()
    } else {
        curves[0].p0
    }
}

/// A sequence of curves, prepared: moments are taken relative to its start.
pub open spec fn prepared<A: Arith>(curves: Seq<CubicBez<A>>) -> Prepared<A> {
    let origin = curves_start(curves);
    Prepared {
        els: Seq::new(
            curves.len(),
            |i: int|
                SimplifyCubic {
                    c: curves[i],
                    moments: running_moments(curves, origin, (i + 1) as nat),
                },
        ),
        origin,
    }
}

/// The segments of a path as cubic curves.
pub open spec fn curves_of(path: Seq<PathEl>) -> Seq<CubicBez> {
    Seq::new(segments_of(path).len(), |i: int| segments_of(path)[i].cubic())
}

/// The curve among `n` that the parameter `t` falls on, and the parameter on
/// that curve: the range from zero to one is divided evenly among them.
pub open spec fn scaled<A: Arith>(n: nat, t: A) -> (nat, A) {
    let s = t.times(whole(n));
    (s.floored().whole_part(), s.minus(s.floored()))
}

/// The same, the end of the range belonging to the last curve.
pub open spec fn placed<A: Arith>(n: nat, t: A) -> (nat, A) {
    if scaled(n, t).0 == n {
        ((n - 1) as nat, whole(1))
    } else {
        scaled(n, t)
    }
}

/// Moment integrals of a part of one curve, relative to the path's origin.
pub open spec fn part_moments<A: Arith>(path: Prepared<A>, i: int, t0: A, t1: A) -> (A, A, A) {
    if t1.equals(t0) {
        no_moments()
    } else {
        moments_of(translated(cubic_part(path.els[i].c, t0, t1), path.origin))
    }
}

/// Moment integrals of the path from parameter `t0` of curve `i0` to `t1` of
/// curve `i1`, relative to the path's origin: the parts at both ends, and the
/// difference of two running sums for what lies between.
pub open spec fn stretch_moments<A: Arith>(path: Prepared<A>, i0: int, t0: A, i1: int, t1: A) -> (
    A,
    A,
    A,
) {
    if i0 == i1 {
        part_moments(path, i0, t0, t1)
    } else {
        let ends = moments_sum(
            part_moments(path, i0, t0, whole(1)),
            part_moments(path, i1, whole(0), t1),
        );
        if i1 > i0 + 1 {
            moments_sum(
                ends,
                moments_difference(path.els[i1 - 1].moments, path.els[i0].moments),
            )
        } else {
            ends
        }
    }
}

/// Moment integrals with the reference point shifted by `s`, for a curve that
/// begins at `s` and ends at the abscissa `u_end`.
pub open spec fn shifted_moments<A: Arith>(m: (A, A, A), s: Vec2<A>, u_end: A) -> (A, A, A) {
    let (a, x, y) = m;
    let int_dx = u_end.minus(s.x);
    let int_u_dx = A::ratio(1, 2).times(u_end.plus(s.x)).times(int_dx);
    (
        a.minus(s.y.times(int_dx)),
        x.minus(s.x.times(a)).minus(s.y.times(int_u_dx)).plus(s.x.times(s.y).times(int_dx)),
        y.minus(whole::<A>(2).times(s.y).times(a)).plus(s.y.times(s.y).times(int_dx)),
    )
}

/// Moment integrals of the path from parameter `t0` of curve `i0` to `t1` of
/// curve `i1`, relative to the point `start` at which that part begins; it ends
/// at `end`.
pub open spec fn stretch_moments_from<A: Arith>(
    path: Prepared<A>,
    i0: int,
    t0: A,
    i1: int,
    t1: A,
    start: Point<A>,
    end: Point<A>,
) -> (A, A, A) {
    shifted_moments(
        stretch_moments(path, i0, t0, i1, t1),
        from_to(path.origin, start),
        end.x.minus(path.origin.x),
    )
}

/// The point of a path at `t`.
pub open spec fn path_point<A: Arith>(path: Prepared<A>, t: A) -> Point<A> {
    let (i, u) = placed(path.els.len(), t);
    cubic_point(path.els[i as int].c, u)
}

/// The derivative, by its own parameter, of the curve on which `t` falls.
pub open spec fn path_velocity<A: Arith>(path: Prepared<A>, t: A) -> Vec2<A> {
    let (i, u) = placed(path.els.len(), t);
    cubic_velocity(path.els[i as int].c, u)
}

/// The derivative of a path by its own parameter, which runs through all curves
/// while that of each runs through one.
pub open spec fn path_derivative<A: Arith>(path: Prepared<A>, t: A) -> Vec2<A> {
    stretched(path_velocity(path, t), whole(path.els.len()))
}

/// Moment integrals of the path between two parameters, relative to the point
/// at the first of them.
pub open spec fn range_moments<A: Arith>(path: Prepared<A>, t0: A, t1: A) -> (A, A, A) {
    let (i0, u0) = scaled(path.els.len(), t0);
    let (i1, u1) = scaled(path.els.len(), t1);
    stretch_moments_from(
        path,
        i0 as int,
        u0,
        i1 as int,
        u1,
        path_point(path, t0),
        path_point(path, t1),
    )
}

/// Whether the parameter falls on one of the `n` curves, or just behind the
/// last.
pub open spec fn on_curve(n: nat, t: Float) -> bool {
    n > 0 && scaled(n, t).0 <= n
}

/// `t`, or the end of the range from zero to one beyond which it lies.
pub open spec fn clamped(t: Float) -> Float {
    if whole::<Float>(0).gt(t) {
        whole(0)
    } else if t.gt(whole(1)) {
        whole(1)
    } else {
        t
    }
}

/// Whether a part of curve `i` of `n` can be taken: the curve exists, or the
/// part is empty.
pub open spec fn has_part(n: nat, i: nat, t0: Float, t1: Float) -> bool {
    i < n || t1.same(t0)
}

/// Whether the moment integrals between two parameters are defined.
pub open spec fn has_range(n: nat, t0: Float, t1: Float) -> bool {
    let (i0, u0) = scaled(n, t0);
    let (i1, u1) = scaled(n, t1);
    &&& on_curve(n, t0)
    &&& on_curve(n, t1)
    &&& if i0 == i1 {
        has_part(n, i0, u0, u1)
    } else {
        has_part(n, i0, u0, whole(1)) && has_part(n, i1, whole(0), u1)
    }
}

impl SimplifyBezPath {
    /// Set up a new Bézier path for simplification.
    pub fn new(path: &[PathEl]) -> (r: SimplifyBezPath)
        requires
            path@.len() > 0 ==> !(path@[0] is ClosePath),
        ensures
            r@ == prepared(curves_of(path@)),
    {
        let mut origin = Point { x: Float::whole(0), y: Float::whole(0) };
        let (mut a, mut x, mut y) = (Float::whole(0), Float::whole(0), Float::whole(0));
        let mut els: Vec<SimplifyCubic> = Vec::new();
        let segs = segments(path);
        let ghost curves = curves_of(path@);
        let mut i: usize = 0;
        while i < segs.len()
            invariant
                i <= segs.len(),
                segs@ == segments_of(path@),
                curves == curves_of(path@),
                i == 0 ==> origin == zero_point::<Float>(),
                i > 0 ==> origin == curves_start(curves),
                (a, x, y) == running_moments(curves, curves_start(curves), i as nat),
                els@ == prepared(curves).els.take(i as int),
            decreases segs.len() - i,
        {
            let c = segs[i].to_cubic();
            if i == 0 {
                origin = c.p0;
            }
            let (ai, xi, yi) = moment_integrals(translate(c, origin));
            a = a + ai;
            x = x + xi;
            y = y + yi;
            els.push(SimplifyCubic { c, moments: (a, x, y) });
            proof {
                assert(c == curves[i as int]);
                assert(prepared(curves).els.take(i + 1) =~= prepared(curves).els.take(
                    i as int,
                ).push(prepared(curves).els[i as int]));
            }
            i = i + 1;
        }
        assert(els@ =~= prepared(curves).els);
        SimplifyBezPath { els, origin }
    }

    /// The number of curves.
    pub fn len(&self) -> (r: usize)
        ensures
            r == self@.els.len(),
    {
        self.els.len()
    }

    /// Resolve a `t` value to a cubic.
    ///
    /// Also return the resulting `t` value for the selected cubic.
    fn scale(&self, t: Float) -> (r: (usize, Float))
        ensures
            r.0 == scaled(self@.els.len(), t).0,
            r.1 == scaled(self@.els.len(), t).1,
    {
        let t_scale = t * Float::whole(self.els.len() as u64);
        let t_floor = t_scale.floor();
        (t_floor.to_index(), t_scale - t_floor)
    }

    /// Moment integrals of a subsegment, relative to the path's origin.
    fn segment_moments(&self, i: usize, range: Range<Float>) -> (r: (Float, Float, Float))
        requires
            has_part(self@.els.len(), i as nat, range.start, range.end),
        ensures
            r == part_moments(self@, i as int, range.start, range.end),
    {
        if range.end == range.start {
            (Float::whole(0), Float::whole(0), Float::whole(0))
        } else {
            moment_integrals(
                translate(self.els[i].c.subsegment(range.start, range.end), self.origin),
            )
        }
    }

    /// The curve and the parameter on it for a `t` in the range, its end
    /// included.
    fn place(&self, t: Float) -> (r: (usize, Float))
        requires
            on_curve(self@.els.len(), t),
        ensures
            r.0 == placed(self@.els.len(), t).0,
            r.1 == placed(self@.els.len(), t).1,
            r.0 < self@.els.len(),
    {
        let (mut i, mut t0) = self.scale(t);
        if i == self.els.len() {
            i -= 1;
            t0 = Float::whole(1);
        }
        (i, t0)
    }

    /// Whether the path can be sampled at `t`: it falls on one of the curves, or
    /// just behind the last.
    pub fn contains(&self, t: Float) -> (r: bool)
        ensures
            r == on_curve(self@.els.len(), t),
    {
        self.els.len() > 0 && self.scale(t).0 <= self.els.len()
    }

    /// Whether the path has moment integrals over the range.
    pub fn contains_range(&self, range: &Range<Float>) -> (r: bool)
        ensures
            r == has_range(self@.els.len(), range.start, range.end),
    {
        let n: usize = self.els.len();
        let (i0, t0) = self.scale(range.start);
        let (i1, t1) = self.scale(range.end);
        let parts = if i0 == i1 {
            i0 < n || t1 == t0
        } else {
            (i0 < n || Float::whole(1) == t0) && (i1 < n || t1 == Float::whole(0))
        };
        self.contains(range.start) && self.contains(range.end) && parts
    }

    /// The point at `t`.
    fn point(&self, t: Float) -> (r: Point)
        requires
            on_curve(self@.els.len(), t),
        ensures
            r == path_point(self@, t),
    {
        let (i, t0) = self.place(t);
        self.els[i].c.eval(t0)
    }

    /// Evaluate the curve, clamping the parameter to the valid range.
    pub fn eval(&self, t: Float) -> (r: Point)
        requires
            0 < self@.els.len() <= exact_limit(),
        ensures
            r == path_point(self@, clamped(t)),
    {
        let (zero, one) = (Float::whole(0), Float::whole(1));
        let inside = if zero.exceeds(t) {
            zero
        } else if t.exceeds(one) {
            one
        } else {
            t
        };
        proof {
            law_clamped_is_on_curve(self.els.len(), t);
        }
        self.point(inside)
    }

    /// The point at `t`, and the derivative of the whole path by its parameter
    /// there.
    pub fn sample_pt_deriv(&self, t: Float) -> (r: (Point, Vec2))
        requires
            on_curve(self@.els.len(), t),
        ensures
            r.0 == path_point(self@, t),
            r.1 == stretched(path_velocity(self@, t), whole(self@.els.len())),
            r.1 == path_derivative(self@, t),
    {
        let (i, t0) = self.place(t);
        let n = Float::whole(self.els.len() as u64);
        let c = self.els[i].c;
        (c.eval(t0), c.deriv().eval(t0).to_vec2().times(n))
    }

    /// The point and the tangent at `t`. At a join both sides give the same
    /// answer: which side is meant does not count.
    pub fn sample_pt_tangent(&self, t: Float, _sign: Float) -> (r: CurveFitSample)
        requires
            on_curve(self@.els.len(), t),
        ensures
            r.p == path_point(self@, t),
            r.tangent == path_velocity(self@, t),
    {
        let (i, t0) = self.place(t);
        let c = self.els[i].c;
        let p = c.eval(t0);
        let tangent = c.deriv().eval(t0).to_vec2();
        CurveFitSample { p, tangent }
    }

    /// Moment integrals of the path between two parameters, relative to the
    /// point at the start of the range.
    pub fn moment_integrals(&self, range: Range<Float>) -> (r: (Float, Float, Float))
        requires
            has_range(self@.els.len(), range.start, range.end),
        ensures
            r == range_moments(self@, range.start, range.end),
    {
        let (i0, t0) = self.scale(range.start);
        let (i1, t1) = self.scale(range.end);
        // These are relative to `self.origin`.
        let (a, x, y) = if i0 == i1 {
            self.segment_moments(i0, t0..t1)
        } else {
            let (a0, x0, y0) = self.segment_moments(i0, t0..Float::whole(1));
            let (a1, x1, y1) = self.segment_moments(i1, Float::whole(0)..t1);
            let (mut a, mut x, mut y) = (a0 + a1, x0 + x1, y0 + y1);
            if i1 > i0 && i1 - i0 > 1 {
                let (a2, x2, y2) = self.els[i0].moments;
                let (a3, x3, y3) = self.els[i1 - 1].moments;
                a = a + (a3 - a2);
                x = x + (x3 - x2);
                y = y + (y3 - y2);
            }
            (a, x, y)
        };
        // Shift the reference point from `self.origin` to the start of the
        // range. With `u = x - origin.x` and `v = y - origin.y`, and `s` the
        // start point relative to `origin`:
        //
        // ∫(v - s.y) dx           = a - s.y ∫dx
        // ∫(u - s.x)(v - s.y) dx  = x - s.x a - s.y ∫u dx + s.x s.y ∫dx
        // ∫(v - s.y)² dx          = y - 2 s.y a + s.y² ∫dx
        //
        // where `∫dx` and `∫u dx` over the range depend only on its endpoints.
        let s = self.point(range.start).minus_point(self.origin);
        let u_end = self.point(range.end).x - self.origin.x;
        let int_dx = u_end - s.x;
        let int_u_dx = Float::quotient(1, 2) * (u_end + s.x) * int_dx;
        let mx = x - s.x * a - s.y * int_u_dx + s.x * s.y * int_dx;
        let my = y - Float::whole(2) * s.y * a + s.y * s.y * int_dx;
        let area = a - s.y * int_dx;
        (area, mx, my)
    }

    /// Where the path must be broken because of a cusp: nowhere.
    pub fn break_cusp(&self, _range: Range<Float>) -> (r: Option<Float>)
        ensures
            r is None,
    {
        None
    }
}

}
