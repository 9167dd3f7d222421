//! Points, vectors and Bézier curves of the plane.
//!
//! The formulas are spec functions over any numbers; the executable functions
//! evaluate them over `Float`.

use crate::arith::{whole, Arith};
use crate::float::Float;
use vstd::prelude::*;

verus! {

/// A point of the plane.
#[derive(Clone, Copy, Debug)]
pub struct Point<A = Float> {
    pub x: A,
    pub y: A,
}

/// A vector of the plane.
#[derive(Clone, Copy, Debug)]
pub struct Vec2<A = Float> {
    pub x: A,
    pub y: A,
}

/// A quadratic Bézier curve.
#[derive(Clone, Copy, Debug)]
pub struct QuadBez<A = Float> {
    pub p0: Point<A>,
    pub p1: Point<A>,
    pub p2: Point<A>,
}

/// A cubic Bézier curve.
#[derive(Clone, Copy, Debug)]
pub struct CubicBez<A = Float> {
    pub p0: Point<A>,
    pub p1: Point<A>,
    pub p2: Point<A>,
    pub p3: Point<A>,
}

/// The point with both coordinates zero.
pub open spec fn zero_point<A: Arith>() -> Point<A> {
    Point { x: whole(0), y: whole(0) }
}

/// The vector from `q` to `p`.
pub open spec fn from_to<A: Arith>(q: Point<A>, p: Point<A>) -> Vec2<A> {
    Vec2 { x: p.x.minus(q.x), y: p.y.minus(q.y) }
}

/// `p`, moved by `v`.
pub open spec fn moved<A: Arith>(p: Point<A>, v: Vec2<A>) -> Point<A> {
    Point { x: p.x.plus(v.x), y: p.y.plus(v.y) }
}

/// `p`, moved against `v`.
pub open spec fn moved_back<A: Arith>(p: Point<A>, v: Vec2<A>) -> Point<A> {
    Point { x: p.x.minus(v.x), y: p.y.minus(v.y) }
}

/// `v`, made `s` times as long.
pub open spec fn stretched<A: Arith>(v: Vec2<A>, s: A) -> Vec2<A> {
    Vec2 { x: v.x.times(s), y: v.y.times(s) }
}

/// The cross product.
pub open spec fn cross<A: Arith>(u: Vec2<A>, v: Vec2<A>) -> A {
    u.x.times(v.y).minus(u.y.times(v.x))
}

/// The dot product.
pub open spec fn dot<A: Arith>(u: Vec2<A>, v: Vec2<A>) -> A {
    u.x.times(v.x).plus(u.y.times(v.y))
}

/// The point `t` of the way from `p` to `q`.
pub open spec fn between<A: Arith>(p: Point<A>, q: Point<A>, t: A) -> Point<A> {
    moved(p, stretched(from_to(p, q), t))
}

/// One coordinate of a quadratic curve.
pub open spec fn quad_at<A: Arith>(a: A, b: A, c: A, t: A) -> A {
    let mt = whole::<A>(1).minus(t);
    a.times(mt.times(mt)).plus(b.times(mt.times(whole(2))).plus(c.times(t)).times(t))
}

/// One coordinate of a cubic curve.
pub open spec fn cubic_at<A: Arith>(a: A, b: A, c: A, d: A, t: A) -> A {
    let mt = whole::<A>(1).minus(t);
    a.times(mt.times(mt).times(mt)).plus(
        b.times(mt.times(mt).times(whole(3))).plus(
            c.times(mt.times(whole(3))).plus(d.times(t)).times(t),
        ).times(t),
    )
}

/// The point of a quadratic curve at `t`.
pub open spec fn quad_point<A: Arith>(q: QuadBez<A>, t: A) -> Point<A> {
    Point { x: quad_at(q.p0.x, q.p1.x, q.p2.x, t), y: quad_at(q.p0.y, q.p1.y, q.p2.y, t) }
}

/// The point of a cubic curve at `t`.
pub open spec fn cubic_point<A: Arith>(c: CubicBez<A>, t: A) -> Point<A> {
    Point {
        x: cubic_at(c.p0.x, c.p1.x, c.p2.x, c.p3.x, t),
        y: cubic_at(c.p0.y, c.p1.y, c.p2.y, c.p3.y, t),
    }
}

/// Three times the step from `p` to `q`, as a point of the derivative.
pub open spec fn triple_step<A: Arith>(p: Point<A>, q: Point<A>) -> Point<A> {
    let v = stretched(from_to(p, q), whole(3));
    Point { x: v.x, y: v.y }
}

/// The derivative of a cubic curve by its parameter.
pub open spec fn cubic_derivative<A: Arith>(c: CubicBez<A>) -> QuadBez<A> {
    QuadBez {
        p0: triple_step(c.p0, c.p1),
        p1: triple_step(c.p1, c.p2),
        p2: triple_step(c.p2, c.p3),
    }
}

/// The derivative of a cubic curve at `t`.
pub open spec fn cubic_velocity<A: Arith>(c: CubicBez<A>, t: A) -> Vec2<A> {
    let p = quad_point(cubic_derivative(c), t);
    Vec2 { x: p.x, y: p.y }
}

/// The part of a cubic curve between two parameters, as a cubic curve.
pub open spec fn cubic_part<A: Arith>(c: CubicBez<A>, t0: A, t1: A) -> CubicBez<A> {
    let s = t1.minus(t0).times(A::ratio(1, 3));
    let p0 = cubic_point(c, t0);
    let p3 = cubic_point(c, t1);
    CubicBez {
        p0,
        p1: moved(p0, stretched(cubic_velocity(c, t0), s)),
        p2: moved_back(p3, stretched(cubic_velocity(c, t1), s)),
        p3,
    }
}

/// A quadratic curve as a cubic one.
pub open spec fn raised<A: Arith>(q: QuadBez<A>) -> CubicBez<A> {
    CubicBez {
        p0: q.p0,
        p1: between(q.p0, q.p1, A::ratio(2, 3)),
        p2: between(q.p2, q.p1, A::ratio(2, 3)),
        p3: q.p2,
    }
}

/// A straight line as a cubic curve that is run through evenly.
pub open spec fn straight<A: Arith>(p: Point<A>, q: Point<A>) -> CubicBez<A> {
    CubicBez { p0: p, p1: between(p, q, A::ratio(1, 3)), p2: between(q, p, A::ratio(1, 3)), p3: q }
}

impl Point {
    pub fn new(x: Float, y: Float) -> (r: Point)
        ensures
            r.x == x,
            r.y == y,
    {
        Point { x, y }
    }

    /// The vector from the origin to this point.
    pub fn to_vec2(self) -> (r: Vec2)
        ensures
            r.x == self.x,
            r.y == self.y,
    {
        Vec2 { x: self.x, y: self.y }
    }

    /// The vector from `other` to this point.
    pub fn minus_point(self, other: Point) -> (r: Vec2)
        ensures
            r == from_to(other, self),
    {
        Vec2 { x: self.x - other.x, y: self.y - other.y }
    }

    pub fn plus_vec(self, v: Vec2) -> (r: Point)
        ensures
            r == moved(self, v),
    {
        Point { x: self.x + v.x, y: self.y + v.y }
    }

    pub fn minus_vec(self, v: Vec2) -> (r: Point)
        ensures
            r == moved_back(self, v),
    {
        Point { x: self.x - v.x, y: self.y - v.y }
    }

    /// The point `t` of the way from this point to `other`.
    pub fn lerp(self, other: Point, t: Float) -> (r: Point)
        ensures
            r == between(self, other, t),
    {
        self.plus_vec(other.minus_point(self).times(t))
    }

    /// Whether the coordinates are equal as numbers.
    pub open spec fn same(self, other: Point) -> bool {
        self.x.same(other.x) && self.y.same(other.y)
    }
}

impl PartialEq for Point {
    fn eq(&self, other: &Point) -> (r: bool) {
        self.x == other.x && self.y == other.y
    }
}

impl vstd::std_specs::cmp::PartialEqSpecImpl for Point {
    open spec fn obeys_eq_spec() -> bool {
        true
    }

    open spec fn eq_spec(&self, other: &Point) -> bool {
        self.same(*other)
    }
}

impl Vec2 {
    pub fn new(x: Float, y: Float) -> (r: Vec2)
        ensures
            r.x == x,
            r.y == y,
    {
        Vec2 { x, y }
    }

    pub fn times(self, s: Float) -> (r: Vec2)
        ensures
            r == stretched(self, s),
    {
        Vec2 { x: self.x * s, y: self.y * s }
    }

    pub fn cross(self, other: Vec2) -> (r: Float)
        ensures
            r == cross(self, other),
    {
        self.x * other.y - self.y * other.x
    }

    pub fn dot(self, other: Vec2) -> (r: Float)
        ensures
            r == dot(self, other),
    {
        self.x * other.x + self.y * other.y
    }
}

fn eval_quad(a: Float, b: Float, c: Float, t: Float) -> (r: Float)
    ensures
        r == quad_at(a, b, c, t),
{
    let mt = Float::whole(1) - t;
    a * (mt * mt) + (b * (mt * Float::whole(2)) + c * t) * t
}

fn eval_cubic(a: Float, b: Float, c: Float, d: Float, t: Float) -> (r: Float)
    ensures
        r == cubic_at(a, b, c, d, t),
{
    let mt = Float::whole(1) - t;
    a * (mt * mt * mt) + (b * (mt * mt * Float::whole(3)) + (c * (mt * Float::whole(3)) + d * t) * t)
        * t
}

impl QuadBez {
    pub fn new(p0: Point, p1: Point, p2: Point) -> (r: QuadBez)
        ensures
            r == (QuadBez { p0, p1, p2 }),
    {
        QuadBez { p0, p1, p2 }
    }

    /// The point at `t`.
    pub fn eval(self, t: Float) -> (r: Point)
        ensures
            r == quad_point(self, t),
    {
        Point {
            x: eval_quad(self.p0.x, self.p1.x, self.p2.x, t),
            y: eval_quad(self.p0.y, self.p1.y, self.p2.y, t),
        }
    }

    /// The same curve as a cubic one.
    pub fn raise(self) -> (r: CubicBez)
        ensures
            r == raised(self),
    {
        let two_thirds = Float::quotient(2, 3);
        CubicBez {
            p0: self.p0,
            p1: self.p0.lerp(self.p1, two_thirds),
            p2: self.p2.lerp(self.p1, two_thirds),
            p3: self.p2,
        }
    }
}

fn derivative_point(p: Point, q: Point) -> (r: Point)
    ensures
        r == triple_step(p, q),
{
    let v = q.minus_point(p).times(Float::whole(3));
    Point { x: v.x, y: v.y }
}

impl CubicBez {
    pub fn new(p0: Point, p1: Point, p2: Point, p3: Point) -> (r: CubicBez)
        ensures
            r == (CubicBez { p0, p1, p2, p3 }),
    {
        CubicBez { p0, p1, p2, p3 }
    }

    /// The point at `t`.
    pub fn eval(self, t: Float) -> (r: Point)
        ensures
            r == cubic_point(self, t),
    {
        Point {
            x: eval_cubic(self.p0.x, self.p1.x, self.p2.x, self.p3.x, t),
            y: eval_cubic(self.p0.y, self.p1.y, self.p2.y, self.p3.y, t),
        }
    }

    /// The derivative by the parameter.
    pub fn deriv(self) -> (r: QuadBez)
        ensures
            r == cubic_derivative(self),
    {
        QuadBez {
            p0: derivative_point(self.p0, self.p1),
            p1: derivative_point(self.p1, self.p2),
            p2: derivative_point(self.p2, self.p3),
        }
    }

    /// The part between two parameters.
    pub fn subsegment(self, t0: Float, t1: Float) -> (r: CubicBez)
        ensures
            r == cubic_part(self, t0, t1),
    {
        let p0 = self.eval(t0);
        let p3 = self.eval(t1);
        let d = self.deriv();
        let scale = (t1 - t0) * Float::quotient(1, 3);
        let p1 = p0.plus_vec(d.eval(t0).to_vec2().times(scale));
        let p2 = p3.minus_vec(d.eval(t1).to_vec2().times(scale));
        CubicBez { p0, p1, p2, p3 }
    }
}

}
