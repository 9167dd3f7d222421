//! The moment integrals of a cubic curve.

use crate::arith::{whole, Arith};
use crate::float::Float;
use crate::geom::{moved_back, CubicBez, Point, Vec2};
use vstd::prelude::*;

verus! {

/// Twenty times the integral of `y dx` along a cubic curve that begins at the
/// origin, `(x1, y1)` to `(x3, y3)` being its other points.
pub open spec fn area_form<A: Arith>(x1: A, y1: A, x2: A, y2: A, x3: A, y3: A) -> A {
    let r0 = whole::<A>(3).times(x1);
    let r1 = whole::<A>(3).times(y1);
    let r2 = x2.times(y3);
    let r3 = x3.times(y2);
    let r4 = x3.times(y3);
    r0.negated().times(y2)
        .minus(r0.times(y3))
        .plus(r1.times(x2))
        .plus(r1.times(x3))
        .minus(whole::<A>(6).times(r2))
        .plus(whole::<A>(6).times(r3))
        .plus(whole::<A>(10).times(r4))
}

/// The integral of `x y dx` along such a curve, times 840.
pub open spec fn x_form<A: Arith>(x1: A, y1: A, x2: A, y2: A, x3: A, y3: A) -> A {
    let r2 = x2.times(y3);
    let r3 = x3.times(y2);
    let r4 = x3.times(y3);
    let r5 = whole::<A>(27).times(y1);
    let r6 = x1.times(x2);
    let r7 = whole::<A>(27).times(y2);
    let r8 = whole::<A>(45).times(r2);
    let r9 = whole::<A>(18).times(x3);
    let r10 = x1.times(y1);
    let r11 = whole::<A>(30).times(x1);
    let r12 = whole::<A>(45).times(x3);
    let r13 = x2.times(y1);
    let r14 = whole::<A>(45).times(r3);
    let r15 = x1.times(x1);
    let r16 = whole::<A>(18).times(y3);
    let r17 = x2.times(x2);
    let r18 = whole::<A>(45).times(y3);
    let r19 = x3.times(x3);
    let r20 = whole::<A>(30).times(y1);
    r10.times(r9)
        .minus(r11.times(r4))
        .plus(r12.times(r13))
        .plus(r14.times(x2))
        .minus(r15.times(r16))
        .minus(r15.times(r7))
        .minus(r17.times(r18))
        .plus(r17.times(r5))
        .plus(r19.times(r20))
        .plus(whole::<A>(105).times(r19).times(y2))
        .plus(whole::<A>(280).times(r19).times(y3))
        .minus(whole::<A>(105).times(r2).times(x3))
        .plus(r5.times(r6))
        .minus(r6.times(r7))
        .minus(r8.times(x1))
}

/// The integral of `y y dx` along such a curve, times 420.
pub open spec fn y_form<A: Arith>(x1: A, y1: A, x2: A, y2: A, x3: A, y3: A) -> A {
    let r2 = x2.times(y3);
    let r3 = x3.times(y2);
    let r4 = x3.times(y3);
    let r7 = whole::<A>(27).times(y2);
    let r8 = whole::<A>(45).times(r2);
    let r9 = whole::<A>(18).times(x3);
    let r10 = x1.times(y1);
    let r11 = whole::<A>(30).times(x1);
    let r12 = whole::<A>(45).times(x3);
    let r13 = x2.times(y1);
    let r14 = whole::<A>(45).times(r3);
    let r16 = whole::<A>(18).times(y3);
    let r18 = whole::<A>(45).times(y3);
    let r20 = whole::<A>(30).times(y1);
    let r21 = y2.times(y2);
    let r22 = y3.times(y3);
    let r23 = y1.times(y1);
    r10.negated().times(r16)
        .minus(r10.times(r7))
        .minus(r11.times(r22))
        .plus(r12.times(r21))
        .plus(r13.times(r7))
        .plus(r14.times(y1))
        .minus(r18.times(x1).times(y2))
        .plus(r20.times(r4))
        .minus(whole::<A>(27).times(r21).times(x1))
        .minus(whole::<A>(105).times(r22).times(x2))
        .plus(whole::<A>(140).times(r22).times(x3))
        .plus(r23.times(r9))
        .plus(whole::<A>(27).times(r23).times(x2))
        .plus(whole::<A>(105).times(r3).times(y3))
        .minus(r8.times(y2))
}

/// The integrals of `y dx`, `x y dx` and `y y dx` along a cubic curve: those of
/// the curve moved to the origin, corrected for where it begins.
#[verifier::opaque]
pub open spec fn moments_of<A: Arith>(c: CubicBez<A>) -> (A, A, A) {
    let (x0, y0) = (c.p0.x, c.p0.y);
    let (x1, y1) = (c.p1.x.minus(x0), c.p1.y.minus(y0));
    let (x2, y2) = (c.p2.x.minus(x0), c.p2.y.minus(y0));
    let (x3, y3) = (c.p3.x.minus(x0), c.p3.y.minus(y0));
    let a = area_form(x1, y1, x2, y2, x3, y3);
    let x = x_form(x1, y1, x2, y2, x3, y3);
    let y = y_form(x1, y1, x2, y2, x3, y3);
    let lift = x3.times(y0);
    let area = a.times(A::ratio(1, 20)).plus(lift);
    (
        area,
        x.times(A::ratio(1, 840)).plus(x0.times(area)).plus(A::ratio(1, 2).times(x3).times(lift)),
        y.times(A::ratio(1, 420)).plus(y0.times(a).times(A::ratio(1, 10))).plus(y0.times(lift)),
    )
}

/// A cubic curve, moved so that `origin` comes to lie at the origin.
pub open spec fn translated<A: Arith>(c: CubicBez<A>, origin: Point<A>) -> CubicBez<A> {
    let v = Vec2 { x: origin.x, y: origin.y };
    CubicBez {
        p0: moved_back(c.p0, v),
        p1: moved_back(c.p1, v),
        p2: moved_back(c.p2, v),
        p3: moved_back(c.p3, v),
    }
}

/// Compute moment integrals: of `y dx`, of `x y dx` and of `y y dx` along the
/// curve.
pub fn moment_integrals(c: CubicBez) -> (r: (Float, Float, Float))
    ensures
        r == moments_of(c),
{
    let (x0, y0) = (c.p0.x, c.p0.y);
    let (x1, y1) = (c.p1.x - x0, c.p1.y - y0);
    let (x2, y2) = (c.p2.x - x0, c.p2.y - y0);
    let (x3, y3) = (c.p3.x - x0, c.p3.y - y0);

    let r0 = Float::whole(3) * x1;
    let r1 = Float::whole(3) * y1;
    let r2 = x2 * y3;
    let r3 = x3 * y2;
    let r4 = x3 * y3;
    let r5 = Float::whole(27) * y1;
    let r6 = x1 * x2;
    let r7 = Float::whole(27) * y2;
    let r8 = Float::whole(45) * r2;
    let r9 = Float::whole(18) * x3;
    let r10 = x1 * y1;
    let r11 = Float::whole(30) * x1;
    let r12 = Float::whole(45) * x3;
    let r13 = x2 * y1;
    let r14 = Float::whole(45) * r3;
    let r15 = x1 * x1;
    let r16 = Float::whole(18) * y3;
    let r17 = x2 * x2;
    let r18 = Float::whole(45) * y3;
    let r19 = x3 * x3;
    let r20 = Float::whole(30) * y1;
    let r21 = y2 * y2;
    let r22 = y3 * y3;
    let r23 = y1 * y1;
    let a = r0.flip() * y2 - r0 * y3 + r1 * x2 + r1 * x3 - Float::whole(6) * r2 + Float::whole(6)
        * r3 + Float::whole(10) * r4;
    assert(a == area_form(x1, y1, x2, y2, x3, y3));

    // Scale and add chord
    let lift = x3 * y0;
    let area = a * Float::quotient(1, 20) + lift;
    let x = r10 * r9 - r11 * r4 + r12 * r13 + r14 * x2 - r15 * r16 - r15 * r7 - r17 * r18
        + r17 * r5
        + r19 * r20
        + Float::whole(105) * r19 * y2
        + Float::whole(280) * r19 * y3
        - Float::whole(105) * r2 * x3
        + r5 * r6
        - r6 * r7
        - r8 * x1;
    assert(x == x_form(x1, y1, x2, y2, x3, y3));
    let y = r10.flip() * r16 - r10 * r7 - r11 * r22 + r12 * r21 + r13 * r7 + r14 * y1
        - r18 * x1 * y2
        + r20 * r4
        - Float::whole(27) * r21 * x1
        - Float::whole(105) * r22 * x2
        + Float::whole(140) * r22 * x3
        + r23 * r9
        + Float::whole(27) * r23 * x2
        + Float::whole(105) * r3 * y3
        - r8 * y2;
    assert(y == y_form(x1, y1, x2, y2, x3, y3));

    let mx = x * Float::quotient(1, 840) + x0 * area + Float::quotient(1, 2) * x3 * lift;
    let my = y * Float::quotient(1, 420) + y0 * a * Float::quotient(1, 10) + y0 * lift;

    proof {
        reveal(moments_of);
    }
    (area, mx, my)
}

/// Translate a cubic so that `origin` is at the origin.
pub fn translate(c: CubicBez, origin: Point) -> (r: CubicBez)
    ensures
        r == translated(c, origin),
{
    let v = origin.to_vec2();
    CubicBez::new(c.p0.minus_vec(v), c.p1.minus_vec(v), c.p2.minus_vec(v), c.p3.minus_vec(v))
}

}
