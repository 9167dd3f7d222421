//! Polynomials of degree three over the reals, and their integrals.

use crate::arith::{whole, Arith};
use crate::geom::{cubic_at, quad_at, CubicBez};
use vstd::prelude::*;

verus! {

/// `c0 + c1 t + c2 t t + c3 t t t`.
pub struct Poly {
    pub c0: real,
    pub c1: real,
    pub c2: real,
    pub c3: real,
}

impl Poly {
    /// The value at `t`.
    pub open spec fn at(self, t: real) -> real {
        self.c0 + self.c1 * t + self.c2 * (t * t) + self.c3 * (t * t * t)
    }

    /// The derivative.
    pub open spec fn slope(self) -> Poly {
        Poly { c0: self.c1, c1: 2real * self.c2, c2: 3real * self.c3, c3: 0real }
    }

    /// The integral of `t^m` times the polynomial, from zero to one: term by
    /// term, `t^n` integrates to `1 / (n + 1)`.
    pub open spec fn integral(self, m: nat) -> real {
        self.c0 / ((m + 1) as real) + self.c1 / ((m + 2) as real) + self.c2 / ((m + 3) as real)
            + self.c3 / ((m + 4) as real)
    }

    /// The integral of `t^m` times the product with `other`, from zero to one.
    pub open spec fn integral_with(self, other: Poly, m: nat) -> real {
        other.c0 * self.integral(m) + other.c1 * self.integral(m + 1) + other.c2 * self.integral(
            m + 2,
        ) + other.c3 * self.integral(m + 3)
    }

    /// The integral of the product with two others, from zero to one.
    pub open spec fn integral_with_two(self, other: Poly, third: Poly) -> real {
        third.c0 * self.integral_with(other, 0) + third.c1 * self.integral_with(other, 1)
            + third.c2 * self.integral_with(other, 2) + third.c3 * self.integral_with(other, 3)
    }
}

/// The polynomial that a cubic curve with the given control values follows.
pub open spec fn bezier(a: real, b: real, c: real, d: real) -> Poly {
    Poly {
        c0: a,
        c1: 3real * (b - a),
        c2: 3real * (c - b) - 3real * (b - a),
        c3: d - a - 3real * (c - b),
    }
}

/// The polynomial of the first coordinate of a curve.
pub open spec fn x_poly(c: CubicBez<real>) -> Poly {
    bezier(c.p0.x, c.p1.x, c.p2.x, c.p3.x)
}

/// The polynomial of the second coordinate of a curve.
pub open spec fn y_poly(c: CubicBez<real>) -> Poly {
    bezier(c.p0.y, c.p1.y, c.p2.y, c.p3.y)
}

/// The polynomial that a quadratic curve with the given control values follows.
pub open spec fn quad_bezier(a: real, b: real, c: real) -> Poly {
    Poly { c0: a, c1: 2real * (b - a), c2: a - 2real * b + c, c3: 0real }
}

pub(crate) proof fn swap(x: real, y: real)
    ensures
        x * y == y * x,
{
    assert(x * y == y * x) by (nonlinear_arith);
}

pub(crate) proof fn regroup(x: real, y: real, z: real)
    ensures
        (x * y) * z == x * (y * z),
{
    assert((x * y) * z == x * (y * z)) by (nonlinear_arith);
}

pub(crate) proof fn spread(x: real, y: real, z: real)
    ensures
        (x + y) * z == x * z + y * z,
{
    assert((x + y) * z == x * z + y * z) by (nonlinear_arith);
}

/// A linear combination of two numbers, times another.
pub(crate) proof fn spread2(k1: real, x1: real, k2: real, x2: real, z: real)
    ensures
        (k1 * x1 + k2 * x2) * z == k1 * (x1 * z) + k2 * (x2 * z),
{
    spread(k1 * x1, k2 * x2, z);
    regroup(k1, x1, z);
    regroup(k2, x2, z);
}

/// A linear combination of three numbers, times another.
pub(crate) proof fn spread3(
    k1: real,
    x1: real,
    k2: real,
    x2: real,
    k3: real,
    x3: real,
    z: real,
)
    ensures
        (k1 * x1 + k2 * x2 + k3 * x3) * z == k1 * (x1 * z) + k2 * (x2 * z) + k3 * (x3 * z),
{
    spread(k1 * x1 + k2 * x2, k3 * x3, z);
    spread2(k1, x1, k2, x2, z);
    regroup(k3, x3, z);
}

/// A linear combination of four numbers, times another.
pub(crate) proof fn spread4(
    k1: real,
    x1: real,
    k2: real,
    x2: real,
    k3: real,
    x3: real,
    k4: real,
    x4: real,
    z: real,
)
    ensures
        (k1 * x1 + k2 * x2 + k3 * x3 + k4 * x4) * z == k1 * (x1 * z) + k2 * (x2 * z) + k3 * (x3 * z)
            + k4 * (x4 * z),
{
    spread(k1 * x1 + k2 * x2 + k3 * x3, k4 * x4, z);
    spread3(k1, x1, k2, x2, k3, x3, z);
    regroup(k4, x4, z);
}

/// A linear combination of five numbers, times another.
pub(crate) proof fn spread5(
    k1: real,
    x1: real,
    k2: real,
    x2: real,
    k3: real,
    x3: real,
    k4: real,
    x4: real,
    k5: real,
    x5: real,
    z: real,
)
    ensures
        (k1 * x1 + k2 * x2 + k3 * x3 + k4 * x4 + k5 * x5) * z == k1 * (x1 * z) + k2 * (x2 * z) + k3
            * (x3 * z) + k4 * (x4 * z) + k5 * (x5 * z),
{
    spread(k1 * x1 + k2 * x2 + k3 * x3 + k4 * x4, k5 * x5, z);
    spread4(k1, x1, k2, x2, k3, x3, k4, x4, z);
    regroup(k5, x5, z);
}

/// A linear combination of six numbers, times another.
pub(crate) proof fn spread6(
    k1: real,
    x1: real,
    k2: real,
    x2: real,
    k3: real,
    x3: real,
    k4: real,
    x4: real,
    k5: real,
    x5: real,
    k6: real,
    x6: real,
    z: real,
)
    ensures
        (k1 * x1 + k2 * x2 + k3 * x3 + k4 * x4 + k5 * x5 + k6 * x6) * z == k1 * (x1 * z) + k2 * (x2
            * z) + k3 * (x3 * z) + k4 * (x4 * z) + k5 * (x5 * z) + k6 * (x6 * z),
{
    spread(k1 * x1 + k2 * x2 + k3 * x3 + k4 * x4 + k5 * x5, k6 * x6, z);
    spread5(k1, x1, k2, x2, k3, x3, k4, x4, k5, x5, z);
    regroup(k6, x6, z);
}

pub(crate) proof fn exchange(x: real, y: real, z: real)
    ensures
        (x * y) * z == (x * z) * y,
{
    regroup(x, y, z);
    swap(y, z);
    regroup(x, z, y);
}

/// A number, times a sum or a difference.
pub(crate) proof fn distribute(z: real, x: real, y: real)
    ensures
        z * (x + y) == z * x + z * y,
        z * (x - y) == z * x - z * y,
{
    swap(z, x + y);
    spread(x, y, z);
    swap(z, x - y);
    spread2(1real, x, -1real, y, z);
    swap(x, z);
    swap(y, z);
}

pub(crate) proof fn advance(x: real, y: real, z: real)
    ensures
        x * (y * z) == y * (x * z),
{
    regroup(x, y, z);
    swap(x, y);
    regroup(y, x, z);
}

/// The numbers that the formulas name.
pub(crate) proof fn lemma_constants()
    ensures
        forall|n: nat| #[trigger] whole::<real>(n) == n as real,
        real::ratio(1, 2) == 1real / 2real,
        real::ratio(1, 3) == 1real / 3real,
        real::ratio(2, 3) == 2real / 3real,
        real::ratio(1, 10) == 1real / 10real,
        real::ratio(1, 20) == 1real / 20real,
        real::ratio(1, 420) == 1real / 420real,
        real::ratio(1, 840) == 1real / 840real,
{
    assert forall|n: nat| #[trigger] whole::<real>(n) == n as real by {
        let x = n as real;
        assert(1nat as real == 1real);
        assert(x / 1real == x);
    }
}

/// The value of the derivative, with the numbers in front.
pub(crate) proof fn lemma_slope_at(p: Poly, t: real)
    ensures
        p.slope().at(t) == p.c1 + 2real * (p.c2 * t) + 3real * (p.c3 * (t * t)),
{
    let (t2, t3) = (t * t, t * t * t);
    regroup(2real, p.c2, t);
    regroup(3real, p.c3, t2);
    assert(0real * t3 == 0real) by (nonlinear_arith);
}

/// A cubic curve follows its polynomial.
pub proof fn law_bezier_value(a: real, b: real, c: real, d: real, t: real)
    ensures
        cubic_at(a, b, c, d, t) == bezier(a, b, c, d).at(t),
{
    lemma_constants();
    let mt = 1real - t;
    let t2 = t * t;
    let t3 = t * t * t;
    // Powers of the complement.
    let m2 = mt * mt;
    assert(m2 == 1real - 2real * t + t2) by (nonlinear_arith)
        requires
            m2 == (1real - t) * (1real - t),
            t2 == t * t,
    ;
    let m3 = mt * mt * mt;
    assert(m3 == 1real - 3real * t + 3real * t2 - t3) by {
        spread3(1real, 1real, -2real, t, 1real, t2, mt);
        swap(t, mt);
        swap(t2, mt);
        spread2(1real, 1real, -1real, t, t);
        spread2(1real, 1real, -1real, t, t2);
        swap(t, t2);
    }
    // Each control value with its weight.
    swap(a, m3);
    spread4(1real, 1real, -3real, t, 3real, t2, -1real, t3, a);
    swap(t, a);
    swap(t2, a);
    swap(t3, a);
    assert(a * m3 == a - 3real * (a * t) + 3real * (a * t2) - a * t3);
    let inner = c * (mt * 3real) + d * t;
    assert(inner == 3real * c - 3real * (c * t) + d * t) by {
        swap(c, mt * 3real);
        spread2(3real, 1real, -3real, t, c);
        swap(t, c);
    }
    assert(inner * t == 3real * (c * t) - 3real * (c * t2) + d * t2) by {
        spread3(3real, c, -3real, c * t, 1real, d * t, t);
        regroup(c, t, t);
        regroup(d, t, t);
    }
    let outer = b * (m2 * 3real) + inner * t;
    assert(b * (m2 * 3real) == 3real * b - 6real * (b * t) + 3real * (b * t2)) by {
        swap(b, m2 * 3real);
        spread3(3real, 1real, -6real, t, 3real, t2, b);
        swap(t, b);
        swap(t2, b);
    }
    assert(outer * t == 3real * (b * t) - 6real * (b * t2) + 3real * (b * t3) + 3real * (c * t2)
        - 3real * (c * t3) + d * t3) by {
        spread3(3real, b, -6real, b * t, 3real, b * t2, t);
        spread3(3real, c * t, -3real, c * t2, 1real, d * t2, t);
        spread(3real * b + -6real * (b * t) + 3real * (b * t2), inner * t, t);
        regroup(b, t, t);
        regroup(b, t2, t);
        regroup(c, t, t);
        regroup(c, t2, t);
        regroup(d, t2, t);
    }
    // The coefficients of the polynomial.
    let p = bezier(a, b, c, d);
    spread2(3real, b, -3real, a, t);
    spread3(3real, c, -6real, b, 3real, a, t2);
    spread4(1real, d, -1real, a, -3real, c, 3real, b, t3);
}

/// A quadratic curve follows its polynomial.
pub proof fn law_quad_value(a: real, b: real, c: real, t: real)
    ensures
        quad_at(a, b, c, t) == quad_bezier(a, b, c).at(t),
{
    lemma_constants();
    let mt = 1real - t;
    let t2 = t * t;
    let m2 = mt * mt;
    assert(m2 == 1real - 2real * t + t2) by (nonlinear_arith)
        requires
            m2 == (1real - t) * (1real - t),
            t2 == t * t,
    ;
    swap(a, m2);
    spread3(1real, 1real, -2real, t, 1real, t2, a);
    swap(t, a);
    swap(t2, a);
    let inner = b * (mt * 2real) + c * t;
    assert(inner == 2real * b - 2real * (b * t) + c * t) by {
        swap(b, mt * 2real);
        spread2(2real, 1real, -2real, t, b);
        swap(t, b);
    }
    assert(inner * t == 2real * (b * t) - 2real * (b * t2) + c * t2) by {
        spread3(2real, b, -2real, b * t, 1real, c * t, t);
        regroup(b, t, t);
        regroup(c, t, t);
    }
    spread2(2real, b, -2real, a, t);
    spread3(1real, a, -2real, b, 1real, c, t2);
}

}
