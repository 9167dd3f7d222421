//! The moment integrals, where nothing is rounded.
//!
//! A formula over the reals is expanded into products of control values, each
//! times a number; two formulas are equal where these numbers are.

use crate::arith::Arith;
use crate::geom::CubicBez;
use crate::moments::{area_form, moments_of, x_form, y_form};
use crate::polynomial::{
    exchange, lemma_constants, regroup, spread, spread2, spread3, spread4, spread5, spread6, swap,
    x_poly, y_poly, Poly,
};
use vstd::prelude::*;

verus! {

/// The terms of `x_form`, sorted.
proof fn lemma_x_form(x1: real, y1: real, x2: real, y2: real, x3: real, y3: real)
    ensures
        x_form(x1, y1, x2, y2, x3, y3) == 18real * ((x1 * x3) * y1) - 30real * ((x1 * x3) * y3)
            + 45real * ((x2 * x3) * y1) + 45real * ((x2 * x3) * y2) - 18real * ((x1 * x1) * y3)
            - 27real * ((x1 * x1) * y2) - 45real * ((x2 * x2) * y3) + 27real * ((x2 * x2) * y1)
            + 30real * ((x3 * x3) * y1) + 105real * ((x3 * x3) * y2) + 280real * ((x3 * x3) * y3)
            - 105real * ((x2 * x3) * y3) + 27real * ((x1 * x2) * y1) - 27real * ((x1 * x2) * y2)
            - 45real * ((x1 * x2) * y3),
{
    lemma_constants();
    assert((x1 * y1) * (18real * x3) == 18real * ((x1 * x3) * y1)) by (nonlinear_arith);
    assert((30real * x1) * (x3 * y3) == 30real * ((x1 * x3) * y3)) by (nonlinear_arith);
    assert((45real * x3) * (x2 * y1) == 45real * ((x2 * x3) * y1)) by (nonlinear_arith);
    assert((45real * (x3 * y2)) * x2 == 45real * ((x2 * x3) * y2)) by (nonlinear_arith);
    assert((x1 * x1) * (18real * y3) == 18real * ((x1 * x1) * y3)) by (nonlinear_arith);
    assert((x1 * x1) * (27real * y2) == 27real * ((x1 * x1) * y2)) by (nonlinear_arith);
    assert((x2 * x2) * (45real * y3) == 45real * ((x2 * x2) * y3)) by (nonlinear_arith);
    assert((x2 * x2) * (27real * y1) == 27real * ((x2 * x2) * y1)) by (nonlinear_arith);
    assert((x3 * x3) * (30real * y1) == 30real * ((x3 * x3) * y1)) by (nonlinear_arith);
    assert((105real * (x3 * x3)) * y2 == 105real * ((x3 * x3) * y2)) by (nonlinear_arith);
    assert((280real * (x3 * x3)) * y3 == 280real * ((x3 * x3) * y3)) by (nonlinear_arith);
    assert((105real * (x2 * y3)) * x3 == 105real * ((x2 * x3) * y3)) by (nonlinear_arith);
    assert((27real * y1) * (x1 * x2) == 27real * ((x1 * x2) * y1)) by (nonlinear_arith);
    assert((x1 * x2) * (27real * y2) == 27real * ((x1 * x2) * y2)) by (nonlinear_arith);
    assert((45real * (x2 * y3)) * x1 == 45real * ((x1 * x2) * y3)) by (nonlinear_arith);
}

/// The terms of `y_form`, sorted.
proof fn lemma_y_form(x1: real, y1: real, x2: real, y2: real, x3: real, y3: real)
    ensures
        y_form(x1, y1, x2, y2, x3, y3) == -18real * (x1 * (y1 * y3)) - 27real * (x1 * (y1 * y2))
            - 30real * (x1 * (y3 * y3)) + 45real * (x3 * (y2 * y2)) + 27real * (x2 * (y1 * y2))
            + 45real * (x3 * (y1 * y2)) - 45real * (x1 * (y2 * y3)) + 30real * (x3 * (y1 * y3))
            - 27real * (x1 * (y2 * y2)) - 105real * (x2 * (y3 * y3)) + 140real * (x3 * (y3 * y3))
            + 18real * (x3 * (y1 * y1)) + 27real * (x2 * (y1 * y1)) + 105real * (x3 * (y2 * y3))
            - 45real * (x2 * (y2 * y3)),
{
    lemma_constants();
    assert((0real - x1 * y1) * (18real * y3) == -18real * (x1 * (y1 * y3))) by (nonlinear_arith);
    assert((x1 * y1) * (27real * y2) == 27real * (x1 * (y1 * y2))) by (nonlinear_arith);
    assert((30real * x1) * (y3 * y3) == 30real * (x1 * (y3 * y3))) by (nonlinear_arith);
    assert((45real * x3) * (y2 * y2) == 45real * (x3 * (y2 * y2))) by (nonlinear_arith);
    assert((x2 * y1) * (27real * y2) == 27real * (x2 * (y1 * y2))) by (nonlinear_arith);
    assert((45real * (x3 * y2)) * y1 == 45real * (x3 * (y1 * y2))) by (nonlinear_arith);
    assert(((45real * y3) * x1) * y2 == 45real * (x1 * (y2 * y3))) by (nonlinear_arith);
    assert((30real * y1) * (x3 * y3) == 30real * (x3 * (y1 * y3))) by (nonlinear_arith);
    assert((27real * (y2 * y2)) * x1 == 27real * (x1 * (y2 * y2))) by (nonlinear_arith);
    assert((105real * (y3 * y3)) * x2 == 105real * (x2 * (y3 * y3))) by (nonlinear_arith);
    assert((140real * (y3 * y3)) * x3 == 140real * (x3 * (y3 * y3))) by (nonlinear_arith);
    assert((y1 * y1) * (18real * x3) == 18real * (x3 * (y1 * y1))) by (nonlinear_arith);
    assert((27real * (y1 * y1)) * x2 == 27real * (x2 * (y1 * y1))) by (nonlinear_arith);
    assert((105real * (x3 * y2)) * y3 == 105real * (x3 * (y2 * y3))) by (nonlinear_arith);
    assert((45real * (x2 * y3)) * y2 == 45real * (x2 * (y2 * y3))) by (nonlinear_arith);
}

/// The terms of `area_form`, sorted.
proof fn lemma_area_form(x1: real, y1: real, x2: real, y2: real, x3: real, y3: real)
    ensures
        area_form(x1, y1, x2, y2, x3, y3) == -3real * (x1 * y2) - 3real * (x1 * y3)
            + 3real * (x2 * y1) + 3real * (x3 * y1) - 6real * (x2 * y3) + 6real * (x3 * y2)
            + 10real * (x3 * y3),
{
    lemma_constants();
    assert((0real - 3real * x1) * y2 == -3real * (x1 * y2)) by (nonlinear_arith);
    assert((3real * x1) * y3 == 3real * (x1 * y3)) by (nonlinear_arith);
    assert((3real * y1) * x2 == 3real * (x2 * y1)) by (nonlinear_arith);
    assert((3real * y1) * x3 == 3real * (x3 * y1)) by (nonlinear_arith);
}

/// The polynomial of a curve with the first control value `v0`, and the others
/// that much above it.
spec fn rising(v0: real, v1: real, v2: real, v3: real) -> Poly {
    Poly {
        c0: v0,
        c1: 3real * v1,
        c2: 3real * v2 - 6real * v1,
        c3: v3 - 3real * v2 + 3real * v1,
    }
}

/// Its integrals with powers of the parameter.
proof fn lemma_power_integrals(v0: real, v1: real, v2: real, v3: real)
    ensures
        rising(v0, v1, v2, v3).integral(0) == v0 + (1real / 4real) * v1 + (1real / 4real) * v2
            + (1real / 4real) * v3,
        rising(v0, v1, v2, v3).integral(1) == (1real / 2real) * v0 + (1real / 10real) * v1
            + (3real / 20real) * v2 + (1real / 5real) * v3,
        rising(v0, v1, v2, v3).integral(2) == (1real / 3real) * v0 + (1real / 20real) * v1
            + (1real / 10real) * v2 + (1real / 6real) * v3,
        rising(v0, v1, v2, v3).integral(3) == (1real / 4real) * v0 + (1real / 35real) * v1
            + (1real / 14real) * v2 + (1real / 7real) * v3,
        rising(v0, v1, v2, v3).integral(4) == (1real / 5real) * v0 + (1real / 56real) * v1
            + (3real / 56real) * v2 + (1real / 8real) * v3,
        rising(v0, v1, v2, v3).integral(5) == (1real / 6real) * v0 + (1real / 84real) * v1
            + (1real / 24real) * v2 + (1real / 9real) * v3,
{
    let p = rising(v0, v1, v2, v3);
    assert(p.integral(0) == p.c0 / 1real + p.c1 / 2real + p.c2 / 3real + p.c3 / 4real);
    assert(p.integral(1) == p.c0 / 2real + p.c1 / 3real + p.c2 / 4real + p.c3 / 5real);
    assert(p.integral(2) == p.c0 / 3real + p.c1 / 4real + p.c2 / 5real + p.c3 / 6real);
    assert(p.integral(3) == p.c0 / 4real + p.c1 / 5real + p.c2 / 6real + p.c3 / 7real);
    assert(p.integral(4) == p.c0 / 5real + p.c1 / 6real + p.c2 / 7real + p.c3 / 8real);
    assert(p.integral(5) == p.c0 / 6real + p.c1 / 7real + p.c2 / 8real + p.c3 / 9real);
}

/// The integral of `y dx`.
proof fn lemma_area(x0: real, y0: real, x1: real, y1: real, x2: real, y2: real, x3: real, y3: real)
    ensures
        rising(y0, y1, y2, y3).integral_with(rising(x0, x1, x2, x3).slope(), 0) == x3 * y0
            + area_form(x1, y1, x2, y2, x3, y3) / 20real,
{
    let (p, q) = (rising(x0, x1, x2, x3), rising(y0, y1, y2, y3));
    let d = p.slope();
    lemma_area_form(x1, y1, x2, y2, x3, y3);
    lemma_power_integrals(y0, y1, y2, y3);
    let (i0, i1, i2) = (q.integral(0), q.integral(1), q.integral(2));
    assert(d.c0 == 3real * x1);
    regroup(3real, x1, i0);
    assert(d.c1 == 6real * x2 - 12real * x1);
    spread2(6real, x2, -12real, x1, i1);
    assert(d.c2 == 3real * x3 - 9real * x2 + 9real * x1);
    spread3(3real, x3, -9real, x2, 9real, x1, i2);
    swap(x1, i0);
    spread4(1real, y0, (1real / 4real), y1, (1real / 4real), y2, (1real / 4real), y3, x1);
    swap(x2, i1);
    spread4((1real / 2real), y0, (1real / 10real), y1, (3real / 20real), y2, (1real / 5real), y3,
        x2);
    swap(x1, i1);
    spread4((1real / 2real), y0, (1real / 10real), y1, (3real / 20real), y2, (1real / 5real), y3,
        x1);
    swap(x3, i2);
    spread4((1real / 3real), y0, (1real / 20real), y1, (1real / 10real), y2, (1real / 6real), y3,
        x3);
    swap(x2, i2);
    spread4((1real / 3real), y0, (1real / 20real), y1, (1real / 10real), y2, (1real / 6real), y3,
        x2);
    swap(x1, i2);
    spread4((1real / 3real), y0, (1real / 20real), y1, (1real / 10real), y2, (1real / 6real), y3,
        x1);
    swap(x1, y0);
    swap(x1, y1);
    swap(x1, y2);
    swap(x1, y3);
    swap(x2, y0);
    swap(x2, y1);
    swap(x2, y2);
    swap(x2, y3);
    swap(x3, y0);
    swap(x3, y1);
    swap(x3, y2);
    swap(x3, y3);
}

/// The products of the coefficients.
proof fn lemma_squares(v1: real, v2: real, v3: real)
    ensures
        ({
            let p = rising(0real, v1, v2, v3);
            &&& p.c1 * p.c1 == 9real * (v1 * v1)
            &&& p.c1 * p.c2 == -18real * (v1 * v1) + 9real * (v1 * v2)
            &&& p.c1 * p.c3 == 9real * (v1 * v1) - 9real * (v1 * v2) + 3real * (v1 * v3)
            &&& p.c2 * p.c2 == 36real * (v1 * v1) - 36real * (v1 * v2) + 9real * (v2 * v2)
            &&& p.c2 * p.c3 == -18real * (v1 * v1) + 27real * (v1 * v2) - 6real * (v1 * v3)
                - 9real * (v2 * v2) + 3real * (v2 * v3)
            &&& p.c3 * p.c3 == 9real * (v1 * v1) - 18real * (v1 * v2) + 6real * (v1 * v3)
                + 9real * (v2 * v2) - 6real * (v2 * v3) + (v3 * v3)
        }),
{
    let p = rising(0real, v1, v2, v3);
    swap(v1, v2);
    swap(v1, v3);
    swap(v2, v3);
    assert(p.c1 * p.c1 == 9real * (v1 * v1)) by {
        regroup(3real, v1, p.c1);
        swap(v1, p.c1);
        regroup(3real, v1, v1);
    }
    assert(p.c1 * p.c2 == -18real * (v1 * v1) + 9real * (v1 * v2)) by {
        regroup(3real, v1, p.c2);
        swap(v1, p.c2);
        spread2(3real, v2, -6real, v1, v1);
    }
    assert(p.c1 * p.c3 == 9real * (v1 * v1) - 9real * (v1 * v2) + 3real * (v1 * v3)) by {
        regroup(3real, v1, p.c3);
        swap(v1, p.c3);
        spread3(1real, v3, -3real, v2, 3real, v1, v1);
    }
    assert(p.c2 * p.c2 == 36real * (v1 * v1) - 36real * (v1 * v2) + 9real * (v2 * v2)) by {
        spread2(3real, v2, -6real, v1, p.c2);
        swap(v2, p.c2);
        spread2(3real, v2, -6real, v1, v2);
        swap(v1, p.c2);
        spread2(3real, v2, -6real, v1, v1);
    }
    assert(p.c2 * p.c3 == -18real * (v1 * v1) + 27real * (v1 * v2) - 6real * (v1 * v3)
        - 9real * (v2 * v2) + 3real * (v2 * v3)) by {
        spread2(3real, v2, -6real, v1, p.c3);
        swap(v2, p.c3);
        spread3(1real, v3, -3real, v2, 3real, v1, v2);
        swap(v1, p.c3);
        spread3(1real, v3, -3real, v2, 3real, v1, v1);
    }
    assert(p.c3 * p.c3 == 9real * (v1 * v1) - 18real * (v1 * v2) + 6real * (v1 * v3)
        + 9real * (v2 * v2) - 6real * (v2 * v3) + (v3 * v3)) by {
        spread3(1real, v3, -3real, v2, 3real, v1, p.c3);
        swap(v3, p.c3);
        spread3(1real, v3, -3real, v2, 3real, v1, v3);
        swap(v2, p.c3);
        spread3(1real, v3, -3real, v2, 3real, v1, v2);
        swap(v1, p.c3);
        spread3(1real, v3, -3real, v2, 3real, v1, v1);
    }
}

proof fn pull(k: real, u: real, v: real, w: real)
    ensures
        (u * w) * (k * v) == k * ((u * v) * w),
{
    assert((u * w) * (k * v) == k * ((u * v) * w)) by (nonlinear_arith);
}

/// The integral of `x y dx`.
proof fn lemma_x_moment(x0: real, y0: real, x1: real, y1: real, x2: real, y2: real, x3: real,
    y3: real)
    ensures
        ({
            let (p, q) = (rising(x0, x1, x2, x3), rising(y0, y1, y2, y3));
            q.integral_with_two(p, p.slope()) == x_form(x1, y1, x2, y2, x3, y3) / 840real
                + x0 * q.integral_with(p.slope(), 0) + ((x3 * x3) * y0) / 2real
        }),
{
    let (p, q) = (rising(x0, x1, x2, x3), rising(y0, y1, y2, y3));
    let d = p.slope();
    lemma_x_form(x1, y1, x2, y2, x3, y3);
    lemma_squares(x1, x2, x3);
    lemma_power_integrals(y0, y1, y2, y3);
    let (i0, i1, i2, i3, i4, i5) = (q.integral(0), q.integral(1), q.integral(2), q.integral(3),
        q.integral(4), q.integral(5));
    let (a1, a2, a3) = (p.c1, p.c2, p.c3);
    let (q11, q12, q13, q22, q23, q33) = (a1 * a1, a1 * a2, a1 * a3, a2 * a2, a2 * a3, a3 * a3);
    let whole = q.integral_with_two(p, d);
    let flat = x0 * q.integral_with(d, 0);
    // The integral over the products of the coefficients.
    assert(whole == flat + q11 * i1 + 3real * (q12 * i2) + 4real * (q13 * i3)
        + 2real * (q22 * i3) + 5real * (q23 * i4) + 3real * (q33 * i5)) by {
        swap(x0, q.integral_with(d, 0));
        spread3(1real, d.c0 * i0, 1real, d.c1 * i1, 1real, d.c2 * i2, x0);
        let s0 = q.integral_with(p, 0);
        assert(s0 == x0 * i0 + a1 * i1 + a2 * i2 + a3 * i3);
        swap(d.c0, s0);
        spread4(1real, x0 * i0, 1real, a1 * i1, 1real, a2 * i2, 1real, a3 * i3, d.c0);
        exchange(x0, i0, d.c0);
        regroup(x0, d.c0, i0);
        swap(x0, d.c0 * i0);
        pull(1real, a1, a1, i1);
        pull(1real, a2, a1, i2);
        pull(1real, a3, a1, i3);
        let s1 = q.integral_with(p, 1);
        assert(s1 == x0 * i1 + a1 * i2 + a2 * i3 + a3 * i4);
        swap(d.c1, s1);
        spread4(1real, x0 * i1, 1real, a1 * i2, 1real, a2 * i3, 1real, a3 * i4, d.c1);
        exchange(x0, i1, d.c1);
        regroup(x0, d.c1, i1);
        swap(x0, d.c1 * i1);
        pull(2real, a1, a2, i2);
        pull(2real, a2, a2, i3);
        pull(2real, a3, a2, i4);
        let s2 = q.integral_with(p, 2);
        assert(s2 == x0 * i2 + a1 * i3 + a2 * i4 + a3 * i5);
        swap(d.c2, s2);
        spread4(1real, x0 * i2, 1real, a1 * i3, 1real, a2 * i4, 1real, a3 * i5, d.c2);
        exchange(x0, i2, d.c2);
        regroup(x0, d.c2, i2);
        swap(x0, d.c2 * i2);
        pull(3real, a1, a3, i3);
        pull(3real, a2, a3, i4);
        pull(3real, a3, a3, i5);
        swap(a1, a2);
        swap(a1, a3);
        swap(a2, a3);
    }
    // Sorted by the control values of `q`.
    let r0 = (1real / 2real) * q11 + q12 + q13 + (1real / 2real) * q22 + q23
        + (1real / 2real) * q33;
    let r1 = (1real / 10real) * q11 + (3real / 20real) * q12 + (4real / 35real) * q13
        + (2real / 35real) * q22 + (5real / 56real) * q23 + (1real / 28real) * q33;
    let r2 = (3real / 20real) * q11 + (3real / 10real) * q12 + (2real / 7real) * q13
        + (1real / 7real) * q22 + (15real / 56real) * q23 + (1real / 8real) * q33;
    let r3 = (1real / 5real) * q11 + (1real / 2real) * q12 + (4real / 7real) * q13
        + (2real / 7real) * q22 + (5real / 8real) * q23 + (1real / 3real) * q33;
    assert(whole == flat + r0 * y0 + r1 * y1 + r2 * y2 + r3 * y3) by {
        swap(q11, i1);
        spread4((1real / 2real), y0, (1real / 10real), y1, (3real / 20real), y2, (1real / 5real),
            y3, q11);
        swap(y0, q11);
        swap(y1, q11);
        swap(y2, q11);
        swap(y3, q11);
        swap(q12, i2);
        spread4((1real / 3real), y0, (1real / 20real), y1, (1real / 10real), y2, (1real / 6real),
            y3, q12);
        swap(y0, q12);
        swap(y1, q12);
        swap(y2, q12);
        swap(y3, q12);
        swap(q13, i3);
        spread4((1real / 4real), y0, (1real / 35real), y1, (1real / 14real), y2, (1real / 7real),
            y3, q13);
        swap(y0, q13);
        swap(y1, q13);
        swap(y2, q13);
        swap(y3, q13);
        swap(q22, i3);
        spread4((1real / 4real), y0, (1real / 35real), y1, (1real / 14real), y2, (1real / 7real),
            y3, q22);
        swap(y0, q22);
        swap(y1, q22);
        swap(y2, q22);
        swap(y3, q22);
        swap(q23, i4);
        spread4((1real / 5real), y0, (1real / 56real), y1, (3real / 56real), y2, (1real / 8real),
            y3, q23);
        swap(y0, q23);
        swap(y1, q23);
        swap(y2, q23);
        swap(y3, q23);
        swap(q33, i5);
        spread4((1real / 6real), y0, (1real / 84real), y1, (1real / 24real), y2, (1real / 9real),
            y3, q33);
        swap(y0, q33);
        swap(y1, q33);
        swap(y2, q33);
        swap(y3, q33);
        spread6((1real / 2real), q11, 1real, q12, 1real, q13, (1real / 2real), q22, 1real, q23,
            (1real / 2real), q33, y0);
        spread6((1real / 10real), q11, (3real / 20real), q12, (4real / 35real), q13,
            (2real / 35real), q22, (5real / 56real), q23, (1real / 28real), q33, y1);
        spread6((3real / 20real), q11, (3real / 10real), q12, (2real / 7real), q13,
            (1real / 7real), q22, (15real / 56real), q23, (1real / 8real), q33, y2);
        spread6((1real / 5real), q11, (1real / 2real), q12, (4real / 7real), q13, (2real / 7real),
            q22, (5real / 8real), q23, (1real / 3real), q33, y3);
    }
    assert(r0 == (1real / 2real) * (x3 * x3));
    regroup((1real / 2real), x3 * x3, y0);
    assert(r1 == (9real / 280real) * (x1 * x2) + (3real / 140real) * (x1 * x3)
        + (9real / 280real) * (x2 * x2) + (3real / 56real) * (x2 * x3)
        + (1real / 28real) * (x3 * x3));
    spread5((9real / 280real), x1 * x2, (3real / 140real), x1 * x3, (9real / 280real), x2 * x2,
        (3real / 56real), x2 * x3, (1real / 28real), x3 * x3, y1);
    assert(r2 == -(9real / 280real) * (x1 * x1) - (9real / 280real) * (x1 * x2)
        + (3real / 56real) * (x2 * x3) + (1real / 8real) * (x3 * x3));
    spread4(-(9real / 280real), x1 * x1, -(9real / 280real), x1 * x2, (3real / 56real), x2 * x3,
        (1real / 8real), x3 * x3, y2);
    assert(r3 == -(3real / 140real) * (x1 * x1) - (3real / 56real) * (x1 * x2)
        - (1real / 28real) * (x1 * x3) - (3real / 56real) * (x2 * x2)
        - (1real / 8real) * (x2 * x3) + (1real / 3real) * (x3 * x3));
    spread6(-(3real / 140real), x1 * x1, -(3real / 56real), x1 * x2, -(1real / 28real), x1 * x3,
        -(3real / 56real), x2 * x2, -(1real / 8real), x2 * x3, (1real / 3real), x3 * x3, y3);
}

/// The integrals of the square, with powers of the parameter.
proof fn lemma_square_integrals(y0: real, y1: real, y2: real, y3: real)
    ensures
        ({
            let q = rising(y0, y1, y2, y3);
            &&& q.integral_with(q, 0) == (y0 * y0) + (1real / 2real) * (y0 * y1)
                + (1real / 2real) * (y0 * y2) + (1real / 2real) * (y0 * y3)
                + (3real / 35real) * (y1 * y1) + (9real / 70real) * (y1 * y2)
                + (2real / 35real) * (y1 * y3) + (3real / 35real) * (y2 * y2)
                + (1real / 7real) * (y2 * y3) + (1real / 7real) * (y3 * y3)
            &&& q.integral_with(q, 1) == (1real / 2real) * (y0 * y0)
                + (1real / 5real) * (y0 * y1) + (3real / 10real) * (y0 * y2)
                + (2real / 5real) * (y0 * y3) + (9real / 280real) * (y1 * y1)
                + (9real / 140real) * (y1 * y2) + (1real / 28real) * (y1 * y3)
                + (3real / 56real) * (y2 * y2) + (3real / 28real) * (y2 * y3)
                + (1real / 8real) * (y3 * y3)
            &&& q.integral_with(q, 2) == (1real / 3real) * (y0 * y0)
                + (1real / 10real) * (y0 * y1) + (1real / 5real) * (y0 * y2)
                + (1real / 3real) * (y0 * y3) + (1real / 70real) * (y1 * y1)
                + (1real / 28real) * (y1 * y2) + (1real / 42real) * (y1 * y3)
                + (1real / 28real) * (y2 * y2) + (1real / 12real) * (y2 * y3)
                + (1real / 9real) * (y3 * y3)
        }),
{
    let q = rising(y0, y1, y2, y3);
    lemma_squares(y1, y2, y3);
    lemma_power_integrals(y0, y1, y2, y3);
    let (i0, i1, i2, i3, i4, i5) = (q.integral(0), q.integral(1), q.integral(2), q.integral(3),
        q.integral(4), q.integral(5));
    let (b1, b2, b3) = (q.c1, q.c2, q.c3);
    swap(b1, b2);
    swap(b1, b3);
    swap(b2, b3);
    swap(y0, y1);
    swap(y0, y2);
    swap(y0, y3);
    regroup(3real, y1, y0);
    swap(y0, b1);
    spread2(3real, y2, -6real, y1, y0);
    swap(y0, b2);
    spread3(1real, y3, -3real, y2, 3real, y1, y0);
    swap(y0, b3);
    assert(q.integral_with(q, 0) == (y0 * y0) + (1real / 2real) * (y0 * y1)
        + (1real / 2real) * (y0 * y2) + (1real / 2real) * (y0 * y3)
        + (3real / 35real) * (y1 * y1) + (9real / 70real) * (y1 * y2)
        + (2real / 35real) * (y1 * y3) + (3real / 35real) * (y2 * y2)
        + (1real / 7real) * (y2 * y3) + (1real / 7real) * (y3 * y3)) by {
        swap(y0, i0);
        spread4(1real, y0, (1real / 4real), y1, (1real / 4real), y2, (1real / 4real), y3, y0);
        swap(b1, i1);
        spread4((1real / 2real), y0, (1real / 3real), b1, (1real / 4real), b2, (1real / 5real), b3,
            b1);
        swap(b2, i2);
        spread4((1real / 3real), y0, (1real / 4real), b1, (1real / 5real), b2, (1real / 6real), b3,
            b2);
        swap(b3, i3);
        spread4((1real / 4real), y0, (1real / 5real), b1, (1real / 6real), b2, (1real / 7real), b3,
            b3);
    }
    assert(q.integral_with(q, 1) == (1real / 2real) * (y0 * y0) + (1real / 5real) * (y0 * y1)
        + (3real / 10real) * (y0 * y2) + (2real / 5real) * (y0 * y3)
        + (9real / 280real) * (y1 * y1) + (9real / 140real) * (y1 * y2)
        + (1real / 28real) * (y1 * y3) + (3real / 56real) * (y2 * y2)
        + (3real / 28real) * (y2 * y3) + (1real / 8real) * (y3 * y3)) by {
        swap(y0, i1);
        spread4((1real / 2real), y0, (1real / 10real), y1, (3real / 20real), y2, (1real / 5real),
            y3, y0);
        swap(b1, i2);
        spread4((1real / 3real), y0, (1real / 4real), b1, (1real / 5real), b2, (1real / 6real), b3,
            b1);
        swap(b2, i3);
        spread4((1real / 4real), y0, (1real / 5real), b1, (1real / 6real), b2, (1real / 7real), b3,
            b2);
        swap(b3, i4);
        spread4((1real / 5real), y0, (1real / 6real), b1, (1real / 7real), b2, (1real / 8real), b3,
            b3);
    }
    assert(q.integral_with(q, 2) == (1real / 3real) * (y0 * y0) + (1real / 10real) * (y0 * y1)
        + (1real / 5real) * (y0 * y2) + (1real / 3real) * (y0 * y3)
        + (1real / 70real) * (y1 * y1) + (1real / 28real) * (y1 * y2)
        + (1real / 42real) * (y1 * y3) + (1real / 28real) * (y2 * y2)
        + (1real / 12real) * (y2 * y3) + (1real / 9real) * (y3 * y3)) by {
        swap(y0, i2);
        spread4((1real / 3real), y0, (1real / 20real), y1, (1real / 10real), y2, (1real / 6real),
            y3, y0);
        swap(b1, i3);
        spread4((1real / 4real), y0, (1real / 5real), b1, (1real / 6real), b2, (1real / 7real), b3,
            b1);
        swap(b2, i4);
        spread4((1real / 5real), y0, (1real / 6real), b1, (1real / 7real), b2, (1real / 8real), b3,
            b2);
        swap(b3, i5);
        spread4((1real / 6real), y0, (1real / 7real), b1, (1real / 8real), b2, (1real / 9real), b3,
            b3);
    }
}

/// The integral of `y y dx`.
proof fn lemma_y_moment(x0: real, y0: real, x1: real, y1: real, x2: real, y2: real, x3: real,
    y3: real)
    ensures
        ({
            let (p, q) = (rising(x0, x1, x2, x3), rising(y0, y1, y2, y3));
            q.integral_with_two(q, p.slope()) == y_form(x1, y1, x2, y2, x3, y3) / 420real
                + (y0 * area_form(x1, y1, x2, y2, x3, y3)) / 10real + y0 * (x3 * y0)
        }),
{
    let (p, q) = (rising(x0, x1, x2, x3), rising(y0, y1, y2, y3));
    let d = p.slope();
    lemma_y_form(x1, y1, x2, y2, x3, y3);
    lemma_area_form(x1, y1, x2, y2, x3, y3);
    lemma_square_integrals(y0, y1, y2, y3);
    let (g0, g1, g2) = (q.integral_with(q, 0), q.integral_with(q, 1), q.integral_with(q, 2));
    let all = q.integral_with_two(q, d);
    // Sorted by the control values of `p`.
    let r1 = 3real * g0 - 12real * g1 + 9real * g2;
    let r2 = 6real * g1 - 9real * g2;
    let r3 = 3real * g2;
    assert(all == r1 * x1 + r2 * x2 + r3 * x3) by {
        assert(d.c0 == 3real * x1);
        regroup(3real, x1, g0);
        swap(x1, g0);
        assert(d.c1 == 6real * x2 - 12real * x1);
        spread2(6real, x2, -12real, x1, g1);
        swap(x2, g1);
        swap(x1, g1);
        assert(d.c2 == 3real * x3 - 9real * x2 + 9real * x1);
        spread3(3real, x3, -9real, x2, 9real, x1, g2);
        swap(x3, g2);
        swap(x2, g2);
        swap(x1, g2);
        spread3(3real, g0, -12real, g1, 9real, g2, x1);
        spread2(6real, g1, -9real, g2, x2);
        regroup(3real, g2, x3);
    }
    assert(r1 == (-(3real / 10real) * (y0 * y2) - (3real / 10real) * (y0 * y3))
        + (-(9real / 140real) * (y1 * y2) - (3real / 70real) * (y1 * y3)
        - (9real / 140real) * (y2 * y2) - (3real / 28real) * (y2 * y3)
        - (1real / 14real) * (y3 * y3)));
    spread(-(3real / 10real) * (y0 * y2) - (3real / 10real) * (y0 * y3),
        -(9real / 140real) * (y1 * y2) - (3real / 70real) * (y1 * y3)
        - (9real / 140real) * (y2 * y2) - (3real / 28real) * (y2 * y3)
        - (1real / 14real) * (y3 * y3), x1);
    spread2(-(3real / 10real), y0 * y2, -(3real / 10real), y0 * y3, x1);
    spread5(-(9real / 140real), y1 * y2, -(3real / 70real), y1 * y3, -(9real / 140real), y2 * y2,
        -(3real / 28real), y2 * y3, -(1real / 14real), y3 * y3, x1);
    swap(y1 * y2, x1);
    swap(y1 * y3, x1);
    swap(y2 * y2, x1);
    swap(y2 * y3, x1);
    swap(y3 * y3, x1);
    assert(r2 == ((3real / 10real) * (y0 * y1) - (3real / 5real) * (y0 * y3))
        + ((9real / 140real) * (y1 * y1) + (9real / 140real) * (y1 * y2)
        - (3real / 28real) * (y2 * y3) - (1real / 4real) * (y3 * y3)));
    spread((3real / 10real) * (y0 * y1) - (3real / 5real) * (y0 * y3),
        (9real / 140real) * (y1 * y1) + (9real / 140real) * (y1 * y2)
        - (3real / 28real) * (y2 * y3) - (1real / 4real) * (y3 * y3), x2);
    spread2((3real / 10real), y0 * y1, -(3real / 5real), y0 * y3, x2);
    spread4((9real / 140real), y1 * y1, (9real / 140real), y1 * y2, -(3real / 28real), y2 * y3,
        -(1real / 4real), y3 * y3, x2);
    swap(y1 * y1, x2);
    swap(y1 * y2, x2);
    swap(y2 * y3, x2);
    swap(y3 * y3, x2);
    assert(r3 == ((y0 * y0) + (3real / 10real) * (y0 * y1) + (3real / 5real) * (y0 * y2)
        + (y0 * y3)) + ((3real / 70real) * (y1 * y1) + (3real / 28real) * (y1 * y2)
        + (1real / 14real) * (y1 * y3) + (3real / 28real) * (y2 * y2)
        + (1real / 4real) * (y2 * y3) + (1real / 3real) * (y3 * y3)));
    spread((y0 * y0) + (3real / 10real) * (y0 * y1) + (3real / 5real) * (y0 * y2) + (y0 * y3),
        (3real / 70real) * (y1 * y1) + (3real / 28real) * (y1 * y2)
        + (1real / 14real) * (y1 * y3) + (3real / 28real) * (y2 * y2)
        + (1real / 4real) * (y2 * y3) + (1real / 3real) * (y3 * y3), x3);
    spread4(1real, y0 * y0, (3real / 10real), y0 * y1, (3real / 5real), y0 * y2, 1real, y0 * y3,
        x3);
    spread6((3real / 70real), y1 * y1, (3real / 28real), y1 * y2, (1real / 14real), y1 * y3,
        (3real / 28real), y2 * y2, (1real / 4real), y2 * y3, (1real / 3real), y3 * y3, x3);
    swap(y1 * y1, x3);
    swap(y1 * y2, x3);
    swap(y1 * y3, x3);
    swap(y2 * y2, x3);
    swap(y2 * y3, x3);
    swap(y3 * y3, x3);
    // The part with `y0`.
    let a = area_form(x1, y1, x2, y2, x3, y3);
    swap(y0, a);
    let a1 = -3real * (x1 * y2) - 3real * (x1 * y3) + 3real * (x2 * y1) + 3real * (x3 * y1);
    let a2 = -6real * (x2 * y3) + 6real * (x3 * y2) + 10real * (x3 * y3);
    spread(a1, a2, y0);
    spread4(-3real, x1 * y2, -3real, x1 * y3, 3real, x2 * y1, 3real, x3 * y1, y0);
    spread3(-6real, x2 * y3, 6real, x3 * y2, 10real, x3 * y3, y0);
    assert((x1 * y2) * y0 == (y0 * y2) * x1) by (nonlinear_arith);
    assert((x1 * y3) * y0 == (y0 * y3) * x1) by (nonlinear_arith);
    assert((x2 * y1) * y0 == (y0 * y1) * x2) by (nonlinear_arith);
    assert((x3 * y1) * y0 == (y0 * y1) * x3) by (nonlinear_arith);
    assert((x2 * y3) * y0 == (y0 * y3) * x2) by (nonlinear_arith);
    assert((x3 * y2) * y0 == (y0 * y2) * x3) by (nonlinear_arith);
    assert((x3 * y3) * y0 == (y0 * y3) * x3) by (nonlinear_arith);
    assert(y0 * (x3 * y0) == (y0 * y0) * x3) by (nonlinear_arith);
}

/// The integrals of `y dx`, `x y dx` and `y y dx` along a cubic curve, from its
/// beginning to its end: `x` and `y` are the polynomials that the coordinates
/// follow, and `dx` is the derivative of the first.
pub open spec fn integrals_along(c: CubicBez<real>) -> (real, real, real) {
    let (x, y) = (x_poly(c), y_poly(c));
    let dx = x.slope();
    (y.integral_with(dx, 0), y.integral_with_two(x, dx), y.integral_with_two(y, dx))
}

/// Where nothing is rounded, the moment integrals of a curve are the integrals
/// of `y dx`, `x y dx` and `y y dx` along it.
pub proof fn law_moments_are_integrals(c: CubicBez<real>)
    ensures
        moments_of(c) == integrals_along(c),
{
    reveal(moments_of);
    let (x0, y0) = (c.p0.x, c.p0.y);
    let (x1, y1) = (c.p1.x - x0, c.p1.y - y0);
    let (x2, y2) = (c.p2.x - x0, c.p2.y - y0);
    let (x3, y3) = (c.p3.x - x0, c.p3.y - y0);
    assert(x_poly(c) == rising(x0, x1, x2, x3));
    assert(y_poly(c) == rising(y0, y1, y2, y3));
    lemma_constants();
    lemma_area(x0, y0, x1, y1, x2, y2, x3, y3);
    lemma_x_moment(x0, y0, x1, y1, x2, y2, x3, y3);
    lemma_y_moment(x0, y0, x1, y1, x2, y2, x3, y3);
    let a = area_form(x1, y1, x2, y2, x3, y3);
    let lift = x3 * y0;
    assert(((1real / 2real) * x3) * lift == ((x3 * x3) * y0) / 2real) by {
        regroup(1real / 2real, x3, lift);
        regroup(x3, x3, y0);
    }
    assert((y0 * a) * (1real / 10real) == (y0 * a) / 10real);
}

}
