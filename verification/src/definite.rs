//! Integrals over parts of a curve, where nothing is rounded.

use crate::arith::Arith;
use crate::curve::moments_sum;
use crate::geom::{cubic_part, CubicBez};
use crate::integrals::law_moments_are_integrals;
use crate::moments::moments_of;
use crate::polynomial::{
    advance, distribute, exchange, law_bezier_value, lemma_constants, lemma_slope_at, regroup,
    spread, spread2, spread3, spread4, swap, x_poly, y_poly, Poly,
};
use crate::subdivision::{law_velocity_is_derivative, lemma_part, seen_from, sped_up};
use vstd::prelude::*;

verus! {

/// `t` to the `n`.
pub open spec fn power(t: real, n: nat) -> real
    decreases n,
{
    if n == 0 {
        1real
    } else {
        t * power(t, (n - 1) as nat)
    }
}

/// The integral of `t^n` from `a` to `b`.
pub open spec fn power_integral(a: real, b: real, n: nat) -> real {
    (power(b, n + 1) - power(a, n + 1)) / ((n + 1) as real)
}

impl Poly {
    /// The integral of `t^n` times the polynomial, from `a` to `b`.
    pub open spec fn integral_over(self, a: real, b: real, n: nat) -> real {
        self.c0 * power_integral(a, b, n) + self.c1 * power_integral(a, b, n + 1) + self.c2
            * power_integral(a, b, n + 2) + self.c3 * power_integral(a, b, n + 3)
    }

    /// The integral of `t^n` times the product with `other`, from `a` to `b`.
    pub open spec fn integral_over_with(self, other: Poly, a: real, b: real, n: nat) -> real {
        other.c0 * self.integral_over(a, b, n) + other.c1 * self.integral_over(a, b, n + 1)
            + other.c2 * self.integral_over(a, b, n + 2) + other.c3 * self.integral_over(
            a,
            b,
            n + 3,
        )
    }

    /// The integral of the product with two others, from `a` to `b`.
    pub open spec fn integral_over_with_two(
        self,
        other: Poly,
        third: Poly,
        a: real,
        b: real,
    ) -> real {
        third.c0 * self.integral_over_with(other, a, b, 0) + third.c1 * self.integral_over_with(
            other,
            a,
            b,
            1,
        ) + third.c2 * self.integral_over_with(other, a, b, 2) + third.c3
            * self.integral_over_with(other, a, b, 3)
    }
}

/// The integral of `u^m (a + h u)^n` for `u` from zero to one.
spec fn mixed(a: real, h: real, n: nat, m: nat) -> real
    decreases n,
{
    if n == 0 {
        1real / ((m + 1) as real)
    } else {
        a * mixed(a, h, (n - 1) as nat, m) + h * mixed(a, h, (n - 1) as nat, m + 1)
    }
}

pub(crate) proof fn lemma_quotient(x: real, r: real)
    requires
        r != 0real,
    ensures
        r * (x / r) == x,
{
    assert(r * (x / r) == x) by (nonlinear_arith)
        requires
            r != 0real,
    ;
}

pub(crate) proof fn lemma_cancel(r: real, x: real, y: real)
    requires
        r != 0real,
        r * x == r * y,
    ensures
        x == y,
{
    assert(x == y) by (nonlinear_arith)
        requires
            r != 0real,
            r * x == r * y,
    ;
}

/// Integration by parts.
proof fn lemma_by_parts(a: real, h: real, n: nat, m: nat)
    ensures
        ((m + 1) as real) * mixed(a, h, n + 1, m) == power(a + h, n + 1) - ((n + 1) as real) * (h
            * mixed(a, h, n, m + 1)),
    decreases n,
{
    let b = a + h;
    let (r, s) = ((m + 1) as real, (m + 2) as real);
    let (w0, w1) = (mixed(a, h, n, m), mixed(a, h, n, m + 1));
    assert(mixed(a, h, n + 1, m) == a * w0 + h * w1);
    assert(r * (a * w0 + h * w1) == a * (r * w0) + h * (s * w1) - h * w1) by {
        distribute(r, a * w0, h * w1);
        advance(r, a, w0);
        advance(r, h, w1);
        spread(r, 1real, w1);
        distribute(h, r * w1, w1);
    }
    let bn = power(b, n);
    assert(power(b, n + 1) == b * bn);
    assert(b * bn == a * bn + h * bn) by {
        spread(a, h, bn);
    }
    if n == 0 {
        lemma_quotient(1real, r);
        lemma_quotient(1real, s);
        assert(r * w0 == 1real && s * w1 == 1real);
        assert(a * 1real == a && h * 1real == h);
        assert((1nat as real) * (h * w1) == h * w1);
    } else {
        let k: nat = (n - 1) as nat;
        lemma_by_parts(a, h, k, m);
        lemma_by_parts(a, h, k, m + 1);
        let q = n as real;
        let (v1, v2) = (mixed(a, h, k, m + 1), mixed(a, h, k, m + 2));
        assert(w1 == a * v1 + h * v2);
        assert(r * w0 == bn - q * (h * v1));
        assert(s * w1 == bn - q * (h * v2));
        lemma_parts_step(a, h, bn, q, v1, v2);
        assert(((n + 1) as real) * (h * w1) == q * (h * w1) + h * w1) by {
            spread(q, 1real, h * w1);
        }
    }
}

proof fn lemma_parts_step(a: real, h: real, bn: real, q: real, v1: real, v2: real)
    ensures
        a * (bn - q * (h * v1)) + h * (bn - q * (h * v2)) == a * bn + h * bn - q * (h * (a * v1 + h
            * v2)),
{
    distribute(a, bn, q * (h * v1));
    distribute(h, bn, q * (h * v2));
    distribute(h, a * v1, h * v2);
    distribute(q, h * (a * v1), h * (h * v2));
    advance(a, q, h * v1);
    advance(a, h, v1);
    advance(h, q, h * v2);
}

/// The rule of substitution, for a power.
proof fn lemma_substitution(a: real, h: real, n: nat)
    ensures
        h * mixed(a, h, n, 0) == power_integral(a, a + h, n),
    decreases n,
{
    let b = a + h;
    let w = mixed(a, h, n, 0);
    let r = (n + 1) as real;
    assert(r * (h * w) == power(b, n + 1) - power(a, n + 1)) by {
        if n == 0 {
            assert(power(b, 1) == b * power(b, 0) && power(a, 1) == a * power(a, 0));
            assert(b * 1real == b && a * 1real == a);
            assert(w == 1real / 1real);
            assert(h * 1real == h);
        } else {
            let k: nat = (n - 1) as nat;
            let q = n as real;
            lemma_substitution(a, h, k);
            lemma_by_parts(a, h, k, 0);
            let (w0, w1) = (mixed(a, h, k, 0), mixed(a, h, k, 1));
            assert(w == a * w0 + h * w1);
            let (bn, an) = (power(b, n), power(a, n));
            lemma_quotient(bn - an, q);
            assert(q * (h * w0) == bn - an);
            assert((1nat as real) * w == w);
            assert(w == bn - q * (h * w1));
            // One more time the same.
            assert(r * w == bn + q * (a * w0)) by {
                spread(q, 1real, w);
                distribute(q, a * w0, h * w1);
            }
            assert(r * (h * w) == h * bn + a * (bn - an)) by {
                advance(r, h, w);
                distribute(h, bn, q * (a * w0));
                advance(h, q, a * w0);
                advance(h, a, w0);
                advance(q, a, h * w0);
            }
            distribute(a, bn, an);
            spread(a, h, bn);
        }
    }
    let gap = power(b, n + 1) - power(a, n + 1);
    lemma_quotient(gap, r);
    lemma_cancel(r, h * w, gap / r);
}

/// A polynomial of `a + h u`, as one of `u`.
spec fn rescaled(p: Poly, a: real, h: real) -> Poly {
    sped_up(seen_from(p, a), h)
}

/// The coefficients of a rescaled polynomial, each times a number: the same as
/// those of the polynomial, each times what multiplying by `a + h u` makes of
/// the numbers.
proof fn lemma_rescaled(p: Poly, a: real, h: real, f0: real, f1: real, f2: real, f3: real)
    ensures
        ({
            let q = rescaled(p, a, h);
            let (g0, g1, g2) = (a * f0 + h * f1, a * f1 + h * f2, a * f2 + h * f3);
            let (k0, k1) = (a * g0 + h * g1, a * g1 + h * g2);
            q.c0 * f0 + q.c1 * f1 + q.c2 * f2 + q.c3 * f3 == p.c0 * f0 + p.c1 * g0 + p.c2 * k0
                + p.c3 * (a * k0 + h * k1)
        }),
{
    let (c1, c2, c3) = (p.c1, p.c2, p.c3);
    let q = rescaled(p, a, h);
    let (g0, g1, g2) = (a * f0 + h * f1, a * f1 + h * f2, a * f2 + h * f3);
    let (k0, k1) = (a * g0 + h * g1, a * g1 + h * g2);
    let (a2, h2, ah) = (a * a, h * h, a * h);
    let (a3, h3) = (a * a * a, h * h * h);
    let (a2h, ah2) = (a2 * h, a * h2);
    // The numbers, multiplied out.
    assert(k0 == a2 * f0 + 2real * (ah * f1) + h2 * f2) by {
        distribute(a, a * f0, h * f1);
        distribute(h, a * f1, h * f2);
        regroup(a, a, f0);
        regroup(a, h, f1);
        advance(h, a, f1);
        regroup(h, h, f2);
    }
    assert(k1 == a2 * f1 + 2real * (ah * f2) + h2 * f3) by {
        distribute(a, a * f1, h * f2);
        distribute(h, a * f2, h * f3);
        regroup(a, a, f1);
        regroup(a, h, f2);
        advance(h, a, f2);
        regroup(h, h, f3);
    }
    let l = a * k0 + h * k1;
    assert(l == a3 * f0 + 3real * (a2h * f1) + 3real * (ah2 * f2) + h3 * f3) by {
        swap(a, k0);
        spread3(1real, a2 * f0, 2real, ah * f1, 1real, h2 * f2, a);
        swap(h, k1);
        spread3(1real, a2 * f1, 2real, ah * f2, 1real, h2 * f3, h);
        exchange(a2, f0, a);
        exchange(ah, f1, a);
        exchange(h2, f2, a);
        exchange(a2, f1, h);
        exchange(ah, f2, h);
        exchange(h2, f3, h);
        // The powers.
        swap(a, h);
        regroup(a, h, a);
        swap(ah, a);
        regroup(a, a, h);
        swap(h2, a);
        regroup(a, h, h);
    }
    // Each coefficient of the rescaled polynomial.
    assert(q.c0 * f0 == p.c0 * f0 + c1 * (a * f0) + c2 * (a2 * f0) + c3 * (a3 * f0)) by {
        spread4(1real, p.c0, 1real, c1 * a, 1real, c2 * a2, 1real, c3 * a3, f0);
        regroup(c1, a, f0);
        regroup(c2, a2, f0);
        regroup(c3, a3, f0);
    }
    assert(q.c1 * f1 == c1 * (h * f1) + 2real * (c2 * (ah * f1)) + 3real * (c3 * (a2h * f1))) by {
        let m = p.slope().at(a);
        lemma_slope_at(p, a);
        regroup(m, h, f1);
        spread3(1real, c1, 2real, c2 * a, 3real, c3 * a2, h * f1);
        regroup(c2, a, h * f1);
        regroup(a, h, f1);
        regroup(c3, a2, h * f1);
        regroup(a2, h, f1);
    }
    assert(q.c2 * f2 == c2 * (h2 * f2) + 3real * (c3 * (ah2 * f2))) by {
        let m = c2 + 3real * (c3 * a);
        regroup(m, h2, f2);
        spread2(1real, c2, 3real, c3 * a, h2 * f2);
        regroup(c3, a, h2 * f2);
        regroup(a, h2, f2);
    }
    regroup(c3, h3, f3);
    // And those of the polynomial.
    distribute(c1, a * f0, h * f1);
    swap(c2, k0);
    spread3(1real, a2 * f0, 2real, ah * f1, 1real, h2 * f2, c2);
    swap(a2 * f0, c2);
    swap(ah * f1, c2);
    swap(h2 * f2, c2);
    swap(c3, l);
    spread4(1real, a3 * f0, 3real, a2h * f1, 3real, ah2 * f2, 1real, h3 * f3, c3);
    swap(a3 * f0, c3);
    swap(a2h * f1, c3);
    swap(ah2 * f2, c3);
    swap(h3 * f3, c3);
}

/// A polynomial over mixed integrals.
spec fn over(q: Poly, a: real, h: real, n: nat, m: nat) -> real {
    q.c0 * mixed(a, h, n, m) + q.c1 * mixed(a, h, n + 1, m) + q.c2 * mixed(a, h, n + 2, m) + q.c3
        * mixed(a, h, n + 3, m)
}

/// Two polynomials over mixed integrals.
spec fn over_two(q: Poly, p: Poly, a: real, h: real, n: nat, m: nat) -> real {
    p.c0 * over(q, a, h, n, m) + p.c1 * over(q, a, h, n + 1, m) + p.c2 * over(q, a, h, n + 2, m)
        + p.c3 * over(q, a, h, n + 3, m)
}

proof fn lemma_combined(
    p: Poly,
    a: real,
    h: real,
    f: (real, real, real, real),
    g: (real, real, real, real),
)
    ensures
        a * (p.c0 * f.0 + p.c1 * f.1 + p.c2 * f.2 + p.c3 * f.3) + h * (p.c0 * g.0 + p.c1 * g.1
            + p.c2 * g.2 + p.c3 * g.3) == p.c0 * (a * f.0 + h * g.0) + p.c1 * (a * f.1 + h * g.1)
            + p.c2 * (a * f.2 + h * g.2) + p.c3 * (a * f.3 + h * g.3),
{
    let x = p.c0 * f.0 + p.c1 * f.1 + p.c2 * f.2 + p.c3 * f.3;
    let y = p.c0 * g.0 + p.c1 * g.1 + p.c2 * g.2 + p.c3 * g.3;
    swap(a, x);
    spread4(1real, p.c0 * f.0, 1real, p.c1 * f.1, 1real, p.c2 * f.2, 1real, p.c3 * f.3, a);
    swap(h, y);
    spread4(1real, p.c0 * g.0, 1real, p.c1 * g.1, 1real, p.c2 * g.2, 1real, p.c3 * g.3, h);
    lemma_carried(p.c0, f.0, g.0, a, h);
    lemma_carried(p.c1, f.1, g.1, a, h);
    lemma_carried(p.c2, f.2, g.2, a, h);
    lemma_carried(p.c3, f.3, g.3, a, h);
}

proof fn lemma_carried(c: real, f: real, g: real, a: real, h: real)
    ensures
        (c * f) * a + (c * g) * h == c * (a * f + h * g),
{
    regroup(c, f, a);
    regroup(c, g, h);
    swap(f, a);
    swap(g, h);
    distribute(c, a * f, h * g);
}

proof fn lemma_over_step(q: Poly, a: real, h: real, n: nat, m: nat)
    ensures
        over(q, a, h, n + 1, m) == a * over(q, a, h, n, m) + h * over(q, a, h, n, m + 1),
{
    lemma_combined(
        q,
        a,
        h,
        (mixed(a, h, n, m), mixed(a, h, n + 1, m), mixed(a, h, n + 2, m), mixed(a, h, n + 3, m)),
        (
            mixed(a, h, n, m + 1),
            mixed(a, h, n + 1, m + 1),
            mixed(a, h, n + 2, m + 1),
            mixed(a, h, n + 3, m + 1),
        ),
    );
}

proof fn lemma_over_two_step(q: Poly, p: Poly, a: real, h: real, n: nat, m: nat)
    ensures
        over_two(q, p, a, h, n + 1, m) == a * over_two(q, p, a, h, n, m) + h * over_two(
            q,
            p,
            a,
            h,
            n,
            m + 1,
        ),
{
    lemma_over_step(q, a, h, n, m);
    lemma_over_step(q, a, h, n + 1, m);
    lemma_over_step(q, a, h, n + 2, m);
    lemma_over_step(q, a, h, n + 3, m);
    lemma_combined(
        p,
        a,
        h,
        (
            over(q, a, h, n, m),
            over(q, a, h, n + 1, m),
            over(q, a, h, n + 2, m),
            over(q, a, h, n + 3, m),
        ),
        (
            over(q, a, h, n, m + 1),
            over(q, a, h, n + 1, m + 1),
            over(q, a, h, n + 2, m + 1),
            over(q, a, h, n + 3, m + 1),
        ),
    );
}

proof fn lemma_integral(q: Poly, a: real, h: real, m: nat)
    ensures
        rescaled(q, a, h).integral(m) == over(q, a, h, 0, m),
{
    let r = rescaled(q, a, h);
    let (f0, f1, f2, f3) = (
        mixed(a, h, 0, m),
        mixed(a, h, 0, m + 1),
        mixed(a, h, 0, m + 2),
        mixed(a, h, 0, m + 3),
    );
    lemma_rescaled(q, a, h, f0, f1, f2, f3);
    lemma_fraction(r.c0, (m + 1) as real);
    lemma_fraction(r.c1, (m + 2) as real);
    lemma_fraction(r.c2, (m + 3) as real);
    lemma_fraction(r.c3, (m + 4) as real);
    assert(mixed(a, h, 1, m) == a * f0 + h * f1);
    assert(mixed(a, h, 1, m + 1) == a * f1 + h * f2);
    assert(mixed(a, h, 1, m + 2) == a * f2 + h * f3);
    assert(mixed(a, h, 2, m) == a * mixed(a, h, 1, m) + h * mixed(a, h, 1, m + 1));
    assert(mixed(a, h, 2, m + 1) == a * mixed(a, h, 1, m + 1) + h * mixed(a, h, 1, m + 2));
    assert(mixed(a, h, 3, m) == a * mixed(a, h, 2, m) + h * mixed(a, h, 2, m + 1));
}

proof fn lemma_fraction(x: real, r: real)
    requires
        r != 0real,
    ensures
        x / r == x * (1real / r),
{
    lemma_quotient(x, r);
    lemma_quotient(1real, r);
    let y = 1real / r;
    advance(r, x, y);
    assert(x * 1real == x);
    lemma_cancel(r, x / r, x * y);
}

proof fn lemma_integral_with(q: Poly, p: Poly, a: real, h: real, m: nat)
    ensures
        rescaled(q, a, h).integral_with(rescaled(p, a, h), m) == over_two(q, p, a, h, 0, m),
{
    lemma_integral(q, a, h, m);
    lemma_integral(q, a, h, m + 1);
    lemma_integral(q, a, h, m + 2);
    lemma_integral(q, a, h, m + 3);
    lemma_rescaled(
        p,
        a,
        h,
        over(q, a, h, 0, m),
        over(q, a, h, 0, m + 1),
        over(q, a, h, 0, m + 2),
        over(q, a, h, 0, m + 3),
    );
    lemma_over_step(q, a, h, 0, m);
    lemma_over_step(q, a, h, 0, m + 1);
    lemma_over_step(q, a, h, 0, m + 2);
    lemma_over_step(q, a, h, 1, m);
    lemma_over_step(q, a, h, 1, m + 1);
    lemma_over_step(q, a, h, 2, m);
}

/// The derivative of a rescaled polynomial.
proof fn lemma_rescaled_slope(p: Poly, a: real, h: real)
    ensures
        ({
            let (d, r) = (rescaled(p, a, h).slope(), rescaled(p.slope(), a, h));
            &&& d.c0 == h * r.c0
            &&& d.c1 == h * r.c1
            &&& d.c2 == h * r.c2
            &&& d.c3 == h * r.c3
        }),
{
    let s = p.slope();
    let (d, r) = (rescaled(p, a, h).slope(), rescaled(s, a, h));
    let (c2, c3) = (p.c2, p.c3);
    let h2 = h * h;
    swap(s.at(a), h);
    // The second derivative at `a`.
    let e = c2 + 3real * (c3 * a);
    assert(s.slope().at(a) == 2real * e) by {
        let z = s.slope();
        assert(z.c0 == 2real * c2 && z.c1 == 6real * c3 && z.c2 == 0real && z.c3 == 0real);
        regroup(6real, c3, a);
        let (a2, a3) = (a * a, a * a * a);
        assert(0real * a2 == 0real && 0real * a3 == 0real) by (nonlinear_arith);
    }
    assert(d.c1 == h * r.c1) by {
        regroup(2real, e, h);
        advance(h, 2real, e * h);
        swap(e, h2);
        regroup(h, h, e);
        swap(h, e);
    }
    assert(d.c2 == h * r.c2) by {
        let f = s.c2 + 3real * (s.c3 * a);
        assert(s.c3 == 0real);
        assert(0real * a == 0real) by (nonlinear_arith);
        assert(f == 3real * c3);
        regroup(3real, c3, h2);
        advance(h, 3real, c3 * h2);
        advance(h, c3, h2);
        swap(h, h2);
    }
    assert(r.c3 == 0real) by {
        let h3 = h * h * h;
        assert(0real * h3 == 0real) by (nonlinear_arith);
    }
    assert(h * 0real == 0real) by (nonlinear_arith);
}

proof fn lemma_scaled_sum(
    d: Poly,
    r: Poly,
    h: real,
    f0: real,
    f1: real,
    f2: real,
    f3: real,
)
    requires
        d.c0 == h * r.c0,
        d.c1 == h * r.c1,
        d.c2 == h * r.c2,
        d.c3 == h * r.c3,
    ensures
        d.c0 * f0 + d.c1 * f1 + d.c2 * f2 + d.c3 * f3 == h * (r.c0 * f0 + r.c1 * f1 + r.c2 * f2
            + r.c3 * f3),
{
    regroup(h, r.c0, f0);
    regroup(h, r.c1, f1);
    regroup(h, r.c2, f2);
    regroup(h, r.c3, f3);
    let x = r.c0 * f0 + r.c1 * f1 + r.c2 * f2 + r.c3 * f3;
    swap(h, x);
    spread4(1real, r.c0 * f0, 1real, r.c1 * f1, 1real, r.c2 * f2, 1real, r.c3 * f3, h);
    swap(r.c0 * f0, h);
    swap(r.c1 * f1, h);
    swap(r.c2 * f2, h);
    swap(r.c3 * f3, h);
}

proof fn lemma_scaled_over(q: Poly, a: real, h: real, n: nat)
    ensures
        h * over(q, a, h, n, 0) == q.integral_over(a, a + h, n),
{
    let (f0, f1, f2, f3) = (
        mixed(a, h, n, 0),
        mixed(a, h, n + 1, 0),
        mixed(a, h, n + 2, 0),
        mixed(a, h, n + 3, 0),
    );
    lemma_substitution(a, h, n);
    lemma_substitution(a, h, n + 1);
    lemma_substitution(a, h, n + 2);
    lemma_substitution(a, h, n + 3);
    lemma_carried_all(q, h, f0, f1, f2, f3);
}

proof fn lemma_carried_all(q: Poly, h: real, f0: real, f1: real, f2: real, f3: real)
    ensures
        h * (q.c0 * f0 + q.c1 * f1 + q.c2 * f2 + q.c3 * f3) == q.c0 * (h * f0) + q.c1 * (h * f1)
            + q.c2 * (h * f2) + q.c3 * (h * f3),
{
    let x = q.c0 * f0 + q.c1 * f1 + q.c2 * f2 + q.c3 * f3;
    swap(h, x);
    spread4(1real, q.c0 * f0, 1real, q.c1 * f1, 1real, q.c2 * f2, 1real, q.c3 * f3, h);
    lemma_turn_in(q.c0, f0, h);
    lemma_turn_in(q.c1, f1, h);
    lemma_turn_in(q.c2, f2, h);
    lemma_turn_in(q.c3, f3, h);
}

proof fn lemma_turn_in(x: real, y: real, z: real)
    ensures
        (x * y) * z == x * (z * y),
{
    regroup(x, y, z);
    swap(y, z);
}

proof fn lemma_scaled_over_two(q: Poly, p: Poly, a: real, h: real, n: nat)
    ensures
        h * over_two(q, p, a, h, n, 0) == q.integral_over_with(p, a, a + h, n),
{
    lemma_scaled_over(q, a, h, n);
    lemma_scaled_over(q, a, h, n + 1);
    lemma_scaled_over(q, a, h, n + 2);
    lemma_scaled_over(q, a, h, n + 3);
    lemma_carried_all(
        p,
        h,
        over(q, a, h, n, 0),
        over(q, a, h, n + 1, 0),
        over(q, a, h, n + 2, 0),
        over(q, a, h, n + 3, 0),
    );
}

/// The integral of `q` along the change of `x`, over a part.
proof fn lemma_change(q: Poly, x: Poly, a: real, h: real)
    ensures
        rescaled(q, a, h).integral_with(rescaled(x, a, h).slope(), 0) == q.integral_over_with(
            x.slope(),
            a,
            a + h,
            0,
        ),
{
    let (d, r) = (rescaled(x, a, h).slope(), rescaled(x.slope(), a, h));
    let z = rescaled(q, a, h);
    lemma_rescaled_slope(x, a, h);
    lemma_scaled_sum(d, r, h, z.integral(0), z.integral(1), z.integral(2), z.integral(3));
    lemma_integral_with(q, x.slope(), a, h, 0);
    lemma_scaled_over_two(q, x.slope(), a, h, 0);
}

/// The integral of `q` times `p` along the change of `x`, over a part.
proof fn lemma_change_of_two(q: Poly, p: Poly, x: Poly, a: real, h: real)
    ensures
        rescaled(q, a, h).integral_with_two(rescaled(p, a, h), rescaled(x, a, h).slope())
            == q.integral_over_with_two(p, x.slope(), a, a + h),
{
    let s = x.slope();
    let (d, r) = (rescaled(x, a, h).slope(), rescaled(s, a, h));
    let (z, w) = (rescaled(q, a, h), rescaled(p, a, h));
    lemma_rescaled_slope(x, a, h);
    lemma_scaled_sum(
        d,
        r,
        h,
        z.integral_with(w, 0),
        z.integral_with(w, 1),
        z.integral_with(w, 2),
        z.integral_with(w, 3),
    );
    lemma_integral_with(q, p, a, h, 0);
    lemma_integral_with(q, p, a, h, 1);
    lemma_integral_with(q, p, a, h, 2);
    lemma_integral_with(q, p, a, h, 3);
    lemma_rescaled(
        s,
        a,
        h,
        over_two(q, p, a, h, 0, 0),
        over_two(q, p, a, h, 0, 1),
        over_two(q, p, a, h, 0, 2),
        over_two(q, p, a, h, 0, 3),
    );
    lemma_over_two_step(q, p, a, h, 0, 0);
    lemma_over_two_step(q, p, a, h, 0, 1);
    lemma_over_two_step(q, p, a, h, 0, 2);
    lemma_over_two_step(q, p, a, h, 1, 0);
    lemma_over_two_step(q, p, a, h, 1, 1);
    lemma_over_two_step(q, p, a, h, 2, 0);
    lemma_carried_all(
        s,
        h,
        over_two(q, p, a, h, 0, 0),
        over_two(q, p, a, h, 1, 0),
        over_two(q, p, a, h, 2, 0),
        over_two(q, p, a, h, 3, 0),
    );
    lemma_scaled_over_two(q, p, a, h, 0);
    lemma_scaled_over_two(q, p, a, h, 1);
    lemma_scaled_over_two(q, p, a, h, 2);
    lemma_scaled_over_two(q, p, a, h, 3);
}

/// The integrals of `y dx`, `x y dx` and `y y dx` along a curve, from the
/// parameter `a` to `b`.
pub open spec fn integrals_between(c: CubicBez<real>, a: real, b: real) -> (real, real, real) {
    let (x, y) = (x_poly(c), y_poly(c));
    let dx = x.slope();
    (
        y.integral_over_with(dx, a, b, 0),
        y.integral_over_with_two(x, dx, a, b),
        y.integral_over_with_two(y, dx, a, b),
    )
}

/// The moment integrals of a part of a curve are the integrals along the curve
/// between the two parameters.
pub proof fn law_part_moments_are_integrals(c: CubicBez<real>, t0: real, t1: real)
    ensures
        moments_of(cubic_part(c, t0, t1)) == integrals_between(c, t0, t1),
{
    let part = cubic_part(c, t0, t1);
    let h = t1 - t0;
    lemma_constants();
    law_moments_are_integrals(part);
    law_velocity_is_derivative(c, t0);
    law_velocity_is_derivative(c, t1);
    law_bezier_value(c.p0.x, c.p1.x, c.p2.x, c.p3.x, t0);
    law_bezier_value(c.p0.x, c.p1.x, c.p2.x, c.p3.x, t1);
    law_bezier_value(c.p0.y, c.p1.y, c.p2.y, c.p3.y, t0);
    law_bezier_value(c.p0.y, c.p1.y, c.p2.y, c.p3.y, t1);
    lemma_part(c.p0.x, c.p1.x, c.p2.x, c.p3.x, t0, t1);
    lemma_part(c.p0.y, c.p1.y, c.p2.y, c.p3.y, t0, t1);
    assert(x_poly(part) == rescaled(x_poly(c), t0, h));
    assert(y_poly(part) == rescaled(y_poly(c), t0, h));
    assert(t0 + h == t1);
    lemma_change(y_poly(c), x_poly(c), t0, h);
    lemma_change_of_two(y_poly(c), x_poly(c), x_poly(c), t0, h);
    lemma_change_of_two(y_poly(c), y_poly(c), x_poly(c), t0, h);
}

proof fn lemma_power_adds(a: real, b: real, d: real, n: nat)
    ensures
        power_integral(a, b, n) + power_integral(b, d, n) == power_integral(a, d, n),
{
    let r = (n + 1) as real;
    let (x, y) = (power(b, n + 1) - power(a, n + 1), power(d, n + 1) - power(b, n + 1));
    lemma_fraction(x, r);
    lemma_fraction(y, r);
    lemma_fraction(x + y, r);
    spread(x, y, 1real / r);
}

proof fn lemma_adds(p: Poly, f: (real, real, real, real), g: (real, real, real, real))
    ensures
        (p.c0 * f.0 + p.c1 * f.1 + p.c2 * f.2 + p.c3 * f.3) + (p.c0 * g.0 + p.c1 * g.1 + p.c2 * g.2
            + p.c3 * g.3) == p.c0 * (f.0 + g.0) + p.c1 * (f.1 + g.1) + p.c2 * (f.2 + g.2) + p.c3
            * (f.3 + g.3),
{
    distribute(p.c0, f.0, g.0);
    distribute(p.c1, f.1, g.1);
    distribute(p.c2, f.2, g.2);
    distribute(p.c3, f.3, g.3);
}

proof fn lemma_integral_adds(p: Poly, a: real, b: real, d: real, n: nat)
    ensures
        p.integral_over(a, b, n) + p.integral_over(b, d, n) == p.integral_over(a, d, n),
{
    lemma_power_adds(a, b, d, n);
    lemma_power_adds(a, b, d, n + 1);
    lemma_power_adds(a, b, d, n + 2);
    lemma_power_adds(a, b, d, n + 3);
    lemma_adds(
        p,
        (
            power_integral(a, b, n),
            power_integral(a, b, n + 1),
            power_integral(a, b, n + 2),
            power_integral(a, b, n + 3),
        ),
        (
            power_integral(b, d, n),
            power_integral(b, d, n + 1),
            power_integral(b, d, n + 2),
            power_integral(b, d, n + 3),
        ),
    );
}

proof fn lemma_integral_with_adds(q: Poly, p: Poly, a: real, b: real, d: real, n: nat)
    ensures
        q.integral_over_with(p, a, b, n) + q.integral_over_with(p, b, d, n)
            == q.integral_over_with(p, a, d, n),
{
    lemma_integral_adds(q, a, b, d, n);
    lemma_integral_adds(q, a, b, d, n + 1);
    lemma_integral_adds(q, a, b, d, n + 2);
    lemma_integral_adds(q, a, b, d, n + 3);
    lemma_adds(
        p,
        (
            q.integral_over(a, b, n),
            q.integral_over(a, b, n + 1),
            q.integral_over(a, b, n + 2),
            q.integral_over(a, b, n + 3),
        ),
        (
            q.integral_over(b, d, n),
            q.integral_over(b, d, n + 1),
            q.integral_over(b, d, n + 2),
            q.integral_over(b, d, n + 3),
        ),
    );
}

proof fn lemma_integral_with_two_adds(q: Poly, p: Poly, s: Poly, a: real, b: real, d: real)
    ensures
        q.integral_over_with_two(p, s, a, b) + q.integral_over_with_two(p, s, b, d)
            == q.integral_over_with_two(p, s, a, d),
{
    lemma_integral_with_adds(q, p, a, b, d, 0);
    lemma_integral_with_adds(q, p, a, b, d, 1);
    lemma_integral_with_adds(q, p, a, b, d, 2);
    lemma_integral_with_adds(q, p, a, b, d, 3);
    lemma_adds(
        s,
        (
            q.integral_over_with(p, a, b, 0),
            q.integral_over_with(p, a, b, 1),
            q.integral_over_with(p, a, b, 2),
            q.integral_over_with(p, a, b, 3),
        ),
        (
            q.integral_over_with(p, b, d, 0),
            q.integral_over_with(p, b, d, 1),
            q.integral_over_with(p, b, d, 2),
            q.integral_over_with(p, b, d, 3),
        ),
    );
}

/// Cut anywhere, a part of a curve has the moment integrals of the two parts,
/// added up.
pub proof fn law_part_moments_add_up(c: CubicBez<real>, t0: real, t1: real, t2: real)
    ensures
        moments_sum(moments_of(cubic_part(c, t0, t1)), moments_of(cubic_part(c, t1, t2)))
            == moments_of(cubic_part(c, t0, t2)),
{
    let (x, y) = (x_poly(c), y_poly(c));
    let dx = x.slope();
    law_part_moments_are_integrals(c, t0, t1);
    law_part_moments_are_integrals(c, t1, t2);
    law_part_moments_are_integrals(c, t0, t2);
    lemma_integral_with_adds(y, dx, t0, t1, t2, 0);
    lemma_integral_with_two_adds(y, x, dx, t0, t1, t2);
    lemma_integral_with_two_adds(y, y, dx, t0, t1, t2);
}

}
