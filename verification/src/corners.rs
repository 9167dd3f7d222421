//! Laws of the corners: which turns are one, whatever is rounded.

use crate::arith::{whole, Arith};
use crate::float::{closest, Float};
use crate::geom::{cross, dot, Vec2};
use crate::bounded::size;
use crate::rounding::{
    law_rounding_keeps_order, lemma_round_zero, lemma_units_increase,
    lemma_units_parts, round_bits, units, INFINITE,
};
use crate::simplify::turns;
use vstd::arithmetic::power2::{lemma_pow2_pos, pow2};
use vstd::prelude::*;

verus! {

/// Zero, as a number.
pub(crate) proof fn lemma_zero()
    ensures
        !whole::<Float>(0).nan(),
        whole::<Float>(0).value() == 0,
{
    reveal(closest);
    lemma_round_zero(1);
    lemma_units_parts(0);
    assert(0 * pow2(1074) == 0);
}

/// The larger magnitude has the larger value.
pub(crate) proof fn lemma_units_ordered(a: nat, b: nat)
    requires
        a <= b <= INFINITE,
    ensures
        units(a) <= units(b),
{
    if a < b {
        lemma_units_increase(a, b);
    }
}

/// The value of a product, by the exact one.
pub(crate) proof fn lemma_product_value(a: Float, b: Float)
    requires
        a.magnitude() < INFINITE,
        b.magnitude() < INFINITE,
    ensures
        ({
            let exact: int = a.value() * b.value();
            let bits: nat = round_bits(size(exact) as nat, pow2(1074));
            let p = a.times(b);
            &&& bits <= INFINITE
            &&& p.magnitude() == bits
            &&& exact > 0 ==> p.value() == units(bits) && !p.negative()
            &&& exact < 0 ==> p.value() == -(units(bits) as int) && p.negative()
            &&& exact == 0 ==> p.value() == 0
        }),
{
    reveal(Float::product);
    let (m, n) = (units(a.magnitude()), units(b.magnitude()));
    let exact: int = a.value() * b.value();
    assert(size(exact) as nat == m * n) by {
        assert((-m) * n == -(m * n)) by (nonlinear_arith);
        assert(m * (-n) == -(m * n)) by (nonlinear_arith);
        assert((-m) * (-n) == m * n) by (nonlinear_arith);
        assert(m * n >= 0) by (nonlinear_arith);
    }
    assert(exact > 0 ==> a.negative() == b.negative()) by {
        assert((-m) * n <= 0) by (nonlinear_arith);
        assert(m * (-n) <= 0) by (nonlinear_arith);
    }
    assert(exact < 0 ==> a.negative() != b.negative()) by {
        assert((-m) * (-n) >= 0) by (nonlinear_arith);
        assert(m * n >= 0) by (nonlinear_arith);
    }
    lemma_pow2_pos(1074);
    lemma_round_zero(pow2(1074));
    lemma_units_parts(0);
}

/// A larger exact product has a larger value, or the same.
proof fn lemma_products_ordered(a: Float, b: Float, c: Float, d: Float)
    requires
        a.magnitude() < INFINITE,
        b.magnitude() < INFINITE,
        c.magnitude() < INFINITE,
        d.magnitude() < INFINITE,
        a.value() * b.value() <= c.value() * d.value(),
    ensures
        a.times(b).value() <= c.times(d).value(),
{
    let (p, q) = (a.value() * b.value(), c.value() * d.value());
    lemma_product_value(a, b);
    lemma_product_value(c, d);
    lemma_pow2_pos(1074);
    let (m, n) = (round_bits(size(p) as nat, pow2(1074)), round_bits(size(q) as nat, pow2(1074)));
    if p > 0 {
        law_rounding_keeps_order(size(p) as nat, size(q) as nat, pow2(1074));
        lemma_units_ordered(m, n);
    } else if q < 0 {
        law_rounding_keeps_order(size(q) as nat, size(p) as nat, pow2(1074));
        lemma_units_ordered(n, m);
    }
}

/// A turn of a right angle or more is a corner, whatever the threshold, as long
/// as the coordinates are not so large that the dot product is undefined. The
/// dot product is exact here, without any rounding.
pub proof fn law_right_angle_is_corner(u: Vec2, v: Vec2, thresh: Float)
    requires
        u.x.magnitude() < INFINITE,
        u.y.magnitude() < INFINITE,
        v.x.magnitude() < INFINITE,
        v.y.magnitude() < INFINITE,
        u.x.value() * v.x.value() + u.y.value() * v.y.value() <= 0,
        !dot(u, v).nan(),
    ensures
        turns(u, v, thresh),
{
    let p: int = u.x.value() * v.x.value();
    let q: int = u.y.value() * v.y.value();
    let (a, b) = (u.x.times(v.x), u.y.times(v.y));
    lemma_product_value(u.x, v.x);
    lemma_product_value(u.y, v.y);
    lemma_pow2_pos(1074);
    lemma_zero();
    let (m, n) = (round_bits(size(p) as nat, pow2(1074)), round_bits(size(q) as nat, pow2(1074)));
    if p > 0 {
        law_rounding_keeps_order(size(p) as nat, size(q) as nat, pow2(1074));
        lemma_units_ordered(m, n);
    } else if q > 0 {
        law_rounding_keeps_order(size(q) as nat, size(p) as nat, pow2(1074));
        lemma_units_ordered(n, m);
    }
    assert(a.value() + b.value() <= 0);
    reveal(Float::sum);
    let exact: int = a.value() + b.value();
    lemma_units_parts(0);
}

/// Raising the threshold makes no new corners.
pub proof fn law_threshold_only_smooths(u: Vec2, v: Vec2, low: Float, high: Float)
    requires
        dot(u, v).magnitude() != INFINITE,
        low.le(high),
        turns(u, v, high),
    ensures
        turns(u, v, low),
{
    let d = dot(u, v);
    lemma_zero();
    if !d.le(whole(0)) {
        assert(cross(u, v).absolute().gt(d.times(high)));
        reveal(Float::product);
        if !d.nan() {
            assert(d.value() > 0);
            lemma_units_parts(0);
            if low.magnitude() == INFINITE || high.magnitude() == INFINITE {
                lemma_threshold_infinite(d, low, high);
            } else {
                assert(d.value() * low.value() <= d.value() * high.value()) by (nonlinear_arith)
                    requires
                        d.value() > 0,
                        low.value() <= high.value(),
                ;
                lemma_products_ordered(d, low, d, high);
                lemma_product_value(d, low);
            }
        }
    }
}

proof fn lemma_threshold_infinite(d: Float, low: Float, high: Float)
    requires
        d.magnitude() < INFINITE,
        d.value() > 0,
        low.le(high),
        low.magnitude() == INFINITE || high.magnitude() == INFINITE,
    ensures
        d.times(low).value() <= d.times(high).value(),
        !d.times(low).nan(),
{
    reveal(Float::product);
    lemma_units_parts(0);
    lemma_units_increase(0, INFINITE as nat);
    if low.magnitude() < INFINITE {
        lemma_units_increase(low.magnitude(), INFINITE as nat);
        lemma_product_value(d, low);
        lemma_units_ordered(d.times(low).magnitude(), INFINITE as nat);
    }
    if high.magnitude() < INFINITE {
        lemma_units_increase(high.magnitude(), INFINITE as nat);
        lemma_product_value(d, high);
        lemma_units_ordered(d.times(high).magnitude(), INFINITE as nat);
    }
}

}
