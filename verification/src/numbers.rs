//! Laws of the arithmetic of floating-point numbers, by their exact values.

use crate::arith::Arith;
use crate::float::{closest, lemma_floor, lemma_whole_magnitude, signed, Float};
use crate::parameter::lemma_exact;
use crate::rounding::{
    distance, law_rounding_is_nearest, law_rounding_keeps_order, lemma_round_exact,
    lemma_units_increase, lemma_units_parts, round_bits, units, HIDDEN, INFINITE,
};
use vstd::arithmetic::div_mod::{lemma_fundamental_div_mod, lemma_mod_multiples_basic};
use vstd::arithmetic::power2::{
    lemma2_to64, lemma2_to64_rest, lemma_pow2_pos, lemma_pow2_strictly_increases, pow2,
};
use vstd::prelude::*;

verus! {

/// How far two whole numbers are apart.
pub open spec fn apart(a: int, b: int) -> int {
    if a >= b {
        a - b
    } else {
        b - a
    }
}

/// Whether a number is neither infinite nor "not a number".
pub open spec fn is_finite(x: Float) -> bool {
    x.magnitude() < INFINITE
}

/// A rounded fraction with a sign is as close to the exact one as any number.
proof fn lemma_nearest(negative: bool, n: nat, d: nat, other: Float)
    requires
        d > 0,
        is_finite(other),
    ensures
        ({
            let exact: int = if negative {
                -(n as int)
            } else {
                n as int
            };
            let r = signed(negative, round_bits(n, d));
            apart(exact, r.value() * d) <= apart(exact, other.value() * d)
        }),
{
    let b: nat = round_bits(n, d);
    let r = signed(negative, b);
    lemma_units_parts(0);
    law_rounding_is_nearest(n, d, other.magnitude());
    law_rounding_is_nearest(n, d, 0);
    let (u, v): (nat, nat) = (units(b), units(other.magnitude()));
    assert(0 * d == 0);
    assert((-(u as int)) * d == -(u * d)) by (nonlinear_arith);
    assert((-(v as int)) * d == -(v * d)) by (nonlinear_arith);
    assert(v * d >= 0) by (nonlinear_arith);
    assert(r.value() == (if negative {
        -(u as int)
    } else {
        u as int
    }));
    assert(distance(u, n, d) <= distance(v, n, d));
    assert(distance(u, n, d) <= n);
}

/// A sum is as close to the exact sum as any number is. Here and below, the
/// value of an infinite result is what follows the largest number.
pub proof fn law_sum_is_nearest(a: Float, b: Float, other: Float)
    requires
        is_finite(a),
        is_finite(b),
        is_finite(other),
    ensures
        apart(a.value() + b.value(), a.plus(b).value()) <= apart(
            a.value() + b.value(),
            other.value(),
        ),
{
    reveal(Float::sum);
    let exact: int = a.value() + b.value();
    lemma_units_parts(0);
    if exact != 0 {
        let n: nat = (if exact < 0 {
            -exact
        } else {
            exact
        }) as nat;
        lemma_nearest(exact < 0, n, 1, other);
    }
}

/// A product is as close to the exact product as any number is.
pub proof fn law_product_is_nearest(a: Float, b: Float, other: Float)
    requires
        is_finite(a),
        is_finite(b),
        is_finite(other),
    ensures
        apart(a.value() * b.value(), a.times(b).value() * pow2(1074)) <= apart(
            a.value() * b.value(),
            other.value() * pow2(1074),
        ),
{
    reveal(Float::product);
    lemma_pow2_pos(1074);
    let (u, v): (int, int) = (units(a.magnitude()) as int, units(b.magnitude()) as int);
    assert((-u) * v == -(u * v) && u * (-v) == -(u * v) && (-u) * (-v) == u * v)
        by (nonlinear_arith);
    assert(u * v >= 0) by (nonlinear_arith)
        requires
            u >= 0,
            v >= 0,
    ;
    lemma_nearest(a.negative() != b.negative(), (u * v) as nat, pow2(1074), other);
}

/// The number for a fraction is as close to it as any number is.
pub proof fn law_fraction_is_nearest(n: nat, d: nat, other: Float)
    requires
        d > 0,
        is_finite(other),
    ensures
        apart((n * pow2(1074)) as int, Float::ratio(n, d).value() * d) <= apart(
            (n * pow2(1074)) as int,
            other.value() * d,
        ),
{
    reveal(closest);
    lemma_nearest(false, n * pow2(1074), d, other);
}

/// Sums and products do not depend on the order of their operands.
pub proof fn law_operands_can_be_swapped(a: Float, b: Float)
    ensures
        a.plus(b) == b.plus(a),
        a.times(b) == b.times(a),
{
    reveal(Float::sum);
    reveal(Float::product);
    assert(units(a.magnitude()) * units(b.magnitude()) == units(b.magnitude()) * units(
        a.magnitude(),
    )) by (nonlinear_arith);
}

/// Changing signs changes the exact value to its opposite, and nothing else. A
/// difference is the sum with the opposite; a product changes its sign with
/// either operand.
pub proof fn law_signs(a: Float, b: Float)
    ensures
        a.negated().value() == -a.value(),
        a.negated().nan() == a.nan(),
        a.negated().negated() == a,
        a.absolute().value() == apart(a.value(), 0),
        a.absolute().nan() == a.nan(),
        !a.absolute().negative(),
        a.minus(b) == a.plus(b.negated()),
        !a.times(b).nan() ==> a.negated().times(b) == a.times(b).negated(),
{
    reveal(Float::sum);
    reveal(Float::product);
    reveal(Float::opposite);
    reveal(Float::absolute);
    lemma_units_parts(0);
    lemma_pow2_pos(1074);
}

/// The signs of sums: with both signs changed the sum changes its own, unless it
/// is zero. A sum is zero only if the exact sum is, and negative then only if
/// both operands are. An infinite operand, if the sum is a number, is the sum.
pub proof fn law_signs_of_sums(a: Float, b: Float)
    requires
        !a.plus(b).nan(),
    ensures
        a.plus(b).magnitude() != 0 ==> a.negated().plus(b.negated()) == a.plus(b).negated(),
        a.plus(b).magnitude() == 0 ==> {
            &&& a.value() + b.value() == 0
            &&& a.plus(b).negative() == (a.negative() && b.negative())
        },
        a.infinite() ==> a.plus(b) == a,
{
    reveal(Float::sum);
    reveal(Float::opposite);
    let exact: int = a.value() + b.value();
    let n: nat = (if exact < 0 {
        -exact
    } else {
        exact
    }) as nat;
    lemma_units_parts(0);
    lemma_units_parts(1);
    if n > 0 {
        lemma_round_exact(1);
        law_rounding_keeps_order(1, n, 1);
    }
}

/// Of two numbers either one is above the other, or they are equal; what is not
/// a number is neither above nor below nor equal to anything. The exact values
/// decide: the two zeros are equal.
pub proof fn law_comparisons(a: Float, b: Float)
    ensures
        a.nan() || b.nan() ==> !a.gt(b) && !b.gt(a) && !a.equals(b) && !a.le(b),
        !a.nan() && !b.nan() ==> {
            &&& a.gt(b) == (a.value() > b.value())
            &&& a.equals(b) == (!a.gt(b) && !b.gt(a))
            &&& a.le(b) == !a.gt(b)
        },
        a.equals(b) == b.equals(a),
        a.equals(b) == a.same(b),
        a.magnitude() == 0 && b.magnitude() == 0 ==> a.equals(b),
{
    lemma_units_parts(0);
}

/// Sums of two numbers are undefined only if they are opposite infinities, and
/// products only if they are of zero and an infinity.
pub proof fn law_undefined_results(a: Float, b: Float)
    ensures
        a.plus(b).nan() == (a.nan() || b.nan() || (a.infinite() && b.infinite() && a.negative()
            != b.negative())),
        a.times(b).nan() == (a.nan() || b.nan() || (a.infinite() && b.magnitude() == 0) || (
        b.infinite() && a.magnitude() == 0)),
{
    reveal(Float::sum);
    reveal(Float::product);
}

/// Whether a number is a whole number.
pub open spec fn is_whole(x: Float) -> bool {
    is_finite(x) && x.value() % (pow2(1074) as int) == 0
}

/// The floor of a finite number is the whole number that is not above it, and
/// less than one below it.
pub proof fn law_floor_is_whole_below(x: Float)
    requires
        is_finite(x),
    ensures
        is_whole(x.floored()),
        x.floored().value() <= x.value() < x.floored().value() + pow2(1074),
{
    reveal(Float::rounded_down);
    let one: nat = pow2(1074);
    let (b, u): (nat, nat) = (x.magnitude(), units(x.magnitude()));
    lemma_pow2_pos(1074);
    lemma_floor(x);
    lemma_units_parts(b);
    lemma2_to64();
    lemma2_to64_rest();
    lemma_fundamental_div_mod(x.value(), one as int);
    lemma_fundamental_div_mod(u as int, one as int);
    let below: int = x.value() / (one as int);
    let size: nat = (if below < 0 {
        -below
    } else {
        below
    }) as nat;
    let w: nat = u / one;
    assert(size == w || size == w + 1);
    assert(one * below == below * one) by (nonlinear_arith);
    assert((-below) * one == -(below * one)) by (nonlinear_arith);
    let k: int = b / HIDDEN as nat - 1;
    if k >= 1074 {
        let sig: nat = b % HIDDEN as nat + HIDDEN as nat;
        lemma_whole_magnitude(b, sig, k as nat);
        assert(one * w == w * one) by (nonlinear_arith);
        lemma_round_exact(b);
    } else {
        assert(u < exact_bound() * one) by {
            if b < HIDDEN {
                assert(u < exact_bound() * one) by (nonlinear_arith)
                    requires
                        u < exact_bound(),
                        one > 0,
                ;
            } else {
                let p: nat = pow2(k as nat);
                let sig: nat = b % HIDDEN as nat + HIDDEN as nat;
                lemma_pow2_strictly_increases(k as nat, 1074);
                assert(sig * p < exact_bound() * one) by (nonlinear_arith)
                    requires
                        sig < exact_bound(),
                        p < one,
                ;
            }
        }
        assert(w < exact_bound()) by (nonlinear_arith)
            requires
                one * w <= u,
                u < exact_bound() * one,
        ;
        lemma_exact(size, 1074);
    }
    assert(x.floored().value() == below * one);
    lemma_mod_multiples_basic(below, one as int);
}

/// Two to the fifty-third.
spec fn exact_bound() -> nat {
    2 * HIDDEN as nat
}

/// The index of a number is the whole part of it. Below zero, and for what is
/// not a number, it is zero; from the largest index on, that.
pub proof fn law_index_is_whole_part(x: Float)
    ensures
        ({
            let (i, one) = (x.whole_part() as int, pow2(1074) as int);
            if x.nan() || x.value() <= 0 {
                i == 0
            } else if x.value() < usize::MAX * one {
                i * one <= x.value() < (i + 1) * one
            } else {
                i == usize::MAX
            }
        }),
{
    reveal(Float::index);
    let one: nat = pow2(1074);
    let u: nat = units(x.magnitude());
    lemma_pow2_pos(1074);
    lemma_units_parts(0);
    if x.magnitude() > 0 && !x.nan() {
        lemma_units_increase(0, x.magnitude());
    }
    lemma_fundamental_div_mod(u as int, one as int);
    let w: nat = u / one;
    assert((w + 1) * one == one * w + one && w * one == one * w) by (nonlinear_arith);
    let m: nat = usize::MAX as nat;
    assert(w < m <==> u < m * one) by (nonlinear_arith)
        requires
            one * w <= u < one * w + one,
            one > 0,
    ;
}

}
