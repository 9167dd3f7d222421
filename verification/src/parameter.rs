//! Laws of the parameter of a prepared path: zero to one is its range.

use crate::arith::{whole, Arith};
use crate::curve::{clamped, has_range, on_curve, path_point, placed, scaled, Prepared};
use crate::float::{closest, lemma_has_length, signed, Float};
use crate::geom::{cubic_at, CubicBez};
use crate::numbers::{law_floor_is_whole_below, law_index_is_whole_part};
use crate::rounding::{
    law_rounding_is_nearest, law_rounding_keeps_order, lemma_round_exact, lemma_round_expand,
    lemma_round_zero, lemma_units_increase, lemma_units_parts, round_bits, units, HIDDEN, INFINITE,
};
use vstd::arithmetic::div_mod::{
    lemma_div_is_ordered, lemma_fundamental_div_mod, lemma_fundamental_div_mod_converse,
};
use vstd::arithmetic::power2::{
    lemma2_to64, lemma2_to64_rest, lemma_pow2_adds, lemma_pow2_pos, lemma_pow2_strictly_increases,
    pow2,
};
use vstd::prelude::*;

verus! {

/// The largest number below which every whole number has a bit pattern.
pub open spec fn exact_limit() -> nat {
    0x20_0000_0000_0000
}

/// A number with at most 53 digits, behind which come zeros, is represented
/// exactly.
pub(crate) proof fn lemma_exact(n: nat, zeros: nat)
    requires
        n <= exact_limit(),
        zeros <= 1074,
    ensures
        round_bits(n * pow2(zeros), 1) < INFINITE,
        units(round_bits(n * pow2(zeros), 1)) == n * pow2(zeros),
{
    lemma2_to64();
    lemma2_to64_rest();
    let v: nat = n * pow2(zeros);
    lemma_pow2_pos(zeros);
    if n == 0 {
        lemma_round_zero(1);
        lemma_units_parts(0);
        assert(0 * pow2(zeros) == 0);
    } else if v < 2 * HIDDEN {
        lemma_units_parts(v);
        if v >= HIDDEN {
            lemma_fundamental_div_mod_converse(v as int, HIDDEN as int, 1, v - HIDDEN);
            assert(v * pow2(0) == v) by (nonlinear_arith)
                requires
                    pow2(0) == 1,
            ;
        }
        assert(units(v) == v);
        lemma_round_exact(v);
    } else {
        lemma_has_length(n);
        let len = choose|len: nat| #![trigger pow2(len)]
            len > 0 && pow2((len - 1) as nat) <= n < pow2(len);
        if len > 54 {
            lemma_pow2_strictly_increases(53, (len - 1) as nat);
        }
        let q: nat;
        let k: nat;
        if len == 54 {
            q = HIDDEN as nat;
            k = zeros + 1;
            lemma_pow2_adds(1, zeros);
            assert(v == q * pow2(k)) by (nonlinear_arith)
                requires
                    v == n * pow2(zeros),
                    n == 2 * q,
                    pow2(k) == 2 * pow2(zeros),
            ;
        } else {
            let up: nat = (53 - len) as nat;
            lemma_pow2_pos(up);
            lemma_pow2_adds((len - 1) as nat, up);
            lemma_pow2_adds(len, up);
            q = n * pow2(up);
            assert(HIDDEN <= q < 2 * HIDDEN) by (nonlinear_arith)
                requires
                    q == n * pow2(up),
                    pow2((len - 1) as nat) <= n < pow2(len),
                    pow2((len - 1) as nat) * pow2(up) == HIDDEN,
                    pow2(len) * pow2(up) == 2 * HIDDEN,
                    pow2(up) > 0,
            ;
            if zeros < up {
                lemma_pow2_strictly_increases(zeros, up);
                assert(v <= q) by (nonlinear_arith)
                    requires
                        v == n * pow2(zeros),
                        q == n * pow2(up),
                        pow2(zeros) < pow2(up),
                ;
            }
            k = (zeros - up) as nat;
            lemma_pow2_adds(up, k);
            assert(v == q * pow2(k)) by (nonlinear_arith)
                requires
                    v == n * pow2(zeros),
                    pow2(zeros) == pow2(up) * pow2(k),
                    q == n * pow2(up),
            ;
        }
        let bits: nat = k * HIDDEN as nat + q;
        lemma_units_parts(bits);
        lemma_fundamental_div_mod_converse(bits as int, HIDDEN as int, (k + 1) as int, q - HIDDEN);
        lemma_round_exact(bits);
    }
}

proof fn lemma_whole_exact(n: nat)
    requires
        n <= exact_limit(),
    ensures
        round_bits(n * pow2(1074), 1) < INFINITE,
        units(round_bits(n * pow2(1074), 1)) == n * pow2(1074),
{
    lemma_exact(n, 1074);
}

/// The whole numbers up to the limit, as floating-point numbers.
pub(crate) proof fn lemma_whole(n: nat)
    requires
        n <= exact_limit(),
    ensures
        !whole::<Float>(n).negative(),
        whole::<Float>(n).magnitude() < INFINITE,
        units(whole::<Float>(n).magnitude()) == n * pow2(1074),
        whole::<Float>(n).value() == n * pow2(1074),
{
    reveal(closest);
    lemma_whole_exact(n);
}

/// The product with a whole number, up to the limit.
proof fn lemma_times_whole(t: Float, n: nat)
    requires
        n <= exact_limit(),
        t.magnitude() < INFINITE,
    ensures
        t.times(whole(n)) == signed(t.negative(), round_bits(units(t.magnitude()) * n, 1)),
{
    reveal(Float::product);
    lemma_whole(n);
    lemma_pow2_pos(1074);
    let u: nat = units(t.magnitude());
    assert(u * (n * pow2(1074)) == (u * n) * pow2(1074)) by (nonlinear_arith);
    lemma_round_expand(u * n, 1, pow2(1074));
}

/// The bits of a number between two others.
proof fn lemma_in_range(t: Float)
    requires
        whole::<Float>(0).le(t),
        t.le(whole(1)),
    ensures
        t.magnitude() < INFINITE,
        units(t.magnitude()) <= pow2(1074),
        t.negative() ==> t.magnitude() == 0,
        t.value() >= 0,
        t.value() == units(t.magnitude()),
{
    lemma_whole(0);
    lemma_whole(1);
    lemma_units_parts(0);
    if t.magnitude() > 0 {
        lemma_units_increase(0, t.magnitude());
    }
    if t.magnitude() == INFINITE {
        lemma_units_increase(whole::<Float>(1).magnitude(), INFINITE as nat);
    }
    assert(0 * pow2(1074) == 0);
    assert(1 * pow2(1074) == pow2(1074));
}

/// Where a parameter between zero and one falls.
pub(crate) proof fn lemma_scaled(n: usize, t: Float)
    requires
        0 < n <= exact_limit(),
        whole::<Float>(0).le(t),
        t.le(whole(1)),
    ensures
        ({
            let s = t.times(whole(n as nat));
            let w: nat = units(s.magnitude()) / pow2(1074);
            &&& s.magnitude() == round_bits(units(t.magnitude()) * n as nat, 1)
            &&& s.magnitude() < INFINITE
            &&& w <= n
            &&& scaled(n as nat, t).0 == w
            &&& w == n ==> scaled(n as nat, t).1 == signed(false, 0)
        }),
{
    let one: nat = pow2(1074);
    let u: nat = units(t.magnitude());
    let s = t.times(whole(n as nat));
    lemma_in_range(t);
    lemma_times_whole(t, n as nat);
    lemma_pow2_pos(1074);
    lemma_whole_exact(n as nat);
    let top: nat = round_bits(n as nat * one, 1);
    assert(u * n <= n * one) by (nonlinear_arith)
        requires
            u <= one,
    ;
    law_rounding_keeps_order(u * n as nat, n as nat * one, 1);
    assert(s.magnitude() <= top);
    if s.magnitude() < top {
        lemma_units_increase(s.magnitude(), top);
    }
    let us: nat = units(s.magnitude());
    let w: nat = us / one;
    lemma_fundamental_div_mod(us as int, one as int);
    assert(w <= n) by (nonlinear_arith)
        requires
            us <= n * one,
            one * w <= us,
            one > 0,
    ;
    lemma_units_parts(0);
    if t.negative() {
        assert(0 * n == 0);
        lemma_round_zero(1);
    }
    assert(s.value() == us);
    reveal(Float::rounded_down);
    lemma_whole_exact(w);
    let f = s.rounded_down();
    let fb: nat = round_bits(w * one, 1);
    assert(f == signed(s.negative(), fb));
    assert(units(fb) == w * one);
    lemma_fundamental_div_mod_converse((w * one) as int, one as int, w as int, 0);
    reveal(Float::index);
    if s.negative() {
        assert(w == 0) by {
            lemma_fundamental_div_mod_converse(0, one as int, 0, 0);
        }
    }
    if w == n {
        assert(us == n * one) by (nonlinear_arith)
            requires
                us <= n * one,
                one * w <= us,
                w == n,
        ;
        reveal(Float::sum);
        reveal(Float::opposite);
        assert(!s.negative());
    }
}

/// What is behind the point of a number is a number.
proof fn lemma_rest_exact(bits: nat)
    requires
        bits < INFINITE,
    ensures
        ({
            let rest: nat = units(bits) % pow2(1074);
            &&& round_bits(rest, 1) < INFINITE
            &&& units(round_bits(rest, 1)) == rest
        }),
{
    let one: nat = pow2(1074);
    let u: nat = units(bits);
    let rest: nat = u % one;
    lemma_pow2_pos(1074);
    lemma2_to64();
    lemma2_to64_rest();
    lemma_units_parts(bits);
    if bits < HIDDEN {
        lemma_pow2_strictly_increases(53, 1074);
        lemma_fundamental_div_mod_converse(u as int, one as int, 0, u as int);
        lemma_round_exact(bits);
    } else {
        let k: nat = (bits / HIDDEN as nat - 1) as nat;
        let sig: nat = bits % HIDDEN as nat + HIDDEN as nat;
        lemma_pow2_pos(k);
        if k >= 1074 {
            let up: nat = (k - 1074) as nat;
            lemma_pow2_adds(up, 1074);
            let q: nat = sig * pow2(up);
            assert(u == q * one) by (nonlinear_arith)
                requires
                    u == sig * pow2(k),
                    pow2(k) == pow2(up) * one,
                    q == sig * pow2(up),
            ;
            lemma_fundamental_div_mod_converse(u as int, one as int, q as int, 0);
            lemma_round_zero(1);
            lemma_units_parts(0);
        } else {
            // What is left of the significand.
            let w: nat = pow2((1074 - k) as nat);
            let p: nat = pow2(k);
            lemma_pow2_pos((1074 - k) as nat);
            lemma_pow2_adds((1074 - k) as nat, k);
            lemma_fundamental_div_mod(sig as int, w as int);
            let (q, r): (nat, nat) = (sig / w, sig % w);
            assert(u == q * one + r * p) by (nonlinear_arith)
                requires
                    u == sig * p,
                    sig == w * q + r,
                    one == w * p,
            ;
            assert(r * p < one) by (nonlinear_arith)
                requires
                    r < w,
                    one == w * p,
                    p > 0,
            ;
            assert(w * q >= 0) by (nonlinear_arith);
            lemma_fundamental_div_mod_converse(u as int, one as int, q as int, (r * p) as int);
            lemma_exact(r, k);
        }
    }
}

/// The parameter on the curve is what is behind the point.
proof fn lemma_rest(n: usize, t: Float)
    requires
        0 < n <= exact_limit(),
        whole::<Float>(0).le(t),
        t.le(whole(1)),
    ensures
        ({
            let s = t.times(whole(n as nat));
            let u = scaled(n as nat, t).1;
            &&& u.magnitude() < INFINITE
            &&& u.value() == units(s.magnitude()) % pow2(1074)
            &&& s.value() == units(s.magnitude())
        }),
{
    let one: nat = pow2(1074);
    let s = t.times(whole(n as nat));
    lemma_scaled(n, t);
    lemma_in_range(t);
    lemma_times_whole(t, n as nat);
    lemma_pow2_pos(1074);
    lemma_units_parts(0);
    if t.negative() {
        assert(0 * n == 0);
        lemma_round_zero(1);
    }
    let us: nat = units(s.magnitude());
    let w: nat = us / one;
    lemma_fundamental_div_mod(us as int, one as int);
    assert(one * w == w * one) by (nonlinear_arith);
    lemma_whole_exact(w);
    lemma_rest_exact(s.magnitude());
    reveal(Float::rounded_down);
    reveal(Float::sum);
    reveal(Float::opposite);
    let fb: nat = round_bits(w * one, 1);
    assert(s.rounded_down() == signed(s.negative(), fb));
    if s.negative() {
        assert(w == 0) by {
            lemma_fundamental_div_mod_converse(0, one as int, 0, 0);
        }
        assert(0 * one == 0);
        lemma_round_zero(1);
    }
}

/// The distance of a number from the next below it, which is a whole number.
proof fn lemma_next_below(m: nat, y: nat, top: nat)
    requires
        0 < m <= exact_limit(),
        y + pow2(1021) * m == m * pow2(1074),
        top == round_bits(m * pow2(1074), 1),
    ensures
        round_bits(y, 1) != top,
{
    let one: nat = pow2(1074);
    let gm: nat = pow2(1021) * m;
    lemma2_to64();
    lemma2_to64_rest();
    lemma_pow2_pos(1021);
    lemma_whole_exact(m);
    lemma_pow2_adds(53, 1021);
    let v: nat = m * one;
    assert(v == 0x20_0000_0000_0000 * gm) by (nonlinear_arith)
        requires
            v == m * one,
            one == 0x20_0000_0000_0000 * pow2(1021),
            gm == pow2(1021) * m,
    ;
    assert(gm > 0) by (nonlinear_arith)
        requires
            gm == pow2(1021) * m,
            pow2(1021) > 0,
            m > 0,
    ;
    lemma_units_parts(top);
    if round_bits(y, 1) == top {
        assert(top > 0) by {
            lemma_units_parts(0);
        }
        let below: nat = (top - 1) as nat;
        law_rounding_is_nearest(y, 1, below);
        lemma_units_parts(below);
        assert(top >= HIDDEN);
        let k: nat = (top / HIDDEN as nat - 1) as nat;
        let sig: nat = top % HIDDEN as nat + HIDDEN as nat;
        let p: nat = pow2(k);
        lemma_pow2_pos(k);
        if sig > HIDDEN {
            lemma_fundamental_div_mod_converse(
                below as int,
                HIDDEN as int,
                (k + 1) as int,
                sig - 1 - HIDDEN,
            );
            assert(units(below) + p == v) by (nonlinear_arith)
                requires
                    units(below) == (sig - 1) * p,
                    v == sig * p,
            ;
            assert(2 * gm > p) by (nonlinear_arith)
                requires
                    0x20_0000_0000_0000 * gm == sig * p,
                    sig > HIDDEN,
                    p > 0,
            ;
            assert(gm < p) by (nonlinear_arith)
                requires
                    0x20_0000_0000_0000 * gm == sig * p,
                    sig < 2 * HIDDEN,
                    p > 0,
            ;
        } else {
            assert(2 * gm == p) by (nonlinear_arith)
                requires
                    0x20_0000_0000_0000 * gm == sig * p,
                    sig == HIDDEN,
            ;
            assert(k > 0);
            lemma_pow2_adds(1, (k - 1) as nat);
            lemma_fundamental_div_mod_converse(
                below as int,
                HIDDEN as int,
                k as int,
                HIDDEN - 1,
            );
            let half: nat = pow2((k - 1) as nat);
            assert(units(below) + half == v) by (nonlinear_arith)
                requires
                    units(below) == (2 * HIDDEN - 1) * half,
                    v == HIDDEN * p,
                    p == 2 * half,
            ;
        }
        assert(units(below) * 1 == units(below) && units(top) * 1 == units(top));
    }
}

/// Only one itself scales to the number of curves.
proof fn lemma_below_one(n: usize, t: Float)
    requires
        0 < n <= exact_limit(),
        whole::<Float>(0).le(t),
        t.le(whole(1)),
        t.value() < whole::<Float>(1).value(),
    ensures
        round_bits(units(t.magnitude()) * n as nat, 1) < round_bits(n as nat * pow2(1074), 1),
{
    let one: nat = pow2(1074);
    let m: nat = n as nat;
    lemma_in_range(t);
    lemma_whole(1);
    assert(1 * one == one);
    lemma2_to64();
    lemma2_to64_rest();
    lemma_pow2_pos(1021);
    lemma_pow2_adds(53, 1021);
    lemma_pow2_adds(52, 1022);
    let gap: nat = pow2(1021);
    let b: nat = t.magnitude();
    // One is the first number of its binade; the number before it ends the
    // binade below.
    let top: nat = 1023 * HIDDEN as nat;
    let last: nat = (top - 1) as nat;
    lemma_units_parts(top);
    lemma_units_parts(last);
    lemma_fundamental_div_mod_converse(top as int, HIDDEN as int, 1023, 0);
    lemma_fundamental_div_mod_converse(last as int, HIDDEN as int, 1022, HIDDEN - 1);
    assert(units(top) == one);
    assert(units(last) + gap == one) by (nonlinear_arith)
        requires
            units(last) == (2 * HIDDEN - 1) * gap,
            one == (2 * HIDDEN) * gap,
    ;
    if b >= top {
        if b > top {
            lemma_units_increase(top, b);
        }
    } else if b < last {
        lemma_units_increase(b, last);
    }
    let u: nat = units(b);
    assert(u + gap <= one);
    let low: nat = (one - gap) as nat;
    let (x, y): (nat, nat) = (u * m, low * m);
    assert(x <= y) by (nonlinear_arith)
        requires
            x == u * m,
            y == low * m,
            u <= low,
    ;
    assert(y + gap * m == m * one) by (nonlinear_arith)
        requires
            y == low * m,
            low + gap == one,
    ;
    assert(y <= m * one) by (nonlinear_arith)
        requires
            y + gap * m == m * one,
    ;
    law_rounding_keeps_order(x, y, 1);
    law_rounding_keeps_order(y, m * one, 1);
    lemma_next_below(m, y, round_bits(m * one, 1));
}

/// Where a parameter between zero and one falls: the index of the curve and the
/// parameter on it add up to `n` times the parameter, as rounded; the parameter
/// on the curve lies between zero and one, one left out; and only the end of
/// the range falls behind the last curve.
pub proof fn law_parameter_is_split(n: usize, t: Float)
    requires
        0 < n <= exact_limit(),
        whole::<Float>(0).le(t),
        t.le(whole(1)),
    ensures
        ({
            let (i, u) = scaled(n as nat, t);
            &&& i <= n
            &&& whole::<Float>(0).le(u)
            &&& whole::<Float>(1).gt(u)
            &&& i * pow2(1074) + u.value() == t.times(whole(n as nat)).value()
            &&& i == n <==> t.same(whole(1))
        }),
{
    let one: nat = pow2(1074);
    let s = t.times(whole(n as nat));
    let us: nat = units(s.magnitude());
    lemma_scaled(n, t);
    lemma_rest(n, t);
    lemma_in_range(t);
    lemma_whole(0);
    lemma_whole(1);
    lemma_pow2_pos(1074);
    assert(0 * one == 0);
    assert(1 * one == one);
    lemma_fundamental_div_mod(us as int, one as int);
    let w: nat = us / one;
    assert(one * w == w * one) by (nonlinear_arith);
    lemma_whole_exact(n as nat);
    let top: nat = round_bits(n as nat * one, 1);
    if t.same(whole(1)) {
        assert(units(t.magnitude()) * n == n * one) by (nonlinear_arith)
            requires
                units(t.magnitude()) == one,
        ;
        lemma_fundamental_div_mod_converse((n * one) as int, one as int, n as int, 0);
    } else {
        lemma_below_one(n, t);
        lemma_units_increase(s.magnitude(), top);
        assert(w < n) by (nonlinear_arith)
            requires
                w * one <= us,
                us < n * one,
        ;
    }
}

/// Every range of parameters between zero and one, its ends in order, has
/// moment integrals.
pub proof fn law_whole_range_is_covered(n: usize, t0: Float, t1: Float)
    requires
        0 < n <= exact_limit(),
        whole::<Float>(0).le(t0),
        t0.le(t1),
        t1.le(whole(1)),
    ensures
        on_curve(n as nat, t0),
        on_curve(n as nat, t1),
        has_range(n as nat, t0, t1),
{
    lemma_whole(0);
    lemma_whole(1);
    assert(t0.le(whole(1)));
    assert(whole::<Float>(0).le(t1));
    lemma_scaled(n, t0);
    lemma_scaled(n, t1);
    lemma_in_range(t0);
    lemma_in_range(t1);
    let one: nat = pow2(1074);
    lemma_pow2_pos(1074);
    lemma_split_ordered(n, t0, t1);
    assert(0 * one == 0);
    lemma_units_parts(0);
}

/// The parameter on a curve is finite, and zero behind the last curve.
pub(crate) proof fn lemma_split_end(n: usize, t: Float)
    requires
        0 < n <= exact_limit(),
        whole::<Float>(0).le(t),
        t.le(whole(1)),
    ensures
        scaled(n as nat, t).1.magnitude() < INFINITE,
        scaled(n as nat, t).0 == n ==> scaled(n as nat, t).1.value() == 0,
        placed(n as nat, t).0 < n,
        placed(n as nat, t).1.magnitude() < INFINITE,
{
    lemma_scaled(n, t);
    lemma_rest(n, t);
    lemma_whole(1);
    lemma_units_parts(0);
}

/// Larger parameters fall on later curves, or the same.
pub(crate) proof fn lemma_split_ordered(n: usize, t0: Float, t1: Float)
    requires
        0 < n <= exact_limit(),
        whole::<Float>(0).le(t0),
        t0.le(t1),
        t1.le(whole(1)),
    ensures
        scaled(n as nat, t0).0 <= scaled(n as nat, t1).0,
{
    lemma_scaled(n, t0);
    lemma_scaled(n, t1);
    lemma_in_range(t0);
    lemma_in_range(t1);
    lemma_pow2_pos(1074);
    let u0: nat = units(t0.magnitude());
    let u1: nat = units(t1.magnitude());
    assert(u0 * n <= u1 * n) by (nonlinear_arith)
        requires
            u0 <= u1,
    ;
    law_rounding_keeps_order(u0 * n as nat, u1 * n as nat, 1);
    let s0 = t0.times(whole(n as nat)).magnitude();
    let s1 = t1.times(whole(n as nat)).magnitude();
    if s0 < s1 {
        lemma_units_increase(s0, s1);
    }
    lemma_div_is_ordered(units(s0) as int, units(s1) as int, pow2(1074) as int);
}

/// A clamped parameter has a point on any path: it lies between zero and one,
/// or is not a number, which counts as zero.
pub proof fn law_clamped_is_on_curve(n: usize, t: Float)
    requires
        0 < n <= exact_limit(),
    ensures
        on_curve(n as nat, clamped(t)),
        t.nan() || (whole::<Float>(0).le(clamped(t)) && clamped(t).le(whole(1))),
{
    lemma_whole(0);
    lemma_whole(1);
    lemma_pow2_pos(1074);
    assert(0 * pow2(1074) == 0);
    assert(1 * pow2(1074) == pow2(1074));
    if t.nan() {
        reveal(Float::product);
        reveal(Float::rounded_down);
        reveal(Float::index);
    } else {
        law_whole_range_is_covered(n, clamped(t), clamped(t));
    }
}

/// Clamping leaves a parameter between zero and one as it is, and what is not a
/// number; what lies below becomes zero, and what lies above one.
pub proof fn law_clamping(t: Float)
    ensures
        t.nan() ==> clamped(t) == t,
        !t.nan() && 0 <= t.value() <= pow2(1074) ==> clamped(t) == t,
        !t.nan() && t.value() < 0 ==> !clamped(t).nan() && clamped(t).value() == 0,
        !t.nan() && t.value() > pow2(1074) ==> !clamped(t).nan() && clamped(t).value() == pow2(
            1074,
        ),
{
    lemma_whole(0);
    lemma_whole(1);
    assert(0 * pow2(1074) == 0);
    assert(1 * pow2(1074) == pow2(1074));
}

/// Between zero and one, a range has moment integrals unless it goes back from
/// the end of the path.
pub proof fn law_ranges_between_zero_and_one(n: usize, t0: Float, t1: Float)
    requires
        0 < n <= exact_limit(),
        whole::<Float>(0).le(t0),
        t0.le(whole(1)),
        whole::<Float>(0).le(t1),
        t1.le(whole(1)),
    ensures
        has_range(n as nat, t0, t1) <==> (t0.same(whole(1)) ==> t1.same(whole(1))),
{
    law_parameter_is_split(n, t0);
    law_parameter_is_split(n, t1);
    lemma_split_end(n, t0);
    lemma_split_end(n, t1);
    lemma_whole(0);
    lemma_whole(1);
    lemma_pow2_pos(1074);
    assert(0 * pow2(1074) == 0);
    assert(1 * pow2(1074) == pow2(1074));
}

/// A path can be sampled below the end of the curve that would follow its last,
/// by the product of the parameter and the number of curves: anywhere before
/// the range, less than a curve behind it, and where the parameter is not a
/// number. A path without curves cannot be sampled.
pub proof fn law_where_a_path_can_be_sampled(n: usize, t: Float)
    requires
        n < usize::MAX,
    ensures
        on_curve(n as nat, t) == (n > 0 && ({
            let s = t.times(whole(n as nat));
            s.nan() || s.value() < (n + 1) * pow2(1074)
        })),
{
    let s = t.times(whole::<Float>(n as nat));
    let one: int = pow2(1074) as int;
    let f = s.floored();
    let (i, m): (int, int) = (f.whole_part() as int, n + 1);
    lemma_pow2_pos(1074);
    assert(m * one >= one && m * one <= usize::MAX * one) by (nonlinear_arith)
        requires
            1 <= m <= usize::MAX,
            one > 0,
    ;
    law_index_is_whole_part(f);
    if s.nan() || s.infinite() {
        reveal(Float::rounded_down);
        lemma_infinity_is_large();
    } else {
        law_floor_is_whole_below(s);
        lemma_fundamental_div_mod(f.value(), one);
        let w: int = f.value() / one;
        if 0 < f.value() && f.value() < usize::MAX * one {
            assert(i == w && (w < m <==> w * one < m * one) && (w < m ==> w * one + one <= m * one))
                by (nonlinear_arith)
                requires
                    i * one <= one * w < (i + 1) * one,
                    one > 0,
            ;
            assert(one * w == w * one) by (nonlinear_arith);
        }
    }
}

/// Infinity counts as larger than every index.
pub(crate) proof fn lemma_infinity_is_large()
    ensures
        units(INFINITE as nat) >= usize::MAX * pow2(1074),
{
    lemma_units_parts(INFINITE as nat);
    lemma2_to64();
    lemma2_to64_rest();
    lemma_pow2_adds(972, 1074);
    lemma_pow2_strictly_increases(64, 972);
    let (top, p, one): (nat, nat, nat) = (usize::MAX as nat, pow2(972), pow2(1074));
    lemma_pow2_pos(1074);
    assert(HIDDEN as nat * (p * one) >= top * one) by (nonlinear_arith)
        requires
            HIDDEN >= 1,
            p >= top,
            one > 0,
    ;
}

/// Whether a parameter lies behind the last curve, or at its end, by the product
/// of the parameter and the number of curves.
pub open spec fn is_behind(n: nat, t: Float) -> bool {
    let s = t.times(whole(n));
    !s.nan() && s.value() >= n * pow2(1074)
}

/// What can be sampled behind the last curve falls just behind it, by exactly
/// what the product exceeds the number of curves.
proof fn lemma_behind(n: usize, t: Float)
    requires
        0 < n < usize::MAX,
        on_curve(n as nat, t),
    ensures
        is_behind(n as nat, t) <==> scaled(n as nat, t).0 == n,
        is_behind(n as nat, t) ==> {
            let u = scaled(n as nat, t).1;
            &&& u.magnitude() < INFINITE
            &&& u.value() == t.times(whole(n as nat)).value() - n * pow2(1074)
            &&& u.value() < pow2(1074)
        },
{
    let s = t.times(whole::<Float>(n as nat));
    let one: int = pow2(1074) as int;
    let f = s.floored();
    let (i, m): (int, int) = (f.whole_part() as int, n as int);
    lemma_pow2_pos(1074);
    law_where_a_path_can_be_sampled(n, t);
    assert(m * one > 0 && (m + 1) * one == m * one + one && (m + 1) * one <= usize::MAX * one)
        by (nonlinear_arith)
        requires
            1 <= m,
            m + 1 <= usize::MAX,
            one > 0,
    ;
    law_index_is_whole_part(f);
    if s.nan() || s.infinite() {
        reveal(Float::rounded_down);
        lemma_infinity_is_large();
    } else {
        law_floor_is_whole_below(s);
        lemma_fundamental_div_mod(f.value(), one);
        let w: int = f.value() / one;
        assert(one * w == w * one) by (nonlinear_arith);
        if f.value() > 0 {
            assert(i == w) by (nonlinear_arith)
                requires
                    i * one <= one * w < (i + 1) * one,
                    one > 0,
            ;
        }
        assert(w <= m - 1 ==> w * one + one <= m * one) by (nonlinear_arith)
            requires
                one > 0,
        ;
        assert(w >= m ==> w * one >= m * one) by (nonlinear_arith)
            requires
                one > 0,
        ;
        if s.value() >= m * one {
            let v: nat = units(s.magnitude());
            assert(!s.negative());
            lemma_rest_exact(s.magnitude());
            lemma_fundamental_div_mod_converse(v as int, one, m, v - m * one);
            reveal(Float::sum);
            reveal(Float::opposite);
            lemma_units_parts(0);
            lemma_round_zero(1);
        }
    }
}

/// Where a path has moment integrals: between any two parameters at which it can
/// be sampled, as long as no part of it behind the last curve is asked for. A
/// range that begins behind the last curve must end there too, and one that
/// ends behind it must end at its very end, or where it begins.
pub proof fn law_where_a_path_has_moments(n: usize, t0: Float, t1: Float)
    requires
        n < usize::MAX,
    ensures
        has_range(n as nat, t0, t1) == ({
            let (s0, s1) = (t0.times(whole(n as nat)), t1.times(whole(n as nat)));
            &&& on_curve(n as nat, t0)
            &&& on_curve(n as nat, t1)
            &&& is_behind(n as nat, t0) ==> is_behind(n as nat, t1) && s0.value() == s1.value()
            &&& !is_behind(n as nat, t0) && is_behind(n as nat, t1) ==> s1.value() == n * pow2(
                1074,
            )
        }),
{
    lemma_whole(0);
    lemma_whole(1);
    assert(0 * pow2(1074) == 0);
    assert(1 * pow2(1074) == pow2(1074));
    if on_curve(n as nat, t0) && on_curve(n as nat, t1) {
        lemma_behind(n, t0);
        lemma_behind(n, t1);
    }
}

/// Zero is the start of the first curve, one the end of the last.
pub proof fn law_ends_of_the_range(n: usize)
    requires
        0 < n <= exact_limit(),
    ensures
        placed(n as nat, whole::<Float>(0)) == (0nat, signed(false, 0)),
        placed(n as nat, whole::<Float>(1)) == ((n - 1) as nat, whole::<Float>(1)),
{
    let one: nat = pow2(1074);
    lemma_whole(0);
    lemma_whole(1);
    lemma_pow2_pos(1074);
    assert(0 * one == 0);
    assert(1 * one == one);
    lemma_scaled(n, whole(0));
    lemma_scaled(n, whole(1));
    lemma_times_whole(whole(0), n as nat);
    lemma_times_whole(whole(1), n as nat);
    lemma_round_zero(1);
    lemma_units_parts(0);
    assert(0 * n == 0);
    lemma_fundamental_div_mod_converse(0, one as int, 0, 0);
    reveal(Float::rounded_down);
    reveal(Float::sum);
    reveal(Float::opposite);
    assert(one * n == n * one) by (nonlinear_arith);
    lemma_whole_exact(n as nat);
    lemma_fundamental_div_mod_converse((n * one) as int, one as int, n as int, 0);
    let s = whole::<Float>(0).times(whole(n as nat));
    if whole::<Float>(0).magnitude() > 0 {
        lemma_units_increase(0, whole::<Float>(0).magnitude());
    }
    assert(s == signed(false, 0));
    assert(0int / (one as int) == 0);
}

/// Whether a number is finite, and its quadruple too.
pub open spec fn is_moderate(x: Float) -> bool {
    x.magnitude() + 2 * HIDDEN < INFINITE
}

/// Whether all coordinates of a curve are moderate.
pub open spec fn is_moderate_curve(c: CubicBez) -> bool {
    &&& is_moderate(c.p0.x) && is_moderate(c.p0.y)
    &&& is_moderate(c.p1.x) && is_moderate(c.p1.y)
    &&& is_moderate(c.p2.x) && is_moderate(c.p2.y)
    &&& is_moderate(c.p3.x) && is_moderate(c.p3.y)
}

proof fn lemma_times_one(x: Float)
    requires
        x.magnitude() < INFINITE,
    ensures
        x.times(whole(1)) == x,
{
    lemma_times_whole(x, 1);
    lemma_round_exact(x.magnitude());
    assert(units(x.magnitude()) * 1 == units(x.magnitude()));
}

proof fn lemma_times_three(x: Float)
    requires
        is_moderate(x),
    ensures
        x.times(whole(3)).magnitude() < INFINITE,
{
    let b: nat = x.magnitude();
    let c: nat = b + 2 * HIDDEN as nat;
    lemma_times_whole(x, 3);
    lemma_units_parts(b);
    lemma_units_parts(c);
    lemma2_to64();
    assert(c / HIDDEN as nat == b / HIDDEN as nat + 2);
    assert(c % HIDDEN as nat == b % HIDDEN as nat);
    assert(units(b) * 3 <= units(c)) by {
        if b < HIDDEN {
            assert((b + HIDDEN) * pow2(1) >= 3 * b) by (nonlinear_arith)
                requires
                    pow2(1) == 2,
                    b < HIDDEN,
            ;
        } else {
            let k: nat = (b / HIDDEN as nat - 1) as nat;
            let sig: nat = b % HIDDEN as nat + HIDDEN as nat;
            lemma_pow2_adds(2, k);
            assert(sig * pow2((k + 2) as nat) == 4 * (sig * pow2(k))) by (nonlinear_arith)
                requires
                    pow2((k + 2) as nat) == 4 * pow2(k),
            ;
        }
    }
    law_rounding_keeps_order(units(b) * 3, units(c), 1);
    lemma_round_exact(c);
}

proof fn lemma_times_zero(x: Float, z: Float)
    requires
        x.magnitude() < INFINITE,
        z.magnitude() == 0,
    ensures
        x.times(z).magnitude() == 0,
        z.times(x).magnitude() == 0,
{
    reveal(Float::product);
    lemma_units_parts(0);
    lemma_pow2_pos(1074);
    assert(units(x.magnitude()) * 0 == 0);
    assert(0 * units(x.magnitude()) == 0);
    lemma_round_zero(pow2(1074));
}

proof fn lemma_plus_zero(x: Float, z: Float)
    requires
        x.magnitude() < INFINITE,
        z.magnitude() == 0,
    ensures
        x.plus(z).magnitude() == x.magnitude(),
        x.plus(z).value() == x.value(),
        z.plus(x).magnitude() == x.magnitude(),
        z.plus(x).value() == x.value(),
{
    reveal(Float::sum);
    lemma_units_parts(0);
    lemma_round_exact(x.magnitude());
    if x.magnitude() > 0 {
        lemma_units_increase(0, x.magnitude());
    }
}

/// At zero a cubic is at its first control value.
proof fn lemma_cubic_at_zero(a: Float, b: Float, c: Float, d: Float)
    requires
        is_moderate(a),
        is_moderate(b),
        is_moderate(c),
        is_moderate(d),
    ensures
        cubic_at(a, b, c, d, signed(false, 0)).same(a),
{
    let t = signed(false, 0);
    let one = whole::<Float>(1);
    let mt = one.minus(t);
    lemma_whole(1);
    lemma_pow2_pos(1074);
    assert(1 * pow2(1074) == pow2(1074));
    assert(mt == one) by {
        reveal(Float::sum);
        reveal(Float::opposite);
        lemma_units_parts(0);
        lemma_round_exact(one.magnitude());
    }
    lemma_times_one(one);
    lemma_times_one(a);
    assert(one.times(whole(3)) == whole::<Float>(3)) by {
        reveal(closest);
        lemma_times_whole(one, 3);
        assert(pow2(1074) * 3 == 3 * pow2(1074));
    }
    lemma_times_three(b);
    lemma_times_three(c);
    let c3 = c.times(whole(3));
    lemma_times_zero(d, t);
    lemma_plus_zero(c3, d.times(t));
    let inner = c3.plus(d.times(t));
    lemma_times_zero(inner, t);
    let b3 = b.times(whole(3));
    lemma_plus_zero(b3, inner.times(t));
    let outer = b3.plus(inner.times(t));
    lemma_times_zero(outer, t);
    lemma_plus_zero(a, outer.times(t));
}

/// At one a cubic is at its last control value.
proof fn lemma_cubic_at_one(a: Float, b: Float, c: Float, d: Float)
    requires
        is_moderate(a),
        is_moderate(b),
        is_moderate(c),
        is_moderate(d),
    ensures
        cubic_at(a, b, c, d, whole(1)).same(d),
{
    let one = whole::<Float>(1);
    let mt = one.minus(one);
    lemma_whole(1);
    lemma_whole(3);
    assert(mt == signed(false, 0)) by {
        reveal(Float::sum);
        reveal(Float::opposite);
    }
    lemma_times_zero(mt, mt);
    lemma_times_zero(mt, mt.times(mt));
    lemma_times_zero(whole(3), mt);
    lemma_times_zero(whole(3), mt.times(mt));
    lemma_times_zero(a, mt.times(mt).times(mt));
    lemma_times_zero(b, mt.times(mt).times(whole(3)));
    lemma_times_zero(c, mt.times(whole(3)));
    lemma_times_one(d);
    let cz = c.times(mt.times(whole(3)));
    lemma_plus_zero(d, cz);
    let inner = cz.plus(d.times(one));
    lemma_times_one(inner);
    let bz = b.times(mt.times(mt).times(whole(3)));
    lemma_plus_zero(inner, bz);
    let outer = bz.plus(inner.times(one));
    lemma_times_one(outer);
    lemma_plus_zero(outer, a.times(mt.times(mt).times(mt)));
}

/// The prepared path begins where its first curve does, and ends where its last
/// curve does, as long as the coordinates are not so large that tripling them
/// overflows.
pub proof fn law_path_meets_its_ends(path: Prepared<Float>)
    requires
        0 < path.els.len() <= exact_limit(),
        path.els.len() <= usize::MAX,
        is_moderate_curve(path.els[0].c),
        is_moderate_curve(path.els.last().c),
    ensures
        path_point(path, whole(0)).same(path.els[0].c.p0),
        path_point(path, whole(1)).same(path.els.last().c.p3),
{
    law_ends_of_the_range(path.els.len() as usize);
    let c = path.els[0].c;
    lemma_cubic_at_zero(c.p0.x, c.p1.x, c.p2.x, c.p3.x);
    lemma_cubic_at_zero(c.p0.y, c.p1.y, c.p2.y, c.p3.y);
    let e = path.els.last().c;
    lemma_cubic_at_one(e.p0.x, e.p1.x, e.p2.x, e.p3.x);
    lemma_cubic_at_one(e.p0.y, e.p1.y, e.p2.y, e.p3.y);
}

}
