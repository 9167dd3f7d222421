//! Laws of the corners where the coordinates are round enough for nothing to be
//! rounded: a join is a corner if it turns by more than the threshold.

use crate::arith::Arith;
use crate::bounded::size;
use crate::corners::{lemma_product_value, lemma_units_ordered, lemma_zero};
use crate::float::{closest, Float};
use crate::geom::{cross, dot, from_to, Point, Vec2};
use crate::parameter::{lemma_exact, lemma_infinity_is_large};
use crate::path::{direction, shortest_direction, PathSeg};
use crate::rounding::{
    law_rounding_keeps_order, lemma_round_exact, lemma_round_expand, lemma_round_zero,
    lemma_rounding_error, lemma_units_increase, lemma_units_parts, round_bits, units, HIDDEN,
    INFINITE,
};
use crate::simplify::{is_corner, turns};
use vstd::arithmetic::power2::{lemma2_to64, lemma_pow2_adds, lemma_pow2_pos, pow2};
use vstd::prelude::*;

verus! {

/// Whether `x` is `n` times two to the `k`, in units of two to the -1074.
pub open spec fn is_grid(x: Float, n: int, k: nat) -> bool {
    x.magnitude() < INFINITE && x.value() == n * pow2(k)
}

/// The size of a product.
proof fn lemma_size_times(n: int, m: int, p: nat)
    ensures
        size(n * p) == size(n) * p,
        size(n * m) == size(n) * size(m),
{
    assert((-n) * p == -(n * p)) by (nonlinear_arith);
    assert(n >= 0 ==> n * p >= 0) by (nonlinear_arith);
    assert(n < 0 ==> n * p <= 0) by (nonlinear_arith);
    assert((-n) * m == -(n * m) && n * (-m) == -(n * m) && (-n) * (-m) == n * m)
        by (nonlinear_arith);
    assert(n >= 0 && m >= 0 ==> n * m >= 0) by (nonlinear_arith);
    assert(n < 0 && m < 0 ==> n * m >= 0) by (nonlinear_arith);
    assert(n >= 0 && m < 0 ==> n * m <= 0) by (nonlinear_arith);
    assert(n < 0 && m >= 0 ==> n * m <= 0) by (nonlinear_arith);
}

/// The sign of a multiple.
proof fn lemma_sign_times(n: int, p: nat)
    requires
        p > 0,
    ensures
        n > 0 <==> n * p > 0,
        n == 0 <==> n * p == 0,
        n < 0 <==> n * p < 0,
{
    assert(n > 0 ==> n * p > 0) by (nonlinear_arith)
        requires
            p > 0,
    ;
    assert(n < 0 ==> n * p < 0) by (nonlinear_arith)
        requires
            p > 0,
    ;
    assert(n == 0 ==> n * p == 0);
}

/// The product of numbers with few digits is exact.
proof fn lemma_grid_product(x: Float, y: Float, n: int, m: int, k: nat, l: nat)
    requires
        is_grid(x, n, k),
        is_grid(y, m, l),
        -0x400_0000 < n < 0x400_0000,
        -0x400_0000 < m < 0x400_0000,
        1074 <= k + l <= 2148,
    ensures
        is_grid(x.times(y), n * m, (k + l - 1074) as nat),
{
    let z: nat = (k + l - 1074) as nat;
    let one: nat = pow2(1074);
    lemma_pow2_pos(1074);
    lemma_pow2_pos(z);
    lemma_product_value(x, y);
    let exact: int = x.value() * y.value();
    let nm: int = n * m;
    lemma_pow2_adds(k, l);
    lemma_pow2_adds(z, 1074);
    let (a, b, p): (nat, nat, nat) = (pow2(k), pow2(l), pow2(z));
    assert(exact == (nm * p) * one) by (nonlinear_arith)
        requires
            exact == (n * a) * (m * b),
            nm == n * m,
            a * b == p * one,
    ;
    lemma_size_times(nm * p, 0, one);
    lemma_size_times(nm, 0, p);
    lemma_size_times(n, m, 1);
    let q: nat = size(nm) as nat;
    assert(q < 0x10_0000_0000_0000) by (nonlinear_arith)
        requires
            q == size(n) * size(m),
            0 <= size(n) < 0x400_0000,
            0 <= size(m) < 0x400_0000,
    ;
    lemma_exact(q, z);
    lemma_round_expand(q * p, 1, one);
    assert(1 * one == one);
    lemma_sign_times(nm * p, one);
    lemma_sign_times(nm, p);
}

/// The sum of numbers with few digits is exact.
proof fn lemma_grid_sum(x: Float, y: Float, n: int, m: int, z: nat)
    requires
        is_grid(x, n, z),
        is_grid(y, m, z),
        -0x10_0000_0000_0000 < n < 0x10_0000_0000_0000,
        -0x10_0000_0000_0000 < m < 0x10_0000_0000_0000,
        z <= 1074,
    ensures
        is_grid(x.plus(y), n + m, z),
        is_grid(x.minus(y), n - m, z),
{
    reveal(Float::sum);
    reveal(Float::opposite);
    lemma_units_parts(0);
    let p: nat = pow2(z);
    lemma_pow2_pos(z);
    assert(n * p + m * p == (n + m) * p) by (nonlinear_arith);
    assert(n * p - m * p == (n - m) * p) by (nonlinear_arith);
    lemma_size_times(n + m, 0, p);
    lemma_size_times(n - m, 0, p);
    lemma_sign_times(n + m, p);
    lemma_sign_times(n - m, p);
    lemma_exact(size(n + m) as nat, z);
    lemma_exact(size(n - m) as nat, z);
}

/// Dot and cross product of directions with few digits are exact.
proof fn lemma_grid_products(u: Vec2, v: Vec2, a: int, b: int, c: int, d: int, k: nat, l: nat)
    requires
        is_grid(u.x, a, k),
        is_grid(u.y, b, k),
        is_grid(v.x, c, l),
        is_grid(v.y, d, l),
        -0x200_0000 < a < 0x200_0000,
        -0x200_0000 < b < 0x200_0000,
        -0x200_0000 < c < 0x200_0000,
        -0x200_0000 < d < 0x200_0000,
        1074 <= k + l <= 2148,
    ensures
        is_grid(dot(u, v), a * c + b * d, (k + l - 1074) as nat),
        is_grid(cross(u, v), a * d - b * c, (k + l - 1074) as nat),
        size(a * d - b * c) < 0x8_0000_0000_0000,
        size(a * c + b * d) < 0x8_0000_0000_0000,
{
    let z: nat = (k + l - 1074) as nat;
    lemma_grid_product(u.x, v.x, a, c, k, l);
    lemma_grid_product(u.y, v.y, b, d, k, l);
    lemma_grid_product(u.x, v.y, a, d, k, l);
    lemma_grid_product(u.y, v.x, b, c, k, l);
    lemma_small(a, c);
    lemma_small(b, d);
    lemma_small(a, d);
    lemma_small(b, c);
    lemma_grid_sum(u.x.times(v.x), u.y.times(v.y), a * c, b * d, z);
    lemma_grid_sum(u.x.times(v.y), u.y.times(v.x), a * d, b * c, z);
}

proof fn lemma_small(n: int, m: int)
    requires
        -0x200_0000 < n < 0x200_0000,
        -0x200_0000 < m < 0x200_0000,
    ensures
        -0x4_0000_0000_0000 < n * m < 0x4_0000_0000_0000,
{
    assert(-0x4_0000_0000_0000 < n * m < 0x4_0000_0000_0000) by (nonlinear_arith)
        requires
            -0x200_0000 < n < 0x200_0000,
            -0x200_0000 < m < 0x200_0000,
    ;
}

/// Whether a turn from `(a, b)` to `(c, d)` is not above a threshold of `t`
/// units: it goes forward, and its cross product is not larger than its dot
/// product times the threshold.
pub open spec fn turns_little(a: int, b: int, c: int, d: int, t: int) -> bool {
    &&& a * c + b * d > 0
    &&& size(a * d - b * c) * pow2(1074) <= (a * c + b * d) * t
}

/// Whether the turn is above the threshold by more than rounding their product
/// can hide: two to the -53 of it, and half the smallest number. `p` is the
/// scale of the products.
pub open spec fn turns_much(a: int, b: int, c: int, d: int, t: int, p: nat) -> bool {
    ||| a * c + b * d <= 0
    ||| (2 * HIDDEN - 1) * (size(a * d - b * c) * p * pow2(1074)) > 2 * HIDDEN * ((a * c + b * d)
        * p * t) + HIDDEN * pow2(1074)
}

/// A turn that is not above the threshold is no corner, and one that is above it
/// is one. The coordinates of the directions have few digits, so that the
/// products are exact; the threshold is any that is not negative.
pub proof fn law_turn_by_threshold(
    u: Vec2,
    v: Vec2,
    thresh: Float,
    a: int,
    b: int,
    c: int,
    d: int,
    k: nat,
    l: nat,
)
    requires
        is_grid(u.x, a, k),
        is_grid(u.y, b, k),
        is_grid(v.x, c, l),
        is_grid(v.y, d, l),
        -0x200_0000 < a < 0x200_0000,
        -0x200_0000 < b < 0x200_0000,
        -0x200_0000 < c < 0x200_0000,
        -0x200_0000 < d < 0x200_0000,
        1074 <= k + l <= 2148,
        thresh.magnitude() < INFINITE,
        thresh.value() >= 0,
    ensures
        turns_little(a, b, c, d, thresh.value()) ==> !turns(u, v, thresh),
        turns_much(a, b, c, d, thresh.value(), pow2((k + l - 1074) as nat)) ==> turns(u, v, thresh),
{
    let z: nat = (k + l - 1074) as nat;
    let (one, p): (nat, nat) = (pow2(1074), pow2(z));
    lemma_pow2_pos(1074);
    lemma_pow2_pos(z);
    lemma_grid_products(u, v, a, b, c, d, k, l);
    lemma_zero();
    let (n, m): (int, int) = (a * c + b * d, a * d - b * c);
    let (e, f) = (dot(u, v), cross(u, v));
    lemma_sign_times(n, p);
    reveal(Float::absolute);
    lemma_size_times(m, 0, p);
    let w: nat = size(m) as nat * p;
    assert(f.absolute().value() == w);
    if n > 0 {
        let t: int = thresh.value();
        lemma_product_value(e, thresh);
        let g: int = (n * p) * t;
        assert(g >= 0) by (nonlinear_arith)
            requires
                g == (n * p) * t,
                n * p > 0,
                t >= 0,
        ;
        let q: nat = round_bits(g as nat, one);
        let prod = e.times(thresh);
        lemma_exact(size(m) as nat, z);
        let bits: nat = round_bits(w, 1);
        lemma_round_expand(w, 1, one);
        assert(1 * one == one);
        lemma_units_parts(0);
        lemma_round_zero(one);
        assert(prod.value() == units(q));
        if turns_little(a, b, c, d, t) {
            assert(w * one <= g) by (nonlinear_arith)
                requires
                    w == size(m) * p,
                    g == (n * p) * t,
                    size(m) * one <= n * t,
            ;
            law_rounding_keeps_order(w * one, g as nat, one);
            lemma_units_ordered(bits, q);
        }
        if turns_much(a, b, c, d, t, p) {
            let big: int = (w * one) as int;
            assert(big > g) by (nonlinear_arith)
                requires
                    (2 * HIDDEN - 1) * big > 2 * HIDDEN * g + HIDDEN * one,
                    g >= 0,
                    one > 0,
            ;
            law_rounding_keeps_order(g as nat, w * one, one);
            if q == bits {
                lemma_rounding_error(g as nat, one);
                assert(units(q) * one == big);
                assert(one * units(q) == big) by (nonlinear_arith)
                    requires
                        units(q) * one == big,
                ;
                assert(false) by (nonlinear_arith)
                    requires
                        2 * HIDDEN * (big - g) <= big + one * HIDDEN,
                        (2 * HIDDEN - 1) * big > 2 * HIDDEN * g + HIDDEN * one,
                ;
            }
            lemma_units_increase(q, bits);
        }
    }
}

/// Going straight on is no corner, whatever the direction, as long as the square
/// of its length is neither too small nor too large for a number.
pub proof fn law_straight_on_is_smooth(u: Vec2, thresh: Float)
    requires
        dot(u, u).value() > 0,
        dot(u, u).magnitude() < INFINITE,
        !thresh.nan(),
        thresh.value() >= 0,
    ensures
        !turns(u, u, thresh),
{
    lemma_zero();
    reveal(Float::product);
    reveal(Float::sum);
    reveal(Float::opposite);
    reveal(Float::absolute);
    lemma_units_parts(0);
    let (m, n): (nat, nat) = (units(u.x.magnitude()), units(u.y.magnitude()));
    assert(m * n == n * m) by (nonlinear_arith);
    assert(u.x.times(u.y) == u.y.times(u.x));
    let f = cross(u, u);
    assert(f.nan() || f.value() == 0);
    let e = dot(u, u);
    if thresh.magnitude() < INFINITE {
        lemma_product_value(e, thresh);
        assert(e.value() * thresh.value() >= 0) by (nonlinear_arith)
            requires
                e.value() > 0,
                thresh.value() >= 0,
        ;
    }
}

/// Where a direction is not made of numbers there is no corner, nor where the
/// threshold is not a number and the turn is less than a right angle.
pub proof fn law_undefined_turn_is_smooth(u: Vec2, v: Vec2, thresh: Float)
    requires
        u.x.nan() || u.y.nan() || v.x.nan() || v.y.nan() || (thresh.nan() && dot(u, v).value() > 0),
    ensures
        !turns(u, v, thresh),
{
    lemma_zero();
    reveal(Float::product);
    reveal(Float::sum);
}

/// A vector gives a direction if the square of its length, as rounded, is above
/// a millionth of a millionth; else the other is taken. The number nearest to
/// that fraction does not count as above.
pub proof fn law_direction_needs_length(u: Vec2, v: Vec2)
    ensures
        ({
            let (w, d): (Float, int) = (dot(u, u), 1_000_000_000_000);
            &&& w.nan() || w.value() * d <= pow2(1074) ==> direction(u, v) == v
            &&& !w.nan() && w.value() * d > pow2(1074) && w.value()
                != shortest_direction().value() ==> direction(u, v) == u
        }),
{
    reveal(closest);
    let one: nat = pow2(1074);
    let d: nat = 1_000_000_000_000;
    let w = dot(u, u);
    lemma_shortest();
    lemma_pow2_pos(1074);
    let (a, b): (nat, nat) = (round_bits(1 * one, d), w.magnitude());
    assert(1 * one == one && 1 * d == d);
    if !w.nan() && w.value() >= 0 {
        let n: nat = units(b);
        lemma_units_parts(0);
        if w.negative() && b > 0 {
            lemma_units_increase(0, b);
        }
        assert(w.value() == n);
        if b < INFINITE {
            lemma_round_exact(b);
            lemma_round_expand(n, 1, d);
            if n * d <= one {
                law_rounding_keeps_order(n * d, one, d);
                lemma_units_ordered(b, a);
            } else {
                law_rounding_keeps_order(one, n * d, d);
                lemma_units_ordered(a, b);
            }
        } else {
            lemma_units_ordered(a, b);
            lemma_infinity_is_large();
            assert(n * d > one) by (nonlinear_arith)
                requires
                    n >= usize::MAX * one,
                    one > 0,
                    d == 1_000_000_000_000,
                    usize::MAX >= 2,
            ;
        }
    } else if !w.nan() {
        assert(w.value() * (d as int) <= 0) by (nonlinear_arith)
            requires
                w.value() < 0,
        ;
    }
}

/// Whether a point has the whole coordinates `xy`, with few digits.
pub open spec fn is_at(p: Point, xy: (int, int)) -> bool {
    &&& is_grid(p.x, xy.0, 1074)
    &&& is_grid(p.y, xy.1, 1074)
    &&& -0x100_0000 < xy.0 < 0x100_0000
    &&& -0x100_0000 < xy.1 < 0x100_0000
}

/// Whether the points of a segment, its control points included, have the given
/// whole coordinates.
pub open spec fn has_points(seg: PathSeg, pts: Seq<(int, int)>) -> bool {
    match seg {
        PathSeg::Line(l) => {
            &&& pts.len() == 2
            &&& is_at(l.p0, pts[0])
            &&& is_at(l.p1, pts[1])
        },
        PathSeg::Quad(q) => {
            &&& pts.len() == 3
            &&& is_at(q.p0, pts[0])
            &&& is_at(q.p1, pts[1])
            &&& is_at(q.p2, pts[2])
        },
        PathSeg::Cubic(c) => {
            &&& pts.len() == 4
            &&& is_at(c.p0, pts[0])
            &&& is_at(c.p1, pts[1])
            &&& is_at(c.p2, pts[2])
            &&& is_at(c.p3, pts[3])
        },
    }
}

/// The step from `p` to `q`.
pub open spec fn step_between(p: (int, int), q: (int, int)) -> (int, int) {
    (q.0 - p.0, q.1 - p.1)
}

/// The direction in which a segment with these points leaves: the step from the
/// first point to the first of the others that differs from it.
pub open spec fn departure(pts: Seq<(int, int)>, j: nat) -> (int, int)
    decreases pts.len() - j,
{
    if j >= pts.len() {
        (0, 0)
    } else if pts[j as int] != pts[0] {
        step_between(pts[0], pts[j as int])
    } else {
        departure(pts, j + 1)
    }
}

/// The direction in which a segment with these points arrives: the step to the
/// last point from the last of the others that differs from it.
pub open spec fn arrival(pts: Seq<(int, int)>, j: nat) -> (int, int)
    decreases j,
{
    if j == 0 {
        (0, 0)
    } else if pts[j - 1] != pts.last() {
        step_between(pts[j - 1], pts.last())
    } else {
        arrival(pts, (j - 1) as nat)
    }
}

/// The shortest length that gives a direction is less than one.
proof fn lemma_shortest()
    ensures
        0 <= shortest_direction().value() < pow2(1074),
        !shortest_direction().nan(),
{
    reveal(closest);
    let one: nat = pow2(1074);
    let half: nat = pow2(1073);
    lemma_pow2_pos(1073);
    lemma_pow2_adds(1, 1073);
    lemma2_to64();
    let d: nat = 1_000_000_000_000;
    assert(1 * one <= half * d) by (nonlinear_arith)
        requires
            one == 2 * half,
            d == 1_000_000_000_000,
    ;
    law_rounding_keeps_order(1 * one, half * d, d);
    lemma_round_expand(half, 1, d);
    assert(1 * d == d);
    lemma_exact(1, 1073);
    assert(1 * half == half);
    let a: nat = round_bits(1 * one, d);
    lemma_units_ordered(a, round_bits(half, 1));
}

/// A step between points with whole coordinates gives a direction exactly if it
/// is one.
proof fn lemma_step(p: Point, q: Point, a: (int, int), b: (int, int))
    requires
        is_at(p, a),
        is_at(q, b),
    ensures
        ({
            let v = from_to(p, q);
            let s = step_between(a, b);
            &&& is_grid(v.x, s.0, 1074)
            &&& is_grid(v.y, s.1, 1074)
            &&& -0x200_0000 < s.0 < 0x200_0000
            &&& -0x200_0000 < s.1 < 0x200_0000
            &&& dot(v, v).gt(shortest_direction()) <==> a != b
        }),
{
    let v = from_to(p, q);
    let s = step_between(a, b);
    lemma_grid_sum(q.x, p.x, b.0, a.0, 1074);
    lemma_grid_sum(q.y, p.y, b.1, a.1, 1074);
    lemma_grid_products(v, v, s.0, s.1, s.0, s.1, 1074, 1074);
    lemma_shortest();
    let n: int = s.0 * s.0 + s.1 * s.1;
    let one: nat = pow2(1074);
    lemma_pow2_pos(1074);
    assert(s.0 * s.0 >= 0 && s.1 * s.1 >= 0) by (nonlinear_arith);
    assert(s.0 != 0 ==> s.0 * s.0 >= 1) by (nonlinear_arith);
    assert(s.1 != 0 ==> s.1 * s.1 >= 1) by (nonlinear_arith);
    if a == b {
        assert(s.0 * s.0 == 0 && s.1 * s.1 == 0) by (nonlinear_arith)
            requires
                s.0 == 0,
                s.1 == 0,
        ;
        assert(0 * one == 0);
    } else {
        assert(n * one >= one) by (nonlinear_arith)
            requires
                n >= 1,
                one > 0,
        ;
    }
}

/// A segment leaves towards the first of its points that is not its first, and
/// arrives from the last that is not its last.
pub proof fn law_directions_of_a_segment(seg: PathSeg, pts: Seq<(int, int)>)
    requires
        has_points(seg, pts),
    ensures
        ({
            let (u, v) = seg.end_directions();
            let (d, a) = (departure(pts, 1), arrival(pts, (pts.len() - 1) as nat));
            &&& is_grid(u.x, d.0, 1074) && is_grid(u.y, d.1, 1074)
            &&& is_grid(v.x, a.0, 1074) && is_grid(v.y, a.1, 1074)
            &&& -0x200_0000 < d.0 < 0x200_0000 && -0x200_0000 < d.1 < 0x200_0000
            &&& -0x200_0000 < a.0 < 0x200_0000 && -0x200_0000 < a.1 < 0x200_0000
        }),
{
    reveal_with_fuel(departure, 5);
    reveal_with_fuel(arrival, 5);
    match seg {
        PathSeg::Line(l) => {
            lemma_step(l.p0, l.p1, pts[0], pts[1]);
        },
        PathSeg::Quad(q) => {
            lemma_step(q.p0, q.p1, pts[0], pts[1]);
            lemma_step(q.p1, q.p2, pts[1], pts[2]);
            lemma_step(q.p0, q.p2, pts[0], pts[2]);
        },
        PathSeg::Cubic(c) => {
            lemma_step(c.p0, c.p1, pts[0], pts[1]);
            lemma_step(c.p0, c.p2, pts[0], pts[2]);
            lemma_step(c.p0, c.p3, pts[0], pts[3]);
            lemma_step(c.p2, c.p3, pts[2], pts[3]);
            lemma_step(c.p1, c.p3, pts[1], pts[3]);
        },
    }
}

/// Two segments meet at a corner if the second leaves in a direction that turns
/// from that in which the first arrives by more than the threshold, and not if
/// it does not.
pub proof fn law_corner_of_segments(
    last: PathSeg,
    this: PathSeg,
    thresh: Float,
    p: Seq<(int, int)>,
    q: Seq<(int, int)>,
)
    requires
        has_points(last, p),
        has_points(this, q),
        thresh.magnitude() < INFINITE,
        thresh.value() >= 0,
    ensures
        ({
            let (a, d) = (arrival(p, (p.len() - 1) as nat), departure(q, 1));
            let t = thresh.value();
            &&& turns_little(a.0, a.1, d.0, d.1, t) ==> !is_corner(last, this, thresh)
            &&& turns_much(a.0, a.1, d.0, d.1, t, pow2(1074)) ==> is_corner(last, this, thresh)
        }),
{
    law_directions_of_a_segment(last, p);
    law_directions_of_a_segment(this, q);
    let (a, d) = (arrival(p, (p.len() - 1) as nat), departure(q, 1));
    law_turn_by_threshold(
        last.end_directions().1,
        this.end_directions().0,
        thresh,
        a.0,
        a.1,
        d.0,
        d.1,
        1074,
        1074,
    );
}

}
