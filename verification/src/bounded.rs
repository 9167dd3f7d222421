//! Laws of precision: how far rounded moments lie from the unrounded ones.

use crate::arith::{whole, Arith};
use crate::corners::lemma_product_value;
use crate::curve::{
    curves_start, moments_difference, moments_sum, no_moments, part_moments, placed, prepared,
    range_moments, running_moments, scaled, shifted_moments, stretch_moments, stretch_moments_from,
};
use crate::definite::{lemma_cancel, lemma_quotient};
use crate::float::{closest, Float};
use crate::geom::{cubic_part, cubic_point, cubic_velocity, from_to, CubicBez, Point, Vec2};
use crate::moments::{area_form, moments_of, translated, x_form, y_form};
use crate::parameter::{
    exact_limit, law_parameter_is_split, lemma_split_end, lemma_split_ordered, lemma_whole,
};
use crate::polynomial::{advance, distribute, lemma_constants, regroup, spread2, swap};
use crate::rounding::{
    distance, lemma_round_zero, lemma_rounding_error, lemma_units_parts, round_bits, units, HIDDEN,
    INFINITE,
};
use crate::stretches::{carried, lemma_no_extent};
use vstd::arithmetic::power2::{lemma_pow2_pos, pow2};
use vstd::prelude::*;

verus! {

/// The size of a whole number.
pub open spec fn size(n: int) -> int {
    if n < 0 {
        -n
    } else {
        n
    }
}

/// The size of a number.
pub open spec fn extent(x: real) -> real {
    if x < 0real {
        0real - x
    } else {
        x
    }
}

/// One, in units of two to the -1074.
pub open spec fn unity() -> real {
    pow2(1074) as real
}

/// The number that a finite floating-point number stands for.
pub open spec fn number(x: Float) -> real {
    x.value() as real / unity()
}

/// How far rounding may have missed, by its result: two to the -53 of it, and
/// half the smallest number.
pub open spec fn slack(x: Float) -> real {
    (size(x.value()) + HIDDEN) as real / (9007199254740992real * unity())
}

/// A rounded number, the number that it stands for, and a bound on how far they
/// lie apart, which holds as long as nothing has overflowed. Formulas are read
/// over such triples: each step adds its own rounding to the bound.
pub struct Bounded {
    pub rounded: Float,
    pub exact: real,
    pub error: real,
    pub finite: bool,
}

impl Bounded {
    /// Whether the bound holds.
    pub open spec fn sound(self) -> bool {
        &&& self.error >= 0real
        &&& self.finite ==> {
            &&& self.rounded.magnitude() < INFINITE
            &&& extent(number(self.rounded) - self.exact) <= self.error
        }
    }
}

impl Arith for Bounded {
    open spec fn plus(self, other: Bounded) -> Bounded {
        let r = self.rounded.plus(other.rounded);
        Bounded {
            rounded: r,
            exact: self.exact + other.exact,
            error: self.error + other.error + slack(r),
            finite: self.finite && other.finite && r.magnitude() < INFINITE,
        }
    }

    open spec fn minus(self, other: Bounded) -> Bounded {
        let r = self.rounded.minus(other.rounded);
        Bounded {
            rounded: r,
            exact: self.exact - other.exact,
            error: self.error + other.error + slack(r),
            finite: self.finite && other.finite && r.magnitude() < INFINITE,
        }
    }

    open spec fn times(self, other: Bounded) -> Bounded {
        let r = self.rounded.times(other.rounded);
        Bounded {
            rounded: r,
            exact: self.exact * other.exact,
            error: extent(number(self.rounded)) * other.error + extent(number(other.rounded))
                * self.error + self.error * other.error + slack(r),
            finite: self.finite && other.finite && r.magnitude() < INFINITE,
        }
    }

    open spec fn negated(self) -> Bounded {
        Bounded { rounded: self.rounded.negated(), exact: 0real - self.exact, ..self }
    }

    open spec fn equals(self, other: Bounded) -> bool {
        self.rounded.equals(other.rounded)
    }

    open spec fn ratio(n: nat, d: nat) -> Bounded {
        let r = Float::ratio(n, d);
        Bounded {
            rounded: r,
            exact: real::ratio(n, d),
            error: slack(r),
            finite: d > 0 && r.magnitude() < INFINITE,
        }
    }

    open spec fn floored(self) -> Bounded {
        Bounded {
            rounded: self.rounded.floored(),
            exact: self.exact.floored(),
            error: 0real,
            finite: false,
        }
    }

    open spec fn whole_part(self) -> nat {
        self.rounded.whole_part()
    }
}

pub(crate) proof fn lemma_unity()
    ensures
        unity() > 0real,
        9007199254740992real * unity() > 0real,
{
    lemma_pow2_pos(1074);
}

proof fn lemma_within(x: real, y: real, w: real)
    requires
        w > 0real,
        w * x <= y,
    ensures
        x <= y / w,
{
    let z = y / w;
    lemma_quotient(y, w);
    assert(x <= z) by (nonlinear_arith)
        requires
            w > 0real,
            w * x <= y,
            w * z == y,
    ;
}

pub(crate) proof fn lemma_slack(x: Float)
    ensures
        (9007199254740992real * unity()) * slack(x) == (size(x.value()) + HIDDEN) as real,
        slack(x) >= 0real,
{
    lemma_unity();
    let w = 9007199254740992real * unity();
    let y = (size(x.value()) + HIDDEN) as real;
    lemma_quotient(y, w);
    assert(w * 0real == 0real);
    lemma_within(0real, y, w);
}

/// What a whole number, cast, stands for.
pub(crate) proof fn lemma_number(x: Float)
    ensures
        unity() * number(x) == x.value() as real,
{
    lemma_unity();
    lemma_quotient(x.value() as real, unity());
}

proof fn lemma_many(n: int)
    ensures
        9007199254740992real * (n as real) == (0x20_0000_0000_0000 * n) as real,
{
}

/// The rounding of a sum.
proof fn lemma_sum_error(a: Float, b: Float)
    requires
        a.magnitude() < INFINITE,
        b.magnitude() < INFINITE,
        a.plus(b).magnitude() < INFINITE,
    ensures
        extent(number(a.plus(b)) - (number(a) + number(b))) <= slack(a.plus(b)),
{
    reveal(Float::sum);
    let exact: int = a.value() + b.value();
    let c = a.plus(b);
    let r: int = c.value();
    lemma_units_parts(0);
    assert(0x20_0000_0000_0000 * size(r - exact) <= size(r) + HIDDEN) by {
        if exact != 0 {
            let m: nat = size(exact) as nat;
            lemma_rounding_error(m, 1);
            let u: nat = units(round_bits(m, 1));
            assert(u * 1 == u && 1 * u == u);
        }
    }
    let s = unity();
    lemma_unity();
    lemma_number(a);
    lemma_number(b);
    lemma_number(c);
    let x = number(c) - (number(a) + number(b));
    distribute(s, number(c), number(a) + number(b));
    distribute(s, number(a), number(b));
    assert(s * x == (r - exact) as real);
    lemma_sized(s, x, r - exact);
    let w = 9007199254740992real * s;
    regroup(9007199254740992real, s, extent(x));
    lemma_many(size(r - exact));
    lemma_within(extent(x), (size(r) + HIDDEN) as real, w);
}

/// The size of a number, in units.
proof fn lemma_sized(s: real, x: real, n: int)
    requires
        s > 0real,
        s * x == n as real,
    ensures
        s * extent(x) == size(n) as real,
{
    assert(s * 0real == 0real);
    if x < 0real {
        distribute(s, 0real, x);
        assert(s * x <= 0real) by (nonlinear_arith)
            requires
                s > 0real,
                x < 0real,
        ;
    } else {
        assert(s * x >= 0real) by (nonlinear_arith)
            requires
                s > 0real,
                x >= 0real,
        ;
    }
}

/// The rounding of a product.
pub(crate) proof fn lemma_product_error(a: Float, b: Float)
    requires
        a.magnitude() < INFINITE,
        b.magnitude() < INFINITE,
        a.times(b).magnitude() < INFINITE,
    ensures
        extent(number(a.times(b)) - number(a) * number(b)) <= slack(a.times(b)),
{
    let one: nat = pow2(1074);
    let c = a.times(b);
    let r: int = c.value();
    let exact: int = a.value() * b.value();
    lemma_pow2_pos(1074);
    lemma_product_value(a, b);
    let m: nat = size(exact) as nat;
    let u: nat = units(round_bits(m, one));
    lemma_rounding_error(m, one);
    lemma_units_parts(0);
    let e: int = r * one - exact;
    assert(size(e) == distance(u, m, one)) by {
        assert((-u) * one == -(u * one)) by (nonlinear_arith);
        if exact == 0 {
            lemma_round_zero(one);
            assert(0 * one == 0);
        }
    }
    assert(size(r) == u) by {
        if exact == 0 {
            lemma_round_zero(one);
        }
    }
    let s = unity();
    lemma_unity();
    lemma_number(a);
    lemma_number(b);
    lemma_number(c);
    let (p, q) = (number(a), number(b));
    let x = number(c) - p * q;
    // Twice in units.
    let y = s * x;
    assert(s * y == e as real) by {
        distribute(s, number(c), p * q);
        distribute(s, s * number(c), s * (p * q));
        regroup(s, p, q);
        advance(s, s * p, q);
        let (va, vb) = (a.value(), b.value());
        assert((va as real) * (vb as real) == (va * vb) as real) by (nonlinear_arith);
        assert(s * (r as real) == (r * one) as real) by (nonlinear_arith)
            requires
                s == one as real,
        ;
    }
    lemma_sized(s, y, e);
    assert(extent(y) == s * extent(x)) by {
        assert(s * 0real == 0real);
        distribute(s, 0real, x);
        assert(x < 0real ==> s * x < 0real) by (nonlinear_arith)
            requires
                s > 0real,
        ;
        assert(x >= 0real ==> s * x >= 0real) by (nonlinear_arith)
            requires
                s > 0real,
        ;
    }
    // One unit cancels.
    let k = 9007199254740992real;
    let z = k * extent(y);
    let t = (size(r) + HIDDEN) as real;
    assert(z <= t) by {
        advance(s, k, extent(y));
        lemma_many(size(e));
        assert(s * t == (one * (size(r) + HIDDEN)) as real) by (nonlinear_arith)
            requires
                s == one as real,
                t == (size(r) + HIDDEN) as real,
        ;
        assert(one * (size(r) + HIDDEN) == one * size(r) + one * HIDDEN) by (nonlinear_arith);
        assert(z <= t) by (nonlinear_arith)
            requires
                s > 0real,
                s * z <= s * t,
        ;
    }
    regroup(k, s, extent(x));
    lemma_within(extent(x), t, k * s);
}

/// The rounding of a fraction.
pub(crate) proof fn lemma_ratio_error(n: nat, d: nat)
    requires
        d > 0,
        Float::ratio(n, d).magnitude() < INFINITE,
    ensures
        extent(number(Float::ratio(n, d)) - real::ratio(n, d)) <= slack(Float::ratio(n, d)),
{
    reveal(closest);
    let one: nat = pow2(1074);
    let c = Float::ratio(n, d);
    lemma_pow2_pos(1074);
    let m: nat = n * one;
    let r: nat = units(round_bits(m, d));
    lemma_rounding_error(m, d);
    assert(c.value() == r);
    let s = unity();
    lemma_unity();
    lemma_number(c);
    let f = d as real;
    lemma_quotient(n as real, f);
    let x = number(c) - real::ratio(n, d);
    let e: int = r * d - m;
    let y = s * x;
    assert(f * y == e as real) by {
        distribute(s, number(c), real::ratio(n, d));
        distribute(f, s * number(c), s * real::ratio(n, d));
        advance(f, s, real::ratio(n, d));
        assert(f * (r as real) == (r * d) as real) by (nonlinear_arith)
            requires
                f == d as real,
        ;
        assert(s * (n as real) == (n * one) as real) by (nonlinear_arith)
            requires
                s == one as real,
        ;
    }
    lemma_sized(f, y, e);
    assert(extent(y) == s * extent(x)) by {
        assert(s * 0real == 0real);
        distribute(s, 0real, x);
        assert(x < 0real ==> s * x < 0real) by (nonlinear_arith)
            requires
                s > 0real,
        ;
        assert(x >= 0real ==> s * x >= 0real) by (nonlinear_arith)
            requires
                s > 0real,
        ;
    }
    let k = 9007199254740992real;
    let z = k * extent(y);
    let t = (r + HIDDEN) as real;
    assert(z <= t) by {
        advance(f, k, extent(y));
        lemma_many(size(e));
        assert(f * t == (d * (r + HIDDEN)) as real) by (nonlinear_arith)
            requires
                f == d as real,
                t == (r + HIDDEN) as real,
        ;
        assert(d * (r + HIDDEN) == d * r + d * HIDDEN) by (nonlinear_arith);
        assert(z <= t) by (nonlinear_arith)
            requires
                f > 0real,
                f * z <= f * t,
        ;
    }
    regroup(k, s, extent(x));
    lemma_within(extent(x), t, k * s);
}

proof fn lemma_plus_sound(a: Bounded, b: Bounded)
    requires
        a.sound(),
        b.sound(),
    ensures
        a.plus(b).sound(),
{
    let c = a.plus(b);
    lemma_slack(c.rounded);
    if c.finite {
        lemma_sum_error(a.rounded, b.rounded);
    }
}

/// The other sign, the other number.
proof fn lemma_opposite(x: Float)
    ensures
        x.negated().value() == -x.value(),
        x.negated().magnitude() == x.magnitude(),
        x.magnitude() < INFINITE ==> number(x.negated()) == 0real - number(x),
{
    reveal(Float::opposite);
    lemma_number(x);
    lemma_number(x.negated());
    lemma_unity();
    if x.magnitude() < INFINITE {
        let s = unity();
        distribute(s, 0real, number(x));
        assert(s * 0real == 0real);
        lemma_cancel(s, number(x.negated()), 0real - number(x));
    }
}

pub(crate) proof fn lemma_minus_sound(a: Bounded, b: Bounded)
    requires
        a.sound(),
        b.sound(),
    ensures
        a.minus(b).sound(),
{
    let c = a.minus(b);
    lemma_slack(c.rounded);
    lemma_opposite(b.rounded);
    if c.finite {
        lemma_sum_error(a.rounded, b.rounded.negated());
    }
}

proof fn lemma_negated_sound(a: Bounded)
    requires
        a.sound(),
    ensures
        a.negated().sound(),
{
    lemma_opposite(a.rounded);
}

pub(crate) proof fn lemma_extent_times(x: real, d: real, e: real)
    requires
        extent(d) <= e,
    ensures
        extent(x * d) <= extent(x) * e,
{
    let w = x * d;
    let m = extent(x);
    assert(w <= m * e && 0real - w <= m * e) by (nonlinear_arith)
        requires
            w == x * d,
            m == (if x < 0real {
                0real - x
            } else {
                x
            }),
            d <= e,
            0real - d <= e,
    ;
}

proof fn lemma_times_sound(a: Bounded, b: Bounded)
    requires
        a.sound(),
        b.sound(),
    ensures
        a.times(b).sound(),
{
    let c = a.times(b);
    lemma_slack(c.rounded);
    let (x, y) = (number(a.rounded), number(b.rounded));
    lemma_extent_times(x, 0real, b.error);
    lemma_extent_times(y, 0real, a.error);
    lemma_extent_times(a.error, 0real, b.error);
    assert(extent(x * 0real) >= 0real && extent(y * 0real) >= 0real && extent(
        a.error * 0real,
    ) >= 0real);
    if c.finite {
        lemma_product_error(a.rounded, b.rounded);
        let (d, e) = (x - a.exact, y - b.exact);
        // The exact product, by the rounded factors and how far they are off.
        assert(a.exact * b.exact == x * y - x * e - y * d + d * e) by {
            assert(a.exact == x - d && b.exact == y - e);
            distribute(x - d, y, e);
            spread2(1real, x, -1real, d, y);
            spread2(1real, x, -1real, d, e);
            swap(d, y);
        }
        lemma_extent_times(x, e, b.error);
        lemma_extent_times(y, d, a.error);
        lemma_extent_times(d, e, b.error);
        let (m, n) = (extent(d), b.error);
        assert(m * n <= a.error * n) by (nonlinear_arith)
            requires
                m <= a.error,
                n >= 0real,
        ;
    }
}

proof fn lemma_ratio_sound(n: nat, d: nat)
    ensures
        Bounded::ratio(n, d).sound(),
{
    let c = Bounded::ratio(n, d);
    lemma_slack(c.rounded);
    if c.finite {
        lemma_ratio_error(n, d);
    }
}

/// Every step of a formula keeps the bound.
proof fn lemma_steps_sound()
    ensures
        forall|a: Bounded, b: Bounded| a.sound() && b.sound() ==> (#[trigger] a.plus(b)).sound(),
        forall|a: Bounded, b: Bounded| a.sound() && b.sound() ==> (#[trigger] a.minus(b)).sound(),
        forall|a: Bounded, b: Bounded| a.sound() && b.sound() ==> (#[trigger] a.times(b)).sound(),
        forall|a: Bounded| a.sound() ==> (#[trigger] a.negated()).sound(),
        forall|n: nat, d: nat| (#[trigger] Bounded::ratio(n, d)).sound(),
{
    assert forall|a: Bounded, b: Bounded| a.sound() && b.sound() implies (#[trigger] a.plus(
        b,
    )).sound() by {
        lemma_plus_sound(a, b);
    }
    assert forall|a: Bounded, b: Bounded| a.sound() && b.sound() implies (#[trigger] a.minus(
        b,
    )).sound() by {
        lemma_minus_sound(a, b);
    }
    assert forall|a: Bounded, b: Bounded| a.sound() && b.sound() implies (#[trigger] a.times(
        b,
    )).sound() by {
        lemma_times_sound(a, b);
    }
    assert forall|a: Bounded| a.sound() implies (#[trigger] a.negated()).sound() by {
        lemma_negated_sound(a);
    }
    assert forall|n: nat, d: nat| (#[trigger] Bounded::ratio(n, d)).sound() by {
        lemma_ratio_sound(n, d);
    }
}

/// A number that is given, and so not off.
pub open spec fn given(x: Float) -> Bounded {
    Bounded { rounded: x, exact: number(x), error: 0real, finite: x.magnitude() < INFINITE }
}

pub open spec fn given_point(p: Point) -> Point<Bounded> {
    Point { x: given(p.x), y: given(p.y) }
}

pub open spec fn given_curve(c: CubicBez) -> CubicBez<Bounded> {
    CubicBez {
        p0: given_point(c.p0),
        p1: given_point(c.p1),
        p2: given_point(c.p2),
        p3: given_point(c.p3),
    }
}

/// The point whose coordinates a point with rounded coordinates holds.
pub open spec fn exact_point(p: Point) -> Point<real> {
    Point { x: number(p.x), y: number(p.y) }
}

/// The curve whose coordinates a curve with rounded coordinates holds.
pub open spec fn exact_curve(c: CubicBez) -> CubicBez<real> {
    CubicBez {
        p0: exact_point(c.p0),
        p1: exact_point(c.p1),
        p2: exact_point(c.p2),
        p3: exact_point(c.p3),
    }
}

pub open spec fn rounded_point(p: Point<Bounded>) -> Point {
    Point { x: p.x.rounded, y: p.y.rounded }
}

pub open spec fn rounded_curve(c: CubicBez<Bounded>) -> CubicBez {
    CubicBez {
        p0: rounded_point(c.p0),
        p1: rounded_point(c.p1),
        p2: rounded_point(c.p2),
        p3: rounded_point(c.p3),
    }
}

pub open spec fn unrounded_point(p: Point<Bounded>) -> Point<real> {
    Point { x: p.x.exact, y: p.y.exact }
}

pub open spec fn unrounded_curve(c: CubicBez<Bounded>) -> CubicBez<real> {
    CubicBez {
        p0: unrounded_point(c.p0),
        p1: unrounded_point(c.p1),
        p2: unrounded_point(c.p2),
        p3: unrounded_point(c.p3),
    }
}

pub open spec fn sound_point(p: Point<Bounded>) -> bool {
    p.x.sound() && p.y.sound()
}

pub open spec fn sound_curve(c: CubicBez<Bounded>) -> bool {
    sound_point(c.p0) && sound_point(c.p1) && sound_point(c.p2) && sound_point(c.p3)
}

/// Whether moments are those of the rounded and of the unrounded formula, with
/// a bound that holds.
pub open spec fn bounds(
    m: (Bounded, Bounded, Bounded),
    rounded: (Float, Float, Float),
    exact: (real, real, real),
) -> bool {
    &&& m.0.rounded == rounded.0 && m.0.exact == exact.0 && m.0.sound()
    &&& m.1.rounded == rounded.1 && m.1.exact == exact.1 && m.1.sound()
    &&& m.2.rounded == rounded.2 && m.2.exact == exact.2 && m.2.sound()
}

proof fn lemma_area_bounded(
    x1: Bounded,
    y1: Bounded,
    x2: Bounded,
    y2: Bounded,
    x3: Bounded,
    y3: Bounded,
)
    requires
        x1.sound() && y1.sound() && x2.sound() && y2.sound() && x3.sound() && y3.sound(),
    ensures
        ({
            let f = area_form(x1, y1, x2, y2, x3, y3);
            &&& f.sound()
            &&& f.rounded == area_form(
                x1.rounded,
                y1.rounded,
                x2.rounded,
                y2.rounded,
                x3.rounded,
                y3.rounded,
            )
            &&& f.exact == area_form(x1.exact, y1.exact, x2.exact, y2.exact, x3.exact, y3.exact)
        }),
{
    lemma_steps_sound();
}

proof fn lemma_x_bounded(
    x1: Bounded,
    y1: Bounded,
    x2: Bounded,
    y2: Bounded,
    x3: Bounded,
    y3: Bounded,
)
    requires
        x1.sound() && y1.sound() && x2.sound() && y2.sound() && x3.sound() && y3.sound(),
    ensures
        ({
            let f = x_form(x1, y1, x2, y2, x3, y3);
            &&& f.sound()
            &&& f.rounded == x_form(
                x1.rounded,
                y1.rounded,
                x2.rounded,
                y2.rounded,
                x3.rounded,
                y3.rounded,
            )
            &&& f.exact == x_form(x1.exact, y1.exact, x2.exact, y2.exact, x3.exact, y3.exact)
        }),
{
    lemma_steps_sound();
}

proof fn lemma_y_bounded(
    x1: Bounded,
    y1: Bounded,
    x2: Bounded,
    y2: Bounded,
    x3: Bounded,
    y3: Bounded,
)
    requires
        x1.sound() && y1.sound() && x2.sound() && y2.sound() && x3.sound() && y3.sound(),
    ensures
        ({
            let f = y_form(x1, y1, x2, y2, x3, y3);
            &&& f.sound()
            &&& f.rounded == y_form(
                x1.rounded,
                y1.rounded,
                x2.rounded,
                y2.rounded,
                x3.rounded,
                y3.rounded,
            )
            &&& f.exact == y_form(x1.exact, y1.exact, x2.exact, y2.exact, x3.exact, y3.exact)
        }),
{
    lemma_steps_sound();
}

proof fn lemma_moments_bounded(c: CubicBez<Bounded>)
    requires
        sound_curve(c),
    ensures
        bounds(moments_of(c), moments_of(rounded_curve(c)), moments_of(unrounded_curve(c))),
{
    reveal(moments_of);
    let (x0, y0) = (c.p0.x, c.p0.y);
    let (x1, y1) = (c.p1.x.minus(x0), c.p1.y.minus(y0));
    let (x2, y2) = (c.p2.x.minus(x0), c.p2.y.minus(y0));
    let (x3, y3) = (c.p3.x.minus(x0), c.p3.y.minus(y0));
    lemma_steps_sound();
    lemma_area_bounded(x1, y1, x2, y2, x3, y3);
    lemma_x_bounded(x1, y1, x2, y2, x3, y3);
    lemma_y_bounded(x1, y1, x2, y2, x3, y3);
}

/// How far rounded moment integrals lie from the integrals along the curve: the
/// formula itself, read over bounded numbers, gives a bound, which holds unless
/// a step overflows.
pub proof fn law_moments_are_close(c: CubicBez)
    ensures
        bounds(moments_of(given_curve(c)), moments_of(c), moments_of(exact_curve(c))),
{
    lemma_given(c);
    lemma_moments_bounded(given_curve(c));
}

/// The curves, as given.
pub open spec fn given_curves(curves: Seq<CubicBez>) -> Seq<CubicBez<Bounded>> {
    Seq::new(curves.len(), |i: int| given_curve(curves[i]))
}

/// The curves whose coordinates curves with rounded coordinates hold.
pub open spec fn exact_curves(curves: Seq<CubicBez>) -> Seq<CubicBez<real>> {
    Seq::new(curves.len(), |i: int| exact_curve(curves[i]))
}

proof fn lemma_sums_bounded(curves: Seq<CubicBez>, o: Point, n: nat)
    requires
        n <= curves.len(),
    ensures
        bounds(
            running_moments(given_curves(curves), given_point(o), n),
            running_moments(curves, o, n),
            running_moments(exact_curves(curves), exact_point(o), n),
        ),
    decreases n,
{
    let (g, e) = (given_curves(curves), exact_curves(curves));
    let (p, q) = (given_point(o), exact_point(o));
    if n == 0 {
        lemma_none_bounded();
    } else {
        let k: nat = (n - 1) as nat;
        let c = curves[n - 1];
        lemma_sums_bounded(curves, o, k);
        lemma_given(c);
        lemma_translated_bounded(given_curve(c), p);
        let t = translated(given_curve(c), p);
        lemma_moments_bounded(t);
        lemma_sum_bounded(
            running_moments(g, p, k),
            running_moments(curves, o, k),
            running_moments(e, q, k),
            moments_of(t),
            moments_of(translated(c, o)),
            moments_of(translated(exact_curve(c), q)),
        );
    }
}

proof fn lemma_none_bounded()
    ensures
        bounds(no_moments(), no_moments(), no_moments()),
{
    lemma_ratio_sound(0, 1);
}

/// A given curve is not off.
pub(crate) proof fn lemma_given(c: CubicBez)
    ensures
        sound_curve(given_curve(c)),
        rounded_curve(given_curve(c)) == c,
        unrounded_curve(given_curve(c)) == exact_curve(c),
{
}

proof fn lemma_translated_bounded(c: CubicBez<Bounded>, o: Point<Bounded>)
    requires
        sound_curve(c),
        sound_point(o),
    ensures
        sound_curve(translated(c, o)),
        rounded_curve(translated(c, o)) == translated(rounded_curve(c), rounded_point(o)),
        unrounded_curve(translated(c, o)) == translated(unrounded_curve(c), unrounded_point(o)),
{
    lemma_steps_sound();
}

pub(crate) proof fn lemma_sum_bounded(
    m: (Bounded, Bounded, Bounded),
    mr: (Float, Float, Float),
    me: (real, real, real),
    n: (Bounded, Bounded, Bounded),
    nr: (Float, Float, Float),
    ne: (real, real, real),
)
    requires
        bounds(m, mr, me),
        bounds(n, nr, ne),
    ensures
        bounds(moments_sum(m, n), moments_sum(mr, nr), moments_sum(me, ne)),
        bounds(
            moments_difference(m, n),
            moments_difference(mr, nr),
            moments_difference(me, ne),
        ),
{
    lemma_steps_sound();
}

/// How far the moment integrals that are stored for a path lie from the exact
/// ones: the sums, read over bounded numbers, give a bound, which holds unless a
/// step overflows. Only distances from the first point of the path enter it.
pub proof fn law_stored_moments_are_close(curves: Seq<CubicBez>, i: int)
    requires
        0 <= i < curves.len(),
    ensures
        bounds(
            prepared(given_curves(curves)).els[i].moments,
            prepared(curves).els[i].moments,
            prepared(exact_curves(curves)).els[i].moments,
        ),
{
    lemma_sums_bounded(curves, curves_start(curves), (i + 1) as nat);
}

pub open spec fn sound_vector(v: Vec2<Bounded>) -> bool {
    v.x.sound() && v.y.sound()
}

pub open spec fn rounded_vector(v: Vec2<Bounded>) -> Vec2 {
    Vec2 { x: v.x.rounded, y: v.y.rounded }
}

pub open spec fn unrounded_vector(v: Vec2<Bounded>) -> Vec2<real> {
    Vec2 { x: v.x.exact, y: v.y.exact }
}

pub(crate) proof fn lemma_point_bounded(c: CubicBez<Bounded>, t: Bounded)
    requires
        sound_curve(c),
        t.sound(),
    ensures
        sound_point(cubic_point(c, t)),
        rounded_point(cubic_point(c, t)) == cubic_point(rounded_curve(c), t.rounded),
        unrounded_point(cubic_point(c, t)) == cubic_point(unrounded_curve(c), t.exact),
{
    lemma_steps_sound();
}

proof fn lemma_velocity_bounded(c: CubicBez<Bounded>, t: Bounded)
    requires
        sound_curve(c),
        t.sound(),
    ensures
        sound_vector(cubic_velocity(c, t)),
        rounded_vector(cubic_velocity(c, t)) == cubic_velocity(rounded_curve(c), t.rounded),
        unrounded_vector(cubic_velocity(c, t)) == cubic_velocity(unrounded_curve(c), t.exact),
{
    lemma_steps_sound();
}

pub(crate) proof fn lemma_part_bounded(c: CubicBez<Bounded>, t0: Bounded, t1: Bounded)
    requires
        sound_curve(c),
        t0.sound(),
        t1.sound(),
    ensures
        sound_curve(cubic_part(c, t0, t1)),
        rounded_curve(cubic_part(c, t0, t1)) == cubic_part(
            rounded_curve(c),
            t0.rounded,
            t1.rounded,
        ),
        unrounded_curve(cubic_part(c, t0, t1)) == cubic_part(
            unrounded_curve(c),
            t0.exact,
            t1.exact,
        ),
{
    lemma_point_bounded(c, t0);
    lemma_point_bounded(c, t1);
    lemma_velocity_bounded(c, t0);
    lemma_velocity_bounded(c, t1);
    lemma_steps_sound();
}

proof fn lemma_shifted_bounded(
    m: (Bounded, Bounded, Bounded),
    rounded: (Float, Float, Float),
    exact: (real, real, real),
    s: Vec2<Bounded>,
    u: Bounded,
)
    requires
        bounds(m, rounded, exact),
        sound_vector(s),
        u.sound(),
    ensures
        bounds(
            shifted_moments(m, s, u),
            shifted_moments(rounded, rounded_vector(s), u.rounded),
            shifted_moments(exact, unrounded_vector(s), u.exact),
        ),
{
    lemma_steps_sound();
}

/// Moments carried to another point, over bounded numbers.
pub(crate) proof fn lemma_carried_bounded(
    m: (Bounded, Bounded, Bounded),
    rounded: (Float, Float, Float),
    exact: (real, real, real),
    d: Vec2<Bounded>,
    w: Bounded,
)
    requires
        bounds(m, rounded, exact),
        sound_vector(d),
        w.sound(),
    ensures
        bounds(
            carried(m, d, w),
            carried(rounded, rounded_vector(d), w.rounded),
            carried(exact, unrounded_vector(d), w.exact),
        ),
{
    lemma_steps_sound();
}

/// Two numbers are the same if they stand for the same.
pub(crate) proof fn lemma_same_number(x: Float, y: Float)
    requires
        x.magnitude() < INFINITE,
        y.magnitude() < INFINITE,
    ensures
        x.same(y) == (number(x) == number(y)),
{
    lemma_number(x);
    lemma_number(y);
}

/// The moments of a part, over bounded numbers.
proof fn lemma_part_moments_bounded(curves: Seq<CubicBez>, i: int, t0: Bounded, t1: Bounded)
    requires
        curves.len() > 0,
        t0.sound(),
        t1.sound(),
        t1.rounded.same(t0.rounded) ==> t1.exact == t0.exact,
        0 <= i < curves.len() || t1.rounded.same(t0.rounded),
    ensures
        bounds(
            part_moments(prepared(given_curves(curves)), i, t0, t1),
            part_moments(prepared(curves), i, t0.rounded, t1.rounded),
            part_moments(prepared(exact_curves(curves)), i, t0.exact, t1.exact),
        ),
{
    if t1.rounded.same(t0.rounded) {
        lemma_none_bounded();
    } else {
        let o = curves_start(curves);
        let c = given_curve(curves[i]);
        lemma_given(curves[i]);
        lemma_part_bounded(c, t0, t1);
        let part = cubic_part(c, t0, t1);
        lemma_translated_bounded(part, given_point(o));
        lemma_moments_bounded(translated(part, given_point(o)));
        if t1.exact == t0.exact {
            lemma_no_extent(exact_curve(curves[i]), t0.exact, exact_point(o));
            lemma_none_bounded();
        }
    }
}

/// Zero and one are exact.
pub(crate) proof fn lemma_zero_and_one()
    ensures
        whole::<Bounded>(0).sound(),
        whole::<Bounded>(1).sound(),
        whole::<Bounded>(0).rounded == whole::<Float>(0),
        whole::<Bounded>(1).rounded == whole::<Float>(1),
        whole::<Bounded>(0).exact == 0real,
        whole::<Bounded>(1).exact == 1real,
        whole::<real>(0) == 0real,
        whole::<real>(1) == 1real,
        whole::<Float>(0).magnitude() < INFINITE,
        whole::<Float>(1).magnitude() < INFINITE,
        number(whole::<Float>(0)) == 0real,
        number(whole::<Float>(1)) == 1real,
{
    lemma_ratio_sound(0, 1);
    lemma_ratio_sound(1, 1);
    lemma_constants();
    lemma_whole(0);
    lemma_whole(1);
    let (zero, one) = (whole::<Float>(0), whole::<Float>(1));
    lemma_number(zero);
    lemma_number(one);
    lemma_unity();
    let s = unity();
    assert(0 * pow2(1074) == 0 && 1 * pow2(1074) == pow2(1074));
    assert(s * 0real == 0real);
    lemma_cancel(s, number(zero), 0real);
    assert(s * 1real == s);
    lemma_cancel(s, number(one), 1real);
}

/// The moments of the parts at both ends of a stretch.
proof fn lemma_ends_bounded(curves: Seq<CubicBez>, i0: int, t0: Bounded, i1: int, t1: Bounded)
    requires
        0 <= i0 < i1 <= curves.len(),
        t0.sound(),
        t1.sound(),
        whole::<Float>(1).same(t0.rounded) ==> t0.exact == 1real,
        t1.rounded.same(whole(0)) ==> t1.exact == 0real,
        i1 == curves.len() ==> t1.rounded.same(whole(0)),
    ensures
        bounds(
            moments_sum(
                part_moments(prepared(given_curves(curves)), i0, t0, whole(1)),
                part_moments(prepared(given_curves(curves)), i1, whole(0), t1),
            ),
            moments_sum(
                part_moments(prepared(curves), i0, t0.rounded, whole(1)),
                part_moments(prepared(curves), i1, whole(0), t1.rounded),
            ),
            moments_sum(
                part_moments(prepared(exact_curves(curves)), i0, t0.exact, whole(1)),
                part_moments(prepared(exact_curves(curves)), i1, whole(0), t1.exact),
            ),
        ),
{
    let (g, e) = (prepared(given_curves(curves)), prepared(exact_curves(curves)));
    let path = prepared(curves);
    lemma_zero_and_one();
    lemma_part_moments_bounded(curves, i0, t0, whole(1));
    lemma_part_moments_bounded(curves, i1, whole(0), t1);
    lemma_sum_bounded(
        part_moments(g, i0, t0, whole(1)),
        part_moments(path, i0, t0.rounded, whole(1)),
        part_moments(e, i0, t0.exact, whole(1)),
        part_moments(g, i1, whole(0), t1),
        part_moments(path, i1, whole(0), t1.rounded),
        part_moments(e, i1, whole(0), t1.exact),
    );
}

/// The moments of the curves between, from the running sums.
proof fn lemma_between_bounded(curves: Seq<CubicBez>, i0: int, i1: int)
    requires
        0 <= i0 < i1 <= curves.len(),
    ensures
        bounds(
            moments_difference(
                prepared(given_curves(curves)).els[i1 - 1].moments,
                prepared(given_curves(curves)).els[i0].moments,
            ),
            moments_difference(
                prepared(curves).els[i1 - 1].moments,
                prepared(curves).els[i0].moments,
            ),
            moments_difference(
                prepared(exact_curves(curves)).els[i1 - 1].moments,
                prepared(exact_curves(curves)).els[i0].moments,
            ),
        ),
{
    let (g, e) = (prepared(given_curves(curves)), prepared(exact_curves(curves)));
    let path = prepared(curves);
    law_stored_moments_are_close(curves, i1 - 1);
    law_stored_moments_are_close(curves, i0);
    lemma_sum_bounded(
        g.els[i1 - 1].moments,
        path.els[i1 - 1].moments,
        e.els[i1 - 1].moments,
        g.els[i0].moments,
        path.els[i0].moments,
        e.els[i0].moments,
    );
}

/// The moments of a stretch. Where rounding makes two parameters the same, they
/// have to be the same exactly.
pub(crate) proof fn lemma_stretch_bounded(
    curves: Seq<CubicBez>,
    i0: int,
    t0: Bounded,
    i1: int,
    t1: Bounded,
)
    requires
        0 <= i0 <= i1 <= curves.len(),
        curves.len() > 0,
        t0.sound(),
        t1.sound(),
        i0 == i1 ==> {
            &&& t1.rounded.same(t0.rounded) ==> t1.exact == t0.exact
            &&& i0 < curves.len() || t1.rounded.same(t0.rounded)
        },
        i0 < i1 ==> {
            &&& whole::<Float>(1).same(t0.rounded) ==> t0.exact == 1real
            &&& t1.rounded.same(whole(0)) ==> t1.exact == 0real
            &&& i1 == curves.len() ==> t1.rounded.same(whole(0))
        },
    ensures
        bounds(
            stretch_moments(prepared(given_curves(curves)), i0, t0, i1, t1),
            stretch_moments(prepared(curves), i0, t0.rounded, i1, t1.rounded),
            stretch_moments(prepared(exact_curves(curves)), i0, t0.exact, i1, t1.exact),
        ),
{
    let (g, e) = (prepared(given_curves(curves)), prepared(exact_curves(curves)));
    let path = prepared(curves);
    if i0 == i1 {
        lemma_part_moments_bounded(curves, i0, t0, t1);
    } else {
        lemma_ends_bounded(curves, i0, t0, i1, t1);
        if i1 > i0 + 1 {
            lemma_between_bounded(curves, i0, i1);
            lemma_sum_bounded(
                moments_sum(
                    part_moments(g, i0, t0, whole(1)),
                    part_moments(g, i1, whole(0), t1),
                ),
                moments_sum(
                    part_moments(path, i0, t0.rounded, whole(1)),
                    part_moments(path, i1, whole(0), t1.rounded),
                ),
                moments_sum(
                    part_moments(e, i0, t0.exact, whole(1)),
                    part_moments(e, i1, whole(0), t1.exact),
                ),
                moments_difference(g.els[i1 - 1].moments, g.els[i0].moments),
                moments_difference(path.els[i1 - 1].moments, path.els[i0].moments),
                moments_difference(e.els[i1 - 1].moments, e.els[i0].moments),
            );
        }
    }
}

/// The same relative to where it begins: the points at both ends are given.
pub(crate) proof fn lemma_stretch_from_bounded(
    curves: Seq<CubicBez>,
    i0: int,
    t0: Bounded,
    i1: int,
    t1: Bounded,
    p0: Point<Bounded>,
    p1: Point<Bounded>,
)
    requires
        curves.len() > 0,
        sound_point(p0),
        sound_point(p1),
        bounds(
            stretch_moments(prepared(given_curves(curves)), i0, t0, i1, t1),
            stretch_moments(prepared(curves), i0, t0.rounded, i1, t1.rounded),
            stretch_moments(prepared(exact_curves(curves)), i0, t0.exact, i1, t1.exact),
        ),
    ensures
        bounds(
            stretch_moments_from(prepared(given_curves(curves)), i0, t0, i1, t1, p0, p1),
            stretch_moments_from(
                prepared(curves),
                i0,
                t0.rounded,
                i1,
                t1.rounded,
                rounded_point(p0),
                rounded_point(p1),
            ),
            stretch_moments_from(
                prepared(exact_curves(curves)),
                i0,
                t0.exact,
                i1,
                t1.exact,
                unrounded_point(p0),
                unrounded_point(p1),
            ),
        ),
{
    let o = curves_start(curves);
    let s = from_to(given_point(o), p0);
    let u = p1.x.minus(given(o.x));
    lemma_minus_sound(p0.x, given(o.x));
    lemma_minus_sound(p0.y, given(o.y));
    lemma_minus_sound(p1.x, given(o.x));
    lemma_shifted_bounded(
        stretch_moments(prepared(given_curves(curves)), i0, t0, i1, t1),
        stretch_moments(prepared(curves), i0, t0.rounded, i1, t1.rounded),
        stretch_moments(prepared(exact_curves(curves)), i0, t0.exact, i1, t1.exact),
        s,
        u,
    );
}

/// The moment integrals over a range, over bounded numbers, between the places
/// on the curves to which the rounded parameters lead.
pub open spec fn bounded_range(curves: Seq<CubicBez>, t0: Float, t1: Float) -> (
    Bounded,
    Bounded,
    Bounded,
) {
    let n = curves.len();
    let ((i0, u0), (i1, u1)) = (scaled(n, t0), scaled(n, t1));
    let ((j0, w0), (j1, w1)) = (placed(n, t0), placed(n, t1));
    stretch_moments_from(
        prepared(given_curves(curves)),
        i0 as int,
        given(u0),
        i1 as int,
        given(u1),
        cubic_point(given_curve(curves[j0 as int]), given(w0)),
        cubic_point(given_curve(curves[j1 as int]), given(w1)),
    )
}

/// The exact moment integrals between those places.
pub open spec fn exact_range(curves: Seq<CubicBez>, t0: Float, t1: Float) -> (real, real, real) {
    let n = curves.len();
    let ((i0, u0), (i1, u1)) = (scaled(n, t0), scaled(n, t1));
    let ((j0, w0), (j1, w1)) = (placed(n, t0), placed(n, t1));
    stretch_moments_from(
        prepared(exact_curves(curves)),
        i0 as int,
        number(u0),
        i1 as int,
        number(u1),
        cubic_point(exact_curve(curves[j0 as int]), number(w0)),
        cubic_point(exact_curve(curves[j1 as int]), number(w1)),
    )
}

/// How far the moment integrals over a range lie from the exact ones: the
/// formulas, read over bounded numbers, give a bound, which holds unless a step
/// overflows.
pub proof fn law_range_moments_are_close(curves: Seq<CubicBez>, t0: Float, t1: Float)
    requires
        0 < curves.len() <= exact_limit(),
        curves.len() <= usize::MAX,
        whole::<Float>(0).le(t0),
        t0.le(t1),
        t1.le(whole(1)),
    ensures
        bounds(
            bounded_range(curves, t0, t1),
            range_moments(prepared(curves), t0, t1),
            exact_range(curves, t0, t1),
        ),
{
    let n = curves.len();
    let m: usize = n as usize;
    lemma_whole(0);
    lemma_whole(1);
    law_parameter_is_split(m, t0);
    law_parameter_is_split(m, t1);
    lemma_split_ordered(m, t0, t1);
    let ((i0, u0), (i1, u1)) = (scaled(n, t0), scaled(n, t1));
    let ((j0, w0), (j1, w1)) = (placed(n, t0), placed(n, t1));
    lemma_split_end(m, t0);
    lemma_split_end(m, t1);
    lemma_zero_and_one();
    lemma_same_number(u1, u0);
    lemma_same_number(whole(1), u0);
    lemma_same_number(u1, whole(0));
    assert(0 * pow2(1074) == 0);
    assert(given(u0).sound() && given(u1).sound());
    lemma_stretch_bounded(curves, i0 as int, given(u0), i1 as int, given(u1));
    let (c0, c1) = (given_curve(curves[j0 as int]), given_curve(curves[j1 as int]));
    lemma_given(curves[j0 as int]);
    lemma_given(curves[j1 as int]);
    lemma_point_bounded(c0, given(w0));
    lemma_point_bounded(c1, given(w1));
    lemma_stretch_from_bounded(
        curves,
        i0 as int,
        given(u0),
        i1 as int,
        given(u1),
        cubic_point(c0, given(w0)),
        cubic_point(c1, given(w1)),
    );
}

}
