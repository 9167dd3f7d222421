//! Laws of precision: exact translations lose nothing.

use crate::arith::Arith;
use crate::curve::{curves_start, prepared, running_moments};
use crate::float::Float;
use crate::geom::{CubicBez, Point};
use crate::moments::translated;
use crate::parameter::lemma_exact;
use crate::rounding::{lemma_round_exact, lemma_units_increase, lemma_units_parts, INFINITE};
use vstd::arithmetic::power2::{lemma_pow2_pos, pow2};
use vstd::prelude::*;

verus! {

/// A finite number that is not a negative zero.
pub open spec fn is_plain(x: Float) -> bool {
    x.magnitude() < INFINITE && (x.magnitude() == 0 ==> !x.negative())
}

/// Whether `y` is exactly `v` more than `x`, in units of two to the -1074.
pub open spec fn is_ahead(x: Float, y: Float, v: int) -> bool {
    is_plain(x) && is_plain(y) && y.value() == x.value() + v
}

/// Whether the point `q` is `p`, moved exactly.
pub open spec fn is_moved(p: Point, q: Point, v: (int, int)) -> bool {
    is_ahead(p.x, q.x, v.0) && is_ahead(p.y, q.y, v.1)
}

/// Whether the curve `d` is `c`, moved exactly.
pub open spec fn is_moved_curve(c: CubicBez, d: CubicBez, v: (int, int)) -> bool {
    &&& is_moved(c.p0, d.p0, v)
    &&& is_moved(c.p1, d.p1, v)
    &&& is_moved(c.p2, d.p2, v)
    &&& is_moved(c.p3, d.p3, v)
}

/// The sign of a plain number is that of its value.
proof fn lemma_sign(x: Float)
    requires
        is_plain(x),
    ensures
        x.negative() == (x.value() < 0),
{
    lemma_units_parts(0);
    if x.magnitude() > 0 {
        lemma_units_increase(0, x.magnitude());
    }
}

/// The difference of two numbers depends on their distance only.
proof fn lemma_same_difference(x: Float, o: Float, y: Float, p: Float, v: int)
    requires
        is_ahead(x, y, v),
        is_ahead(o, p, v),
    ensures
        x.minus(o) == y.minus(p),
{
    reveal(Float::sum);
    reveal(Float::opposite);
    lemma_sign(x);
    lemma_sign(o);
    lemma_sign(y);
    lemma_sign(p);
}

proof fn lemma_same_translated(c: CubicBez, d: CubicBez, o: Point, p: Point, v: (int, int))
    requires
        is_moved_curve(c, d, v),
        is_moved(o, p, v),
    ensures
        translated(c, o) == translated(d, p),
{
    lemma_same_difference(c.p0.x, o.x, d.p0.x, p.x, v.0);
    lemma_same_difference(c.p0.y, o.y, d.p0.y, p.y, v.1);
    lemma_same_difference(c.p1.x, o.x, d.p1.x, p.x, v.0);
    lemma_same_difference(c.p1.y, o.y, d.p1.y, p.y, v.1);
    lemma_same_difference(c.p2.x, o.x, d.p2.x, p.x, v.0);
    lemma_same_difference(c.p2.y, o.y, d.p2.y, p.y, v.1);
    lemma_same_difference(c.p3.x, o.x, d.p3.x, p.x, v.0);
    lemma_same_difference(c.p3.y, o.y, d.p3.y, p.y, v.1);
}

proof fn lemma_same_sums(
    curves: Seq<CubicBez>,
    others: Seq<CubicBez>,
    o: Point,
    p: Point,
    v: (int, int),
    n: nat,
)
    requires
        n <= curves.len(),
        curves.len() == others.len(),
        forall|i: int|
            #![trigger curves[i], others[i]]
            0 <= i < curves.len() ==> is_moved_curve(curves[i], others[i], v),
        is_moved(o, p, v),
    ensures
        running_moments(curves, o, n) == running_moments(others, p, n),
    decreases n,
{
    if n > 0 {
        lemma_same_sums(curves, others, o, p, v, (n - 1) as nat);
        lemma_same_translated(curves[n - 1], others[n - 1], o, p, v);
    }
}

/// A path far from the origin loses no precision: if two paths differ by an
/// exact translation, the moment integrals that are stored for them are the
/// same to the last bit.
pub proof fn law_exact_moves_change_no_bit(
    curves: Seq<CubicBez>,
    others: Seq<CubicBez>,
    v: (int, int),
    i: int,
)
    requires
        curves.len() == others.len(),
        forall|i: int|
            #![trigger curves[i], others[i]]
            0 <= i < curves.len() ==> is_moved_curve(curves[i], others[i], v),
        0 <= i < curves.len(),
    ensures
        prepared(curves).els[i].moments == prepared(others).els[i].moments,
{
    assert(is_moved_curve(curves[0], others[0], v));
    lemma_same_sums(curves, others, curves_start(curves), curves_start(others), v, (i + 1) as nat);
}

/// A whole number of less than 53 digits.
pub open spec fn is_small_whole(x: Float) -> bool {
    &&& x.magnitude() < INFINITE
    &&& exists|n: int|
        -0x10_0000_0000_0000 < n < 0x10_0000_0000_0000 && x.value() == #[trigger] (n * pow2(1074))
}

/// Whether both coordinates are whole numbers of less than 53 digits.
pub open spec fn is_small_whole_point(p: Point) -> bool {
    is_small_whole(p.x) && is_small_whole(p.y)
}

/// Subtracted and added again, a whole number is the same.
proof fn lemma_there_and_back(x: Float, o: Float)
    requires
        is_small_whole(x),
        is_small_whole(o),
    ensures
        x.minus(o).minus(o.opposite()).same(x),
{
    let one: nat = pow2(1074);
    let m = choose|n: int|
        -0x10_0000_0000_0000 < n < 0x10_0000_0000_0000 && x.value() == #[trigger] (n * one);
    let n = choose|n: int|
        -0x10_0000_0000_0000 < n < 0x10_0000_0000_0000 && o.value() == #[trigger] (n * one);
    reveal(Float::sum);
    reveal(Float::opposite);
    lemma_units_parts(0);
    let k: int = m - n;
    let size: nat = (if k < 0 {
        -k
    } else {
        k
    }) as nat;
    assert(x.value() - o.value() == k * one) by (nonlinear_arith)
        requires
            x.value() == m * one,
            o.value() == n * one,
            k == m - n,
    ;
    assert((-size) * one == -(size * one)) by (nonlinear_arith);
    lemma_pow2_pos(1074);
    assert(k == 0 <==> k * one == 0) by (nonlinear_arith)
        requires
            one > 0,
    ;
    assert(k > 0 <==> k * one > 0) by (nonlinear_arith)
        requires
            one > 0,
    ;
    lemma_exact(size, 1074);
    let d = x.minus(o);
    assert(d.magnitude() < INFINITE && d.value() == k * one);
    let back = o.opposite().opposite();
    assert(back == o);
    lemma_round_exact(x.magnitude());
}

/// Moved there and back, a curve with coordinates that are whole numbers of
/// less than 53 digits is the same.
pub proof fn law_translation_is_undone(c: CubicBez, o: Point)
    requires
        is_small_whole_point(c.p0),
        is_small_whole_point(c.p1),
        is_small_whole_point(c.p2),
        is_small_whole_point(c.p3),
        is_small_whole_point(o),
    ensures
        ({
            let r = translated(translated(c, o), Point { x: o.x.opposite(), y: o.y.opposite() });
            &&& r.p0.same(c.p0)
            &&& r.p1.same(c.p1)
            &&& r.p2.same(c.p2)
            &&& r.p3.same(c.p3)
        }),
{
    lemma_there_and_back(c.p0.x, o.x);
    lemma_there_and_back(c.p0.y, o.y);
    lemma_there_and_back(c.p1.x, o.x);
    lemma_there_and_back(c.p1.y, o.y);
    lemma_there_and_back(c.p2.x, o.x);
    lemma_there_and_back(c.p2.y, o.y);
    lemma_there_and_back(c.p3.x, o.x);
    lemma_there_and_back(c.p3.y, o.y);
}

}
