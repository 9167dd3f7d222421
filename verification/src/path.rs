//! Paths: sequences of drawing elements, and the segments that they draw.

use crate::arith::Arith;
use crate::float::Float;
use crate::geom::{dot, from_to, raised, straight, CubicBez, Point, QuadBez, Vec2};
use vstd::prelude::*;

verus! {

/// A straight line between two points.
#[derive(Clone, Copy, Debug)]
pub struct Line<A = Float> {
    pub p0: Point<A>,
    pub p1: Point<A>,
}

/// One element of a path. What it draws begins at the current point.
#[derive(Clone, Copy, Debug, PartialEq)]
pub enum PathEl {
    /// Begin a new subpath at the point.
    MoveTo(Point),
    /// Draw a line to the point.
    LineTo(Point),
    /// Draw a quadratic curve, given by its control point and its end.
    QuadTo(Point, Point),
    /// Draw a cubic curve, given by its control points and its end.
    CurveTo(Point, Point, Point),
    /// Close the subpath.
    ClosePath,
}

/// One drawn segment, with its starting point.
#[derive(Clone, Copy, Debug)]
pub enum PathSeg<A = Float> {
    Line(Line<A>),
    Quad(QuadBez<A>),
    Cubic(CubicBez<A>),
}

/// A vector must be longer than this, squared, to give a direction.
pub open spec fn shortest_direction() -> Float {
    Float::ratio(1, 1_000_000_000_000)
}

/// `u` if it is long enough to give a direction, else `v`.
pub open spec fn direction(u: Vec2, v: Vec2) -> Vec2 {
    if dot(u, u).gt(shortest_direction()) {
        u
    } else {
        v
    }
}

impl PathEl {
    /// Whether the element draws a segment of its own.
    pub open spec fn draws(self) -> bool {
        self is LineTo || self is QuadTo || self is CurveTo
    }

    /// Where the current point is after the element, if it names a point.
    pub open spec fn target(self) -> Point {
        match self {
            PathEl::MoveTo(p) => p,
            PathEl::LineTo(p) => p,
            PathEl::QuadTo(_, p) => p,
            PathEl::CurveTo(_, _, p) => p,
            PathEl::ClosePath => arbitrary(),
        }
    }

    /// The segment that the element draws from `last`.
    pub open spec fn segment_from(self, last: Point) -> PathSeg {
        match self {
            PathEl::LineTo(p) => PathSeg::Line(Line { p0: last, p1: p }),
            PathEl::QuadTo(p1, p2) => PathSeg::Quad(QuadBez { p0: last, p1, p2 }),
            PathEl::CurveTo(p1, p2, p3) => PathSeg::Cubic(CubicBez { p0: last, p1, p2, p3 }),
            _ => arbitrary(),
        }
    }
}

impl<A: Arith> PathSeg<A> {
    /// The segment as a cubic curve.
    pub open spec fn cubic(self) -> CubicBez<A> {
        match self {
            PathSeg::Line(l) => straight(l.p0, l.p1),
            PathSeg::Quad(q) => raised(q),
            PathSeg::Cubic(c) => c,
        }
    }
}

impl PathSeg {
    pub open spec fn first_point(self) -> Point {
        match self {
            PathSeg::Line(l) => l.p0,
            PathSeg::Quad(q) => q.p0,
            PathSeg::Cubic(c) => c.p0,
        }
    }

    pub open spec fn last_point(self) -> Point {
        match self {
            PathSeg::Line(l) => l.p1,
            PathSeg::Quad(q) => q.p2,
            PathSeg::Cubic(c) => c.p3,
        }
    }

    /// The path element that draws the segment from its starting point.
    pub open spec fn element(self) -> PathEl {
        match self {
            PathSeg::Line(l) => PathEl::LineTo(l.p1),
            PathSeg::Quad(q) => PathEl::QuadTo(q.p1, q.p2),
            PathSeg::Cubic(c) => PathEl::CurveTo(c.p1, c.p2, c.p3),
        }
    }

    /// The directions in which the segment leaves its first point and arrives
    /// at its last. A control point too close to an end is passed over.
    pub open spec fn end_directions(self) -> (Vec2, Vec2) {
        match self {
            PathSeg::Line(l) => (from_to(l.p0, l.p1), from_to(l.p0, l.p1)),
            PathSeg::Quad(q) => (
                direction(from_to(q.p0, q.p1), from_to(q.p0, q.p2)),
                direction(from_to(q.p1, q.p2), from_to(q.p0, q.p2)),
            ),
            PathSeg::Cubic(c) => (
                direction(
                    from_to(c.p0, c.p1),
                    direction(from_to(c.p0, c.p2), from_to(c.p0, c.p3)),
                ),
                direction(
                    from_to(c.p2, c.p3),
                    direction(from_to(c.p1, c.p3), from_to(c.p0, c.p3)),
                ),
            ),
        }
    }

    /// The starting point.
    pub fn start(self) -> (r: Point)
        ensures
            r == self.first_point(),
    {
        match self {
            PathSeg::Line(l) => l.p0,
            PathSeg::Quad(q) => q.p0,
            PathSeg::Cubic(c) => c.p0,
        }
    }

    /// The end point.
    pub fn end(self) -> (r: Point)
        ensures
            r == self.last_point(),
    {
        match self {
            PathSeg::Line(l) => l.p1,
            PathSeg::Quad(q) => q.p2,
            PathSeg::Cubic(c) => c.p3,
        }
    }

    /// The segment as a cubic curve.
    pub fn to_cubic(self) -> (r: CubicBez)
        ensures
            r == self.cubic(),
    {
        match self {
            PathSeg::Line(l) => {
                let third = Float::quotient(1, 3);
                CubicBez::new(l.p0, l.p0.lerp(l.p1, third), l.p1.lerp(l.p0, third), l.p1)
            },
            PathSeg::Quad(q) => q.raise(),
            PathSeg::Cubic(c) => c,
        }
    }

    /// The directions at the start and at the end.
    pub fn tangents(self) -> (r: (Vec2, Vec2))
        ensures
            r == self.end_directions(),
    {
        match self {
            PathSeg::Line(l) => {
                let d = l.p1.minus_point(l.p0);
                (d, d)
            },
            PathSeg::Quad(q) => {
                let whole = q.p2.minus_point(q.p0);
                (
                    choose_direction(q.p1.minus_point(q.p0), whole),
                    choose_direction(q.p2.minus_point(q.p1), whole),
                )
            },
            PathSeg::Cubic(c) => {
                let whole = c.p3.minus_point(c.p0);
                (
                    choose_direction(
                        c.p1.minus_point(c.p0),
                        choose_direction(c.p2.minus_point(c.p0), whole),
                    ),
                    choose_direction(
                        c.p3.minus_point(c.p2),
                        choose_direction(c.p3.minus_point(c.p1), whole),
                    ),
                )
            },
        }
    }
}

fn choose_direction(u: Vec2, v: Vec2) -> (r: Vec2)
    ensures
        r == direction(u, v),
{
    if u.dot(u).exceeds(Float::quotient(1, 1_000_000_000_000)) {
        u
    } else {
        v
    }
}

/// A path: the elements in the order in which they are drawn.
#[derive(Clone, Debug, PartialEq)]
pub struct BezPath {
    els: Vec<PathEl>,
}

impl View for BezPath {
    type V = Seq<PathEl>;

    closed spec fn view(&self) -> Seq<PathEl> {
        self.els@
    }
}

impl BezPath {
    /// The path without elements.
    pub fn new() -> (r: BezPath)
        ensures
            r@ == Seq::<PathEl>::empty(),
    {
        BezPath { els: Vec::new() }
    }

    /// The path with the given elements.
    pub fn from_vec(els: Vec<PathEl>) -> (r: BezPath)
        ensures
            r@ == els@,
    {
        BezPath { els }
    }

    /// The elements.
    pub fn elements(&self) -> (r: &[PathEl])
        ensures
            r@ == self@,
    {
        self.els.as_slice()
    }

    /// Whether nothing is drawn: the path holds no segment.
    pub fn is_empty(&self) -> (r: bool)
        ensures
            r == (forall|i: int| 0 <= i < self@.len() ==> !(#[trigger] self@[i]).draws()),
    {
        let mut i: usize = 0;
        while i < self.els.len()
            invariant
                i <= self.els.len(),
                forall|j: int| 0 <= j < i ==> !(#[trigger] self@[j]).draws(),
            decreases self.els.len() - i,
        {
            match self.els[i] {
                PathEl::MoveTo(_) => {},
                PathEl::ClosePath => {},
                _ => {
                    assert(self@[i as int].draws());
                    return false;
                },
            }
            i = i + 1;
        }
        true
    }

    /// Appends an element.
    pub fn push(&mut self, el: PathEl)
        ensures
            final(self)@ == old(self)@.push(el),
    {
        self.els.push(el);
    }

    pub fn move_to(&mut self, p: Point)
        ensures
            final(self)@ == old(self)@.push(PathEl::MoveTo(p)),
    {
        self.push(PathEl::MoveTo(p));
    }

    pub fn line_to(&mut self, p: Point)
        ensures
            final(self)@ == old(self)@.push(PathEl::LineTo(p)),
    {
        self.push(PathEl::LineTo(p));
    }

    pub fn quad_to(&mut self, p1: Point, p2: Point)
        ensures
            final(self)@ == old(self)@.push(PathEl::QuadTo(p1, p2)),
    {
        self.push(PathEl::QuadTo(p1, p2));
    }

    pub fn curve_to(&mut self, p1: Point, p2: Point, p3: Point)
        ensures
            final(self)@ == old(self)@.push(PathEl::CurveTo(p1, p2, p3)),
    {
        self.push(PathEl::CurveTo(p1, p2, p3));
    }

    pub fn close_path(&mut self)
        ensures
            final(self)@ == old(self)@.push(PathEl::ClosePath),
    {
        self.push(PathEl::ClosePath);
    }

    /// Removes every element from the given position on.
    pub fn truncate(&mut self, len: usize)
        ensures
            final(self)@ == (if len < old(self)@.len() { old(self)@.take(len as int) } else { old(
                self,
            )@ }),
    {
        if len < self.els.len() {
            self.els.truncate(len);
        }
    }

    /// Appends the elements, leaving out the first one unless `keep_first`.
    pub fn extend_from(&mut self, els: &[PathEl], keep_first: bool)
        ensures
            final(self)@ == old(self)@ + without_first(els@, keep_first),
    {
        let mut i: usize = if keep_first {
            0
        } else {
            1
        };
        let ghost tail = without_first(els@, keep_first);
        let ghost skipped = i as int;
        while i < els.len()
            invariant
                skipped == (if keep_first { 0int } else { 1 }),
                tail == without_first(els@, keep_first),
                skipped <= i,
                i <= els.len() || els.len() == 0,
                els.len() > 0 ==> self@ == old(self)@ + tail.take(i - skipped),
                els.len() == 0 ==> self@ == old(self)@,
            decreases els.len() - i,
        {
            let ghost before = self@;
            self.push(els[i]);
            proof {
                assert(tail[i - skipped] == els@[i as int]);
                assert(tail.take(i + 1 - skipped) =~= tail.take(i - skipped).push(els@[i as int]));
                assert(self@ =~= old(self)@ + tail.take(i + 1 - skipped));
            }
            i = i + 1;
        }
        proof {
            if els.len() > 0 {
                assert(tail.take(tail.len() as int) =~= tail);
            } else {
                assert(old(self)@ + tail =~= old(self)@);
            }
        }
    }
}

/// The sequence, without its first element unless `keep_first`.
pub open spec fn without_first(els: Seq<PathEl>, keep_first: bool) -> Seq<PathEl> {
    if keep_first || els.len() == 0 {
        els
    } else {
        els.drop_first()
    }
}

/// Where the pen is after a path: the start of the subpath and the current
/// point. A path that does not begin with a move begins where its first
/// element ends.
pub open spec fn pen(path: Seq<PathEl>) -> Option<(Point, Point)>
    decreases path.len(),
{
    if path.len() == 0 {
        None
    } else {
        let el = path.last();
        let before = pen_for(pen(path.drop_last()), el);
        match el {
            PathEl::MoveTo(p) => Some((p, p)),
            PathEl::ClosePath => if before.1.same(before.0) {
                Some(before)
            } else {
                Some((before.0, before.0))
            },
            _ => Some((before.0, el.target())),
        }
    }
}

/// Where the pen is when `el` comes, given where it was left.
pub open spec fn pen_for(at: Option<(Point, Point)>, el: PathEl) -> (Point, Point) {
    match at {
        Some(at) => at,
        None => (el.target(), el.target()),
    }
}

/// The segments that a path draws. Closing a subpath draws a line unless the
/// pen is back at its start.
pub open spec fn segments_of(path: Seq<PathEl>) -> Seq<PathSeg>
    decreases path.len(),
{
    if path.len() == 0 {
        Seq::empty()
    } else {
        let el = path.last();
        let before = pen_for(pen(path.drop_last()), el);
        let drawn = segments_of(path.drop_last());
        match el {
            PathEl::MoveTo(p) => drawn,
            PathEl::ClosePath => if before.1.same(before.0) {
                drawn
            } else {
                drawn.push(PathSeg::Line(Line { p0: before.1, p1: before.0 }))
            },
            _ => drawn.push(el.segment_from(before.1)),
        }
    }
}

/// The segments that a path draws.
pub fn segments(path: &[PathEl]) -> (r: Vec<PathSeg>)
    requires
        path@.len() > 0 ==> !(path@[0] is ClosePath),
    ensures
        r@ == segments_of(path@),
{
    let mut segs: Vec<PathSeg> = Vec::new();
    let mut at: Option<(Point, Point)> = None;
    let mut i: usize = 0;
    while i < path.len()
        invariant
            i <= path.len(),
            path@.len() > 0 ==> !(path@[0] is ClosePath),
            at == pen(path@.take(i as int)),
            segs@ == segments_of(path@.take(i as int)),
            i > 0 ==> at is Some,
        decreases path.len() - i,
    {
        let el = path[i];
        proof {
            assert(path@.take(i + 1).drop_last() =~= path@.take(i as int));
        }
        let (start, last) = match at {
            Some(both) => both,
            None => match el {
                PathEl::MoveTo(p) => (p, p),
                PathEl::LineTo(p) => (p, p),
                PathEl::QuadTo(_, p) => (p, p),
                PathEl::CurveTo(_, _, p) => (p, p),
                PathEl::ClosePath => {
                    assert(false);
                    return segs;
                },
            },
        };
        match el {
            PathEl::MoveTo(p) => {
                at = Some((p, p));
            },
            PathEl::LineTo(p) => {
                segs.push(PathSeg::Line(Line { p0: last, p1: p }));
                at = Some((start, p));
            },
            PathEl::QuadTo(p1, p2) => {
                segs.push(PathSeg::Quad(QuadBez { p0: last, p1, p2 }));
                at = Some((start, p2));
            },
            PathEl::CurveTo(p1, p2, p3) => {
                segs.push(PathSeg::Cubic(CubicBez { p0: last, p1, p2, p3 }));
                at = Some((start, p3));
            },
            PathEl::ClosePath => {
                if last == start {
                    at = Some((start, last));
                } else {
                    segs.push(PathSeg::Line(Line { p0: last, p1: start }));
                    at = Some((start, start));
                }
            },
        }
        i = i + 1;
    }
    proof {
        assert(path@.take(path.len() as int) =~= path@);
    }
    segs
}

}
