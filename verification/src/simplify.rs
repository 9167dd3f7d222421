//! Simplification of a Bézier path.
//!
//! A path is cut into runs of segments that join smoothly. A run of a single
//! segment is passed through; a longer one is handed to a curve fitter.

use crate::arith::{whole, Arith};
use crate::curve::{curves_of, prepared, SimplifyBezPath};
use crate::float::Float;
use crate::geom::{cross, dot, CubicBez, Point, QuadBez, Vec2};
use crate::path::{segments_of, without_first, BezPath, Line, PathEl, PathSeg};
use vstd::prelude::*;

verus! {

/// Optimization level for simplification.
#[derive(Clone, Copy, Debug, PartialEq, Eq)]
pub enum SimplifyOptLevel {
    /// Subdivide; faster but not as optimized results.
    Subdivide,
    /// Optimize subdivision points.
    Optimize,
}

/// Options for simplifying paths.
#[derive(Clone, Copy, Debug)]
pub struct SimplifyOptions {
    /// The tangent of the minimum angle below which the path is considered smooth.
    angle_thresh: Float,
    opt_level: SimplifyOptLevel,
}

impl SimplifyOptions {
    /// The tangent of the angle below which a join is smooth.
    pub closed spec fn thresh(self) -> Float {
        self.angle_thresh
    }

    pub closed spec fn level(self) -> SimplifyOptLevel {
        self.opt_level
    }

    /// Set optimization level.
    pub fn opt_level(self, level: SimplifyOptLevel) -> (r: SimplifyOptions)
        ensures
            r.level() == level,
            r.thresh() == self.thresh(),
    {
        SimplifyOptions { opt_level: level, ..self }
    }

    /// Set angle threshold.
    ///
    /// The tangent of the angle below which joins are considered smooth and
    /// not corners. The default is approximately 1 milliradian. A join turning
    /// by more than a right angle is always considered a corner, whatever the
    /// threshold.
    pub fn angle_thresh(self, thresh: Float) -> (r: SimplifyOptions)
        ensures
            r.thresh() == thresh,
            r.level() == self.level(),
    {
        SimplifyOptions { angle_thresh: thresh, ..self }
    }
}

impl Default for SimplifyOptions {
    fn default() -> (r: SimplifyOptions)
        ensures
            r.thresh() == Float::ratio(1, 1000),
            r.level() == SimplifyOptLevel::Subdivide,
    {
        SimplifyOptions {
            angle_thresh: Float::quotient(1, 1000),
            opt_level: SimplifyOptLevel::Subdivide,
        }
    }
}

/// Whether a turn from direction `u` to direction `v` is a corner: it is more
/// than a right angle, or its sine is larger than its cosine allows.
pub open spec fn turns(u: Vec2, v: Vec2, thresh: Float) -> bool {
    ||| dot(u, v).le(whole(0))
    ||| cross(u, v).absolute().gt(dot(u, v).times(thresh))
}

/// Whether two segments that follow each other meet at a corner.
pub open spec fn is_corner(last: PathSeg, this: PathSeg, thresh: Float) -> bool {
    turns(last.end_directions().1, this.end_directions().0, thresh)
}

/// Whether all points that a drawing element names are the current point.
pub open spec fn stays(el: PathEl, last: Point) -> bool {
    match el {
        PathEl::LineTo(p) => last.same(p),
        PathEl::QuadTo(p1, p2) => last.same(p1) && last.same(p2),
        PathEl::CurveTo(p1, p2, p3) => last.same(p1) && last.same(p2) && last.same(p3),
        _ => false,
    }
}

/// A piece of the result.
pub enum Piece {
    /// A run of smoothly joined segments, as a path that begins with a move.
    Run { els: Seq<PathEl>, moveto: bool },
    /// The end of a closed subpath.
    Close,
}

/// How far the simplification of a path has come.
pub struct Progress {
    pub last_pt: Option<Point>,
    pub last_seg: Option<PathSeg>,
    /// The run being collected, with its move.
    pub queue: Seq<PathEl>,
    /// Whether the next run begins a subpath.
    pub needs_moveto: bool,
    pub pieces: Seq<Piece>,
}

/// Ends the run being collected.
pub open spec fn flushed(p: Progress) -> Progress {
    if p.queue.len() == 0 {
        p
    } else {
        Progress {
            queue: Seq::empty(),
            needs_moveto: false,
            pieces: p.pieces.push(Piece::Run { els: p.queue, moveto: p.needs_moveto }),
            ..p
        }
    }
}

/// A run with one more segment.
pub open spec fn queue_with(queue: Seq<PathEl>, seg: PathSeg) -> Seq<PathEl> {
    if queue.len() == 0 {
        seq![PathEl::MoveTo(seg.first_point()), seg.element()]
    } else {
        queue.push(seg.element())
    }
}

/// One element of the path.
pub open spec fn step(p: Progress, el: PathEl, thresh: Float) -> Progress {
    match el {
        PathEl::MoveTo(q) => Progress {
            last_pt: Some(q),
            last_seg: None,
            needs_moveto: true,
            ..flushed(p)
        },
        PathEl::ClosePath => Progress {
            last_seg: None,
            needs_moveto: true,
            pieces: flushed(p).pieces.push(Piece::Close),
            ..flushed(p)
        },
        _ => if stays(el, p.last_pt->0) {
            p
        } else {
            let seg = el.segment_from(p.last_pt->0);
            let f = if p.last_seg is Some && is_corner(p.last_seg->0, seg, thresh) {
                flushed(p)
            } else {
                p
            };
            Progress {
                last_pt: Some(seg.last_point()),
                last_seg: Some(seg),
                queue: queue_with(f.queue, seg),
                ..f
            }
        },
    }
}

pub open spec fn no_progress() -> Progress {
    Progress {
        last_pt: None,
        last_seg: None,
        queue: Seq::empty(),
        needs_moveto: false,
        pieces: Seq::empty(),
    }
}

/// What has been done when the elements of a path have been gone through.
pub open spec fn progress(path: Seq<PathEl>, thresh: Float) -> Progress
    decreases path.len(),
{
    if path.len() == 0 {
        no_progress()
    } else {
        step(progress(path.drop_last(), thresh), path.last(), thresh)
    }
}

/// The pieces into which a path is cut.
pub open spec fn pieces_of(path: Seq<PathEl>, thresh: Float) -> Seq<Piece> {
    flushed(progress(path, thresh)).pieces
}

/// Whether a fitter of the given level can answer `b` for a prepared path.
pub open spec fn fits<F, G>(
    level: SimplifyOptLevel,
    fit: F,
    fit_opt: G,
    s: SimplifyBezPath,
    accuracy: Float,
    b: BezPath,
) -> bool where
    F: Fn(&SimplifyBezPath, Float) -> BezPath,
    G: Fn(&SimplifyBezPath, Float) -> BezPath,
 {
    match level {
        SimplifyOptLevel::Subdivide => call_ensures(fit, (&s, accuracy), b),
        SimplifyOptLevel::Optimize => call_ensures(fit_opt, (&s, accuracy), b),
    }
}

/// What a run becomes: itself if it is a single segment, else what the fitter
/// answers. The leading move is left out inside a subpath.
pub open spec fn run_output<F, G>(
    els: Seq<PathEl>,
    moveto: bool,
    accuracy: Float,
    level: SimplifyOptLevel,
    fit: F,
    fit_opt: G,
    out: Seq<PathEl>,
) -> bool where
    F: Fn(&SimplifyBezPath, Float) -> BezPath,
    G: Fn(&SimplifyBezPath, Float) -> BezPath,
 {
    if els.len() == 2 {
        out == without_first(els, moveto)
    } else {
        exists|s: SimplifyBezPath, b: BezPath|
            {
                &&& s@ == prepared(curves_of(els))
                &&& #[trigger] fits(level, fit, fit_opt, s, accuracy, b)
                &&& out == without_first(b@, moveto)
            }
    }
}

/// What a piece becomes.
pub open spec fn piece_output<F, G>(
    piece: Piece,
    accuracy: Float,
    level: SimplifyOptLevel,
    fit: F,
    fit_opt: G,
    out: Seq<PathEl>,
) -> bool where
    F: Fn(&SimplifyBezPath, Float) -> BezPath,
    G: Fn(&SimplifyBezPath, Float) -> BezPath,
 {
    match piece {
        Piece::Run { els, moveto } => run_output(els, moveto, accuracy, level, fit, fit_opt, out),
        Piece::Close => out == seq![PathEl::ClosePath],
    }
}

/// Whether the outputs are what the pieces become, one for one.
pub open spec fn outputs_of<F, G>(
    pieces: Seq<Piece>,
    accuracy: Float,
    level: SimplifyOptLevel,
    fit: F,
    fit_opt: G,
    outs: Seq<Seq<PathEl>>,
) -> bool where
    F: Fn(&SimplifyBezPath, Float) -> BezPath,
    G: Fn(&SimplifyBezPath, Float) -> BezPath,
 {
    &&& outs.len() == pieces.len()
    &&& forall|i: int|
        0 <= i < pieces.len() ==> piece_output(
            pieces[i],
            accuracy,
            level,
            fit,
            fit_opt,
            #[trigger] outs[i],
        )
}

/// Whether the fitter of the given level accepts a prepared path.
pub open spec fn takes<F, G>(
    level: SimplifyOptLevel,
    fit: F,
    fit_opt: G,
    s: SimplifyBezPath,
    accuracy: Float,
) -> bool where
    F: Fn(&SimplifyBezPath, Float) -> BezPath,
    G: Fn(&SimplifyBezPath, Float) -> BezPath,
 {
    match level {
        SimplifyOptLevel::Subdivide => call_requires(fit, (&s, accuracy)),
        SimplifyOptLevel::Optimize => call_requires(fit_opt, (&s, accuracy)),
    }
}

/// Whether the fitter of the given level accepts every prepared path of at
/// least two curves: no other is handed to it.
pub open spec fn takes_runs<F, G>(
    level: SimplifyOptLevel,
    fit: F,
    fit_opt: G,
    accuracy: Float,
) -> bool where
    F: Fn(&SimplifyBezPath, Float) -> BezPath,
    G: Fn(&SimplifyBezPath, Float) -> BezPath,
 {
    forall|s: SimplifyBezPath|
        s@.els.len() >= 2 ==> #[trigger] takes(level, fit, fit_opt, s, accuracy)
}

/// Whether every drawing element comes after a move.
pub open spec fn starts_with_moves(path: Seq<PathEl>) -> bool {
    forall|i: int|
        0 <= i < path.len() && (#[trigger] path[i]).draws() ==> exists|j: int|
            0 <= j < i && (#[trigger] path[j]) is MoveTo
}

/// The simplifier between two elements of a path.
#[derive(Debug)]
pub struct SimplifyState {
    queue: BezPath,
    result: BezPath,
    needs_moveto: bool,
}

/// What the simplifier holds.
pub struct StateView {
    pub queue: Seq<PathEl>,
    pub result: Seq<PathEl>,
    pub needs_moveto: bool,
}

/// A queue is empty, or a move followed by at least one segment.
pub open spec fn is_queue(queue: Seq<PathEl>) -> bool {
    queue.len() > 0 ==> {
        &&& queue.len() >= 2
        &&& queue[0] is MoveTo
        &&& forall|i: int| 1 <= i < queue.len() ==> (#[trigger] queue[i]).draws()
    }
}

/// Whether ending the run being collected leads from one state to the other.
/// Nothing happens if there is none; else what becomes of it is put out.
pub open spec fn flushes<F, G>(
    was: StateView,
    now: StateView,
    accuracy: Float,
    level: SimplifyOptLevel,
    fit: F,
    fit_opt: G,
) -> bool where
    F: Fn(&SimplifyBezPath, Float) -> BezPath,
    G: Fn(&SimplifyBezPath, Float) -> BezPath,
 {
    &&& now.queue == Seq::<PathEl>::empty()
    &&& if was.queue.len() == 0 {
        now == was
    } else {
        &&& !now.needs_moveto
        &&& exists|out: Seq<PathEl>|
            {
                &&& now.result == was.result + out
                &&& #[trigger] run_output(
                    was.queue,
                    was.needs_moveto,
                    accuracy,
                    level,
                    fit,
                    fit_opt,
                    out,
                )
            }
    }
}

/// A run draws as many segments as it has elements behind its move.
pub proof fn lemma_run_length(els: Seq<PathEl>)
    requires
        els.len() > 0,
        els[0] is MoveTo,
        forall|i: int| 1 <= i < els.len() ==> (#[trigger] els[i]).draws(),
    ensures
        segments_of(els).len() == els.len() - 1,
    decreases els.len(),
{
    if els.len() == 1 {
        assert(els.drop_last() =~= Seq::<PathEl>::empty());
        assert(segments_of(els.drop_last()) == Seq::<PathSeg>::empty());
    } else {
        let before = els.drop_last();
        assert forall|i: int| 1 <= i < before.len() implies (#[trigger] before[i]).draws() by {
            assert(els[i].draws());
        }
        lemma_run_length(before);
        assert(els[els.len() - 1].draws());
    }
}

impl View for SimplifyState {
    type V = StateView;

    closed spec fn view(&self) -> StateView {
        StateView {
            queue: self.queue@,
            result: self.result@,
            needs_moveto: self.needs_moveto,
        }
    }
}

impl Default for SimplifyState {
    fn default() -> (r: SimplifyState)
        ensures
            r.wf(),
            r@.queue == Seq::<PathEl>::empty(),
            r@.result == Seq::<PathEl>::empty(),
            !r@.needs_moveto,
    {
        SimplifyState { queue: BezPath::new(), result: BezPath::new(), needs_moveto: false }
    }
}

impl SimplifyState {
    pub open spec fn wf(&self) -> bool {
        is_queue(self@.queue)
    }

    /// Adds a segment to the run being collected.
    pub fn add_seg(&mut self, seg: PathSeg)
        requires
            old(self).wf(),
        ensures
            final(self).wf(),
            final(self)@.queue == queue_with(old(self)@.queue, seg),
            final(self)@.result == old(self)@.result,
            final(self)@.needs_moveto == old(self)@.needs_moveto,
    {
        if self.queue.is_empty() {
            assert(self.queue@.len() == 0) by {
                if self.queue@.len() > 0 {
                    assert(self.queue@[1].draws());
                }
            }
            self.queue.move_to(seg.start());
        }
        match seg {
            PathSeg::Line(l) => self.queue.line_to(l.p1),
            PathSeg::Quad(q) => self.queue.quad_to(q.p1, q.p2),
            PathSeg::Cubic(c) => self.queue.curve_to(c.p1, c.p2, c.p3),
        }
        assert(self@.queue =~= queue_with(old(self)@.queue, seg));
    }

    /// Ends the run being collected and appends what becomes of it to the
    /// result.
    pub fn flush<F, G>(&mut self, accuracy: Float, options: &SimplifyOptions, fit: &F, fit_opt: &G)
        where
            F: Fn(&SimplifyBezPath, Float) -> BezPath,
            G: Fn(&SimplifyBezPath, Float) -> BezPath,

        requires
            old(self).wf(),
            takes_runs(options.level(), *fit, *fit_opt, accuracy),
        ensures
            final(self).wf(),
            flushes(old(self)@, final(self)@, accuracy, options.level(), *fit, *fit_opt),
    {
        if self.queue.is_empty() {
            assert(self.queue@.len() == 0) by {
                if self.queue@.len() > 0 {
                    assert(self.queue@[1].draws());
                }
            }
            assert(self@.queue =~= Seq::<PathEl>::empty());
            return;
        }
        let ghost out: Seq<PathEl>;
        if self.queue.elements().len() == 2 {
            // Queue is just one segment (count is moveto + primitive)
            // Just output the segment, no simplification is possible.
            self.result.extend_from(self.queue.elements(), self.needs_moveto);
            proof {
                out = without_first(self.queue@, self.needs_moveto);
            }
        } else {
            let s = SimplifyBezPath::new(self.queue.elements());
            proof {
                lemma_run_length(self.queue@);
                assert(takes(options.level(), *fit, *fit_opt, s, accuracy));
            }
            let b = match options.opt_level {
                SimplifyOptLevel::Subdivide => fit(&s, accuracy),
                SimplifyOptLevel::Optimize => fit_opt(&s, accuracy),
            };
            self.result.extend_from(b.elements(), self.needs_moveto);
            proof {
                out = without_first(b@, self.needs_moveto);
                assert(fits(options.level(), *fit, *fit_opt, s, accuracy, b));
            }
        }
        self.needs_moveto = false;
        self.queue.truncate(0);
        proof {
            assert(self@.queue =~= Seq::<PathEl>::empty());
            assert(run_output(
                old(self)@.queue,
                old(self)@.needs_moveto,
                accuracy,
                options.level(),
                *fit,
                *fit_opt,
                out,
            ));
        }
    }
}

/// Whether two segments that follow each other meet at a corner.
pub fn meets_at_corner(last: PathSeg, this: PathSeg, thresh: Float) -> (r: bool)
    ensures
        r == is_corner(last, this, thresh),
{
    let last_tan = last.tangents().1;
    let this_tan = this.tangents().0;
    let cross = last_tan.cross(this_tan);
    let dot = last_tan.dot(this_tan);
    // The `|sin θ| > |cos θ| * thresh` test is periodic with period π,
    // so on its own it cannot tell a fold from a straight join; a 180°
    // reversal scores as well as no turn at all. A negative dot product
    // means the turn is more than a right angle, which is always a
    // corner, so test that separately.
    dot.at_most(Float::whole(0)) || cross.abs().exceeds(dot * thresh)
}

/// The segment that a drawing element draws from `last`, unless it stays there.
fn drawn_segment(el: PathEl, last: Point) -> (r: Option<PathSeg>)
    requires
        el.draws(),
    ensures
        r == (if stays(el, last) { None } else { Some(el.segment_from(last)) }),
{
    match el {
        PathEl::LineTo(p) => {
            if last == p {
                None
            } else {
                Some(PathSeg::Line(Line { p0: last, p1: p }))
            }
        },
        PathEl::QuadTo(p1, p2) => {
            if last == p1 && last == p2 {
                None
            } else {
                Some(PathSeg::Quad(QuadBez::new(last, p1, p2)))
            }
        },
        PathEl::CurveTo(p1, p2, p3) => {
            if last == p1 && last == p2 && last == p3 {
                None
            } else {
                Some(PathSeg::Cubic(CubicBez::new(last, p1, p2, p3)))
            }
        },
        _ => None,
    }
}

/// Simplify a Bézier path.
///
/// This function simplifies an arbitrary Bézier path; it is designed to handle
/// multiple subpaths and also corners. `fit` and `fit_opt` fit a path to a
/// prepared curve: the first by subdividing it, the second by optimizing the
/// subdivision points.
///
/// The underlying curve-fitting approach works best if the source path is very
/// smooth. If it contains higher frequency noise, then results may be poor.
/// For such inputs, consider some form of smoothing or low-pass filtering
/// before simplification.
pub fn simplify_bezpath<F, G>(
    path: &[PathEl],
    accuracy: Float,
    options: &SimplifyOptions,
    fit: &F,
    fit_opt: &G,
) -> (r: BezPath) where
    F: Fn(&SimplifyBezPath, Float) -> BezPath,
    G: Fn(&SimplifyBezPath, Float) -> BezPath,

    requires
        starts_with_moves(path@),
        takes_runs(options.level(), *fit, *fit_opt, accuracy),
    ensures
        exists|outs: Seq<Seq<PathEl>>|
            {
                &&& #[trigger] outputs_of(
                    pieces_of(path@, options.thresh()),
                    accuracy,
                    options.level(),
                    *fit,
                    *fit_opt,
                    outs,
                )
                &&& r@ == outs.flatten()
            },
{
    let mut last_pt: Option<Point> = None;
    let mut last_seg: Option<PathSeg> = None;
    let mut state = SimplifyState::default();
    let ghost mut done = no_progress();
    let ghost mut outs: Seq<Seq<PathEl>> = Seq::empty();
    let ghost thresh = options.thresh();
    let mut i: usize = 0;
    while i < path.len()
        invariant
            i <= path.len(),
            starts_with_moves(path@),
            takes_runs(options.level(), *fit, *fit_opt, accuracy),
            thresh == options.thresh(),
            done == progress(path@.take(i as int), thresh),
            (exists|j: int| 0 <= j < i && (#[trigger] path@[j]) is MoveTo) ==> last_pt is Some,
            last_pt == done.last_pt,
            last_seg == done.last_seg,
            state.wf(),
            state@.queue == done.queue,
            state@.needs_moveto == done.needs_moveto,
            outputs_of(done.pieces, accuracy, options.level(), *fit, *fit_opt, outs),
            state@.result == outs.flatten(),
        decreases path.len() - i,
    {
        let el = path[i];
        let ghost before = done;
        proof {
            assert(path@.take(i + 1).drop_last() =~= path@.take(i as int));
            done = step(before, el, thresh);
        }
        match el {
            PathEl::MoveTo(p) => {
                let ghost was = state@;
                state.flush(accuracy, options, fit, fit_opt);
                proof {
                    outs = flushed_outputs(
                        before,
                        was,
                        state@,
                        accuracy,
                        options.level(),
                        *fit,
                        *fit_opt,
                        outs,
                    );
                }
                state.needs_moveto = true;
                last_pt = Some(p);
                last_seg = None;
            },
            PathEl::ClosePath => {
                let ghost was = state@;
                state.flush(accuracy, options, fit, fit_opt);
                proof {
                    outs = flushed_outputs(
                        before,
                        was,
                        state@,
                        accuracy,
                        options.level(),
                        *fit,
                        *fit_opt,
                        outs,
                    );
                    outs.lemma_flatten_push(seq![PathEl::ClosePath]);
                    outs = outs.push(seq![PathEl::ClosePath]);
                }
                state.result.close_path();
                state.needs_moveto = true;
                last_seg = None;
            },
            _ => {
                assert(path@[i as int].draws());
                let last = match last_pt {
                    Some(p) => p,
                    None => {
                        assert(false);
                        return state.result;
                    },
                };
                if let Some(seg) = drawn_segment(el, last) {
                    let corner = match last_seg {
                        Some(previous) => meets_at_corner(previous, seg, options.angle_thresh),
                        None => false,
                    };
                    if corner {
                        let ghost was = state@;
                        state.flush(accuracy, options, fit, fit_opt);
                        proof {
                            outs = flushed_outputs(
                                before,
                                was,
                                state@,
                                accuracy,
                                options.level(),
                                *fit,
                                *fit_opt,
                                outs,
                            );
                        }
                    }
                    last_pt = Some(seg.end());
                    state.add_seg(seg);
                    last_seg = Some(seg);
                }
            },
        }
        i = i + 1;
    }
    proof {
        assert(path@.take(path.len() as int) =~= path@);
    }
    let ghost was = state@;
    state.flush(accuracy, options, fit, fit_opt);
    proof {
        outs = flushed_outputs(
            done,
            was,
            state@,
            accuracy,
            options.level(),
            *fit,
            *fit_opt,
            outs,
        );
        assert(outputs_of(
            pieces_of(path@, options.thresh()),
            accuracy,
            options.level(),
            *fit,
            *fit_opt,
            outs,
        ));
    }
    state.result
}

/// The outputs with that of the run that a flush has ended.
proof fn flushed_outputs<F, G>(
    p: Progress,
    was: StateView,
    now: StateView,
    accuracy: Float,
    level: SimplifyOptLevel,
    fit: F,
    fit_opt: G,
    outs: Seq<Seq<PathEl>>,
) -> (r: Seq<Seq<PathEl>>) where
    F: Fn(&SimplifyBezPath, Float) -> BezPath,
    G: Fn(&SimplifyBezPath, Float) -> BezPath,

    requires
        was.queue == p.queue,
        was.needs_moveto == p.needs_moveto,
        was.result == outs.flatten(),
        outputs_of(p.pieces, accuracy, level, fit, fit_opt, outs),
        flushes(was, now, accuracy, level, fit, fit_opt),
    ensures
        outputs_of(flushed(p).pieces, accuracy, level, fit, fit_opt, r),
        now.result == r.flatten(),
{
    if was.queue.len() == 0 {
        outs
    } else {
        let out = choose|out: Seq<PathEl>|
            {
                &&& now.result == was.result + out
                &&& #[trigger] run_output(
                    was.queue,
                    was.needs_moveto,
                    accuracy,
                    level,
                    fit,
                    fit_opt,
                    out,
                )
            };
        outs.lemma_flatten_push(out);
        outs.push(out)
    }
}

}
