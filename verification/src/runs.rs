//! Laws of the simplification: how a path and its pieces belong together.

use crate::curve::SimplifyBezPath;
use crate::drawing::{coincide, end_of, is_drawn, law_staying, lemma_pen};
use crate::float::Float;
use crate::geom::Point;
use crate::path::{pen, pen_for, segments_of, without_first, BezPath, PathEl, PathSeg};
use crate::simplify::{
    flushed, is_corner, is_queue, no_progress, outputs_of, piece_output, pieces_of, progress,
    queue_with, starts_with_moves, stays, step, Piece, Progress, SimplifyOptLevel,
};
use vstd::prelude::*;
use vstd::seq_lib::lemma_flatten_concat;

verus! {

/// The point that the simplifier draws from after a path. A closing does not
/// change it: what is drawn behind a closing without a move begins at the last
/// point drawn, where `pen` has gone back to the start of the subpath.
pub open spec fn current_point(path: Seq<PathEl>) -> Option<Point>
    decreases path.len(),
{
    if path.len() == 0 {
        None
    } else {
        let before = current_point(path.drop_last());
        match path.last() {
            PathEl::MoveTo(p) => Some(p),
            PathEl::ClosePath => before,
            _ => if stays(path.last(), before->0) {
                before
            } else {
                Some(path.last().target())
            },
        }
    }
}

/// The segments that the elements of a path draw from the current point, those
/// left out that stay there. Lines that closings draw are not among them.
pub open spec fn strokes(path: Seq<PathEl>) -> Seq<PathSeg>
    decreases path.len(),
{
    if path.len() == 0 {
        Seq::empty()
    } else {
        let before = current_point(path.drop_last());
        let el = path.last();
        if el.draws() && !stays(el, before->0) {
            strokes(path.drop_last()).push(el.segment_from(before->0))
        } else {
            strokes(path.drop_last())
        }
    }
}

/// The segments of a piece.
pub open spec fn piece_strokes(piece: Piece) -> Seq<PathSeg> {
    match piece {
        Piece::Run { els, moveto } => segments_of(els),
        Piece::Close => Seq::empty(),
    }
}

/// The segments of a sequence of pieces, one piece after the other.
pub open spec fn all_strokes(pieces: Seq<Piece>) -> Seq<PathSeg> {
    Seq::new(pieces.len(), |i: int| piece_strokes(pieces[i])).flatten()
}

/// Whether a run joins smoothly at every inner point.
pub open spec fn is_smooth(els: Seq<PathEl>, thresh: Float) -> bool {
    let segs = segments_of(els);
    forall|i: int| 0 < i < segs.len() ==> !is_corner(segs[i - 1], #[trigger] segs[i], thresh)
}

/// Whether a piece is an end, or a smooth run of at least one segment.
pub open spec fn is_proper(piece: Piece, thresh: Float) -> bool {
    match piece {
        Piece::Run { els, moveto } => els.len() > 0 && is_queue(els) && is_smooth(els, thresh),
        Piece::Close => true,
    }
}

/// What holds between any two elements.
pub open spec fn kept(path: Seq<PathEl>, p: Progress, thresh: Float) -> bool {
    &&& p.last_pt == current_point(path)
    &&& is_queue(p.queue)
    &&& is_smooth(p.queue, thresh)
    &&& p.queue.len() > 0 ==> {
        &&& p.last_seg is Some
        &&& p.last_pt == Some(p.last_seg->0.last_point())
        &&& pen(p.queue) is Some
        &&& (pen(p.queue)->0).1 == p.last_seg->0.last_point()
        &&& segments_of(p.queue).len() > 0
        &&& segments_of(p.queue).last() == p.last_seg->0
    }
    &&& p.queue.len() == 0 ==> p.last_seg is None
    &&& all_strokes(p.pieces) + segments_of(p.queue) == strokes(path)
    &&& forall|i: int| 0 <= i < p.pieces.len() ==> is_proper(#[trigger] p.pieces[i], thresh)
}

proof fn lemma_all_strokes_push(pieces: Seq<Piece>, piece: Piece)
    ensures
        all_strokes(pieces.push(piece)) == all_strokes(pieces) + piece_strokes(piece),
{
    let parts = Seq::new(pieces.len(), |i: int| piece_strokes(pieces[i]));
    assert(Seq::new(pieces.push(piece).len(), |i: int| piece_strokes(pieces.push(piece)[i]))
        =~= parts.push(piece_strokes(piece)));
    parts.lemma_flatten_push(piece_strokes(piece));
}

proof fn lemma_flushed(path: Seq<PathEl>, p: Progress, thresh: Float)
    requires
        kept(path, p, thresh),
    ensures
        flushed(p).queue.len() == 0,
        flushed(p).last_pt == p.last_pt,
        all_strokes(flushed(p).pieces) == strokes(path),
        forall|i: int|
            0 <= i < flushed(p).pieces.len() ==> is_proper(#[trigger] flushed(p).pieces[i], thresh),
{
    if p.queue.len() > 0 {
        lemma_all_strokes_push(p.pieces, Piece::Run { els: p.queue, moveto: p.needs_moveto });
    } else {
        assert(all_strokes(p.pieces) + segments_of(p.queue) =~= all_strokes(p.pieces));
    }
}

/// A segment, drawn again by its own element from its own first point.
proof fn lemma_redrawn(el: PathEl, last: Point)
    requires
        el.draws(),
    ensures
        el.segment_from(last).element() == el,
        el.segment_from(last).first_point() == last,
        el.segment_from(last).last_point() == el.target(),
{
}

/// The segments of a run with one more segment.
pub(crate) proof fn lemma_queue_with(queue: Seq<PathEl>, el: PathEl, last: Point)
    requires
        el.draws(),
        queue.len() > 0 ==> pen(queue) is Some && (pen(queue)->0).1 == last,
        is_queue(queue),
    ensures
        ({
            let seg = el.segment_from(last);
            let q = queue_with(queue, seg);
            &&& is_queue(q)
            &&& q.len() > 0
            &&& segments_of(q) == segments_of(queue).push(seg)
            &&& pen(q) is Some
            &&& (pen(q)->0).1 == seg.last_point()
        }),
{
    let seg = el.segment_from(last);
    let q = queue_with(queue, seg);
    lemma_redrawn(el, last);
    if queue.len() == 0 {
        let first = seq![PathEl::MoveTo(last)];
        assert(first.drop_last() =~= Seq::<PathEl>::empty());
        assert(segments_of(Seq::<PathEl>::empty()) == Seq::<PathSeg>::empty());
        assert(pen(first) == Some((last, last)));
        assert(segments_of(first) == Seq::<PathSeg>::empty());
        assert(q.drop_last() =~= first);
        assert(segments_of(queue) == Seq::<PathSeg>::empty());
    } else {
        assert(q.drop_last() =~= queue);
    }
}

proof fn lemma_step(path: Seq<PathEl>, p: Progress, el: PathEl, thresh: Float)
    requires
        kept(path, p, thresh),
        el.draws() ==> p.last_pt is Some,
    ensures
        kept(path.push(el), step(p, el, thresh), thresh),
{
    let next = path.push(el);
    let s = step(p, el, thresh);
    assert(next.drop_last() =~= path);
    match el {
        PathEl::MoveTo(q) => {
            lemma_flushed(path, p, thresh);
            assert(segments_of(s.queue) == Seq::<PathSeg>::empty());
            assert(all_strokes(s.pieces) + segments_of(s.queue) =~= strokes(next));
        },
        PathEl::ClosePath => {
            lemma_flushed(path, p, thresh);
            lemma_all_strokes_push(flushed(p).pieces, Piece::Close);
            assert(segments_of(s.queue) == Seq::<PathSeg>::empty());
            assert(all_strokes(s.pieces) + segments_of(s.queue) =~= strokes(next));
        },
        _ => {
            let last = p.last_pt->0;
            if !stays(el, last) {
                let seg = el.segment_from(last);
                lemma_redrawn(el, last);
                let corner = p.last_seg is Some && is_corner(p.last_seg->0, seg, thresh);
                let f = if corner {
                    flushed(p)
                } else {
                    p
                };
                lemma_flushed(path, p, thresh);
                assert(segments_of(Seq::<PathEl>::empty()) == Seq::<PathSeg>::empty());
                lemma_queue_with(f.queue, el, last);
                assert(all_strokes(f.pieces) + segments_of(f.queue) =~= strokes(path));
                assert(all_strokes(s.pieces) + segments_of(s.queue) =~= strokes(next));
            }
        },
    }
}

pub(crate) proof fn lemma_invariant(path: Seq<PathEl>, thresh: Float)
    requires
        starts_with_moves(path),
    ensures
        kept(path, progress(path, thresh), thresh),
    decreases path.len(),
{
    if path.len() == 0 {
        assert(all_strokes(Seq::<Piece>::empty()) =~= Seq::<PathSeg>::empty());
        assert(segments_of(Seq::<PathEl>::empty()) == Seq::<PathSeg>::empty());
        let p = no_progress();
        assert(all_strokes(p.pieces) + segments_of(p.queue) =~= strokes(path));
    } else {
        let before = path.drop_last();
        let el = path.last();
        lemma_starts_prefix(path, before.len() as int);
        assert(path.take(before.len() as int) =~= before);
        lemma_invariant(before, thresh);
        if el.draws() {
            lemma_current_point(path);
        }
        lemma_step(before, progress(before, thresh), el, thresh);
        assert(before.push(el) =~= path);
    }
}

pub(crate) proof fn lemma_starts_prefix(path: Seq<PathEl>, n: int)
    requires
        starts_with_moves(path),
        0 <= n <= path.len(),
    ensures
        starts_with_moves(path.take(n)),
{
    let part = path.take(n);
    assert forall|i: int| 0 <= i < part.len() && (#[trigger] part[i]).draws() implies exists|j: int|
        0 <= j < i && (#[trigger] part[j]) is MoveTo by {
        assert(path[i].draws());
        let j = choose|j: int| 0 <= j < i && (#[trigger] path[j]) is MoveTo;
        assert(part[j] is MoveTo);
    }
}

/// After a move there is a current point.
proof fn lemma_current_point_some(path: Seq<PathEl>, j: int)
    requires
        0 <= j < path.len(),
        path[j] is MoveTo,
    ensures
        current_point(path) is Some,
    decreases path.len(),
{
    if j < path.len() - 1 {
        assert(path.drop_last()[j] is MoveTo);
        lemma_current_point_some(path.drop_last(), j);
    }
}

pub(crate) proof fn lemma_current_point(path: Seq<PathEl>)
    requires
        starts_with_moves(path),
        path.len() > 0,
        path.last().draws(),
    ensures
        current_point(path.drop_last()) is Some,
{
    let i = path.len() - 1;
    assert(path[i].draws());
    let j = choose|j: int| 0 <= j < i && (#[trigger] path[j]) is MoveTo;
    assert(path.drop_last()[j] is MoveTo);
    lemma_current_point_some(path.drop_last(), j);
}

/// The runs into which a path is cut hold its strokes in their order: none is
/// lost, and none changes its place.
pub proof fn law_pieces_hold_the_path(path: Seq<PathEl>, thresh: Float)
    requires
        starts_with_moves(path),
    ensures
        all_strokes(pieces_of(path, thresh)) == strokes(path),
{
    lemma_invariant(path, thresh);
    lemma_flushed(path, progress(path, thresh), thresh);
}

/// The segments of a path, the lines left out that closings draw, and the
/// elements that stay where the pen is.
pub open spec fn drawn_segments(path: Seq<PathEl>) -> Seq<PathSeg>
    decreases path.len(),
{
    if path.len() == 0 {
        Seq::empty()
    } else {
        let el = path.last();
        let at = pen_for(pen(path.drop_last()), el).1;
        let drawn = drawn_segments(path.drop_last());
        if el.draws() && !stays(el, at) {
            drawn.push(el.segment_from(at))
        } else {
            drawn
        }
    }
}

/// Whether a closing is the last element, or comes right before a move.
pub open spec fn ends_subpath(path: Seq<PathEl>, i: int) -> bool {
    path[i] is ClosePath && i + 1 < path.len() ==> path[i + 1] is MoveTo
}

/// Whether an element that stays at the current point ends at that very point:
/// zeros do not change their signs.
pub open spec fn stays_put(path: Seq<PathEl>, i: int) -> bool {
    let at = current_point(path.take(i))->0;
    path[i].draws() && stays(path[i], at) ==> path[i].target() == at
}

/// Where every closing ends its subpath, the strokes are the segments of the
/// path: what a path draws, but for the lines that closings draw, is what its
/// runs hold.
pub proof fn law_strokes_are_segments(path: Seq<PathEl>)
    requires
        starts_with_moves(path),
        forall|i: int| 0 <= i < path.len() ==> #[trigger] ends_subpath(path, i),
        forall|i: int| 0 <= i < path.len() ==> #[trigger] stays_put(path, i),
    ensures
        strokes(path) == drawn_segments(path),
{
    assert(path.take(path.len() as int) =~= path);
    lemma_strokes(path, path.len() as int);
}

proof fn lemma_strokes(path: Seq<PathEl>, n: int)
    requires
        starts_with_moves(path),
        forall|i: int| 0 <= i < path.len() ==> #[trigger] ends_subpath(path, i),
        forall|i: int| 0 <= i < path.len() ==> #[trigger] stays_put(path, i),
        0 <= n <= path.len(),
    ensures
        strokes(path.take(n)) == drawn_segments(path.take(n)),
        n > 0 && !(path[n - 1] is ClosePath) ==> pen(path.take(n)) is Some && current_point(
            path.take(n),
        ) == Some((pen(path.take(n))->0).1),
    decreases n,
{
    if n > 0 {
        let part = path.take(n);
        let before = path.take(n - 1);
        lemma_strokes(path, n - 1);
        assert(part.drop_last() =~= before);
        let el = path[n - 1];
        assert(part.last() == el);
        if el.draws() {
            lemma_starts_prefix(path, n);
            lemma_current_point(part);
            assert(n > 1);
            assert(ends_subpath(path, n - 2));
            assert(stays_put(path, n - 1));
        }
    }
}

/// A run holds at least one segment, begins with a move, and has no corner
/// inside.
pub proof fn law_runs_are_smooth(path: Seq<PathEl>, thresh: Float, i: int)
    requires
        starts_with_moves(path),
        0 <= i < pieces_of(path, thresh).len(),
    ensures
        is_proper(pieces_of(path, thresh)[i], thresh),
{
    lemma_invariant(path, thresh);
    lemma_flushed(path, progress(path, thresh), thresh);
}

/// A progress whose pieces come after others.
spec fn behind(pieces: Seq<Piece>, p: Progress) -> Progress {
    Progress { pieces: pieces + p.pieces, ..p }
}

proof fn lemma_step_behind(pieces: Seq<Piece>, p: Progress, el: PathEl, thresh: Float)
    ensures
        step(behind(pieces, p), el, thresh) == behind(pieces, step(p, el, thresh)),
        flushed(behind(pieces, p)) == behind(pieces, flushed(p)),
{
    let run = Piece::Run { els: p.queue, moveto: p.needs_moveto };
    assert((pieces + p.pieces).push(run) =~= pieces + p.pieces.push(run));
    assert((pieces + p.pieces).push(Piece::Close) =~= pieces + p.pieces.push(Piece::Close));
    assert((pieces + p.pieces).push(run).push(Piece::Close) =~= pieces + p.pieces.push(run).push(
        Piece::Close,
    ));
}

proof fn lemma_progress_behind(a: Seq<PathEl>, b: Seq<PathEl>, thresh: Float)
    requires
        b.len() > 0,
        b[0] is MoveTo,
    ensures
        progress(a + b, thresh) == behind(pieces_of(a, thresh), progress(b, thresh)),
    decreases b.len(),
{
    let el = b.last();
    assert((a + b).drop_last() =~= a + b.drop_last());
    assert((a + b).last() == el);
    if b.len() == 1 {
        assert(a + b.drop_last() =~= a);
        assert(b.drop_last() =~= Seq::<PathEl>::empty());
        assert(progress(b.drop_last(), thresh) == no_progress());
        assert(flushed(progress(a, thresh)).queue =~= Seq::<PathEl>::empty());
        assert(pieces_of(a, thresh) + Seq::<Piece>::empty() =~= pieces_of(a, thresh));
    } else {
        lemma_progress_behind(a, b.drop_last(), thresh);
        lemma_step_behind(pieces_of(a, thresh), progress(b.drop_last(), thresh), el, thresh);
    }
}

/// Subpaths are simplified one by one: what comes before a move has no
/// influence on what comes from it on.
pub proof fn law_subpaths_are_independent(a: Seq<PathEl>, b: Seq<PathEl>, thresh: Float)
    requires
        b.len() > 0,
        b[0] is MoveTo,
    ensures
        pieces_of(a + b, thresh) == pieces_of(a, thresh) + pieces_of(b, thresh),
{
    lemma_progress_behind(a, b, thresh);
    lemma_step_behind(pieces_of(a, thresh), progress(b, thresh), PathEl::ClosePath, thresh);
}

/// The results of two paths, one behind the other, are a result of the joint
/// path, if the second begins with a move.
pub proof fn law_results_join<F, G>(
    a: Seq<PathEl>,
    b: Seq<PathEl>,
    thresh: Float,
    accuracy: Float,
    level: SimplifyOptLevel,
    fit: F,
    fit_opt: G,
    outs_a: Seq<Seq<PathEl>>,
    outs_b: Seq<Seq<PathEl>>,
) where
    F: Fn(&SimplifyBezPath, Float) -> BezPath,
    G: Fn(&SimplifyBezPath, Float) -> BezPath,

    requires
        b.len() > 0,
        b[0] is MoveTo,
        outputs_of(pieces_of(a, thresh), accuracy, level, fit, fit_opt, outs_a),
        outputs_of(pieces_of(b, thresh), accuracy, level, fit, fit_opt, outs_b),
    ensures
        outputs_of(pieces_of(a + b, thresh), accuracy, level, fit, fit_opt, outs_a + outs_b),
        (outs_a + outs_b).flatten() == outs_a.flatten() + outs_b.flatten(),
{
    law_subpaths_are_independent(a, b, thresh);
    lemma_flatten_concat(outs_a, outs_b);
    let pieces = pieces_of(a + b, thresh);
    let outs = outs_a + outs_b;
    assert forall|i: int| 0 <= i < pieces.len() implies piece_output(
        pieces[i],
        accuracy,
        level,
        fit,
        fit_opt,
        #[trigger] outs[i],
    ) by {
        if i < outs_a.len() {
            assert(outs[i] == outs_a[i]);
        } else {
            assert(outs[i] == outs_b[i - outs_a.len()]);
        }
    }
}

/// The current point is the one that the simplifier draws from.
pub(crate) proof fn lemma_last_pt(path: Seq<PathEl>, thresh: Float)
    ensures
        progress(path, thresh).last_pt == current_point(path),
    decreases path.len(),
{
    if path.len() > 0 {
        lemma_last_pt(path.drop_last(), thresh);
    }
}

proof fn lemma_progress_same(a: Seq<PathEl>, b: Seq<PathEl>, c: Seq<PathEl>, thresh: Float)
    requires
        progress(a, thresh) == progress(b, thresh),
    ensures
        progress(a + c, thresh) == progress(b + c, thresh),
    decreases c.len(),
{
    if c.len() == 0 {
        assert(a + c =~= a);
        assert(b + c =~= b);
    } else {
        lemma_progress_same(a, b, c.drop_last(), thresh);
        assert((a + c).drop_last() =~= a + c.drop_last());
        assert((b + c).drop_last() =~= b + c.drop_last());
    }
}

/// An element that stays at the current point changes nothing.
pub proof fn law_staying_changes_nothing(
    a: Seq<PathEl>,
    el: PathEl,
    b: Seq<PathEl>,
    thresh: Float,
)
    requires
        current_point(a) is Some,
        stays(el, current_point(a)->0),
    ensures
        pieces_of(a.push(el) + b, thresh) == pieces_of(a + b, thresh),
{
    lemma_last_pt(a, thresh);
    assert(a.push(el).drop_last() =~= a);
    lemma_progress_same(a.push(el), a, b, thresh);
}

/// Whether element `i` of a path leaves a trace of its own: a move is followed
/// by a segment; a segment comes from a move or another segment, goes
/// somewhere, and meets the one before it at a corner.
pub open spec fn is_angular_at(path: Seq<PathEl>, i: int, thresh: Float) -> bool {
    match path[i] {
        PathEl::MoveTo(_) => i + 1 < path.len() && path[i + 1].draws(),
        PathEl::ClosePath => true,
        _ => {
            let last = current_point(path.take(i))->0;
            &&& i > 0
            &&& !stays(path[i], last)
            &&& path[i - 1] is MoveTo || {
                &&& path[i - 1].draws()
                &&& is_corner(
                    path[i - 1].segment_from(current_point(path.take(i - 1))->0),
                    path[i].segment_from(last),
                    thresh,
                )
            }
        },
    }
}

/// Whether every element of a path leaves a trace of its own.
pub open spec fn is_angular(path: Seq<PathEl>, thresh: Float) -> bool {
    forall|i: int| 0 <= i < path.len() ==> #[trigger] is_angular_at(path, i, thresh)
}

/// A piece as it is if no fitter is needed for it.
spec fn plain_output(piece: Piece) -> Seq<PathEl> {
    match piece {
        Piece::Run { els, moveto } => without_first(els, moveto),
        Piece::Close => seq![PathEl::ClosePath],
    }
}

spec fn plain_outputs(pieces: Seq<Piece>) -> Seq<PathEl> {
    Seq::new(pieces.len(), |i: int| plain_output(pieces[i])).flatten()
}

proof fn lemma_plain_push(pieces: Seq<Piece>, piece: Piece)
    ensures
        plain_outputs(pieces.push(piece)) == plain_outputs(pieces) + plain_output(piece),
{
    let parts = Seq::new(pieces.len(), |i: int| plain_output(pieces[i]));
    assert(Seq::new(pieces.push(piece).len(), |i: int| plain_output(pieces.push(piece)[i]))
        =~= parts.push(plain_output(piece)));
    parts.lemma_flatten_push(plain_output(piece));
}

spec fn is_single(piece: Piece) -> bool {
    piece matches Piece::Run { els, moveto } ==> els.len() == 2
}

/// What holds on the way through an angular path: all but what is being
/// collected has been put out as it came.
spec fn unchanged(path: Seq<PathEl>, p: Progress) -> bool {
    &&& forall|i: int| 0 <= i < p.pieces.len() ==> is_single(#[trigger] p.pieces[i])
    &&& if path.len() == 0 {
        p == no_progress()
    } else {
        match path.last() {
            PathEl::MoveTo(q) => {
                &&& p.queue.len() == 0
                &&& p.needs_moveto
                &&& p.last_seg is None
                &&& plain_outputs(p.pieces) == path.drop_last()
            },
            PathEl::ClosePath => {
                &&& p.queue.len() == 0
                &&& p.last_seg is None
                &&& plain_outputs(p.pieces) == path
            },
            _ => {
                &&& p.queue.len() == 2
                &&& p.last_seg == Some(
                    path.last().segment_from(current_point(path.drop_last())->0),
                )
                &&& plain_outputs(p.pieces) + without_first(p.queue, p.needs_moveto) == path
            },
        }
    }
}

proof fn lemma_unchanged(path: Seq<PathEl>, n: int, thresh: Float)
    requires
        is_angular(path, thresh),
        0 <= n <= path.len(),
    ensures
        unchanged(path.take(n), progress(path.take(n), thresh)),
    decreases n,
{
    let part = path.take(n);
    if n > 0 {
        let before = path.take(n - 1);
        lemma_unchanged(path, n - 1, thresh);
        lemma_last_pt(before, thresh);
        assert(part.drop_last() =~= before);
        let p = progress(before, thresh);
        let el = path[n - 1];
        let f = flushed(p);
        let run = Piece::Run { els: p.queue, moveto: p.needs_moveto };
        lemma_plain_push(p.pieces, run);
        lemma_plain_push(f.pieces, Piece::Close);
        assert(el == part.last());
        assert(is_angular_at(path, n - 1, thresh));
        if n >= 2 {
            assert(is_angular_at(path, n - 2, thresh));
            assert(before.last() == path[n - 2]);
            assert(path.take(n - 2) =~= before.drop_last());
            let previous = path[n - 2];
            assert(previous is MoveTo ==> path[n - 1].draws());
        } else {
            assert(plain_outputs(Seq::<Piece>::empty()) =~= Seq::<PathEl>::empty());
        }
        match el {
            PathEl::MoveTo(q) => {
                assert(plain_outputs(f.pieces) =~= before);
            },
            PathEl::ClosePath => {
                assert(plain_outputs(f.pieces) =~= before);
                assert(before.push(PathEl::ClosePath) =~= part);
                assert(before + seq![PathEl::ClosePath] =~= part);
            },
            _ => {
                let last = current_point(before)->0;
                let seg = el.segment_from(last);
                lemma_redrawn(el, last);
                let previous = path[n - 2];
                let s = step(p, el, thresh);
                if previous is MoveTo {
                    assert(current_point(before) == Some(previous->MoveTo_0));
                    assert(s.queue =~= seq![previous, el]);
                    assert(before.drop_last() + seq![previous, el] =~= part);
                } else {
                    assert(f.queue.len() == 0);
                    assert(s.queue =~= seq![PathEl::MoveTo(last), el]);
                    assert(without_first(s.queue, s.needs_moveto) =~= seq![el]);
                    assert(before + seq![el] =~= part);
                }
            },
        }
    }
}

/// A path with a corner at every join is passed through unchanged.
pub proof fn law_angular_path_is_unchanged<F, G>(
    path: Seq<PathEl>,
    thresh: Float,
    accuracy: Float,
    level: SimplifyOptLevel,
    fit: F,
    fit_opt: G,
    outs: Seq<Seq<PathEl>>,
) where
    F: Fn(&SimplifyBezPath, Float) -> BezPath,
    G: Fn(&SimplifyBezPath, Float) -> BezPath,

    requires
        is_angular(path, thresh),
        outputs_of(pieces_of(path, thresh), accuracy, level, fit, fit_opt, outs),
    ensures
        outs.flatten() == path,
{
    assert(path.take(path.len() as int) =~= path);
    lemma_unchanged(path, path.len() as int, thresh);
    let p = progress(path, thresh);
    let pieces = pieces_of(path, thresh);
    lemma_plain_push(p.pieces, Piece::Run { els: p.queue, moveto: p.needs_moveto });
    assert forall|i: int| 0 <= i < pieces.len() implies #[trigger] outs[i] == plain_output(
        pieces[i],
    ) by {
        assert(is_single(pieces[i]));
        assert(piece_output(pieces[i], accuracy, level, fit, fit_opt, outs[i]));
    }
    assert(outs =~= Seq::new(pieces.len(), |i: int| plain_output(pieces[i])));
    if path.len() > 0 {
        assert(!(path.last() is MoveTo)) by {
            assert(is_angular_at(path, path.len() - 1, thresh));
        }
    } else {
        assert(plain_outputs(Seq::<Piece>::empty()) =~= Seq::<PathEl>::empty());
    }
}

/// Whether piece `i` may go without a move: it is a run, and so is the piece
/// before it, which ends where this one begins.
pub open spec fn continues(pieces: Seq<Piece>, i: int) -> bool {
    &&& i > 0
    &&& pieces[i - 1] is Run
    &&& pieces[i] is Run
    &&& pieces[i - 1]->els.len() > 0
    &&& pieces[i]->els.len() > 0
    &&& pieces[i - 1]->els.last().target() == pieces[i]->els[0].target()
}

/// What holds of the moves between any two elements.
pub open spec fn connected(p: Progress) -> bool {
    &&& forall|i: int|
        0 <= i < p.pieces.len() && (#[trigger] p.pieces[i]) is Run && !p.pieces[i]->moveto
            ==> continues(p.pieces, i)
    &&& p.queue.len() > 0 ==> p.last_pt == Some(p.queue.last().target())
    &&& p.queue.len() > 0 && !p.needs_moveto ==> {
        &&& p.pieces.len() > 0
        &&& p.pieces.last() is Run
        &&& p.pieces.last()->els.len() > 0
        &&& p.pieces.last()->els.last().target() == p.queue[0].target()
    }
    &&& p.queue.len() == 0 && p.last_pt is Some ==> p.needs_moveto
}

proof fn lemma_flushed_connected(p: Progress)
    requires
        connected(p),
    ensures
        forall|i: int|
            0 <= i < flushed(p).pieces.len() && (#[trigger] flushed(p).pieces[i]) is Run
                && !flushed(p).pieces[i]->moveto ==> continues(flushed(p).pieces, i),
        p.queue.len() > 0 ==> {
            &&& flushed(p).pieces.len() > 0
            &&& flushed(p).pieces.last() is Run
            &&& flushed(p).pieces.last()->els == p.queue
        },
{
    let pieces = flushed(p).pieces;
    assert forall|i: int|
        0 <= i < pieces.len() && (#[trigger] pieces[i]) is Run
            && !pieces[i]->moveto implies continues(pieces, i) by {
        if i < p.pieces.len() {
            assert(continues(p.pieces, i));
        }
    }
}

proof fn lemma_step_connected(p: Progress, el: PathEl, thresh: Float)
    requires
        connected(p),
        el.draws() ==> p.last_pt is Some,
        p.queue.len() == 0 ==> p.last_seg is None,
    ensures
        connected(step(p, el, thresh)),
        step(p, el, thresh).queue.len() == 0 ==> step(p, el, thresh).last_seg is None,
{
    lemma_flushed_connected(p);
    let s = step(p, el, thresh);
    match el {
        PathEl::MoveTo(_) => {},
        PathEl::ClosePath => {
            assert forall|i: int|
                0 <= i < s.pieces.len() && (#[trigger] s.pieces[i]) is Run
                    && !s.pieces[i]->moveto implies continues(s.pieces, i) by {
                assert(s.pieces[i] == flushed(p).pieces[i]);
                assert(continues(flushed(p).pieces, i));
            }
        },
        _ => {
            if !stays(el, p.last_pt->0) {
                lemma_redrawn(el, p.last_pt->0);
            }
        },
    }
}

pub(crate) proof fn lemma_connected(path: Seq<PathEl>, thresh: Float)
    requires
        starts_with_moves(path),
    ensures
        connected(progress(path, thresh)),
        progress(path, thresh).queue.len() == 0 ==> progress(path, thresh).last_seg is None,
    decreases path.len(),
{
    if path.len() > 0 {
        let before = path.drop_last();
        lemma_starts_prefix(path, before.len() as int);
        assert(path.take(before.len() as int) =~= before);
        lemma_connected(before, thresh);
        lemma_last_pt(before, thresh);
        if path.last().draws() {
            lemma_current_point(path);
        }
        lemma_step_connected(progress(before, thresh), path.last(), thresh);
    }
}

/// A run goes without its move only where the run before it ends at the point
/// where it begins.
pub proof fn law_moves_are_kept_where_needed(path: Seq<PathEl>, thresh: Float, i: int)
    requires
        starts_with_moves(path),
        0 <= i < pieces_of(path, thresh).len(),
        pieces_of(path, thresh)[i] is Run,
        !pieces_of(path, thresh)[i]->moveto,
    ensures
        continues(pieces_of(path, thresh), i),
{
    lemma_connected(path, thresh);
    lemma_flushed_connected(progress(path, thresh));
}

/// The number of elements that close a subpath.
pub open spec fn closings(path: Seq<PathEl>) -> nat {
    path.filter(|el: PathEl| el is ClosePath).len()
}

/// The number of pieces that close a subpath.
pub open spec fn piece_closings(pieces: Seq<Piece>) -> nat {
    pieces.filter(|piece: Piece| piece is Close).len()
}

/// Every closed subpath is closed in the result, and no other.
pub proof fn law_closings_are_kept(path: Seq<PathEl>, thresh: Float)
    ensures
        piece_closings(pieces_of(path, thresh)) == closings(path),
{
    lemma_closings(path, thresh);
    lemma_flushed_closings(progress(path, thresh));
}

proof fn lemma_flushed_closings(p: Progress)
    ensures
        piece_closings(flushed(p).pieces) == piece_closings(p.pieces),
{
    reveal(Seq::filter);
    let run = Piece::Run { els: p.queue, moveto: p.needs_moveto };
    assert(p.pieces.push(run).drop_last() =~= p.pieces);
}

proof fn lemma_closings(path: Seq<PathEl>, thresh: Float)
    ensures
        piece_closings(progress(path, thresh).pieces) == closings(path),
    decreases path.len(),
{
    reveal(Seq::filter);
    if path.len() > 0 {
        let p = progress(path.drop_last(), thresh);
        lemma_closings(path.drop_last(), thresh);
        lemma_flushed_closings(p);
        let f = flushed(p);
        assert(f.pieces.push(Piece::Close).drop_last() =~= f.pieces);
    }
}

/// The last segment of a run.
pub open spec fn run_end(piece: Piece) -> PathSeg {
    segments_of(piece->els).last()
}

/// The first segment of a run.
pub open spec fn run_start(piece: Piece) -> PathSeg {
    segments_of(piece->els)[0]
}

/// Whether piece `i` follows a run that ends at a corner.
pub open spec fn follows_a_corner(pieces: Seq<Piece>, i: int, thresh: Float) -> bool {
    &&& i > 0
    &&& pieces[i - 1] is Run
    &&& is_corner(run_end(pieces[i - 1]), run_start(pieces[i]), thresh)
}

/// What holds of the cuts between any two elements.
spec fn cut_at_corners(p: Progress, thresh: Float) -> bool {
    &&& forall|i: int|
        0 <= i < p.pieces.len() && (#[trigger] p.pieces[i]) is Run && !p.pieces[i]->moveto
            ==> follows_a_corner(p.pieces, i, thresh)
    &&& p.queue.len() > 0 && !p.needs_moveto ==> {
        &&& p.pieces.len() > 0
        &&& p.pieces.last() is Run
        &&& is_corner(run_end(p.pieces.last()), segments_of(p.queue)[0], thresh)
    }
    &&& p.queue.len() == 0 && p.last_pt is Some ==> p.needs_moveto
}

proof fn lemma_flushed_cuts(p: Progress, thresh: Float)
    requires
        cut_at_corners(p, thresh),
    ensures
        forall|i: int|
            0 <= i < flushed(p).pieces.len() && (#[trigger] flushed(p).pieces[i]) is Run
                && !flushed(p).pieces[i]->moveto ==> follows_a_corner(flushed(p).pieces, i, thresh),
{
    let pieces = flushed(p).pieces;
    assert forall|i: int|
        0 <= i < pieces.len() && (#[trigger] pieces[i]) is Run
            && !pieces[i]->moveto implies follows_a_corner(pieces, i, thresh) by {
        if i < p.pieces.len() {
            assert(pieces[i] == p.pieces[i]);
            assert(follows_a_corner(p.pieces, i, thresh));
        }
    }
}

proof fn lemma_cuts(path: Seq<PathEl>, thresh: Float)
    requires
        starts_with_moves(path),
    ensures
        cut_at_corners(progress(path, thresh), thresh),
    decreases path.len(),
{
    if path.len() > 0 {
        let before = path.drop_last();
        let el = path.last();
        lemma_starts_prefix(path, before.len() as int);
        assert(path.take(before.len() as int) =~= before);
        lemma_cuts(before, thresh);
        lemma_invariant(before, thresh);
        let p = progress(before, thresh);
        let s = step(p, el, thresh);
        lemma_flushed_cuts(p, thresh);
        match el {
            PathEl::MoveTo(_) => {},
            PathEl::ClosePath => {
                assert forall|i: int|
                    0 <= i < s.pieces.len() && (#[trigger] s.pieces[i]) is Run
                        && !s.pieces[i]->moveto implies follows_a_corner(s.pieces, i, thresh) by {
                    assert(s.pieces[i] == flushed(p).pieces[i]);
                    assert(follows_a_corner(flushed(p).pieces, i, thresh));
                }
            },
            _ => {
                lemma_current_point(path);
                let last = p.last_pt->0;
                if !stays(el, last) {
                    let seg = el.segment_from(last);
                    let corner = p.last_seg is Some && is_corner(p.last_seg->0, seg, thresh);
                    let queue = if corner {
                        flushed(p).queue
                    } else {
                        p.queue
                    };
                    lemma_queue_with(queue, el, last);
                    assert(segments_of(Seq::<PathEl>::empty()) == Seq::<PathSeg>::empty());
                }
            },
        }
    }
}

/// Runs are as long as can be: where a run follows another in the same subpath,
/// the two meet at a corner.
pub proof fn law_runs_are_maximal(path: Seq<PathEl>, thresh: Float, i: int)
    requires
        starts_with_moves(path),
        0 <= i < pieces_of(path, thresh).len(),
        pieces_of(path, thresh)[i] is Run,
        !pieces_of(path, thresh)[i]->moveto,
    ensures
        i > 0,
        pieces_of(path, thresh)[i - 1] is Run,
        is_corner(
            segments_of(pieces_of(path, thresh)[i - 1]->els).last(),
            segments_of(pieces_of(path, thresh)[i]->els)[0],
            thresh,
        ),
{
    lemma_cuts(path, thresh);
    lemma_flushed_cuts(progress(path, thresh), thresh);
}

/// What is drawn behind the first move, and whatever stays there.
proof fn lemma_one_run(p: Point, b: Seq<PathEl>, thresh: Float)
    requires
        forall|i: int| 0 <= i < b.len() ==> (#[trigger] b[i]).draws(),
        ({
            let s = strokes(seq![PathEl::MoveTo(p)] + b);
            forall|i: int| 0 < i < s.len() ==> !is_corner(s[i - 1], #[trigger] s[i], thresh)
        }),
    ensures
        ({
            let path = seq![PathEl::MoveTo(p)] + b;
            let q = progress(path, thresh);
            &&& q.pieces.len() == 0
            &&& q.needs_moveto
            &&& segments_of(q.queue) == strokes(path)
            &&& q.queue.len() == (if strokes(path).len() == 0 {
                0
            } else {
                strokes(path).len() + 1
            })
        }),
    decreases b.len(),
{
    let head = seq![PathEl::MoveTo(p)];
    let path = head + b;
    lemma_begins_with_move(p, b);
    assert(segments_of(Seq::<PathEl>::empty()) == Seq::<PathSeg>::empty());
    if b.len() == 0 {
        assert(path =~= head);
        assert(head.drop_last() =~= Seq::<PathEl>::empty());
        assert(strokes(head.drop_last()) == Seq::<PathSeg>::empty());
        assert(progress(head.drop_last(), thresh) == no_progress());
    } else {
        let c = b.drop_last();
        let before = head + c;
        assert(path.drop_last() =~= before);
        assert forall|i: int| 0 <= i < c.len() implies (#[trigger] c[i]).draws() by {
            assert(b[i].draws());
        }
        let (s, r) = (strokes(path), strokes(before));
        assert forall|i: int| 0 < i < r.len() implies !is_corner(
            r[i - 1],
            #[trigger] r[i],
            thresh,
        ) by {
            assert(s[i] == r[i] && s[i - 1] == r[i - 1]);
        }
        lemma_one_run(p, c, thresh);
        lemma_begins_with_move(p, c);
        lemma_invariant(before, thresh);
        let el = b.last();
        assert(path.last() == el);
        assert(b[b.len() - 1].draws());
        lemma_current_point(path);
        let q = progress(before, thresh);
        let last = q.last_pt->0;
        if !stays(el, last) {
            lemma_redrawn(el, last);
            lemma_queue_with(q.queue, el, last);
            if r.len() > 0 {
                assert(s[r.len() as int] == el.segment_from(last));
                assert(!is_corner(s[r.len() - 1], s[r.len() as int], thresh));
            }
        }
    }
}

pub(crate) proof fn lemma_begins_with_move(p: Point, b: Seq<PathEl>)
    ensures
        starts_with_moves(seq![PathEl::MoveTo(p)] + b),
{
    let path = seq![PathEl::MoveTo(p)] + b;
    assert(path[0] is MoveTo);
    assert forall|i: int| 0 <= i < path.len() && (#[trigger] path[i]).draws() implies exists|j: int|
        0 <= j < i && (#[trigger] path[j]) is MoveTo by {
        assert(0 < i);
        assert(path[0] is MoveTo);
    }
}

/// A subpath without a corner is one run, and holds all that is drawn.
pub proof fn law_smooth_subpath_is_one_run(p: Point, b: Seq<PathEl>, thresh: Float)
    requires
        forall|i: int| 0 <= i < b.len() ==> (#[trigger] b[i]).draws(),
        ({
            let s = strokes(seq![PathEl::MoveTo(p)] + b);
            &&& s.len() > 0
            &&& forall|i: int| 0 < i < s.len() ==> !is_corner(s[i - 1], #[trigger] s[i], thresh)
        }),
    ensures
        ({
            let path = seq![PathEl::MoveTo(p)] + b;
            let pieces = pieces_of(path, thresh);
            &&& pieces.len() == 1
            &&& pieces[0] is Run
            &&& pieces[0]->moveto
            &&& segments_of(pieces[0]->els) == strokes(path)
            &&& pieces[0]->els.len() == strokes(path).len() + 1
        }),
{
    lemma_one_run(p, b, thresh);
}

/// A path without closings, of which no element stays where it is, has its
/// segments for strokes.
pub proof fn law_strokes_without_closings(path: Seq<PathEl>)
    requires
        starts_with_moves(path),
        forall|i: int| 0 <= i < path.len() ==> !((#[trigger] path[i]) is ClosePath),
        forall|i: int| 0 <= i < path.len() ==> !goes_nowhere(path, i),
    ensures
        strokes(path) == segments_of(path),
{
    assert forall|i: int| 0 <= i < path.len() implies #[trigger] ends_subpath(path, i) by {
        assert(!(path[i] is ClosePath));
    }
    assert forall|i: int| 0 <= i < path.len() implies #[trigger] stays_put(path, i) by {
        assert(!goes_nowhere(path, i));
    }
    assert(path.take(path.len() as int) =~= path);
    law_strokes_are_segments(path);
    lemma_drawn_are_segments(path, path.len() as int);
}

/// Whether an element names no point but the current one.
pub open spec fn goes_nowhere(path: Seq<PathEl>, i: int) -> bool {
    path[i].draws() && stays(path[i], current_point(path.take(i))->0)
}

proof fn lemma_drawn_are_segments(path: Seq<PathEl>, n: int)
    requires
        starts_with_moves(path),
        forall|i: int| 0 <= i < path.len() ==> !((#[trigger] path[i]) is ClosePath),
        forall|i: int| 0 <= i < path.len() ==> #[trigger] ends_subpath(path, i),
        forall|i: int| 0 <= i < path.len() ==> #[trigger] stays_put(path, i),
        forall|i: int| 0 <= i < path.len() ==> !goes_nowhere(path, i),
        0 <= n <= path.len(),
    ensures
        drawn_segments(path.take(n)) == segments_of(path.take(n)),
    decreases n,
{
    if n > 0 {
        let (part, before) = (path.take(n), path.take(n - 1));
        lemma_drawn_are_segments(path, n - 1);
        lemma_strokes(path, n - 1);
        assert(part.drop_last() =~= before);
        assert(part.last() == path[n - 1]);
        assert(!(path[n - 1] is ClosePath));
        assert(!goes_nowhere(path, n - 1));
        if path[n - 1].draws() {
            lemma_starts_prefix(path, n);
            lemma_current_point(part);
            assert(n > 1);
            assert(!(path[n - 2] is ClosePath));
        }
    }
}

/// A run with one more segment draws what it drew, and the segment.
pub proof fn law_run_with_a_segment(queue: Seq<PathEl>, seg: PathSeg)
    requires
        is_queue(queue),
        queue.len() > 0 ==> end_of(queue.last()) == seg.first_point(),
    ensures
        is_queue(queue_with(queue, seg)),
        segments_of(queue_with(queue, seg)) == segments_of(queue).push(seg),
{
    let el = seg.element();
    assert(el.segment_from(seg.first_point()) == seg);
    if queue.len() > 0 {
        let rest = queue.drop_first();
        assert forall|i: int| 0 <= i < rest.len() implies (#[trigger] rest[i]).draws() by {
            assert(queue[i + 1].draws());
        }
        lemma_pen(Seq::empty(), end_of(queue[0]), rest);
        assert(Seq::<PathEl>::empty().push(PathEl::MoveTo(end_of(queue[0]))) + rest =~= queue);
    }
    lemma_queue_with(queue, el, seg.first_point());
}

/// What an element strokes begins where the last element before it ended,
/// closings aside, and is what the element draws from there. An element that
/// stays there strokes nothing.
pub proof fn law_strokes_go_on_where_they_ended(
    a: Seq<PathEl>,
    last: PathEl,
    c: Seq<PathEl>,
    el: PathEl,
)
    requires
        !(last is ClosePath),
        starts_with_moves(a.push(last)),
        forall|i: int| 0 <= i < c.len() ==> (#[trigger] c[i]) is ClosePath,
        el.draws(),
    ensures
        ({
            let path = a.push(last) + c;
            let q = current_point(path)->0;
            let (before, after) = (strokes(path), strokes(path.push(el)));
            &&& current_point(path) is Some
            &&& q == end_of(last) || coincide(q, end_of(last))
            &&& if stays(el, q) {
                after == before
            } else {
                &&& after.len() == before.len() + 1
                &&& after.drop_last() == before
                &&& is_drawn(after.last(), q, el)
            }
        }),
{
    let head = a.push(last);
    let path = head + c;
    assert(head.drop_last() =~= a);
    if last.draws() {
        lemma_current_point(head);
        law_staying(last, current_point(a)->0);
    }
    lemma_closings_keep_the_point(head, c);
    assert(path.push(el).drop_last() =~= path);
    if !stays(el, current_point(path)->0) {
        assert(strokes(path.push(el)).drop_last() =~= strokes(path));
    }
}

proof fn lemma_closings_keep_the_point(a: Seq<PathEl>, c: Seq<PathEl>)
    requires
        forall|i: int| 0 <= i < c.len() ==> (#[trigger] c[i]) is ClosePath,
    ensures
        current_point(a + c) == current_point(a),
    decreases c.len(),
{
    if c.len() == 0 {
        assert(a + c =~= a);
    } else {
        assert((a + c).drop_last() =~= a + c.drop_last());
        assert(c[c.len() - 1] is ClosePath);
        let d = c.drop_last();
        assert forall|i: int| 0 <= i < d.len() implies (#[trigger] d[i]) is ClosePath by {
            assert(c[i] is ClosePath);
        }
        lemma_closings_keep_the_point(a, d);
    }
}

}
