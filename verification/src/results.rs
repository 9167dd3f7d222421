//! Laws of what is put out: where moves and closings stand in the result.
//!
//! Where a fitter is asked, they hold for one that answers with a run: a move,
//! and behind it only elements that draw.

use crate::curve::{curves_of, prepared, SimplifyBezPath};
use crate::drawing::{end_of, law_elements_draw_segments};
use crate::float::Float;
use crate::geom::Point;
use crate::path::{segments_of, without_first, BezPath, PathEl, PathSeg};
use crate::runs::{
    continues, current_point, is_proper, law_moves_are_kept_where_needed, law_runs_are_smooth,
    law_smooth_subpath_is_one_run, lemma_begins_with_move, lemma_connected, lemma_current_point,
    lemma_invariant, lemma_last_pt, lemma_queue_with, lemma_starts_prefix, strokes,
};
use crate::simplify::{
    fits, flushed, flushes, is_corner, is_queue, lemma_run_length, outputs_of, piece_output,
    pieces_of, progress, run_output, starts_with_moves, stays, step, Piece, Progress,
    SimplifyOptLevel, StateView,
};
use vstd::prelude::*;

verus! {

/// A move, and behind it at least one element, all of which draw.
pub open spec fn is_run(els: Seq<PathEl>) -> bool {
    els.len() > 0 && is_queue(els)
}

/// Whether the fitter of the given level answers with runs.
pub open spec fn answers_with_runs<F, G>(
    level: SimplifyOptLevel,
    fit: F,
    fit_opt: G,
    accuracy: Float,
) -> bool where
    F: Fn(&SimplifyBezPath, Float) -> BezPath,
    G: Fn(&SimplifyBezPath, Float) -> BezPath,
 {
    forall|s: SimplifyBezPath, b: BezPath|
        s@.els.len() >= 2 && #[trigger] fits(level, fit, fit_opt, s, accuracy, b) ==> is_run(b@)
}

/// Whether the fitter of the given level gives one answer only to what is the
/// same path.
pub open spec fn answers_alike<F, G>(
    level: SimplifyOptLevel,
    fit: F,
    fit_opt: G,
    accuracy: Float,
) -> bool where
    F: Fn(&SimplifyBezPath, Float) -> BezPath,
    G: Fn(&SimplifyBezPath, Float) -> BezPath,
 {
    forall|s: SimplifyBezPath, b: BezPath, r: SimplifyBezPath, c: BezPath|
        s@ == r@ && #[trigger] fits(level, fit, fit_opt, s, accuracy, b) && #[trigger] fits(
            level,
            fit,
            fit_opt,
            r,
            accuracy,
            c,
        ) ==> b@ == c@
}

/// What becomes of a run is a run, of which the move may have been left out.
proof fn lemma_output_is_run<F, G>(
    els: Seq<PathEl>,
    moveto: bool,
    accuracy: Float,
    level: SimplifyOptLevel,
    fit: F,
    fit_opt: G,
    out: Seq<PathEl>,
) -> (b: Seq<PathEl>) where
    F: Fn(&SimplifyBezPath, Float) -> BezPath,
    G: Fn(&SimplifyBezPath, Float) -> BezPath,

    requires
        is_run(els),
        run_output(els, moveto, accuracy, level, fit, fit_opt, out),
        answers_with_runs(level, fit, fit_opt, accuracy),
    ensures
        is_run(b),
        out == without_first(b, moveto),
        run_output(els, true, accuracy, level, fit, fit_opt, b),
{
    if els.len() == 2 {
        els
    } else {
        let (s, b) = choose|s: SimplifyBezPath, b: BezPath|
            {
                &&& s@ == prepared(curves_of(els))
                &&& #[trigger] fits(level, fit, fit_opt, s, accuracy, b)
                &&& out == without_first(b@, moveto)
            };
        lemma_run_length(els);
        assert(s@.els.len() >= 2);
        b@
    }
}

/// A move, and behind it at least one element, none of which is a move.
pub open spec fn has_one_move(els: Seq<PathEl>) -> bool {
    &&& els.len() >= 2
    &&& els[0] is MoveTo
    &&& forall|i: int| 1 <= i < els.len() ==> !((#[trigger] els[i]) is MoveTo)
}

/// Whether the fitter of the given level answers with one leading move, and no
/// other.
pub open spec fn answers_with_one_move<F, G>(
    level: SimplifyOptLevel,
    fit: F,
    fit_opt: G,
    accuracy: Float,
) -> bool where
    F: Fn(&SimplifyBezPath, Float) -> BezPath,
    G: Fn(&SimplifyBezPath, Float) -> BezPath,
 {
    forall|s: SimplifyBezPath, b: BezPath|
        s@.els.len() >= 2 && #[trigger] fits(level, fit, fit_opt, s, accuracy, b)
            ==> has_one_move(b@)
}

/// What becomes of a run has one leading move, or had before it was left out.
proof fn lemma_output_has_one_move<F, G>(
    els: Seq<PathEl>,
    moveto: bool,
    accuracy: Float,
    level: SimplifyOptLevel,
    fit: F,
    fit_opt: G,
    out: Seq<PathEl>,
) -> (b: Seq<PathEl>) where
    F: Fn(&SimplifyBezPath, Float) -> BezPath,
    G: Fn(&SimplifyBezPath, Float) -> BezPath,

    requires
        is_run(els),
        run_output(els, moveto, accuracy, level, fit, fit_opt, out),
        els.len() > 2 ==> answers_with_one_move(level, fit, fit_opt, accuracy),
    ensures
        has_one_move(b),
        out == without_first(b, moveto),
        run_output(els, true, accuracy, level, fit, fit_opt, b),
{
    if els.len() == 2 {
        assert(els[1].draws());
        els
    } else {
        let (s, b) = choose|s: SimplifyBezPath, b: BezPath|
            {
                &&& s@ == prepared(curves_of(els))
                &&& #[trigger] fits(level, fit, fit_opt, s, accuracy, b)
                &&& out == without_first(b@, moveto)
            };
        lemma_run_length(els);
        assert(s@.els.len() >= 2);
        b@
    }
}

/// Whether a run begins a subpath decides on the leading move of what becomes
/// of it, and on nothing else. Where a fitter is asked, it has to answer with
/// one leading move, and with the same to the same.
pub proof fn law_flag_decides_the_move<F, G>(
    was: StateView,
    now: StateView,
    other_was: StateView,
    other_now: StateView,
    accuracy: Float,
    level: SimplifyOptLevel,
    fit: F,
    fit_opt: G,
) where
    F: Fn(&SimplifyBezPath, Float) -> BezPath,
    G: Fn(&SimplifyBezPath, Float) -> BezPath,

    requires
        is_run(was.queue),
        other_was.queue == was.queue,
        other_was.result == was.result,
        was.needs_moveto,
        !other_was.needs_moveto,
        flushes(was, now, accuracy, level, fit, fit_opt),
        flushes(other_was, other_now, accuracy, level, fit, fit_opt),
        was.queue.len() > 2 ==> {
            &&& answers_with_one_move(level, fit, fit_opt, accuracy)
            &&& answers_alike(level, fit, fit_opt, accuracy)
        },
    ensures
        exists|first: PathEl, tail: Seq<PathEl>|
            {
                &&& first is MoveTo
                &&& tail.len() > 0
                &&& forall|i: int| 0 <= i < tail.len() ==> !((#[trigger] tail[i]) is MoveTo)
                &&& now.result == was.result + #[trigger] (seq![first] + tail)
                &&& other_now.result == was.result + tail
            },
{
    let els = was.queue;
    let out = choose|out: Seq<PathEl>|
        {
            &&& now.result == was.result + out
            &&& #[trigger] run_output(els, true, accuracy, level, fit, fit_opt, out)
        };
    let other = choose|out: Seq<PathEl>|
        {
            &&& other_now.result == was.result + out
            &&& #[trigger] run_output(els, false, accuracy, level, fit, fit_opt, out)
        };
    let b = lemma_output_has_one_move(els, true, accuracy, level, fit, fit_opt, out);
    let c = lemma_output_has_one_move(els, false, accuracy, level, fit, fit_opt, other);
    assert(b == c) by {
        if els.len() > 2 {
            let (s, x) = choose|s: SimplifyBezPath, x: BezPath|
                {
                    &&& s@ == prepared(curves_of(els))
                    &&& #[trigger] fits(level, fit, fit_opt, s, accuracy, x)
                    &&& b == without_first(x@, true)
                };
            let (r, y) = choose|r: SimplifyBezPath, y: BezPath|
                {
                    &&& r@ == prepared(curves_of(els))
                    &&& #[trigger] fits(level, fit, fit_opt, r, accuracy, y)
                    &&& c == without_first(y@, true)
                };
            assert(x@ == y@);
        }
    }
    let tail = b.drop_first();
    assert(seq![b[0]] + tail =~= b);
    assert forall|i: int| 0 <= i < tail.len() implies !((#[trigger] tail[i]) is MoveTo) by {
        assert(!(b[i + 1] is MoveTo));
    }
}

/// A place in a path where nothing is drawn.
pub enum Mark {
    Move,
    Close,
}

/// The moves and closings of a path, in their order.
pub open spec fn marks(els: Seq<PathEl>) -> Seq<Mark>
    decreases els.len(),
{
    if els.len() == 0 {
        Seq::empty()
    } else {
        let before = marks(els.drop_last());
        match els.last() {
            PathEl::MoveTo(_) => before.push(Mark::Move),
            PathEl::ClosePath => before.push(Mark::Close),
            _ => before,
        }
    }
}

/// Whether nothing has been drawn since the last move or closing.
pub open spec fn awaits(path: Seq<PathEl>) -> bool
    decreases path.len(),
{
    if path.len() == 0 {
        true
    } else if path.last().draws() {
        let before = path.drop_last();
        stays(path.last(), current_point(before)->0) && awaits(before)
    } else {
        true
    }
}

/// The moves and closings that a path needs: each closing, and a move before
/// the first segment behind each move or closing. A move behind which nothing
/// is drawn is not needed.
pub open spec fn needed_marks(path: Seq<PathEl>) -> Seq<Mark>
    decreases path.len(),
{
    if path.len() == 0 {
        Seq::empty()
    } else {
        let before = path.drop_last();
        let done = needed_marks(before);
        let el = path.last();
        if el is ClosePath {
            done.push(Mark::Close)
        } else if el.draws() && !stays(el, current_point(before)->0) && awaits(before) {
            done.push(Mark::Move)
        } else {
            done
        }
    }
}

/// The marks of the pieces.
spec fn piece_marks(pieces: Seq<Piece>) -> Seq<Mark>
    decreases pieces.len(),
{
    if pieces.len() == 0 {
        Seq::empty()
    } else {
        let before = piece_marks(pieces.drop_last());
        match pieces.last() {
            Piece::Run { els, moveto } => if moveto {
                before.push(Mark::Move)
            } else {
                before
            },
            Piece::Close => before.push(Mark::Close),
        }
    }
}

proof fn lemma_piece_marks_push(pieces: Seq<Piece>, piece: Piece)
    ensures
        piece_marks(pieces.push(piece)) == match piece {
            Piece::Run { els, moveto } => if moveto {
                piece_marks(pieces).push(Mark::Move)
            } else {
                piece_marks(pieces)
            },
            Piece::Close => piece_marks(pieces).push(Mark::Close),
        },
{
    assert(pieces.push(piece).drop_last() =~= pieces);
}

/// The marks of a progress, that of the run being collected included.
spec fn progress_marks(p: Progress) -> Seq<Mark> {
    if p.queue.len() > 0 && p.needs_moveto {
        piece_marks(p.pieces).push(Mark::Move)
    } else {
        piece_marks(p.pieces)
    }
}

proof fn lemma_marks_of_progress(path: Seq<PathEl>, thresh: Float)
    requires
        starts_with_moves(path),
    ensures
        progress_marks(progress(path, thresh)) == needed_marks(path),
        awaits(path) == (progress(path, thresh).queue.len() == 0),
    decreases path.len(),
{
    if path.len() > 0 {
        let before = path.drop_last();
        let el = path.last();
        lemma_starts_prefix(path, before.len() as int);
        assert(path.take(before.len() as int) =~= before);
        lemma_marks_of_progress(before, thresh);
        lemma_connected(before, thresh);
        lemma_last_pt(before, thresh);
        let p = progress(before, thresh);
        let f = flushed(p);
        lemma_piece_marks_push(p.pieces, Piece::Run { els: p.queue, moveto: p.needs_moveto });
        lemma_piece_marks_push(f.pieces, Piece::Close);
        assert(piece_marks(f.pieces) == progress_marks(p));
        if el.draws() {
            lemma_current_point(path);
        }
    }
}

proof fn lemma_marks_add(a: Seq<PathEl>, b: Seq<PathEl>)
    ensures
        marks(a + b) == marks(a) + marks(b),
    decreases b.len(),
{
    if b.len() == 0 {
        assert(a + b =~= a);
        assert(marks(a) + marks(b) =~= marks(a));
    } else {
        lemma_marks_add(a, b.drop_last());
        assert((a + b).drop_last() =~= a + b.drop_last());
        assert((a + b).last() == b.last());
        let done = marks(b.drop_last());
        assert((marks(a) + done).push(Mark::Move) =~= marks(a) + done.push(Mark::Move));
        assert((marks(a) + done).push(Mark::Close) =~= marks(a) + done.push(Mark::Close));
    }
}

/// A sequence of drawing elements has no marks.
proof fn lemma_no_marks(els: Seq<PathEl>)
    requires
        forall|i: int| 0 <= i < els.len() ==> (#[trigger] els[i]).draws(),
    ensures
        marks(els) == Seq::<Mark>::empty(),
    decreases els.len(),
{
    if els.len() > 0 {
        let before = els.drop_last();
        assert forall|i: int| 0 <= i < before.len() implies (#[trigger] before[i]).draws() by {
            assert(els[i].draws());
        }
        lemma_no_marks(before);
        assert(els[els.len() - 1].draws());
    }
}

proof fn lemma_run_marks(b: Seq<PathEl>, moveto: bool)
    requires
        is_run(b),
    ensures
        marks(without_first(b, moveto)) == if moveto {
            seq![Mark::Move]
        } else {
            Seq::empty()
        },
        without_first(b, moveto).len() > 0,
        without_first(b, moveto).last().draws(),
        forall|i: int|
            1 <= i < without_first(b, moveto).len() ==> (#[trigger] without_first(
                b,
                moveto,
            )[i]).draws(),
        moveto ==> without_first(b, moveto)[0] is MoveTo,
        !moveto ==> without_first(b, moveto)[0].draws(),
{
    let tail = b.drop_first();
    assert forall|i: int| 0 <= i < tail.len() implies (#[trigger] tail[i]).draws() by {
        assert(b[i + 1].draws());
    }
    lemma_no_marks(tail);
    let first = seq![b[0]];
    assert(first + tail =~= b);
    lemma_marks_add(first, tail);
    assert(first.drop_last() =~= Seq::<PathEl>::empty());
    assert(marks(Seq::<PathEl>::empty()) == Seq::<Mark>::empty());
    assert(marks(first) =~= seq![Mark::Move]);
    assert(seq![Mark::Move] + Seq::<Mark>::empty() =~= seq![Mark::Move]);
    assert(b[b.len() - 1].draws());
    assert(b[1].draws());
    if moveto {
        assert(without_first(b, moveto) == b);
        assert(b.last().draws());
    } else {
        assert(tail[0] == b[1]);
        assert(tail.last() == b.last());
    }
}

/// Whether what is drawn never begins a path, nor comes right behind a closing.
pub open spec fn draws_behind_moves(els: Seq<PathEl>) -> bool {
    forall|i: int|
        0 <= i < els.len() && (#[trigger] els[i]).draws() ==> i > 0 && !(els[i - 1] is ClosePath)
}

/// What holds of the outputs of the first pieces.
proof fn lemma_outputs<F, G>(
    pieces: Seq<Piece>,
    thresh: Float,
    accuracy: Float,
    level: SimplifyOptLevel,
    fit: F,
    fit_opt: G,
    outs: Seq<Seq<PathEl>>,
    n: int,
) where
    F: Fn(&SimplifyBezPath, Float) -> BezPath,
    G: Fn(&SimplifyBezPath, Float) -> BezPath,

    requires
        outputs_of(pieces, accuracy, level, fit, fit_opt, outs),
        answers_with_runs(level, fit, fit_opt, accuracy),
        forall|i: int| 0 <= i < pieces.len() ==> is_proper(#[trigger] pieces[i], thresh),
        forall|i: int|
            0 <= i < pieces.len() && (#[trigger] pieces[i]) is Run && !pieces[i]->moveto
                ==> continues(pieces, i),
        0 <= n <= pieces.len(),
    ensures
        marks(outs.take(n).flatten()) == piece_marks(pieces.take(n)),
        draws_behind_moves(outs.take(n).flatten()),
        n > 0 && pieces[n - 1] is Run ==> outs.take(n).flatten().len() > 0
            && outs.take(n).flatten().last().draws(),
    decreases n,
{
    if n == 0 {
        assert(outs.take(0) =~= Seq::<Seq<PathEl>>::empty());
        assert(outs.take(0).flatten() =~= Seq::<PathEl>::empty());
    } else {
        lemma_outputs(pieces, thresh, accuracy, level, fit, fit_opt, outs, n - 1);
        let head = outs.take(n - 1).flatten();
        let out = outs[n - 1];
        let piece = pieces[n - 1];
        assert(outs.take(n) =~= outs.take(n - 1).push(out));
        outs.take(n - 1).lemma_flatten_push(out);
        assert(outs.take(n).flatten() == head + out);
        lemma_marks_add(head, out);
        assert(pieces.take(n).drop_last() =~= pieces.take(n - 1));
        assert(pieces.take(n).last() == piece);
        assert(piece_output(piece, accuracy, level, fit, fit_opt, out));
        assert(is_proper(piece, thresh));
        let all = head + out;
        match piece {
            Piece::Run { els, moveto } => {
                let b = lemma_output_is_run(els, moveto, accuracy, level, fit, fit_opt, out);
                lemma_run_marks(b, moveto);
                if moveto {
                    assert(marks(head) + seq![Mark::Move] =~= marks(head).push(Mark::Move));
                } else {
                    assert(marks(head) + Seq::<Mark>::empty() =~= marks(head));
                    assert(continues(pieces, n - 1));
                }
                assert(all.last() == out.last());
                assert forall|i: int|
                    0 <= i < all.len() && (#[trigger] all[i]).draws() implies i > 0 && !(all[i
                    - 1] is ClosePath) by {
                    if i < head.len() {
                        assert(head[i].draws());
                        assert(all[i - 1] == head[i - 1]);
                    } else {
                        let k = i - head.len();
                        assert(all[i] == out[k]);
                        if k == 0 {
                            assert(!moveto);
                            assert(all[i - 1] == head.last());
                        } else {
                            assert(all[i - 1] == out[k - 1]);
                            if k > 1 {
                                assert(out[k - 1].draws());
                            }
                        }
                    }
                }
            },
            Piece::Close => {
                assert(out.drop_last() =~= Seq::<PathEl>::empty());
                assert(marks(Seq::<PathEl>::empty()) == Seq::<Mark>::empty());
                assert(marks(out) =~= seq![Mark::Close]);
                assert(marks(head) + seq![Mark::Close] =~= marks(head).push(Mark::Close));
                assert forall|i: int|
                    0 <= i < all.len() && (#[trigger] all[i]).draws() implies i > 0 && !(all[i
                    - 1] is ClosePath) by {
                    assert(i < head.len());
                    assert(head[i].draws());
                    assert(all[i - 1] == head[i - 1]);
                }
            },
        }
    }
}

/// The result has the moves and closings that the path needs, in their order,
/// and no others; and what it draws never begins it, nor comes right behind a
/// closing.
pub proof fn law_marks_of_the_result<F, G>(
    path: Seq<PathEl>,
    thresh: Float,
    accuracy: Float,
    level: SimplifyOptLevel,
    fit: F,
    fit_opt: G,
    outs: Seq<Seq<PathEl>>,
) where
    F: Fn(&SimplifyBezPath, Float) -> BezPath,
    G: Fn(&SimplifyBezPath, Float) -> BezPath,

    requires
        starts_with_moves(path),
        outputs_of(pieces_of(path, thresh), accuracy, level, fit, fit_opt, outs),
        answers_with_runs(level, fit, fit_opt, accuracy),
    ensures
        marks(outs.flatten()) == needed_marks(path),
        draws_behind_moves(outs.flatten()),
{
    let pieces = pieces_of(path, thresh);
    let p = progress(path, thresh);
    assert forall|i: int| 0 <= i < pieces.len() implies is_proper(#[trigger] pieces[i], thresh) by {
        law_runs_are_smooth(path, thresh, i);
    }
    assert forall|i: int|
        0 <= i < pieces.len() && (#[trigger] pieces[i]) is Run
            && !pieces[i]->moveto implies continues(pieces, i) by {
        law_moves_are_kept_where_needed(path, thresh, i);
    }
    let n = pieces.len() as int;
    lemma_outputs(pieces, thresh, accuracy, level, fit, fit_opt, outs, n);
    assert(outs.take(n) =~= outs);
    assert(pieces.take(n) =~= pieces);
    lemma_marks_of_progress(path, thresh);
    lemma_piece_marks_push(p.pieces, Piece::Run { els: p.queue, moveto: p.needs_moveto });
}

/// One thing that happens on the way through a path.
pub enum Item {
    Move,
    Draw(PathSeg),
    Close,
}

/// What happens on the way through a path: each segment is drawn, but for what
/// stays where the pen is; the first behind a move or a closing is moved to; and
/// each closing closes.
pub open spec fn path_items(path: Seq<PathEl>) -> Seq<Item>
    decreases path.len(),
{
    if path.len() == 0 {
        Seq::empty()
    } else {
        let before = path.drop_last();
        let done = path_items(before);
        let el = path.last();
        let at = current_point(before)->0;
        if el is ClosePath {
            done.push(Item::Close)
        } else if el.draws() && !stays(el, at) {
            let seg = Item::Draw(el.segment_from(at));
            if awaits(before) {
                done.push(Item::Move).push(seg)
            } else {
                done.push(seg)
            }
        } else {
            done
        }
    }
}

/// The segments of a run, as they are drawn.
pub open spec fn drawn(segs: Seq<PathSeg>) -> Seq<Item> {
    Seq::new(segs.len(), |i: int| Item::Draw(segs[i]))
}

/// What happens on the way through a run.
pub open spec fn run_items(els: Seq<PathEl>, moveto: bool) -> Seq<Item> {
    if moveto {
        seq![Item::Move] + drawn(segments_of(els))
    } else {
        drawn(segments_of(els))
    }
}

/// What happens on the way through pieces.
pub open spec fn piece_items(pieces: Seq<Piece>) -> Seq<Item>
    decreases pieces.len(),
{
    if pieces.len() == 0 {
        Seq::empty()
    } else {
        piece_items(pieces.drop_last()) + match pieces.last() {
            Piece::Run { els, moveto } => run_items(els, moveto),
            Piece::Close => seq![Item::Close],
        }
    }
}

/// What has happened, the run being collected included.
spec fn progress_items(p: Progress) -> Seq<Item> {
    if p.queue.len() == 0 {
        piece_items(p.pieces)
    } else {
        piece_items(p.pieces) + run_items(p.queue, p.needs_moveto)
    }
}

proof fn lemma_flushed_items(p: Progress)
    ensures
        piece_items(flushed(p).pieces) == progress_items(p),
{
    let run = Piece::Run { els: p.queue, moveto: p.needs_moveto };
    assert(p.pieces.push(run).drop_last() =~= p.pieces);
}

proof fn lemma_items(path: Seq<PathEl>, thresh: Float)
    requires
        starts_with_moves(path),
    ensures
        progress_items(progress(path, thresh)) == path_items(path),
    decreases path.len(),
{
    if path.len() > 0 {
        let before = path.drop_last();
        let el = path.last();
        lemma_starts_prefix(path, before.len() as int);
        assert(path.take(before.len() as int) =~= before);
        lemma_items(before, thresh);
        lemma_invariant(before, thresh);
        lemma_connected(before, thresh);
        lemma_marks_of_progress(before, thresh);
        lemma_last_pt(before, thresh);
        let p = progress(before, thresh);
        let s = step(p, el, thresh);
        lemma_flushed_items(p);
        if el is ClosePath {
            let f = flushed(p).pieces;
            assert(f.push(Piece::Close).drop_last() =~= f);
            assert(s.queue.len() == 0);
            assert(piece_items(f) + seq![Item::Close] =~= piece_items(f).push(Item::Close));
        } else if el.draws() {
            lemma_current_point(path);
            let at = p.last_pt->0;
            if !stays(el, at) {
                let seg = el.segment_from(at);
                let corner = p.last_seg is Some && is_corner(p.last_seg->0, seg, thresh);
                let f = if corner {
                    flushed(p)
                } else {
                    p
                };
                lemma_queue_with(f.queue, el, at);
                let segs = segments_of(f.queue);
                assert(segments_of(Seq::<PathEl>::empty()) == Seq::<PathSeg>::empty());
                assert(drawn(segs.push(seg)) =~= drawn(segs).push(Item::Draw(seg)));
                if f.queue.len() == 0 {
                    assert(f.queue =~= Seq::<PathEl>::empty());
                    assert(drawn(segs) =~= Seq::<Item>::empty());
                    if s.needs_moveto {
                        assert(progress_items(s) =~= piece_items(f.pieces).push(Item::Move).push(
                            Item::Draw(seg),
                        ));
                    } else {
                        assert(progress_items(s) =~= piece_items(f.pieces).push(Item::Draw(seg)));
                    }
                } else {
                    assert(run_items(s.queue, p.needs_moveto) =~= run_items(
                        p.queue,
                        p.needs_moveto,
                    ).push(Item::Draw(seg)));
                    assert(progress_items(s) =~= progress_items(p).push(Item::Draw(seg)));
                }
            }
        }
    }
}

/// Going through the pieces into which a path is cut is going through the path:
/// the same segments are drawn, moved to and closed, in the same order.
pub proof fn law_pieces_go_through_the_path(path: Seq<PathEl>, thresh: Float)
    requires
        starts_with_moves(path),
    ensures
        piece_items(pieces_of(path, thresh)) == path_items(path),
{
    lemma_items(path, thresh);
    lemma_flushed_items(progress(path, thresh));
}

/// Whether the fitter of the level, asked about `s` with the accuracy, answers
/// `b`: `fit` is asked for the level that subdivides, `fit_opt` for the one that
/// optimizes.
pub open spec fn asked<F, G>(
    level: SimplifyOptLevel,
    fit: F,
    fit_opt: G,
    s: SimplifyBezPath,
    accuracy: Float,
    b: BezPath,
) -> bool where
    F: Fn(&SimplifyBezPath, Float) -> BezPath,
    G: Fn(&SimplifyBezPath, Float) -> BezPath,
 {
    &&& level is Subdivide ==> call_ensures(fit, (&s, accuracy), b)
    &&& level is Optimize ==> call_ensures(fit_opt, (&s, accuracy), b)
}

/// Whether a prepared path is that of the given segments.
pub open spec fn is_prepared(s: SimplifyBezPath, segs: Seq<PathSeg>) -> bool {
    &&& s@.els.len() == segs.len()
    &&& forall|i: int| 0 <= i < segs.len() ==> (#[trigger] s@.els[i]).c == segs[i].cubic()
    &&& s@ == prepared(Seq::new(segs.len(), |i: int| segs[i].cubic()))
}

/// Whether `out` is all of `b`, or all but its first element.
pub open spec fn is_all_of(out: Seq<PathEl>, b: Seq<PathEl>, moveto: bool) -> bool {
    let skipped: int = if moveto {
        0
    } else {
        1
    };
    &&& out.len() == (if b.len() < skipped {
        0
    } else {
        b.len() - skipped
    })
    &&& forall|i: int| 0 <= i < out.len() ==> #[trigger] out[i] == b[i + skipped]
}

/// What is put out for a run: the run itself if it is a single segment; else
/// all that the fitter answers, asked about the segments of the run. Only a
/// leading move is left out where the run does not begin a subpath.
pub proof fn law_run_puts_out_the_answer<F, G>(
    els: Seq<PathEl>,
    moveto: bool,
    accuracy: Float,
    level: SimplifyOptLevel,
    fit: F,
    fit_opt: G,
    out: Seq<PathEl>,
) where
    F: Fn(&SimplifyBezPath, Float) -> BezPath,
    G: Fn(&SimplifyBezPath, Float) -> BezPath,

    requires
        is_run(els),
        run_output(els, moveto, accuracy, level, fit, fit_opt, out),
    ensures
        els.len() == 2 ==> is_all_of(out, els, moveto),
        els.len() > 2 ==> exists|s: SimplifyBezPath, b: BezPath|
            {
                &&& #[trigger] asked(level, fit, fit_opt, s, accuracy, b)
                &&& is_prepared(s, segments_of(els))
                &&& is_all_of(out, b@, moveto)
            },
{
    if els.len() > 2 {
        let (s, b) = choose|s: SimplifyBezPath, b: BezPath|
            {
                &&& s@ == prepared(curves_of(els))
                &&& #[trigger] fits(level, fit, fit_opt, s, accuracy, b)
                &&& out == without_first(b@, moveto)
            };
        assert(asked(level, fit, fit_opt, s, accuracy, b));
        let segs = segments_of(els);
        assert(curves_of(els) =~= Seq::new(segs.len(), |i: int| segs[i].cubic()));
        assert(is_all_of(out, b@, moveto));
        assert(is_prepared(s, segs));
    }
}

/// Flushing puts out what becomes of the queue behind what has been put out,
/// and leaves the queue empty; an empty queue is left as it is.
pub proof fn law_flush_puts_out_the_queue<F, G>(
    was: StateView,
    now: StateView,
    accuracy: Float,
    level: SimplifyOptLevel,
    fit: F,
    fit_opt: G,
) where
    F: Fn(&SimplifyBezPath, Float) -> BezPath,
    G: Fn(&SimplifyBezPath, Float) -> BezPath,

    requires
        is_queue(was.queue),
        flushes(was, now, accuracy, level, fit, fit_opt),
    ensures
        now.queue.len() == 0,
        was.queue.len() == 0 ==> now.result == was.result && now.needs_moveto == was.needs_moveto,
        was.queue.len() > 0 ==> {
            let n = was.result.len() as int;
            let out = now.result.skip(n);
            &&& !now.needs_moveto
            &&& now.result.len() >= n
            &&& now.result.take(n) == was.result
            &&& was.queue.len() == 2 ==> is_all_of(out, was.queue, was.needs_moveto)
            &&& was.queue.len() > 2 ==> exists|s: SimplifyBezPath, b: BezPath|
                {
                    &&& #[trigger] asked(level, fit, fit_opt, s, accuracy, b)
                    &&& is_prepared(s, segments_of(was.queue))
                    &&& is_all_of(out, b@, was.needs_moveto)
                }
        },
{
    if was.queue.len() > 0 {
        let out = choose|out: Seq<PathEl>|
            {
                &&& now.result == was.result + out
                &&& #[trigger] run_output(
                    was.queue,
                    was.needs_moveto,
                    accuracy,
                    level,
                    fit,
                    fit_opt,
                    out,
                )
            };
        let n = was.result.len() as int;
        assert(now.result.skip(n) =~= out);
        assert(now.result.take(n) =~= was.result);
        law_run_puts_out_the_answer(
            was.queue,
            was.needs_moveto,
            accuracy,
            level,
            fit,
            fit_opt,
            out,
        );
    }
}

/// Every piece of a path has its own output: a run what the flush of it puts
/// out, a closing a closing. The result is made of nothing else.
pub proof fn law_outputs_of_the_pieces<F, G>(
    pieces: Seq<Piece>,
    accuracy: Float,
    level: SimplifyOptLevel,
    fit: F,
    fit_opt: G,
    outs: Seq<Seq<PathEl>>,
    i: int,
) where
    F: Fn(&SimplifyBezPath, Float) -> BezPath,
    G: Fn(&SimplifyBezPath, Float) -> BezPath,

    requires
        outputs_of(pieces, accuracy, level, fit, fit_opt, outs),
        0 <= i < pieces.len(),
        pieces[i] is Run ==> is_run(pieces[i]->els),
    ensures
        outs.len() == pieces.len(),
        pieces[i] is Close ==> outs[i].len() == 1 && outs[i][0] is ClosePath,
        pieces[i] is Run ==> {
            let (els, moveto) = (pieces[i]->els, pieces[i]->moveto);
            &&& els.len() == 2 ==> is_all_of(outs[i], els, moveto)
            &&& els.len() > 2 ==> exists|s: SimplifyBezPath, b: BezPath|
                {
                    &&& #[trigger] asked(level, fit, fit_opt, s, accuracy, b)
                    &&& is_prepared(s, segments_of(els))
                    &&& is_all_of(outs[i], b@, moveto)
                }
        },
{
    assert(piece_output(pieces[i], accuracy, level, fit, fit_opt, outs[i]));
    match pieces[i] {
        Piece::Run { els, moveto } => {
            law_run_puts_out_the_answer(els, moveto, accuracy, level, fit, fit_opt, outs[i]);
        },
        Piece::Close => {},
    }
}

/// Whether every answer of the fitter runs from the beginning of the path that
/// it is asked about to its end.
pub open spec fn answers_reach<F, G>(
    level: SimplifyOptLevel,
    fit: F,
    fit_opt: G,
    accuracy: Float,
) -> bool where
    F: Fn(&SimplifyBezPath, Float) -> BezPath,
    G: Fn(&SimplifyBezPath, Float) -> BezPath,
 {
    forall|s: SimplifyBezPath, b: BezPath|
        s@.els.len() >= 2 && #[trigger] asked(level, fit, fit_opt, s, accuracy, b) ==> {
            &&& b@.len() >= 2
            &&& b@[0] == PathEl::MoveTo(s@.els[0].c.p0)
            &&& !(b@.last() is ClosePath)
            &&& end_of(b@.last()) == s@.els.last().c.p3
        }
}

/// A run is put out from its first point to its last, if the fitter's answers
/// are.
pub proof fn law_runs_reach_their_ends<F, G>(
    els: Seq<PathEl>,
    moveto: bool,
    accuracy: Float,
    level: SimplifyOptLevel,
    fit: F,
    fit_opt: G,
    out: Seq<PathEl>,
) where
    F: Fn(&SimplifyBezPath, Float) -> BezPath,
    G: Fn(&SimplifyBezPath, Float) -> BezPath,

    requires
        is_run(els),
        run_output(els, moveto, accuracy, level, fit, fit_opt, out),
        els.len() > 2 ==> answers_reach(level, fit, fit_opt, accuracy),
    ensures
        out.len() > 0,
        end_of(out.last()) == end_of(els.last()),
        moveto ==> out[0] == PathEl::MoveTo(end_of(els[0])),
{
    law_run_puts_out_the_answer(els, moveto, accuracy, level, fit, fit_opt, out);
    lemma_run_ends(els);
    if els.len() > 2 {
        let (s, b) = choose|s: SimplifyBezPath, b: BezPath|
            {
                &&& #[trigger] asked(level, fit, fit_opt, s, accuracy, b)
                &&& is_prepared(s, segments_of(els))
                &&& is_all_of(out, b@, moveto)
            };
        let segs = segments_of(els);
        lemma_run_length(els);
        assert(s@.els[0].c == segs[0].cubic());
        assert(s@.els[segs.len() - 1].c == segs.last().cubic());
        assert(out[out.len() - 1] == b@.last());
        if moveto {
            assert(out[0] == b@[0]);
        }
    } else {
        assert(out[out.len() - 1] == els.last());
    }
}

/// The segments of a run begin at its move and end where its last element does.
proof fn lemma_run_ends(els: Seq<PathEl>)
    requires
        is_run(els),
    ensures
        segments_of(els).len() == els.len() - 1,
        segments_of(els)[0].cubic().p0 == end_of(els[0]),
        segments_of(els).last().cubic().p3 == end_of(els.last()),
    decreases els.len(),
{
    lemma_run_length(els);
    let before = els.drop_last();
    assert(before.push(els.last()) =~= els);
    assert(els[els.len() - 1].draws());
    if els.len() > 2 {
        assert(before.last() == els[els.len() - 2]);
        assert(els[els.len() - 2].draws());
        assert forall|i: int| 1 <= i < before.len() implies (#[trigger] before[i]).draws() by {
            assert(els[i].draws());
        }
        lemma_run_ends(before);
        assert(segments_of(els)[0] == segments_of(els).drop_last()[0]);
    }
    law_elements_draw_segments(before, els.last());
}

/// A subpath of at least two segments and without a corner is put out as the
/// fitter answers, asked about all that the subpath draws.
pub proof fn law_smooth_subpath_is_fitted<F, G>(
    p: Point,
    b: Seq<PathEl>,
    thresh: Float,
    accuracy: Float,
    level: SimplifyOptLevel,
    fit: F,
    fit_opt: G,
    outs: Seq<Seq<PathEl>>,
) where
    F: Fn(&SimplifyBezPath, Float) -> BezPath,
    G: Fn(&SimplifyBezPath, Float) -> BezPath,

    requires
        forall|i: int| 0 <= i < b.len() ==> (#[trigger] b[i]).draws(),
        ({
            let s = strokes(seq![PathEl::MoveTo(p)] + b);
            &&& s.len() >= 2
            &&& forall|i: int| 0 < i < s.len() ==> !is_corner(s[i - 1], #[trigger] s[i], thresh)
        }),
        outputs_of(
            pieces_of(seq![PathEl::MoveTo(p)] + b, thresh),
            accuracy,
            level,
            fit,
            fit_opt,
            outs,
        ),
    ensures
        exists|s: SimplifyBezPath, answer: BezPath|
            {
                &&& #[trigger] asked(level, fit, fit_opt, s, accuracy, answer)
                &&& is_prepared(s, strokes(seq![PathEl::MoveTo(p)] + b))
                &&& outs.flatten() == answer@
            },
{
    let path = seq![PathEl::MoveTo(p)] + b;
    let pieces = pieces_of(path, thresh);
    law_smooth_subpath_is_one_run(p, b, thresh);
    lemma_begins_with_move(p, b);
    law_runs_are_smooth(path, thresh, 0);
    law_outputs_of_the_pieces(pieces, accuracy, level, fit, fit_opt, outs, 0);
    let (s, answer) = choose|s: SimplifyBezPath, answer: BezPath|
        {
            &&& #[trigger] asked(level, fit, fit_opt, s, accuracy, answer)
            &&& is_prepared(s, segments_of(pieces[0]->els))
            &&& is_all_of(outs[0], answer@, true)
        };
    assert(outs[0] =~= answer@);
    let none = Seq::<Seq<PathEl>>::empty();
    assert(outs =~= none.push(outs[0]));
    none.lemma_flatten_push(outs[0]);
    assert(none.flatten() =~= Seq::<PathEl>::empty());
    assert(outs.flatten() =~= answer@);
}

}
