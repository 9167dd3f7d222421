use std::cell::RefCell;

use bezpath_simplify::curve::SimplifyBezPath;
use bezpath_simplify::float::Float;
use bezpath_simplify::geom::{CubicBez, Point, QuadBez};
use bezpath_simplify::path::{BezPath, Line, PathEl, PathSeg};
use bezpath_simplify::simplify::{
    meets_at_corner, simplify_bezpath, SimplifyOptLevel, SimplifyOptions, SimplifyState,
};

fn f(v: f64) -> Float {
    Float { bits: v.to_bits() }
}

fn v(x: Float) -> f64 {
    f64::from_bits(x.bits)
}

fn pt(x: f64, y: f64) -> Point {
    Point::new(f(x), f(y))
}

fn mv(x: f64, y: f64) -> PathEl {
    PathEl::MoveTo(pt(x, y))
}

fn ln(x: f64, y: f64) -> PathEl {
    PathEl::LineTo(pt(x, y))
}

/// A single cubic with the ends and the derivatives of the curve.
fn hermite(s: &SimplifyBezPath, _accuracy: Float) -> BezPath {
    let (p0, d0) = s.sample_pt_deriv(f(0.0));
    let (p3, d3) = s.sample_pt_deriv(f(1.0));
    let third = f(1.0 / 3.0);
    let mut path = BezPath::new();
    path.move_to(p0);
    path.curve_to(p0.plus_vec(d0.times(third)), p3.minus_vec(d3.times(third)), p3);
    path
}

/// The chord of the curve.
fn chord(s: &SimplifyBezPath, _accuracy: Float) -> BezPath {
    let mut path = BezPath::new();
    path.move_to(s.eval(f(0.0)));
    path.line_to(s.eval(f(1.0)));
    path
}

fn unused(_s: &SimplifyBezPath, _accuracy: Float) -> BezPath {
    panic!("no run is long enough to be fitted")
}

#[test]
fn simplify_lines_corner() {
    // Make sure lines are passed through unchanged if there is a corner.
    let mut path = BezPath::new();
    path.move_to(pt(1., 2.));
    path.line_to(pt(3., 4.));
    path.line_to(pt(10., 5.));
    let options = SimplifyOptions::default();
    let simplified = simplify_bezpath(path.elements(), f(1.0), &options, &unused, &unused);
    assert_eq!(path, simplified);
}

/// All points of a path, control points included.
fn all_points(path: &BezPath) -> Vec<Point> {
    path.elements()
        .iter()
        .flat_map(|el| match *el {
            PathEl::MoveTo(p) | PathEl::LineTo(p) => vec![p],
            PathEl::QuadTo(p1, p2) => vec![p1, p2],
            PathEl::CurveTo(p1, p2, p3) => vec![p1, p2, p3],
            PathEl::ClosePath => vec![],
        })
        .collect()
}

// A shallow curve arriving at (493.93, 324), then a straight backtrack
// along y = 324. Fitting across that 180 degree fold produces a control point
// far outside the path.
const FOLD_PTS: &[(f64, f64)] = &[
    (486.53000000000003, 325.49),
    (488.93, 324.68),
    (491.41, 324.18),
    (493.93, 324.0),
    (415.74, 324.0),
];

fn fold_path() -> BezPath {
    let mut path = BezPath::new();
    path.move_to(pt(FOLD_PTS[0].0, FOLD_PTS[0].1));
    for (x, y) in &FOLD_PTS[1..] {
        path.line_to(pt(*x, *y));
    }
    path
}

/// The least and greatest coordinates of the fold, with a margin.
fn fold_box(margin: f64) -> (f64, f64, f64, f64) {
    (415.74 - margin, 324.0 - margin, 493.93 + margin, 325.49 + margin)
}

fn contains(bbox: (f64, f64, f64, f64), p: Point) -> bool {
    let (x, y) = (v(p.x), v(p.y));
    x >= bbox.0 && x < bbox.2 && y >= bbox.1 && y < bbox.3
}

#[test]
fn simplify_fold_no_control_point_excursion() {
    let path = fold_path();
    let accuracy = 2.0;
    let bbox = fold_box(4.0 * accuracy);
    for opt_level in [SimplifyOptLevel::Subdivide, SimplifyOptLevel::Optimize] {
        let options = SimplifyOptions::default().angle_thresh(f(0.25)).opt_level(opt_level);
        let simplified =
            simplify_bezpath(path.elements(), f(accuracy), &options, &hermite, &hermite);
        for p in all_points(&simplified) {
            assert!(
                contains(bbox, p),
                "simplified path point {p:?} is outside {bbox:?}; path is {simplified:?}"
            );
        }
    }
}

#[test]
fn fold_is_cut_before_fitting() {
    // Fitted in one piece, the fold does leave the box; cut at the fold it is a
    // curve and a line.
    let path = fold_path();
    let whole = hermite(&SimplifyBezPath::new(path.elements()), f(2.0));
    assert!(!all_points(&whole).iter().all(|p| contains(fold_box(8.0), *p)));

    let options = SimplifyOptions::default().angle_thresh(f(0.25));
    let cut = simplify_bezpath(path.elements(), f(2.0), &options, &hermite, &unused);
    let els = cut.elements();
    assert_eq!(els.len(), 3);
    assert_eq!(els[0], mv(486.53000000000003, 325.49));
    assert!(matches!(els[1], PathEl::CurveTo(_, _, p) if p == pt(493.93, 324.0)));
    assert_eq!(els[2], ln(415.74, 324.0));
}

#[test]
fn default_options_subdivide_at_a_milliradian() {
    // A turn by the tangent 0.0005 is smooth, one by 0.002 is a corner.
    let smooth = vec![mv(0.0, 0.0), ln(1000.0, 0.0), ln(2000.0, 0.5)];
    let corner = vec![mv(0.0, 0.0), ln(1000.0, 0.0), ln(2000.0, 2.0)];
    let options = SimplifyOptions::default();
    let fitted = simplify_bezpath(&smooth, f(1.0), &options, &chord, &unused);
    assert_eq!(fitted.elements(), &[mv(0.0, 0.0), ln(2000.0, 0.5)]);
    let kept = simplify_bezpath(&corner, f(1.0), &options, &unused, &unused);
    assert_eq!(kept.elements(), corner.as_slice());
}

#[test]
fn options_keep_what_is_not_set() {
    let bent = vec![mv(0.0, 0.0), ln(1000.0, 0.0), ln(2000.0, 2.0)];
    let wide = SimplifyOptions::default().angle_thresh(f(0.01));
    // Setting the level keeps the threshold: the bend is smooth, and the other
    // fitter is asked.
    let both = wide.opt_level(SimplifyOptLevel::Optimize);
    let fitted = simplify_bezpath(&bent, f(1.0), &both, &unused, &chord);
    assert_eq!(fitted.elements(), &[mv(0.0, 0.0), ln(2000.0, 2.0)]);
    // Setting the threshold keeps the level.
    let back = SimplifyOptions::default()
        .opt_level(SimplifyOptLevel::Optimize)
        .angle_thresh(f(0.01));
    let again = simplify_bezpath(&bent, f(1.0), &back, &unused, &chord);
    assert_eq!(again, fitted);
}

#[test]
fn fitters_get_the_run_and_the_accuracy() {
    let seen: RefCell<Vec<(usize, f64)>> = RefCell::new(Vec::new());
    let record = |s: &SimplifyBezPath, accuracy: Float| {
        seen.borrow_mut().push((0, v(accuracy)));
        // The run ends where its last segment ends, and begins where its first
        // begins.
        assert_eq!(s.eval(f(0.0)), pt(0.0, 0.0));
        assert_eq!(s.eval(f(1.0)), pt(30.0, 0.0));
        // Three segments, run through evenly.
        assert_eq!(s.eval(f(0.5)), pt(15.0, 0.0));
        chord(s, accuracy)
    };
    let path = vec![mv(0.0, 0.0), ln(10.0, 0.0), ln(20.0, 0.0), ln(30.0, 0.0), ln(30.0, 5.0)];
    let options = SimplifyOptions::default();
    let out = simplify_bezpath(&path, f(0.125), &options, &record, &unused);
    assert_eq!(out.elements(), &[mv(0.0, 0.0), ln(30.0, 0.0), ln(30.0, 5.0)]);
    assert_eq!(seen.borrow().as_slice(), &[(0, 0.125)]);
}

#[test]
fn moves_inside_a_subpath_are_left_out() {
    // Two smooth runs of one subpath: the second result loses its move.
    let path = vec![
        mv(0.0, 0.0),
        ln(10.0, 0.0),
        ln(20.0, 0.0),
        ln(20.0, 10.0),
        ln(20.0, 20.0),
    ];
    let options = SimplifyOptions::default();
    let out = simplify_bezpath(&path, f(1.0), &options, &chord, &unused);
    assert_eq!(out.elements(), &[mv(0.0, 0.0), ln(20.0, 0.0), ln(20.0, 20.0)]);
}

#[test]
fn the_move_is_all_that_a_new_subpath_adds() {
    // One run, once behind a corner and once behind a move.
    let run = [ln(20.0, 10.0), ln(20.0, 20.0), ln(20.0, 35.0)];
    let options = SimplifyOptions::default();
    let mut inside = vec![mv(0.0, 0.0), ln(20.0, 0.0)];
    inside.extend(run);
    let mut apart = vec![mv(0.0, 0.0), ln(20.0, 0.0), mv(20.0, 0.0)];
    apart.extend(run);
    let a = simplify_bezpath(&inside, f(1.0), &options, &hermite, &unused);
    let b = simplify_bezpath(&apart, f(1.0), &options, &hermite, &unused);
    let (a, b) = (a.elements(), b.elements());
    assert_eq!(a.len(), 3);
    assert_eq!(b.len(), 4);
    assert_eq!(a[..2], b[..2]);
    assert_eq!(b[2], mv(20.0, 0.0));
    assert_eq!(a[2], b[3]);
}

#[test]
fn moves_and_closings_stand_where_they_are_needed() {
    let path = vec![
        mv(9.0, 9.0),
        mv(0.0, 0.0),
        ln(10.0, 0.0),
        ln(10.0, 10.0),
        PathEl::ClosePath,
        PathEl::ClosePath,
        mv(5.0, 5.0),
        mv(6.0, 6.0),
        ln(6.0, 6.0),
        ln(7.0, 6.0),
        mv(8.0, 8.0),
    ];
    let options = SimplifyOptions::default();
    let out = simplify_bezpath(&path, f(1.0), &options, &unused, &unused);
    assert_eq!(
        out.elements(),
        &[
            mv(0.0, 0.0),
            ln(10.0, 0.0),
            ln(10.0, 10.0),
            PathEl::ClosePath,
            PathEl::ClosePath,
            mv(6.0, 6.0),
            ln(7.0, 6.0),
        ]
    );
}

#[test]
fn every_subpath_keeps_its_move() {
    let path = vec![
        mv(0.0, 0.0),
        ln(10.0, 0.0),
        ln(20.0, 0.0),
        mv(50.0, 50.0),
        ln(60.0, 50.0),
        ln(70.0, 50.0),
    ];
    let options = SimplifyOptions::default();
    let out = simplify_bezpath(&path, f(1.0), &options, &chord, &unused);
    assert_eq!(out.elements(), &[mv(0.0, 0.0), ln(20.0, 0.0), mv(50.0, 50.0), ln(70.0, 50.0)]);
    // As if each had been simplified alone.
    let one = simplify_bezpath(&path[..3], f(1.0), &options, &chord, &unused);
    let two = simplify_bezpath(&path[3..], f(1.0), &options, &chord, &unused);
    let joined: Vec<PathEl> = one.elements().iter().chain(two.elements()).copied().collect();
    assert_eq!(out.elements(), joined.as_slice());
}

#[test]
fn closings_are_kept() {
    let path = vec![
        mv(0.0, 0.0),
        ln(10.0, 0.0),
        ln(10.0, 10.0),
        PathEl::ClosePath,
        mv(5.0, 5.0),
        ln(6.0, 6.0),
        PathEl::ClosePath,
    ];
    let options = SimplifyOptions::default();
    let out = simplify_bezpath(&path, f(1.0), &options, &unused, &unused);
    assert_eq!(out.elements(), path.as_slice());
}

#[test]
fn drawing_goes_on_after_a_closing() {
    // What is drawn after a closing begins a subpath at the last point drawn.
    let path = vec![mv(0.0, 0.0), ln(10.0, 0.0), PathEl::ClosePath, ln(10.0, 5.0)];
    let options = SimplifyOptions::default();
    let out = simplify_bezpath(&path, f(1.0), &options, &unused, &unused);
    assert_eq!(
        out.elements(),
        &[mv(0.0, 0.0), ln(10.0, 0.0), PathEl::ClosePath, mv(10.0, 0.0), ln(10.0, 5.0)]
    );
    // The segments before and after a closing do not meet: no turn is
    // considered, and they make no run together.
    let path = vec![mv(0.0, 0.0), ln(10.0, 0.0), PathEl::ClosePath, ln(20.0, 0.0)];
    let out = simplify_bezpath(&path, f(1.0), &options, &unused, &unused);
    assert_eq!(out.elements().len(), 5);
}

#[test]
fn staying_elements_change_nothing() {
    let p = pt(10.0, 0.0);
    let path = vec![
        mv(0.0, 0.0),
        ln(10.0, 0.0),
        PathEl::LineTo(p),
        PathEl::QuadTo(p, p),
        PathEl::CurveTo(p, p, p),
        ln(20.0, 0.0),
    ];
    let plain = vec![mv(0.0, 0.0), ln(10.0, 0.0), ln(20.0, 0.0)];
    let options = SimplifyOptions::default();
    let out = simplify_bezpath(&path, f(1.0), &options, &chord, &unused);
    assert_eq!(out, simplify_bezpath(&plain, f(1.0), &options, &chord, &unused));
    assert_eq!(out.elements(), &[mv(0.0, 0.0), ln(20.0, 0.0)]);
    // A curve that comes back to where it began is drawn.
    let loop_back = vec![mv(0.0, 0.0), PathEl::QuadTo(pt(5.0, 5.0), pt(0.0, 0.0))];
    let out = simplify_bezpath(&loop_back, f(1.0), &options, &unused, &unused);
    assert_eq!(out.elements(), loop_back.as_slice());
    // Zero is zero, whatever its sign.
    let signed = vec![mv(0.0, 0.0), ln(-0.0, 0.0), ln(1.0, 0.0)];
    let out = simplify_bezpath(&signed, f(1.0), &options, &unused, &unused);
    assert_eq!(out.elements(), &[mv(0.0, 0.0), ln(1.0, 0.0)]);
}

#[test]
fn empty_paths_stay_empty() {
    let options = SimplifyOptions::default();
    let out = simplify_bezpath(&[], f(1.0), &options, &unused, &unused);
    assert!(out.elements().is_empty());
    let out = simplify_bezpath(&[mv(1.0, 1.0), mv(2.0, 2.0)], f(1.0), &options, &unused, &unused);
    assert!(out.elements().is_empty());
    let closed = [mv(1.0, 1.0), PathEl::ClosePath];
    let out = simplify_bezpath(&closed, f(1.0), &options, &unused, &unused);
    assert_eq!(out.elements(), &[PathEl::ClosePath]);
}

#[test]
fn curves_of_every_kind_pass_through_alone() {
    let path = vec![
        mv(0.0, 0.0),
        PathEl::QuadTo(pt(5.0, 0.0), pt(5.0, 5.0)),
        PathEl::CurveTo(pt(6.0, 5.0), pt(9.0, 8.0), pt(9.0, 9.0)),
        ln(0.0, 9.0),
    ];
    let options = SimplifyOptions::default();
    let out = simplify_bezpath(&path, f(1.0), &options, &unused, &unused);
    assert_eq!(out.elements(), path.as_slice());
}

#[test]
fn simplifying_twice_changes_corners_no_more() {
    let path = vec![mv(0.0, 0.0), ln(10.0, 0.0), ln(20.0, 0.0), ln(20.0, 10.0), ln(20.0, 20.0)];
    let options = SimplifyOptions::default();
    let once = simplify_bezpath(&path, f(1.0), &options, &chord, &unused);
    let twice = simplify_bezpath(once.elements(), f(1.0), &options, &unused, &unused);
    assert_eq!(once, twice);
}

fn line(a: (f64, f64), b: (f64, f64)) -> PathSeg {
    PathSeg::Line(Line { p0: pt(a.0, a.1), p1: pt(b.0, b.1) })
}

#[test]
fn turns_of_more_than_a_right_angle_are_corners() {
    let first = line((0.0, 0.0), (10.0, 0.0));
    for thresh in [0.001, 1.0, 1e9, f64::INFINITY] {
        // A reversal, a right angle, and a bit more than that.
        assert!(meets_at_corner(first, line((10.0, 0.0), (0.0, 0.0)), f(thresh)));
        assert!(meets_at_corner(first, line((10.0, 0.0), (10.0, 3.0)), f(thresh)));
        assert!(meets_at_corner(first, line((10.0, 0.0), (9.0, 3.0)), f(thresh)));
    }
    // Straight on.
    assert!(!meets_at_corner(first, line((10.0, 0.0), (11.0, 0.0)), f(0.0)));
    // Just inside and outside of the threshold, to either side.
    for side in [1.0, -1.0] {
        assert!(!meets_at_corner(first, line((10.0, 0.0), (14.0, side)), f(0.25)));
        assert!(meets_at_corner(first, line((10.0, 0.0), (14.0, 1.01 * side)), f(0.25)));
    }
    // A corner stays one when the threshold is lowered.
    let bend = line((10.0, 0.0), (14.0, 1.0));
    let corners: Vec<bool> = [-1.0, 0.0, 0.1, 0.24, 0.25, 0.26, 1.0, f64::INFINITY]
        .iter()
        .map(|t| meets_at_corner(first, bend, f(*t)))
        .collect();
    assert_eq!(corners, vec![true, true, true, true, false, false, false, false]);
    // Coordinates so large that the dot product is undefined give no corner.
    let far = line((0.0, 0.0), (1e200, 1e200));
    let back = line((1e200, 1e200), (2e200, -1e200));
    assert!(!meets_at_corner(far, back, f(0.001)));
    // Nothing is more than an undefined threshold.
    assert!(!meets_at_corner(first, line((10.0, 0.0), (11.0, 5.0)), f(f64::NAN)));
}

#[test]
fn tangents_pass_over_coinciding_control_points() {
    // Control points at the ends: the direction is that of the next point that
    // is far enough.
    let c = CubicBez::new(pt(0.0, 0.0), pt(0.0, 0.0), pt(3.0, 0.0), pt(3.0, 0.0));
    let (a, b) = PathSeg::Cubic(c).tangents();
    assert_eq!((v(a.x), v(a.y)), (3.0, 0.0));
    assert_eq!((v(b.x), v(b.y)), (3.0, 0.0));
    let c = CubicBez::new(pt(0.0, 0.0), pt(1.0, 2.0), pt(2.0, 5.0), pt(3.0, 1.0));
    let (a, b) = PathSeg::Cubic(c).tangents();
    assert_eq!((v(a.x), v(a.y)), (1.0, 2.0));
    assert_eq!((v(b.x), v(b.y)), (1.0, -4.0));
    let q = QuadBez::new(pt(0.0, 0.0), pt(0.0, 0.0), pt(4.0, 1.0));
    let (a, b) = PathSeg::Quad(q).tangents();
    assert_eq!((v(a.x), v(a.y)), (4.0, 1.0));
    assert_eq!((v(b.x), v(b.y)), (4.0, 1.0));
    let (a, b) = line((1.0, 1.0), (2.0, 4.0)).tangents();
    assert_eq!((v(a.x), v(a.y)), (1.0, 3.0));
    assert_eq!((v(b.x), v(b.y)), (1.0, 3.0));
}

#[test]
fn state_collects_and_flushes() {
    // Flushing an empty queue does nothing; a run inside a subpath loses its
    // move.
    let options = SimplifyOptions::default();
    let mut state = SimplifyState::default();
    state.flush(f(1.0), &options, &unused, &unused);
    state.add_seg(line((0.0, 0.0), (1.0, 0.0)));
    state.flush(f(1.0), &options, &unused, &unused);
    state.add_seg(line((1.0, 0.0), (2.0, 0.0)));
    state.add_seg(line((2.0, 0.0), (3.0, 0.0)));
    state.flush(f(1.0), &options, &chord, &unused);
    let text = format!("{state:?}");
    assert!(text.contains("needs_moveto: false"));
    assert_eq!(text.matches("LineTo").count(), 2);
    assert_eq!(text.matches("MoveTo").count(), 0);
}
