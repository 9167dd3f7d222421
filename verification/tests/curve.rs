use bezpath_simplify::curve::SimplifyBezPath;
use bezpath_simplify::float::Float;
use bezpath_simplify::geom::{CubicBez, Point, QuadBez, Vec2};
use bezpath_simplify::moments::{moment_integrals, translate};
use bezpath_simplify::path::{segments, BezPath, Line, PathEl, PathSeg};

fn f(v: f64) -> Float {
    Float { bits: v.to_bits() }
}

fn v(x: Float) -> f64 {
    f64::from_bits(x.bits)
}

fn pt(x: f64, y: f64) -> Point {
    Point::new(f(x), f(y))
}

fn xy(p: Point) -> (f64, f64) {
    (v(p.x), v(p.y))
}

fn all(m: (Float, Float, Float)) -> (f64, f64, f64) {
    (v(m.0), v(m.1), v(m.2))
}

fn close(a: f64, b: f64) -> bool {
    (a - b).abs() <= 1e-9 * a.abs().max(b.abs()).max(1.0)
}

fn all_close(a: (f64, f64, f64), b: (f64, f64, f64)) -> bool {
    close(a.0, b.0) && close(a.1, b.1) && close(a.2, b.2)
}

const FOLD_PTS: &[(f64, f64)] = &[
    (486.53000000000003, 325.49),
    (488.93, 324.68),
    (491.41, 324.18),
    (493.93, 324.0),
    (415.74, 324.0),
];

fn fold_path(offset: (f64, f64)) -> BezPath {
    let mut path = BezPath::new();
    for (i, (x, y)) in FOLD_PTS.iter().enumerate() {
        let p = pt(x + offset.0, y + offset.1);
        if i == 0 {
            path.move_to(p);
        } else {
            path.line_to(p);
        }
    }
    path
}

/// The quantities the fit is derived from are invariant to translation; make
/// sure the arithmetic actually is.
#[test]
fn moment_integrals_translation_invariance() {
    let path = fold_path((0.0, 0.0));
    // The same shape, translated so it sits near the origin.
    let translated = fold_path((-400.0, -324.0));

    let s = SimplifyBezPath::new(path.elements());
    let s_translated = SimplifyBezPath::new(translated.elements());
    for (t0, t1) in [
        (0.0, 1.0),
        (0.0, 0.5),
        (0.6, 1.0),
        (0.75, 1.0),
        (0.1, 0.2),
        (0.45, 0.55),
    ] {
        let m = all(s.moment_integrals(f(t0)..f(t1)));
        let m_translated = all(s_translated.moment_integrals(f(t0)..f(t1)));
        for (v, w) in [
            (m.0, m_translated.0),
            (m.1, m_translated.1),
            (m.2, m_translated.2),
        ] {
            // The paths differ by about 1e-14 relative, as translating them
            // rounds; allow a good deal more than that but far less than
            // the loss from cancellation.
            let tol = 1e-9 * v.abs().max(w.abs()).max(1e-6);
            assert!(
                (v - w).abs() <= tol,
                "moment integrals over {t0}..{t1} are not translation invariant: \
                 {m:?} vs {m_translated:?}"
            );
        }
    }
}

/// The moment integrals with the arithmetic of the machine.
fn on_machine(c: [(f64, f64); 4]) -> (f64, f64, f64) {
    let (x0, y0) = c[0];
    let (x1, y1) = (c[1].0 - x0, c[1].1 - y0);
    let (x2, y2) = (c[2].0 - x0, c[2].1 - y0);
    let (x3, y3) = (c[3].0 - x0, c[3].1 - y0);
    let (r0, r1, r2, r3, r4) = (3. * x1, 3. * y1, x2 * y3, x3 * y2, x3 * y3);
    let (r5, r6, r7, r8, r9) = (27. * y1, x1 * x2, 27. * y2, 45. * r2, 18. * x3);
    let (r10, r11, r12, r13, r14) = (x1 * y1, 30. * x1, 45. * x3, x2 * y1, 45. * r3);
    let (r15, r16, r17, r18, r19) = (x1 * x1, 18. * y3, x2 * x2, 45. * y3, x3 * x3);
    let (r20, r21, r22, r23) = (30. * y1, y2 * y2, y3 * y3, y1 * y1);
    let a = -r0 * y2 - r0 * y3 + r1 * x2 + r1 * x3 - 6. * r2 + 6. * r3 + 10. * r4;
    let lift = x3 * y0;
    let area = a * 0.05 + lift;
    let x = r10 * r9 - r11 * r4 + r12 * r13 + r14 * x2 - r15 * r16 - r15 * r7 - r17 * r18
        + r17 * r5
        + r19 * r20
        + 105. * r19 * y2
        + 280. * r19 * y3
        - 105. * r2 * x3
        + r5 * r6
        - r6 * r7
        - r8 * x1;
    let y = -r10 * r16 - r10 * r7 - r11 * r22 + r12 * r21 + r13 * r7 + r14 * y1 - r18 * x1 * y2
        + r20 * r4
        - 27. * r21 * x1
        - 105. * r22 * x2
        + 140. * r22 * x3
        + r23 * r9
        + 27. * r23 * x2
        + 105. * r3 * y3
        - r8 * y2;
    let mx = x * (1. / 840.) + x0 * area + 0.5 * x3 * lift;
    let my = y * (1. / 420.) + y0 * a * 0.1 + y0 * lift;
    (area, mx, my)
}

fn cubic(c: [(f64, f64); 4]) -> CubicBez {
    let [p0, p1, p2, p3] = c.map(|(x, y)| pt(x, y));
    CubicBez::new(p0, p1, p2, p3)
}

const CURVES: [[(f64, f64); 4]; 4] = [
    [(0.0, 0.0), (1.0, 2.0), (3.0, -1.0), (4.0, 1.0)],
    [(0.1, 0.7), (-3.3, 2.9), (1e3, -1e-3), (4.4, 1.3)],
    [(486.53, 325.49), (487.33, 325.22), (488.13, 324.95), (488.93, 324.68)],
    [(1e200, -1e200), (1e150, 3.0), (2.0, 1e-300), (-1e200, 7.0)],
];

#[test]
fn moment_integrals_bit_for_bit() {
    for c in CURVES {
        let (ours, theirs) = (moment_integrals(cubic(c)), on_machine(c));
        for (a, b) in [(ours.0, theirs.0), (ours.1, theirs.1), (ours.2, theirs.2)] {
            assert!(a.bits == b.to_bits() || (v(a).is_nan() && b.is_nan()), "{a:?} {b}");
        }
    }
}

/// The moment integrals by summing over many small steps.
fn by_steps(c: CubicBez, steps: usize) -> (f64, f64, f64) {
    let mut m = (0.0, 0.0, 0.0);
    for i in 0..steps {
        let t = (i as f64 + 0.5) / steps as f64;
        let (x, y) = xy(c.eval(f(t)));
        let dx = v(c.deriv().eval(f(t)).x) / steps as f64;
        m.0 += y * dx;
        m.1 += x * y * dx;
        m.2 += y * y * dx;
    }
    m
}

#[test]
fn moment_integrals_are_integrals() {
    let c = cubic([(1.0, 2.0), (2.0, 5.0), (4.0, -1.0), (6.0, 3.0)]);
    let m = all(moment_integrals(c));
    let n = by_steps(c, 4000);
    for (a, b) in [(m.0, n.0), (m.1, n.1), (m.2, n.2)] {
        assert!((a - b).abs() < 1e-4, "{a} {b}");
    }
}

#[test]
fn moment_integrals_of_a_line() {
    // Along y = x from 0 to 6: the area is 18, and both moments are 72.
    let c = cubic([(0.0, 0.0), (2.0, 2.0), (4.0, 4.0), (6.0, 6.0)]);
    assert!(all_close(all(moment_integrals(c)), (18.0, 72.0, 72.0)));
    // Level at 3, from 1 to 5.
    let c = cubic([(1.0, 3.0), (2.0, 3.0), (4.0, 3.0), (5.0, 3.0)]);
    assert!(all_close(all(moment_integrals(c)), (12.0, 36.0, 36.0)));
    // A point has none.
    let c = cubic([(7.0, 3.0), (7.0, 3.0), (7.0, 3.0), (7.0, 3.0)]);
    assert_eq!(all(moment_integrals(c)), (0.0, 0.0, 0.0));
}

#[test]
fn translation_moves_the_origin() {
    let c = translate(cubic([(1.0, 2.0), (3.0, 4.0), (5.0, 6.0), (7.0, 9.0)]), pt(1.0, 2.0));
    assert_eq!(xy(c.p0), (0.0, 0.0));
    assert_eq!(xy(c.p1), (2.0, 2.0));
    assert_eq!(xy(c.p2), (4.0, 4.0));
    assert_eq!(xy(c.p3), (6.0, 7.0));
}

#[test]
fn translation_is_undone() {
    let big = 4503599627370495.0;
    let c = cubic([(1.0, -2.0), (big, 0.0), (-big, 5.0), (0.0, 12345.0)]);
    for o in [pt(17.0, -4.0), pt(big, -big), pt(-big, big), pt(0.0, 0.0)] {
        let back = translate(translate(c, o), Point::new(o.x.flip(), o.y.flip()));
        assert_eq!(xy(back.p0), xy(c.p0));
        assert_eq!(xy(back.p1), xy(c.p1));
        assert_eq!(xy(back.p2), xy(c.p2));
        assert_eq!(xy(back.p3), xy(c.p3));
    }
}

#[test]
fn the_length_is_the_number_of_curves() {
    assert_eq!(SimplifyBezPath::new(wave().elements()).len(), 4);
    assert_eq!(SimplifyBezPath::new(&[]).len(), 0);
    assert_eq!(SimplifyBezPath::new(&[PathEl::MoveTo(pt(1.0, 1.0))]).len(), 0);
}

#[test]
fn joins_are_met_however_many_curves() {
    // Parameters of joins, rounded, may fall just before the join; the moments
    // are those of the segment all the same.
    for n in [3usize, 7, 49, 100] {
        let mut path = BezPath::new();
        path.move_to(pt(0.0, 0.0));
        for i in 1..=n {
            path.line_to(pt(i as f64, (i * i % 5) as f64));
        }
        let s = SimplifyBezPath::new(path.elements());
        for k in 0..n {
            let (r, t) = (k as f64 / n as f64, (k + 1) as f64 / n as f64);
            let m = all(s.moment_integrals(f(r)..f(t)));
            let (y0, y1) = ((k * k % 5) as f64, ((k + 1) * (k + 1) % 5) as f64);
            let h = y1 - y0;
            assert!(all_close(m, (h / 2.0, h / 3.0, h * h / 3.0)), "{n} {k}: {m:?}");
        }
    }
}

#[test]
fn parts_follow_the_curve() {
    let c = cubic([(1.0, 2.0), (2.0, 5.0), (4.0, -1.0), (6.0, 3.0)]);
    let part = c.subsegment(f(0.25), f(0.75));
    for u in [0.0, 0.125, 0.5, 0.75, 1.0] {
        let (a, b) = (xy(part.eval(f(u))), xy(c.eval(f(0.25 + 0.5 * u))));
        assert!(close(a.0, b.0) && close(a.1, b.1), "{a:?} {b:?}");
    }
    // Exact where nothing needs rounding.
    let line = cubic([(0.0, 0.0), (3.0, 0.0), (6.0, 0.0), (9.0, 0.0)]);
    let half = line.subsegment(f(0.0), f(0.5));
    assert_eq!(xy(half.p0), (0.0, 0.0));
    assert_eq!(xy(half.p3), (4.5, 0.0));
}

#[test]
fn moments_of_parts_add_up() {
    let c = cubic([(1.0, 2.0), (2.0, 5.0), (4.0, -1.0), (6.0, 3.0)]);
    let part = |t0: f64, t1: f64| all(moment_integrals(c.subsegment(f(t0), f(t1))));
    for (t0, t1, t2) in [(0.0, 0.5, 1.0), (0.25, 0.3, 0.75), (0.0, 0.9, 0.2), (0.4, 0.4, 0.8)] {
        assert!(all_close(sum(part(t0, t1), part(t1, t2)), part(t0, t2)), "{t0} {t1} {t2}");
    }
    // The whole of a curve is a part of it.
    assert!(all_close(part(0.0, 1.0), all(moment_integrals(c))));
}

#[test]
fn derivatives_and_values() {
    let c = cubic([(0.0, 0.0), (1.0, 0.0), (1.0, 2.0), (4.0, 2.0)]);
    assert_eq!(xy(c.eval(f(0.0))), (0.0, 0.0));
    assert_eq!(xy(c.eval(f(1.0))), (4.0, 2.0));
    assert_eq!(xy(c.eval(f(0.5))), (1.25, 1.0));
    assert_eq!(xy(c.deriv().eval(f(0.0))), (3.0, 0.0));
    assert_eq!(xy(c.deriv().eval(f(1.0))), (9.0, 0.0));
    assert_eq!(xy(c.deriv().eval(f(0.5))), (3.0, 3.0));
    let q = QuadBez::new(pt(0.0, 0.0), pt(2.0, 4.0), pt(4.0, 0.0));
    assert_eq!(xy(q.eval(f(0.5))), (2.0, 2.0));
}

#[test]
fn raised_and_straight_curves_are_the_same() {
    let q = QuadBez::new(pt(0.0, 0.0), pt(3.0, 6.0), pt(9.0, -3.0));
    let c = q.raise();
    for t in [0.0, 0.25, 0.6, 1.0] {
        let (a, b) = (xy(q.eval(f(t))), xy(c.eval(f(t))));
        assert!(close(a.0, b.0) && close(a.1, b.1));
    }
    let l = PathSeg::Line(Line { p0: pt(1.0, 1.0), p1: pt(4.0, 7.0) }).to_cubic();
    assert_eq!(xy(l.p0), (1.0, 1.0));
    assert_eq!(xy(l.p3), (4.0, 7.0));
    let third = xy(l.eval(f(1.0 / 3.0)));
    assert!(close(third.0, 2.0) && close(third.1, 3.0));
}

#[test]
fn moved_curves_have_moved_points() {
    let c = cubic([(0.0, 0.0), (1.0, 4.0), (2.0, -4.0), (8.0, 2.0)]);
    let m = translate(c, pt(-16.0, 32.0));
    assert_eq!(xy(m.eval(f(0.5))), (xy(c.eval(f(0.5))).0 + 16.0, xy(c.eval(f(0.5))).1 - 32.0));
    let (a, b): (Vec2, Vec2) = (
        c.deriv().eval(f(0.5)).to_vec2(),
        m.deriv().eval(f(0.5)).to_vec2(),
    );
    assert_eq!((a.x, a.y), (b.x, b.y));
}

fn wave() -> BezPath {
    let mut path = BezPath::new();
    path.move_to(pt(0.0, 1.0));
    path.curve_to(pt(1.0, 3.0), pt(2.0, 3.0), pt(3.0, 1.0));
    path.quad_to(pt(4.0, -1.0), pt(5.0, 1.0));
    path.line_to(pt(6.0, 3.0));
    path.curve_to(pt(7.0, 5.0), pt(8.0, 0.0), pt(9.0, 2.0));
    path
}

fn sum(a: (f64, f64, f64), b: (f64, f64, f64)) -> (f64, f64, f64) {
    (a.0 + b.0, a.1 + b.1, a.2 + b.2)
}

#[test]
fn stretches_are_sums_of_their_pieces() {
    let path = wave();
    let s = SimplifyBezPath::new(path.elements());
    let segs = segments(path.elements());
    let curves: Vec<CubicBez> = segs.into_iter().map(|g| g.to_cubic()).collect();
    assert_eq!(curves.len(), 4);
    // From the middle of the first curve to the middle of the last.
    let start = curves[0].eval(f(0.5));
    let piece = |c: CubicBez, t0: f64, t1: f64| {
        all(moment_integrals(translate(c.subsegment(f(t0), f(t1)), start)))
    };
    let mut expected = piece(curves[0], 0.5, 1.0);
    expected = sum(expected, piece(curves[1], 0.0, 1.0));
    expected = sum(expected, piece(curves[2], 0.0, 1.0));
    expected = sum(expected, piece(curves[3], 0.0, 0.5));
    let m = all(s.moment_integrals(f(0.125)..f(0.875)));
    assert!(all_close(m, expected), "{m:?} {expected:?}");
    // Within one curve.
    let m = all(s.moment_integrals(f(0.125)..f(0.1875)));
    assert!(all_close(m, piece(curves[0], 0.5, 0.75)));
    // Over one join: no curve lies between.
    let m = all(s.moment_integrals(f(0.125)..f(0.375)));
    let expected = sum(piece(curves[0], 0.5, 1.0), piece(curves[1], 0.0, 0.5));
    assert!(all_close(m, expected));
    // Nothing.
    let m = all(s.moment_integrals(f(0.3)..f(0.3)));
    assert_eq!(m, (0.0, 0.0, 0.0));
}

#[test]
fn ends_of_the_range() {
    let s = SimplifyBezPath::new(wave().elements());
    assert_eq!(s.eval(f(0.0)), pt(0.0, 1.0));
    assert_eq!(s.eval(f(1.0)), pt(9.0, 2.0));
    assert_eq!(s.eval(f(0.25)), pt(3.0, 1.0));
    // The last number below one still falls on the last curve, behind no other.
    let last = s.sample_pt_tangent(f(1.0 - f64::EPSILON / 2.0), f(1.0));
    assert!(close(v(last.p.x), 9.0) && close(v(last.p.y), 2.0));
    assert!(close(v(last.tangent.x), 3.0) && close(v(last.tangent.y), 6.0));
    // The moments of an empty range at the end.
    assert_eq!(all(s.moment_integrals(f(1.0)..f(1.0))), (0.0, 0.0, 0.0));
    // A value that is no number counts as zero, and gives no point.
    let p = s.eval(f(f64::NAN));
    assert!(v(p.x).is_nan() && v(p.y).is_nan());
}

#[test]
fn eval_clamps_the_parameter() {
    let els = [
        PathEl::MoveTo(pt(0.0, 0.0)),
        PathEl::CurveTo(pt(1.0, 0.0), pt(2.0, 0.0), pt(3.0, 0.0)),
    ];
    let s = SimplifyBezPath::new(&els);
    for t in [-0.25, -1.0, -1e300, f64::NEG_INFINITY, -0.0, 0.0] {
        assert_eq!(xy(s.eval(f(t))), (0.0, 0.0), "{t}");
    }
    for t in [1.0, 1.5, 2.0, 1e300, f64::INFINITY] {
        assert_eq!(xy(s.eval(f(t))), (3.0, 0.0), "{t}");
    }
    assert_eq!(xy(s.eval(f(0.5))), (1.5, 0.0));
    // The same on several curves.
    let s = SimplifyBezPath::new(wave().elements());
    assert_eq!(s.eval(f(-0.3)), pt(0.0, 1.0));
    assert_eq!(s.eval(f(1.1)), pt(9.0, 2.0));
}

/// The moments of a range from those of its two parts.
fn joined(s: &SimplifyBezPath, r: f64, m: f64, t: f64) -> (f64, f64, f64) {
    let (a1, x1, y1) = all(s.moment_integrals(f(r)..f(m)));
    let (a2, x2, y2) = all(s.moment_integrals(f(m)..f(t)));
    let (p, q, e) = (xy(s.eval(f(r))), xy(s.eval(f(m))), xy(s.eval(f(t))));
    let (dx, dy, w) = (q.0 - p.0, q.1 - p.1, e.0 - q.0);
    (
        a1 + a2 + dy * w,
        x1 + x2 + dx * a2 + dy * w * w / 2.0 + dx * dy * w,
        y1 + y2 + 2.0 * dy * a2 + dy * dy * w,
    )
}

#[test]
fn ranges_add_up_from_their_own_starts() {
    let s = SimplifyBezPath::new(wave().elements());
    for (r, m, t) in [
        (0.0, 0.5, 1.0),
        (0.0, 0.3, 1.0),
        (0.6, 0.9, 1.0),
        (0.1, 0.15, 0.2),
        (0.25, 0.25, 0.75),
        (0.2, 1.0, 1.0),
    ] {
        let whole = all(s.moment_integrals(f(r)..f(t)));
        let parts = joined(&s, r, m, t);
        assert!(all_close(whole, parts), "{r} {m} {t}: {whole:?} {parts:?}");
    }
}

#[test]
fn ranges_of_one_segment_stand_alone() {
    let path = wave();
    let s = SimplifyBezPath::new(path.elements());
    let segs = segments(path.elements());
    for (k, seg) in segs.iter().enumerate() {
        let el = match *seg {
            PathSeg::Line(l) => PathEl::LineTo(l.p1),
            PathSeg::Quad(q) => PathEl::QuadTo(q.p1, q.p2),
            PathSeg::Cubic(c) => PathEl::CurveTo(c.p1, c.p2, c.p3),
        };
        let one = SimplifyBezPath::new(&[PathEl::MoveTo(seg.start()), el]);
        let (r, t) = (k as f64 / 4.0, (k + 1) as f64 / 4.0);
        let m = all(s.moment_integrals(f(r)..f(t)));
        assert!(all_close(m, all(one.moment_integrals(f(0.0)..f(1.0)))), "{k}");
        let c = seg.to_cubic();
        assert!(all_close(m, all(moment_integrals(translate(c, c.p0)))), "{k}");
    }
}

#[test]
fn stretches_to_the_end() {
    let path = wave();
    let s = SimplifyBezPath::new(path.elements());
    let curves: Vec<CubicBez> =
        segments(path.elements()).into_iter().map(|g| g.to_cubic()).collect();
    for (i, u) in [(0usize, 0.0), (0, 0.5), (2, 0.25), (3, 0.5), (3, 0.0)] {
        let start = curves[i].eval(f(u));
        let piece = |c: CubicBez, t: f64| {
            all(moment_integrals(translate(c.subsegment(f(t), f(1.0)), start)))
        };
        let mut expected = piece(curves[i], u);
        for c in &curves[i + 1..] {
            expected = sum(expected, piece(*c, 0.0));
        }
        let m = all(s.moment_integrals(f((i as f64 + u) / 4.0)..f(1.0)));
        assert!(all_close(m, expected), "{i} {u}: {m:?} {expected:?}");
    }
}

/// What is stored of the moments, as text.
fn stored(s: &SimplifyBezPath) -> Vec<String> {
    format!("{s:?}")
        .split("moments: ")
        .skip(1)
        .map(|part| part.split(") }").next().unwrap().to_string())
        .collect()
}

#[test]
fn exact_moves_change_no_bit() {
    // Coordinates in eighths, moved by whole numbers.
    let build = |dx: f64, dy: f64| {
        let mut path = BezPath::new();
        path.move_to(pt(0.125 + dx, 1.375 + dy));
        path.curve_to(pt(1.5 + dx, 3.25 + dy), pt(2.0 + dx, 0.625 + dy), pt(3.75 + dx, 1.0 + dy));
        path.curve_to(pt(4.5 + dx, 1.25 + dy), pt(6.0 + dx, 2.5 + dy), pt(7.125 + dx, 0.5 + dy));
        SimplifyBezPath::new(path.elements())
    };
    let (here, there) = (stored(&build(0.0, 0.0)), stored(&build(1048576.0, -4194304.0)));
    assert_eq!(here.len(), 2);
    assert_eq!(here, there);
}

#[test]
fn moments_are_close_to_the_exact_ones() {
    // Twenty times the area is a whole number here.
    let c = [(3i64, 7i64), (11, -5), (23, 19), (31, 2)];
    let (x1, y1) = (c[1].0 - c[0].0, c[1].1 - c[0].1);
    let (x2, y2) = (c[2].0 - c[0].0, c[2].1 - c[0].1);
    let (x3, y3) = (c[3].0 - c[0].0, c[3].1 - c[0].1);
    let a = -3 * x1 * y2 - 3 * x1 * y3 + 3 * x2 * y1 + 3 * x3 * y1 - 6 * x2 * y3 + 6 * x3 * y2
        + 10 * x3 * y3;
    let exact = a + 20 * x3 * c[0].1;
    let m = moment_integrals(cubic(c.map(|(x, y)| (x as f64, y as f64))));
    let off = (v(m.0) * 20.0 - exact as f64).abs();
    assert!(off <= 4.0 * f64::EPSILON * exact.abs() as f64, "{off}");
}

#[test]
fn parameters_outside_the_range() {
    let s = SimplifyBezPath::new(wave().elements());
    for t in [0.0, 0.3, 1.0, -3.0, f64::NAN, f64::NEG_INFINITY, 1.2] {
        assert!(s.contains(f(t)), "{t}");
    }
    for t in [1.25 + 1e-9, 2.0, f64::INFINITY] {
        assert!(!s.contains(f(t)), "{t}");
    }
    for (t0, t1) in [(0.0, 1.0), (0.2, 0.2), (0.7, 0.1), (1.0, 1.0), (-1.0, 0.5)] {
        assert!(s.contains_range(&(f(t0)..f(t1))), "{t0} {t1}");
    }
    // Behind the end there is no curve to take a part of.
    for (t0, t1) in [(1.0, 0.5), (0.0, 1.1), (1.0, 1.1), (0.0, 2.0)] {
        assert!(!s.contains_range(&(f(t0)..f(t1))), "{t0} {t1}");
    }
    // An empty path has no points.
    let none = SimplifyBezPath::new(&[]);
    assert!(!none.contains(f(0.0)));
    assert!(!none.contains_range(&(f(0.0)..f(0.0))));
}

#[test]
fn samples_give_point_and_derivative() {
    let s = SimplifyBezPath::new(wave().elements());
    let (p, d) = s.sample_pt_deriv(f(0.625));
    let sample = s.sample_pt_tangent(f(0.625), f(1.0));
    // The line from (5, 1) to (6, 3), at its middle.
    assert!(close(v(p.x), 5.5) && close(v(p.y), 2.0));
    assert_eq!(p, sample.p);
    assert!(close(v(sample.tangent.x), 1.0) && close(v(sample.tangent.y), 2.0));
    // The derivative is by the parameter of the whole path of four curves.
    assert_eq!(v(d.x), 4.0 * v(sample.tangent.x));
    assert_eq!(v(d.y), 4.0 * v(sample.tangent.y));
    // The side does not count, and the end belongs to the last curve.
    let other = s.sample_pt_tangent(f(0.625), f(-1.0));
    assert_eq!(other.tangent.x, sample.tangent.x);
    let end = s.sample_pt_tangent(f(1.0), f(-1.0));
    assert_eq!(end.p, pt(9.0, 2.0));
    assert_eq!((v(end.tangent.x), v(end.tangent.y)), (3.0, 6.0));
    assert!(s.break_cusp(f(0.0)..f(1.0)).is_none());
}

#[test]
fn segments_of_paths() {
    // Closing draws a line back, unless the pen is there.
    let els = vec![
        PathEl::MoveTo(pt(0.0, 0.0)),
        PathEl::LineTo(pt(1.0, 0.0)),
        PathEl::QuadTo(pt(2.0, 0.0), pt(2.0, 1.0)),
        PathEl::ClosePath,
        PathEl::CurveTo(pt(1.0, 1.0), pt(2.0, 2.0), pt(0.0, 0.0)),
        PathEl::ClosePath,
        PathEl::MoveTo(pt(5.0, 5.0)),
    ];
    let segs = segments(&els);
    assert_eq!(segs.len(), 4);
    assert!(matches!(segs[0], PathSeg::Line(l) if l.p0 == pt(0.0, 0.0) && l.p1 == pt(1.0, 0.0)));
    assert!(matches!(segs[1], PathSeg::Quad(q) if q.p0 == pt(1.0, 0.0) && q.p2 == pt(2.0, 1.0)));
    assert!(matches!(segs[2], PathSeg::Line(l) if l.p0 == pt(2.0, 1.0) && l.p1 == pt(0.0, 0.0)));
    assert!(matches!(segs[3], PathSeg::Cubic(c) if c.p0 == pt(0.0, 0.0)));
    // A path that begins without a move begins where its first element ends.
    let segs = segments(&[PathEl::LineTo(pt(3.0, 4.0)), PathEl::LineTo(pt(5.0, 6.0))]);
    assert_eq!(segs.len(), 2);
    assert_eq!(segs[0].start(), pt(3.0, 4.0));
    assert_eq!(segs[0].end(), pt(3.0, 4.0));
    assert_eq!(segs[1].start(), pt(3.0, 4.0));
    assert!(segments(&[]).is_empty());
}

#[test]
fn paths_hold_their_elements() {
    let mut path = BezPath::new();
    assert!(path.is_empty());
    path.move_to(pt(1.0, 2.0));
    path.close_path();
    // A move and a closing draw nothing.
    assert!(path.is_empty());
    path.line_to(pt(3.0, 4.0));
    assert!(!path.is_empty());
    path.truncate(5);
    assert_eq!(path.elements().len(), 3);
    path.truncate(1);
    assert_eq!(path.elements(), &[PathEl::MoveTo(pt(1.0, 2.0))]);
    let more = BezPath::from_vec(vec![PathEl::MoveTo(pt(9.0, 9.0)), PathEl::LineTo(pt(3.0, 4.0))]);
    path.extend_from(more.elements(), false);
    assert_eq!(path.elements(), &[PathEl::MoveTo(pt(1.0, 2.0)), PathEl::LineTo(pt(3.0, 4.0))]);
    path.extend_from(more.elements(), true);
    assert_eq!(path.elements().len(), 4);
    path.extend_from(&[], false);
    assert_eq!(path.elements().len(), 4);
}

#[test]
fn running_sums_stay_exact_far_from_the_origin() {
    // A square wave far away: its moments over the whole are those near the
    // origin.
    let near = [(0.0, 0.0), (8.0, 0.0), (8.0, 8.0), (16.0, 8.0)];
    let build = |dx: f64, dy: f64| {
        let mut path = BezPath::new();
        for (i, (x, y)) in near.iter().enumerate() {
            let p = pt(x + dx, y + dy);
            if i == 0 {
                path.move_to(p);
            } else {
                path.line_to(p);
            }
        }
        SimplifyBezPath::new(path.elements())
    };
    let here = all(build(0.0, 0.0).moment_integrals(f(0.0)..f(1.0)));
    let there = all(build(1048576.0, -524288.0).moment_integrals(f(0.0)..f(1.0)));
    assert!(all_close(here, there), "{here:?} {there:?}");
    assert!(all_close(here, (64.0, 768.0, 512.0)), "{here:?}");
}
