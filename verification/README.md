# bezpath_simplify

Simplification of Bézier paths, verified with Verus.

A path is cut into runs of segments that join smoothly. A run of one segment is
passed through; a longer one is prepared for curve fitting and handed to a
fitter, which the caller supplies. A prepared path can be sampled at any
parameter. Its area and its moments over any range come from running sums of
moment integrals, so that no call goes through the curves of the path.

## Numbers

Coordinates are 64-bit binary floating-point numbers, held by their bits
(`Float`). Sums, products and comparisons are computed on whole numbers and
proved to round as the format demands, to nearest with ties to even. The
geometric formulas are generic spec functions: the executable code is proved to
evaluate them over `Float`, rounding at every step, and the laws read the same
formulas over the reals.

## Layout

* `src/rounding.rs`, `src/float.rs`: rounding and floating-point numbers.
* `src/arith.rs`, `src/geom.rs`, `src/path.rs`: numbers, points, curves, paths.
* `src/moments.rs`: the moment integrals of a cubic curve.
* `src/curve.rs`: a path prepared for fitting.
* `src/simplify.rs`: options and the simplifier.
* `src/runs.rs`, `src/corners.rs`, `src/results.rs`: laws of the pieces into
  which a path is cut, of its corners, and of what is put out.
* `src/parameter.rs`: laws of the parameter of a prepared path.
* `src/polynomial.rs`, `src/integrals.rs`, `src/subdivision.rs`,
  `src/definite.rs`, `src/stretches.rs`, `src/ranges.rs`: laws of the formulas
  where nothing is rounded.
* `src/bounded.rs`, `src/nearness.rs`, `src/precision.rs`: laws of how far rounded
  moments lie from the exact ones.
* `app/`: the same functions on the machine's `f64`.
* `tests/`: tests, among them comparisons with the machine's arithmetic.
