//! Simplification of Bézier paths.
//!
//! A path is cut at its corners, and each smooth run is handed to a curve
//! fitter in a form that can be sampled, and whose area and moments over any
//! range are known from running sums, without going through its curves.
//!
//! Coordinates are 64-bit binary floating-point numbers, held by their bits and
//! rounded as the format demands: `rounding` and `numbers` say how. Every
//! formula is written once, for any numbers: the code evaluates it with
//! rounding, the laws of `drawing`, `integrals`, `subdivision`, `definite`,
//! `stretches` and `ranges` say what it is without, and those of `bounded` and
//! `nearness` how far the two lie apart. Those of `corners` and `turning` say
//! where a path is cut, and those of `runs` and `results` what becomes of the
//! pieces.

pub mod arith;
pub mod bounded;
pub mod corners;
pub mod curve;
pub mod definite;
pub mod drawing;
pub mod float;
pub mod geom;
pub mod integrals;
pub mod moments;
pub mod nearness;
pub mod numbers;
pub mod parameter;
pub mod path;
pub mod polynomial;
pub mod precision;
pub mod ranges;
pub mod results;
pub mod rounding;
pub mod runs;
pub mod simplify;
pub mod stretches;
pub mod subdivision;
pub mod turning;
