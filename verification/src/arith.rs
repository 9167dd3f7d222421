//! What the geometric formulas need of a number.

use vstd::prelude::*;

verus! {

/// Numbers that a formula can be read over. The formulas of this library are
/// written once, for any such numbers: the executable code evaluates them over
/// `Float`, rounding at every step, and the laws read them over the reals,
/// where nothing is rounded.
pub trait Arith: Sized {
    spec fn plus(self, other: Self) -> Self;

    spec fn minus(self, other: Self) -> Self;

    spec fn times(self, other: Self) -> Self;

    spec fn negated(self) -> Self;

    /// Whether the two are equal as numbers.
    spec fn equals(self, other: Self) -> bool;

    /// The number closest to `n / d`.
    spec fn ratio(n: nat, d: nat) -> Self;

    /// The largest whole number not above this one.
    spec fn floored(self) -> Self;

    /// The whole part as an index, zero for what is negative.
    spec fn whole_part(self) -> nat;
}

/// The number closest to the whole number `n`.
pub open spec fn whole<A: Arith>(n: nat) -> A {
    A::ratio(n, 1)
}

impl Arith for real {
    open spec fn plus(self, other: real) -> real {
        self + other
    }

    open spec fn minus(self, other: real) -> real {
        self - other
    }

    open spec fn times(self, other: real) -> real {
        self * other
    }

    open spec fn negated(self) -> real {
        0real - self
    }

    open spec fn equals(self, other: real) -> bool {
        self == other
    }

    open spec fn ratio(n: nat, d: nat) -> real {
        n as real / d as real
    }

    open spec fn floored(self) -> real {
        self.floor() as real
    }

    open spec fn whole_part(self) -> nat {
        if self < 0real {
            0
        } else {
            self.floor() as nat
        }
    }
}

}
