//! Binary floating-point numbers of 64 bits, held by their bits.

use crate::arith::Arith;
use crate::rounding::{
    lemma_absorb, lemma_expand, lemma_round_exact, lemma_round_expand, lemma_round_quotient,
    lemma_round_scaled, lemma_round_zero, lemma_units_increase, lemma_units_parts, round_bits,
    round_scaled, units, HIDDEN, INFINITE,
};
use vstd::arithmetic::div_mod::{lemma_fundamental_div_mod, lemma_fundamental_div_mod_converse};
use vstd::arithmetic::mul::{lemma_mul_inequality, lemma_mul_strict_inequality};
use vstd::arithmetic::power2::{
    lemma2_to64, lemma2_to64_rest, lemma_pow2_adds, lemma_pow2_pos, lemma_pow2_strictly_increases,
    pow2,
};
use vstd::prelude::*;

verus! {

/// The sign bit.
pub const SIGN: u64 = 0x8000_0000_0000_0000;

/// The bits of the number that an undefined operation gives.
pub const NOT_A_NUMBER: u64 = 0x7ff8_0000_0000_0000;

/// A number in the 64-bit binary interchange format. Every bit pattern is a
/// value: a finite number, one of two infinities, or "not a number".
#[derive(Clone, Copy, Debug)]
pub struct Float {
    pub bits: u64,
}

/// The number with the given sign and magnitude bits.
pub open spec fn signed(negative: bool, magnitude: nat) -> Float {
    Float {
        bits: (if negative {
            SIGN as nat + magnitude
        } else {
            magnitude
        }) as u64,
    }
}

impl Float {
    pub open spec fn negative(self) -> bool {
        self.bits >= SIGN
    }

    /// The bits without the sign.
    pub open spec fn magnitude(self) -> nat {
        (if self.bits >= SIGN {
            self.bits - SIGN
        } else {
            self.bits as int
        }) as nat
    }

    pub open spec fn nan(self) -> bool {
        self.magnitude() > INFINITE
    }

    pub open spec fn infinite(self) -> bool {
        self.magnitude() == INFINITE
    }

    /// The exact value, in units of two to the -1074.
    pub open spec fn value(self) -> int {
        if self.negative() {
            -(units(self.magnitude()) as int)
        } else {
            units(self.magnitude()) as int
        }
    }

    /// The sum, rounded.
    #[verifier::opaque]
    pub open spec fn sum(self, other: Float) -> Float {
        let exact: int = self.value() + other.value();
        if self.nan() || other.nan() {
            Float { bits: NOT_A_NUMBER }
        } else if self.infinite() {
            if other.infinite() && self.negative() != other.negative() {
                Float { bits: NOT_A_NUMBER }
            } else {
                self
            }
        } else if other.infinite() {
            other
        } else if exact == 0 {
            signed(self.negative() && other.negative(), 0)
        } else if exact < 0 {
            signed(true, round_bits((-exact) as nat, 1))
        } else {
            signed(false, round_bits(exact as nat, 1))
        }
    }

    /// The product, rounded.
    #[verifier::opaque]
    pub open spec fn product(self, other: Float) -> Float {
        let negative: bool = self.negative() != other.negative();
        if self.nan() || other.nan() {
            Float { bits: NOT_A_NUMBER }
        } else if self.infinite() || other.infinite() {
            if self.magnitude() == 0 || other.magnitude() == 0 {
                Float { bits: NOT_A_NUMBER }
            } else {
                signed(negative, INFINITE as nat)
            }
        } else {
            signed(
                negative,
                round_bits(units(self.magnitude()) * units(other.magnitude()), pow2(1074)),
            )
        }
    }

    /// The same number with the other sign.
    #[verifier::opaque]
    pub open spec fn opposite(self) -> Float {
        signed(!self.negative(), self.magnitude())
    }

    /// Whether both are numbers, and the first is not above the second.
    pub open spec fn le(self, other: Float) -> bool {
        !self.nan() && !other.nan() && self.value() <= other.value()
    }

    /// Whether both are numbers, and the first is above the second.
    pub open spec fn gt(self, other: Float) -> bool {
        !self.nan() && !other.nan() && self.value() > other.value()
    }

    /// Whether both are numbers, and equal: the two zeros are.
    pub open spec fn same(self, other: Float) -> bool {
        !self.nan() && !other.nan() && self.value() == other.value()
    }

    /// The magnitude with a positive sign.
    #[verifier::opaque]
    pub open spec fn absolute(self) -> Float {
        signed(false, self.magnitude())
    }

    /// The largest whole number not above this one. A number that is infinite
    /// or not a number is its own floor; a zero keeps its sign.
    #[verifier::opaque]
    pub open spec fn rounded_down(self) -> Float {
        if self.nan() || self.infinite() {
            self
        } else {
            let below: int = self.value() / (pow2(1074) as int);
            let size: int = if below < 0 { -below } else { below };
            signed(self.negative(), round_bits((size * pow2(1074)) as nat, 1))
        }
    }

    /// The whole part as an index: negative numbers, and what is not a number,
    /// give zero; what is too large gives the largest index.
    #[verifier::opaque]
    pub open spec fn index(self) -> nat {
        if self.nan() || self.negative() {
            0
        } else if units(self.magnitude()) / pow2(1074) < usize::MAX {
            units(self.magnitude()) / pow2(1074)
        } else {
            usize::MAX as nat
        }
    }
}

/// The number closest to `n / d`.
#[verifier::opaque]
pub open spec fn closest(n: nat, d: nat) -> Float {
    signed(false, round_bits(n * pow2(1074), d))
}

impl Arith for Float {
    open spec fn plus(self, other: Float) -> Float {
        self.sum(other)
    }

    open spec fn minus(self, other: Float) -> Float {
        self.sum(other.opposite())
    }

    open spec fn times(self, other: Float) -> Float {
        self.product(other)
    }

    open spec fn negated(self) -> Float {
        self.opposite()
    }

    open spec fn equals(self, other: Float) -> bool {
        self.same(other)
    }

    open spec fn ratio(n: nat, d: nat) -> Float {
        closest(n, d)
    }

    open spec fn floored(self) -> Float {
        self.rounded_down()
    }

    open spec fn whole_part(self) -> nat {
        self.index()
    }
}

/// Two to the `s`.
fn power(s: u32) -> (p: u128)
    requires
        s < 128,
    ensures
        p == pow2(s as nat),
{
    let mut p: u128 = 1;
    let mut i: u32 = 0;
    proof {
        lemma2_to64();
    }
    while i < s
        invariant
            i <= s < 128,
            p == pow2(i as nat),
        decreases s - i,
    {
        proof {
            lemma2_to64();
            lemma2_to64_rest();
            lemma_pow2_adds(1, i as nat);
            lemma_pow2_adds(64, 63);
            if i < 126 {
                lemma_pow2_strictly_increases((i + 1) as nat, 127);
            }
        }
        p = p * 2;
        i = i + 1;
    }
    p
}

/// The number of binary digits.
fn length(m: u128) -> (len: u32)
    requires
        m > 0,
    ensures
        0 < len <= 128,
        pow2((len - 1) as nat) <= m < pow2(len as nat),
{
    let mut rest: u128 = m;
    let mut len: u32 = 0;
    proof {
        lemma2_to64();
    }
    while rest > 0
        invariant
            rest * pow2(len as nat) <= m < (rest + 1) * pow2(len as nat),
            len > 0 ==> pow2((len - 1) as nat) <= m,
            rest == 0 ==> len > 0,
            len <= 128,
        decreases rest,
    {
        let ghost p = pow2(len as nat);
        let ghost old_rest = rest;
        proof {
            lemma2_to64();
            lemma2_to64_rest();
            lemma_pow2_adds(1, len as nat);
            lemma_pow2_adds(64, 64);
            assert(p <= m) by (nonlinear_arith)
                requires
                    rest >= 1,
                    rest * p <= m,
            ;
            if len == 128 {
                assert(false);
            }
        }
        rest = rest / 2;
        len = len + 1;
        proof {
            assert(rest * (2 * p) <= m) by (nonlinear_arith)
                requires
                    2 * rest <= old_rest,
                    old_rest * p <= m,
            ;
            assert(m < (rest + 1) * (2 * p)) by (nonlinear_arith)
                requires
                    old_rest + 1 <= 2 * (rest + 1),
                    m < (old_rest + 1) * p,
            ;
        }
    }
    assert((rest + 1) * pow2(len as nat) == pow2(len as nat)) by (nonlinear_arith)
        requires
            rest == 0,
    ;
    len
}

/// `m` times two to the `e` units, rounded to magnitude bits.
fn round_magnitude(m: u128, e: i32) -> (bits: u64)
    requires
        m < 0x4000_0000_0000_0000_0000_0000_0000_0000,
        -1100 <= e <= 3100,
    ensures
        bits == round_scaled(m as nat, e as int),
        bits <= INFINITE,
{
    if m == 0 {
        proof {
            if e < 0 {
                lemma_pow2_pos((-e) as nat);
                lemma_round_zero(pow2((-e) as nat));
            } else {
                lemma_round_zero(1);
                assert(0 * pow2(e as nat) == 0);
            }
        }
        return 0;
    }
    let len: i32 = length(m) as i32;
    let k: i32 = if len + e > 53 {
        len + e - 53
    } else {
        0
    };
    let s: i32 = k - e;
    proof {
        lemma2_to64();
        lemma2_to64_rest();
        lemma_pow2_adds(64, 62);
        if len > 127 {
            lemma_pow2_strictly_increases(126, (len - 1) as nat);
        }
        lemma_round_scaled(m as nat, e as int, len as nat, k as nat);
    }
    let q: u128;
    if s <= 0 {
        proof {
            lemma_pow2_adds(len as nat, (-s) as nat);
            lemma_pow2_pos((-s) as nat);
            lemma_mul_strict_inequality(m as int, pow2(len as nat) as int, pow2((-s) as nat) as int);
            if len - s < 53 {
                lemma_pow2_strictly_increases((len - s) as nat, 53);
            }
        }
        q = m * power((-s) as u32);
    } else if s >= 128 {
        proof {
            lemma_pow2_adds(64, 64);
            if s > 128 {
                lemma_pow2_strictly_increases(128, s as nat);
            }
            lemma_fundamental_div_mod_converse(m as int, pow2(s as nat) as int, 0, m as int);
        }
        q = 0;
    } else {
        let p: u128 = power(s as u32);
        proof {
            lemma_pow2_pos(s as nat);
            lemma_pow2_adds(64, 63);
            if s < 127 {
                lemma_pow2_strictly_increases(s as nat, 127);
            }
        }
        let quotient: u128 = m / p;
        let rest: u128 = m % p;
        proof {
            lemma_pow2_adds(53, s as nat);
            lemma_fundamental_div_mod(m as int, p as int);
            if len < 53 + s {
                lemma_pow2_strictly_increases(len as nat, (53 + s) as nat);
            }
            assert(quotient < pow2(53)) by (nonlinear_arith)
                requires
                    m < pow2(53) * p,
                    m == p * quotient + rest,
                    rest >= 0,
                    p > 0,
            ;
        }
        if 2 * rest < p || (2 * rest == p && quotient % 2 == 0) {
            q = quotient;
        } else {
            q = quotient + 1;
        }
    }
    let bits: u64 = (k as u64) * HIDDEN + (q as u64);
    if bits < INFINITE {
        bits
    } else {
        INFINITE
    }
}

/// Magnitude bits below infinity as a significand and a power of two.
fn parts(bits: u64) -> (r: (u64, u32))
    requires
        bits < INFINITE,
    ensures
        units(bits as nat) == r.0 as nat * pow2(r.1 as nat),
        r.0 < 2 * HIDDEN,
        r.1 < 2046,
        r.1 == (if bits < HIDDEN { 0 } else { bits / HIDDEN - 1 }),
        bits >= HIDDEN ==> r.0 >= HIDDEN && bits == r.1 * HIDDEN + r.0,
{
    proof {
        lemma_units_parts(bits as nat);
        lemma2_to64();
        assert(bits as nat * pow2(0) == bits) by (nonlinear_arith)
            requires
                pow2(0) == 1,
        ;
    }
    if bits < HIDDEN {
        (bits, 0)
    } else {
        ((bits % HIDDEN) + HIDDEN, ((bits / HIDDEN) - 1) as u32)
    }
}

impl Float {
    fn is_negative(self) -> (r: bool)
        ensures
            r == self.negative(),
    {
        self.bits >= SIGN
    }

    fn magnitude_bits(self) -> (r: u64)
        ensures
            r == self.magnitude(),
            r < SIGN,
    {
        if self.bits >= SIGN {
            self.bits - SIGN
        } else {
            self.bits
        }
    }

    fn from_parts(negative: bool, magnitude: u64) -> (r: Float)
        requires
            magnitude < SIGN,
        ensures
            r == signed(negative, magnitude as nat),
    {
        if negative {
            Float { bits: SIGN + magnitude }
        } else {
            Float { bits: magnitude }
        }
    }
}

/// The sum of two finite magnitudes with signs.
fn sum_finite(a: Float, b: Float) -> (r: Float)
    requires
        a.magnitude() < INFINITE,
        b.magnitude() < INFINITE,
        a.magnitude() / HIDDEN as nat >= b.magnitude() / HIDDEN as nat,
    ensures
        r == a.sum(b),
{
    let (ma, ea) = parts(a.magnitude_bits());
    let (mb, eb) = parts(b.magnitude_bits());
    let ghost ua = units(a.magnitude());
    let ghost ub = units(b.magnitude());
    assert(ea >= eb);
    let shift: u32 = ea - eb;
    proof {
        reveal(Float::sum);
        lemma2_to64();
        lemma2_to64_rest();
        lemma_pow2_pos(ea as nat);
        lemma_pow2_pos(eb as nat);
    }
    if shift > 64 {
        proof {
            lemma_pow2_adds(55, eb as nat);
            if eb + 55 < ea {
                lemma_pow2_strictly_increases((eb + 55) as nat, ea as nat);
            }
            assert(4 * ub < pow2(ea as nat)) by (nonlinear_arith)
                requires
                    ub == mb as nat * pow2(eb as nat),
                    4 * mb < pow2(55),
                    pow2(55) * pow2(eb as nat) <= pow2(ea as nat),
                    pow2(eb as nat) > 0,
            ;
            lemma_absorb(ea as nat, ma as nat, ub);
            assert(HIDDEN as nat * pow2(ea as nat) >= pow2(ea as nat)) by (nonlinear_arith);
            lemma_mul_inequality(HIDDEN as int, ma as int, pow2(ea as nat) as int);
        }
        return a;
    }
    proof {
        lemma_pow2_adds(shift as nat, eb as nat);
        lemma_pow2_pos(shift as nat);
        if shift < 64 {
            lemma_pow2_strictly_increases(shift as nat, 64);
        }
        assert(ma as nat * pow2(shift as nat) < 2 * HIDDEN as nat * pow2(64)) by (nonlinear_arith)
            requires
                ma < 2 * HIDDEN,
                0 < pow2(shift as nat) <= pow2(64),
        ;
    }
    let big: u128 = (ma as u128) * power(shift);
    let small: u128 = mb as u128;
    let ghost p = pow2(eb as nat);
    proof {
        assert(ua == big as nat * p) by (nonlinear_arith)
            requires
                ua == ma as nat * (pow2(shift as nat) * p),
                big == ma as nat * pow2(shift as nat),
        ;
        assert((big + small) as nat * p == ua + ub) by (nonlinear_arith)
            requires
                ua == big as nat * p,
                ub == small as nat * p,
        ;
        assert((big - small) * p == ua - ub) by (nonlinear_arith)
            requires
                ua == big as nat * p,
                ub == small as nat * p,
        ;
        assert((small - big) * p == ub - ua) by (nonlinear_arith)
            requires
                ua == big as nat * p,
                ub == small as nat * p,
        ;
    }
    if a.is_negative() == b.is_negative() {
        let bits: u64 = round_magnitude(big + small, eb as i32);
        proof {
            if ua + ub == 0 {
                assert(big + small == 0) by (nonlinear_arith)
                    requires
                        (big + small) as nat * p == 0,
                        p > 0,
                ;
                lemma_round_zero(1);
            }
        }
        Float::from_parts(a.is_negative(), bits)
    } else if big == small {
        Float::from_parts(false, 0)
    } else if big > small {
        proof {
            assert(ua > ub) by (nonlinear_arith)
                requires
                    (big - small) * p == ua - ub,
                    big > small,
                    p > 0,
            ;
        }
        let bits: u64 = round_magnitude(big - small, eb as i32);
        Float::from_parts(a.is_negative(), bits)
    } else {
        proof {
            assert(ub > ua) by (nonlinear_arith)
                requires
                    (small - big) * p == ub - ua,
                    small > big,
                    p > 0,
            ;
        }
        let bits: u64 = round_magnitude(small - big, eb as i32);
        Float::from_parts(b.is_negative(), bits)
    }
}

impl Float {
    /// Adds, rounding.
    fn add_to(self, other: Float) -> (r: Float)
        ensures
            r == self.sum(other),
    {
        let a: u64 = self.magnitude_bits();
        let b: u64 = other.magnitude_bits();
        proof {
            reveal(Float::sum);
        }
        if a > INFINITE || b > INFINITE {
            Float { bits: NOT_A_NUMBER }
        } else if a == INFINITE {
            if b == INFINITE && self.is_negative() != other.is_negative() {
                Float { bits: NOT_A_NUMBER }
            } else {
                self
            }
        } else if b == INFINITE {
            other
        } else if a / HIDDEN >= b / HIDDEN {
            sum_finite(self, other)
        } else {
            sum_finite(other, self)
        }
    }

    /// Multiplies, rounding.
    fn multiply_by(self, other: Float) -> (r: Float)
        ensures
            r == self.product(other),
    {
        let a: u64 = self.magnitude_bits();
        let b: u64 = other.magnitude_bits();
        let negative: bool = self.is_negative() != other.is_negative();
        proof {
            reveal(Float::product);
        }
        if a > INFINITE || b > INFINITE {
            return Float { bits: NOT_A_NUMBER };
        }
        if a == INFINITE || b == INFINITE {
            if a == 0 || b == 0 {
                return Float { bits: NOT_A_NUMBER };
            }
            return Float::from_parts(negative, INFINITE);
        }
        let (ma, ea) = parts(a);
        let (mb, eb) = parts(b);
        proof {
            assert(ma * mb < 0x400_0000_0000_0000_0000_0000_0000) by (nonlinear_arith)
                requires
                    ma < 0x20_0000_0000_0000,
                    mb < 0x20_0000_0000_0000,
            ;
        }
        let m: u128 = (ma as u128) * (mb as u128);
        let e: i32 = (ea as i32) + (eb as i32);
        proof {
            let pa = pow2(ea as nat);
            let pb = pow2(eb as nat);
            lemma_pow2_adds(ea as nat, eb as nat);
            assert((ma as nat * pa) * (mb as nat * pb) == m as nat * (pa * pb)) by (nonlinear_arith)
                requires
                    m == ma as nat * mb as nat,
            ;
            lemma_pow2_pos(1074);
            lemma_pow2_pos(e as nat);
            if e >= 1074 {
                let f: nat = (e - 1074) as nat;
                lemma_pow2_adds(f, 1074);
                assert(m as nat * pow2(e as nat) == (m as nat * pow2(f)) * pow2(1074))
                    by (nonlinear_arith)
                    requires
                        pow2(e as nat) == pow2(f) * pow2(1074),
                ;
                lemma_round_expand(m as nat * pow2(f), 1, pow2(1074));
            } else {
                let f: nat = (1074 - e) as nat;
                lemma_pow2_adds(f, e as nat);
                lemma_pow2_pos(f);
                lemma_round_expand(m as nat, pow2(f), pow2(e as nat));
            }
        }
        let bits: u64 = round_magnitude(m, e - 1074);
        Float::from_parts(negative, bits)
    }

    /// The number with the other sign.
    pub fn flip(self) -> (r: Float)
        ensures
            r == self.opposite(),
    {
        proof {
            reveal(Float::opposite);
        }
        Float::from_parts(!self.is_negative(), self.magnitude_bits())
    }
}

/// How the exact values of two numbers compare, by their bits.
proof fn lemma_compare(a: Float, b: Float)
    requires
        !a.nan(),
        !b.nan(),
    ensures
        !a.negative() && !b.negative() ==> (a.value() <= b.value() <==> a.magnitude()
            <= b.magnitude()),
        a.negative() && b.negative() ==> (a.value() <= b.value() <==> b.magnitude()
            <= a.magnitude()),
        a.negative() && !b.negative() ==> a.value() <= b.value(),
        !a.negative() && b.negative() ==> (a.value() <= b.value() <==> a.magnitude() == 0
            && b.magnitude() == 0),
{
    let x: nat = a.magnitude();
    let y: nat = b.magnitude();
    lemma_units_parts(0);
    if x < y {
        lemma_units_increase(x, y);
    }
    if y < x {
        lemma_units_increase(y, x);
    }
    if x > 0 {
        lemma_units_increase(0, x);
    }
    if y > 0 {
        lemma_units_increase(0, y);
    }
}

impl Float {
    /// `self <= other`.
    pub fn at_most(self, other: Float) -> (r: bool)
        ensures
            r == self.le(other),
    {
        let a: u64 = self.magnitude_bits();
        let b: u64 = other.magnitude_bits();
        if a > INFINITE || b > INFINITE {
            return false;
        }
        proof {
            lemma_compare(self, other);
        }
        if self.is_negative() {
            !other.is_negative() || b <= a
        } else if other.is_negative() {
            a == 0 && b == 0
        } else {
            a <= b
        }
    }

    /// `self > other`.
    pub fn exceeds(self, other: Float) -> (r: bool)
        ensures
            r == self.gt(other),
    {
        let a: u64 = self.magnitude_bits();
        let b: u64 = other.magnitude_bits();
        a <= INFINITE && b <= INFINITE && !self.at_most(other)
    }

    /// The absolute value.
    pub fn abs(self) -> (r: Float)
        ensures
            r == self.absolute(),
    {
        proof {
            reveal(Float::absolute);
        }
        Float::from_parts(false, self.magnitude_bits())
    }

    /// The number closest to a whole number.
    pub fn whole(n: u64) -> (r: Float)
        ensures
            r == closest(n as nat, 1),
    {
        proof {
            reveal(closest);
        }
        let bits: u64 = round_magnitude(n as u128, 1074);
        Float::from_parts(false, bits)
    }

    /// The number closest to `n / d`.
    pub fn quotient(n: u16, d: u64) -> (r: Float)
        requires
            n > 0,
            0 < d <= 0x100_0000_0000,
        ensures
            r == closest(n as nat, d as nat),
    {
        proof {
            reveal(closest);
            lemma2_to64();
            lemma2_to64_rest();
            lemma_pow2_adds(64, 31);
            assert(pow2(95) == 0x8000_0000_0000_0000_0000_0000);
            assert(n * 0x8000_0000_0000_0000_0000_0000 < 0x8000_0000_0000_0000_0000_0000_0000);
        }
        let top: u128 = (n as u128) * 0x8000_0000_0000_0000_0000_0000u128;
        let m: u128 = top / (d as u128);
        let rest: u128 = top % (d as u128);
        let ghost p = pow2(979);
        proof {
            lemma_pow2_adds(95, 979);
            lemma_pow2_pos(979);
            lemma_fundamental_div_mod(top as int, d as int);
            assert(n as nat * pow2(1074) == top as nat * p) by (nonlinear_arith)
                requires
                    top == n as nat * pow2(95),
                    pow2(1074) == pow2(95) * p,
            ;
            assert(m * d + rest == top) by (nonlinear_arith)
                requires
                    top == d * m + rest,
            ;
        }
        if rest == 0 {
            proof {
                assert(top as nat * p == (m as nat * p) * d as nat) by (nonlinear_arith)
                    requires
                        top == m * d,
                ;
                lemma_round_expand(m as nat * p, 1, d as nat);
                assert(1 * d as nat == d);
            }
            assert(m <= top) by (nonlinear_arith)
                requires
                    m * d == top,
                    d >= 1,
            ;
            let bits: u64 = round_magnitude(m, 979);
            Float::from_parts(false, bits)
        } else {
            proof {
                assert(m >= pow2(55)) by (nonlinear_arith)
                    requires
                        m * d + rest == top,
                        rest < d,
                        d <= 0x100_0000_0000,
                        top >= 0x8000_0000_0000_0000_0000_0000,
                        pow2(55) == 0x80_0000_0000_0000,
                ;
                assert(m <= top / 2) by (nonlinear_arith)
                    requires
                        m * d + rest == top,
                        d >= 2,
                        rest >= 0,
                ;
            }
            let ghost len = choose|len: nat| #![trigger pow2(len)]
                len > 0 && pow2((len - 1) as nat) <= m < pow2(len);
            proof {
                lemma_has_length(m as nat);
                if len < 56 {
                    if len < 55 {
                        lemma_pow2_strictly_increases(len, 55);
                    }
                    assert(false);
                }
                lemma_round_quotient(m as nat, d as nat, rest as nat, 978, len);
            }
            let bits: u64 = round_magnitude(2 * m + 1, 978);
            Float::from_parts(false, bits)
        }
    }
}

/// Every positive number has a number of binary digits.
pub proof fn lemma_has_length(m: nat)
    requires
        m > 0,
    ensures
        exists|len: nat| #![trigger pow2(len)]
            len > 0 && pow2((len - 1) as nat) <= m < pow2(len),
    decreases m,
{
    lemma2_to64();
    if m == 1 {
        assert(pow2(0) <= m < pow2(1));
    } else {
        lemma_has_length(m / 2);
        let len = choose|len: nat| #![trigger pow2(len)]
            len > 0 && pow2((len - 1) as nat) <= m / 2 < pow2(len);
        lemma_pow2_adds(1, (len - 1) as nat);
        lemma_pow2_adds(1, len);
        assert(pow2((len + 1 - 1) as nat) <= m < pow2(len + 1));
    }
}

/// A significand with bits below the point: its whole part and what is left.
proof fn lemma_split_at_point(bits: nat, sig: nat, k: nat, shift: nat)
    requires
        units(bits) == sig * pow2(k),
        k + shift == 1074,
    ensures
        units(bits) / pow2(1074) == sig / pow2(shift),
        units(bits) % pow2(1074) == (sig % pow2(shift)) * pow2(k),
        (sig % pow2(shift) == 0) == (units(bits) % pow2(1074) == 0),
{
    lemma_pow2_adds(shift, k);
    lemma_pow2_pos(shift);
    lemma_pow2_pos(k);
    lemma_expand(sig, pow2(shift), pow2(k));
    let r: nat = sig % pow2(shift);
    assert(r * pow2(k) == 0 <==> r == 0) by (nonlinear_arith)
        requires
            pow2(k) > 0,
    ;
}

/// Without bits below the point, the magnitude is a whole number.
pub(crate) proof fn lemma_whole_magnitude(bits: nat, sig: nat, k: nat)
    requires
        units(bits) == sig * pow2(k),
        k >= 1074,
    ensures
        units(bits) / pow2(1074) == sig * pow2((k - 1074) as nat),
        units(bits) % pow2(1074) == 0,
{
    let w: nat = sig * pow2((k - 1074) as nat);
    lemma_pow2_adds((k - 1074) as nat, 1074);
    lemma_pow2_pos(1074);
    assert(sig * pow2(k) == w * pow2(1074)) by (nonlinear_arith)
        requires
            pow2(k) == pow2((k - 1074) as nat) * pow2(1074),
            w == sig * pow2((k - 1074) as nat),
    ;
    lemma_fundamental_div_mod_converse(units(bits) as int, pow2(1074) as int, w as int, 0);
}

/// The floor of a number in terms of the whole part of its magnitude.
pub(crate) proof fn lemma_floor(x: Float)
    ensures
        ({
            let w: nat = units(x.magnitude()) / pow2(1074);
            let r: nat = units(x.magnitude()) % pow2(1074);
            &&& !x.negative() ==> x.value() / (pow2(1074) as int) == w
            &&& x.negative() && r == 0 ==> x.value() / (pow2(1074) as int) == -(w as int)
            &&& x.negative() && r > 0 ==> x.value() / (pow2(1074) as int) == -(w + 1)
        }),
{
    let d: int = pow2(1074) as int;
    let u: int = units(x.magnitude()) as int;
    lemma_pow2_pos(1074);
    lemma_fundamental_div_mod(u, d);
    let w: int = u / d;
    let r: int = u % d;
    if x.negative() {
        if r == 0 {
            assert(-u == (-w) * d + 0) by (nonlinear_arith)
                requires
                    u == d * w + r,
                    r == 0,
            ;
            lemma_fundamental_div_mod_converse(-u, d, -w, 0);
        } else {
            assert(-u == (-(w + 1)) * d + (d - r)) by (nonlinear_arith)
                requires
                    u == d * w + r,
            ;
            lemma_fundamental_div_mod_converse(-u, d, -(w + 1), d - r);
        }
    }
}

impl Float {
    /// The largest whole number not above this one.
    pub fn floor(self) -> (r: Float)
        ensures
            r == self.rounded_down(),
    {
        let a: u64 = self.magnitude_bits();
        proof {
            reveal(Float::rounded_down);
        }
        if a >= INFINITE {
            return self;
        }
        proof {
            lemma_floor(self);
            lemma2_to64();
            lemma2_to64_rest();
            lemma_pow2_pos(1074);
        }
        let (sig, k) = parts(a);
        if k >= 1074 {
            proof {
                lemma_whole_magnitude(a as nat, sig as nat, k as nat);
                lemma_fundamental_div_mod(units(a as nat) as int, pow2(1074) as int);
                let w: nat = units(a as nat) / pow2(1074);
                assert(w * pow2(1074) == pow2(1074) * w) by (nonlinear_arith);
                lemma_round_exact(a as nat);
            }
            return self;
        }
        let negative: bool = self.is_negative();
        let shift: u32 = 1074 - k;
        let whole: u64;
        let exact: bool;
        if shift > 52 {
            proof {
                lemma_pow2_adds(53, k as nat);
                if k + 53 < 1074 {
                    lemma_pow2_strictly_increases((k + 53) as nat, 1074);
                }
                lemma_pow2_pos(k as nat);
                lemma_mul_strict_inequality(sig as int, pow2(53) as int, pow2(k as nat) as int);
                lemma_fundamental_div_mod_converse(
                    units(a as nat) as int,
                    pow2(1074) as int,
                    0,
                    units(a as nat) as int,
                );
                lemma_units_parts(0);
                if a > 0 {
                    lemma_units_increase(0, a as nat);
                }
            }
            whole = 0;
            exact = a == 0;
        } else {
            proof {
                lemma_split_at_point(a as nat, sig as nat, k as nat, shift as nat);
                lemma_pow2_strictly_increases(shift as nat, 53);
                lemma_pow2_pos(shift as nat);
            }
            let p: u128 = power(shift);
            proof {
                lemma_fundamental_div_mod(sig as int, p as int);
                assert(sig / (p as u64) <= sig) by (nonlinear_arith)
                    requires
                        p as u64 >= 1,
                ;
            }
            whole = sig / (p as u64);
            exact = sig % (p as u64) == 0;
        }
        let size: u64 = if negative && !exact {
            whole + 1
        } else {
            whole
        };
        let bits: u64 = round_magnitude(size as u128, 1074);
        Float::from_parts(negative, bits)
    }

    /// The whole part as an index, held within the range of an index.
    pub fn to_index(self) -> (r: usize)
        ensures
            r == self.index(),
    {
        let a: u64 = self.magnitude_bits();
        proof {
            reveal(Float::index);
        }
        if a > INFINITE || self.is_negative() {
            return 0;
        }
        proof {
            lemma2_to64();
            lemma2_to64_rest();
            lemma_pow2_pos(1074);
        }
        if a / HIDDEN >= 1088 {
            proof {
                let k: nat = (a as nat / HIDDEN as nat - 1) as nat;
                let sig: nat = a as nat % HIDDEN as nat + HIDDEN as nat;
                let p: nat = pow2((k - 1074) as nat);
                lemma_units_parts(a as nat);
                lemma_whole_magnitude(a as nat, sig, k);
                if k > 1087 {
                    lemma_pow2_strictly_increases(13, (k - 1074) as nat);
                }
                assert(sig * p >= 0x1_0000_0000_0000_0000) by (nonlinear_arith)
                    requires
                        sig >= 0x10_0000_0000_0000,
                        p >= 8192,
                ;
            }
            return usize::MAX;
        }
        let (sig, k) = parts(a);
        let whole: u128;
        if k >= 1074 {
            proof {
                lemma_whole_magnitude(a as nat, sig as nat, k as nat);
                let p: nat = pow2((k - 1074) as nat);
                if k < 1087 {
                    lemma_pow2_strictly_increases((k - 1074) as nat, 13);
                }
                assert(sig as nat * p <= 0x20_0000_0000_0000 * 8192) by (nonlinear_arith)
                    requires
                        sig < 0x20_0000_0000_0000,
                        p <= 8192,
                ;
            }
            whole = (sig as u128) * power(k - 1074);
        } else if k < 1022 {
            proof {
                lemma_pow2_adds(53, k as nat);
                if k + 53 < 1074 {
                    lemma_pow2_strictly_increases((k + 53) as nat, 1074);
                }
                lemma_pow2_pos(k as nat);
                lemma_mul_strict_inequality(sig as int, pow2(53) as int, pow2(k as nat) as int);
                lemma_fundamental_div_mod_converse(
                    units(a as nat) as int,
                    pow2(1074) as int,
                    0,
                    units(a as nat) as int,
                );
            }
            whole = 0;
        } else {
            proof {
                lemma_split_at_point(a as nat, sig as nat, k as nat, (1074 - k) as nat);
                lemma_pow2_pos((1074 - k) as nat);
            }
            whole = (sig as u128) / power(1074 - k);
        }
        if whole < usize::MAX as u128 {
            whole as usize
        } else {
            usize::MAX
        }
    }
}

impl PartialEq for Float {
    fn eq(&self, other: &Float) -> (r: bool) {
        let a: u64 = self.magnitude_bits();
        let b: u64 = other.magnitude_bits();
        proof {
            if !self.nan() && !other.nan() {
                lemma_compare(*self, *other);
                lemma_compare(*other, *self);
            }
        }
        a <= INFINITE && a == b && (self.is_negative() == other.is_negative() || a == 0)
    }
}

impl vstd::std_specs::cmp::PartialEqSpecImpl for Float {
    open spec fn obeys_eq_spec() -> bool {
        true
    }

    open spec fn eq_spec(&self, other: &Float) -> bool {
        self.same(*other)
    }
}

impl core::ops::Add for Float {
    type Output = Float;

    fn add(self, other: Float) -> (r: Float) {
        self.add_to(other)
    }
}

impl vstd::std_specs::ops::AddSpecImpl for Float {
    open spec fn obeys_add_spec() -> bool {
        true
    }

    open spec fn add_req(self, other: Float) -> bool {
        true
    }

    open spec fn add_spec(self, other: Float) -> Float {
        self.plus(other)
    }
}

impl core::ops::Sub for Float {
    type Output = Float;

    fn sub(self, other: Float) -> (r: Float) {
        self.add_to(other.flip())
    }
}

impl vstd::std_specs::ops::SubSpecImpl for Float {
    open spec fn obeys_sub_spec() -> bool {
        true
    }

    open spec fn sub_req(self, other: Float) -> bool {
        true
    }

    open spec fn sub_spec(self, other: Float) -> Float {
        self.minus(other)
    }
}

impl core::ops::Mul for Float {
    type Output = Float;

    fn mul(self, other: Float) -> (r: Float) {
        self.multiply_by(other)
    }
}

impl vstd::std_specs::ops::MulSpecImpl for Float {
    open spec fn obeys_mul_spec() -> bool {
        true
    }

    open spec fn mul_req(self, other: Float) -> bool {
        true
    }

    open spec fn mul_spec(self, other: Float) -> Float {
        self.times(other)
    }
}

}
