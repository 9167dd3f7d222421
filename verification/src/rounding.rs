//! Rounding of a non-negative rational number to the 64-bit binary format,
//! to nearest with ties to even.
//!
//! Magnitudes are counted in units of the smallest positive number of the
//! format, so that every finite number is a whole number of units.

use vstd::arithmetic::div_mod::{
    lemma_div_is_ordered, lemma_fundamental_div_mod, lemma_fundamental_div_mod_converse,
};
use vstd::arithmetic::mul::{
    lemma_mul_inequality, lemma_mul_is_commutative, lemma_mul_strict_inequality,
    lemma_mul_strictly_positive,
};
use vstd::arithmetic::power2::{
    lemma2_to64, lemma2_to64_rest, lemma_pow2_adds, lemma_pow2_pos, lemma_pow2_strictly_increases,
    pow2,
};
use vstd::prelude::*;

verus! {

/// The leading significand bit: two to the fifty-second.
pub const HIDDEN: u64 = 0x0010_0000_0000_0000;

/// The magnitude bits of infinity; larger magnitude bits mean "not a number".
pub const INFINITE: u64 = 0x7ff0_0000_0000_0000;

/// `n / d` rounded to the nearest whole number, a tie going to the even one.
pub open spec fn half_even(n: nat, d: nat) -> nat {
    let q: nat = n / d;
    let r: nat = n % d;
    if 2 * r < d || (2 * r == d && q % 2 == 0) {
        q
    } else {
        q + 1
    }
}

/// The least `k` for which `n / d` is below two to the `53 + k`.
pub open spec fn binade(n: nat, d: nat) -> nat
    decreases n - d,
{
    if d == 0 || n < d * pow2(53) {
        0
    } else {
        proof {
            lemma2_to64_rest();
            assert(d * pow2(53) >= 2 * d) by (nonlinear_arith)
                requires
                    pow2(53) >= 2,
            ;
        }
        1 + binade(n, 2 * d)
    }
}

/// The magnitude bits of the number nearest to `n / d` units: the significand,
/// rounded to 53 bits, packed behind the exponent. What is too large becomes
/// infinity.
pub open spec fn round_bits(n: nat, d: nat) -> nat {
    let k: nat = binade(n, d);
    let bits: nat = k * HIDDEN as nat + half_even(n, d * pow2(k));
    if bits < INFINITE as nat {
        bits
    } else {
        INFINITE as nat
    }
}

/// The magnitude, in units, that magnitude bits stand for. The formula gives
/// infinity the value that follows the largest finite number.
pub open spec fn units(bits: nat) -> nat {
    let e: nat = bits / HIDDEN as nat;
    let f: nat = bits % HIDDEN as nat;
    if e == 0 {
        f
    } else {
        (HIDDEN as nat + f) * pow2((e - 1) as nat)
    }
}

/// `m` times two to the `e`, rounded.
pub open spec fn round_scaled(m: nat, e: int) -> nat {
    if e >= 0 {
        round_bits(m * pow2(e as nat), 1)
    } else {
        round_bits(m, pow2((-e) as nat))
    }
}

pub proof fn lemma_binade_unique(n: nat, d: nat, k: nat)
    requires
        d > 0,
        n < d * pow2(53 + k),
        k > 0 ==> n >= d * pow2((52 + k) as nat),
    ensures
        binade(n, d) == k,
    decreases k,
{
    if k > 0 {
        let p: nat = pow2((52 + k) as nat);
        assert(p >= pow2(53)) by {
            if k > 1 {
                lemma_pow2_strictly_increases(53, (52 + k) as nat);
            }
        }
        assert(d * p >= d * pow2(53)) by {
            lemma_mul_inequality(pow2(53) as int, p as int, d as int);
            lemma_mul_is_commutative(d as int, p as int);
            lemma_mul_is_commutative(d as int, pow2(53) as int);
        }
        let j: nat = (k - 1) as nat;
        lemma_pow2_adds(1, (53 + j) as nat);
        lemma2_to64();
        assert((2 * d) * pow2(53 + j) == d * pow2(53 + k)) by (nonlinear_arith)
            requires
                pow2(53 + k) == 2 * pow2(53 + j),
        ;
        if j > 0 {
            lemma_pow2_adds(1, (52 + j) as nat);
            assert((2 * d) * pow2((52 + j) as nat) == d * pow2((52 + k) as nat)) by (nonlinear_arith)
                requires
                    pow2((52 + k) as nat) == 2 * pow2((52 + j) as nat),
            ;
        }
        lemma_binade_unique(n, 2 * d, j);
    }
}

pub proof fn lemma_binade_bounds(n: nat, d: nat)
    requires
        d > 0,
    ensures
        n < d * pow2(53 + binade(n, d)),
        binade(n, d) > 0 ==> n >= d * pow2((52 + binade(n, d)) as nat),
    decreases n - d,
{
    if n >= d * pow2(53) {
        lemma2_to64_rest();
        assert(d * pow2(53) >= 2 * d) by (nonlinear_arith)
            requires
                pow2(53) >= 2,
        ;
        lemma_binade_bounds(n, 2 * d);
        let j: nat = binade(n, 2 * d);
        lemma_pow2_adds(1, (53 + j) as nat);
        lemma2_to64();
        assert((2 * d) * pow2(53 + j) == d * pow2((54 + j) as nat)) by (nonlinear_arith)
            requires
                pow2((54 + j) as nat) == 2 * pow2(53 + j),
        ;
        if j > 0 {
            lemma_pow2_adds(1, (52 + j) as nat);
            assert((2 * d) * pow2((52 + j) as nat) == d * pow2((53 + j) as nat)) by (nonlinear_arith)
                requires
                    pow2((53 + j) as nat) == 2 * pow2((52 + j) as nat),
            ;
        }
    }
}

/// Quotient and remainder of a fraction expanded by a common factor.
pub proof fn lemma_expand(n: nat, d: nat, c: nat)
    requires
        d > 0,
        c > 0,
    ensures
        d * c > 0,
        (n * c) / (d * c) == n / d,
        (n * c) % (d * c) == (n % d) * c,
{
    lemma_mul_strictly_positive(d as int, c as int);
    lemma_fundamental_div_mod(n as int, d as int);
    let q: int = n as int / d as int;
    let r: int = n as int % d as int;
    assert(n * c == (d * c) * q + r * c) by (nonlinear_arith)
        requires
            n == d * q + r,
    ;
    assert(0 <= r * c < d * c) by (nonlinear_arith)
        requires
            0 <= r < d,
            c > 0,
    ;
    assert(n * c == q * (d * c) + r * c) by (nonlinear_arith)
        requires
            n * c == (d * c) * q + r * c,
    ;
    lemma_fundamental_div_mod_converse((n * c) as int, (d * c) as int, q, r * c);
}

pub proof fn lemma_half_even_expand(n: nat, d: nat, c: nat)
    requires
        d > 0,
        c > 0,
    ensures
        half_even(n * c, d * c) == half_even(n, d),
{
    lemma_expand(n, d, c);
    let r: nat = n % d;
    assert(2 * (r * c) < d * c <==> 2 * r < d) by (nonlinear_arith)
        requires
            c > 0,
    ;
    assert(2 * (r * c) == d * c <==> 2 * r == d) by (nonlinear_arith)
        requires
            c > 0,
    ;
}

pub proof fn lemma_half_even_whole(n: nat, d: nat)
    requires
        d > 0,
    ensures
        half_even(n * d, d) == n,
{
    lemma_fundamental_div_mod_converse((n * d) as int, d as int, n as int, 0);
}

/// Expanding a fraction by a common factor leaves its rounding as it is.
pub proof fn lemma_round_expand(n: nat, d: nat, c: nat)
    requires
        d > 0,
        c > 0,
    ensures
        round_bits(n * c, d * c) == round_bits(n, d),
{
    let k: nat = binade(n, d);
    lemma_binade_bounds(n, d);
    lemma_mul_strictly_positive(d as int, c as int);
    assert(n * c < (d * c) * pow2(53 + k)) by (nonlinear_arith)
        requires
            n < d * pow2(53 + k),
            c > 0,
    ;
    if k > 0 {
        assert(n * c >= (d * c) * pow2((52 + k) as nat)) by (nonlinear_arith)
            requires
                n >= d * pow2((52 + k) as nat),
                c > 0,
        ;
    }
    lemma_binade_unique(n * c, d * c, k);
    lemma_pow2_pos(k);
    lemma_mul_strictly_positive(d as int, pow2(k) as int);
    lemma_half_even_expand(n, d * pow2(k), c);
    assert((d * c) * pow2(k) == (d * pow2(k)) * c) by (nonlinear_arith);
}

/// Where the significand of `m * 2^e` ends, and what it is: the computation
/// that rounds a product or a sum.
pub proof fn lemma_round_scaled(m: nat, e: int, len: nat, k: nat)
    requires
        len > 0,
        pow2((len - 1) as nat) <= m < pow2(len),
        k == (if len + e > 53 { len + e - 53 } else { 0 }),
    ensures
        round_scaled(m, e) == ({
            let s: int = k - e;
            let q: nat = if s <= 0 { m * pow2((-s) as nat) } else { half_even(m, pow2(s as nat)) };
            let bits: nat = k * HIDDEN as nat + q;
            if bits < INFINITE as nat { bits } else { INFINITE as nat }
        }),
{
    let s: int = k - e;
    if e >= 0 {
        let n: nat = m * pow2(e as nat);
        lemma_pow2_pos(e as nat);
        assert(n < 1 * pow2(53 + k)) by {
            lemma_pow2_adds(len, e as nat);
            lemma_mul_strict_inequality(m as int, pow2(len) as int, pow2(e as nat) as int);
            if len + e < 53 + k {
                lemma_pow2_strictly_increases((len + e) as nat, 53 + k);
            }
        }
        if k > 0 {
            assert(n >= 1 * pow2((52 + k) as nat)) by {
                lemma_pow2_adds((len - 1) as nat, e as nat);
                lemma_mul_inequality(pow2((len - 1) as nat) as int, m as int, pow2(e as nat) as int);
            }
        }
        lemma_binade_unique(n, 1, k);
        lemma_pow2_pos(k);
        if s <= 0 {
            lemma_pow2_adds((-s) as nat, k);
            assert(n == (m * pow2((-s) as nat)) * pow2(k)) by (nonlinear_arith)
                requires
                    n == m * pow2(e as nat),
                    pow2(e as nat) == pow2((-s) as nat) * pow2(k),
            ;
            lemma_half_even_whole(m * pow2((-s) as nat), pow2(k));
        } else {
            lemma_pow2_adds(s as nat, e as nat);
            lemma_pow2_pos(s as nat);
            lemma_half_even_expand(m, pow2(s as nat), pow2(e as nat));
        }
    } else {
        let d: nat = pow2((-e) as nat);
        lemma_pow2_pos((-e) as nat);
        assert(m < d * pow2(53 + k)) by {
            lemma_pow2_adds((-e) as nat, 53 + k);
            if len < -e + 53 + k {
                lemma_pow2_strictly_increases(len, (-e + 53 + k) as nat);
            }
        }
        if k > 0 {
            assert(m >= d * pow2((52 + k) as nat)) by {
                lemma_pow2_adds((-e) as nat, (52 + k) as nat);
            }
        }
        lemma_binade_unique(m, d, k);
        lemma_pow2_adds((-e) as nat, k);
    }
}

/// Nothing rounds to zero.
pub proof fn lemma_round_zero(d: nat)
    requires
        d > 0,
    ensures
        round_bits(0, d) == 0,
{
    lemma_pow2_pos(53);
    lemma_mul_strictly_positive(d as int, pow2(53) as int);
    lemma2_to64();
    assert(d * pow2(0) == d);
    lemma_fundamental_div_mod_converse(0, d as int, 0, 0);
}

/// Magnitude bits below infinity, taken apart: a significand of at most 53
/// bits and the power of two that scales it.
pub proof fn lemma_units_parts(bits: nat)
    requires
        bits <= INFINITE,
    ensures
        bits < HIDDEN ==> units(bits) == bits,
        bits >= HIDDEN ==> ({
            let k: nat = (bits / HIDDEN as nat - 1) as nat;
            let sig: nat = bits % HIDDEN as nat + HIDDEN as nat;
            &&& units(bits) == sig * pow2(k)
            &&& bits == k * HIDDEN as nat + sig
            &&& HIDDEN <= sig < 2 * HIDDEN
            &&& k <= 2046
        }),
{
}

/// Larger magnitude bits stand for larger numbers.
pub proof fn lemma_units_increase(a: nat, b: nat)
    requires
        a < b <= INFINITE,
    ensures
        units(a) < units(b),
{
    lemma_units_parts(a);
    lemma_units_parts(b);
    lemma2_to64_rest();
    if b >= HIDDEN {
        let kb: nat = (b / HIDDEN as nat - 1) as nat;
        let sb: nat = b % HIDDEN as nat + HIDDEN as nat;
        lemma_pow2_pos(kb);
        if a < HIDDEN {
            lemma_mul_inequality(1, pow2(kb) as int, sb as int);
            lemma_mul_is_commutative(sb as int, pow2(kb) as int);
        } else {
            let ka: nat = (a / HIDDEN as nat - 1) as nat;
            let sa: nat = a % HIDDEN as nat + HIDDEN as nat;
            if ka == kb {
                lemma_mul_strict_inequality(sa as int, sb as int, pow2(kb) as int);
            } else {
                assert(ka < kb);
                lemma_pow2_pos(ka);
                lemma_pow2_adds(1, ka);
                lemma2_to64();
                if ka + 1 < kb {
                    lemma_pow2_strictly_increases((ka + 1) as nat, kb);
                }
                assert(sa * pow2(ka) < sb * pow2(kb)) by (nonlinear_arith)
                    requires
                        sa < 2 * HIDDEN,
                        HIDDEN <= sb,
                        pow2(kb) >= 2 * pow2(ka),
                        pow2(ka) > 0,
                ;
            }
        }
    }
}

/// A number too small to reach half the last place of another leaves it as it
/// is when added or subtracted.
pub proof fn lemma_absorb(k: nat, sig: nat, small: nat)
    requires
        k >= 2,
        HIDDEN <= sig < 2 * HIDDEN,
        k * HIDDEN + sig < INFINITE,
        4 * small < pow2(k),
    ensures
        round_bits(sig * pow2(k) + small, 1) == k * HIDDEN as nat + sig,
        small <= sig * pow2(k),
        round_bits((sig * pow2(k) - small) as nat, 1) == k * HIDDEN as nat + sig,
{
    let p: nat = pow2(k);
    let n: nat = sig * p + small;
    lemma2_to64_rest();
    lemma_pow2_pos(k);
    lemma_pow2_adds(52, k);
    lemma_pow2_adds(53, k);
    assert(pow2(53 + k) == 2 * HIDDEN as nat * p);
    assert(pow2((52 + k) as nat) == HIDDEN as nat * p);
    assert(sig * p + p <= 2 * HIDDEN as nat * p) by (nonlinear_arith)
        requires
            sig + 1 <= 2 * HIDDEN,
            p > 0,
    ;
    assert(sig * p >= HIDDEN as nat * p) by (nonlinear_arith)
        requires
            sig >= HIDDEN,
            p > 0,
    ;
    lemma_binade_unique(n, 1, k);
    lemma_fundamental_div_mod_converse(n as int, p as int, sig as int, small as int);
    assert(HIDDEN as nat * p >= p) by (nonlinear_arith)
        requires
            p > 0,
    ;
    let m: nat = (sig * p - small) as nat;
    if small == 0 {
    } else if sig > HIDDEN {
        assert((sig - 1) * p == sig * p - p) by (nonlinear_arith);
        assert((sig - 1) * p >= HIDDEN as nat * p) by (nonlinear_arith)
            requires
                sig - 1 >= HIDDEN,
                p > 0,
        ;
        lemma_binade_unique(m, 1, k);
        lemma_fundamental_div_mod_converse(m as int, p as int, sig - 1, p - small);
    } else {
        let j: nat = (k - 1) as nat;
        let h: nat = pow2(j);
        lemma_pow2_adds(1, j);
        lemma2_to64();
        lemma_pow2_pos(j);
        lemma_pow2_adds(53, j);
        lemma_pow2_adds(52, j);
        assert(p == 2 * h);
        assert(m == (2 * HIDDEN as nat - 1) * h + (h - small)) by (nonlinear_arith)
            requires
                m == HIDDEN as nat * p - small,
                p == 2 * h,
        ;
        assert(HIDDEN as nat * p == 2 * (HIDDEN as nat * h)) by (nonlinear_arith)
            requires
                p == 2 * h,
        ;
        assert(HIDDEN as nat * h >= h) by (nonlinear_arith)
            requires
                h > 0,
        ;
        lemma_binade_unique(m, 1, j);
        lemma_fundamental_div_mod_converse(
            m as int,
            h as int,
            2 * HIDDEN as nat - 1,
            h - small,
        );
    }
}

/// A finite number rounds to itself.
pub proof fn lemma_round_exact(bits: nat)
    requires
        bits < INFINITE,
    ensures
        round_bits(units(bits), 1) == bits,
{
    lemma_units_parts(bits);
    lemma2_to64_rest();
    if bits < HIDDEN {
        lemma_binade_unique(bits, 1, 0);
        lemma2_to64();
        lemma_half_even_whole(bits, 1);
    } else {
        let k: nat = (bits / HIDDEN as nat - 1) as nat;
        let sig: nat = bits % HIDDEN as nat + HIDDEN as nat;
        let p: nat = pow2(k);
        lemma_pow2_pos(k);
        lemma_pow2_adds(52, k);
        lemma_pow2_adds(53, k);
        assert(sig * p < 2 * HIDDEN as nat * p) by (nonlinear_arith)
            requires
                sig < 2 * HIDDEN,
                p > 0,
        ;
        assert(sig * p >= HIDDEN as nat * p) by (nonlinear_arith)
            requires
                sig >= HIDDEN,
                p > 0,
        ;
        lemma_binade_unique(sig * p, 1, k);
        lemma_half_even_whole(sig, p);
    }
}

/// A remainder counts in the rounding of a quotient only by being there.
pub proof fn lemma_sticky(m: nat, d: nat, r: nat, t: nat)
    requires
        0 < r < d,
        t > 0,
    ensures
        half_even(m * d + r, d * pow2(t)) == half_even(2 * m + 1, pow2(t + 1)),
{
    let p: nat = pow2(t);
    lemma_pow2_pos(t);
    lemma_pow2_adds(1, t);
    lemma_pow2_adds(1, (t - 1) as nat);
    lemma2_to64();
    let h: nat = pow2((t - 1) as nat);
    lemma_fundamental_div_mod(m as int, p as int);
    let q: nat = m / p;
    let u: nat = m % p;
    assert(m * d + r == q * (d * p) + (u * d + r)) by (nonlinear_arith)
        requires
            m == p * q + u,
    ;
    assert(u * d + r < d * p) by (nonlinear_arith)
        requires
            u + 1 <= p,
            r < d,
    ;
    lemma_fundamental_div_mod_converse(
        (m * d + r) as int,
        (d * p) as int,
        q as int,
        (u * d + r) as int,
    );
    assert(2 * m + 1 == q * (2 * p) + (2 * u + 1)) by (nonlinear_arith)
        requires
            m == p * q + u,
    ;
    lemma_fundamental_div_mod_converse(
        (2 * m + 1) as int,
        (2 * p) as int,
        q as int,
        (2 * u + 1) as int,
    );
    if u < h {
        assert(2 * (u * d + r) < d * p) by (nonlinear_arith)
            requires
                u + 1 <= h,
                r < d,
                p == 2 * h,
        ;
    } else {
        assert(2 * (u * d + r) > d * p) by (nonlinear_arith)
            requires
                u >= h,
                r > 0,
                p == 2 * h,
        ;
    }
}

/// A fraction that does not come out even, rounded by way of its truncated
/// quotient `m`, a half standing for the remainder.
pub proof fn lemma_round_quotient(m: nat, d: nat, r: nat, e: nat, len: nat)
    requires
        0 < r < d,
        len >= 54,
        pow2((len - 1) as nat) <= m < pow2(len),
    ensures
        round_bits((m * d + r) * pow2(e + 1), d) == round_scaled(2 * m + 1, e as int),
{
    let c: nat = pow2(e + 1);
    let n: nat = (m * d + r) * c;
    let k: nat = (len + e + 1 - 53) as nat;
    let t: nat = (len - 53) as nat;
    lemma_pow2_pos(e + 1);
    lemma_pow2_adds(1, len);
    lemma_pow2_adds(1, (len - 1) as nat);
    lemma2_to64();
    lemma_round_scaled(2 * m + 1, e as int, len + 1, k);
    lemma_pow2_adds(len, e + 1);
    lemma_pow2_adds((len - 1) as nat, e + 1);
    let top: nat = pow2(len);
    let low: nat = pow2((len - 1) as nat);
    assert(m * d + r < d * top) by (nonlinear_arith)
        requires
            m + 1 <= top,
            r < d,
    ;
    assert(n < d * pow2(53 + k)) by (nonlinear_arith)
        requires
            m * d + r < d * top,
            n == (m * d + r) * c,
            pow2(53 + k) == top * c,
            c > 0,
    ;
    assert(m * d + r >= d * low) by (nonlinear_arith)
        requires
            m >= low,
            d > 0,
    ;
    assert(n >= d * pow2((52 + k) as nat)) by (nonlinear_arith)
        requires
            m * d + r >= d * low,
            n == (m * d + r) * c,
            pow2((52 + k) as nat) == low * c,
            c > 0,
    ;
    lemma_binade_unique(n, d, k);
    lemma_pow2_adds(t, e + 1);
    assert(d * pow2(k) == (d * pow2(t)) * c) by (nonlinear_arith)
        requires
            pow2(k) == pow2(t) * c,
    ;
    lemma_pow2_pos(t);
    lemma_mul_strictly_positive(d as int, pow2(t) as int);
    lemma_half_even_expand(m * d + r, d * pow2(t), c);
    lemma_sticky(m, d, r, t);
}

proof fn lemma_half_even_bounds(n: nat, d: nat)
    requires
        d > 0,
    ensures
        n / d <= half_even(n, d) <= n / d + 1,
        n == d * (n / d) + n % d,
        0 <= n % d < d,
{
    lemma_fundamental_div_mod(n as int, d as int);
}

proof fn lemma_half_even_monotone(m: nat, n: nat, d: nat)
    requires
        d > 0,
        m <= n,
    ensures
        half_even(m, d) <= half_even(n, d),
{
    lemma_half_even_bounds(m, d);
    lemma_half_even_bounds(n, d);
    lemma_div_is_ordered(m as int, n as int, d as int);
}

/// The rounded significand lies in its binade, the upper end included.
proof fn lemma_significand(n: nat, d: nat)
    requires
        d > 0,
    ensures
        ({
            let k: nat = binade(n, d);
            let q: nat = half_even(n, d * pow2(k));
            &&& q <= 2 * HIDDEN
            &&& n / (d * pow2(k)) < 2 * HIDDEN
            &&& k > 0 ==> n / (d * pow2(k)) >= HIDDEN && q >= HIDDEN
        }),
{
    let k: nat = binade(n, d);
    let w: nat = d * pow2(k);
    lemma_binade_bounds(n, d);
    lemma_pow2_pos(k);
    lemma_mul_strictly_positive(d as int, pow2(k) as int);
    lemma_half_even_bounds(n, w);
    lemma2_to64_rest();
    lemma_pow2_adds(53, k);
    lemma_pow2_adds(52, k);
    let q: nat = n / w;
    assert(q < 2 * HIDDEN) by (nonlinear_arith)
        requires
            w * q <= n,
            n < d * (2 * HIDDEN as nat * pow2(k)),
            w == d * pow2(k),
            w > 0,
    ;
    if k > 0 {
        assert(q >= HIDDEN) by (nonlinear_arith)
            requires
                n == w * q + n % w,
                n % w < w,
                n >= d * (HIDDEN as nat * pow2(k)),
                w == d * pow2(k),
                w > 0,
        ;
    }
}

/// Rounding keeps the order of numbers.
pub proof fn law_rounding_keeps_order(m: nat, n: nat, d: nat)
    requires
        d > 0,
        m <= n,
    ensures
        round_bits(m, d) <= round_bits(n, d),
{
    let j: nat = binade(m, d);
    let k: nat = binade(n, d);
    lemma_binade_bounds(m, d);
    lemma_binade_bounds(n, d);
    lemma_significand(m, d);
    lemma_significand(n, d);
    assert(j <= k) by {
        if j > k {
            if 53 + k < 52 + j {
                lemma_pow2_strictly_increases((53 + k) as nat, (52 + j) as nat);
            }
            lemma_mul_inequality(pow2(53 + k) as int, pow2((52 + j) as nat) as int, d as int);
            lemma_mul_is_commutative(d as int, pow2(53 + k) as int);
            lemma_mul_is_commutative(d as int, pow2((52 + j) as nat) as int);
        }
    }
    if j == k {
        lemma_pow2_pos(k);
        lemma_mul_strictly_positive(d as int, pow2(k) as int);
        lemma_half_even_monotone(m, n, d * pow2(k));
    }
}

/// No finite number lies strictly between two neighbours of a binade.
proof fn lemma_no_number_between(bits: nat, k: nat, q: nat)
    requires
        bits <= INFINITE,
        k > 0 ==> q >= HIDDEN,
    ensures
        units(bits) <= q * pow2(k) || units(bits) >= (q + 1) * pow2(k),
{
    lemma_units_parts(bits);
    lemma2_to64();
    lemma2_to64_rest();
    let p: nat = pow2(k);
    lemma_pow2_pos(k);
    if k == 0 {
        assert(q * p == q && (q + 1) * p == q + 1) by (nonlinear_arith)
            requires
                p == 1,
        ;
    } else if bits < HIDDEN {
        assert(bits <= q * p) by (nonlinear_arith)
            requires
                bits < HIDDEN,
                q >= HIDDEN,
                p > 0,
        ;
    } else {
        let j: nat = (bits / HIDDEN as nat - 1) as nat;
        let sig: nat = bits % HIDDEN as nat + HIDDEN as nat;
        let r: nat = pow2(j);
        lemma_pow2_pos(j);
        if j < k {
            lemma_pow2_adds((k - j) as nat, j);
            lemma_pow2_pos((k - j) as nat);
            if k - j > 1 {
                lemma_pow2_strictly_increases(1, (k - j) as nat);
            }
            assert(p >= 2 * r) by (nonlinear_arith)
                requires
                    p == pow2((k - j) as nat) * r,
                    pow2((k - j) as nat) >= 2,
            ;
            assert(sig * r <= q * p) by (nonlinear_arith)
                requires
                    sig < 2 * HIDDEN,
                    q >= HIDDEN,
                    p >= 2 * r,
            ;
        } else {
            let f: nat = pow2((j - k) as nat);
            lemma_pow2_adds((j - k) as nat, k);
            let w: nat = sig * f;
            assert(sig * r == w * p) by (nonlinear_arith)
                requires
                    r == f * p,
                    w == sig * f,
            ;
            if w <= q {
                lemma_mul_inequality(w as int, q as int, p as int);
            } else {
                lemma_mul_inequality((q + 1) as int, w as int, p as int);
            }
        }
    }
}

/// The distance of a number of units from the fraction `n / d`, times `d`.
pub open spec fn distance(u: nat, n: nat, d: nat) -> int {
    if u * d >= n {
        u * d - n
    } else {
        n - u * d
    }
}

/// The magnitude that packed bits stand for.
proof fn lemma_units_packed(k: nat, q: nat)
    requires
        q <= 2 * HIDDEN,
        k > 0 ==> q >= HIDDEN,
        k * HIDDEN + q <= INFINITE,
    ensures
        units(k * HIDDEN as nat + q) == q * pow2(k),
{
    let bits: nat = k * HIDDEN as nat + q;
    lemma_units_parts(bits);
    lemma2_to64();
    if bits < HIDDEN {
        assert(k == 0);
        assert(q * pow2(0) == q) by (nonlinear_arith)
            requires
                pow2(0) == 1,
        ;
    } else if q < 2 * HIDDEN && q >= HIDDEN {
        lemma_fundamental_div_mod_converse(
            bits as int,
            HIDDEN as int,
            (k + 1) as int,
            q - HIDDEN,
        );
    } else {
        assert(q == 2 * HIDDEN);
        lemma_fundamental_div_mod_converse(bits as int, HIDDEN as int, (k + 2) as int, 0);
        lemma_pow2_adds(1, k);
        assert(HIDDEN as nat * pow2(k + 1) == q * pow2(k)) by (nonlinear_arith)
            requires
                pow2(k + 1) == 2 * pow2(k),
                q == 2 * HIDDEN,
        ;
    }
}

/// What lies two binades above the largest number is infinite, and no finite
/// number is closer to it.
proof fn lemma_beyond(n: nat, d: nat, other: nat)
    requires
        d > 0,
        binade(n, d) > 2045,
        other < INFINITE,
    ensures
        round_bits(n, d) == INFINITE,
        distance(units(INFINITE as nat), n, d) <= distance(units(other), n, d),
{
    let k: nat = binade(n, d);
    let top: nat = units(INFINITE as nat);
    lemma_significand(n, d);
    assert(k * HIDDEN >= 2046 * HIDDEN) by (nonlinear_arith)
        requires
            k >= 2046,
    ;
    lemma_binade_bounds(n, d);
    lemma_units_parts(INFINITE as nat);
    lemma2_to64_rest();
    lemma_pow2_adds(52, 2046);
    if k > 2046 {
        lemma_pow2_strictly_increases(2098, (52 + k) as nat);
    }
    lemma_mul_inequality(top as int, pow2((52 + k) as nat) as int, d as int);
    lemma_mul_is_commutative(d as int, pow2((52 + k) as nat) as int);
    lemma_units_increase(other, INFINITE as nat);
    lemma_mul_inequality(units(other) as int, top as int, d as int);
}

/// Rounding gives a number nearest to the fraction: no number is closer. For
/// this infinity counts as what follows the largest number.
pub proof fn law_rounding_is_nearest(n: nat, d: nat, other: nat)
    requires
        d > 0,
        other < INFINITE,
    ensures
        distance(units(round_bits(n, d)), n, d) <= distance(units(other), n, d),
{
    let k: nat = binade(n, d);
    let p: nat = pow2(k);
    let w: nat = d * p;
    lemma_significand(n, d);
    lemma_pow2_pos(k);
    lemma_mul_strictly_positive(d as int, p as int);
    lemma_half_even_bounds(n, w);
    let q: nat = n / w;
    let r: nat = n % w;
    let h: nat = half_even(n, w);
    if k > 2045 {
        lemma_beyond(n, d, other);
    } else {
        lemma_units_packed(k, h);
    }
    lemma_no_number_between(other, k, q);
    let u: nat = units(other);
    assert((q * p) * d == w * q) by (nonlinear_arith)
        requires
            w == d * p,
    ;
    assert(((q + 1) * p) * d == w * q + w) by (nonlinear_arith)
        requires
            w == d * p,
    ;
    if u <= q * p {
        lemma_mul_inequality(u as int, (q * p) as int, d as int);
    } else {
        lemma_mul_inequality(((q + 1) * p) as int, u as int, d as int);
    }
}

/// Where two numbers are equally close to a fraction, rounding gives the one
/// whose last digit is even.
pub proof fn law_ties_go_to_even(n: nat, d: nat, other: nat)
    requires
        d > 0,
        other < INFINITE,
        units(other) != units(round_bits(n, d)),
        distance(units(round_bits(n, d)), n, d) == distance(units(other), n, d),
    ensures
        round_bits(n, d) % 2 == 0,
{
    if round_bits(n, d) < INFINITE {
        let k: nat = binade(n, d);
        let p: nat = pow2(k);
        let w: nat = d * p;
        lemma_significand(n, d);
        lemma_pow2_pos(k);
        lemma_mul_strictly_positive(d as int, p as int);
        lemma_half_even_bounds(n, w);
        lemma_fundamental_div_mod(n as int, w as int);
        let q: nat = n / w;
        let r: nat = n % w;
        let h: nat = half_even(n, w);
        lemma_units_packed(k, h);
        lemma_no_number_between(other, k, q);
        let u: nat = units(other);
        assert((q * p) * d == w * q) by (nonlinear_arith)
            requires
                w == d * p,
        ;
        assert(((q + 1) * p) * d == w * q + w) by (nonlinear_arith)
            requires
                w == d * p,
        ;
        if u <= q * p {
            lemma_mul_inequality(u as int, (q * p) as int, d as int);
            if u < q * p {
                lemma_mul_strict_inequality(u as int, (q * p) as int, d as int);
            }
        } else {
            lemma_mul_inequality(((q + 1) * p) as int, u as int, d as int);
            if (q + 1) * p < u {
                lemma_mul_strict_inequality(((q + 1) * p) as int, u as int, d as int);
            }
        }
        assert(2 * r == w);
        assert(h % 2 == 0);
        assert(k * HIDDEN as nat == 2 * (k * 0x8_0000_0000_0000nat)) by (nonlinear_arith)
            requires
                HIDDEN == 0x10_0000_0000_0000,
        ;
    }
}

/// Rounding misses a number by at most two to the -53 of the result, or half a
/// unit.
pub proof fn lemma_rounding_error(n: nat, d: nat)
    requires
        d > 0,
        round_bits(n, d) < INFINITE,
    ensures
        2 * HIDDEN * distance(units(round_bits(n, d)), n, d) <= d * units(round_bits(n, d)) + d
            * HIDDEN,
{
    let k: nat = binade(n, d);
    let p: nat = pow2(k);
    let w: nat = d * p;
    let q: nat = half_even(n, w);
    lemma_significand(n, d);
    lemma_pow2_pos(k);
    lemma_mul_strictly_positive(d as int, p as int);
    lemma_half_even_bounds(n, w);
    lemma_units_packed(k, q);
    lemma2_to64();
    let u: nat = units(round_bits(n, d));
    assert(u * d == q * w) by (nonlinear_arith)
        requires
            u == q * p,
            w == d * p,
    ;
    let r: nat = n % w;
    let f: nat = n / w;
    assert((f + 1) * w == w * f + w) by (nonlinear_arith);
    assert(f * w == w * f) by (nonlinear_arith);
    let e: int = distance(u, n, d);
    assert(2 * e <= w);
    if k > 0 {
        assert(HIDDEN * w <= d * u) by (nonlinear_arith)
            requires
                w == d * p,
                u == q * p,
                q >= HIDDEN,
        ;
    } else {
        assert(d * pow2(0) == d);
        assert(d * u >= 0) by (nonlinear_arith);
    }
    assert(2 * HIDDEN * e <= HIDDEN * w) by (nonlinear_arith)
        requires
            2 * e <= w,
    ;
    assert(d * HIDDEN >= 0 && HIDDEN * d == d * HIDDEN) by (nonlinear_arith);
}

}
