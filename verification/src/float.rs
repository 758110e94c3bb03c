//! IEEE 754 binary floating point on bit patterns.
//!
//! [`Binary32`] and [`Binary64`] hold the bits of a single- or double-precision
//! number. Each operation is specified as the exact result on the numbers that
//! the patterns denote, rounded to nearest with ties to even, and is computed
//! on integers alone.

use crate::rounding::{
    den2, half_even, lemma_half_even_cancel, lemma_pow2_mono, lemma_round_cancel, lemma_sticky,
    lemma_ulp_exists, lemma_ulp_scaled, num2, round_mag, ulp,
};
use vstd::arithmetic::div_mod::{lemma_fundamental_div_mod, lemma_fundamental_div_mod_converse};
use vstd::arithmetic::mul::{
    lemma_mul_inequality, lemma_mul_is_associative, lemma_mul_is_commutative,
    lemma_mul_strict_inequality, lemma_mul_strictly_positive,
};
use vstd::arithmetic::power2::{
    lemma2_to64, lemma2_to64_rest, lemma_pow2_adds, lemma_pow2_pos, lemma_pow2_unfold, pow2,
};
use vstd::prelude::*;

verus! {

/// The two formats.
#[derive(Clone, Copy, PartialEq, Eq, Structural, Debug)]
pub enum Width {
    Single,
    Double,
}

impl Width {
    /// Bits of precision, the leading one included.
    pub open spec fn prec(self) -> nat {
        match self {
            Width::Single => 24,
            Width::Double => 53,
        }
    }

    /// Weight of the leading bit of a normal number's mantissa, `2^(prec - 1)`.
    pub open spec fn hidden(self) -> nat {
        match self {
            Width::Single => 0x80_0000,
            Width::Double => 0x10_0000_0000_0000,
        }
    }

    /// Bit pattern of positive infinity.
    pub open spec fn inf(self) -> nat {
        match self {
            Width::Single => 0x7f80_0000,
            Width::Double => 0x7ff0_0000_0000_0000,
        }
    }

    /// The smallest positive number is `2^-unit`.
    pub open spec fn unit(self) -> nat {
        match self {
            Width::Single => 149,
            Width::Double => 1074,
        }
    }

    pub fn get_prec(self) -> (r: u32)
        ensures
            r == self.prec(),
    {
        match self {
            Width::Single => 24,
            Width::Double => 53,
        }
    }

    pub fn get_hidden(self) -> (r: u64)
        ensures
            r == self.hidden(),
    {
        match self {
            Width::Single => 0x80_0000,
            Width::Double => 0x10_0000_0000_0000,
        }
    }

    pub fn get_inf(self) -> (r: u64)
        ensures
            r == self.inf(),
    {
        match self {
            Width::Single => 0x7f80_0000,
            Width::Double => 0x7ff0_0000_0000_0000,
        }
    }

    pub fn get_unit(self) -> (r: i32)
        ensures
            r == self.unit(),
    {
        match self {
            Width::Single => 149,
            Width::Double => 1074,
        }
    }
}

pub proof fn lemma_hidden(w: Width)
    ensures
        pow2((w.prec() - 1) as nat) == w.hidden(),
        pow2(w.prec()) == 2 * w.hidden(),
{
    lemma2_to64();
    lemma2_to64_rest();
}

pub proof fn lemma_pow2_127(k: nat)
    requires
        k <= 127,
    ensures
        0 < pow2(k) <= 0x8000_0000_0000_0000_0000_0000_0000_0000,
{
    lemma2_to64();
    lemma2_to64_rest();
    lemma_pow2_adds(63, 64);
    lemma_pow2_mono(k, 127);
}

/// Shifting left multiplies by a power of two while no bit is lost.
proof fn lemma_shl(x: u128, k: u128)
    requires
        k < 128,
        x * pow2(k as nat) <= u128::MAX,
    ensures
        (x << k) == x * pow2(k as nat),
    decreases k,
{
    lemma2_to64();
    if k == 0 {
        assert(x << 0u128 == x) by (bit_vector);
        assert(x * pow2(0) == x) by (nonlinear_arith)
            requires
                pow2(0) == 1,
        ;
    } else {
        let j = (k - 1) as u128;
        lemma_pow2_unfold(k as nat);
        let w = pow2(j as nat) as int;
        lemma_pow2_pos(j as nat);
        assert(x * (2 * w) == 2 * (x * w)) by (nonlinear_arith);
        assert(0 <= x * w) by (nonlinear_arith)
            requires
                x >= 0,
                w > 0,
        ;
        lemma_shl(x, j);
        let y = x << j;
        assert(y <= 0x7fff_ffff_ffff_ffff_ffff_ffff_ffff_ffff);
        assert(x << k == 2 * y) by (bit_vector)
            requires
                0 < k < 128,
                j == k - 1,
                y == x << j,
                y <= 0x7fff_ffff_ffff_ffff_ffff_ffff_ffff_ffff,
        ;
    }
}

pub(crate) fn shl(x: u128, k: u32) -> (r: u128)
    requires
        k < 128,
        x * pow2(k as nat) <= u128::MAX,
    ensures
        r == x * pow2(k as nat),
{
    proof {
        lemma_shl(x, k as u128);
    }
    x << (k as u128)
}

pub(crate) fn shr(x: u128, k: u32) -> (r: u128)
    requires
        k < 128,
    ensures
        r == x as nat / pow2(k as nat),
{
    proof {
        vstd::bits::lemma_u128_shr_is_div(x, k as u128);
    }
    x >> (k as u128)
}

/// One step of [`bit_length`]: drops `k` bits when more than `k` are there.
fn halve(x: u128, n: u32, k: u32, Ghost(x0): Ghost<u128>) -> (r: (u128, u32))
    requires
        x > 0,
        k < 128,
        n + k < 200,
        x as nat == x0 as nat / pow2(n as nat),
        x < pow2((2 * k) as nat),
    ensures
        r.0 > 0,
        n <= r.1 <= n + k,
        r.0 as nat == x0 as nat / pow2(r.1 as nat),
        r.0 < pow2(k as nat),
{
    let y: u128 = shr(x, k);
    proof {
        lemma_pow2_pos(k as nat);
        lemma_pow2_pos(n as nat);
        lemma_pow2_adds(k as nat, k as nat);
        lemma_pow2_adds(n as nat, k as nat);
        vstd::arithmetic::div_mod::lemma_div_denominator(
            x0 as int,
            pow2(n as nat) as int,
            pow2(k as nat) as int,
        );
        lemma_fundamental_div_mod(x as int, pow2(k as nat) as int);
        let w = pow2(k as nat) as int;
        let q = x as int / w;
        assert(q < w) by (nonlinear_arith)
            requires
                w * q <= x,
                x < w * w,
                w > 0,
        ;
    }
    if y > 0 {
        (y, n + k)
    } else {
        proof {
            let w = pow2(k as nat) as int;
            assert(x < w) by (nonlinear_arith)
                requires
                    x as int == w * (x as int / w) + x as int % w,
                    x as int / w == 0,
                    x as int % w < w,
            ;
        }
        (x, n)
    }
}

/// Number of bits of a positive integer.
pub(crate) fn bit_length(x: u128) -> (r: u32)
    requires
        x > 0,
    ensures
        0 < r <= 128,
        pow2((r - 1) as nat) <= x,
        x < pow2(r as nat),
{
    proof {
        lemma2_to64();
        lemma_pow2_adds(64, 64);
    }
    let (x6, n6) = halve(x, 0, 64, Ghost(x));
    let (x5, n5) = halve(x6, n6, 32, Ghost(x));
    let (x4, n4) = halve(x5, n5, 16, Ghost(x));
    let (x3, n3) = halve(x4, n4, 8, Ghost(x));
    let (x2, n2) = halve(x3, n3, 4, Ghost(x));
    let (x1, n1) = halve(x2, n2, 2, Ghost(x));
    let (x0, n0) = halve(x1, n1, 1, Ghost(x));
    proof {
        let w = pow2(n0 as nat) as int;
        lemma_pow2_pos(n0 as nat);
        lemma_fundamental_div_mod(x as int, w);
        lemma_pow2_unfold((n0 + 1) as nat);
        assert(w * (x as int / w) == w) by (nonlinear_arith)
            requires
                x as int / w == 1,
        ;
    }
    n0 + 1
}

/// The pattern of the magnitude nearest to `x * 2^s` units.
pub(crate) fn round_scaled(w: Width, x: u128, s: i32) -> (r: u64)
    requires
        x > 0,
        x < 0x8000_0000_0000_0000_0000_0000_0000_0000,
        -3000 <= s <= 3100,
    ensures
        r == round_mag(w.prec(), w.inf(), num2(x as nat, s as int), den2(s as int)),
        r <= w.inf(),
{
    let p: u32 = w.get_prec();
    let len: u32 = bit_length(x);
    let t: i32 = len as i32 + s - p as i32;
    let j: i32 = if t > 0 {
        t
    } else {
        0
    };
    let ghost n = num2(x as nat, s as int);
    let ghost d = den2(s as int);
    proof {
        lemma_hidden(w);
        lemma_ulp_scaled(w.prec(), x as nat, s as int, len as nat);
        lemma_pow2_pos(j as nat);
        if s >= 0 {
            lemma_pow2_pos(s as nat);
        } else {
            lemma_pow2_pos((-s) as nat);
        }
    }
    let cut: i32 = j - s;
    let q: u128 = if cut <= 0 {
        let k: u32 = (-cut) as u32;
        proof {
            // s == j + k, and x * 2^k < 2^p
            lemma_pow2_adds(j as nat, k as nat);
            lemma_pow2_adds(len as nat, k as nat);
            lemma_pow2_mono((len + k) as nat, p as nat);
            let wk = pow2(k as nat) as int;
            lemma_pow2_pos(k as nat);
            assert(x * wk < pow2(len as nat) * wk) by (nonlinear_arith)
                requires
                    x < pow2(len as nat),
                    wk > 0,
            ;
            let wj = pow2(j as nat) as int;
            assert(x * (wj * wk) == (x * wk) * wj + 0) by (nonlinear_arith);
            assert(d * pow2(j as nat) == wj);
            lemma_fundamental_div_mod_converse(n as int, wj, x * wk, 0);
        }
        shl(x, k)
    } else {
        proof {
            // half_even(n, d * 2^j) == half_even(x, 2^cut)
            if s >= 0 {
                lemma_pow2_adds(cut as nat, s as nat);
                lemma_pow2_pos(cut as nat);
                lemma_half_even_cancel(x as nat, pow2(cut as nat), pow2(s as nat));
            } else {
                lemma_pow2_adds((-s) as nat, j as nat);
            }
            assert(half_even(n, d * pow2(j as nat)) == half_even(x as nat, pow2(cut as nat)));
        }
        if cut >= 128 {
            proof {
                lemma_pow2_mono(128, cut as nat);
                lemma2_to64();
                lemma_pow2_adds(64, 64);
                vstd::arithmetic::div_mod::lemma_small_mod(x as nat, pow2(cut as nat));
                vstd::arithmetic::div_mod::lemma_basic_div(x as int, pow2(cut as nat) as int);
            }
            0
        } else {
            let k: u32 = cut as u32;
            let q0: u128 = shr(x, k);
            proof {
                lemma_pow2_pos(k as nat);
                lemma_fundamental_div_mod(x as int, pow2(k as nat) as int);
                lemma_mul_is_commutative(q0 as int, pow2(k as nat) as int);
                lemma_pow2_127((k - 1) as nat);
                lemma_pow2_unfold(k as nat);
                // q0 <= 2^p
                if t > 0 {
                    assert(len == k + p);
                    lemma_pow2_adds(k as nat, p as nat);
                } else {
                    lemma_pow2_mono(len as nat, (k + p) as nat);
                    lemma_pow2_adds(k as nat, p as nat);
                }
                let wk = pow2(k as nat) as int;
                let wp = pow2(p as nat) as int;
                assert(q0 < wp) by (nonlinear_arith)
                    requires
                        wk * q0 <= x,
                        x < wk * wp,
                        wk > 0,
                ;
            }
            let r: u128 = x - shl(q0, k);
            let half: u128 = shl(1, k - 1);
            if r < half || (r == half && q0 % 2 == 0) {
                q0
            } else {
                q0 + 1
            }
        }
    };
    proof {
        assert(q == half_even(n, d * pow2(j as nat)));
    }
    assert(j * w.hidden() <= 3210 * w.hidden()) by (nonlinear_arith)
        requires
            j <= 3210,
            w.hidden() > 0,
    ;
    assert(0 <= j * w.hidden()) by (nonlinear_arith)
        requires
            0 <= j,
            w.hidden() > 0,
    ;
    let r: u64 = j as u64 * w.get_hidden() + q as u64;
    if r < w.get_inf() {
        r
    } else {
        w.get_inf()
    }
}

/// A sign and the pattern of a magnitude: what the bits of a number hold.
#[derive(Clone, Copy, PartialEq, Eq, Structural, Debug)]
pub struct Parts {
    pub neg: bool,
    pub mag: u64,
}

/// The exponent of the spacing that a magnitude's pattern stands for.
pub open spec fn mag_exp(w: Width, mag: nat) -> nat {
    if mag < 2 * w.hidden() {
        0
    } else {
        (mag / w.hidden() - 1) as nat
    }
}

/// How many spacings a magnitude's pattern stands for.
pub open spec fn mag_man(w: Width, mag: nat) -> nat {
    (mag - mag_exp(w, mag) * w.hidden()) as nat
}

/// The magnitude that a pattern stands for, in units of the smallest positive
/// number.
pub open spec fn units(w: Width, mag: nat) -> nat {
    mag_man(w, mag) * pow2(mag_exp(w, mag))
}

/// The nearest pattern to `n / d` units.
pub open spec fn nearest(w: Width, n: nat, d: nat) -> u64 {
    round_mag(w.prec(), w.inf(), n, d) as u64
}

pub open spec fn is_nan(w: Width, a: Parts) -> bool {
    a.mag > w.inf()
}

pub open spec fn is_inf(w: Width, a: Parts) -> bool {
    a.mag == w.inf()
}

/// The quiet NaN that every invalid operation gives.
pub open spec fn nan(w: Width) -> Parts {
    Parts { neg: false, mag: (w.inf() + w.hidden() / 2) as u64 }
}

pub open spec fn signed(neg: bool, mag: u64) -> Parts {
    Parts { neg, mag }
}

pub open spec fn infinity(w: Width, neg: bool) -> Parts {
    Parts { neg, mag: w.inf() as u64 }
}

/// The number that a finite pattern stands for, in units.
pub open spec fn signed_units(w: Width, a: Parts) -> int {
    if a.neg {
        -(units(w, a.mag as nat) as int)
    } else {
        units(w, a.mag as nat) as int
    }
}

/// The sum of two numbers.
#[verifier::opaque]
pub open spec fn sum(w: Width, a: Parts, b: Parts) -> Parts {
    if is_nan(w, a) || is_nan(w, b) {
        nan(w)
    } else if is_inf(w, a) {
        if is_inf(w, b) && a.neg != b.neg {
            nan(w)
        } else {
            a
        }
    } else if is_inf(w, b) {
        b
    } else {
        let v = signed_units(w, a) + signed_units(w, b);
        if v == 0 {
            signed(a.neg && b.neg, 0)
        } else if v < 0 {
            signed(true, nearest(w, (-v) as nat, 1))
        } else {
            signed(false, nearest(w, v as nat, 1))
        }
    }
}

pub open spec fn negated(a: Parts) -> Parts {
    Parts { neg: !a.neg, mag: a.mag }
}

/// The difference of two numbers.
pub open spec fn difference(w: Width, a: Parts, b: Parts) -> Parts {
    sum(w, a, negated(b))
}

/// The product of two numbers.
#[verifier::opaque]
pub open spec fn product(w: Width, a: Parts, b: Parts) -> Parts {
    let neg = a.neg != b.neg;
    if is_nan(w, a) || is_nan(w, b) {
        nan(w)
    } else if is_inf(w, a) || is_inf(w, b) {
        if a.mag == 0 || b.mag == 0 {
            nan(w)
        } else {
            infinity(w, neg)
        }
    } else if a.mag == 0 || b.mag == 0 {
        signed(neg, 0)
    } else {
        signed(
            neg,
            nearest(w, units(w, a.mag as nat) * units(w, b.mag as nat), pow2(w.unit())),
        )
    }
}

/// The quotient of two numbers.
#[verifier::opaque]
pub open spec fn quotient(w: Width, a: Parts, b: Parts) -> Parts {
    let neg = a.neg != b.neg;
    if is_nan(w, a) || is_nan(w, b) {
        nan(w)
    } else if is_inf(w, a) {
        if is_inf(w, b) {
            nan(w)
        } else {
            infinity(w, neg)
        }
    } else if is_inf(w, b) {
        signed(neg, 0)
    } else if b.mag == 0 {
        if a.mag == 0 {
            nan(w)
        } else {
            infinity(w, neg)
        }
    } else if a.mag == 0 {
        signed(neg, 0)
    } else {
        signed(
            neg,
            nearest(w, units(w, a.mag as nat) * pow2(w.unit()), units(w, b.mag as nat)),
        )
    }
}

/// Rounding `x * 2^a / 2^b` is rounding `x * 2^(a - b)`.
proof fn lemma_scaled_ratio(p: nat, inf: nat, x: nat, a: nat, b: nat)
    ensures
        round_mag(p, inf, x * pow2(a), pow2(b)) == round_mag(
            p,
            inf,
            num2(x, a - b),
            den2(a - b),
        ),
{
    lemma_pow2_pos(a);
    lemma_pow2_pos(b);
    if a >= b {
        let e = (a - b) as nat;
        lemma_pow2_adds(e, b);
        lemma_mul_is_associative(x as int, pow2(e) as int, pow2(b) as int);
        lemma_round_cancel(p, inf, x * pow2(e), 1, pow2(b));
    } else {
        let e = (b - a) as nat;
        lemma_pow2_adds(e, a);
        lemma_pow2_pos(e);
        lemma_round_cancel(p, inf, x, pow2(e), pow2(a));
    }
}

/// A ratio equal to `q * 2^e` rounds like it.
proof fn lemma_exact(p: nat, inf: nat, n: nat, d: nat, q: nat, e: int)
    requires
        d > 0,
        n * den2(e) == num2(q, e) * d,
    ensures
        round_mag(p, inf, n, d) == round_mag(p, inf, num2(q, e), den2(e)),
{
    let c = den2(e);
    lemma_pow2_pos(if e >= 0 { 0 } else { (-e) as nat });
    lemma_round_cancel(p, inf, n, d, c);
    lemma_round_cancel(p, inf, num2(q, e), c, d);
    lemma_mul_is_commutative(c as int, d as int);
}

pub proof fn lemma_mag(w: Width, mag: nat)
    requires
        mag < w.inf(),
    ensures
        mag_exp(w, mag) <= 2045,
        mag_exp(w, mag) * w.hidden() <= mag,
        mag_man(w, mag) < 2 * w.hidden(),
        mag_exp(w, mag) == 0 || mag_man(w, mag) >= w.hidden(),
        mag_man(w, mag) == 0 <==> mag == 0,
        mag == mag_exp(w, mag) * w.hidden() + mag_man(w, mag),
{
    if mag >= 2 * w.hidden() {
        lemma_fundamental_div_mod(mag as int, w.hidden() as int);
    }
}

/// Rounding finds the nearest number: none is nearer to `n / d` units than the
/// one that the ratio is rounded to, unless that is out of range.
pub proof fn law_nearest_is_nearest(w: Width, n: nat, d: nat, other: nat)
    requires
        d > 0,
        round_mag(w.prec(), w.inf(), n, d) < w.inf(),
        other < w.inf(),
    ensures
        ({
            let x = units(w, nearest(w, n, d) as nat) * d;
            let y = units(w, other) * d;
            let gap = if x <= n {
                n - x
            } else {
                x - n
            };
            gap <= (if y <= n {
                n - y
            } else {
                y - n
            })
        }),
{
    let p = w.prec();
    let j = ulp(p, n, d);
    lemma_ulp_exists(p, n, d);
    lemma_hidden(w);
    lemma_pow2_pos(j);
    let e = pow2(j);
    let de = d * e;
    assert(de > 0) by (nonlinear_arith)
        requires
            de == d * e,
            d > 0,
            e > 0,
    ;
    let h = half_even(n, de);
    let m = j * w.hidden() + h;
    lemma_pow2_adds((p - 1) as nat, j);
    lemma_pow2_adds(p, j);
    assert(d * pow2(p + j) == (2 * w.hidden()) * de) by (nonlinear_arith)
        requires
            pow2(p + j) == (2 * w.hidden()) * e,
            de == d * e,
    ;
    if j > 0 {
        assert(d * pow2((p + j - 1) as nat) == w.hidden() * de) by (nonlinear_arith)
            requires
                pow2((p + j - 1) as nat) == w.hidden() * e,
                de == d * e,
        ;
    }
    lemma_half_even_range(n, de, if j > 0 { w.hidden() } else { 0 }, 2 * w.hidden());
    lemma_pattern_units(w, j, h);
    assert(units(w, m) * d == h * de) by (nonlinear_arith)
        requires
            units(w, m) == h * e,
            de == d * e,
    ;
    let (k, a) = (mag_exp(w, other), mag_man(w, other));
    lemma_mag(w, other);
    let y = units(w, other) * d;
    if k >= j {
        lemma_pow2_adds((k - j) as nat, j);
        let q = a * pow2((k - j) as nat);
        assert(y == q * de) by (nonlinear_arith)
            requires
                y == a * pow2(k) * d,
                pow2(k) == pow2((k - j) as nat) * e,
                q == a * pow2((k - j) as nat),
                de == d * e,
        ;
        lemma_half_even_nearest(n, de, q);
    } else {
        // A smaller spacing: the other number lies below the binade of the ratio.
        lemma_half_even_nearest(n, de, w.hidden());
        lemma_pow2_adds(p, k);
        lemma_pow2_mono(p + k, (p + j - 1) as nat);
        assert(y <= w.hidden() * de) by (nonlinear_arith)
            requires
                y == a * pow2(k) * d,
                a <= 2 * w.hidden(),
                (2 * w.hidden()) * pow2(k) <= w.hidden() * e,
                de == d * e,
                d > 0,
                pow2(k) >= 0,
        ;
    }
}

/// No integer is nearer to a ratio than the one that it is rounded to.
proof fn lemma_half_even_nearest(n: nat, d: nat, q: nat)
    requires
        d > 0,
    ensures
        ({
            let x = half_even(n, d) * d;
            let y = q * d;
            let gap = if x <= n {
                n - x
            } else {
                x - n
            };
            gap <= (if y <= n {
                n - y
            } else {
                y - n
            })
        }),
{
    let (f, r) = (n / d, n % d);
    lemma_fundamental_div_mod(n as int, d as int);
    assert(f * d == d * f) by (nonlinear_arith);
    assert((f + 1) * d == f * d + d) by (nonlinear_arith);
    if q <= f {
        assert(q * d <= f * d) by (nonlinear_arith)
            requires
                q <= f,
        ;
    } else {
        assert(q * d >= (f + 1) * d) by (nonlinear_arith)
            requires
                q >= f + 1,
        ;
    }
}

/// A ratio between two integers rounds to one between them.
pub proof fn lemma_half_even_range(n: nat, d: nat, lo: nat, hi: nat)
    requires
        d > 0,
        lo * d <= n,
        n < hi * d,
    ensures
        lo <= half_even(n, d) <= hi,
{
    let f = n / d;
    lemma_fundamental_div_mod(n as int, d as int);
    assert(lo <= f) by (nonlinear_arith)
        requires
            lo * d <= n,
            n == d * f + n % d,
            n % d < d,
            d > 0,
    ;
    assert(f < hi) by (nonlinear_arith)
        requires
            n < hi * d,
            n == d * f + n % d,
            0 <= n % d,
            d > 0,
    ;
}

/// The pattern that an exponent and a number of spacings make up stands for as
/// many units.
pub proof fn lemma_pattern_units(w: Width, j: nat, h: nat)
    requires
        h <= 2 * w.hidden(),
        j == 0 || h >= w.hidden(),
    ensures
        units(w, j * w.hidden() + h) == h * pow2(j),
        mag_exp(w, j * w.hidden() + h) >= j,
{
    let c = w.hidden();
    let m = j * c + h;
    if h == 2 * c {
        assert(m == (j + 2) * c) by (nonlinear_arith)
            requires
                m == j * c + 2 * c,
        ;
        lemma_fundamental_div_mod_converse(m as int, c as int, j as int + 2, 0);
        assert(m >= 2 * c) by (nonlinear_arith)
            requires
                m == (j + 2) * c,
        ;
        assert(mag_exp(w, m) == j + 1);
        assert((j + 2) * c - (j + 1) * c == c) by (nonlinear_arith);
        lemma2_to64();
        lemma_pow2_adds(1, j);
        assert(c * (2 * pow2(j)) == (2 * c) * pow2(j)) by (nonlinear_arith);
    } else if j > 0 {
        assert(m == (j + 1) * c + (h - c)) by (nonlinear_arith)
            requires
                m == j * c + h,
        ;
        lemma_fundamental_div_mod_converse(m as int, c as int, j as int + 1, h - c);
        assert(m >= 2 * c) by (nonlinear_arith)
            requires
                m == j * c + h,
                j >= 1,
                h >= c,
        ;
        assert(mag_exp(w, m) == j);
    } else {
        assert(m == h) by (nonlinear_arith)
            requires
                m == j * c + h,
                j == 0,
        ;
    }
}

/// A larger pattern stands for a larger magnitude.
pub proof fn lemma_units_ordered(w: Width, a: nat, b: nat)
    requires
        a < b < w.inf(),
    ensures
        units(w, a) < units(w, b),
{
    lemma_mag(w, a);
    lemma_mag(w, b);
    let (ja, ma) = (mag_exp(w, a), mag_man(w, a));
    let (jb, mb) = (mag_exp(w, b), mag_man(w, b));
    lemma_pow2_pos(ja);
    if ja == jb {
        lemma_mul_strict_inequality(ma as int, mb as int, pow2(ja) as int);
    } else {
        assert(ja < jb) by {
            if ja > jb {
                assert(ja * w.hidden() >= jb * w.hidden() + w.hidden()) by (nonlinear_arith)
                    requires
                        ja >= jb + 1,
                        w.hidden() > 0,
                ;
            }
        }
        lemma_pow2_mono((ja + 1) as nat, jb);
        lemma_pow2_unfold((ja + 1) as nat);
        assert(ma * pow2(ja) < mb * pow2(jb)) by (nonlinear_arith)
            requires
                ma < 2 * w.hidden(),
                mb >= w.hidden(),
                pow2(jb) >= 2 * pow2(ja),
                pow2(ja) > 0,
        ;
    }
}

/// Splits a finite magnitude into mantissa and exponent.
pub(crate) fn unpack(w: Width, mag: u64) -> (r: (u64, i32))
    requires
        mag < w.inf(),
    ensures
        r.0 == mag_man(w, mag as nat),
        r.1 == mag_exp(w, mag as nat),
        0 <= r.1 <= 2045,
        r.0 < 2 * w.hidden(),
        r.1 == 0 || r.0 >= w.hidden(),
        r.0 == 0 <==> mag == 0,
{
    proof {
        lemma_mag(w, mag as nat);
    }
    match w {
        Width::Single => {
            if mag < 0x100_0000 {
                (mag, 0)
            } else {
                let e: u64 = mag / 0x80_0000 - 1;
                (mag - e * 0x80_0000, e as i32)
            }
        },
        Width::Double => {
            if mag < 0x20_0000_0000_0000 {
                (mag, 0)
            } else {
                let e: u64 = mag / 0x10_0000_0000_0000 - 1;
                (mag - e * 0x10_0000_0000_0000, e as i32)
            }
        },
    }
}

pub(crate) fn make_nan(w: Width) -> (r: Parts)
    ensures
        r == nan(w),
{
    match w {
        Width::Single => Parts { neg: false, mag: 0x7fc0_0000 },
        Width::Double => Parts { neg: false, mag: 0x7ff8_0000_0000_0000 },
    }
}

/// Rounds a point strictly between `a * 2^s` and `(a + 1) * 2^s` units.
pub(crate) fn round_between(w: Width, a: u128, s: i32, Ghost(n): Ghost<nat>, Ghost(d): Ghost<nat>) -> (r: u64)
    requires
        d > 0,
        2 * w.hidden() <= a < 0x4000_0000_0000_0000_0000_0000_0000_0000,
        -2999 <= s <= 3101,
        a * pow2(if s >= 0 { s as nat } else { 0 }) * d < n * den2(s as int),
        n * den2(s as int) < (a + 1) * pow2(if s >= 0 { s as nat } else { 0 }) * d,
    ensures
        r == round_mag(w.prec(), w.inf(), n, d),
        r <= w.inf(),
{
    proof {
        lemma_hidden(w);
        lemma_sticky(w.prec(), w.inf(), n, d, a as nat, s as int);
    }
    round_scaled(w, 2 * a + 1, s - 1)
}

/// Rounds `n / d`, whose integral part in units of `2^e` is `q`; `exact` says
/// whether nothing is left over.
pub(crate) fn round_digits(
    w: Width,
    q: u128,
    e: i32,
    exact: bool,
    Ghost(n): Ghost<nat>,
    Ghost(d): Ghost<nat>,
) -> (r: u64)
    requires
        d > 0,
        2 * w.hidden() <= q < 0x4000_0000_0000_0000_0000_0000_0000_0000,
        -2999 <= e <= 3100,
        q * pow2(if e >= 0 { e as nat } else { 0 }) * d <= n * den2(e as int),
        n * den2(e as int) < (q + 1) * pow2(if e >= 0 { e as nat } else { 0 }) * d,
        exact == (q * pow2(if e >= 0 { e as nat } else { 0 }) * d == n * den2(e as int)),
    ensures
        r == round_mag(w.prec(), w.inf(), n, d),
        r <= w.inf(),
{
    if exact {
        proof {
            let pe = pow2(if e >= 0 { e as nat } else { 0 });
            if e < 0 {
                lemma2_to64();
                assert(q * pe == q) by (nonlinear_arith)
                    requires
                        pe == 1,
                ;
            }
            assert(num2(q as nat, e as int) == q * pe);
            lemma_exact(w.prec(), w.inf(), n, d, q as nat, e as int);
        }
        round_scaled(w, q, e)
    } else {
        round_between(w, q, e, Ghost(n), Ghost(d))
    }
}

/// Multiplies two numbers.
pub fn mul_parts(w: Width, a: Parts, b: Parts) -> (r: Parts)
    ensures
        r == product(w, a, b),
        r.mag < w.inf() + w.hidden(),
{
    proof {
        reveal(product);
    }
    let neg: bool = a.neg != b.neg;
    let inf: u64 = w.get_inf();
    if a.mag > inf || b.mag > inf {
        return make_nan(w);
    }
    if a.mag == inf || b.mag == inf {
        if a.mag == 0 || b.mag == 0 {
            return make_nan(w);
        }
        return Parts { neg, mag: inf };
    }
    if a.mag == 0 || b.mag == 0 {
        return Parts { neg, mag: 0 };
    }
    let (m1, j1) = unpack(w, a.mag);
    let (m2, j2) = unpack(w, b.mag);
    proof {
        assert(0 < m1 * m2 < 0x1_0000_0000_0000_0000_0000_0000_0000) by (nonlinear_arith)
            requires
                0 < m1 < 0x20_0000_0000_0000,
                0 < m2 < 0x20_0000_0000_0000,
        ;
        lemma_pow2_adds(j1 as nat, j2 as nat);
        let (p1, p2) = (pow2(j1 as nat) as int, pow2(j2 as nat) as int);
        assert((m1 * p1) * (m2 * p2) == (m1 * m2) * (p1 * p2)) by (nonlinear_arith);
        lemma_scaled_ratio(
            w.prec(),
            w.inf(),
            (m1 * m2) as nat,
            (j1 + j2) as nat,
            w.unit(),
        );
    }
    let mag: u64 = round_scaled(w, m1 as u128 * m2 as u128, j1 + j2 - w.get_unit());
    Parts { neg, mag }
}

/// Rounds `m1 * 2^j1 + m2 * 2^j2` units.
fn round_sum(w: Width, m1: u64, j1: i32, m2: u64, j2: i32) -> (r: u64)
    requires
        0 <= j2 <= j1 <= 2045,
        m1 < 2 * w.hidden(),
        m2 < 2 * w.hidden(),
        j1 == 0 || m1 >= w.hidden(),
        m1 > 0,
    ensures
        r == round_mag(
            w.prec(),
            w.inf(),
            (m1 * pow2(j1 as nat) + m2 * pow2(j2 as nat)) as nat,
            1,
        ),
        r <= w.inf(),
{
    let diff: u32 = (j1 - j2) as u32;
    let ghost n = (m1 * pow2(j1 as nat) + m2 * pow2(j2 as nat)) as nat;
    proof {
        lemma_pow2_pos(j1 as nat);
        lemma_pow2_pos(j2 as nat);
        lemma_hidden(w);
    }
    if diff <= 64 {
        proof {
            lemma2_to64();
            lemma_pow2_mono(diff as nat, 64);
            lemma_pow2_adds(diff as nat, j2 as nat);
            let (pd, p2) = (pow2(diff as nat) as int, pow2(j2 as nat) as int);
            assert(m1 * (pd * p2) + m2 * p2 == (m1 * pd + m2) * p2) by (nonlinear_arith);
            assert(0 < m1 * pd <= 0x20_0000_0000_0000 * 0x1_0000_0000_0000_0000) by (nonlinear_arith)
                requires
                    0 < m1 <= 0x20_0000_0000_0000,
                    0 < pd <= 0x1_0000_0000_0000_0000,
            ;
            assert(num2((m1 * pd + m2) as nat, j2 as int) == n);
        }
        let x: u128 = shl(m1 as u128, diff) + m2 as u128;
        round_scaled(w, x, j2)
    } else if m2 == 0 {
        proof {
            assert(0 * pow2(j2 as nat) == 0);
        }
        round_scaled(w, m1 as u128, j1)
    } else {
        let ghost a = (4 * m1) as nat;
        let ghost s = (j1 - 2) as nat;
        proof {
            lemma_small_tail(w, m2 as nat, j2 as nat, j1 as nat);
            lemma_pow2_unfold(j1 as nat);
            lemma_pow2_unfold((j1 - 1) as nat);
            let ps = pow2(s) as int;
            assert(pow2(j1 as nat) == 4 * ps);
            assert(a * ps == m1 * (4 * ps)) by (nonlinear_arith)
                requires
                    a == 4 * m1,
            ;
            assert((a + 1) * ps == a * ps + ps) by (nonlinear_arith);
            assert(n == a * ps + m2 * pow2(j2 as nat));
            assert(a * ps * 1 < n * 1 < (a + 1) * ps * 1);
        }
        round_between(w, 4 * m1 as u128, j1 - 2, Ghost(n), Ghost(1))
    }
}

/// A mantissa more than 64 binary places below `2^j1` adds less than a quarter of it.
proof fn lemma_small_tail(w: Width, m2: nat, j2: nat, j1: nat)
    requires
        0 < m2 < 2 * w.hidden(),
        j1 > j2 + 64,
    ensures
        0 < m2 * pow2(j2) < pow2((j1 - 2) as nat),
{
    lemma_hidden(w);
    lemma_pow2_pos(j2);
    lemma_pow2_adds(w.prec(), j2);
    lemma_mul_strict_inequality(m2 as int, pow2(w.prec()) as int, pow2(j2) as int);
    lemma_pow2_mono(w.prec() + j2, (j1 - 2) as nat);
    lemma_mul_strictly_positive(m2 as int, pow2(j2) as int);
}

/// Rounds `m1 * 2^j1 - m2 * 2^j2` units, where that is positive.
fn round_difference(w: Width, m1: u64, j1: i32, m2: u64, j2: i32) -> (r: u64)
    requires
        0 <= j2 <= j1 <= 2045,
        m1 < 2 * w.hidden(),
        m2 < 2 * w.hidden(),
        j1 == 0 || m1 >= w.hidden(),
        m1 * pow2(j1 as nat) > m2 * pow2(j2 as nat),
    ensures
        r == round_mag(
            w.prec(),
            w.inf(),
            (m1 * pow2(j1 as nat) - m2 * pow2(j2 as nat)) as nat,
            1,
        ),
        r <= w.inf(),
{
    let diff: u32 = (j1 - j2) as u32;
    let ghost n = (m1 * pow2(j1 as nat) - m2 * pow2(j2 as nat)) as nat;
    proof {
        lemma_pow2_pos(j1 as nat);
        lemma_pow2_pos(j2 as nat);
        lemma_hidden(w);
        assert(m1 > 0) by {
            if m1 == 0 {
                assert(m2 * pow2(j2 as nat) >= 0) by (nonlinear_arith)
                    requires
                        m2 >= 0,
                        pow2(j2 as nat) > 0,
                ;
                assert(0 * pow2(j1 as nat) == 0);
            }
        }
    }
    if diff <= 64 {
        proof {
            lemma2_to64();
            lemma_pow2_mono(diff as nat, 64);
            lemma_pow2_adds(diff as nat, j2 as nat);
            let (pd, p2) = (pow2(diff as nat) as int, pow2(j2 as nat) as int);
            assert(m1 * (pd * p2) - m2 * p2 == (m1 * pd - m2) * p2) by (nonlinear_arith);
            assert(0 < m1 * pd <= 0x20_0000_0000_0000 * 0x1_0000_0000_0000_0000) by (nonlinear_arith)
                requires
                    0 < m1 <= 0x20_0000_0000_0000,
                    0 < pd <= 0x1_0000_0000_0000_0000,
            ;
            assert(m1 * pd - m2 > 0) by (nonlinear_arith)
                requires
                    (m1 * pd - m2) * p2 > 0,
                    p2 > 0,
            ;
            assert(num2((m1 * pd - m2) as nat, j2 as int) == n);
        }
        let x: u128 = shl(m1 as u128, diff) - m2 as u128;
        round_scaled(w, x, j2)
    } else if m2 == 0 {
        proof {
            assert(0 * pow2(j2 as nat) == 0);
        }
        round_scaled(w, m1 as u128, j1)
    } else {
        let ghost a = (4 * m1 - 1) as nat;
        let ghost s = (j1 - 2) as nat;
        proof {
            lemma_small_tail(w, m2 as nat, j2 as nat, j1 as nat);
            lemma_pow2_unfold(j1 as nat);
            lemma_pow2_unfold((j1 - 1) as nat);
            let ps = pow2(s) as int;
            assert(pow2(j1 as nat) == 4 * ps);
            assert((a + 1) * ps == m1 * (4 * ps)) by (nonlinear_arith)
                requires
                    a == 4 * m1 - 1,
            ;
            assert((a + 1) * ps == a * ps + ps) by (nonlinear_arith);
            assert(n == (a + 1) * ps - m2 * pow2(j2 as nat));
            assert(a * ps * 1 < n * 1 < (a + 1) * ps * 1);
        }
        round_between(w, 4 * m1 as u128 - 1, j1 - 2, Ghost(n), Ghost(1))
    }
}

/// Adds two numbers.
pub fn add_parts(w: Width, a: Parts, b: Parts) -> (r: Parts)
    ensures
        r == sum(w, a, b),
        r.mag < w.inf() + w.hidden(),
{
    proof {
        reveal(sum);
    }
    let inf: u64 = w.get_inf();
    if a.mag > inf || b.mag > inf {
        return make_nan(w);
    }
    if a.mag == inf {
        if b.mag == inf && a.neg != b.neg {
            return make_nan(w);
        }
        return a;
    }
    if b.mag == inf {
        return b;
    }
    // `x` is the one with the larger magnitude
    let (x, y) = if a.mag >= b.mag {
        (a, b)
    } else {
        (b, a)
    };
    let (m1, j1) = unpack(w, x.mag);
    let (m2, j2) = unpack(w, y.mag);
    proof {
        let (ux, uy) = (units(w, x.mag as nat), units(w, y.mag as nat));
        if y.mag < x.mag {
            lemma_units_ordered(w, y.mag as nat, x.mag as nat);
        }
        lemma_mag(w, x.mag as nat);
        lemma_mag(w, y.mag as nat);
        lemma_pow2_pos(j1 as nat);
        lemma_pow2_pos(j2 as nat);
        assert(j2 <= j1) by {
            if j2 > j1 {
                assert(j2 * w.hidden() >= j1 * w.hidden() + w.hidden()) by (nonlinear_arith)
                    requires
                        j2 >= j1 + 1,
                        w.hidden() > 0,
                ;
            }
        }
        assert(ux >= uy);
        assert(m1 == 0 ==> ux == 0) by (nonlinear_arith)
            requires
                ux == m1 * pow2(j1 as nat),
        ;
        assert(m1 > 0 ==> ux > 0) by (nonlinear_arith)
            requires
                ux == m1 * pow2(j1 as nat),
                pow2(j1 as nat) > 0,
        ;
        assert(uy >= 0);
        assert(signed_units(w, a) + signed_units(w, b) == signed_units(w, x) + signed_units(w, y));
    }
    if x.neg == y.neg {
        if x.mag == 0 {
            Parts { neg: x.neg, mag: 0 }
        } else {
            Parts { neg: x.neg, mag: round_sum(w, m1, j1, m2, j2) }
        }
    } else if x.mag == y.mag {
        Parts { neg: false, mag: 0 }
    } else {
        Parts { neg: x.neg, mag: round_difference(w, m1, j1, m2, j2) }
    }
}

/// Subtracts one number from another.
pub fn sub_parts(w: Width, a: Parts, b: Parts) -> (r: Parts)
    ensures
        r == difference(w, a, b),
        r.mag < w.inf() + w.hidden(),
{
    add_parts(w, a, Parts { neg: !b.neg, mag: b.mag })
}

/// Long division to `q` with remainder `r` places the quotient of two numbers.
pub(crate) proof fn lemma_quotient(w: Width, m1: nat, j1: nat, m2: nat, j2: nat, q: nat, r: nat, t: nat)
    requires
        m2 > 0,
        m1 * pow2(t) == q * m2 + r,
    ensures
        ({
            let e = j1 + w.unit() - j2 - t;
            (m1 * pow2(j1)) * pow2(w.unit()) * den2(e) == (q * m2 + r) * pow2(j2) * pow2(
                if e >= 0 { e as nat } else { 0 },
            )
        }),
{
    let e = j1 + w.unit() - j2 - t;
    let u = w.unit();
    lemma_pow2_adds(j1, u);
    let (pt, p2) = (pow2(t) as int, pow2(j2) as int);
    let pju = pow2(j1 + u) as int;
    lemma2_to64();
    assert((m1 * pow2(j1)) * pow2(u) == m1 * pju) by {
        lemma_mul_is_associative(m1 as int, pow2(j1) as int, pow2(u) as int);
    }
    lemma_pow2_adds(t, j2);
    if e >= 0 {
        let pe = pow2(e as nat) as int;
        lemma_pow2_adds(t + j2, e as nat);
        assert(t + j2 + e as nat == j1 + u);
        assert(m1 * ((pt * p2) * pe) == (m1 * pt) * p2 * pe) by (nonlinear_arith);
        let de = den2(e) as int;
        assert((m1 * pju) * de == m1 * pju) by (nonlinear_arith)
            requires
                de == 1,
        ;
    } else {
        let pe = pow2((-e) as nat) as int;
        lemma_pow2_adds(j1 + u, (-e) as nat);
        assert(j1 + u + (-e) as nat == t + j2);
        assert(m1 * pju * pe == m1 * (pju * pe)) by (nonlinear_arith);
        assert(m1 * (pt * p2) == (m1 * pt) * p2) by (nonlinear_arith);
        let one = pow2(0) as int;
        let x = (q * m2 + r) * p2;
        assert(x * one == x) by (nonlinear_arith)
            requires
                one == 1,
        ;
    }
}

/// Rounds the quotient of `m1 * 2^j1` by `m2 * 2^j2`.
fn round_quotient(w: Width, m1: u64, j1: i32, m2: u64, j2: i32) -> (r: u64)
    requires
        0 <= j1 <= 2045,
        0 <= j2 <= 2045,
        0 < m1 < 2 * w.hidden(),
        0 < m2 < 2 * w.hidden(),
    ensures
        r == round_mag(
            w.prec(),
            w.inf(),
            (m1 * pow2(j1 as nat)) as nat * pow2(w.unit()),
            (m2 * pow2(j2 as nat)) as nat,
        ),
        r <= w.inf(),
{
    let p: u32 = w.get_prec();
    let len: u32 = bit_length(m1 as u128);
    proof {
        lemma_hidden(w);
        if len > p {
            lemma_pow2_mono(p as nat, (len - 1) as nat);
        }
    }
    let k: u32 = p - len;
    let t: u32 = k + p + 3;
    proof {
        // 2^(2p + 2) <= m1 * 2^t < 2^(2p + 3)
        lemma_pow2_adds(len as nat, t as nat);
        lemma_pow2_adds((len - 1) as nat, t as nat);
        lemma_pow2_pos(t as nat);
        lemma_mul_strict_inequality(m1 as int, pow2(len as nat) as int, pow2(t as nat) as int);
        lemma_mul_inequality(pow2((len - 1) as nat) as int, m1 as int, pow2(t as nat) as int);
        lemma_pow2_127((len + t) as nat);
        assert((len - 1) as nat + t as nat == (2 * p + 2) as nat);
        lemma_pow2_adds((p + 2) as nat, p as nat);
    }
    let num: u128 = shl(m1 as u128, t);
    let q: u128 = num / m2 as u128;
    let r: u128 = num % m2 as u128;
    let e: i32 = j1 + w.get_unit() - j2 - t as i32;
    let ghost n = (m1 * pow2(j1 as nat)) as nat * pow2(w.unit());
    let ghost d = (m2 * pow2(j2 as nat)) as nat;
    let ghost pe = pow2(if e >= 0 { e as nat } else { 0 });
    proof {
        lemma_fundamental_div_mod(num as int, m2 as int);
        lemma_mul_is_commutative(q as int, m2 as int);
        lemma_quotient(
            w,
            m1 as nat,
            j1 as nat,
            m2 as nat,
            j2 as nat,
            q as nat,
            r as nat,
            t as nat,
        );
        lemma_pow2_pos(j2 as nat);
        lemma_pow2_pos(if e >= 0 { e as nat } else { 0 });
        lemma_mul_strictly_positive(m2 as int, pow2(j2 as nat) as int);
        let p2 = pow2(j2 as nat) as int;
        assert((q * m2 + r) * p2 * pe == q * pe * (m2 * p2) + r * (p2 * pe)) by (nonlinear_arith);
        assert((q + 1) * pe * (m2 * p2) == q * pe * (m2 * p2) + m2 * (p2 * pe)) by (nonlinear_arith);
        lemma_mul_strictly_positive(p2, pe as int);
        // q > 2^p
        let wp = pow2(p as nat) as int;
        let wq = pow2((p + 2) as nat) as int;
        lemma_pow2_pos((p + 2) as nat);
        assert(q >= wq) by (nonlinear_arith)
            requires
                num == m2 * q + r,
                r < m2,
                m2 < wp,
                num >= wq * wp,
                wq > 0,
        ;
        lemma_pow2_mono(p as nat, (p + 2) as nat);
        assert(q <= num) by (nonlinear_arith)
            requires
                num == m2 * q + r,
                r >= 0,
                m2 >= 1,
        ;
        lemma_pow2_127(109);
        lemma2_to64();
        lemma2_to64_rest();
        lemma_pow2_adds(64, 45);
        lemma_pow2_mono((len + t) as nat, 109);
    }
    proof {
        let p2 = pow2(j2 as nat) as int;
        assert(0 <= r * (p2 * pe) < m2 * (p2 * pe)) by (nonlinear_arith)
            requires
                0 <= r < m2,
                p2 * pe > 0,
        ;
        assert(r == 0 <==> r * (p2 * pe) == 0) by (nonlinear_arith)
            requires
                p2 * pe > 0,
        ;
    }
    round_digits(w, q, e, r == 0, Ghost(n), Ghost(d))
}

/// Divides one number by another.
pub fn div_parts(w: Width, a: Parts, b: Parts) -> (r: Parts)
    ensures
        r == quotient(w, a, b),
        r.mag < w.inf() + w.hidden(),
{
    proof {
        reveal(quotient);
    }
    let neg: bool = a.neg != b.neg;
    let inf: u64 = w.get_inf();
    if a.mag > inf || b.mag > inf {
        return make_nan(w);
    }
    if a.mag == inf {
        if b.mag == inf {
            return make_nan(w);
        }
        return Parts { neg, mag: inf };
    }
    if b.mag == inf {
        return Parts { neg, mag: 0 };
    }
    if b.mag == 0 {
        if a.mag == 0 {
            return make_nan(w);
        }
        return Parts { neg, mag: inf };
    }
    if a.mag == 0 {
        return Parts { neg, mag: 0 };
    }
    let (m1, j1) = unpack(w, a.mag);
    let (m2, j2) = unpack(w, b.mag);
    Parts { neg, mag: round_quotient(w, m1, j1, m2, j2) }
}

/// The number nearest to an integer.
#[verifier::opaque]
pub open spec fn of_int(w: Width, n: int) -> Parts {
    if n == 0 {
        signed(false, 0)
    } else {
        let a = (if n < 0 { -n } else { n }) as nat;
        signed(n < 0, nearest(w, a * pow2(w.unit()), 1))
    }
}

/// Converts an unsigned integer.
pub fn from_u64(w: Width, n: u64) -> (r: Parts)
    ensures
        r == of_int(w, n as int),
        r.mag <= w.inf(),
{
    proof {
        reveal(of_int);
        lemma2_to64();
        lemma_scaled_ratio(w.prec(), w.inf(), n as nat, w.unit(), 0);
    }
    if n == 0 {
        Parts { neg: false, mag: 0 }
    } else {
        Parts { neg: false, mag: round_scaled(w, n as u128, w.get_unit()) }
    }
}

/// Converts a signed integer.
pub fn from_i64(w: Width, n: i64) -> (r: Parts)
    ensures
        r == of_int(w, n as int),
        r.mag <= w.inf(),
{
    proof {
        reveal(of_int);
    }
    if n >= 0 {
        from_u64(w, n as u64)
    } else {
        let a: u64 = (-(n + 1)) as u64 + 1;
        let r: Parts = from_u64(w, a);
        Parts { neg: true, mag: r.mag }
    }
}

/// A single-precision number as a double-precision one.
#[verifier::opaque]
pub open spec fn widened(a: Parts) -> Parts {
    if is_nan(Width::Single, a) {
        nan(Width::Double)
    } else if is_inf(Width::Single, a) {
        infinity(Width::Double, a.neg)
    } else if a.mag == 0 {
        a
    } else {
        signed(
            a.neg,
            nearest(Width::Double, units(Width::Single, a.mag as nat) * pow2((1074 - 149) as nat), 1),
        )
    }
}

/// The single-precision number nearest to a double-precision one.
#[verifier::opaque]
pub open spec fn narrowed(a: Parts) -> Parts {
    if is_nan(Width::Double, a) {
        nan(Width::Single)
    } else if is_inf(Width::Double, a) {
        infinity(Width::Single, a.neg)
    } else if a.mag == 0 {
        a
    } else {
        signed(
            a.neg,
            nearest(Width::Single, units(Width::Double, a.mag as nat), pow2((1074 - 149) as nat)),
        )
    }
}

pub fn widen_parts(a: Parts) -> (r: Parts)
    ensures
        r == widened(a),
        r.mag < Width::Double.inf() + Width::Double.hidden(),
{
    proof {
        reveal(widened);
    }
    if a.mag > 0x7f80_0000 {
        return make_nan(Width::Double);
    }
    if a.mag == 0x7f80_0000 {
        return Parts { neg: a.neg, mag: 0x7ff0_0000_0000_0000 };
    }
    if a.mag == 0 {
        return a;
    }
    let (m, j) = unpack(Width::Single, a.mag);
    proof {
        lemma2_to64();
        let (pj, pd) = (pow2(j as nat) as int, pow2(925) as int);
        lemma_pow2_adds(j as nat, 925);
        assert((m * pj) * pd == m * (pj * pd)) by (nonlinear_arith);
        lemma_scaled_ratio(
            Width::Double.prec(),
            Width::Double.inf(),
            m as nat,
            (j + 925) as nat,
            0,
        );
    }
    Parts { neg: a.neg, mag: round_scaled(Width::Double, m as u128, j + 925) }
}

pub fn narrow_parts(a: Parts) -> (r: Parts)
    ensures
        r == narrowed(a),
        r.mag < Width::Single.inf() + Width::Single.hidden(),
{
    proof {
        reveal(narrowed);
    }
    if a.mag > 0x7ff0_0000_0000_0000 {
        return make_nan(Width::Single);
    }
    if a.mag == 0x7ff0_0000_0000_0000 {
        return Parts { neg: a.neg, mag: 0x7f80_0000 };
    }
    if a.mag == 0 {
        return a;
    }
    let (m, j) = unpack(Width::Double, a.mag);
    proof {
        lemma_scaled_ratio(
            Width::Single.prec(),
            Width::Single.inf(),
            m as nat,
            j as nat,
            925,
        );
    }
    Parts { neg: a.neg, mag: round_scaled(Width::Single, m as u128, j - 925) }
}

/// Where a comparison puts a number: patterns are in the order of magnitudes.
pub open spec fn rank(a: Parts) -> int {
    if a.neg {
        -(a.mag as int)
    } else {
        a.mag as int
    }
}

/// `a < b`: false when either is not a number.
pub open spec fn less(w: Width, a: Parts, b: Parts) -> bool {
    !is_nan(w, a) && !is_nan(w, b) && rank(a) < rank(b)
}

/// `a <= b`: false when either is not a number.
pub open spec fn less_or_equal(w: Width, a: Parts, b: Parts) -> bool {
    !is_nan(w, a) && !is_nan(w, b) && rank(a) <= rank(b)
}

/// `a == b`: false when either is not a number; the two zeros are equal.
pub open spec fn equal(w: Width, a: Parts, b: Parts) -> bool {
    !is_nan(w, a) && !is_nan(w, b) && rank(a) == rank(b)
}

fn rank_of(a: Parts) -> (r: i128)
    ensures
        r == rank(a),
{
    if a.neg {
        -(a.mag as i128)
    } else {
        a.mag as i128
    }
}

pub fn less_parts(w: Width, a: Parts, b: Parts) -> (r: bool)
    ensures
        r == less(w, a, b),
{
    a.mag <= w.get_inf() && b.mag <= w.get_inf() && rank_of(a) < rank_of(b)
}

pub fn less_or_equal_parts(w: Width, a: Parts, b: Parts) -> (r: bool)
    ensures
        r == less_or_equal(w, a, b),
{
    a.mag <= w.get_inf() && b.mag <= w.get_inf() && rank_of(a) <= rank_of(b)
}

pub fn equal_parts(w: Width, a: Parts, b: Parts) -> (r: bool)
    ensures
        r == equal(w, a, b),
{
    a.mag <= w.get_inf() && b.mag <= w.get_inf() && rank_of(a) == rank_of(b)
}

/// Which integer next to a number is meant.
#[derive(Clone, Copy, PartialEq, Eq, Structural, Debug)]
pub enum Toward {
    /// The next integer down.
    Floor,
    /// The next integer up.
    Ceil,
    /// The nearest integer, halves away from zero.
    Nearest,
    /// The next integer toward zero.
    Zero,
}

/// The integer next to `n / d`.
pub open spec fn integral(to: Toward, n: int, d: int) -> int {
    match to {
        Toward::Floor => n / d,
        Toward::Ceil => -((-n) / d),
        Toward::Nearest => if n >= 0 {
            (2 * n + d) / (2 * d)
        } else {
            -((-2 * n + d) / (2 * d))
        },
        Toward::Zero => if n >= 0 {
            n / d
        } else {
            -((-n) / d)
        },
    }
}

pub open spec fn clamp(v: int, lo: int, hi: int) -> int {
    if v < lo {
        lo
    } else if v > hi {
        hi
    } else {
        v
    }
}

/// A number as an integer between `lo` and `hi`: 0 when it is not a number,
/// the nearer end of the range when it is out of it.
#[verifier::opaque]
pub open spec fn to_int(w: Width, a: Parts, to: Toward, lo: int, hi: int) -> int {
    if is_nan(w, a) {
        0
    } else if is_inf(w, a) {
        if a.neg {
            lo
        } else {
            hi
        }
    } else {
        clamp(integral(to, signed_units(w, a), pow2(w.unit()) as int), lo, hi)
    }
}

/// The integer next to a number whose magnitude is `u / d == q + r / d`.
proof fn lemma_integral(to: Toward, neg: bool, u: int, d: int, q: int, r: int)
    requires
        d > 0,
        u == q * d + r,
        0 <= r < d,
        0 <= q,
    ensures
        ({
            let away = match to {
                Toward::Floor => neg && r > 0,
                Toward::Ceil => !neg && r > 0,
                Toward::Nearest => 2 * r >= d,
                Toward::Zero => false,
            };
            let v = if away {
                q + 1
            } else {
                q
            };
            integral(to, if neg { -u } else { u }, d) == if neg { -v } else { v }
        }),
{
    lemma_fundamental_div_mod_converse(u, d, q, r);
    if r > 0 {
        assert(-u == (-q - 1) * d + (d - r)) by (nonlinear_arith)
            requires
                u == q * d + r,
        ;
        lemma_fundamental_div_mod_converse(-u, d, -q - 1, d - r);
    } else {
        assert(-u == (-q) * d + 0) by (nonlinear_arith)
            requires
                u == q * d + r,
                r == 0,
        ;
        lemma_fundamental_div_mod_converse(-u, d, -q, 0);
    }
    if 2 * r >= d {
        assert(2 * u + d == (q + 1) * (2 * d) + (2 * r - d)) by (nonlinear_arith)
            requires
                u == q * d + r,
        ;
        lemma_fundamental_div_mod_converse(2 * u + d, 2 * d, q + 1, 2 * r - d);
    } else {
        assert(2 * u + d == q * (2 * d) + (2 * r + d)) by (nonlinear_arith)
            requires
                u == q * d + r,
        ;
        lemma_fundamental_div_mod_converse(2 * u + d, 2 * d, q, 2 * r + d);
    }
    assert(u >= 0) by (nonlinear_arith)
        requires
            u == q * d + r,
            q >= 0,
            d > 0,
            r >= 0,
    ;
}

/// Converts a number to an integer between `lo` and `hi`.
pub fn parts_to_int(w: Width, a: Parts, to: Toward, lo: i128, hi: i128) -> (r: i128)
    requires
        -0x1_0000_0000_0000_0000 <= lo <= 0 <= hi <= 0x1_0000_0000_0000_0000,
    ensures
        r == to_int(w, a, to, lo as int, hi as int),
        lo <= r <= hi,
{
    proof {
        reveal(to_int);
    }
    if a.mag > w.get_inf() {
        return 0;
    }
    if a.mag == w.get_inf() {
        return if a.neg {
            lo
        } else {
            hi
        };
    }
    let (m, j) = unpack(w, a.mag);
    let s: i32 = j - w.get_unit();
    let ghost u = units(w, a.mag as nat) as int;
    let ghost d = pow2(w.unit()) as int;
    proof {
        lemma_pow2_pos(w.unit());
        lemma_pow2_pos(j as nat);
    }
    let (q, inexact, half): (u128, bool, bool) = if s >= 0 {
        proof {
            lemma_pow2_pos(s as nat);
            lemma_pow2_adds(s as nat, w.unit());
            let (ps, pu) = (pow2(s as nat) as int, d);
            assert(m * (ps * pu) == (m * ps) * pu) by (nonlinear_arith);
            assert(u == (m * ps) * d + 0);
            lemma_integral(to, a.neg, u, d, m * ps, 0);
        }
        if s > 60 {
            proof {
                lemma2_to64();
                lemma2_to64_rest();
                lemma_pow2_mono(61, s as nat);
                let ps = pow2(s as nat) as int;
                assert(m * ps > 0x1_0000_0000_0000_0000) by (nonlinear_arith)
                    requires
                        m >= 0x80_0000,
                        ps >= 0x2000_0000_0000_0000,
                ;
            }
            return if a.neg {
                lo
            } else {
                hi
            };
        }
        proof {
            lemma2_to64();
            lemma2_to64_rest();
            lemma_pow2_mono(s as nat, 60);
            let ps = pow2(s as nat) as int;
            assert(m * ps <= 0x20_0000_0000_0000 * 0x1000_0000_0000_0000) by (nonlinear_arith)
                requires
                    0 <= m <= 0x20_0000_0000_0000,
                    0 < ps <= 0x1000_0000_0000_0000,
            ;
        }
        (shl(m as u128, s as u32), false, false)
    } else {
        let k: u32 = (-s) as u32;
        proof {
            lemma_pow2_pos(k as nat);
            lemma_pow2_adds(k as nat, j as nat);
            let (pk, pj) = (pow2(k as nat) as int, pow2(j as nat) as int);
            let q = m as int / pk;
            let r = m as int % pk;
            lemma_fundamental_div_mod(m as int, pk);
            assert(m * pj == q * (pk * pj) + r * pj) by (nonlinear_arith)
                requires
                    m == pk * q + r,
            ;
            assert(0 <= r * pj < pk * pj) by (nonlinear_arith)
                requires
                    0 <= r < pk,
                    pj > 0,
            ;
            assert(q >= 0) by (nonlinear_arith)
                requires
                    m == pk * q + r,
                    m >= 0,
                    r < pk,
                    pk > 0,
            ;
            lemma_integral(to, a.neg, u, d, q, r * pj);
            assert((r * pj > 0) == (r > 0)) by (nonlinear_arith)
                requires
                    pj > 0,
                    r >= 0,
            ;
            assert((2 * (r * pj) >= pk * pj) == (2 * r >= pk)) by (nonlinear_arith)
                requires
                    pj > 0,
            ;
        }
        if k >= 64 {
            proof {
                lemma2_to64();
                lemma_pow2_mono(64, k as nat);
                vstd::arithmetic::div_mod::lemma_basic_div(m as int, pow2(k as nat) as int);
                vstd::arithmetic::div_mod::lemma_small_mod(m as nat, pow2(k as nat));
            }
            (0, m > 0, false)
        } else {
            let q: u128 = shr(m as u128, k);
            proof {
                lemma_pow2_127(k as nat);
                lemma_pow2_127((k - 1) as nat);
                lemma_pow2_unfold(k as nat);
                lemma_mul_is_commutative(q as int, pow2(k as nat) as int);
                vstd::arithmetic::div_mod::lemma_div_nonincreasing(m as int, pow2(k as nat) as int);
            }
            let r: u128 = m as u128 - shl(q, k);
            let h: u128 = shl(1, k - 1);
            (q, r > 0, r >= h)
        }
    };
    let away: bool = match to {
        Toward::Floor => a.neg && inexact,
        Toward::Ceil => !a.neg && inexact,
        Toward::Nearest => half,
        Toward::Zero => false,
    };
    let v: i128 = if away {
        q as i128 + 1
    } else {
        q as i128
    };
    let sv: i128 = if a.neg {
        -v
    } else {
        v
    };
    if sv < lo {
        lo
    } else if sv > hi {
        hi
    } else {
        sv
    }
}

} // verus!
