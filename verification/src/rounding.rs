//! Rounding exact ratios to binary floating point.
//!
//! A binary format with `p` bits of precision holds, in units of its smallest
//! positive number, the integers `m * 2^j` with `m < 2^p`. The magnitudes are
//! numbered in order, and the number of a magnitude is its bit pattern, so
//! rounding a ratio means finding the pattern of the nearest magnitude.

use vstd::arithmetic::div_mod::{lemma_fundamental_div_mod, lemma_fundamental_div_mod_converse};
use vstd::arithmetic::mul::{
    lemma_mul_inequality, lemma_mul_is_commutative, lemma_mul_strict_inequality,
    lemma_mul_strictly_positive,
};
use vstd::arithmetic::power2::{
    lemma_pow2_adds, lemma_pow2_pos, lemma_pow2_strictly_increases, lemma_pow2_unfold, pow2,
};
use vstd::prelude::*;

verus! {

/// The integer nearest to `n / d`; of two equally near, the even one.
pub open spec fn half_even(n: nat, d: nat) -> nat {
    let q = n / d;
    let r = n % d;
    if 2 * r < d || (2 * r == d && q % 2 == 0) {
        q
    } else {
        (q + 1) as nat
    }
}

/// `2^j` is the spacing of the `p`-bit magnitudes around `n / d`: the ratio is
/// below `2^(p + j)`, and no smaller spacing reaches it.
pub open spec fn is_ulp(p: nat, n: nat, d: nat, j: nat) -> bool {
    &&& n < d * pow2(p + j)
    &&& j == 0 || d * pow2((p + j - 1) as nat) <= n
}

/// The exponent of the spacing of the `p`-bit magnitudes around `n / d`.
pub open spec fn ulp(p: nat, n: nat, d: nat) -> nat {
    choose|j: nat| is_ulp(p, n, d, j)
}

/// The bit pattern of the `p`-bit magnitude nearest to `n / d` units, ties to
/// the even pattern; `inf`, the pattern of infinity, when that is out of range.
pub open spec fn round_mag(p: nat, inf: nat, n: nat, d: nat) -> nat {
    let j = ulp(p, n, d);
    let r = j * pow2((p - 1) as nat) + half_even(n, d * pow2(j));
    if r < inf {
        r as nat
    } else {
        inf
    }
}

/// Numerator of `x * 2^s`.
pub open spec fn num2(x: nat, s: int) -> nat {
    if s >= 0 {
        x * pow2(s as nat)
    } else {
        x
    }
}

/// Denominator of `x * 2^s`.
pub open spec fn den2(s: int) -> nat {
    if s >= 0 {
        1
    } else {
        pow2((-s) as nat)
    }
}

pub proof fn lemma_pow2_mono(a: nat, b: nat)
    requires
        a <= b,
    ensures
        0 < pow2(a) <= pow2(b),
{
    lemma_pow2_pos(a);
    if a < b {
        lemma_pow2_strictly_increases(a, b);
    }
}

/// At most one exponent is the spacing's.
pub proof fn lemma_ulp_is(p: nat, n: nat, d: nat, j: nat)
    requires
        d > 0,
        is_ulp(p, n, d, j),
    ensures
        ulp(p, n, d) == j,
{
    let k = ulp(p, n, d);
    assert(is_ulp(p, n, d, k));
    if k < j {
        lemma_pow2_mono(p + k, (p + j - 1) as nat);
        lemma_mul_inequality(pow2(p + k) as int, pow2((p + j - 1) as nat) as int, d as int);
        lemma_mul_is_commutative(pow2(p + k) as int, d as int);
        lemma_mul_is_commutative(pow2((p + j - 1) as nat) as int, d as int);
    } else if j < k {
        lemma_pow2_mono(p + j, (p + k - 1) as nat);
        lemma_mul_inequality(pow2(p + j) as int, pow2((p + k - 1) as nat) as int, d as int);
        lemma_mul_is_commutative(pow2(p + j) as int, d as int);
        lemma_mul_is_commutative(pow2((p + k - 1) as nat) as int, d as int);
    }
}

proof fn lemma_below_pow2(n: nat)
    ensures
        n < pow2(n),
    decreases n,
{
    lemma_pow2_pos(0);
    if n > 0 {
        lemma_below_pow2((n - 1) as nat);
        lemma_pow2_unfold(n);
    }
}

proof fn lemma_ulp_search(p: nat, n: nat, d: nat, j: nat)
    requires
        d > 0,
        n < d * pow2(p + j),
    ensures
        exists|k: nat| is_ulp(p, n, d, k),
    decreases j,
{
    if j == 0 || d * pow2((p + j - 1) as nat) <= n {
        assert(is_ulp(p, n, d, j));
    } else {
        lemma_ulp_search(p, n, d, (j - 1) as nat);
    }
}

/// Every ratio has a spacing.
pub proof fn lemma_ulp_exists(p: nat, n: nat, d: nat)
    requires
        d > 0,
    ensures
        is_ulp(p, n, d, ulp(p, n, d)),
{
    lemma_below_pow2(n);
    lemma_pow2_mono(n, p + n);
    lemma_mul_inequality(1, d as int, pow2(p + n) as int);
    lemma_ulp_search(p, n, d, n);
}

/// Cancelling a common factor does not change the nearest integer.
pub proof fn lemma_half_even_cancel(n: nat, d: nat, c: nat)
    requires
        d > 0,
        c > 0,
    ensures
        half_even(n * c, d * c) == half_even(n, d),
{
    let q: int = (n / d) as int;
    let r: int = (n % d) as int;
    lemma_fundamental_div_mod(n as int, d as int);
    assert(n * c == q * (d * c) + r * c) by (nonlinear_arith)
        requires
            n == d * q + r,
    ;
    assert(0 <= r * c < d * c) by (nonlinear_arith)
        requires
            0 <= r < d,
            c > 0,
    ;
    lemma_fundamental_div_mod_converse((n * c) as int, (d * c) as int, q, r * c);
    assert((2 * r < d) == (2 * (r * c) < d * c)) by (nonlinear_arith)
        requires
            c > 0,
    ;
    assert((2 * r == d) == (2 * (r * c) == d * c)) by (nonlinear_arith)
        requires
            c > 0,
    ;
}

/// Cancelling a common factor does not change the nearest magnitude.
pub proof fn lemma_round_cancel(p: nat, inf: nat, n: nat, d: nat, c: nat)
    requires
        d > 0,
        c > 0,
    ensures
        round_mag(p, inf, n * c, d * c) == round_mag(p, inf, n, d),
{
    let j = ulp(p, n, d);
    lemma_ulp_exists(p, n, d);
    let hi = pow2(p + j);
    assert((d * c) * hi == (d * hi) * c) by (nonlinear_arith);
    assert(n * c < (d * hi) * c) by (nonlinear_arith)
        requires
            n < d * hi,
            c > 0,
    ;
    if j > 0 {
        let lo = pow2((p + j - 1) as nat);
        assert((d * c) * lo == (d * lo) * c) by (nonlinear_arith);
        assert((d * lo) * c <= n * c) by (nonlinear_arith)
            requires
                d * lo <= n,
        ;
    }
    lemma_mul_strictly_positive(d as int, c as int);
    lemma_ulp_is(p, n * c, d * c, j);
    lemma_pow2_pos(j);
    let w = pow2(j);
    lemma_mul_strictly_positive(d as int, w as int);
    assert((d * c) * w == (d * w) * c) by (nonlinear_arith);
    lemma_half_even_cancel(n, d * w, c);
}

/// Between two neighbouring multiples of half a spacing's divisor, the nearest
/// integer does not depend on where the ratio lies.
proof fn lemma_half_even_open(n: nat, d: nat, a: nat, h: nat)
    requires
        d > 0,
        h > 0,
        a * d < n < (a + 1) * d,
    ensures
        half_even(n, d * (2 * h)) == half_even((2 * a + 1) as nat, (4 * h) as nat),
{
    let q: int = a as int / (2 * h) as int;
    let ra: int = a as int % (2 * h) as int;
    lemma_fundamental_div_mod(a as int, 2 * h as int);
    let r: int = n - q * (d * (2 * h));
    assert(r == n - a * d + ra * d) by (nonlinear_arith)
        requires
            a == 2 * h * q + ra,
            r == n - q * (d * (2 * h)),
    ;
    assert(ra * d < r) by (nonlinear_arith)
        requires
            a * d < n,
            r == n - a * d + ra * d,
    ;
    assert(r < (ra + 1) * d) by (nonlinear_arith)
        requires
            n < (a + 1) * d,
            r == n - a * d + ra * d,
    ;
    assert((ra + 1) * d <= d * (2 * h)) by (nonlinear_arith)
        requires
            ra + 1 <= 2 * h,
            d > 0,
    ;
    assert(0 <= ra * d) by (nonlinear_arith)
        requires
            ra >= 0,
            d > 0,
    ;
    lemma_fundamental_div_mod_converse(n as int, (d * (2 * h)) as int, q, r);
    assert(2 * a + 1 == q * (4 * h) + (2 * ra + 1)) by (nonlinear_arith)
        requires
            a == 2 * h * q + ra,
    ;
    lemma_fundamental_div_mod_converse(2 * a as int + 1, 4 * h as int, q, 2 * ra + 1);
    if ra >= h {
        assert(h * d <= ra * d) by (nonlinear_arith)
            requires
                ra >= h,
                d > 0,
        ;
        assert(d * (2 * h) == 2 * (h * d)) by (nonlinear_arith);
    } else {
        assert((ra + 1) * d <= h * d) by (nonlinear_arith)
            requires
                ra + 1 <= h,
                d > 0,
        ;
        assert(d * (2 * h) == 2 * (h * d)) by (nonlinear_arith);
    }
}

/// The spacing around `x * 2^s`, from the number of bits of `x`.
pub proof fn lemma_ulp_scaled(p: nat, x: nat, s: int, len: nat)
    requires
        p > 0,
        len > 0,
        pow2((len - 1) as nat) <= x < pow2(len),
    ensures
        ulp(p, num2(x, s), den2(s)) == (if len + s - p > 0 {
            len + s - p
        } else {
            0
        }),
{
    let t: int = len + s - p;
    let j: nat = if t > 0 {
        t as nat
    } else {
        0
    };
    let n = num2(x, s);
    let d = den2(s);
    if s >= 0 {
        let w = pow2(s as nat);
        lemma_pow2_pos(s as nat);
        lemma_pow2_adds(len, s as nat);
        lemma_mul_strict_inequality(x as int, pow2(len) as int, w as int);
        lemma_pow2_mono((len + s) as nat, p + j);
        if j > 0 {
            lemma_pow2_adds((len - 1) as nat, s as nat);
            lemma_mul_inequality(pow2((len - 1) as nat) as int, x as int, w as int);
            assert((p + j - 1) as nat == (len - 1) as nat + s as nat);
        }
    } else {
        let e = (-s) as nat;
        lemma_pow2_pos(e);
        lemma_pow2_adds(e, p + j);
        lemma_pow2_mono(len, e + (p + j));
        if j > 0 {
            lemma_pow2_adds(e, (p + j - 1) as nat);
            assert(e + (p + j - 1) as nat == (len - 1) as nat);
        }
    }
    assert(is_ulp(p, n, d, j));
    lemma_ulp_is(p, n, d, j);
}

/// A ratio strictly between `a * 2^s` and `(a + 1) * 2^s`, with more than `p`
/// bits in `a`, rounds like the point halfway between the two.
pub proof fn lemma_sticky(p: nat, inf: nat, n: nat, d: nat, a: nat, s: int)
    requires
        p > 0,
        d > 0,
        pow2(p) <= a,
        a * pow2(if s >= 0 { s as nat } else { 0 }) * d < n * den2(s),
        n * den2(s) < (a + 1) * pow2(if s >= 0 { s as nat } else { 0 }) * d,
    ensures
        round_mag(p, inf, n, d) == round_mag(
            p,
            inf,
            num2((2 * a + 1) as nat, s - 1),
            den2(s - 1),
        ),
{
    // Over a common denominator `c`, both ratios lie between `u / c` and `(u + 1) / c`.
    let b = (2 * a + 1) as nat;
    let j = ulp(p, n, d);
    lemma_ulp_exists(p, n, d);
    let w = pow2(if s >= 0 { s as nat } else { 0 });
    let c = den2(s);
    lemma_pow2_pos(if s >= 0 { s as nat } else { 0 });
    lemma_pow2_pos(if s >= 0 { 0 } else { (-s) as nat });
    vstd::arithmetic::power2::lemma2_to64();
    // The spacing is at least twice the width of the interval.
    assert(j >= s + 1) by {
        if j < s + 1 {
            lemma_pow2_mono(p + j, p + s as nat);
            lemma_pow2_adds(p, s as nat);
            assert(d * pow2(p + j) <= d * (pow2(p) * w)) by (nonlinear_arith)
                requires
                    pow2(p + j) <= pow2(p) * w,
                    d > 0,
            ;
            assert(d * (pow2(p) * w) <= a * w * d) by (nonlinear_arith)
                requires
                    pow2(p) <= a,
                    d > 0,
                    w > 0,
            ;
            assert(n * c == n) by (nonlinear_arith)
                requires
                    c == 1,
            ;
        }
    }
    // half the spacing, in units of the interval's width
    let h = pow2((j - s - 1) as nat);
    lemma_pow2_pos((j - s - 1) as nat);
    // c * 2^j == 2 * h * w
    assert(c * pow2(j) == (2 * h) * w) by {
        lemma_pow2_unfold((j - s) as nat);
        if s >= 0 {
            lemma_pow2_adds((j - s) as nat, s as nat);
        } else {
            lemma_pow2_adds(j, (-s) as nat);
        }
        lemma_mul_is_commutative(c as int, pow2(j) as int);
    }
    // half_even(n, d * 2^j)
    let dj = d * pow2(j);
    lemma_pow2_pos(j);
    lemma_mul_strictly_positive(d as int, pow2(j) as int);
    lemma_half_even_cancel(n, dj, c);
    let dw = d * w;
    lemma_mul_strictly_positive(d as int, w as int);
    assert(dj * c == dw * (2 * h)) by (nonlinear_arith)
        requires
            dj == d * pow2(j),
            dw == d * w,
            c * pow2(j) == (2 * h) * w,
    ;
    assert(a * dw == a * w * d) by (nonlinear_arith)
        requires
            dw == d * w,
    ;
    assert((a + 1) * dw == (a + 1) * w * d) by (nonlinear_arith)
        requires
            dw == d * w,
    ;
    lemma_half_even_open(n * c, dw, a, h);
    assert(half_even(n, dj) == half_even(b, (4 * h) as nat));
    // the same for the halfway point
    let n2 = num2(b, s - 1);
    let d2 = den2(s - 1);
    lemma_pow2_pos(if s >= 1 { 0 } else { (1 - s) as nat });
    // 4 * h * (width of half interval) == d2 * 2^j over the same scale
    if s >= 1 {
        let e = (s - 1) as nat;
        lemma_pow2_pos(e);
        lemma_pow2_unfold((j - s) as nat);
        lemma_pow2_unfold((j - s + 1) as nat);
        lemma_pow2_adds((j - s + 1) as nat, e);
        assert((j - s + 1) as nat + e == j);
        assert((4 * h) * pow2(e) == pow2(j));
        lemma_half_even_cancel(b, (4 * h) as nat, pow2(e));
        assert(half_even(n2, d2 * pow2(j)) == half_even(b, (4 * h) as nat));
    } else {
        let e = (1 - s) as nat;
        lemma_pow2_unfold((j - s) as nat);
        lemma_pow2_unfold((j - s + 1) as nat);
        lemma_pow2_adds(e, j);
        assert(e + j == (j - s + 1) as nat);
        assert(d2 * pow2(j) == 4 * h);
        assert(half_even(n2, d2 * pow2(j)) == half_even(b, (4 * h) as nat));
    }
    // and its spacing
    assert(is_ulp(p, n2, d2, j)) by {
        lemma_between_ulp(p, n, d, a, s, j);
    }
    lemma_ulp_is(p, n2, d2, j);
}

/// The halfway point of the interval has the spacing of every point inside it.
proof fn lemma_between_ulp(p: nat, n: nat, d: nat, a: nat, s: int, j: nat)
    requires
        p > 0,
        d > 0,
        pow2(p) <= a,
        a * pow2(if s >= 0 { s as nat } else { 0 }) * d < n * den2(s),
        n * den2(s) < (a + 1) * pow2(if s >= 0 { s as nat } else { 0 }) * d,
        is_ulp(p, n, d, j),
        j >= s + 1,
    ensures
        is_ulp(p, num2((2 * a + 1) as nat, s - 1), den2(s - 1), j),
{
    let b = (2 * a + 1) as nat;
    let w = pow2(if s >= 0 { s as nat } else { 0 });
    let c = den2(s);
    vstd::arithmetic::power2::lemma2_to64();
    lemma_pow2_pos(if s >= 0 { s as nat } else { 0 });
    lemma_pow2_pos(if s >= 0 { 0 } else { (-s) as nat });
    // a < 2^(p + j - s)
    let top = pow2((p + j - s) as nat);
    assert(c * pow2(p + j) == top * w) by {
        if s >= 0 {
            lemma_pow2_adds((p + j - s) as nat, s as nat);
        } else {
            lemma_pow2_adds(p + j, (-s) as nat);
        }
        lemma_mul_is_commutative(c as int, pow2(p + j) as int);
    }
    assert(a < top) by {
        if a >= top {
            assert(n * c < (d * pow2(p + j)) * c) by (nonlinear_arith)
                requires
                    n < d * pow2(p + j),
                    c > 0,
            ;
            assert((d * pow2(p + j)) * c == top * w * d) by (nonlinear_arith)
                requires
                    c * pow2(p + j) == top * w,
            ;
            assert(top * w * d <= a * w * d) by (nonlinear_arith)
                requires
                    top <= a,
                    w > 0,
                    d > 0,
            ;
        }
    }
    // b * 2^(s-1) < 2^(p+j)
    let n2 = num2(b, s - 1);
    let d2 = den2(s - 1);
    lemma_pow2_unfold((p + j - s + 1) as nat);
    assert(b < 2 * top);
    if s >= 1 {
        let e = (s - 1) as nat;
        lemma_pow2_pos(e);
        lemma_pow2_adds((p + j - s + 1) as nat, e);
        assert((p + j - s + 1) as nat + e == p + j);
        lemma_mul_strict_inequality(b as int, 2 * top as int, pow2(e) as int);
    } else {
        let e = (1 - s) as nat;
        lemma_pow2_adds(e, p + j);
        assert(e + (p + j) == (p + j - s + 1) as nat);
    }
    if j > 0 {
        let bot = pow2((p + j - 1 - s) as nat);
        assert(c * pow2((p + j - 1) as nat) == bot * w) by {
            if s >= 0 {
                lemma_pow2_adds((p + j - 1 - s) as nat, s as nat);
            } else {
                lemma_pow2_adds((p + j - 1) as nat, (-s) as nat);
            }
            lemma_mul_is_commutative(c as int, pow2((p + j - 1) as nat) as int);
        }
        assert(bot <= a) by {
            if a < bot {
                assert((d * pow2((p + j - 1) as nat)) * c <= n * c) by (nonlinear_arith)
                    requires
                        d * pow2((p + j - 1) as nat) <= n,
                        c > 0,
                ;
                assert((d * pow2((p + j - 1) as nat)) * c == bot * w * d) by (nonlinear_arith)
                    requires
                        c * pow2((p + j - 1) as nat) == bot * w,
                ;
                assert((a + 1) * w * d <= bot * w * d) by (nonlinear_arith)
                    requires
                        a + 1 <= bot,
                        w > 0,
                        d > 0,
                ;
            }
        }
        lemma_pow2_unfold((p + j - s) as nat);
        if s >= 1 {
            let e = (s - 1) as nat;
            lemma_pow2_adds((p + j - s) as nat, e);
            assert((p + j - s) as nat + e == (p + j - 1) as nat);
            lemma_mul_inequality(2 * bot as int, b as int, pow2(e) as int);
        } else {
            let e = (1 - s) as nat;
            lemma_pow2_adds(e, (p + j - 1) as nat);
            assert(e + (p + j - 1) as nat == (p + j - s) as nat);
        }
    }
}

} // verus!
