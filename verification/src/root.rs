//! Square roots of floating-point numbers.

use crate::float::{
    bit_length, is_inf, is_nan, lemma_hidden, lemma_pattern_units, lemma_pow2_127, make_nan, nan,
    shl, shr, signed, units, unpack, Parts, Width,
};
use crate::rounding::{is_ulp, lemma_pow2_mono, lemma_ulp_exists, lemma_ulp_is, ulp};
use vstd::arithmetic::div_mod::{lemma_fundamental_div_mod, lemma_fundamental_div_mod_converse};
use vstd::arithmetic::mul::{lemma_mul_inequality, lemma_mul_strict_inequality};
use vstd::arithmetic::power2::{
    lemma2_to64, lemma2_to64_rest, lemma_pow2_adds, lemma_pow2_pos, lemma_pow2_unfold, pow2,
};
use vstd::prelude::*;

verus! {

pub open spec fn is_isqrt(n: nat, q: nat) -> bool {
    q * q <= n < (q + 1) * (q + 1)
}

/// The integer part of the square root of `n`.
pub open spec fn isqrt(n: nat) -> nat {
    choose|q: nat| is_isqrt(n, q)
}

/// The pattern nearest to the square root of `n` units times units. The distances
/// of a root to the two neighbouring numbers are never equal, so the nearest one
/// is found by adding a half and truncating.
pub open spec fn root_mag(w: Width, n: nat) -> nat {
    let j = ulp(w.prec(), isqrt(n), 1);
    j * w.hidden() + (isqrt(4 * n) / pow2(j) + 1) / 2
}

/// The square root of a number.
#[verifier::opaque]
pub open spec fn root(w: Width, a: Parts) -> Parts {
    if is_nan(w, a) {
        nan(w)
    } else if a.mag == 0 {
        a
    } else if a.neg {
        nan(w)
    } else if is_inf(w, a) {
        a
    } else {
        signed(false, root_mag(w, units(w, a.mag as nat) * pow2(w.unit())) as u64)
    }
}

proof fn lemma_isqrt_search(n: nat, q: nat)
    requires
        n < (q + 1) * (q + 1),
    ensures
        exists|r: nat| is_isqrt(n, r),
    decreases q,
{
    if q * q <= n {
        assert(is_isqrt(n, q));
    } else {
        assert(q > 0) by (nonlinear_arith)
            requires
                q * q > n,
        ;
        lemma_isqrt_search(n, (q - 1) as nat);
    }
}

pub(crate) proof fn lemma_isqrt_exists(n: nat)
    ensures
        is_isqrt(n, isqrt(n)),
{
    assert(n < (n + 1) * (n + 1)) by (nonlinear_arith);
    lemma_isqrt_search(n, n);
}

/// Bounds on a square bound its root.
pub(crate) proof fn lemma_isqrt_bounds(n: nat, lo: nat, hi: nat)
    requires
        lo * lo <= n < hi * hi,
    ensures
        lo <= isqrt(n) < hi,
{
    lemma_isqrt_exists(n);
    let q = isqrt(n);
    if q < lo {
        assert((q + 1) * (q + 1) <= lo * lo) by (nonlinear_arith)
            requires
                q + 1 <= lo,
        ;
    }
    if q >= hi {
        assert(hi * hi <= q * q) by (nonlinear_arith)
            requires
                hi <= q,
        ;
    }
}

/// The square root is the nearest number: it is off by at most half the spacing
/// of the numbers around it.
pub proof fn law_root_is_nearest(w: Width, n: nat)
    ensures
        ({
            let e = pow2(ulp(w.prec(), isqrt(n), 1)) as int;
            let x = units(w, root_mag(w, n)) as int;
            &&& 2 * x >= e ==> (2 * x - e) * (2 * x - e) <= 4 * n
            &&& 4 * n < (2 * x + e) * (2 * x + e)
        }),
{
    let p = w.prec();
    let i = isqrt(n);
    let j = ulp(p, i, 1);
    let e = pow2(j) as int;
    let q = isqrt(4 * n) as int;
    lemma_isqrt_exists(n);
    lemma_isqrt_exists(4 * n);
    lemma_ulp_exists(p, i, 1);
    lemma_hidden(w);
    lemma_pow2_pos(j);
    lemma_pow2_adds(p, j);
    assert(2 * i <= q <= 2 * i + 1) by {
        assert((2 * i) * (2 * i) <= 4 * n) by (nonlinear_arith)
            requires
                i * i <= n,
        ;
        assert(4 * n < (2 * i + 2) * (2 * i + 2)) by (nonlinear_arith)
            requires
                n < (i + 1) * (i + 1),
        ;
        lemma_isqrt_bounds(4 * n, 2 * i, 2 * i + 2);
    }
    let t = q / e;
    let h = (t + 1) / 2;
    let c = w.hidden() as int;
    lemma_fundamental_div_mod(q, e);
    assert(t * e <= q < t * e + e) by (nonlinear_arith)
        requires
            q == e * t + q % e,
            0 <= q % e < e,
    ;
    assert(t >= 0) by (nonlinear_arith)
        requires
            t * e > q - e,
            q >= 0,
            e > 0,
    ;
    assert(t < 4 * c) by (nonlinear_arith)
        requires
            t * e <= q,
            q <= 2 * i + 1,
            i < (2 * c) * e,
            e > 0,
    ;
    if j > 0 {
        lemma_pow2_adds((p - 1) as nat, j);
        assert(t >= 2 * c) by (nonlinear_arith)
            requires
                q < t * e + e,
                q >= 2 * i,
                c * e <= i,
                e > 0,
        ;
    }
    lemma_pattern_units(w, j, h as nat);
    let x = h * e;
    assert(units(w, root_mag(w, n)) == x);
    let (lo, hi) = (2 * x - e, 2 * x + e);
    assert(lo <= q) by (nonlinear_arith)
        requires
            lo == 2 * (h * e) - e,
            2 * h - 1 <= t,
            t * e <= q,
            e > 0,
    ;
    assert(q + 1 <= hi) by (nonlinear_arith)
        requires
            hi == 2 * (h * e) + e,
            t <= 2 * h,
            q < t * e + e,
            e > 0,
    ;
    if lo >= 0 {
        assert(lo * lo <= q * q) by (nonlinear_arith)
            requires
                0 <= lo <= q,
        ;
    }
    assert((q + 1) * (q + 1) <= hi * hi) by (nonlinear_arith)
        requires
            0 <= q + 1 <= hi,
    ;
}

/// The integer part of the square root.
fn integer_root(x: u128) -> (r: u64)
    ensures
        is_isqrt(x as nat, r as nat),
{
    let mut r: u128 = 0;
    // the root lies in r .. r + gap
    let mut gap: u128 = 0x1_0000_0000_0000_0000;
    let mut k: u32 = 64;
    proof {
        lemma2_to64();
        lemma2_to64_rest();
        assert(x < 0x1_0000_0000_0000_0000 * 0x1_0000_0000_0000_0000);
    }
    while k > 0
        invariant
            k <= 64,
            gap == pow2(k as nat),
            gap <= 0x1_0000_0000_0000_0000,
            r + gap <= 0x1_0000_0000_0000_0000,
            r * r <= x < (r + gap) * (r + gap),
        decreases k,
    {
        proof {
            lemma_pow2_unfold(k as nat);
            lemma_pow2_pos((k - 1) as nat);
        }
        let half: u128 = gap / 2;
        let c: u128 = r + half;
        proof {
            assert(c * c <= 0xffff_ffff_ffff_ffff * 0xffff_ffff_ffff_ffff) by (nonlinear_arith)
                requires
                    0 <= c <= 0xffff_ffff_ffff_ffff,
            ;
        }
        if c * c <= x {
            r = c;
        }
        gap = half;
        k = k - 1;
    }
    proof {
        lemma2_to64();
    }
    r as u64
}

/// The root of `4^f * y`, in steps of `2^(f + g)`.
proof fn lemma_root_scaled(y: nat, r: nat, f: nat, g: nat)
    requires
        is_isqrt(y, r),
    ensures
        isqrt(y * pow2(2 * f)) / pow2(f + g) == r / pow2(g),
{
    lemma_pow2_pos(f);
    lemma_pow2_pos(g);
    lemma_pow2_adds(f, f);
    lemma_pow2_adds(f, g);
    let (pf, pg) = (pow2(f) as int, pow2(g) as int);
    assert(pow2(2 * f) == pf * pf) by {
        assert(2 * f == f + f);
    }
    let u: int = r as int / pg;
    lemma_fundamental_div_mod(r as int, pg);
    assert(u >= 0) by (nonlinear_arith)
        requires
            r == pg * u + r as int % pg,
            r >= 0,
            r as int % pg < pg,
            pg > 0,
    ;
    let big = (y * pow2(2 * f)) as int;
    assert((u * (pf * pg)) * (u * (pf * pg)) <= big) by {
        assert(u * pg <= r) by (nonlinear_arith)
            requires
                r == pg * u + r as int % pg,
                r as int % pg >= 0,
        ;
        assert(0 <= u * pg) by (nonlinear_arith)
            requires
                u >= 0,
                pg > 0,
        ;
        assert((u * pg) * (u * pg) <= r * r) by (nonlinear_arith)
            requires
                0 <= u * pg <= r,
        ;
        let v = u * pg;
        assert((u * (pf * pg)) == v * pf) by (nonlinear_arith)
            requires
                v == u * pg,
        ;
        assert((v * pf) * (v * pf) == (v * v) * (pf * pf)) by (nonlinear_arith);
        assert((v * v) * (pf * pf) <= y * (pf * pf)) by (nonlinear_arith)
            requires
                v * v <= y,
                pf * pf >= 0,
        ;
    }
    assert(big < ((u + 1) * (pf * pg)) * ((u + 1) * (pf * pg))) by {
        let v = (u + 1) * pg;
        assert(r + 1 <= v) by (nonlinear_arith)
            requires
                r == pg * u + r as int % pg,
                r as int % pg < pg,
                v == (u + 1) * pg,
        ;
        assert((r + 1) * (r + 1) <= v * v) by (nonlinear_arith)
            requires
                0 <= r + 1 <= v,
        ;
        assert(((u + 1) * (pf * pg)) == v * pf) by (nonlinear_arith)
            requires
                v == (u + 1) * pg,
        ;
        assert((v * pf) * (v * pf) == (v * v) * (pf * pf)) by (nonlinear_arith);
        assert(pf * pf > 0) by (nonlinear_arith)
            requires
                pf > 0,
        ;
        assert(y * (pf * pf) < (v * v) * (pf * pf)) by (nonlinear_arith)
            requires
                y < v * v,
                pf * pf > 0,
        ;
    }
    let w = pf * pg;
    assert(w > 0) by (nonlinear_arith)
        requires
            pf > 0,
            pg > 0,
            w == pf * pg,
    ;
    assert(0 <= u * w) by (nonlinear_arith)
        requires
            u >= 0,
            w > 0,
    ;
    assert(0 <= (u + 1) * w) by (nonlinear_arith)
        requires
            u >= 0,
            w > 0,
    ;
    lemma_isqrt_bounds(big as nat, (u * w) as nat, ((u + 1) * w) as nat);
    let q = isqrt(big as nat) as int;
    assert((u + 1) * w == u * w + w) by (nonlinear_arith);
    lemma_fundamental_div_mod_converse(q, w, u, q - u * w);
}

/// The number of bits of the root of `4^f * y`.
proof fn lemma_root_ulp(p: nat, y: nat, r: nat, f: nat, len: nat)
    requires
        is_isqrt(y, r),
        len > 0,
        pow2((len - 1) as nat) <= r < pow2(len),
        len + f >= p,
    ensures
        ulp(p, isqrt(y * pow2(2 * f)), 1) == len + f - p,
{
    let (lo, hi) = (pow2((len - 1) as nat) as int, pow2(len) as int);
    lemma_pow2_pos(f);
    lemma_pow2_adds(f, f);
    assert(2 * f == f + f);
    let pf = pow2(f) as int;
    let big = (y * pow2(2 * f)) as int;
    assert((lo * pf) * (lo * pf) <= big) by {
        assert(lo * lo <= r * r) by (nonlinear_arith)
            requires
                0 <= lo <= r,
        ;
        assert((lo * pf) * (lo * pf) == (lo * lo) * (pf * pf)) by (nonlinear_arith);
        assert((lo * lo) * (pf * pf) <= y * (pf * pf)) by (nonlinear_arith)
            requires
                lo * lo <= y,
                pf * pf >= 0,
        ;
    }
    assert(big < (hi * pf) * (hi * pf)) by {
        assert((r + 1) * (r + 1) <= hi * hi) by (nonlinear_arith)
            requires
                0 <= r + 1 <= hi,
        ;
        assert((hi * pf) * (hi * pf) == (hi * hi) * (pf * pf)) by (nonlinear_arith);
        assert(pf * pf > 0) by (nonlinear_arith)
            requires
                pf > 0,
        ;
        assert(y * (pf * pf) < (hi * hi) * (pf * pf)) by (nonlinear_arith)
            requires
                y < hi * hi,
                pf * pf > 0,
        ;
    }
    lemma_pow2_adds((len - 1) as nat, f);
    lemma_pow2_adds(len, f);
    lemma_isqrt_bounds(big as nat, pow2((len - 1) as nat + f), pow2(len + f));
    let j = (len + f - p) as nat;
    let q = isqrt(big as nat);
    assert(is_ulp(p, q, 1, j)) by {
        assert(p + j == len + f);
        if j > 0 {
            assert((p + j - 1) as nat == (len - 1) as nat + f);
        }
    }
    lemma_ulp_is(p, q, 1, j);
}

/// Takes the square root of a number.
pub fn sqrt_parts(w: Width, a: Parts) -> (r: Parts)
    ensures
        r == root(w, a),
        r.mag < w.inf() + w.hidden(),
{
    proof {
        reveal(root);
    }
    if a.mag > w.get_inf() {
        return make_nan(w);
    }
    if a.mag == 0 {
        return a;
    }
    if a.neg {
        return make_nan(w);
    }
    if a.mag == w.get_inf() {
        return a;
    }
    let (m, j) = unpack(w, a.mag);
    let e: u32 = (j + w.get_unit()) as u32;
    // an even number of places: x * 4^h
    let (x, h): (u128, u32) = if e % 2 == 0 {
        (m as u128, e / 2)
    } else {
        (2 * m as u128, e / 2)
    };
    let ghost n = units(w, a.mag as nat) * pow2(w.unit());
    proof {
        lemma_pow2_adds(j as nat, w.unit());
        let (pj, pu) = (pow2(j as nat) as int, pow2(w.unit()) as int);
        assert((m * pj) * pu == m * (pj * pu)) by (nonlinear_arith);
        if e % 2 == 1 {
            lemma_pow2_unfold(e as nat);
            assert((e - 1) as nat == (2 * h) as nat);
            let ph = pow2((2 * h) as nat) as int;
            assert(m * (2 * ph) == (2 * m) * ph) by (nonlinear_arith);
        }
        assert(n == x * pow2((2 * h) as nat));
    }
    // 122 or 123 bits: y == x * 4^k
    let len: u32 = bit_length(x);
    proof {
        lemma_hidden(w);
        lemma2_to64();
        lemma2_to64_rest();
        assert(len <= 54) by {
            if len > 54 {
                lemma_pow2_mono(54, (len - 1) as nat);
            }
        }
    }
    let k: u32 = (123 - len) / 2;
    proof {
        lemma_pow2_adds(len as nat, (2 * k) as nat);
        lemma_pow2_adds((len - 1) as nat, (2 * k) as nat);
        lemma_pow2_pos((2 * k) as nat);
        lemma_mul_strict_inequality(
            x as int,
            pow2(len as nat) as int,
            pow2((2 * k) as nat) as int,
        );
        lemma_mul_inequality(
            pow2((len - 1) as nat) as int,
            x as int,
            pow2((2 * k) as nat) as int,
        );
        lemma_pow2_127((len + 2 * k) as nat);
    }
    let y: u128 = shl(x, 2 * k);
    let r: u64 = integer_root(y);
    let ghost f = (h - k) as nat;
    proof {
        lemma_pow2_adds((2 * k) as nat, (2 * f) as nat);
        assert((2 * k) as nat + (2 * f) as nat == (2 * h) as nat);
        let (pk, pf) = (pow2((2 * k) as nat) as int, pow2((2 * f) as nat) as int);
        assert(x * (pk * pf) == (x * pk) * pf) by (nonlinear_arith);
        assert(n == y * pow2((2 * f) as nat));
        // r has 61 or 62 bits
        lemma_pow2_mono(120, ((len - 1) + 2 * k) as nat);
        lemma_pow2_mono((len + 2 * k) as nat, 124);
        lemma_pow2_adds(60, 60);
        lemma_pow2_adds(62, 62);
        assert(r >= pow2(60)) by (nonlinear_arith)
            requires
                (r + 1) * (r + 1) > y,
                y >= pow2(60) * pow2(60),
                r >= 0,
        ;
        assert(r < pow2(62)) by (nonlinear_arith)
            requires
                r * r <= y,
                y < pow2(62) * pow2(62),
                r >= 0,
        ;
    }
    let b: u32 = bit_length(r as u128);
    proof {
        assert(61 <= b <= 62) by {
            if b < 61 {
                lemma_pow2_mono(b as nat, 60);
            }
            if b > 62 {
                lemma_pow2_mono(62, (b - 1) as nat);
            }
        }
        lemma_root_ulp(w.prec(), y as nat, r as nat, f, b as nat);
    }
    // the exponent of the spacing, and how far it is above one unit of r
    let up: u32 = b - w.get_prec();
    let jr: u32 = h - k + up;
    proof {
        // 4 n == y * 4^(f + 1)
        lemma_pow2_unfold((2 * f + 1) as nat);
        lemma_pow2_unfold((2 * f + 2) as nat);
        let pf = pow2((2 * f) as nat) as int;
        assert(4 * (y * pf) == y * (4 * pf)) by (nonlinear_arith);
        assert((2 * (f + 1)) as nat == (2 * f + 2) as nat);
        assert(4 * n == y * pow2(2 * (f + 1)));
        lemma_root_scaled(y as nat, r as nat, f + 1, (up - 1) as nat);
        assert(f + 1 + (up - 1) as nat == jr as nat);
        vstd::arithmetic::div_mod::lemma_div_nonincreasing(r as int, pow2((up - 1) as nat) as int);
        lemma_pow2_pos((up - 1) as nat);
        assert(jr * w.hidden() <= 1600 * w.hidden()) by (nonlinear_arith)
            requires
                jr <= 1600,
                w.hidden() > 0,
        ;
    }
    let t: u128 = shr(r as u128, up - 1);
    proof {
        lemma_pow2_adds((up - 1) as nat, (w.prec() + 1) as nat);
        assert((up - 1) as nat + (w.prec() + 1) as nat == b as nat);
        let (pu, pp) = (pow2((up - 1) as nat) as int, pow2((w.prec() + 1) as nat) as int);
        lemma_fundamental_div_mod(r as int, pu);
        assert(t < pp) by (nonlinear_arith)
            requires
                pu * t <= r,
                r < pu * pp,
                pu > 0,
        ;
        lemma_pow2_unfold((w.prec() + 1) as nat);
    }
    let mag: u64 = jr as u64 * w.get_hidden() + ((t + 1) / 2) as u64;
    Parts { neg: false, mag }
}

} // verus!
