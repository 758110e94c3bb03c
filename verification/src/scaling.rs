//! Arithmetic on numbers that are multiplied by a power of two: while nothing
//! is out of range, results are multiplied by it too.

use crate::binary::{Binary32, Binary64};
use crate::float::{
    lemma_half_even_range, lemma_hidden, lemma_mag, lemma_pattern_units, mag_exp, mag_man,
    narrowed, nearest, negated, product, quotient, signed_units, sum, units, widened, Parts, Width,
};
use crate::order::{
    law_representable_is_kept, law_rounding_keeps_order, law_rounding_scales,
    lemma_short_is_exact, lemma_sum_ordered,
};
use crate::rounding::{
    half_even, lemma_half_even_cancel, lemma_pow2_mono, lemma_ulp_exists, lemma_ulp_is, ulp,
};
use vstd::arithmetic::div_mod::{
    lemma_fundamental_div_mod, lemma_fundamental_div_mod_converse,
};
use vstd::arithmetic::power2::{lemma_pow2_adds, lemma_pow2_pos, pow2};
use vstd::prelude::*;

verus! {

/// Whether `b` is the finite number `a` times `2^m`.
pub open spec fn is_scaled(w: Width, a: Parts, b: Parts, m: nat) -> bool {
    &&& a.mag < w.inf()
    &&& b.mag < w.inf()
    &&& a.neg == b.neg
    &&& units(w, b.mag as nat) == units(w, a.mag as nat) * pow2(m)
}

/// Whether a product of two finite numbers is in range: finite, and at least the
/// smallest normal number unless a factor is zero.
pub open spec fn product_in_range(w: Width, a: Parts, c: Parts) -> bool {
    &&& a.mag < w.inf()
    &&& c.mag < w.inf()
    &&& product(w, a, c).mag < w.inf()
    &&& a.mag == 0 || c.mag == 0 || units(w, a.mag as nat) * units(w, c.mag as nat) >= w.hidden()
        * pow2(w.unit())
}

/// Whether a quotient of two finite numbers is in range.
pub open spec fn quotient_in_range(w: Width, a: Parts, c: Parts) -> bool {
    &&& a.mag < w.inf()
    &&& 0 < c.mag < w.inf()
    &&& quotient(w, a, c).mag < w.inf()
    &&& a.mag == 0 || units(w, a.mag as nat) * pow2(w.unit()) >= w.hidden() * units(
        w,
        c.mag as nat,
    )
}

/// Whether a number is in range in single precision too.
pub open spec fn narrow_in_range(a: Parts) -> bool {
    &&& a.mag < Width::Double.inf()
    &&& narrowed(a).mag < Width::Single.inf()
    &&& a.mag == 0 || units(Width::Double, a.mag as nat) >= Width::Single.hidden() * pow2(925)
}

/// Zero stands for nothing, and nothing else does.
pub proof fn lemma_units_zero(w: Width, m: nat)
    requires
        m < w.inf(),
    ensures
        units(w, m) == 0 <==> m == 0,
{
    lemma_mag(w, m);
    lemma_pow2_pos(mag_exp(w, m));
    let (a, e) = (mag_man(w, m), pow2(mag_exp(w, m)));
    assert(a * e == 0 <==> a == 0) by (nonlinear_arith)
        requires
            e > 0,
    ;
}

proof fn lemma_scaled_zero(w: Width, a: Parts, b: Parts, m: nat)
    requires
        is_scaled(w, a, b, m),
    ensures
        a.mag == 0 <==> b.mag == 0,
{
    lemma_units_zero(w, a.mag as nat);
    lemma_units_zero(w, b.mag as nat);
    lemma_pow2_pos(m);
    let (x, e) = (units(w, a.mag as nat), pow2(m));
    assert(x * e == 0 <==> x == 0) by (nonlinear_arith)
        requires
            e > 0,
    ;
}

/// Rounding a ratio of at least the smallest normal number and a multiple of it.
proof fn lemma_ratio_scales(w: Width, n: nat, d: nat, m: nat)
    requires
        d > 0,
        n >= w.hidden() * d,
        nearest(w, n * pow2(m), d) < w.inf(),
    ensures
        nearest(w, n, d) < w.inf(),
        units(w, nearest(w, n * pow2(m), d) as nat) == units(w, nearest(w, n, d) as nat) * pow2(m),
{
    let p = w.prec();
    let j = ulp(p, n, d);
    let k = n * pow2(m);
    let e = pow2(m);
    lemma_ulp_exists(p, n, d);
    lemma_hidden(w);
    lemma_pow2_pos(m);
    lemma_pow2_pos(j);
    lemma_pow2_adds(p + j, m);
    lemma_pow2_adds(j, m);
    // the smaller one is in range too
    assert(n * d <= k * d) by (nonlinear_arith)
        requires
            k == n * e,
            e >= 1,
    ;
    law_rounding_keeps_order(w, n, d, k, d);
    // the spacing
    let lo = pow2((p + j - 1) as nat);
    assert(d * lo <= n) by {
        if j == 0 {
            assert(lo == w.hidden());
            assert(d * lo == w.hidden() * d) by (nonlinear_arith)
                requires
                    lo == w.hidden(),
            ;
        }
    }
    lemma_pow2_adds((p + j - 1) as nat, m);
    let hi = pow2(p + j);
    assert(k < d * (hi * e)) by (nonlinear_arith)
        requires
            k == n * e,
            n < d * hi,
            e > 0,
    ;
    assert(d * (lo * e) <= k) by (nonlinear_arith)
        requires
            k == n * e,
            d * lo <= n,
            e > 0,
    ;
    assert(p + j + m == p + (j + m) && (p + j - 1) as nat + m == (p + (j + m) - 1) as nat);
    lemma_ulp_is(p, k, d, j + m);
    let f = pow2(j);
    assert(d * (f * e) == (d * f) * e) by (nonlinear_arith);
    assert(d * f > 0) by (nonlinear_arith)
        requires
            d > 0,
            f > 0,
    ;
    lemma_half_even_cancel(n, d * f, e);
    let h = half_even(n, d * f);
    // the mantissa
    lemma_pow2_adds((p - 1) as nat, j);
    lemma_pow2_adds(p, j);
    assert(w.hidden() * (d * f) <= n) by (nonlinear_arith)
        requires
            d * lo <= n,
            lo == w.hidden() * f,
    ;
    assert(n < (2 * w.hidden()) * (d * f)) by (nonlinear_arith)
        requires
            n < d * hi,
            hi == (2 * w.hidden()) * f,
    ;
    lemma_half_even_range(n, d * f, w.hidden(), 2 * w.hidden());
    lemma_pattern_units(w, j, h);
    lemma_pattern_units(w, j + m, h);
    assert(h * (f * e) == (h * f) * e) by (nonlinear_arith);
}

/// Sums of scaled numbers are scaled.
pub proof fn law_sum_scales(w: Width, a: Parts, a2: Parts, b: Parts, b2: Parts, m: nat)
    requires
        is_scaled(w, a, a2, m),
        is_scaled(w, b, b2, m),
        sum(w, a2, b2).mag < w.inf(),
    ensures
        is_scaled(w, sum(w, a, b), sum(w, a2, b2), m),
{
    reveal(sum);
    let e = pow2(m) as int;
    lemma_pow2_pos(m);
    let (x, y) = (signed_units(w, a), signed_units(w, b));
    let (x2, y2) = (signed_units(w, a2), signed_units(w, b2));
    let (u, v) = (units(w, a.mag as nat) as int, units(w, b.mag as nat) as int);
    assert((-u) * e == -(u * e) && (-v) * e == -(v * e)) by (nonlinear_arith);
    assert(x2 == x * e && y2 == y * e);
    let s = x + y;
    assert(x2 + y2 == s * e) by (nonlinear_arith)
        requires
            x2 == x * e,
            y2 == y * e,
            s == x + y,
    ;
    assert((s * e == 0) == (s == 0) && (s * e < 0) == (s < 0)) by (nonlinear_arith)
        requires
            e > 0,
    ;
    if s == 0 {
        lemma_units_zero(w, 0);
        assert(0 * e == 0) by (nonlinear_arith);
    } else {
        let n = (if s < 0 { -s } else { s }) as nat;
        assert((-s) * e == -(s * e)) by (nonlinear_arith);
        assert(n * 1 <= (n * pow2(m)) * 1) by (nonlinear_arith)
            requires
                e == pow2(m),
                e >= 1,
        ;
        law_rounding_keeps_order(w, n, 1, n * pow2(m), 1);
        law_rounding_scales(w, n, m);
    }
}

pub proof fn lemma_negated_scales(w: Width, a: Parts, b: Parts, m: nat)
    requires
        is_scaled(w, a, b, m),
    ensures
        is_scaled(w, negated(a), negated(b), m),
{
}

/// Products of scaled numbers with one number are scaled.
pub proof fn law_product_scales(w: Width, a: Parts, a2: Parts, c: Parts, m: nat)
    requires
        is_scaled(w, a, a2, m),
        product_in_range(w, a, c),
        product_in_range(w, a2, c),
    ensures
        is_scaled(w, product(w, a, c), product(w, a2, c), m),
{
    reveal(product);
    lemma_scaled_zero(w, a, a2, m);
    lemma_pow2_pos(w.unit());
    if a.mag == 0 || c.mag == 0 {
        lemma_units_zero(w, 0);
        assert(0 * pow2(m) == 0) by (nonlinear_arith);
    } else {
        let (x, y, e) = (units(w, a.mag as nat), units(w, c.mag as nat), pow2(m));
        assert((x * e) * y == (x * y) * e) by (nonlinear_arith);
        lemma_ratio_scales(w, x * y, pow2(w.unit()), m);
    }
}

pub proof fn lemma_product_commutes(w: Width, a: Parts, b: Parts)
    ensures
        product(w, a, b) == product(w, b, a),
        product_in_range(w, a, b) == product_in_range(w, b, a),
{
    reveal(product);
    let (x, y) = (units(w, a.mag as nat), units(w, b.mag as nat));
    assert(x * y == y * x) by (nonlinear_arith);
}

/// Quotients of scaled numbers by one number are scaled.
pub proof fn law_quotient_scales(w: Width, a: Parts, a2: Parts, c: Parts, m: nat)
    requires
        is_scaled(w, a, a2, m),
        quotient_in_range(w, a, c),
        quotient_in_range(w, a2, c),
    ensures
        is_scaled(w, quotient(w, a, c), quotient(w, a2, c), m),
{
    reveal(quotient);
    lemma_scaled_zero(w, a, a2, m);
    lemma_units_zero(w, c.mag as nat);
    if a.mag == 0 {
        lemma_units_zero(w, 0);
        assert(0 * pow2(m) == 0) by (nonlinear_arith);
    } else {
        let (x, t, e) = (units(w, a.mag as nat), pow2(w.unit()), pow2(m));
        assert((x * e) * t == (x * t) * e) by (nonlinear_arith);
        lemma_ratio_scales(w, x * t, units(w, c.mag as nat), m);
    }
}

/// Scaled numbers are scaled in single precision.
pub proof fn law_narrowing_scales(a: Parts, a2: Parts, m: nat)
    requires
        is_scaled(Width::Double, a, a2, m),
        narrow_in_range(a),
        narrow_in_range(a2),
    ensures
        is_scaled(Width::Single, narrowed(a), narrowed(a2), m),
{
    reveal(narrowed);
    lemma_scaled_zero(Width::Double, a, a2, m);
    lemma_pow2_pos(925);
    if a.mag == 0 {
        lemma_units_zero(Width::Single, 0);
        assert(0 * pow2(m) == 0) by (nonlinear_arith);
    } else {
        lemma_ratio_scales(Width::Single, units(Width::Double, a.mag as nat), pow2(925), m);
    }
}

/// A single-precision number is the same in double precision.
proof fn lemma_widened(a: Parts)
    requires
        a.mag < Width::Single.inf(),
    ensures
        widened(a).neg == a.neg,
        widened(a).mag < Width::Double.inf(),
        units(Width::Double, widened(a).mag as nat) == units(Width::Single, a.mag as nat) * pow2(
            925,
        ),
{
    let (s, d) = (Width::Single, Width::Double);
    reveal(widened);
    if a.mag == 0 {
        lemma_units_zero(s, 0);
        lemma_units_zero(d, 0);
        assert(0 * pow2(925) == 0) by (nonlinear_arith);
    } else {
        let m = a.mag as nat;
        lemma_mag(s, m);
        let (k, man) = (mag_exp(s, m), mag_man(s, m));
        let u = units(s, m);
        assert(k <= 253) by {
            if m >= 2 * s.hidden() {
                lemma_fundamental_div_mod(m as int, s.hidden() as int);
            }
        }
        lemma_pow2_adds(k, 925);
        let n = u * pow2(925);
        assert(n == man * pow2(k + 925)) by (nonlinear_arith)
            requires
                n == (man * pow2(k)) * pow2(925),
                pow2(k + 925) == pow2(k) * pow2(925),
        ;
        // far from out of range: below 2^1202
        let top: nat = (1179 * d.hidden()) as nat;
        assert(mag_exp(d, top) == 1178 && mag_man(d, top) == d.hidden()) by {
            lemma_fundamental_div_mod_converse(
                top as int,
                d.hidden() as int,
                1179,
                0,
            );
        }
        lemma_hidden(d);
        lemma_hidden(s);
        lemma_pow2_adds(24, 1178);
        lemma_pow2_mono(k + 925, 1178);
        lemma_pow2_mono(24, 52);
        assert(n <= d.hidden() * pow2(1178)) by (nonlinear_arith)
            requires
                n == man * pow2(k + 925),
                man <= d.hidden(),
                0 < pow2(k + 925) <= pow2(1178),
        ;
        law_representable_is_kept(d, top, 1);
        assert(units(d, top) * 1 == units(d, top));
        law_rounding_keeps_order(d, n, 1, units(d, top), 1);
        lemma_short_is_exact(d, man, k + 925);
    }
}

/// Scaled numbers are scaled in double precision.
pub proof fn law_widening_scales(a: Parts, a2: Parts, m: nat)
    requires
        is_scaled(Width::Single, a, a2, m),
    ensures
        is_scaled(Width::Double, widened(a), widened(a2), m),
{
    lemma_widened(a);
    lemma_widened(a2);
    let (u, e, c) = (units(Width::Single, a.mag as nat), pow2(m), pow2(925));
    assert((u * e) * c == (u * c) * e) by (nonlinear_arith);
}

// ---- numbers ----

/// Whether `b` is the finite number `a` times `2^m`.
pub open spec fn scaled32(a: Binary32, b: Binary32, m: nat) -> bool {
    is_scaled(Width::Single, a.parts(), b.parts(), m)
}

pub open spec fn scaled64(a: Binary64, b: Binary64, m: nat) -> bool {
    is_scaled(Width::Double, a.parts(), b.parts(), m)
}

pub open spec fn times_in_range32(a: Binary32, c: Binary32) -> bool {
    product_in_range(Width::Single, a.parts(), c.parts())
}

pub open spec fn times_in_range64(a: Binary64, c: Binary64) -> bool {
    product_in_range(Width::Double, a.parts(), c.parts())
}

pub open spec fn over_in_range64(a: Binary64, c: Binary64) -> bool {
    quotient_in_range(Width::Double, a.parts(), c.parts())
}

proof fn lemma_of32(p: Parts)
    requires
        p.mag <= Width::Single.inf(),
    ensures
        Binary32::of(p).parts() == p,
{
}

proof fn lemma_of64(p: Parts)
    requires
        p.mag <= Width::Double.inf(),
    ensures
        Binary64::of(p).parts() == p,
{
}

/// The sum of two finite numbers is a number.
proof fn lemma_sum_range(w: Width, a: Parts, b: Parts)
    requires
        a.mag < w.inf(),
        b.mag < w.inf(),
    ensures
        sum(w, a, b).mag <= w.inf(),
{
    lemma_sum_ordered(w, a, a, b, b);
}

pub proof fn law_plus_scales(a: Binary32, a2: Binary32, b: Binary32, b2: Binary32, m: nat)
    requires
        scaled32(a, a2, m),
        scaled32(b, b2, m),
        a2.plus(b2).is_finite(),
    ensures
        scaled32(a.plus(b), a2.plus(b2), m),
{
    let w = Width::Single;
    lemma_sum_range(w, a.parts(), b.parts());
    lemma_sum_range(w, a2.parts(), b2.parts());
    lemma_of32(sum(w, a2.parts(), b2.parts()));
    lemma_of32(sum(w, a.parts(), b.parts()));
    law_sum_scales(w, a.parts(), a2.parts(), b.parts(), b2.parts(), m);
}

pub proof fn law_minus_scales(a: Binary32, a2: Binary32, b: Binary32, b2: Binary32, m: nat)
    requires
        scaled32(a, a2, m),
        scaled32(b, b2, m),
        a2.minus(b2).is_finite(),
    ensures
        scaled32(a.minus(b), a2.minus(b2), m),
{
    let w = Width::Single;
    let (c, c2) = (negated(b.parts()), negated(b2.parts()));
    lemma_sum_range(w, a.parts(), c);
    lemma_sum_range(w, a2.parts(), c2);
    lemma_of32(sum(w, a2.parts(), c2));
    lemma_of32(sum(w, a.parts(), c));
    lemma_negated_scales(w, b.parts(), b2.parts(), m);
    law_sum_scales(w, a.parts(), a2.parts(), c, c2, m);
}

pub proof fn law_times_scales(a: Binary32, a2: Binary32, c: Binary32, m: nat)
    requires
        scaled32(a, a2, m),
        times_in_range32(a, c),
        times_in_range32(a2, c),
    ensures
        scaled32(a.times(c), a2.times(c), m),
        scaled32(c.times(a), c.times(a2), m),
{
    let w = Width::Single;
    lemma_product_commutes(w, a.parts(), c.parts());
    lemma_product_commutes(w, a2.parts(), c.parts());
    lemma_of32(product(w, a.parts(), c.parts()));
    lemma_of32(product(w, a2.parts(), c.parts()));
    law_product_scales(w, a.parts(), a2.parts(), c.parts(), m);
}

pub proof fn law_plus_scales64(a: Binary64, a2: Binary64, b: Binary64, b2: Binary64, m: nat)
    requires
        scaled64(a, a2, m),
        scaled64(b, b2, m),
        a2.plus(b2).is_finite(),
    ensures
        scaled64(a.plus(b), a2.plus(b2), m),
{
    let w = Width::Double;
    lemma_sum_range(w, a.parts(), b.parts());
    lemma_sum_range(w, a2.parts(), b2.parts());
    lemma_of64(sum(w, a2.parts(), b2.parts()));
    lemma_of64(sum(w, a.parts(), b.parts()));
    law_sum_scales(w, a.parts(), a2.parts(), b.parts(), b2.parts(), m);
}

pub proof fn law_minus_scales64(a: Binary64, a2: Binary64, b: Binary64, b2: Binary64, m: nat)
    requires
        scaled64(a, a2, m),
        scaled64(b, b2, m),
        a2.minus(b2).is_finite(),
    ensures
        scaled64(a.minus(b), a2.minus(b2), m),
{
    let w = Width::Double;
    let (c, c2) = (negated(b.parts()), negated(b2.parts()));
    lemma_sum_range(w, a.parts(), c);
    lemma_sum_range(w, a2.parts(), c2);
    lemma_of64(sum(w, a2.parts(), c2));
    lemma_of64(sum(w, a.parts(), c));
    lemma_negated_scales(w, b.parts(), b2.parts(), m);
    law_sum_scales(w, a.parts(), a2.parts(), c, c2, m);
}

pub proof fn law_times_scales64(a: Binary64, a2: Binary64, c: Binary64, m: nat)
    requires
        scaled64(a, a2, m),
        times_in_range64(a, c),
        times_in_range64(a2, c),
    ensures
        scaled64(a.times(c), a2.times(c), m),
        scaled64(c.times(a), c.times(a2), m),
{
    let w = Width::Double;
    lemma_product_commutes(w, a.parts(), c.parts());
    lemma_product_commutes(w, a2.parts(), c.parts());
    lemma_of64(product(w, a.parts(), c.parts()));
    lemma_of64(product(w, a2.parts(), c.parts()));
    law_product_scales(w, a.parts(), a2.parts(), c.parts(), m);
}

pub proof fn law_over_scales64(a: Binary64, a2: Binary64, c: Binary64, m: nat)
    requires
        scaled64(a, a2, m),
        over_in_range64(a, c),
        over_in_range64(a2, c),
    ensures
        scaled64(a.over(c), a2.over(c), m),
{
    let w = Width::Double;
    lemma_of64(quotient(w, a.parts(), c.parts()));
    lemma_of64(quotient(w, a2.parts(), c.parts()));
    law_quotient_scales(w, a.parts(), a2.parts(), c.parts(), m);
}

pub proof fn law_widen_scales(a: Binary32, a2: Binary32, m: nat)
    requires
        scaled32(a, a2, m),
    ensures
        scaled64(a.widen(), a2.widen(), m),
{
    lemma_widened(a.parts());
    lemma_widened(a2.parts());
    lemma_of64(widened(a.parts()));
    lemma_of64(widened(a2.parts()));
    law_widening_scales(a.parts(), a2.parts(), m);
}

pub proof fn law_narrow_scales(a: Binary64, a2: Binary64, m: nat)
    requires
        scaled64(a, a2, m),
        narrow_in_range(a.parts()),
        narrow_in_range(a2.parts()),
    ensures
        scaled32(a.narrow(), a2.narrow(), m),
{
    lemma_of32(narrowed(a.parts()));
    lemma_of32(narrowed(a2.parts()));
    law_narrowing_scales(a.parts(), a2.parts(), m);
}

} // verus!
