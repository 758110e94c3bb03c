//! Numbers as the real numbers that they stand for, and how near to the true
//! result each operation comes.

use crate::binary::{Binary32, Binary64};
use crate::float::{
    clamp, equal, integral, lemma_hidden, lemma_mag, lemma_units_ordered, less, less_or_equal,
    mag_exp, mag_man, narrowed, nearest, negated, of_int, product, quotient, signed_units, sum,
    to_int, units, widened, Parts, Toward, Width,
};
use crate::order::{
    law_ratio_rounding_error, law_representable_is_kept, law_rounding_keeps_order,
    lemma_integer_finite, lemma_nearest_zero, lemma_root_finite, lemma_short_is_exact,
};
use crate::root::{isqrt, law_root_is_nearest, lemma_isqrt_exists, root, root_mag};
use crate::rounding::{lemma_pow2_mono, lemma_ulp_exists, ulp};
use crate::scaling::lemma_units_zero;
use vstd::arithmetic::div_mod::lemma_fundamental_div_mod;
use vstd::arithmetic::power2::{
    lemma2_to64, lemma2_to64_rest, lemma_pow2_adds, lemma_pow2_pos, pow2,
};
use vstd::prelude::*;

verus! {

/// The real number that a finite number stands for.
pub open spec fn real_of(w: Width, a: Parts) -> real {
    signed_units(w, a) as real / pow2(w.unit()) as real
}

/// The real number that a finite single-precision number stands for.
pub open spec fn num(a: Binary32) -> real {
    real_of(Width::Single, a.parts())
}

/// The real number that a finite double-precision number stands for.
pub open spec fn num64(a: Binary64) -> real {
    real_of(Width::Double, a.parts())
}

/// The magnitude of a real number.
pub open spec fn size(x: real) -> real {
    if x < 0 as real {
        -x
    } else {
        x
    }
}

/// How much of its magnitude rounding may take from a number, or add to it.
pub open spec fn grain(w: Width) -> real {
    1 as real / pow2(w.prec()) as real
}

/// Half of the smallest number.
pub open spec fn speck(w: Width) -> real {
    1 as real / (2 * pow2(w.unit())) as real
}

/// Whether `x` is `y` but for rounding.
pub open spec fn rounds_to(w: Width, y: real, x: real) -> bool {
    size(x - y) <= size(y) * grain(w) + speck(w)
}

/// Whether `x` is `y` but for rounding, where nothing is too small to round well.
pub open spec fn rounds_well_to(w: Width, y: real, x: real) -> bool {
    size(x - y) <= size(y) * grain(w)
}

proof fn lemma_positive(w: Width)
    ensures
        pow2(w.unit()) > 0,
        pow2(w.prec()) > 0,
        grain(w) > 0 as real,
        speck(w) > 0 as real,
{
    lemma_pow2_pos(w.unit());
    lemma_pow2_pos(w.prec());
    let (a, b) = (pow2(w.unit()) as real, pow2(w.prec()) as real);
    assert(1 as real / b > 0 as real) by (nonlinear_arith)
        requires
            b > 0 as real,
    ;
    let c = (2 * pow2(w.unit())) as real;
    assert(1 as real / c > 0 as real) by (nonlinear_arith)
        requires
            c > 0 as real,
    ;
}

/// The nearest number to a ratio is near it.
proof fn lemma_ratio(w: Width, n: nat, d: nat)
    requires
        d > 0,
        nearest(w, n, d) < w.inf(),
    ensures
        ({
            let x = units(w, nearest(w, n, d) as nat) as real;
            let y = n as real / d as real;
            &&& y >= 0 as real
            &&& size(x - y) <= y * grain(w) + 1 as real / 2 as real
            &&& d == 1 ==> size(x - y) <= y * grain(w)
        }),
{
    let k = units(w, nearest(w, n, d) as nat) as int;
    let (x, r, p) = (k as real, d as real, pow2(w.prec()) as real);
    let y = n as real / r;
    lemma_positive(w);
    law_ratio_rounding_error(w, n, d);
    assert(y * r == n as real && y >= 0 as real) by (nonlinear_arith)
        requires
            r > 0 as real,
            n as real >= 0 as real,
            y == n as real / r,
    ;
    let e = if k * d < n { n - k * d } else { k * d - n };
    assert(e as real == size(x - y) * r) by {
        assert((k * d) as real == x * r) by (nonlinear_arith)
            requires
                x == k as real,
                r == d as real,
        ;
        assert(x * r - y * r == (x - y) * r) by (nonlinear_arith);
        assert(((x - y) * r < 0 as real) == (x - y < 0 as real)) by (nonlinear_arith)
            requires
                r > 0 as real,
        ;
        assert((-(x - y)) * r == -((x - y) * r)) by (nonlinear_arith);
    }
    let s = size(x - y);
    if pow2(w.prec()) * e <= n {
        assert((pow2(w.prec()) * e) as real == p * (e as real)) by (nonlinear_arith)
            requires
                p == pow2(w.prec()) as real,
        ;
        assert(s <= y * (1 as real / p)) by (nonlinear_arith)
            requires
                p * (s * r) <= y * r,
                r > 0 as real,
                p > 0 as real,
        ;
    } else {
        assert(s <= 1 as real / 2 as real) by (nonlinear_arith)
            requires
                2 as real * (s * r) <= r,
                r > 0 as real,
        ;
        assert(y * grain(w) >= 0 as real) by (nonlinear_arith)
            requires
                y >= 0 as real,
                grain(w) > 0 as real,
        ;
        if d == 1 {
            assert(e == 0);
            assert(s == 0 as real) by (nonlinear_arith)
                requires
                    s * r == 0 as real,
                    r > 0 as real,
            ;
        }
    }
}

/// What a signed magnitude stands for.
proof fn lemma_signed(w: Width, neg: bool, mag: u64)
    ensures
        real_of(w, Parts { neg, mag }) == (if neg {
            -(units(w, mag as nat) as real / pow2(w.unit()) as real)
        } else {
            units(w, mag as nat) as real / pow2(w.unit()) as real
        }),
{
    lemma_positive(w);
    let (x, d) = (units(w, mag as nat) as real, pow2(w.unit()) as real);
    assert((-x) / d == -(x / d)) by (nonlinear_arith)
        requires
            d > 0 as real,
    ;
}

proof fn lemma_over(a: real, b: real, d: real)
    requires
        d > 0 as real,
    ensures
        a / d - b / d == (a - b) / d,
        a / d + b / d == (a + b) / d,
        size(a / d) == size(a) / d,
        a <= b ==> a / d <= b / d,
        a < b ==> a / d < b / d,
        (a / d) * d == a,
{
    assert(a / d - b / d == (a - b) / d) by (nonlinear_arith)
        requires
            d > 0 as real,
    ;
    assert(a / d + b / d == (a + b) / d) by (nonlinear_arith)
        requires
            d > 0 as real,
    ;
    assert((a / d < 0 as real) == (a < 0 as real)) by (nonlinear_arith)
        requires
            d > 0 as real,
    ;
    assert((-a) / d == -(a / d)) by (nonlinear_arith)
        requires
            d > 0 as real,
    ;
    assert(a <= b ==> a / d <= b / d) by (nonlinear_arith)
        requires
            d > 0 as real,
    ;
    assert(a < b ==> a / d < b / d) by (nonlinear_arith)
        requires
            d > 0 as real,
    ;
    assert((a / d) * d == a) by (nonlinear_arith)
        requires
            d > 0 as real,
    ;
}

/// A sum is the nearest number to the sum.
pub proof fn law_sum_is_near(w: Width, a: Parts, b: Parts)
    requires
        a.mag < w.inf(),
        b.mag < w.inf(),
        sum(w, a, b).mag < w.inf(),
    ensures
        rounds_well_to(w, real_of(w, a) + real_of(w, b), real_of(w, sum(w, a, b))),
{
    let d = pow2(w.unit()) as real;
    let n = signed_units(w, a) + signed_units(w, b);
    let m = (if n < 0 { -n } else { n }) as nat;
    lemma_positive(w);
    reveal(sum);
    lemma_nearest_zero(w, 1);
    lemma_units_zero(w, 0);
    lemma_ratio(w, m, 1);
    let x = units(w, nearest(w, m, 1) as nat) as real;
    let r = sum(w, a, b);
    lemma_signed(w, r.neg, r.mag);
    assert(m as real / 1 as real == m as real) by (nonlinear_arith);
    lemma_over(signed_units(w, a) as real, signed_units(w, b) as real, d);
    lemma_over(n as real, 0 as real, d);
    lemma_over(x, m as real, d);
    lemma_over(-x, n as real, d);
    lemma_over(x - m as real, 0 as real, d);
    lemma_over(size(x - m as real), m as real * grain(w), d);
    let g = grain(w);
    assert((m as real * g) / d == (m as real / d) * g) by (nonlinear_arith)
        requires
            d > 0 as real,
    ;
    lemma_over(m as real, 0 as real, d);
    assert(signed_units(w, r) as real == x || signed_units(w, r) as real == -x);
    if n == 0 {
        assert(x == 0 as real);
        assert(0 as real / d == 0 as real) by (nonlinear_arith)
            requires
                d > 0 as real,
        ;
    } else if n < 0 {
        assert(signed_units(w, r) as real == -x);
        lemma_over(-x - n as real, 0 as real, d);
    } else {
        assert(signed_units(w, r) as real == x);
    }
}

/// A product is the nearest number to the product.
pub proof fn law_product_is_near(w: Width, a: Parts, b: Parts)
    requires
        a.mag < w.inf(),
        b.mag < w.inf(),
        product(w, a, b).mag < w.inf(),
    ensures
        rounds_to(w, real_of(w, a) * real_of(w, b), real_of(w, product(w, a, b))),
{
    let d = pow2(w.unit()) as real;
    let (u, v) = (units(w, a.mag as nat), units(w, b.mag as nat));
    let g = grain(w);
    lemma_positive(w);
    reveal(product);
    lemma_units_zero(w, 0);
    lemma_units_zero(w, a.mag as nat);
    lemma_units_zero(w, b.mag as nat);
    let r = product(w, a, b);
    lemma_signed(w, r.neg, r.mag);
    lemma_signed(w, a.neg, a.mag);
    lemma_signed(w, b.neg, b.mag);
    let (x, y) = (u as real / d, v as real / d);
    assert((-x) * y == -(x * y) && x * (-y) == -(x * y) && (-x) * (-y) == x * y)
        by (nonlinear_arith);
    assert(x >= 0 as real && y >= 0 as real && x * y >= 0 as real) by (nonlinear_arith)
        requires
            d > 0 as real,
            u as real >= 0 as real,
            v as real >= 0 as real,
            x == u as real / d,
            y == v as real / d,
    ;
    assert(0 as real / d == 0 as real) by (nonlinear_arith)
        requires
            d > 0 as real,
    ;
    if u == 0 || v == 0 {
        assert(x * y == 0 as real) by (nonlinear_arith)
            requires
                x == 0 as real || y == 0 as real,
        ;
    } else {
        let n = u * v;
        lemma_ratio(w, n, pow2(w.unit()));
        let z = units(w, r.mag as nat) as real;
        let q = n as real / d;
        assert(n as real == u as real * v as real) by (nonlinear_arith)
            requires
                n == u * v,
        ;
        assert(q / d == x * y) by (nonlinear_arith)
            requires
                d > 0 as real,
                q == (u as real * v as real) / d,
                x == u as real / d,
                y == v as real / d,
        ;
        lemma_over(z, q, d);
        lemma_over(z - q, 0 as real, d);
        lemma_over(size(z - q), q * g + 1 as real / 2 as real, d);
        lemma_over(q * g, 1 as real / 2 as real, d);
        assert((q * g) / d == (x * y) * g) by (nonlinear_arith)
            requires
                d > 0 as real,
                q / d == x * y,
        ;
        lemma_speck(w);
    }
}

proof fn lemma_speck(w: Width)
    ensures
        (1 as real / 2 as real) / (pow2(w.unit()) as real) == speck(w),
{
    lemma_positive(w);
    let d = pow2(w.unit()) as real;
    assert((2 * pow2(w.unit())) as real == 2 as real * d);
    assert((1 as real / 2 as real) / d == 1 as real / (2 as real * d)) by (nonlinear_arith)
        requires
            d > 0 as real,
    ;
}

/// A quotient is the nearest number to the quotient.
pub proof fn law_quotient_is_near(w: Width, a: Parts, b: Parts)
    requires
        a.mag < w.inf(),
        0 < b.mag < w.inf(),
        quotient(w, a, b).mag < w.inf(),
    ensures
        real_of(w, b) != 0 as real,
        rounds_to(w, real_of(w, a) / real_of(w, b), real_of(w, quotient(w, a, b))),
{
    let d = pow2(w.unit()) as real;
    let (u, v) = (units(w, a.mag as nat), units(w, b.mag as nat));
    let g = grain(w);
    lemma_positive(w);
    reveal(quotient);
    lemma_units_zero(w, 0);
    lemma_units_zero(w, a.mag as nat);
    lemma_units_zero(w, b.mag as nat);
    let r = quotient(w, a, b);
    lemma_signed(w, r.neg, r.mag);
    lemma_signed(w, a.neg, a.mag);
    lemma_signed(w, b.neg, b.mag);
    let (x, y) = (u as real / d, v as real / d);
    assert(x >= 0 as real && y > 0 as real && x / y >= 0 as real) by (nonlinear_arith)
        requires
            d > 0 as real,
            u as real >= 0 as real,
            v as real > 0 as real,
            x == u as real / d,
            y == v as real / d,
    ;
    assert((-x) / y == -(x / y) && x / (-y) == -(x / y) && (-x) / (-y) == x / y)
        by (nonlinear_arith)
        requires
            y > 0 as real,
    ;
    assert(0 as real / d == 0 as real) by (nonlinear_arith)
        requires
            d > 0 as real,
    ;
    if u == 0 {
        assert(x / y == 0 as real) by (nonlinear_arith)
            requires
                x == 0 as real,
                y > 0 as real,
        ;
    } else {
        let n = u * pow2(w.unit());
        lemma_ratio(w, n, v);
        let z = units(w, r.mag as nat) as real;
        let q = n as real / v as real;
        assert(n as real == u as real * d) by (nonlinear_arith)
            requires
                n == u * pow2(w.unit()),
                d == pow2(w.unit()) as real,
        ;
        assert(q / d == x / y) by (nonlinear_arith)
            requires
                d > 0 as real,
                v as real > 0 as real,
                q == (u as real * d) / v as real,
                x == u as real / d,
                y == v as real / d,
        ;
        lemma_over(z, q, d);
        lemma_over(z - q, 0 as real, d);
        lemma_over(size(z - q), q * g + 1 as real / 2 as real, d);
        lemma_over(q * g, 1 as real / 2 as real, d);
        assert((q * g) / d == (x / y) * g) by (nonlinear_arith)
            requires
                d > 0 as real,
                q / d == x / y,
        ;
        lemma_speck(w);
    }
}

/// Finite numbers are in the order of the real numbers that they stand for.
pub proof fn law_order_is_that_of_the_reals(w: Width, a: Parts, b: Parts)
    requires
        a.mag < w.inf(),
        b.mag < w.inf(),
    ensures
        less(w, a, b) <==> real_of(w, a) < real_of(w, b),
        less_or_equal(w, a, b) <==> real_of(w, a) <= real_of(w, b),
        equal(w, a, b) <==> real_of(w, a) == real_of(w, b),
{
    let d = pow2(w.unit()) as real;
    lemma_positive(w);
    let (x, y) = (signed_units(w, a), signed_units(w, b));
    lemma_units_zero(w, a.mag as nat);
    lemma_units_zero(w, b.mag as nat);
    if a.mag < b.mag {
        lemma_units_ordered(w, a.mag as nat, b.mag as nat);
    } else if b.mag < a.mag {
        lemma_units_ordered(w, b.mag as nat, a.mag as nat);
    }
    lemma_over(x as real, y as real, d);
    lemma_over(y as real, x as real, d);
}

/// Negation negates.
pub proof fn law_negation(w: Width, a: Parts)
    ensures
        real_of(w, negated(a)) == -real_of(w, a),
{
    lemma_signed(w, a.neg, a.mag);
    lemma_signed(w, !a.neg, a.mag);
}

/// An integer becomes the nearest number; one of no more bits than the precision
/// is kept.
pub proof fn law_integer_is_near(w: Width, n: int)
    requires
        of_int(w, n).mag < w.inf(),
    ensures
        rounds_well_to(w, n as real, real_of(w, of_int(w, n))),
        -pow2(w.prec()) <= n <= pow2(w.prec()) ==> real_of(w, of_int(w, n)) == n as real,
{
    let d = pow2(w.unit()) as real;
    let m = (if n < 0 { -n } else { n }) as nat;
    let k = m * pow2(w.unit());
    let g = grain(w);
    lemma_positive(w);
    reveal(of_int);
    lemma_units_zero(w, 0);
    let r = of_int(w, n);
    lemma_signed(w, r.neg, r.mag);
    assert(0 as real / d == 0 as real) by (nonlinear_arith)
        requires
            d > 0 as real,
    ;
    if n != 0 {
        lemma_ratio(w, k, 1);
        let x = units(w, r.mag as nat) as real;
        assert(k as real == m as real * d) by (nonlinear_arith)
            requires
                k == m * pow2(w.unit()),
                d == pow2(w.unit()) as real,
        ;
        assert(k as real / 1 as real == k as real) by (nonlinear_arith);
        assert(k as real / d == m as real) by (nonlinear_arith)
            requires
                k as real == m as real * d,
                d > 0 as real,
        ;
        lemma_over(x, k as real, d);
        lemma_over(x - k as real, 0 as real, d);
        lemma_over(size(x - k as real), k as real * g, d);
        assert((k as real * g) / d == m as real * g) by (nonlinear_arith)
            requires
                d > 0 as real,
                k as real == m as real * d,
        ;
        let q = x / d;
        assert(size(q - m as real) <= m as real * g);
        assert(real_of(w, r) == if n < 0 { -q } else { q });
        assert(size(n as real) == m as real);
        if m <= pow2(w.prec()) {
            lemma_whole_is_kept(w, m);
        }
    } else {
        assert(0 as real * g == 0 as real) by (nonlinear_arith);
    }
}

proof fn lemma_whole_is_kept(w: Width, m: nat)
    requires
        m <= pow2(w.prec()),
        nearest(w, m * pow2(w.unit()), 1) < w.inf(),
    ensures
        units(w, nearest(w, m * pow2(w.unit()), 1) as nat) == m * pow2(w.unit()),
{
    lemma2_to64();
    lemma_hidden(w);
    if m < pow2(w.prec()) {
        lemma_short_is_exact(w, m, w.unit());
    } else {
        lemma_pow2_adds(w.prec(), w.unit());
        lemma_pow2_adds(1, (w.prec() + w.unit() - 1) as nat);
        lemma_pow2_adds((w.prec() - 1) as nat, w.unit() + 1);
        assert(pow2((w.prec() - 1) as nat) * pow2(w.unit() + 1) == m * pow2(w.unit()));
        lemma_short_is_exact(w, pow2((w.prec() - 1) as nat), w.unit() + 1);
    }
}

/// A whole number of up to 53 bits is a double.
pub proof fn lemma_whole_double(n: nat)
    requires
        n <= 0x20_0000_0000_0000,
    ensures
        ({
            let p = of_int(Width::Double, n as int);
            &&& p.mag < Width::Double.inf()
            &&& Binary64::of(p).parts() == p
            &&& Binary64::of(p).is_finite()
            &&& real_of(Width::Double, p) == n as real
        }),
{
    let w = Width::Double;
    lemma2_to64();
    lemma2_to64_rest();
    lemma_integer_result(w, n as int);
    lemma_of(of_int(w, n as int));
    assert(of_int(w, n as int).mag < w.inf()) by {
        reveal(of_int);
        lemma_pow2_adds(53, 1074);
        let m: nat = 0x4340_0000_0000_0000;
        lemma_mag(w, m);
        assert(mag_exp(w, m) == 1075 && mag_man(w, m) == 0x10_0000_0000_0000);
        lemma_pow2_adds(52, 1075);
        law_representable_is_kept(w, m, 1);
        assert(units(w, m) * 1 == units(w, m));
        assert(n * pow2(1074) <= pow2(1127)) by (nonlinear_arith)
            requires
                n <= 0x20_0000_0000_0000,
                pow2(1127) == 0x20_0000_0000_0000 * pow2(1074),
        ;
        law_rounding_keeps_order(w, n * pow2(1074), 1, pow2(1127), 1);
    }
    law_integer_is_near(w, n as int);
}

// ---- the operations ----

/// Results of finite numbers are in range, or infinite.
proof fn lemma_results(w: Width, a: Parts, b: Parts)
    requires
        a.mag < w.inf(),
        b.mag < w.inf(),
    ensures
        sum(w, a, b).mag <= w.inf(),
        product(w, a, b).mag <= w.inf(),
        b.mag > 0 ==> quotient(w, a, b).mag <= w.inf(),
{
    reveal(sum);
    reveal(product);
    reveal(quotient);
    lemma_positive(w);
    lemma_units_zero(w, b.mag as nat);
    let n = signed_units(w, a) + signed_units(w, b);
    let m = (if n < 0 { -n } else { n }) as nat;
    law_rounding_keeps_order(w, m, 1, m, 1);
    let (u, v, d) = (units(w, a.mag as nat), units(w, b.mag as nat), pow2(w.unit()));
    law_rounding_keeps_order(w, u * v, d, u * v, d);
    if b.mag > 0 {
        law_rounding_keeps_order(w, u * d, v, u * d, v);
    }
}

proof fn lemma_integer_result(w: Width, n: int)
    ensures
        of_int(w, n).mag <= w.inf(),
{
    reveal(of_int);
    let m = (if n < 0 { -n } else { n }) as nat * pow2(w.unit());
    law_rounding_keeps_order(w, m, 1, m, 1);
}

proof fn lemma_of(p: Parts)
    ensures
        p.mag <= Width::Single.inf() ==> Binary32::of(p).parts() == p,
        p.mag <= Width::Double.inf() ==> Binary64::of(p).parts() == p,
{
}

pub proof fn law_times(a: Binary32, b: Binary32)
    requires
        a.is_finite(),
        b.is_finite(),
        a.times(b).is_finite(),
    ensures
        rounds_to(Width::Single, num(a) * num(b), num(a.times(b))),
{
    lemma_results(Width::Single, a.parts(), b.parts());
    lemma_of(product(Width::Single, a.parts(), b.parts()));
    law_product_is_near(Width::Single, a.parts(), b.parts());
}

pub proof fn law_plus(a: Binary32, b: Binary32)
    requires
        a.is_finite(),
        b.is_finite(),
        a.plus(b).is_finite(),
    ensures
        rounds_well_to(Width::Single, num(a) + num(b), num(a.plus(b))),
{
    lemma_results(Width::Single, a.parts(), b.parts());
    lemma_of(sum(Width::Single, a.parts(), b.parts()));
    law_sum_is_near(Width::Single, a.parts(), b.parts());
}

pub proof fn law_minus(a: Binary32, b: Binary32)
    requires
        a.is_finite(),
        b.is_finite(),
        a.minus(b).is_finite(),
    ensures
        rounds_well_to(Width::Single, num(a) - num(b), num(a.minus(b))),
{
    let c = negated(b.parts());
    lemma_results(Width::Single, a.parts(), c);
    lemma_of(sum(Width::Single, a.parts(), c));
    law_negation(Width::Single, b.parts());
    law_sum_is_near(Width::Single, a.parts(), c);
}

pub proof fn law_over(a: Binary32, b: Binary32)
    requires
        a.is_finite(),
        b.is_finite(),
        num(b) != 0 as real,
        a.over(b).is_finite(),
    ensures
        rounds_to(Width::Single, num(a) / num(b), num(a.over(b))),
{
    lemma_zero_parts(Width::Single, b.parts());
    lemma_results(Width::Single, a.parts(), b.parts());
    lemma_of(quotient(Width::Single, a.parts(), b.parts()));
    law_quotient_is_near(Width::Single, a.parts(), b.parts());
}

/// Zero stands for zero, and nothing else does.
pub proof fn lemma_zero_parts(w: Width, a: Parts)
    requires
        a.mag < w.inf(),
    ensures
        real_of(w, a) == 0 as real <==> a.mag == 0,
{
    lemma_positive(w);
    lemma_units_zero(w, a.mag as nat);
    let d = pow2(w.unit()) as real;
    let n = signed_units(w, a) as real;
    assert((n / d == 0 as real) == (n == 0 as real)) by (nonlinear_arith)
        requires
            d > 0 as real,
    ;
}

pub proof fn law_of_integer(n: int)
    requires
        Binary32::of_integer(n).is_finite(),
    ensures
        rounds_well_to(Width::Single, n as real, num(Binary32::of_integer(n))),
        -0x100_0000 <= n <= 0x100_0000 ==> num(Binary32::of_integer(n)) == n as real,
{
    lemma2_to64();
    lemma_integer_result(Width::Single, n);
    lemma_of(of_int(Width::Single, n));
    law_integer_is_near(Width::Single, n);
}

/// Integers that a machine word holds are finite numbers.
pub proof fn lemma_of_integer_finite(n: int)
    requires
        -0x1_0000_0000_0000_0000 <= n <= 0x1_0000_0000_0000_0000,
    ensures
        Binary32::of_integer(n).is_finite(),
{
    reveal(of_int);
    lemma_integer_result(Width::Single, n);
    lemma_of(of_int(Width::Single, n));
    lemma_integer_result(Width::Single, -n);
    lemma_of(of_int(Width::Single, -n));
    lemma_integer_finite(if n < 0 { -n } else { n });
}

pub proof fn law_compare(a: Binary32, b: Binary32)
    requires
        a.is_finite(),
        b.is_finite(),
    ensures
        a.below(b) <==> num(a) < num(b),
        a.at_most(b) <==> num(a) <= num(b),
        a.equals(b) <==> num(a) == num(b),
{
    law_order_is_that_of_the_reals(Width::Single, a.parts(), b.parts());
}

pub proof fn law_times64(a: Binary64, b: Binary64)
    requires
        a.is_finite(),
        b.is_finite(),
        a.times(b).is_finite(),
    ensures
        rounds_to(Width::Double, num64(a) * num64(b), num64(a.times(b))),
{
    lemma_results(Width::Double, a.parts(), b.parts());
    lemma_of(product(Width::Double, a.parts(), b.parts()));
    law_product_is_near(Width::Double, a.parts(), b.parts());
}

pub proof fn law_plus64(a: Binary64, b: Binary64)
    requires
        a.is_finite(),
        b.is_finite(),
        a.plus(b).is_finite(),
    ensures
        rounds_well_to(Width::Double, num64(a) + num64(b), num64(a.plus(b))),
{
    lemma_results(Width::Double, a.parts(), b.parts());
    lemma_of(sum(Width::Double, a.parts(), b.parts()));
    law_sum_is_near(Width::Double, a.parts(), b.parts());
}

pub proof fn law_minus64(a: Binary64, b: Binary64)
    requires
        a.is_finite(),
        b.is_finite(),
        a.minus(b).is_finite(),
    ensures
        rounds_well_to(Width::Double, num64(a) - num64(b), num64(a.minus(b))),
{
    let c = negated(b.parts());
    lemma_results(Width::Double, a.parts(), c);
    lemma_of(sum(Width::Double, a.parts(), c));
    law_negation(Width::Double, b.parts());
    law_sum_is_near(Width::Double, a.parts(), c);
}

pub proof fn law_over64(a: Binary64, b: Binary64)
    requires
        a.is_finite(),
        b.is_finite(),
        num64(b) != 0 as real,
        a.over(b).is_finite(),
    ensures
        rounds_to(Width::Double, num64(a) / num64(b), num64(a.over(b))),
{
    lemma_zero_parts(Width::Double, b.parts());
    lemma_results(Width::Double, a.parts(), b.parts());
    lemma_of(quotient(Width::Double, a.parts(), b.parts()));
    law_quotient_is_near(Width::Double, a.parts(), b.parts());
}

pub proof fn law_of_integer64(n: int)
    requires
        Binary64::of_integer(n).is_finite(),
    ensures
        rounds_well_to(Width::Double, n as real, num64(Binary64::of_integer(n))),
        -0x20_0000_0000_0000 <= n <= 0x20_0000_0000_0000 ==> num64(Binary64::of_integer(n))
            == n as real,
{
    lemma2_to64();
    lemma2_to64_rest();
    lemma_integer_result(Width::Double, n);
    lemma_of(of_int(Width::Double, n));
    law_integer_is_near(Width::Double, n);
}

pub proof fn law_compare64(a: Binary64, b: Binary64)
    requires
        a.is_finite(),
        b.is_finite(),
    ensures
        a.below(b) <==> num64(a) < num64(b),
        a.at_most(b) <==> num64(a) <= num64(b),
        a.equals(b) <==> num64(a) == num64(b),
{
    law_order_is_that_of_the_reals(Width::Double, a.parts(), b.parts());
}

/// The nearest integer to a number is no farther from it than a half, and no
/// integer that is as near lies nearer to zero; those beyond the range become its
/// ends.
pub proof fn law_nearest_integer(a: Binary32, lo: int, hi: int)
    requires
        a.is_finite(),
        lo < hi,
    ensures
        ({
            let n = a.integer(Toward::Nearest, lo, hi);
            &&& lo <= n <= hi
            &&& lo < n < hi ==> size(n as real - num(a)) <= 1 as real / 2 as real
            &&& lo == n ==> num(a) <= n as real + 1 as real / 2 as real
            &&& hi == n ==> num(a) >= n as real - 1 as real / 2 as real
        }),
{
    let w = Width::Single;
    let d = pow2(149) as int;
    lemma_positive(w);
    reveal(to_int);
    let x = signed_units(w, a.parts());
    let n = integral(Toward::Nearest, x, d);
    let y = if x >= 0 { x } else { -x };
    let m = (2 * y + d) / (2 * d);
    lemma_fundamental_div_mod(2 * y + d, 2 * d);
    assert(-d <= 2 * (m * d) - 2 * y <= d) by (nonlinear_arith)
        requires
            2 * y + d == (2 * d) * m + (2 * y + d) % (2 * d),
            0 <= (2 * y + d) % (2 * d) < 2 * d,
    ;
    assert(n == m || n == -m);
    assert((-m) * d == -(m * d)) by (nonlinear_arith);
    assert(-d <= 2 * (n * d) - 2 * x <= d);
    let (r, s) = (d as real, x as real);
    assert((n * d) as real == n as real * r) by (nonlinear_arith)
        requires
            r == d as real,
    ;
    assert(size(n as real - s / r) <= 1 as real / 2 as real) by {
        assert(-(1 as real / 2 as real) <= n as real - s / r && n as real - s / r <= 1 as real
            / 2 as real) by (nonlinear_arith)
            requires
                -r <= 2 as real * (n as real * r) - 2 as real * s,
                2 as real * (n as real * r) - 2 as real * s <= r,
                r > 0 as real,
        ;
    }
    assert(num(a) == s / r);
    let c = a.integer(Toward::Nearest, lo, hi);
    assert(c == clamp(n, lo, hi));
    if n <= lo {
        assert(n as real <= lo as real);
    }
    if n >= hi {
        assert(n as real >= hi as real);
    }
}

/// A power of two that is in range is kept.
pub proof fn lemma_power_is_kept(k: nat)
    requires
        k <= 64,
    ensures
        Binary32::of_integer(pow2(k) as int).is_finite(),
        num(Binary32::of_integer(pow2(k) as int)) == pow2(k) as real,
{
    let w = Width::Single;
    let n = pow2(k) as int;
    let d = pow2(149) as real;
    lemma_pow2_pos(k);
    lemma_pow2_pos(149);
    lemma2_to64();
    assert(n <= 0x1_0000_0000_0000_0000) by {
        lemma2_to64_rest();
        lemma_pow2_mono(k, 64);
    }
    lemma_of_integer_finite(n);
    lemma_integer_result(w, n);
    lemma_of(of_int(w, n));
    reveal(of_int);
    lemma_pow2_adds(k, 149);
    assert(1 * pow2(k + 149) == pow2(k + 149));
    lemma_hidden(w);
    lemma_short_is_exact(w, 1, k + 149);
    let r = of_int(w, n);
    lemma_signed(w, r.neg, r.mag);
    assert((pow2(k) * pow2(149)) as real / d == pow2(k) as real) by {
        let x = pow2(k) as real;
        assert((pow2(k) * pow2(149)) as real == x * d) by (nonlinear_arith)
            requires
                x == pow2(k) as real,
                d == pow2(149) as real,
        ;
        assert((x * d) / d == x) by (nonlinear_arith)
            requires
                d > 0 as real,
        ;
    }
}

/// A quotient by a number that is at least one is finite.
pub proof fn lemma_quotient_finite(a: Binary32, c: Binary32)
    requires
        a.is_finite(),
        c.is_finite(),
        num(c) >= 1 as real,
    ensures
        a.over(c).is_finite(),
{
    let w = Width::Single;
    let (u, v, d) = (units(w, a.parts().mag as nat), units(w, c.parts().mag as nat), pow2(149));
    lemma_pow2_pos(149);
    lemma_zero_parts(w, c.parts());
    lemma_results(w, a.parts(), c.parts());
    lemma_of(quotient(w, a.parts(), c.parts()));
    lemma_signed(w, c.parts().neg, c.parts().mag);
    assert(v >= d) by {
        let (x, y) = (v as real, d as real);
        assert(x / y >= 0 as real) by (nonlinear_arith)
            requires
                x >= 0 as real,
                y > 0 as real,
        ;
        assert(x >= y) by (nonlinear_arith)
            requires
                x / y >= 1 as real,
                y > 0 as real,
        ;
    }
    reveal(quotient);
    law_representable_is_kept(w, a.parts().mag as nat, 1);
    assert((u * d) * 1 <= u * v) by (nonlinear_arith)
        requires
            d <= v,
    ;
    assert(u * 1 == u);
    law_rounding_keeps_order(w, u * d, v, u, 1);
}

// ---- what is in range ----

/// The grain of single precision.
pub proof fn lemma_grain()
    ensures
        grain(Width::Single) == 1 as real / 0x100_0000 as real,
        speck(Width::Single) > 0 as real,
        speck(Width::Single) * 0x1000_0000_0000_0000 as real <= grain(Width::Single),
        grain(Width::Double) == 1 as real / 0x20_0000_0000_0000 as real,
        speck(Width::Double) > 0 as real,
        speck(Width::Double) * 0x1000_0000_0000_0000 as real <= grain(Width::Double),
{
    lemma2_to64();
    lemma2_to64_rest();
    lemma_positive(Width::Single);
    lemma_positive(Width::Double);
    lemma_pow2_mono(85, 149);
    lemma_pow2_mono(114, 1074);
    lemma_pow2_adds(60, 25);
    lemma_pow2_adds(60, 54);
    let (a, b) = ((2 * pow2(149)) as real, (2 * pow2(1074)) as real);
    let k = 0x1000_0000_0000_0000 as real;
    assert((1 as real / a) * k <= 1 as real / 0x100_0000 as real) by (nonlinear_arith)
        requires
            a >= k * 0x100_0000 as real,
            k == 0x1000_0000_0000_0000 as real,
    ;
    assert((1 as real / b) * k <= 1 as real / 0x20_0000_0000_0000 as real) by (nonlinear_arith)
        requires
            b >= k * 0x20_0000_0000_0000 as real,
            k == 0x1000_0000_0000_0000 as real,
    ;
}

/// `2^64`, as a real number.
pub open spec fn huge() -> real {
    0x1_0000_0000_0000_0000 as real
}

/// A ratio of no more than `2^64` is rounded to a finite number.
proof fn lemma_ratio_finite(n: nat, d: nat)
    requires
        d > 0,
        n <= pow2(213) * d,
    ensures
        nearest(Width::Single, n, d) < Width::Single.inf(),
{
    let w = Width::Single;
    let m: nat = 0x5f80_0000;
    lemma_mag(w, m);
    assert(mag_exp(w, m) == 190 && mag_man(w, m) == 0x80_0000);
    lemma2_to64();
    lemma_pow2_adds(23, 190);
    law_representable_is_kept(w, m, 1);
    assert(units(w, m) * 1 == units(w, m));
    assert(n * 1 <= pow2(213) * d);
    law_rounding_keeps_order(w, n, d, pow2(213), 1);
}

/// Magnitudes in units.
proof fn lemma_size(a: Binary32)
    requires
        a.is_finite(),
    ensures
        size(num(a)) * (pow2(149) as real) == units(Width::Single, a.parts().mag as nat) as real,
{
    let w = Width::Single;
    let (u, d) = (units(w, a.parts().mag as nat) as real, pow2(149) as real);
    lemma_positive(w);
    lemma_signed(w, a.parts().neg, a.parts().mag);
    assert((u / d) * d == u && u / d >= 0 as real) by (nonlinear_arith)
        requires
            d > 0 as real,
            u >= 0 as real,
    ;
}

/// A number without its sign.
pub proof fn lemma_abs(a: Binary32)
    requires
        a.is_finite(),
    ensures
        a.abs().is_finite(),
        num(a.abs()) == size(num(a)),
{
    let w = Width::Single;
    let (u, d) = (units(w, a.parts().mag as nat) as real, pow2(149) as real);
    lemma_positive(w);
    lemma_signed(w, a.parts().neg, a.parts().mag);
    lemma_signed(w, false, a.parts().mag);
    lemma_of(Parts { neg: false, mag: a.parts().mag });
    assert(u / d >= 0 as real) by (nonlinear_arith)
        requires
            d > 0 as real,
            u >= 0 as real,
    ;
}

/// A number with the other sign.
pub proof fn lemma_negate(a: Binary32)
    requires
        a.is_finite(),
    ensures
        a.negate().is_finite(),
        num(a.negate()) == -num(a),
{
    law_negation(Width::Single, a.parts());
    lemma_of(negated(a.parts()));
}

/// A number without its sign, in units.
pub proof fn lemma_magnitude(w: Width, a: Parts)
    requires
        a.mag < w.inf(),
    ensures
        size(real_of(w, a)) * (pow2(w.unit()) as real) == units(w, a.mag as nat) as real,
{
    let (u, d) = (units(w, a.mag as nat) as real, pow2(w.unit()) as real);
    lemma_positive(w);
    lemma_signed(w, a.neg, a.mag);
    assert((u / d) * d == u && u / d >= 0 as real) by (nonlinear_arith)
        requires
            d > 0 as real,
            u >= 0 as real,
    ;
}

/// A ratio of two numbers, rounded to a number.
pub(crate) proof fn lemma_ratio_is_near(n: nat, p: nat)
    requires
        p > 0,
        nearest(Width::Single, n * pow2(149), p) < Width::Single.inf(),
    ensures
        rounds_to(
            Width::Single,
            n as real / p as real,
            real_of(
                Width::Single,
                (Parts { neg: false, mag: nearest(Width::Single, n * pow2(149), p) }),
            ),
        ),
{
    let w = Width::Single;
    let mag = nearest(w, n * pow2(149), p);
    lemma_positive(w);
    lemma_ratio(w, n * pow2(149), p);
    lemma_signed(w, false, mag);
    let (x, d, nr, pr) = (
        units(w, mag as nat) as real,
        pow2(149) as real,
        n as real,
        p as real,
    );
    assert((n * pow2(149)) as real == nr * d) by (nonlinear_arith)
        requires
            nr == n as real,
            d == pow2(149) as real,
    ;
    let q = (nr * d) / pr;
    assert(q / d == nr / pr && q >= 0 as real) by (nonlinear_arith)
        requires
            q == (nr * d) / pr,
            nr >= 0 as real,
            pr > 0 as real,
            d > 0 as real,
    ;
    let g = grain(w);
    lemma_over(x, q, d);
    lemma_over(x - q, 0 as real, d);
    lemma_over(size(x - q), q * g + 1 as real / 2 as real, d);
    lemma_over(q * g, 1 as real / 2 as real, d);
    assert((q * g) / d == (q / d) * g) by (nonlinear_arith)
        requires
            d > 0 as real,
    ;
    assert(q / d >= 0 as real) by (nonlinear_arith)
        requires
            q >= 0 as real,
            d > 0 as real,
    ;
    lemma_speck(w);
}

/// A quotient of no more than `2^64` is finite.
pub proof fn lemma_finite_over(a: Binary32, c: Binary32)
    requires
        a.is_finite(),
        c.is_finite(),
        num(c) != 0 as real,
        size(num(a)) <= huge() * size(num(c)),
    ensures
        a.over(c).is_finite(),
{
    let w = Width::Single;
    let (u, v, d) = (units(w, a.parts().mag as nat), units(w, c.parts().mag as nat), pow2(149));
    lemma_positive(w);
    lemma_zero_parts(w, c.parts());
    lemma_results(w, a.parts(), c.parts());
    lemma_of(quotient(w, a.parts(), c.parts()));
    lemma_size(a);
    lemma_size(c);
    let (x, y, r) = (size(num(a)), size(num(c)), d as real);
    assert(v > 0) by {
        assert(y * r > 0 as real) by (nonlinear_arith)
            requires
                y > 0 as real,
                r > 0 as real,
        ;
    }
    lemma2_to64();
    lemma2_to64_rest();
    lemma_pow2_adds(64, 149);
    let k: nat = 0x1_0000_0000_0000_0000;
    assert(u <= k * v) by {
        assert(x * r <= k as real * (y * r)) by (nonlinear_arith)
            requires
                x <= k as real * y,
                r > 0 as real,
        ;
        assert((k * v) as real == k as real * (v as real)) by (nonlinear_arith);
    }
    assert(u * d <= pow2(213) * v) by (nonlinear_arith)
        requires
            u <= k * v,
            pow2(213) == k * d,
    ;
    reveal(quotient);
    lemma_ratio_finite(u * d, v);
}

/// A number that is not negative loses its fraction; those beyond the range become its
/// end, and so does what is negative.
pub proof fn law_fraction_is_dropped(a: Binary32, to: Toward, hi: int)
    requires
        a.is_finite(),
        to == Toward::Zero || to == Toward::Floor,
        0 <= hi,
    ensures
        ({
            let n = a.integer(to, 0, hi);
            &&& 0 <= n <= hi
            &&& num(a) < 0 as real ==> n == 0
            &&& num(a) >= 0 as real ==> n as real <= num(a)
            &&& num(a) >= 0 as real && n < hi ==> num(a) < n as real + 1 as real
        }),
{
    let w = Width::Single;
    let d = pow2(149) as int;
    lemma_positive(w);
    reveal(to_int);
    let x = signed_units(w, a.parts());
    let (r, s) = (d as real, x as real);
    assert(num(a) == s / r);
    assert(num(a) * r == s) by (nonlinear_arith)
        requires
            num(a) == s / r,
            r > 0 as real,
    ;
    if x >= 0 {
        let m = x / d;
        lemma_fundamental_div_mod(x, d);
        let q = m as real;
        assert((d * m) as real == r * q) by (nonlinear_arith)
            requires
                r == d as real,
                q == m as real,
        ;
        assert(m >= 0) by (nonlinear_arith)
            requires
                x == d * m + x % d,
                x >= 0,
                0 <= x % d,
                x % d < d,
                d > 0,
        ;
        assert(q <= num(a) && num(a) < q + 1 as real) by (nonlinear_arith)
            requires
                num(a) * r == s,
                r * q <= s,
                s < r * q + r,
                r > 0 as real,
        ;
        assert(num(a) >= 0 as real);
    } else {
        assert(num(a) < 0 as real) by (nonlinear_arith)
            requires
                num(a) * r == s,
                s < 0 as real,
                r > 0 as real,
        ;
        let m = (-x) / d;
        lemma_fundamental_div_mod(-x, d);
        lemma_fundamental_div_mod(x, d);
        assert(m >= 0) by (nonlinear_arith)
            requires
                -x == d * m + (-x) % d,
                x < 0,
                0 <= (-x) % d,
                (-x) % d < d,
                d > 0,
        ;
        let k = x / d;
        assert(k < 0) by (nonlinear_arith)
            requires
                x == d * k + x % d,
                x < 0,
                0 <= x % d,
                d > 0,
        ;
    }
}

/// The number that a pattern of bits stands for.
pub proof fn lemma_bits(a: Binary32, e: nat, f: nat)
    requires
        a.bits == e * 0x80_0000 + f,
        f < 0x80_0000,
        1 <= e <= 149,
    ensures
        a.is_finite(),
        num(a) == (0x80_0000 + f) as real / (pow2((150 - e) as nat) as real),
{
    let w = Width::Single;
    let b = a.bits;
    lemma_positive(w);
    assert(a.parts().mag == b && !a.parts().neg);
    lemma_mag(w, b as nat);
    assert(mag_exp(w, b as nat) == e - 1 && mag_man(w, b as nat) == 0x80_0000 + f);
    lemma_signed(w, a.parts().neg, a.parts().mag);
    lemma_pow2_adds((e - 1) as nat, (150 - e) as nat);
    lemma_pow2_pos((e - 1) as nat);
    lemma_pow2_pos((150 - e) as nat);
    let (m, p, q) = (0x80_0000 + f, pow2((e - 1) as nat), pow2((150 - e) as nat));
    let (x, y, z) = (m as real, p as real, q as real);
    assert((m * p) as real == x * y) by (nonlinear_arith)
        requires
            x == m as real,
            y == p as real,
    ;
    assert((p * q) as real == y * z) by (nonlinear_arith)
        requires
            y == p as real,
            z == q as real,
    ;
    assert((x * y) / (y * z) == x / z) by (nonlinear_arith)
        requires
            y > 0 as real,
            z > 0 as real,
    ;
}

/// Results of no more than `2^64` are finite.
pub proof fn lemma_finite_times(a: Binary32, b: Binary32)
    requires
        a.is_finite(),
        b.is_finite(),
        size(num(a) * num(b)) <= huge(),
    ensures
        a.times(b).is_finite(),
{
    let w = Width::Single;
    let (u, v) = (units(w, a.parts().mag as nat), units(w, b.parts().mag as nat));
    let d = pow2(149) as real;
    lemma_positive(w);
    lemma_size(a);
    lemma_size(b);
    lemma_results(w, a.parts(), b.parts());
    lemma_of(product(w, a.parts(), b.parts()));
    let (x, y) = (size(num(a)), size(num(b)));
    assert(size(num(a) * num(b)) == x * y) by (nonlinear_arith)
        requires
            x == size(num(a)),
            y == size(num(b)),
    ;
    lemma2_to64();
    lemma2_to64_rest();
    lemma_pow2_adds(64, 149);
    assert(u * v <= pow2(213) * pow2(149)) by {
        let n = (u * v) as real;
        assert((u * v) as real == u as real * v as real) by (nonlinear_arith);
        assert(n == (x * y) * (d * d)) by (nonlinear_arith)
            requires
                n == u as real * v as real,
                x * d == u as real,
                y * d == v as real,
        ;
        let k = (pow2(213) * pow2(149)) as real;
        assert((pow2(213) * pow2(149)) as real == pow2(213) as real * (pow2(149) as real))
            by (nonlinear_arith);
        assert(k == (huge() * d) * d) by (nonlinear_arith)
            requires
                k == pow2(213) as real * d,
                pow2(213) as real == huge() * d,
        ;
        assert(n <= k) by (nonlinear_arith)
            requires
                n == (x * y) * (d * d),
                k == (huge() * d) * d,
                x * y <= huge(),
                d > 0 as real,
        ;
    }
    reveal(product);
    lemma_ratio_finite(u * v, pow2(149));
}

pub proof fn lemma_finite_plus(a: Binary32, b: Binary32)
    requires
        a.is_finite(),
        b.is_finite(),
        size(num(a) + num(b)) <= huge(),
    ensures
        a.plus(b).is_finite(),
{
    let w = Width::Single;
    lemma_results(w, a.parts(), b.parts());
    lemma_of(sum(w, a.parts(), b.parts()));
    lemma_sum_finite(a.parts(), b.parts());
}

proof fn lemma_sum_finite(a: Parts, b: Parts)
    requires
        a.mag < Width::Single.inf(),
        b.mag < Width::Single.inf(),
        size(real_of(Width::Single, a) + real_of(Width::Single, b)) <= huge(),
    ensures
        sum(Width::Single, a, b).mag < Width::Single.inf(),
{
    let w = Width::Single;
    let d = pow2(149) as real;
    let n = signed_units(w, a) + signed_units(w, b);
    let m = (if n < 0 { -n } else { n }) as nat;
    lemma_positive(w);
    lemma_over(signed_units(w, a) as real, signed_units(w, b) as real, d);
    lemma_over(n as real, 0 as real, d);
    lemma2_to64();
    lemma2_to64_rest();
    lemma_pow2_adds(64, 149);
    assert(m as real <= huge() * d) by (nonlinear_arith)
        requires
            m as real / d <= huge(),
            d > 0 as real,
    ;
    assert(m <= pow2(213) * 1);
    reveal(sum);
    lemma_nearest_zero(w, 1);
    lemma_ratio_finite(m, 1);
}

pub proof fn lemma_finite_minus(a: Binary32, b: Binary32)
    requires
        a.is_finite(),
        b.is_finite(),
        size(num(a) - num(b)) <= huge(),
    ensures
        a.minus(b).is_finite(),
{
    let w = Width::Single;
    let c = negated(b.parts());
    lemma_results(w, a.parts(), c);
    lemma_of(sum(w, a.parts(), c));
    law_negation(w, b.parts());
    lemma_sum_finite(a.parts(), c);
}

// ---- what is in range of double precision ----

/// `2^126`, as a real number.
pub open spec fn vast() -> real {
    0x4000_0000_0000_0000_0000_0000_0000_0000 as real
}

proof fn lemma_vast()
    ensures
        pow2(126) as real == vast(),
        pow2(1200) as real == vast() * (pow2(1074) as real),
        speck(Width::Double) * vast() <= grain(Width::Double),
{
    lemma2_to64();
    lemma_pow2_adds(62, 64);
    lemma_pow2_adds(126, 1074);
    assert(pow2(62) == 0x4000_0000_0000_0000) by {
        lemma2_to64_rest();
    }
    assert((pow2(126) * pow2(1074)) as real == pow2(126) as real * (pow2(1074) as real))
        by (nonlinear_arith);
    lemma_grain();
    lemma_positive(Width::Double);
    lemma_pow2_mono(180, 1074);
    lemma_pow2_adds(126, 54);
    assert(pow2(54) == 0x40_0000_0000_0000) by {
        lemma2_to64_rest();
    }
    let b = (2 * pow2(1074)) as real;
    assert(pow2(180) as real == vast() * 0x40_0000_0000_0000 as real);
    assert((1 as real / b) * vast() <= 1 as real / 0x20_0000_0000_0000 as real)
        by (nonlinear_arith)
        requires
            b >= vast() * 0x20_0000_0000_0000 as real,
            vast() >= 1 as real,
    ;
}

proof fn lemma_ratio_finite64(n: nat, d: nat)
    requires
        d > 0,
        n <= pow2(1200) * d,
    ensures
        nearest(Width::Double, n, d) < Width::Double.inf(),
{
    let w = Width::Double;
    let m: nat = 0x47d0_0000_0000_0000;
    lemma_hidden(w);
    lemma_mag(w, m);
    lemma2_to64_rest();
    assert(pow2(52) == 0x10_0000_0000_0000);
    assert(mag_exp(w, m) == 1148 && mag_man(w, m) == 0x10_0000_0000_0000);
    lemma_pow2_adds(52, 1148);
    law_representable_is_kept(w, m, 1);
    assert(units(w, m) * 1 == units(w, m));
    assert(n * 1 <= pow2(1200) * d);
    law_rounding_keeps_order(w, n, d, pow2(1200), 1);
}

proof fn lemma_size64(a: Binary64)
    requires
        a.is_finite(),
    ensures
        size(num64(a)) * (pow2(1074) as real) == units(
            Width::Double,
            a.parts().mag as nat,
        ) as real,
{
    let w = Width::Double;
    let (u, d) = (units(w, a.parts().mag as nat) as real, pow2(1074) as real);
    lemma_positive(w);
    lemma_signed(w, a.parts().neg, a.parts().mag);
    assert((u / d) * d == u && u / d >= 0 as real) by (nonlinear_arith)
        requires
            d > 0 as real,
            u >= 0 as real,
    ;
}

/// A number without its sign.
pub proof fn lemma_abs64(a: Binary64)
    requires
        a.is_finite(),
    ensures
        a.abs().is_finite(),
        num64(a.abs()) == size(num64(a)),
{
    let w = Width::Double;
    let (u, d) = (units(w, a.parts().mag as nat) as real, pow2(1074) as real);
    lemma_positive(w);
    lemma_signed(w, a.parts().neg, a.parts().mag);
    lemma_signed(w, false, a.parts().mag);
    lemma_of(Parts { neg: false, mag: a.parts().mag });
    assert(u / d >= 0 as real) by (nonlinear_arith)
        requires
            d > 0 as real,
            u >= 0 as real,
    ;
}

/// Results of no more than `2^126` are finite.
pub proof fn lemma_finite_times64(a: Binary64, b: Binary64)
    requires
        a.is_finite(),
        b.is_finite(),
        size(num64(a) * num64(b)) <= vast(),
    ensures
        a.times(b).is_finite(),
{
    let w = Width::Double;
    let (u, v) = (units(w, a.parts().mag as nat), units(w, b.parts().mag as nat));
    let d = pow2(1074) as real;
    lemma_positive(w);
    lemma_size64(a);
    lemma_size64(b);
    lemma_results(w, a.parts(), b.parts());
    lemma_of(product(w, a.parts(), b.parts()));
    let (x, y) = (size(num64(a)), size(num64(b)));
    assert(size(num64(a) * num64(b)) == x * y) by (nonlinear_arith)
        requires
            x == size(num64(a)),
            y == size(num64(b)),
    ;
    lemma_vast();
    assert(u * v <= pow2(1200) * pow2(1074)) by {
        let n = (u * v) as real;
        assert((u * v) as real == u as real * v as real) by (nonlinear_arith);
        assert(n == (x * y) * (d * d)) by (nonlinear_arith)
            requires
                n == u as real * v as real,
                x * d == u as real,
                y * d == v as real,
        ;
        let k = (pow2(1200) * pow2(1074)) as real;
        assert((pow2(1200) * pow2(1074)) as real == pow2(1200) as real * (pow2(1074) as real))
            by (nonlinear_arith);
        assert(k == (vast() * d) * d) by (nonlinear_arith)
            requires
                k == pow2(1200) as real * d,
                pow2(1200) as real == vast() * d,
        ;
        assert(n <= k) by (nonlinear_arith)
            requires
                n == (x * y) * (d * d),
                k == (vast() * d) * d,
                x * y <= vast(),
                d > 0 as real,
        ;
    }
    reveal(product);
    lemma_ratio_finite64(u * v, pow2(1074));
}

proof fn lemma_sum_finite64(a: Parts, b: Parts)
    requires
        a.mag < Width::Double.inf(),
        b.mag < Width::Double.inf(),
        size(real_of(Width::Double, a) + real_of(Width::Double, b)) <= vast(),
    ensures
        sum(Width::Double, a, b).mag < Width::Double.inf(),
{
    let w = Width::Double;
    let d = pow2(1074) as real;
    let n = signed_units(w, a) + signed_units(w, b);
    let m = (if n < 0 { -n } else { n }) as nat;
    lemma_positive(w);
    lemma_over(signed_units(w, a) as real, signed_units(w, b) as real, d);
    lemma_over(n as real, 0 as real, d);
    lemma_vast();
    assert(m as real <= vast() * d) by (nonlinear_arith)
        requires
            m as real / d <= vast(),
            d > 0 as real,
    ;
    assert(m <= pow2(1200) * 1);
    reveal(sum);
    lemma_nearest_zero(w, 1);
    lemma_ratio_finite64(m, 1);
}

pub proof fn lemma_finite_plus64(a: Binary64, b: Binary64)
    requires
        a.is_finite(),
        b.is_finite(),
        size(num64(a) + num64(b)) <= vast(),
    ensures
        a.plus(b).is_finite(),
{
    let w = Width::Double;
    lemma_results(w, a.parts(), b.parts());
    lemma_of(sum(w, a.parts(), b.parts()));
    lemma_sum_finite64(a.parts(), b.parts());
}

pub proof fn lemma_finite_minus64(a: Binary64, b: Binary64)
    requires
        a.is_finite(),
        b.is_finite(),
        size(num64(a) - num64(b)) <= vast(),
    ensures
        a.minus(b).is_finite(),
{
    let w = Width::Double;
    let c = negated(b.parts());
    lemma_results(w, a.parts(), c);
    lemma_of(sum(w, a.parts(), c));
    law_negation(w, b.parts());
    lemma_sum_finite64(a.parts(), c);
}

pub proof fn lemma_finite_over64(a: Binary64, c: Binary64)
    requires
        a.is_finite(),
        c.is_finite(),
        num64(c) != 0 as real,
        size(num64(a)) <= vast() * size(num64(c)),
    ensures
        a.over(c).is_finite(),
{
    let w = Width::Double;
    let (u, v, d) = (units(w, a.parts().mag as nat), units(w, c.parts().mag as nat), pow2(1074));
    lemma_positive(w);
    lemma_zero_parts(w, c.parts());
    lemma_results(w, a.parts(), c.parts());
    lemma_of(quotient(w, a.parts(), c.parts()));
    lemma_size64(a);
    lemma_size64(c);
    let (x, y, r) = (size(num64(a)), size(num64(c)), d as real);
    assert(v > 0) by {
        assert(y * r > 0 as real) by (nonlinear_arith)
            requires
                y > 0 as real,
                r > 0 as real,
        ;
    }
    lemma_vast();
    lemma_pow2_adds(126, 1074);
    let k = pow2(126);
    assert(u <= k * v) by {
        assert(x * r <= k as real * (y * r)) by (nonlinear_arith)
            requires
                x <= k as real * y,
                r > 0 as real,
        ;
        assert((k * v) as real == k as real * (v as real)) by (nonlinear_arith);
    }
    assert(u * d <= pow2(1200) * v) by (nonlinear_arith)
        requires
            u <= k * v,
            pow2(1200) == k * d,
    ;
    reveal(quotient);
    lemma_ratio_finite64(u * d, v);
}

/// Tiny errors of double precision are far below its grain.
pub proof fn lemma_speck64()
    ensures
        speck(Width::Double) > 0 as real,
        speck(Width::Double) * vast() <= grain(Width::Double),
{
    lemma_vast();
    lemma_positive(Width::Double);
}

/// The number that a pattern of bits stands for.
pub proof fn lemma_bits64(a: Binary64, e: nat, f: nat)
    requires
        a.bits == e * 0x10_0000_0000_0000 + f,
        f < 0x10_0000_0000_0000,
        1 <= e <= 1074,
    ensures
        a.is_finite(),
        num64(a) == (0x10_0000_0000_0000 + f) as real / (pow2((1075 - e) as nat) as real),
{
    let w = Width::Double;
    let b = a.bits;
    lemma_positive(w);
    lemma_hidden(w);
    assert(a.parts().mag == b && !a.parts().neg);
    lemma_mag(w, b as nat);
    lemma2_to64_rest();
    assert(pow2(52) == 0x10_0000_0000_0000);
    assert(mag_exp(w, b as nat) == e - 1 && mag_man(w, b as nat) == 0x10_0000_0000_0000 + f);
    lemma_signed(w, a.parts().neg, a.parts().mag);
    lemma_pow2_adds((e - 1) as nat, (1075 - e) as nat);
    lemma_pow2_pos((e - 1) as nat);
    lemma_pow2_pos((1075 - e) as nat);
    let (m, p, q) = (0x10_0000_0000_0000 + f, pow2((e - 1) as nat), pow2((1075 - e) as nat));
    let (x, y, z) = (m as real, p as real, q as real);
    assert((m * p) as real == x * y) by (nonlinear_arith)
        requires
            x == m as real,
            y == p as real,
    ;
    assert((p * q) as real == y * z) by (nonlinear_arith)
        requires
            y == p as real,
            z == q as real,
    ;
    assert((x * y) / (y * z) == x / z) by (nonlinear_arith)
        requires
            y > 0 as real,
            z > 0 as real,
    ;
}

/// Only a finite number is narrowed to a finite one.
pub proof fn lemma_narrow_finite(a: Binary64)
    requires
        a.narrow().is_finite(),
    ensures
        a.is_finite(),
{
    reveal(narrowed);
    let r = narrowed(a.parts());
    lemma_of(r);
}

// ---- roots ----

/// In units, the square of a root is near what it is the root of.
proof fn lemma_root_units(n: nat)
    requires
        n >= pow2(149),
    ensures
        ({
            let x = units(Width::Single, root_mag(Width::Single, n)) as int;
            &&& x > 0
            &&& 0x20_0000 * (n - x * x) <= x * x
            &&& 0x20_0000 * (x * x - n) <= x * x
        }),
{
    let w = Width::Single;
    let i = isqrt(n) as int;
    let j = ulp(24, isqrt(n), 1);
    let e = pow2(j) as int;
    let x = units(w, root_mag(w, n)) as int;
    law_root_is_nearest(w, n);
    lemma_isqrt_exists(n);
    lemma_ulp_exists(24, isqrt(n), 1);
    lemma_pow2_pos(j);
    lemma2_to64();
    lemma_pow2_adds(74, 75);
    lemma_pow2_mono(24, 74);
    lemma_pow2_mono(74, 75);
    assert(i >= pow2(74)) by {
        let k = pow2(74) as int;
        if i < k {
            assert((i + 1) * (i + 1) <= k * k) by (nonlinear_arith)
                requires
                    0 <= i < k,
            ;
            assert(k * k <= k * pow2(75)) by (nonlinear_arith)
                requires
                    k <= pow2(75),
                    k > 0,
            ;
        }
    }
    assert(j > 0);
    lemma_pow2_adds(23, j);
    assert((24 + j - 1) as nat == 23 + j);
    assert(i >= 0x80_0000 * e);
    assert(2 * i < 2 * x + e) by (nonlinear_arith)
        requires
            4 * n < (2 * x + e) * (2 * x + e),
            i * i <= n,
            i >= 0,
            x >= 0,
            e > 0,
    ;
    assert(x >= 0x40_0000 * e);
    assert(4 * n - 4 * (x * x) < 4 * (x * e) + e * e) by (nonlinear_arith)
        requires
            4 * n < (2 * x + e) * (2 * x + e),
    ;
    assert(4 * (x * x) - 4 * n <= 4 * (x * e)) by (nonlinear_arith)
        requires
            (2 * x - e) * (2 * x - e) <= 4 * n,
    ;
    assert(0x40_0000 * (x * e) <= x * x && e * e <= x * e) by (nonlinear_arith)
        requires
            x >= 0x40_0000 * e,
            e > 0,
    ;
}

/// The square of a square root is near what it is the root of; a root of a number
/// that is not negative is finite and not negative.
pub proof fn law_sqrt(a: Binary32)
    requires
        a.is_finite(),
        num(a) >= 0 as real,
    ensures
        a.sqrt().is_finite(),
        num(a.sqrt()) >= 0 as real,
        size(num(a.sqrt()) * num(a.sqrt()) - num(a)) <= num(a.sqrt()) * num(a.sqrt())
            / 0x20_0000 as real,
{
    let w = Width::Single;
    let d = pow2(149) as real;
    lemma_positive(w);
    lemma_zero_parts(w, a.parts());
    lemma_signed(w, a.parts().neg, a.parts().mag);
    reveal(root);
    let u = units(w, a.parts().mag as nat);
    if a.parts().mag == 0 {
        lemma_of(a.parts());
        assert(a.sqrt().parts() == a.parts());
        let z = num(a.sqrt());
        assert(z * z / 0x20_0000 as real == 0 as real && z * z == 0 as real) by (nonlinear_arith)
            requires
                z == 0 as real,
        ;
    } else {
        lemma_units_zero(w, a.parts().mag as nat);
        assert(!a.parts().neg) by {
            let x = u as real;
            assert(x / d > 0 as real) by (nonlinear_arith)
                requires
                    x > 0 as real,
                    d > 0 as real,
            ;
        }
        let n = u * pow2(149);
        assert(n >= pow2(149)) by (nonlinear_arith)
            requires
                u >= 1,
                n == u * pow2(149),
        ;
        lemma_root_finite(a.parts().mag as nat);
        lemma_root_units(n);
        let r = root(w, a.parts());
        lemma_of(r);
        lemma_signed(w, r.neg, r.mag);
        let x = units(w, r.mag as nat) as int;
        let (y, z) = (x as real / d, u as real / d);
        let xx = (x * x) as real;
        assert(xx == x as real * x as real) by (nonlinear_arith)
            requires
                xx == (x * x) as real,
        ;
        assert(n as real == u as real * d) by (nonlinear_arith)
            requires
                n == u * pow2(149),
                d == pow2(149) as real,
        ;
        assert(y * y * (d * d) == xx && z * (d * d) == n as real && y >= 0 as real)
            by (nonlinear_arith)
            requires
                d > 0 as real,
                y == x as real / d,
                z == u as real / d,
                xx == x as real * x as real,
                n as real == u as real * d,
                x as real >= 0 as real,
        ;
        let k = 0x20_0000 as real;
        let sq = x * x;
        assert((0x20_0000 * (n - sq)) as real == k * (n as real - xx));
        assert((0x20_0000 * (sq - n)) as real == k * (xx - n as real));
        assert(k * (n as real - xx) <= xx && k * (xx - n as real) <= xx);
        let dd = d * d;
        assert(dd > 0 as real) by (nonlinear_arith)
            requires
                d > 0 as real,
                dd == d * d,
        ;
        assert(k * (z - y * y) <= y * y && k * (y * y - z) <= y * y) by (nonlinear_arith)
            requires
                k * (z * dd - y * y * dd) <= y * y * dd,
                k * (y * y * dd - z * dd) <= y * y * dd,
                dd > 0 as real,
        ;
        assert(size(y * y - z) <= y * y / k) by (nonlinear_arith)
            requires
                k * (z - y * y) <= y * y,
                k * (y * y - z) <= y * y,
                k == 0x20_0000 as real,
        ;
    }
}

/// A square is not negative.
pub proof fn lemma_square(x: Binary32)
    requires
        x.is_finite(),
        x.times(x).is_finite(),
    ensures
        num(x.times(x)) >= 0 as real,
{
    let w = Width::Single;
    reveal(product);
    lemma_results(w, x.parts(), x.parts());
    let p = product(w, x.parts(), x.parts());
    lemma_of(p);
    lemma_signed(w, p.neg, p.mag);
    lemma_positive(w);
    let (u, d) = (units(w, p.mag as nat) as real, pow2(149) as real);
    assert(u / d >= 0 as real) by (nonlinear_arith)
        requires
            u >= 0 as real,
            d > 0 as real,
    ;
}

/// A number rounded up to an integer is no less than the number, and less than one
/// above it.
pub proof fn law_ceiling(a: Binary32, lo: int, hi: int)
    requires
        a.is_finite(),
        lo < hi,
        lo as real <= num(a) <= hi as real,
    ensures
        ({
            let n = a.integer(Toward::Ceil, lo, hi);
            &&& lo <= n <= hi
            &&& num(a) <= n as real
            &&& num(a) > n as real - 1 as real
        }),
{
    let w = Width::Single;
    let d = pow2(149) as int;
    lemma_positive(w);
    reveal(to_int);
    let x = signed_units(w, a.parts());
    let m = (-x) / d;
    lemma_fundamental_div_mod(-x, d);
    let (r, s, q) = (d as real, x as real, m as real);
    assert((m * d) as real == q * r) by (nonlinear_arith)
        requires
            r == d as real,
            q == m as real,
    ;
    assert(d * m == m * d) by (nonlinear_arith);
    let y = s / r;
    assert(y * r == s) by (nonlinear_arith)
        requires
            r > 0 as real,
            y == s / r,
    ;
    let n = -m;
    assert(y <= n as real && y > n as real - 1 as real) by (nonlinear_arith)
        requires
            y * r == s,
            r > 0 as real,
            q * r <= -s,
            -s < q * r + r,
            n as real == -q,
    ;
    assert(lo <= n <= hi) by {
        if n < lo {
            assert(n as real <= lo as real - 1 as real);
        }
        if n > hi {
            assert(n as real >= hi as real + 1 as real);
        }
    }
}

// ---- the two formats ----

/// Widening keeps a number.
pub proof fn law_widen(a: Binary32)
    requires
        a.is_finite(),
    ensures
        a.widen().is_finite(),
        num64(a.widen()) == num(a),
{
    let (w, v) = (Width::Single, Width::Double);
    let m = a.parts().mag as nat;
    let u = units(w, m);
    reveal(widened);
    lemma_positive(w);
    lemma_positive(v);
    lemma_hidden(w);
    lemma_hidden(v);
    lemma_mag(w, m);
    lemma_units_zero(v, 0);
    lemma_units_zero(w, 0);
    lemma_signed(w, a.parts().neg, a.parts().mag);
    let r = widened(a.parts());
    lemma_signed(v, r.neg, r.mag);
    let (d, e) = (pow2(149) as real, pow2(1074) as real);
    assert(0 as real / d == 0 as real && 0 as real / e == 0 as real) by (nonlinear_arith)
        requires
            d > 0 as real,
            e > 0 as real,
    ;
    if m == 0 {
        lemma_of(a.parts());
    } else {
        let (man, k) = (mag_man(w, m), mag_exp(w, m));
        lemma_pow2_adds(k, 925);
        let n = u * pow2(925);
        assert(n == man * pow2(k + 925)) by (nonlinear_arith)
            requires
                n == (man * pow2(k)) * pow2(925),
                pow2(k + 925) == pow2(k) * pow2(925),
        ;
        lemma_single_range(m);
        assert(nearest(v, n, 1) < v.inf());
        lemma_short_is_exact(v, man, k + 925);
        lemma_of(r);
        lemma_pow2_adds(925, 149);
        let (ur, c) = (u as real, pow2(925) as real);
        assert(n as real == ur * c) by (nonlinear_arith)
            requires
                n == u * pow2(925),
                ur == u as real,
                c == pow2(925) as real,
        ;
        lemma_pow2_pos(925);
        assert(e == c * d) by (nonlinear_arith)
            requires
                pow2(1074) == pow2(925) * pow2(149),
                e == pow2(1074) as real,
                c == pow2(925) as real,
                d == pow2(149) as real,
        ;
        assert((ur * c) / (c * d) == ur / d) by (nonlinear_arith)
            requires
                c > 0 as real,
                d > 0 as real,
        ;
    }
}

/// Single-precision numbers are in range in double precision.
proof fn lemma_single_range(m: nat)
    requires
        m < Width::Single.inf(),
    ensures
        nearest(Width::Double, units(Width::Single, m) * pow2(925), 1) < Width::Double.inf(),
{
    let (w, v) = (Width::Single, Width::Double);
    let k: nat = 0x47f0_0000_0000_0000;
    lemma_mag(w, m);
    lemma_mag(v, k);
    assert(mag_exp(v, k) == 1150 && mag_man(v, k) == 0x10_0000_0000_0000);
    lemma2_to64();
    lemma2_to64_rest();
    lemma_pow2_adds(52, 1150);
    law_representable_is_kept(v, k, 1);
    assert(units(v, k) * 1 == units(v, k));
    let (man, e) = (mag_man(w, m), mag_exp(w, m));
    assert(e <= 253) by {
        if m >= 2 * w.hidden() {
            lemma_fundamental_div_mod(m as int, w.hidden() as int);
        }
    }
    lemma_hidden(w);
    lemma_pow2_mono(e, 253);
    lemma_pow2_adds(24, 253);
    lemma_pow2_adds(277, 925);
    lemma_pow2_pos(925);
    assert(man * pow2(e) <= pow2(24) * pow2(253)) by (nonlinear_arith)
        requires
            man <= pow2(24),
            pow2(e) <= pow2(253),
    ;
    let n = units(w, m) * pow2(925);
    assert(n <= pow2(1202)) by (nonlinear_arith)
        requires
            n == (man * pow2(e)) * pow2(925),
            man * pow2(e) <= pow2(277),
            pow2(1202) == pow2(277) * pow2(925),
    ;
    law_rounding_keeps_order(v, n, 1, pow2(1202), 1);
}

/// Narrowing rounds.
pub proof fn law_narrow(a: Binary64)
    requires
        a.is_finite(),
        a.narrow().is_finite(),
    ensures
        rounds_to(Width::Single, num64(a), num(a.narrow())),
{
    let (w, v) = (Width::Single, Width::Double);
    let m = a.parts().mag as nat;
    let u = units(v, m);
    reveal(narrowed);
    lemma_positive(w);
    lemma_positive(v);
    lemma_units_zero(v, 0);
    lemma_units_zero(w, 0);
    lemma_units_zero(v, m);
    lemma_signed(v, a.parts().neg, a.parts().mag);
    let r = narrowed(a.parts());
    let (d, e) = (pow2(149) as real, pow2(1074) as real);
    assert(0 as real / d == 0 as real && 0 as real / e == 0 as real) by (nonlinear_arith)
        requires
            d > 0 as real,
            e > 0 as real,
    ;
    lemma_signed(w, r.neg, r.mag);
    if m == 0 {
        lemma_of(r);
        let y = num64(a);
        assert(size(y) * grain(w) == 0 as real) by (nonlinear_arith)
            requires
                y == 0 as real,
        ;
    } else {
        lemma_pow2_pos(925);
        law_rounding_keeps_order(w, u, pow2(925), u, pow2(925));
        lemma_of(r);
        lemma_ratio(w, u, pow2(925));
        lemma_pow2_adds(925, 149);
        let c = pow2(925) as real;
        assert(e == c * d) by (nonlinear_arith)
            requires
                pow2(1074) == pow2(925) * pow2(149),
                e == pow2(1074) as real,
                c == pow2(925) as real,
                d == pow2(149) as real,
        ;
        let x = units(w, r.mag as nat) as real;
        let q = u as real / c;
        assert(q / d == u as real / e) by (nonlinear_arith)
            requires
                q == u as real / c,
                e == c * d,
                c > 0 as real,
                d > 0 as real,
        ;
        let g = grain(w);
        lemma_over(x, q, d);
        lemma_over(x - q, 0 as real, d);
        lemma_over(size(x - q), q * g + 1 as real / 2 as real, d);
        lemma_over(q * g, 1 as real / 2 as real, d);
        assert((q * g) / d == (q / d) * g) by (nonlinear_arith)
            requires
                d > 0 as real,
        ;
        assert(q / d >= 0 as real) by (nonlinear_arith)
            requires
                q >= 0 as real,
                d > 0 as real,
        ;
        lemma_speck(w);
    }
}

} // verus!
