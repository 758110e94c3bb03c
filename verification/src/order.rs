//! Rounded arithmetic keeps order: what is no larger stays no larger.

use crate::binary::Binary32;
use crate::float::{
    difference, lemma_half_even_range, lemma_hidden, lemma_mag, lemma_pattern_units,
    lemma_units_ordered, mag_exp, mag_man, nan, nearest, negated, of_int, product, quotient, rank,
    signed_units, sum, units, Parts, Width,
};
use crate::root::{isqrt, lemma_isqrt_bounds, lemma_isqrt_exists, root, root_mag};
use crate::rounding::{
    half_even, lemma_half_even_cancel, lemma_pow2_mono, lemma_round_cancel, lemma_ulp_exists,
    lemma_ulp_is, round_mag, ulp,
};
use vstd::arithmetic::div_mod::{
    lemma_div_is_ordered, lemma_fundamental_div_mod, lemma_fundamental_div_mod_converse,
};
use vstd::arithmetic::power2::{
    lemma2_to64, lemma_pow2_adds, lemma_pow2_pos, lemma_pow2_strictly_increases, pow2,
};
use vstd::prelude::*;

verus! {

/// A larger ratio is not rounded to a smaller integer.
proof fn lemma_half_even_ordered(n1: nat, n2: nat, d: nat)
    requires
        d > 0,
        n1 <= n2,
    ensures
        half_even(n1, d) <= half_even(n2, d),
{
    let (q1, r1) = ((n1 / d) as int, (n1 % d) as int);
    let (q2, r2) = ((n2 / d) as int, (n2 % d) as int);
    lemma_fundamental_div_mod(n1 as int, d as int);
    lemma_fundamental_div_mod(n2 as int, d as int);
    assert(q1 <= q2) by (nonlinear_arith)
        requires
            d * q1 + r1 <= d * q2 + r2,
            r1 >= 0,
            r2 < d,
            d > 0,
    ;
    if q1 == q2 {
        assert(r1 <= r2);
    }
}

/// A larger ratio has no smaller spacing.
proof fn lemma_ulp_ordered(p: nat, n1: nat, n2: nat, d: nat)
    requires
        d > 0,
        n1 <= n2,
    ensures
        ulp(p, n1, d) <= ulp(p, n2, d),
{
    let (j1, j2) = (ulp(p, n1, d), ulp(p, n2, d));
    lemma_ulp_exists(p, n1, d);
    lemma_ulp_exists(p, n2, d);
    if j2 < j1 {
        lemma_pow2_mono(p + j2, (p + j1 - 1) as nat);
        let (lo, hi) = (pow2(p + j2), pow2((p + j1 - 1) as nat));
        assert(d * lo <= d * hi) by (nonlinear_arith)
            requires
                lo <= hi,
        ;
    }
}

proof fn lemma_round_ordered_over(p: nat, inf: nat, n1: nat, n2: nat, d: nat)
    requires
        p > 0,
        d > 0,
        n1 <= n2,
    ensures
        round_mag(p, inf, n1, d) <= round_mag(p, inf, n2, d),
{
    let (j1, j2) = (ulp(p, n1, d), ulp(p, n2, d));
    lemma_ulp_exists(p, n1, d);
    lemma_ulp_exists(p, n2, d);
    lemma_ulp_ordered(p, n1, n2, d);
    lemma_pow2_pos(j1);
    lemma_pow2_pos(j2);
    let c = pow2((p - 1) as nat);
    let (e1, e2) = (pow2(j1), pow2(j2));
    let (h1, h2) = (half_even(n1, d * e1), half_even(n2, d * e2));
    assert(d * e1 > 0 && d * e2 > 0) by (nonlinear_arith)
        requires
            d > 0,
            e1 > 0,
            e2 > 0,
    ;
    if j1 == j2 {
        lemma_half_even_ordered(n1, n2, d * e1);
    } else {
        lemma_pow2_adds(1, (p - 1) as nat);
        lemma2_to64();
        lemma_pow2_adds(p, j1);
        lemma_pow2_adds((p - 1) as nat, j2);
        assert(d * pow2(p + j1) == (2 * c) * (d * e1)) by (nonlinear_arith)
            requires
                pow2(p + j1) == (2 * c) * e1,
        ;
        assert(d * pow2((p + j2 - 1) as nat) == c * (d * e2)) by (nonlinear_arith)
            requires
                pow2((p + j2 - 1) as nat) == c * e2,
        ;
        lemma_half_even_range(n1, d * e1, 0, 2 * c);
        lemma_ulp_above(p, n2, d);
        assert(j1 * c + 2 * c <= j2 * c + c) by (nonlinear_arith)
            requires
                j1 + 1 <= j2,
        ;
    }
}

/// A ratio fills at least half of a spacing that is not the smallest one.
proof fn lemma_ulp_above(p: nat, n: nat, d: nat)
    requires
        p > 0,
        d > 0,
        ulp(p, n, d) > 0,
    ensures
        half_even(n, d * pow2(ulp(p, n, d))) >= pow2((p - 1) as nat),
{
    let j = ulp(p, n, d);
    let c = pow2((p - 1) as nat);
    let e = pow2(j);
    lemma_ulp_exists(p, n, d);
    lemma_pow2_pos(j);
    lemma_pow2_adds((p - 1) as nat, j);
    assert(d * pow2((p + j - 1) as nat) == c * (d * e)) by (nonlinear_arith)
        requires
            pow2((p + j - 1) as nat) == c * e,
    ;
    assert(d * e > 0) by (nonlinear_arith)
        requires
            d > 0,
            e > 0,
    ;
    assert(n < (n + 1) * (d * e)) by (nonlinear_arith)
        requires
            d * e > 0,
    ;
    lemma_half_even_range(n, d * e, c, n + 1);
}

/// Rounding keeps order: a larger ratio is not rounded to a smaller magnitude.
pub proof fn law_rounding_keeps_order(w: Width, n1: nat, d1: nat, n2: nat, d2: nat)
    requires
        d1 > 0,
        d2 > 0,
        n1 * d2 <= n2 * d1,
    ensures
        nearest(w, n1, d1) <= nearest(w, n2, d2) <= w.inf(),
{
    let (p, inf) = (w.prec(), w.inf());
    lemma_round_cancel(p, inf, n1, d1, d2);
    lemma_round_cancel(p, inf, n2, d2, d1);
    assert(d1 * d2 == d2 * d1) by (nonlinear_arith);
    assert(d1 * d2 > 0) by (nonlinear_arith)
        requires
            d1 > 0,
            d2 > 0,
    ;
    lemma_round_ordered_over(p, inf, n1 * d2, n2 * d1, d1 * d2);
}

/// Numbers are in the order of what they stand for.
proof fn lemma_units_follow_rank(w: Width, a: Parts, b: Parts)
    requires
        a.mag < w.inf(),
        b.mag < w.inf(),
        rank(a) <= rank(b),
    ensures
        signed_units(w, a) <= signed_units(w, b),
{
    lemma_mag(w, a.mag as nat);
    lemma_mag(w, b.mag as nat);
    assert(units(w, 0) == 0) by {
        lemma_mag(w, 0);
        assert(0 * pow2(0) == 0) by (nonlinear_arith);
    }
    if a.mag < b.mag {
        lemma_units_ordered(w, a.mag as nat, b.mag as nat);
    } else if b.mag < a.mag {
        lemma_units_ordered(w, b.mag as nat, a.mag as nat);
    }
}

/// Where rounding puts `v` units.
spec fn placed(w: Width, v: int) -> int {
    if v < 0 {
        -(nearest(w, (-v) as nat, 1) as int)
    } else {
        nearest(w, v as nat, 1) as int
    }
}

proof fn lemma_placed_ordered(w: Width, u: int, v: int)
    requires
        u <= v,
    ensures
        -w.inf() <= placed(w, u) <= placed(w, v) <= w.inf(),
{
    if u >= 0 {
        law_rounding_keeps_order(w, u as nat, 1, v as nat, 1);
    } else {
        law_rounding_keeps_order(w, (-u) as nat, 1, (-u) as nat, 1);
        if v < 0 {
            law_rounding_keeps_order(w, (-v) as nat, 1, (-u) as nat, 1);
        } else {
            law_rounding_keeps_order(w, v as nat, 1, v as nat, 1);
        }
    }
}

pub proof fn lemma_nearest_zero(w: Width, d: nat)
    requires
        d > 0,
    ensures
        nearest(w, 0, d) == 0,
{
    let p = w.prec();
    lemma_pow2_pos(p);
    assert(0 < d * pow2(p)) by (nonlinear_arith)
        requires
            d > 0,
            pow2(p) > 0,
    ;
    lemma_ulp_is(p, 0, d, 0);
    lemma2_to64();
    assert(d * pow2(0) == d) by (nonlinear_arith)
        requires
            pow2(0) == 1,
    ;
    lemma_fundamental_div_mod(0, d as int);
    assert(0nat / d == 0 && 0nat % d == 0) by (nonlinear_arith)
        requires
            d > 0,
    ;
    assert(0 * pow2((p - 1) as nat) == 0) by (nonlinear_arith);
}

/// The sum of two finite numbers is where rounding puts it.
proof fn lemma_sum_placed(w: Width, a: Parts, b: Parts)
    requires
        a.mag < w.inf(),
        b.mag < w.inf(),
    ensures
        sum(w, a, b).mag <= w.inf(),
        rank(sum(w, a, b)) == placed(w, signed_units(w, a) + signed_units(w, b)),
{
    reveal(sum);
    let v = signed_units(w, a) + signed_units(w, b);
    lemma_placed_ordered(w, v, v);
    lemma_nearest_zero(w, 1);
}

/// Sums keep order, at magnitudes up to infinity on one side.
pub(crate) proof fn lemma_sum_ordered(w: Width, a: Parts, b: Parts, c: Parts, d: Parts)
    requires
        a.mag <= w.inf(),
        b.mag <= w.inf(),
        c.mag < w.inf(),
        d.mag < w.inf(),
        rank(a) <= rank(b),
        rank(c) <= rank(d),
    ensures
        sum(w, a, c).mag <= w.inf(),
        sum(w, b, d).mag <= w.inf(),
        rank(sum(w, a, c)) <= rank(sum(w, b, d)),
{
    reveal(sum);
    if a.mag < w.inf() {
        lemma_sum_placed(w, a, c);
    }
    if b.mag < w.inf() {
        lemma_sum_placed(w, b, d);
    }
    if a.mag < w.inf() && b.mag < w.inf() {
        lemma_units_follow_rank(w, a, b);
        lemma_units_follow_rank(w, c, d);
        lemma_placed_ordered(
            w,
            signed_units(w, a) + signed_units(w, c),
            signed_units(w, b) + signed_units(w, d),
        );
    }
}

/// What grows with the magnitude and keeps the sign keeps order.
proof fn lemma_scaled_ordered(a: Parts, b: Parts, ra: Parts, rb: Parts)
    requires
        rank(a) <= rank(b),
        ra.neg == a.neg,
        rb.neg == b.neg,
        a.mag <= b.mag ==> ra.mag <= rb.mag,
        b.mag <= a.mag ==> rb.mag <= ra.mag,
        a.mag == 0 ==> ra.mag == 0,
        b.mag == 0 ==> rb.mag == 0,
    ensures
        rank(ra) <= rank(rb),
{
}

proof fn lemma_units_grow(w: Width, a: nat, b: nat)
    requires
        a <= b < w.inf(),
    ensures
        units(w, a) <= units(w, b),
        0 < b ==> 0 < units(w, b),
{
    if a < b {
        lemma_units_ordered(w, a, b);
    }
    if 0 < b {
        lemma_units_ordered(w, 0, b);
    }
}

proof fn lemma_product_grows(w: Width, a: Parts, b: Parts, c: Parts)
    requires
        a.mag <= b.mag <= w.inf(),
        0 < c.mag < w.inf(),
    ensures
        product(w, a, c).mag <= product(w, b, c).mag <= w.inf(),
{
    reveal(product);
    let k = units(w, c.mag as nat);
    lemma_pow2_pos(w.unit());
    let d = pow2(w.unit());
    if b.mag < w.inf() {
        lemma_units_grow(w, a.mag as nat, b.mag as nat);
        let (x, y) = (units(w, a.mag as nat), units(w, b.mag as nat));
        assert((x * k) * d <= (y * k) * d) by (nonlinear_arith)
            requires
                x <= y,
        ;
        law_rounding_keeps_order(w, x * k, d, y * k, d);
    } else if a.mag < w.inf() {
        let x = units(w, a.mag as nat);
        law_rounding_keeps_order(w, x * k, d, x * k, d);
    }
}

/// Products with a positive number keep order.
pub(crate) proof fn lemma_product_ordered(w: Width, a: Parts, b: Parts, c: Parts)
    requires
        a.mag <= w.inf(),
        b.mag <= w.inf(),
        0 < c.mag < w.inf(),
        !c.neg,
        rank(a) <= rank(b),
    ensures
        product(w, a, c).mag <= w.inf(),
        product(w, b, c).mag <= w.inf(),
        rank(product(w, a, c)) <= rank(product(w, b, c)),
{
    reveal(product);
    lemma_product_grows(w, a, a, c);
    lemma_product_grows(w, b, b, c);
    if a.mag <= b.mag {
        lemma_product_grows(w, a, b, c);
    }
    if b.mag <= a.mag {
        lemma_product_grows(w, b, a, c);
    }
    lemma_scaled_ordered(a, b, product(w, a, c), product(w, b, c));
}

proof fn lemma_quotient_grows(w: Width, a: Parts, b: Parts, c: Parts)
    requires
        a.mag <= b.mag <= w.inf(),
        0 < c.mag < w.inf(),
    ensures
        quotient(w, a, c).mag <= quotient(w, b, c).mag <= w.inf(),
{
    reveal(quotient);
    let k = pow2(w.unit());
    lemma_units_grow(w, 0, c.mag as nat);
    let d = units(w, c.mag as nat);
    if b.mag < w.inf() {
        lemma_units_grow(w, a.mag as nat, b.mag as nat);
        let (x, y) = (units(w, a.mag as nat), units(w, b.mag as nat));
        assert((x * k) * d <= (y * k) * d) by (nonlinear_arith)
            requires
                x <= y,
        ;
        law_rounding_keeps_order(w, x * k, d, y * k, d);
    } else if a.mag < w.inf() {
        let x = units(w, a.mag as nat);
        law_rounding_keeps_order(w, x * k, d, x * k, d);
    }
}

/// Quotients by a positive number keep order.
pub(crate) proof fn lemma_quotient_ordered(w: Width, a: Parts, b: Parts, c: Parts)
    requires
        a.mag <= w.inf(),
        b.mag <= w.inf(),
        0 < c.mag < w.inf(),
        !c.neg,
        rank(a) <= rank(b),
    ensures
        quotient(w, a, c).mag <= w.inf(),
        quotient(w, b, c).mag <= w.inf(),
        rank(quotient(w, a, c)) <= rank(quotient(w, b, c)),
{
    reveal(quotient);
    lemma_quotient_grows(w, a, a, c);
    lemma_quotient_grows(w, b, b, c);
    if a.mag <= b.mag {
        lemma_quotient_grows(w, a, b, c);
    }
    if b.mag <= a.mag {
        lemma_quotient_grows(w, b, a, c);
    }
    lemma_scaled_ordered(a, b, quotient(w, a, c), quotient(w, b, c));
}

/// Larger integers are not rounded to smaller numbers.
pub(crate) proof fn lemma_of_int_ordered(w: Width, m: int, n: int)
    requires
        m <= n,
    ensures
        of_int(w, m).mag <= w.inf(),
        of_int(w, n).mag <= w.inf(),
        rank(of_int(w, m)) <= rank(of_int(w, n)),
{
    let u = pow2(w.unit()) as int;
    lemma_pow2_pos(w.unit());
    assert(m * u <= n * u) by (nonlinear_arith)
        requires
            m <= n,
            u > 0,
    ;
    lemma_placed_ordered(w, m * u, n * u);
    lemma_of_int_placed(w, m);
    lemma_of_int_placed(w, n);
}

proof fn lemma_of_int_placed(w: Width, n: int)
    ensures
        of_int(w, n).mag <= w.inf(),
        rank(of_int(w, n)) == placed(w, n * pow2(w.unit())),
{
    reveal(of_int);
    let u = pow2(w.unit()) as int;
    lemma_pow2_pos(w.unit());
    assert(n < 0 ==> n * u < 0) by (nonlinear_arith)
        requires
            u > 0,
    ;
    assert(n >= 0 ==> n * u >= 0) by (nonlinear_arith)
        requires
            u > 0,
    ;
    assert((-n) * u == -(n * u)) by (nonlinear_arith);
    lemma_placed_ordered(w, n * u, n * u);
    lemma_nearest_zero(w, 1);
    assert(0 * u == 0) by (nonlinear_arith);
}

proof fn lemma_isqrt_ordered(m: nat, n: nat)
    requires
        m <= n,
    ensures
        isqrt(m) <= isqrt(n),
{
    lemma_isqrt_exists(m);
    lemma_isqrt_exists(n);
    let (a, b) = (isqrt(m), isqrt(n));
    if b < a {
        assert((b + 1) * (b + 1) <= a * a) by (nonlinear_arith)
            requires
                b + 1 <= a,
        ;
    }
}

/// How many spacings a root fills.
proof fn lemma_root_fills(w: Width, n: nat)
    ensures
        ({
            let j = ulp(w.prec(), isqrt(n), 1);
            let h = (isqrt(4 * n) / pow2(j) + 1) / 2;
            h <= 2 * w.hidden() && (j == 0 || h >= w.hidden())
        }),
{
    let p = w.prec();
    let i = isqrt(n) as int;
    let j = ulp(p, isqrt(n), 1);
    let e = pow2(j) as int;
    let q = isqrt(4 * n) as int;
    let c = w.hidden() as int;
    lemma_isqrt_exists(n);
    lemma_ulp_exists(p, isqrt(n), 1);
    lemma_hidden(w);
    lemma_pow2_pos(j);
    lemma_pow2_adds(p, j);
    assert((2 * i) * (2 * i) <= 4 * n) by (nonlinear_arith)
        requires
            i * i <= n,
    ;
    assert(4 * n < (2 * i + 2) * (2 * i + 2)) by (nonlinear_arith)
        requires
            n < (i + 1) * (i + 1),
    ;
    lemma_isqrt_bounds(4 * n, (2 * i) as nat, (2 * i + 2) as nat);
    let t = q / e;
    lemma_fundamental_div_mod(q, e);
    assert(t < 4 * c) by (nonlinear_arith)
        requires
            q == e * t + q % e,
            q % e >= 0,
            q <= 2 * i + 1,
            i < (2 * c) * e,
            e > 0,
    ;
    if j > 0 {
        lemma_pow2_adds((p - 1) as nat, j);
        assert(t >= 2 * c) by (nonlinear_arith)
            requires
                q == e * t + q % e,
                q % e < e,
                q >= 2 * i,
                c * e <= i,
                e > 0,
        ;
    }
}

proof fn lemma_root_grows(w: Width, m: nat, n: nat)
    requires
        m <= n,
    ensures
        root_mag(w, m) <= root_mag(w, n),
{
    let p = w.prec();
    let (j1, j2) = (ulp(p, isqrt(m), 1), ulp(p, isqrt(n), 1));
    lemma_isqrt_ordered(m, n);
    lemma_isqrt_ordered(4 * m, 4 * n);
    lemma_ulp_ordered(p, isqrt(m), isqrt(n), 1);
    lemma_root_fills(w, m);
    lemma_root_fills(w, n);
    if j1 == j2 {
        lemma_pow2_pos(j1);
        lemma_div_is_ordered(isqrt(4 * m) as int, isqrt(4 * n) as int, pow2(j1) as int);
    } else {
        let c = w.hidden() as int;
        assert(j1 * c + 2 * c <= j2 * c + c) by (nonlinear_arith)
            requires
                j1 + 1 <= j2,
                c > 0,
        ;
    }
}

/// The root of a finite single-precision number is finite.
pub(crate) proof fn lemma_root_finite(m: nat)
    requires
        m < Width::Single.inf(),
    ensures
        root_mag(Width::Single, units(Width::Single, m) * pow2(149)) < Width::Single.inf(),
{
    let w = Width::Single;
    let n = units(w, m) * pow2(149);
    lemma_mag(w, m);
    let k = mag_exp(w, m);
    assert(k <= 253) by {
        if m >= 2 * w.hidden() {
            lemma_fundamental_div_mod(m as int, w.hidden() as int);
        }
    }
    lemma_pow2_mono(k, 253);
    lemma_hidden(w);
    lemma_pow2_adds(24, 253);
    lemma_pow2_adds(277, 149);
    lemma_pow2_adds(213, 213);
    lemma_pow2_pos(149);
    let (a, e, top) = (mag_man(w, m) as int, pow2(k) as int, pow2(253) as int);
    assert(a * e < pow2(24) * top) by (nonlinear_arith)
        requires
            0 <= a < pow2(24),
            0 < e <= top,
    ;
    assert(n < pow2(277) * pow2(149)) by (nonlinear_arith)
        requires
            n == units(w, m) * pow2(149),
            units(w, m) < pow2(277),
            pow2(149) > 0,
    ;
    lemma_isqrt_bounds(n, 0, pow2(213));
    let j = ulp(24, isqrt(n), 1);
    lemma_ulp_exists(24, isqrt(n), 1);
    assert(j <= 189) by {
        if j > 189 {
            lemma_pow2_mono(213, (24 + j - 1) as nat);
        }
    }
    lemma_root_fills(w, n);
}

/// The numbers of some parts are in the order of the parts.
proof fn lemma_parts_of(p: Parts)
    requires
        p.mag <= Width::Single.inf(),
    ensures
        Binary32::of(p).parts() == p,
{
}

/// Sums keep order.
pub proof fn law_sum_keeps_order(a: Binary32, b: Binary32, c: Binary32, d: Binary32)
    requires
        a.at_most(b),
        c.at_most(d),
        c.is_finite(),
        d.is_finite(),
    ensures
        a.plus(c).at_most(b.plus(d)),
{
    let w = Width::Single;
    lemma_sum_ordered(w, a.parts(), b.parts(), c.parts(), d.parts());
    lemma_parts_of(sum(w, a.parts(), c.parts()));
    lemma_parts_of(sum(w, b.parts(), d.parts()));
}

/// Differences keep order, and turn it round in what is taken away.
pub proof fn law_difference_keeps_order(a: Binary32, b: Binary32, c: Binary32, d: Binary32)
    requires
        a.at_most(b),
        d.at_most(c),
        c.is_finite(),
        d.is_finite(),
    ensures
        a.minus(c).at_most(b.minus(d)),
{
    let w = Width::Single;
    lemma_sum_ordered(w, a.parts(), b.parts(), negated(c.parts()), negated(d.parts()));
    lemma_parts_of(difference(w, a.parts(), c.parts()));
    lemma_parts_of(difference(w, b.parts(), d.parts()));
}

/// Products with a positive number keep order.
pub proof fn law_product_keeps_order(a: Binary32, b: Binary32, c: Binary32)
    requires
        a.at_most(b),
        Binary32::of_integer(0).below(c),
        c.is_finite(),
    ensures
        a.times(c).at_most(b.times(c)),
{
    let w = Width::Single;
    lemma_zero();
    lemma_product_ordered(w, a.parts(), b.parts(), c.parts());
    lemma_parts_of(product(w, a.parts(), c.parts()));
    lemma_parts_of(product(w, b.parts(), c.parts()));
}

/// Quotients by a positive number keep order.
pub proof fn law_quotient_keeps_order(a: Binary32, b: Binary32, c: Binary32)
    requires
        a.at_most(b),
        Binary32::of_integer(0).below(c),
        c.is_finite(),
    ensures
        a.over(c).at_most(b.over(c)),
{
    let w = Width::Single;
    lemma_zero();
    lemma_quotient_ordered(w, a.parts(), b.parts(), c.parts());
    lemma_parts_of(quotient(w, a.parts(), c.parts()));
    lemma_parts_of(quotient(w, b.parts(), c.parts()));
}

/// Square roots keep order, and stay finite.
pub proof fn law_root_keeps_order(a: Binary32, b: Binary32)
    requires
        Binary32::of_integer(0).at_most(a),
        a.at_most(b),
        b.is_finite(),
    ensures
        a.sqrt().at_most(b.sqrt()),
        b.sqrt().is_finite(),
{
    let w = Width::Single;
    reveal(root);
    lemma_zero();
    let (x, y) = (units(w, a.parts().mag as nat), units(w, b.parts().mag as nat));
    let u = pow2(149);
    lemma_units_grow(w, a.parts().mag as nat, b.parts().mag as nat);
    assert(x * u <= y * u) by (nonlinear_arith)
        requires
            x <= y,
    ;
    lemma_root_grows(w, x * u, y * u);
    lemma_root_finite(b.parts().mag as nat);
    lemma_root_finite(a.parts().mag as nat);
    lemma_parts_of(root(w, a.parts()));
    lemma_parts_of(root(w, b.parts()));
}

/// Converting integers keeps order.
pub proof fn law_conversion_keeps_order(m: int, n: int)
    requires
        m <= n,
    ensures
        Binary32::of_integer(m).at_most(Binary32::of_integer(n)),
{
    let w = Width::Single;
    lemma_of_int_ordered(w, m, n);
    lemma_parts_of(of_int(w, m));
    lemma_parts_of(of_int(w, n));
}

pub proof fn lemma_zero()
    ensures
        Binary32::of_integer(0) == (Binary32 { bits: 0 }),
{
    reveal(of_int);
}

/// A number that can be represented is not rounded.
pub proof fn law_representable_is_kept(w: Width, m: nat, d: nat)
    requires
        m < w.inf(),
        d > 0,
    ensures
        nearest(w, units(w, m) * d, d) == m,
{
    let p = w.prec();
    lemma_mag(w, m);
    let (k, a) = (mag_exp(w, m), mag_man(w, m));
    let e = pow2(k);
    let u = units(w, m);
    lemma_hidden(w);
    lemma_pow2_pos(k);
    lemma_pow2_adds(p, k);
    assert(u < pow2(p) * e) by (nonlinear_arith)
        requires
            u == a * e,
            a < pow2(p),
            e > 0,
    ;
    if k > 0 {
        lemma_pow2_adds((p - 1) as nat, k);
        assert(w.hidden() * e <= u) by (nonlinear_arith)
            requires
                u == a * e,
                a >= w.hidden(),
                e > 0,
        ;
    }
    lemma_ulp_is(p, u, 1, k);
    lemma_fundamental_div_mod_converse(u as int, e as int, a as int, 0);
    assert(half_even(u, e) == a);
    lemma_round_cancel(p, w.inf(), u, 1, d);
}

/// A finite number less itself is zero, and less zero is itself.
pub proof fn law_difference_with_itself(a: Binary32)
    requires
        a.is_finite(),
    ensures
        a.minus(a) == Binary32::of_integer(0),
        a.minus(Binary32::of_integer(0)).equals(a),
{
    let w = Width::Single;
    let p = a.parts();
    reveal(sum);
    lemma_zero();
    law_representable_is_kept(w, p.mag as nat, 1);
    assert(units(w, p.mag as nat) * 1 == units(w, p.mag as nat));
    let zero = Parts { neg: true, mag: 0 };
    assert(signed_units(w, zero) == 0) by {
        lemma_mag(w, 0);
        assert(0 * pow2(0) == 0) by (nonlinear_arith);
    }
    if p.mag > 0 {
        lemma_units_grow(w, 0, p.mag as nat);
    } else {
        lemma_mag(w, 0);
        assert(0 * pow2(0) == 0) by (nonlinear_arith);
    }
    lemma_parts_of(sum(w, p, zero));
}

/// An integer of up to 64 bits becomes a finite number that is not negative, and
/// positive unless it is zero.
pub proof fn lemma_integer_finite(n: int)
    requires
        0 <= n <= 0x1_0000_0000_0000_0000,
    ensures
        Binary32::of_integer(n).is_finite(),
        Binary32::of_integer(0).at_most(Binary32::of_integer(n)),
        n > 0 ==> Binary32::of_integer(0).below(Binary32::of_integer(n)),
{
    let w = Width::Single;
    law_conversion_keeps_order(0, n);
    if n > 0 {
        law_conversion_keeps_order(1, n);
        lemma_one();
        lemma_zero();
    }
    law_conversion_keeps_order(n, 0x1_0000_0000_0000_0000);
    reveal(of_int);
    let m: nat = 0x5f80_0000;
    assert(mag_exp(w, m) == 190 && mag_man(w, m) == 0x80_0000);
    lemma_hidden(w);
    lemma_pow2_adds(23, 190);
    lemma_pow2_adds(64, 149);
    lemma2_to64();
    assert(units(w, m) == 0x1_0000_0000_0000_0000 * pow2(149));
    law_representable_is_kept(w, m, 1);
    assert(units(w, m) * 1 == units(w, m));
    lemma_zero();
    lemma_parts_of(of_int(w, 0x1_0000_0000_0000_0000));
}

/// The number one.
pub proof fn lemma_one()
    ensures
        Binary32::of_integer(1) == (Binary32 { bits: 0x3f80_0000 }),
        units(Width::Single, 0x3f80_0000) == pow2(149),
{
    let w = Width::Single;
    reveal(of_int);
    let m: nat = 0x3f80_0000;
    assert(mag_exp(w, m) == 126 && mag_man(w, m) == 0x80_0000);
    lemma_hidden(w);
    lemma_pow2_adds(23, 126);
    law_representable_is_kept(w, m, 1);
    assert(units(w, m) * 1 == units(w, m));
    assert(1 * pow2(149) == pow2(149));
    lemma_parts_of(of_int(w, 1));
}

// ---- results that are not rounded ----

/// What a finite number stands for, in units of the smallest positive one.
pub open spec fn value(a: Binary32) -> int {
    signed_units(Width::Single, a.parts())
}

/// Whether a product is not rounded.
pub open spec fn is_exact_product(a: Binary32, b: Binary32) -> bool {
    a.is_finite() && b.is_finite() && a.times(b).is_finite() && value(a.times(b)) * pow2(149)
        == value(a) * value(b)
}

/// Whether a difference is not rounded.
pub open spec fn is_exact_difference(a: Binary32, b: Binary32) -> bool {
    a.is_finite() && b.is_finite() && a.minus(b).is_finite() && value(a.minus(b)) == value(a)
        - value(b)
}

/// Whether a sum is not rounded.
pub open spec fn is_exact_sum(a: Binary32, b: Binary32) -> bool {
    a.is_finite() && b.is_finite() && a.plus(b).is_finite() && value(a.plus(b)) == value(a)
        + value(b)
}

/// Only the zeros stand for nothing.
pub proof fn lemma_unit_zero(m: nat)
    requires
        m < Width::Single.inf(),
    ensures
        units(Width::Single, m) == 0 <==> m == 0,
{
    let w = Width::Single;
    assert(units(w, 0) == 0) by {
        lemma_mag(w, 0);
        assert(0 * pow2(0) == 0) by (nonlinear_arith);
    }
    if m > 0 {
        lemma_units_ordered(w, 0, m);
    }
}

/// Taking an exact sum's first number away leaves its second one.
pub proof fn law_exact_sum_is_undone(a: Binary32, b: Binary32)
    requires
        is_exact_sum(a, b),
    ensures
        a.plus(b).minus(a).equals(b),
{
    let w = Width::Single;
    let (p, q) = (a.plus(b).parts(), a.parts());
    let m = b.parts().mag as nat;
    reveal(sum);
    lemma_unit_zero(m);
    law_representable_is_kept(w, m, 1);
    assert(units(w, m) * 1 == units(w, m));
    assert(signed_units(w, p) + signed_units(w, negated(q)) == value(b));
    lemma_parts_of(difference(w, p, q));
}

/// Dividing an exact product by its second number leaves its first one.
pub proof fn law_exact_product_is_undone(a: Binary32, b: Binary32, c: Binary32)
    requires
        is_exact_product(a, b),
        Binary32::of_integer(0).below(b),
        c.equals(a.times(b)),
    ensures
        c.over(b).equals(a),
{
    let w = Width::Single;
    let (m, k) = (a.parts().mag as nat, b.parts().mag as nat);
    let n = c.parts().mag as nat;
    let t = pow2(149);
    reveal(product);
    reveal(quotient);
    lemma_zero();
    lemma_unit_zero(m);
    lemma_unit_zero(k);
    lemma_unit_zero(n);
    lemma_pow2_pos(149);
    let (x, y, u) = (units(w, m), units(w, k), units(w, n));
    assert(u * t == x * y) by (nonlinear_arith)
        requires
            value(a.times(b)) * t == value(a) * value(b),
            value(b) == y,
            (value(a.times(b)) == u && value(a) == x) || (value(a.times(b)) == -u && value(a)
                == -x),
    ;
    law_representable_is_kept(w, m, y);
    assert(m == 0 <==> n == 0) by (nonlinear_arith)
        requires
            u * t == x * y,
            t > 0,
            y > 0,
            u == 0 <==> n == 0,
            x == 0 <==> m == 0,
    ;
    lemma_parts_of(quotient(w, c.parts(), b.parts()));
}

// ---- how far rounding goes ----

/// A number with few enough bits is not rounded.
pub proof fn lemma_short_is_exact(w: Width, a: nat, b: nat)
    requires
        a < 2 * w.hidden(),
        nearest(w, a * pow2(b), 1) < w.inf(),
    ensures
        units(w, nearest(w, a * pow2(b), 1) as nat) == a * pow2(b),
{
    let p = w.prec();
    let n = a * pow2(b);
    let j = ulp(p, n, 1);
    lemma_ulp_exists(p, n, 1);
    lemma_hidden(w);
    lemma_pow2_pos(b);
    lemma_pow2_adds(p, b);
    assert(n < pow2(p) * pow2(b)) by (nonlinear_arith)
        requires
            n == a * pow2(b),
            a < pow2(p),
            pow2(b) > 0,
    ;
    assert(j <= b) by {
        if j > b {
            lemma_pow2_mono(p + b, (p + j - 1) as nat);
        }
    }
    let c = (b - j) as nat;
    lemma_pow2_adds(c, j);
    lemma_pow2_pos(j);
    let h = a * pow2(c);
    assert(n == h * pow2(j)) by (nonlinear_arith)
        requires
            n == a * pow2(b),
            pow2(b) == pow2(c) * pow2(j),
            h == a * pow2(c),
    ;
    lemma_fundamental_div_mod_converse(n as int, pow2(j) as int, h as int, 0);
    assert(half_even(n, pow2(j)) == h);
    lemma_rounded_units(w, n, 1);
}

/// What a rounded ratio stands for: whole spacings.
proof fn lemma_rounded_units(w: Width, n: nat, d: nat)
    requires
        d > 0,
        nearest(w, n, d) < w.inf(),
    ensures
        ({
            let j = ulp(w.prec(), n, d);
            units(w, nearest(w, n, d) as nat) == half_even(n, d * pow2(j)) * pow2(j)
        }),
{
    let p = w.prec();
    let j = ulp(p, n, d);
    lemma_ulp_exists(p, n, d);
    lemma_hidden(w);
    lemma_pow2_pos(j);
    lemma_pow2_adds(p, j);
    if j > 0 {
        lemma_ulp_above(p, n, d);
    }
    assert(d * pow2(j) > 0 && (d * pow2(j)) * (2 * w.hidden()) == d * pow2(p + j))
        by (nonlinear_arith)
        requires
            d > 0,
            pow2(j) > 0,
            pow2(p + j) == (2 * w.hidden()) * pow2(j),
    ;
    lemma_half_even_range(n, d * pow2(j), 0, 2 * w.hidden());
    lemma_pattern_units(w, j, half_even(n, d * pow2(j)));
}

/// Rounding a ratio moves it by at most its own magnitude over `2^prec`, or by
/// half a unit.
pub proof fn law_ratio_rounding_error(w: Width, n: nat, d: nat)
    requires
        d > 0,
        nearest(w, n, d) < w.inf(),
    ensures
        ({
            let x = units(w, nearest(w, n, d) as nat) as int;
            let e = if x * d < n { n - x * d } else { x * d - n };
            pow2(w.prec()) * e <= n || 2 * e <= d
        }),
{
    let p = w.prec();
    let j = ulp(p, n, d);
    let s = pow2(j) as int;
    lemma_ulp_exists(p, n, d);
    lemma_rounded_units(w, n, d);
    lemma_pow2_pos(j);
    let h = half_even(n, d * pow2(j)) as int;
    let x = units(w, nearest(w, n, d) as nat) as int;
    let k = d * s;
    assert(k > 0) by (nonlinear_arith)
        requires
            d > 0,
            s > 0,
            k == d * s,
    ;
    let (q, r) = (n as int / k, n as int % k);
    lemma_fundamental_div_mod(n as int, k);
    assert(q * k == k * q) by (nonlinear_arith);
    assert((q + 1) * k == q * k + k) by (nonlinear_arith);
    assert(x * d == h * k) by (nonlinear_arith)
        requires
            x == h * s,
            k == d * s,
    ;
    let e = if x * d < n { n - x * d } else { x * d - n };
    assert(2 * e <= k);
    if j == 0 {
        lemma2_to64();
        assert(d * 1 == d);
    } else {
        lemma_hidden(w);
        lemma_pow2_adds((p - 1) as nat, j);
        let c = w.hidden() as int;
        assert(d * (c * s) == c * k) by (nonlinear_arith)
            requires
                k == d * s,
        ;
        assert((2 * c) * e <= c * k) by (nonlinear_arith)
            requires
                2 * e <= k,
                c > 0,
        ;
    }
}

/// Rounding moves a number by at most its own magnitude over `2^prec`.
pub proof fn law_rounding_error(w: Width, n: nat)
    requires
        nearest(w, n, 1) < w.inf(),
    ensures
        ({
            let x = units(w, nearest(w, n, 1) as nat) as int;
            pow2(w.prec()) * (x - n) <= n && pow2(w.prec()) * (n - x) <= n
        }),
{
    let x = units(w, nearest(w, n, 1) as nat) as int;
    let c = pow2(w.prec()) as int;
    law_ratio_rounding_error(w, n, 1);
    let e = if x < n { n - x } else { x - n };
    assert(x * 1 == x);
    if 2 * e <= 1 {
        assert(c * 0 == 0) by (nonlinear_arith);
    }
    assert(c * (-e) == -(c * e)) by (nonlinear_arith);
    assert(c * e >= 0) by (nonlinear_arith)
        requires
            c >= 0,
            e >= 0,
    ;
}

/// Rounding a multiple by a power of two is taking that multiple of what is
/// rounded, while neither is out of range.
pub proof fn law_rounding_scales(w: Width, n: nat, m: nat)
    requires
        nearest(w, n, 1) < w.inf(),
        nearest(w, n * pow2(m), 1) < w.inf(),
    ensures
        units(w, nearest(w, n * pow2(m), 1) as nat) == units(w, nearest(w, n, 1) as nat) * pow2(m),
{
    let p = w.prec();
    let j = ulp(p, n, 1);
    let k = n * pow2(m);
    lemma_ulp_exists(p, n, 1);
    lemma_hidden(w);
    lemma_pow2_pos(m);
    if j == 0 {
        lemma2_to64();
        assert(n * pow2(0) == n) by (nonlinear_arith)
            requires
                pow2(0) == 1,
        ;
        lemma_short_is_exact(w, n, 0);
        lemma_short_is_exact(w, n, m);
    } else {
        lemma_pow2_adds(p + j, m);
        lemma_pow2_adds((p + j - 1) as nat, m);
        lemma_pow2_adds(j, m);
        lemma_pow2_pos(j);
        assert(k < pow2(p + j) * pow2(m)) by (nonlinear_arith)
            requires
                k == n * pow2(m),
                n < pow2(p + j),
                pow2(m) > 0,
        ;
        assert(pow2((p + j - 1) as nat) * pow2(m) <= k) by (nonlinear_arith)
            requires
                k == n * pow2(m),
                pow2((p + j - 1) as nat) <= n,
        ;
        assert(p + j + m == p + (j + m) && (p + j - 1) as nat + m == (p + (j + m) - 1) as nat);
        lemma_ulp_is(p, k, 1, j + m);
        lemma_half_even_cancel(n, pow2(j), pow2(m));
        lemma_rounded_units(w, n, 1);
        lemma_rounded_units(w, k, 1);
        let h = half_even(n, pow2(j));
        assert(h * (pow2(j) * pow2(m)) == (h * pow2(j)) * pow2(m)) by (nonlinear_arith);
    }
}

/// Integers of up to 24 bits are not rounded.
pub proof fn law_integer_is_exact(n: int)
    requires
        0 <= n < 0x100_0000,
    ensures
        Binary32::of_integer(n).is_finite(),
        !Binary32::of_integer(n).parts().neg,
        value(Binary32::of_integer(n)) == n * pow2(149),
{
    let w = Width::Single;
    lemma_integer_finite(n);
    lemma_zero();
    reveal(of_int);
    lemma_nearest_zero(w, 1);
    let m = nearest(w, n as nat * pow2(149), 1);
    law_rounding_keeps_order(w, n as nat * pow2(149), 1, n as nat * pow2(149), 1);
    lemma_parts_of(of_int(w, n));
    if n == 0 {
        lemma_unit_zero(0);
        assert(0 * pow2(149) == 0) by (nonlinear_arith);
    } else {
        lemma_short_is_exact(w, n as nat, 149);
    }
}

/// Finite numbers are in the order of what they stand for.
pub proof fn lemma_units_follow(a: Binary32, b: Binary32)
    requires
        a.is_finite(),
        b.is_finite(),
        a.at_most(b),
    ensures
        value(a) <= value(b),
{
    lemma_units_follow_rank(Width::Single, a.parts(), b.parts());
}

/// A positive number over itself is one, and one times a number is the number.
pub proof fn law_one(a: Binary32, b: Binary32)
    requires
        a.is_finite(),
        Binary32::of_integer(0).below(a),
        b.is_finite(),
    ensures
        a.over(a) == Binary32::of_integer(1),
        Binary32::of_integer(1).times(b) == b,
        b.times(Binary32::of_integer(1)) == b,
        b.over(Binary32::of_integer(1)) == b,
{
    let w = Width::Single;
    let one = Binary32::of_integer(1);
    let t = pow2(149);
    let (m, k) = (a.parts().mag as nat, b.parts().mag as nat);
    lemma_zero();
    lemma_one();
    lemma_pow2_pos(149);
    reveal(quotient);
    reveal(product);
    lemma_unit_zero(m);
    let (x, y) = (units(w, m), units(w, k));
    law_representable_is_kept(w, 0x3f80_0000, x);
    assert(x * t == t * x) by (nonlinear_arith);
    lemma_parts_of(quotient(w, a.parts(), a.parts()));
    law_representable_is_kept(w, k, t);
    assert(y * t == t * y) by (nonlinear_arith);
    lemma_parts_of(product(w, one.parts(), b.parts()));
    lemma_parts_of(b.parts());
    assert(Binary32::of(b.parts()) == b);
}

/// A square root that is finite is not negative.
pub proof fn lemma_root_not_negative(a: Binary32)
    requires
        a.sqrt().is_finite(),
    ensures
        Binary32::of_integer(0).at_most(a.sqrt()),
{
    let w = Width::Single;
    reveal(root);
    lemma_zero();
    if a.parts().mag < w.inf() {
        lemma_root_finite(a.parts().mag as nat);
        lemma_parts_of(root(w, a.parts()));
    }
    assert(Binary32::of(nan(w)).parts() == nan(w));
}

/// Products of numbers that are not negative keep order.
pub proof fn law_scaling_keeps_order(a: Binary32, b: Binary32, c: Binary32)
    requires
        a.at_most(b),
        a.is_finite(),
        b.is_finite(),
        c.is_finite(),
        Binary32::of_integer(0).at_most(c),
    ensures
        a.times(c).at_most(b.times(c)),
        Binary32::of_integer(0).at_most(a) ==> Binary32::of_integer(0).at_most(a.times(c)),
{
    let zero = Binary32::of_integer(0);
    lemma_zero();
    reveal(product);
    if zero.below(c) {
        law_product_keeps_order(a, b, c);
        if zero.at_most(a) {
            law_product_keeps_order(zero, a, c);
        }
    }
}

/// The product of two finite numbers is a number.
pub proof fn lemma_product_range(a: Binary32, b: Binary32)
    requires
        a.is_finite(),
        b.is_finite(),
    ensures
        product(Width::Single, a.parts(), b.parts()).mag <= Width::Single.inf(),
        a.times(b).parts() == product(Width::Single, a.parts(), b.parts()),
{
    let w = Width::Single;
    reveal(product);
    if b.parts().mag > 0 {
        lemma_product_grows(w, a.parts(), a.parts(), b.parts());
    }
    lemma_parts_of(product(w, a.parts(), b.parts()));
}

/// Zero over a positive number is zero.
pub proof fn lemma_zero_quotient(a: Binary32)
    requires
        a.is_finite(),
        Binary32::of_integer(0).below(a),
    ensures
        Binary32::of_integer(0).over(a) == Binary32::of_integer(0),
{
    reveal(quotient);
    lemma_zero();
}

/// Two and a half: what the one does to the other, and to one and zero.
pub proof fn lemma_two_and_half()
    ensures
        ({
            let (zero, one, two) = (
                Binary32::of_integer(0),
                Binary32::of_integer(1),
                Binary32::of_integer(2),
            );
            let h = Binary32 { bits: 0x3f00_0000 };
            &&& two == (Binary32 { bits: 0x4000_0000 })
            &&& two.times(h) == one
            &&& one.minus(h) == h
            &&& zero.minus(h) == h.negate()
        }),
{
    let w = Width::Single;
    let t = pow2(149);
    let (m, n): (nat, nat) = (0x3f00_0000, 0x4000_0000);
    lemma_zero();
    lemma_one();
    lemma_hidden(w);
    lemma2_to64();
    lemma_pow2_pos(148);
    lemma_pow2_pos(149);
    assert(mag_exp(w, m) == 125 && mag_man(w, m) == 0x80_0000);
    assert(mag_exp(w, n) == 127 && mag_man(w, n) == 0x80_0000);
    lemma_pow2_adds(23, 125);
    lemma_pow2_adds(23, 127);
    lemma_pow2_adds(1, 148);
    lemma_pow2_adds(1, 149);
    let h = units(w, m);
    assert(h == pow2(148) && units(w, n) == 2 * t && t == 2 * h);
    reveal(of_int);
    reveal(product);
    reveal(sum);
    law_representable_is_kept(w, n, 1);
    assert(units(w, n) * 1 == units(w, n));
    lemma_parts_of(of_int(w, 2));
    law_representable_is_kept(w, m, 1);
    assert(h * 1 == h);
    lemma_unit_zero(0);
    law_representable_is_kept(w, 0x3f80_0000, t);
    assert((2 * t) * h == t * t) by (nonlinear_arith)
        requires
            t == 2 * h,
    ;
}

/// The root of a number of up to 31 bits is at most 65536.
pub proof fn lemma_root_bound(a: Binary32)
    requires
        Binary32::of_integer(0).at_most(a),
        a.at_most(Binary32::of_integer(0x8000_0000)),
    ensures
        a.sqrt().at_most(Binary32::of_integer(0x1_0000)),
        a.sqrt().is_finite(),
        Binary32::of_integer(0).at_most(a.sqrt()),
{
    let w = Width::Single;
    let b = Binary32::of_integer(0x8000_0000);
    let t = pow2(149);
    lemma_zero();
    lemma_integer_finite(0x8000_0000);
    law_root_keeps_order(a, a);
    lemma_root_not_negative(a);
    // the bound, and its bits
    let m: nat = 0x4780_0000;
    reveal(of_int);
    lemma_hidden(w);
    lemma2_to64();
    assert(mag_exp(w, m) == 142 && mag_man(w, m) == 0x80_0000);
    lemma_pow2_adds(23, 142);
    lemma_pow2_adds(16, 149);
    law_representable_is_kept(w, m, 1);
    assert(units(w, m) * 1 == units(w, m));
    lemma_parts_of(of_int(w, 0x1_0000));
    // the number
    let k: nat = 0x4f00_0000;
    assert(mag_exp(w, k) == 157 && mag_man(w, k) == 0x80_0000);
    lemma_pow2_adds(23, 157);
    lemma_pow2_adds(31, 149);
    law_representable_is_kept(w, k, 1);
    assert(units(w, k) * 1 == units(w, k));
    lemma_parts_of(of_int(w, 0x8000_0000));
    let u = units(w, a.parts().mag as nat);
    lemma_units_grow(w, a.parts().mag as nat, k);
    let n = u * t;
    lemma_pow2_pos(149);
    lemma_pow2_adds(180, 149);
    assert(n <= pow2(329)) by (nonlinear_arith)
        requires
            n == u * t,
            u <= pow2(180),
            pow2(329) == pow2(180) * t,
    ;
    lemma_pow2_strictly_increases(329, 330);
    lemma_pow2_adds(165, 165);
    lemma_isqrt_bounds(n, 0, pow2(165));
    let j = ulp(24, isqrt(n), 1);
    lemma_ulp_exists(24, isqrt(n), 1);
    assert(j <= 141) by {
        if j > 141 {
            lemma_pow2_mono(165, (24 + j - 1) as nat);
        }
    }
    lemma_root_fills(w, n);
    reveal(root);
    lemma_parts_of(root(w, a.parts()));
}

/// Twice a small integer is its sum with itself.
pub proof fn lemma_doubled(c: int)
    requires
        0 <= c < 0x80_0000,
    ensures
        Binary32::of_integer(c).plus(Binary32::of_integer(c)) == Binary32::of_integer(2 * c),
{
    let w = Width::Single;
    let a = Binary32::of_integer(c);
    law_integer_is_exact(c);
    law_integer_is_exact(2 * c);
    reveal(sum);
    reveal(of_int);
    lemma_pow2_pos(149);
    assert(c * pow2(149) + c * pow2(149) == (2 * c) * pow2(149)) by (nonlinear_arith);
    assert(c > 0 ==> c * pow2(149) > 0) by (nonlinear_arith)
        requires
            pow2(149) > 0,
    ;
    assert(c == 0 ==> c * pow2(149) == 0) by (nonlinear_arith);
}

} // verus!
