//! How far a factor on the heights moves the look of an image when it rounds:
//! not by more than a level.

use crate::appearance::{lemma_beyond, lemma_difference_units};
use crate::binary::Binary32;
use crate::colormap::{
    blend, color, hot_at, hot_exponents, hot_position, level, rgba_bytes, share, stop_before,
    unit_clamp, viridis_color, viridis_stop, Colormap, HotExps, Rgb, FOUR_FIFTHS, MINUS_ELEVEN,
    MINUS_SEVEN, MINUS_TEN, ONE_FIFTH, OTHER_MIDDLE, RED_MIDDLE,
};
use crate::filter::epsilon;
use crate::float::{
    lemma_mag, lemma_units_ordered, mag_exp, mag_man, product, quotient, sum, to_int, units, Width,
};
use crate::order::{
    law_difference_keeps_order, law_difference_with_itself, law_integer_is_exact, law_one,
    law_product_keeps_order, law_quotient_keeps_order, law_ratio_rounding_error,
    law_representable_is_kept, law_rounding_error, law_rounding_keeps_order, lemma_nearest_zero,
    lemma_one, lemma_product_range, lemma_unit_zero, lemma_units_follow,
    lemma_zero, lemma_zero_quotient, value,
};
use crate::rolling::range_of;
use crate::rounding::lemma_pow2_mono;
use vstd::arithmetic::div_mod::lemma_fundamental_div_mod;
use vstd::arithmetic::power2::{lemma2_to64, lemma_pow2_adds, lemma_pow2_pos, pow2};
use vstd::prelude::*;

verus! {

/// Whether a number is no farther from zero than a bound.
pub open spec fn within(x: int, bound: int) -> bool {
    -bound <= x <= bound
}

proof fn lemma_within_scaled(x: int, bound: int, c: int)
    requires
        within(x, bound),
        c >= 0,
    ensures
        within(x * c, bound * c),
{
    assert(-(bound * c) <= x * c <= bound * c) by (nonlinear_arith)
        requires
            -bound <= x <= bound,
            c >= 0,
    ;
}

proof fn lemma_within_cancel(x: int, bound: int, c: int)
    requires
        within(x * c, bound * c),
        c > 0,
    ensures
        within(x, bound),
{
    assert(-bound <= x <= bound) by (nonlinear_arith)
        requires
            -(bound * c) <= x * c <= bound * c,
            c > 0,
    ;
}

/// `(a - b) * c`, with the factors of the products exchanged.
proof fn lemma_spread_out(a: int, b: int, x: int, y: int, c: int)
    ensures
        (a * b - x * y) * c == (a * c) * b - (x * c) * y,
{
    assert((a * b - x * y) * c == (a * b) * c - (x * y) * c) by (nonlinear_arith);
    assert((a * b) * c == (a * c) * b) by (nonlinear_arith);
    assert((x * y) * c == (x * c) * y) by (nonlinear_arith);
}

proof fn lemma_same_factor(p: int, x: int, y: int)
    ensures
        (p * x) * y == p * (x * y),
{
    assert((p * x) * y == p * (x * y)) by (nonlinear_arith);
}

// ---- what the operations round ----

/// How far a rounded product is from the product.
proof fn lemma_product_error(a: Binary32, z: Binary32)
    requires
        a.is_finite(),
        z.is_finite(),
        Binary32::of_integer(0).below(z),
        a.times(z).is_finite(),
    ensures
        ({
            let (x, t) = (value(a), pow2(149) as int);
            let m = if x < 0 { -x } else { x };
            within(
                2 * (0x100_0000 * (value(a.times(z)) * t - x * value(z))),
                2 * (m * value(z)) + 0x100_0000 * t,
            )
        }),
{
    let w = Width::Single;
    let t = pow2(149) as int;
    let (u, k) = (units(w, a.parts().mag as nat), units(w, z.parts().mag as nat));
    let r = units(w, a.times(z).parts().mag as nat) as int;
    lemma_zero();
    lemma2_to64();
    lemma_pow2_pos(149);
    lemma_unit_zero(a.parts().mag as nat);
    lemma_unit_zero(z.parts().mag as nat);
    lemma_unit_zero(0);
    lemma_product_range(a, z);
    reveal(product);
    let n = u * k;
    if a.parts().mag == 0 {
        assert(0 * t == 0 && 0 * k == 0) by (nonlinear_arith);
    } else {
        law_ratio_rounding_error(w, n, pow2(149));
        assert((-r) * t == -(r * t) && (-(u as int)) * k == -(u * k)) by (nonlinear_arith);
        assert(n >= 0);
    }
}

/// How far a rounded difference is from the difference.
proof fn lemma_difference_error(a: Binary32, b: Binary32)
    requires
        a.is_finite(),
        b.is_finite(),
        a.minus(b).is_finite(),
        value(b) <= value(a),
    ensures
        0 <= value(a.minus(b)),
        within(0x100_0000 * (value(a.minus(b)) - (value(a) - value(b))), value(a) - value(b)),
{
    lemma2_to64();
    lemma_difference_units(a, b);
    law_rounding_error(Width::Single, (value(a) - value(b)) as nat);
}

/// How far a rounded quotient is from the quotient.
proof fn lemma_quotient_error(a: Binary32, b: Binary32)
    requires
        a.is_finite(),
        b.is_finite(),
        0 <= value(a) <= value(b),
        Binary32::of_integer(0).below(b),
        a.over(b).is_finite(),
    ensures
        ({
            let (x, y, t) = (value(a), value(b), pow2(149) as int);
            within(
                2 * (0x100_0000 * (value(a.over(b)) * y - x * t)),
                2 * (x * t) + 0x100_0000 * y,
            )
        }),
        0 <= value(a.over(b)),
{
    let w = Width::Single;
    let t = pow2(149) as int;
    let (u, k) = (units(w, a.parts().mag as nat), units(w, b.parts().mag as nat));
    lemma_zero();
    lemma2_to64();
    lemma_pow2_pos(149);
    lemma_unit_zero(a.parts().mag as nat);
    lemma_unit_zero(b.parts().mag as nat);
    lemma_unit_zero(0);
    reveal(quotient);
    if a.parts().mag == 0 {
        assert(0 * t == 0 && 0 * (k as int) == 0) by (nonlinear_arith);
    } else {
        law_ratio_rounding_error(w, u * pow2(149), k);
        assert(u * t >= 0) by (nonlinear_arith)
            requires
                t > 0,
        ;
    }
}

// ---- the share, in integers ----

/// A rounded share is near the true one: `q / t` is near `d / r`.
proof fn lemma_share_error(d: int, r: int, dr: int, rr: int, q: int, t: int)
    requires
        0 <= d <= r,
        0 < r,
        0 <= dr <= rr,
        0x100_0000 <= t,
        within(0x100_0000 * (dr - d), d),
        within(0x100_0000 * (rr - r), r),
        within(2 * (0x100_0000 * (q * rr - dr * t)), 2 * (dr * t) + 0x100_0000 * rr),
    ensures
        within(0x100_0000 * (q * r - d * t), 6 * (r * t)),
{
    let p: int = 0x100_0000;
    let a = q * rr - dr * t;
    assert(dr * t <= rr * t && p * rr <= rr * t) by (nonlinear_arith)
        requires
            dr <= rr,
            p <= t,
            0 <= t,
            0 <= rr,
    ;
    assert(within(p * a, 2 * (rr * t)));
    lemma_within_scaled(p * a, 2 * (rr * t), r);
    lemma_within_scaled(p * (dr - d), d, r);
    lemma_within_scaled(p * (rr - r), r, d);
    let b = dr * r - d * rr;
    assert(p * b == (p * (dr - d)) * r - (p * (rr - r)) * d) by (nonlinear_arith)
        requires
            b == dr * r - d * rr,
    ;
    assert(d * r <= r * r && r * d == d * r) by (nonlinear_arith)
        requires
            0 <= d <= r,
    ;
    lemma_within_scaled(p * b, 2 * (r * r), t);
    assert(r <= 2 * rr);
    assert((2 * (r * r)) * t <= 4 * (rr * (r * t))) by (nonlinear_arith)
        requires
            r <= 2 * rr,
            0 < r,
            0 < t,
    ;
    let x = q * r - d * t;
    assert(x * rr == a * r + b * t) by {
        lemma_spread_out(q, r, d, t, rr);
        lemma_spread_out(q, rr, dr, t, r);
        lemma_spread_out(dr, r, d, rr, t);
        assert((q * rr) * r == (q * r) * rr && (d * rr) * t == (d * t) * rr && (dr * r) * t == (dr
            * t) * r) by (nonlinear_arith);
    }
    lemma_same_factor(p, x, rr);
    lemma_same_factor(p, a, r);
    lemma_same_factor(p, b, t);
    assert((2 * (rr * t)) * r == 2 * (rr * (r * t)) && (6 * (r * t)) * rr == 6 * (rr * (r * t)))
        by (nonlinear_arith);
    lemma_within_cancel(p * x, 6 * (r * t), rr);
}

/// Products that are rounded keep the true share nearly: `d2 / r2` is near `d / r`.
proof fn lemma_scaled_share(
    d: int,
    r: int,
    d2: int,
    r2: int,
    z: int,
    t: int,
    m: int,
    k: int,
)
    requires
        0 <= d <= r,
        0 < r,
        0 < z,
        0 < t,
        0x100_0000 <= r2,
        1 <= k <= 4096,
        0 <= m <= k * r,
        within(0x100_0000 * (d2 * t - d * z), 2 * (m * z) + 0x100_0000 * t),
        within(0x100_0000 * (r2 * t - r * z), 2 * (m * z) + 0x100_0000 * t),
    ensures
        within(0x100_0000 * (d2 * r - d * r2), 8 * (k * (r2 * r))),
{
    let p: int = 0x100_0000;
    let (y, s) = (r * z, r2 * t);
    assert(0 < y && p * t <= s && s <= k * s) by (nonlinear_arith)
        requires
            0 < r,
            0 < z,
            0 < t,
            p <= r2,
            1 <= k,
            y == r * z,
            s == r2 * t,
            0 < p,
    ;
    assert(m * z <= k * y && k * y <= 4096 * y) by (nonlinear_arith)
        requires
            m <= k * r,
            k <= 4096,
            0 < z,
            0 < y,
            y == r * z,
    ;
    assert(2 * y <= 3 * s);
    assert(2 * (k * y) <= 3 * (k * s)) by (nonlinear_arith)
        requires
            2 * y <= 3 * s,
            1 <= k,
    ;
    let (e1, e2) = (d2 * t - d * z, r2 * t - r * z);
    let bound = 4 * (k * s);
    assert(within(p * e1, bound) && within(p * e2, bound));
    lemma_within_scaled(p * e1, bound, r);
    lemma_within_scaled(p * e2, bound, d);
    let x = d2 * r - d * r2;
    assert(x * t == e1 * r - e2 * d) by {
        lemma_spread_out(d2, r, d, r2, t);
        lemma_spread_out(d2, t, d, z, r);
        lemma_spread_out(r2, t, r, z, d);
        assert((d2 * t) * r == (d2 * r) * t && (d * t) * r2 == (r2 * d) * t && (d * r) * z == (r
            * d) * z) by (nonlinear_arith);
    }
    lemma_same_factor(p, x, t);
    lemma_same_factor(p, e1, r);
    lemma_same_factor(p, e2, d);
    assert(bound * d <= bound * r) by (nonlinear_arith)
        requires
            0 <= d <= r,
            0 <= bound,
    ;
    assert(2 * (bound * r) == (8 * (k * (r2 * r))) * t) by (nonlinear_arith)
        requires
            bound == 4 * (k * s),
            s == r2 * t,
    ;
    lemma_within_cancel(p * x, 8 * (k * (r2 * r)), t);
}

/// Two rounded shares are near each other.
proof fn lemma_shares_near(
    d: int,
    r: int,
    d2: int,
    r2: int,
    q: int,
    q2: int,
    t: int,
    k: int,
)
    requires
        0 < r,
        0 < r2,
        0 < t,
        1 <= k,
        within(0x100_0000 * (q * r - d * t), 6 * (r * t)),
        within(0x100_0000 * (q2 * r2 - d2 * t), 6 * (r2 * t)),
        within(0x100_0000 * (d2 * r - d * r2), 8 * (k * (r2 * r))),
    ensures
        within(0x100_0000 * (q2 - q), 20 * (k * t)),
{
    let p: int = 0x100_0000;
    let (a, b, c) = (q * r - d * t, q2 * r2 - d2 * t, d2 * r - d * r2);
    lemma_within_scaled(p * a, 6 * (r * t), r2);
    lemma_within_scaled(p * b, 6 * (r2 * t), r);
    lemma_within_scaled(p * c, 8 * (k * (r2 * r)), t);
    let g = r * r2;
    assert((q2 - q) * g == b * r - a * r2 + c * t) by {
        lemma_spread_out(q2, r2, d2, t, r);
        lemma_spread_out(q, r, d, t, r2);
        lemma_spread_out(d2, r, d, r2, t);
        assert((q2 - q) * g == q2 * g - q * g) by (nonlinear_arith);
        assert((q2 * r) * r2 == q2 * g && (q * r2) * r == q * g && (d2 * t) * r == (d2 * r) * t && (
        d * t) * r2 == (d * r2) * t) by (nonlinear_arith)
            requires
                g == r * r2,
        ;
    }
    lemma_same_factor(p, q2 - q, g);
    lemma_same_factor(p, b, r);
    lemma_same_factor(p, a, r2);
    lemma_same_factor(p, c, t);
    assert((6 * (r * t)) * r2 == 6 * (t * g) && (6 * (r2 * t)) * r == 6 * (t * g) && (8 * (k * (r2
        * r))) * t == 8 * ((k * t) * g) && g > 0) by (nonlinear_arith)
        requires
            g == r * r2,
            0 < r,
            0 < r2,
    ;
    assert(t * g <= (k * t) * g) by (nonlinear_arith)
        requires
            1 <= k,
            0 < t,
            0 < g,
    ;
    assert((20 * (k * t)) * g == 20 * ((k * t) * g)) by (nonlinear_arith);
    lemma_within_cancel(p * (q2 - q), 20 * (k * t), g);
}

// ---- the share ----

/// Whether a height and a Z range that is not a degenerate one are finite, scaled
/// or not, and neither end of the range is farther from zero than `k` times the
/// range.
pub open spec fn stays_near(v: Binary32, lo: Binary32, hi: Binary32, z: Binary32, k: nat) -> bool {
    let range = value(hi) - value(lo);
    &&& v.is_finite()
    &&& lo.is_finite()
    &&& hi.is_finite()
    &&& v.times(z).is_finite()
    &&& lo.times(z).is_finite()
    &&& hi.times(z).is_finite()
    &&& hi.minus(lo).is_finite()
    &&& hi.times(z).minus(lo.times(z)).is_finite()
    &&& epsilon().at_most(hi.minus(lo))
    &&& epsilon().at_most(hi.times(z).minus(lo.times(z)))
    &&& within(value(lo), k * range)
    &&& within(value(hi), k * range)
}

/// The smallest step at one, in units.
proof fn lemma_epsilon()
    ensures
        value(epsilon()) == pow2(126),
        pow2(126) >= 0x200_0000,
        pow2(149) >= 0x100_0000,
{
    let w = Width::Single;
    let m: nat = 0x3400_0000;
    lemma_mag(w, m);
    assert(mag_exp(w, m) == 103 && mag_man(w, m) == 0x80_0000);
    lemma2_to64();
    lemma_pow2_adds(23, 103);
    lemma_pow2_mono(25, 126);
    lemma_pow2_mono(24, 149);
}

/// A height at or below the lower end takes up nothing of the Z range, one at or
/// above the upper end takes up all of it.
pub(crate) proof fn lemma_outside(v: Binary32, lo: Binary32, hi: Binary32)
    requires
        v.is_finite(),
        lo.is_finite(),
        hi.is_finite(),
        hi.minus(lo).is_finite(),
        epsilon().at_most(hi.minus(lo)),
    ensures
        v.at_most(lo) ==> unit_clamp(share(v, lo, hi)).is_finite() && value(
            unit_clamp(share(v, lo, hi)),
        ) == 0,
        hi.at_most(v) ==> unit_clamp(share(v, lo, hi)).is_finite() && value(
            unit_clamp(share(v, lo, hi)),
        ) == pow2(149),
{
    lemma_zero();
    lemma_one();
    lemma_unit_zero(0);
    let b = hi.minus(lo);
    assert(range_of(lo, hi) == b);
    if v.at_most(lo) {
        law_difference_keeps_order(v, lo, lo, lo);
        law_difference_with_itself(lo);
        law_quotient_keeps_order(v.minus(lo), Binary32::of_integer(0), b);
        lemma_zero_quotient(b);
    }
    if hi.at_most(v) {
        law_difference_keeps_order(hi, v, lo, lo);
        lemma_beyond(v.minus(lo), b);
    }
}

/// The share that a height within the Z range takes up, and how it is rounded.
pub(crate) proof fn lemma_inside(v: Binary32, lo: Binary32, hi: Binary32)
    requires
        v.is_finite(),
        lo.is_finite(),
        hi.is_finite(),
        lo.at_most(v),
        v.at_most(hi),
        hi.minus(lo).is_finite(),
        epsilon().at_most(hi.minus(lo)),
    ensures
        ({
            let (d, r, t) = (value(v) - value(lo), value(hi) - value(lo), pow2(149) as int);
            let s = share(v, lo, hi);
            &&& unit_clamp(s) == s
            &&& s.is_finite()
            &&& 0 <= value(s) <= t
            &&& 0 <= d <= r
            &&& 0x100_0000 <= r
            &&& within(0x100_0000 * (value(s) * r - d * t), 6 * (r * t))
        }),
{
    let zero = Binary32::of_integer(0);
    let one = Binary32::of_integer(1);
    let (a, b) = (v.minus(lo), hi.minus(lo));
    let t = pow2(149) as int;
    lemma_zero();
    lemma_one();
    lemma_epsilon();
    lemma_unit_zero(0);
    assert(range_of(lo, hi) == b);
    lemma_units_follow(lo, v);
    lemma_units_follow(v, hi);
    law_difference_keeps_order(lo, v, lo, lo);
    law_difference_keeps_order(v, hi, lo, lo);
    law_difference_with_itself(lo);
    assert(a.is_finite());
    lemma_difference_error(v, lo);
    lemma_difference_error(hi, lo);
    lemma_units_follow(a, b);
    lemma_units_follow(epsilon(), b);
    law_quotient_keeps_order(zero, a, b);
    law_quotient_keeps_order(a, b, b);
    lemma_zero_quotient(b);
    law_one(b, b);
    let s = a.over(b);
    assert(s.is_finite());
    lemma_units_follow(s, one);
    lemma_quotient_error(a, b);
    let (d, r) = (value(v) - value(lo), value(hi) - value(lo));
    assert(value(b) <= 2 * r);
    lemma_share_error(d, r, value(a), value(b), value(s), t);
}

/// A factor that rounds moves the share of the Z range that the colour maps take
/// by little: by `20 * k` parts in `2^24`, where neither end of the range is
/// farther from zero than `k` times the range.
pub proof fn law_factor_moves_the_share_little(
    v: Binary32,
    lo: Binary32,
    hi: Binary32,
    z: Binary32,
    k: nat,
)
    requires
        z.is_finite(),
        Binary32::of_integer(0).below(z),
        1 <= k <= 4096,
        stays_near(v, lo, hi, z, k),
    ensures
        ({
            let (a, b) = (
                unit_clamp(share(v, lo, hi)),
                unit_clamp(share(v.times(z), lo.times(z), hi.times(z))),
            );
            &&& a.is_finite()
            &&& b.is_finite()
            &&& 0 <= value(a) <= pow2(149)
            &&& 0 <= value(b) <= pow2(149)
            &&& within(0x100_0000 * (value(b) - value(a)), 20 * (k * (pow2(149) as int)))
        }),
{
    let (v2, lo2, hi2) = (v.times(z), lo.times(z), hi.times(z));
    let t = pow2(149) as int;
    lemma_pow2_pos(149);
    lemma_zero();
    assert(k * t >= 0) by (nonlinear_arith)
        requires
            t > 0,
    ;
    if v.at_most(lo) {
        law_product_keeps_order(v, lo, z);
        lemma_outside(v, lo, hi);
        lemma_outside(v2, lo2, hi2);
    } else if hi.at_most(v) {
        law_product_keeps_order(hi, v, z);
        lemma_outside(v, lo, hi);
        lemma_outside(v2, lo2, hi2);
    } else {
        law_product_keeps_order(lo, v, z);
        law_product_keeps_order(v, hi, z);
        lemma_inside(v, lo, hi);
        lemma_inside(v2, lo2, hi2);
        lemma_product_error(v, z);
        lemma_product_error(lo, z);
        lemma_product_error(hi, z);
        lemma_unit_zero(z.parts().mag as nat);
        let (x, l, h, c) = (value(v), value(lo), value(hi), value(z));
        let (d, r) = (x - l, h - l);
        let (d2, r2) = (value(v2) - value(lo2), value(hi2) - value(lo2));
        let m = k * r;
        lemma_within_scaled(x, m, c);
        assert(-(x * c) == (-x) * c && -(l * c) == (-l) * c && -(h * c) == (-h) * c)
            by (nonlinear_arith);
        lemma_within_scaled(l, m, c);
        lemma_within_scaled(h, m, c);
        assert(d2 * t - d * c == (value(v2) * t - x * c) - (value(lo2) * t - l * c))
            by (nonlinear_arith)
            requires
                d2 == value(v2) - value(lo2),
                d == x - l,
        ;
        assert(r2 * t - r * c == (value(hi2) * t - h * c) - (value(lo2) * t - l * c))
            by (nonlinear_arith)
            requires
                r2 == value(hi2) - value(lo2),
                r == h - l,
        ;
        lemma_scaled_share(d, r, d2, r2, c, t, m, k as int);
        lemma_shares_near(
            d,
            r,
            d2,
            r2,
            value(share(v, lo, hi)),
            value(share(v2, lo2, hi2)),
            t,
            k as int,
        );
    }
}

// ---- the levels ----

/// A share of 255 is near 255 times the share, and its level is what is whole of
/// it.
pub(crate) proof fn lemma_level(a: Binary32)
    requires
        a.is_finite(),
        0 <= value(a) <= pow2(149),
    ensures
        ({
            let x = value(a.times(Binary32::of_integer(255)));
            let n = x / (pow2(149) as int);
            &&& 0 <= x
            &&& within(2 * (0x100_0000 * (x - 255 * value(a))), 511 * (pow2(149) as int))
            &&& level(a) == if n > 255 { 255 } else { n }
        }),
{
    let f = Binary32::of_integer(255);
    let one = Binary32::of_integer(1);
    let w = Width::Single;
    let t = pow2(149) as int;
    lemma_zero();
    lemma_one();
    lemma2_to64();
    lemma_epsilon();
    law_integer_is_exact(255);
    lemma_unit_zero(f.parts().mag as nat);
    lemma_unit_zero(a.parts().mag as nat);
    lemma_at_most(a, one);
    law_product_keeps_order(a, one, f);
    law_one(one, f);
    lemma_product_range(a, f);
    let r = a.times(f);
    assert(r.is_finite()) by {
        reveal(product);
    }
    lemma_unit_zero(r.parts().mag as nat);
    lemma_unit_zero(0);
    let x = value(r);
    let u = value(a);
    assert(0 <= x) by {
        reveal(product);
    }
    lemma_product_error(a, f);
    assert(u * (255 * t) == (255 * u) * t && u <= t) by (nonlinear_arith)
        requires
            u <= t,
    ;
    let y = x - 255 * u;
    assert(x * t - u * (255 * t) == y * t) by (nonlinear_arith)
        requires
            y == x - 255 * u,
    ;
    assert((2 * (0x100_0000 * y)) * t == 2 * (0x100_0000 * (y * t))) by (nonlinear_arith);
    assert(2 * (u * (255 * t)) + 0x100_0000 * t <= (511 * t) * t) by (nonlinear_arith)
        requires
            0 <= u <= t,
            0x100_0000 <= t,
    ;
    lemma_within_cancel(2 * (0x100_0000 * y), 511 * t, t);
    reveal(to_int);
    lemma_fundamental_div_mod(x, t);
    assert(x / t >= 0) by (nonlinear_arith)
        requires
            x >= 0,
            t > 0,
            x == t * (x / t) + x % t,
            0 <= x % t < t,
    ;
}

/// Numbers are in order as their values are.
proof fn lemma_at_most(a: Binary32, b: Binary32)
    requires
        a.is_finite(),
        b.is_finite(),
        value(a) <= value(b),
    ensures
        a.at_most(b),
{
    if b.below(a) {
        lemma_units_follow(b, a);
        lemma_same_value(a, b);
    }
}

/// Different numbers have different values.
proof fn lemma_same_value(a: Binary32, b: Binary32)
    requires
        a.is_finite(),
        b.is_finite(),
        value(a) == value(b),
    ensures
        a.at_most(b),
        b.at_most(a),
{
    let w = Width::Single;
    let (p, q) = (a.parts().mag as nat, b.parts().mag as nat);
    lemma_unit_zero(p);
    lemma_unit_zero(q);
    if p < q {
        lemma_units_ordered(w, p, q);
    } else if q < p {
        lemma_units_ordered(w, q, p);
    }
}

/// Levels of near shares are the same or next to each other.
proof fn lemma_levels_near(a: Binary32, b: Binary32)
    requires
        a.is_finite(),
        b.is_finite(),
        0 <= value(a) <= pow2(149),
        0 <= value(b) <= pow2(149),
        within(0x100_0000 * (value(b) - value(a)), 65000 * (pow2(149) as int)),
    ensures
        within(level(b) - level(a), 1),
{
    let t = pow2(149) as int;
    let f = Binary32::of_integer(255);
    lemma_pow2_pos(149);
    lemma_level(a);
    lemma_level(b);
    let (x, y) = (value(a.times(f)), value(b.times(f)));
    assert(within(y - x, t));
    lemma_fundamental_div_mod(x, t);
    lemma_fundamental_div_mod(y, t);
    assert(within(y / t - x / t, 1)) by (nonlinear_arith)
        requires
            x == t * (x / t) + x % t,
            y == t * (y / t) + y % t,
            0 <= x % t < t,
            0 <= y % t < t,
            -t <= y - x <= t,
            t > 0,
    ;
}

// ---- viridis ----

/// 128, in units.
proof fn lemma_128()
    ensures
        units(Width::Single, 0x4300_0000) == 128 * pow2(149),
        pow2(149) >= 0x100_0000,
{
    let w = Width::Single;
    lemma_mag(w, 0x4300_0000);
    assert(mag_exp(w, 0x4300_0000) == 133 && mag_man(w, 0x4300_0000) == 0x80_0000);
    lemma2_to64();
    lemma_pow2_adds(23, 133);
    lemma_pow2_adds(7, 149);
    lemma_epsilon();
}

/// The distance of two numbers.
pub open spec fn apart(a: int, b: int) -> int {
    if a < b {
        b - a
    } else {
        a - b
    }
}

/// How far a rounded difference of numbers that are not far apart is from the
/// difference.
proof fn lemma_small_difference(a: Binary32, b: Binary32)
    requires
        a.is_finite(),
        b.is_finite(),
        apart(value(a), value(b)) <= 128 * pow2(149),
    ensures
        a.minus(b).is_finite(),
        within(
            0x100_0000 * (value(a.minus(b)) - (value(a) - value(b))),
            apart(value(a), value(b)),
        ),
{
    let w = Width::Single;
    let n = apart(value(a), value(b)) as nat;
    lemma_128();
    lemma2_to64();
    law_representable_is_kept(w, 0x4300_0000, 1);
    law_rounding_keeps_order(w, n, 1, 128 * pow2(149), 1);
    assert(a.minus(b).is_finite()) by {
        reveal(sum);
    }
    lemma_difference_units(a, b);
    law_rounding_error(w, n);
}

/// How far a small rounded sum is from the sum.
proof fn lemma_small_sum(a: Binary32, b: Binary32)
    requires
        a.is_finite(),
        b.is_finite(),
        within(value(a) + value(b), 128 * (pow2(149) as int)),
    ensures
        a.plus(b).is_finite(),
        within(
            0x100_0000 * (value(a.plus(b)) - (value(a) + value(b))),
            apart(value(a) + value(b), 0),
        ),
{
    let w = Width::Single;
    let n = apart(value(a) + value(b), 0) as nat;
    lemma_128();
    lemma2_to64();
    lemma_unit_zero(0);
    lemma_nearest_zero(w, 1);
    law_representable_is_kept(w, 0x4300_0000, 1);
    law_rounding_keeps_order(w, n, 1, 128 * pow2(149), 1);
    law_rounding_error(w, n);
    reveal(sum);
}

/// How far a small rounded product is from the product.
proof fn lemma_small_product(a: Binary32, b: Binary32)
    requires
        a.is_finite(),
        b.is_finite(),
        within(value(a) * value(b), (128 * (pow2(149) as int)) * (pow2(149) as int)),
    ensures
        a.times(b).is_finite(),
        within(
            2 * (0x100_0000 * (value(a.times(b)) * (pow2(149) as int) - value(a) * value(b))),
            2 * apart(value(a) * value(b), 0) + 0x100_0000 * (pow2(149) as int),
        ),
{
    let w = Width::Single;
    let t = pow2(149) as int;
    let (u, k) = (units(w, a.parts().mag as nat), units(w, b.parts().mag as nat));
    let n = u * k;
    lemma_128();
    lemma2_to64();
    lemma_unit_zero(a.parts().mag as nat);
    lemma_unit_zero(b.parts().mag as nat);
    lemma_unit_zero(0);
    assert(u * k >= 0 && (-(u as int)) * k == -(u * k) && u * (-(k as int)) == -(u * k) && (-(
    u as int)) * (-(k as int)) == u * k) by (nonlinear_arith);
    assert(n == apart(value(a) * value(b), 0));
    law_representable_is_kept(w, 0x4300_0000, pow2(149));
    assert(n * pow2(149) <= ((128 * pow2(149)) * pow2(149)) * pow2(149)) by (nonlinear_arith)
        requires
            n <= (128 * t) * t,
            t == pow2(149),
    ;
    law_rounding_keeps_order(w, n, pow2(149), (128 * pow2(149)) * pow2(149), pow2(149));
    lemma_product_range(a, b);
    reveal(product);
    let r = units(w, a.times(b).parts().mag as nat) as int;
    assert(0 * t == 0 && u * 0 == 0 && 0 * k == 0) by (nonlinear_arith);
    if a.parts().mag > 0 && b.parts().mag > 0 {
        law_ratio_rounding_error(w, n, pow2(149));
        assert((-r) * t == -(r * t)) by (nonlinear_arith);
    }
}

/// Whether a number is a stop's: not near zero, and not near one.
pub open spec fn is_stop(a: Binary32) -> bool {
    a.is_finite() && pow2(149) <= 512 * value(a) && 512 * value(a) <= 511 * pow2(149)
}

/// Whether two numbers can be those of neighbouring stops.
pub open spec fn are_neighbours(a: Binary32, b: Binary32) -> bool {
    is_stop(a) && is_stop(b) && 4 * apart(value(a), value(b)) <= 3 * pow2(149)
}

proof fn lemma_landmarks()
    ensures
        512 * units(Width::Single, 0x3b00_0000) == pow2(149),
        4 * units(Width::Single, 0x3e80_0000) == pow2(149),
        4 * units(Width::Single, 0x3f40_0000) == 3 * pow2(149),
        512 * units(Width::Single, 0x3f7f_8000) == 511 * pow2(149),
{
    let w = Width::Single;
    lemma2_to64();
    lemma_mag(w, 0x3b00_0000);
    lemma_mag(w, 0x3e80_0000);
    lemma_mag(w, 0x3f40_0000);
    lemma_mag(w, 0x3f7f_8000);
    assert(mag_exp(w, 0x3b00_0000) == 117 && mag_man(w, 0x3b00_0000) == 0x80_0000);
    assert(mag_exp(w, 0x3e80_0000) == 124 && mag_man(w, 0x3e80_0000) == 0x80_0000);
    assert(mag_exp(w, 0x3f40_0000) == 125 && mag_man(w, 0x3f40_0000) == 0xc0_0000);
    assert(mag_exp(w, 0x3f7f_8000) == 125 && mag_man(w, 0x3f7f_8000) == 0xff_8000);
    lemma_pow2_adds(32, 117);
    lemma_pow2_adds(25, 124);
    lemma_pow2_adds(24, 125);
}

/// What a pattern between those of 1/512 and 511/512 stands for.
proof fn lemma_stop_bounds(m: nat)
    requires
        0x3b00_0000 <= m <= 0x3f7f_8000,
    ensures
        pow2(149) <= 512 * units(Width::Single, m) <= 511 * pow2(149),
        m <= 0x3f40_0000 ==> 4 * units(Width::Single, m) <= 3 * pow2(149),
        m >= 0x3e80_0000 ==> 4 * units(Width::Single, m) >= pow2(149),
{
    let w = Width::Single;
    lemma_landmarks();
    if m > 0x3b00_0000 {
        lemma_units_ordered(w, 0x3b00_0000, m);
    }
    if m < 0x3f7f_8000 {
        lemma_units_ordered(w, m, 0x3f7f_8000);
    }
    if m < 0x3f40_0000 {
        lemma_units_ordered(w, m, 0x3f40_0000);
    }
    if m > 0x3e80_0000 {
        lemma_units_ordered(w, 0x3e80_0000, m);
    }
}

proof fn lemma_neighbours(a: Binary32, b: Binary32)
    requires
        0x3b00_0000 <= a.bits <= 0x3f7f_8000,
        0x3b00_0000 <= b.bits <= 0x3f7f_8000,
        (a.bits <= 0x3f40_0000 && b.bits <= 0x3f40_0000) || (a.bits >= 0x3e80_0000 && b.bits
            >= 0x3e80_0000),
    ensures
        are_neighbours(a, b),
{
    lemma_stop_bounds(a.bits as nat);
    lemma_stop_bounds(b.bits as nat);
}

/// The numbers of two stops that follow each other.
pub(crate) proof fn lemma_stops(i: int)
    requires
        0 <= i <= 6,
    ensures
        ({
            let (a, b) = (viridis_stop(i as usize), viridis_stop((i + 1) as usize));
            are_neighbours(a.0, b.0) && are_neighbours(a.1, b.1) && are_neighbours(a.2, b.2)
        }),
{
    let (a, b) = (viridis_stop(i as usize), viridis_stop((i + 1) as usize));
    lemma_neighbours(a.0, b.0);
    lemma_neighbours(a.1, b.1);
    lemma_neighbours(a.2, b.2);
}

/// What a blend stands for, times a unit, if nothing is rounded: at `s` between
/// stop `i`, where it is `a`, and the next one, where it is `b`.
pub open spec fn ideal(a: int, b: int, i: int, s: int, t: int) -> int {
    a * t + (s - i * t) * (b - a)
}

/// A blend of what is `d / t` of the way is between the ends.
proof fn lemma_between(a: int, b: int, d: int, t: int)
    requires
        t <= 512 * a <= 511 * t,
        t <= 512 * b <= 511 * t,
        0 <= d <= t,
    ensures
        t * t <= 512 * (a * t + d * (b - a)) <= 511 * (t * t),
{
    assert(a * t + d * (b - a) == a * (t - d) + b * d) by (nonlinear_arith);
    assert(t * (t - d) <= 512 * (a * (t - d)) <= 511 * (t * (t - d))) by (nonlinear_arith)
        requires
            t <= 512 * a <= 511 * t,
            d <= t,
    ;
    assert(t * d <= 512 * (b * d) <= 511 * (t * d)) by (nonlinear_arith)
        requires
            t <= 512 * b <= 511 * t,
            0 <= d,
    ;
    assert(t * (t - d) + t * d == t * t) by (nonlinear_arith);
}

/// How far the product of rounded factors is from that of the factors.
proof fn lemma_factors(d: int, g: int, dr: int, gr: int, q: int, t: int)
    requires
        0x100_0000 <= t,
        0 <= d <= t,
        within(4 * g, 3 * t),
        within(0x100_0000 * (dr - d), d),
        within(0x100_0000 * (gr - g), t),
        within(2 * (0x100_0000 * (q * t - dr * gr)), 2 * apart(dr * gr, 0) + 0x100_0000 * t),
    ensures
        within(0x100_0000 * (q * t - d * g), 5 * (t * t)),
        within(q, t),
{
    let p: int = 0x100_0000;
    assert(within(dr, 2 * t) && within(gr, t));
    let (x, y) = (p * (dr - d), p * (gr - g));
    assert(within(x * gr, t * t)) by (nonlinear_arith)
        requires
            -t <= x <= t,
            -t <= gr <= t,
    ;
    assert(within(y * d, t * t)) by (nonlinear_arith)
        requires
            -t <= y <= t,
            0 <= d <= t,
    ;
    assert(p * (dr * gr - d * g) == x * gr + y * d) by {
        lemma_same_factor(p, dr - d, gr);
        lemma_same_factor(p, gr - g, d);
        assert((dr - d) * gr == dr * gr - d * gr && (gr - g) * d == gr * d - g * d && gr * d == d
            * gr && g * d == d * g) by (nonlinear_arith);
    }
    assert(within(dr * gr, 2 * (t * t))) by (nonlinear_arith)
        requires
            -2 * t <= dr <= 2 * t,
            -t <= gr <= t,
    ;
    assert(p * t <= t * t) by (nonlinear_arith)
        requires
            p <= t,
            0 <= t,
    ;
    assert(within(p * (q * t - d * g), 5 * (t * t)));
    assert(within(4 * (d * g), 3 * (t * t))) by (nonlinear_arith)
        requires
            0 <= d <= t,
            -3 * t <= 4 * g <= 3 * t,
    ;
    assert(within(q * t, t * t));
    lemma_within_cancel(q, t, t);
}

/// How far a blend is from what it stands for; it is not below 0 nor above 1.
pub(crate) proof fn lemma_blend(a: Binary32, b: Binary32, s: Binary32, i: int)
    requires
        are_neighbours(a, b),
        0 <= i <= 6,
        s.is_finite(),
        i * pow2(149) <= value(s) <= (i + 1) * pow2(149),
    ensures
        ({
            let r = blend(a, b, s.minus(Binary32::of_integer(i)));
            let t = pow2(149) as int;
            &&& r.is_finite()
            &&& 0 <= value(r) <= t
            &&& within(
                0x100_0000 * (value(r) * t - ideal(value(a), value(b), i, value(s), t)),
                7 * (t * t),
            )
        }),
{
    let t = pow2(149) as int;
    let p: int = 0x100_0000;
    lemma_128();
    law_integer_is_exact(i);
    let n = Binary32::of_integer(i);
    let f = s.minus(n);
    let g = b.minus(a);
    let d = value(s) - i * t;
    assert((i + 1) * t == i * t + t) by (nonlinear_arith);
    lemma_small_difference(s, n);
    lemma_small_difference(b, a);
    let (dr, gr) = (value(f), value(g));
    assert(within(dr, 2 * t) && within(gr, t));
    assert(within(dr * gr, (128 * t) * t)) by (nonlinear_arith)
        requires
            -2 * t <= dr <= 2 * t,
            -t <= gr <= t,
    ;
    lemma_small_product(f, g);
    let m = f.times(g);
    lemma_factors(d, value(b) - value(a), dr, gr, value(m), t);
    lemma_small_sum(a, m);
    let r = a.plus(m);
    let e = value(r) - (value(a) + value(m));
    lemma_within_scaled(p * e, 2 * t, t);
    lemma_same_factor(p, e, t);
    assert((2 * t) * t == 2 * (t * t)) by (nonlinear_arith);
    assert(e * t == value(r) * t - value(a) * t - value(m) * t) by (nonlinear_arith)
        requires
            e == value(r) - (value(a) + value(m)),
    ;
    lemma_between(value(a), value(b), d, t);
    let x = value(r);
    assert(0 <= x * t <= t * t);
    assert(0 <= x <= t) by (nonlinear_arith)
        requires
            0 <= x * t <= t * t,
            t > 0,
    ;
}

/// The ideal blend moves by no more than three quarters of what the position
/// does, across a stop too.
proof fn lemma_ideal_moves(
    a: int,
    b: int,
    c: int,
    i: int,
    s: int,
    s2: int,
    t: int,
)
    requires
        4 * apart(a, b) <= 3 * t,
        4 * apart(b, c) <= 3 * t,
        s <= s2,
        t > 0,
    ensures
        within(4 * (ideal(a, b, i, s2, t) - ideal(a, b, i, s, t)), 3 * (t * (s2 - s))),
        s <= (i + 1) * t <= s2 ==> within(
            4 * (ideal(b, c, i + 1, s2, t) - ideal(a, b, i, s, t)),
            3 * (t * (s2 - s)),
        ),
{
    let k = (i + 1) * t;
    assert((i + 1) * t == i * t + t) by (nonlinear_arith);
    let (g, h) = (b - a, c - b);
    assert((s2 - i * t) * g - (s - i * t) * g == (s2 - s) * g) by (nonlinear_arith);
    lemma_within_scaled(4 * g, 3 * t, s2 - s);
    lemma_same_factor(4, g, s2 - s);
    lemma_same_factor(3, t, s2 - s);
    assert(g * (s2 - s) == (s2 - s) * g) by (nonlinear_arith);
    if s <= k <= s2 {
        lemma_within_scaled(4 * g, 3 * t, k - s);
        lemma_within_scaled(4 * h, 3 * t, s2 - k);
        lemma_same_factor(4, g, k - s);
        lemma_same_factor(3, t, k - s);
        lemma_same_factor(4, h, s2 - k);
        lemma_same_factor(3, t, s2 - k);
        assert(t * (k - s) + t * (s2 - k) == t * (s2 - s)) by (nonlinear_arith);
        assert(b * t - a * t - (s - i * t) * g == g * (k - s)) by {
            assert(b * t - a * t == g * t) by (nonlinear_arith)
                requires
                    g == b - a,
            ;
            assert(g * t - (s - i * t) * g == g * (t - (s - i * t))) by (nonlinear_arith);
        }
        assert((s2 - k) * h == h * (s2 - k)) by (nonlinear_arith);
    }
}

/// Two positions in the wrong order lie on the stop between them.
proof fn lemma_meets(
    a: int,
    b: int,
    c: int,
    i: int,
    s: int,
    s2: int,
    t: int,
)
    requires
        s <= s2,
        s2 <= (i + 1) * t <= s,
    ensures
        ideal(b, c, i + 1, s, t) == ideal(a, b, i, s2, t),
{
    assert((i + 1) * t == i * t + t) by (nonlinear_arith);
    assert(b * t + 0 * (c - b) == a * t + t * (b - a)) by (nonlinear_arith);
}

/// Where a share stands on the map.
pub(crate) proof fn lemma_position(u: Binary32)
    requires
        u.is_finite(),
        0 <= value(u) <= pow2(149),
    ensures
        ({
            let s = u.times(Binary32::of_integer(7));
            let t = pow2(149) as int;
            let i = stop_before(s);
            &&& s.is_finite()
            &&& within(0x100_0000 * (value(s) - 7 * value(u)), 8 * t)
            &&& 0 <= i <= 6
            &&& i * t <= value(s) <= (i + 1) * t
            &&& i < 6 ==> value(s) < (i + 1) * t
        }),
{
    let t = pow2(149) as int;
    let p: int = 0x100_0000;
    let (one, seven) = (Binary32::of_integer(1), Binary32::of_integer(7));
    let s = u.times(seven);
    lemma_zero();
    lemma_one();
    lemma_128();
    law_integer_is_exact(7);
    lemma_unit_zero(seven.parts().mag as nat);
    let x = value(u);
    assert(0 <= x * (7 * t) <= (7 * t) * t && (7 * t) * t <= (128 * t) * t) by (nonlinear_arith)
        requires
            0 <= x <= t,
    ;
    lemma_small_product(u, seven);
    lemma_at_most(u, one);
    law_product_keeps_order(u, one, seven);
    law_one(one, seven);
    lemma_units_follow(s, seven);
    lemma_unit_zero(0);
    lemma_at_most(Binary32::of_integer(0), u);
    law_product_keeps_order(Binary32::of_integer(0), u, seven);
    assert(value(s) >= 0) by {
        reveal(product);
        lemma_units_follow(Binary32::of_integer(0).times(seven), s);
    }
    let y = value(s) - 7 * x;
    assert(value(s) * t - x * (7 * t) == y * t) by (nonlinear_arith)
        requires
            y == value(s) - 7 * x,
    ;
    lemma_same_factor(p, y, t);
    assert(p * t <= t * t && (8 * t) * t == 8 * (t * t) && (7 * t) * t == 7 * (t * t))
        by (nonlinear_arith)
        requires
            p <= t,
            0 <= t,
    ;
    lemma_within_cancel(p * y, 8 * t, t);
    reveal(to_int);
    let q = value(s) / t;
    lemma_fundamental_div_mod(value(s), t);
    assert(0 <= q <= 7) by (nonlinear_arith)
        requires
            value(s) == t * q + value(s) % t,
            0 <= value(s) % t < t,
            0 <= value(s) <= 7 * t,
            t > 0,
    ;
    assert((q + 1) * t == t * q + t && q * t == t * q) by (nonlinear_arith);
}

/// One number of a colour of viridis moves with the share by little.
proof fn lemma_channel(
    u: Binary32,
    u2: Binary32,
    a: Binary32,
    b: Binary32,
    a2: Binary32,
    b2: Binary32,
)
    requires
        u.is_finite(),
        u2.is_finite(),
        0 <= value(u) <= pow2(149),
        0 <= value(u2) <= pow2(149),
        within(0x100_0000 * (value(u2) - value(u)), 20 * (512 * (pow2(149) as int))),
        are_neighbours(a, b),
        are_neighbours(a2, b2),
        ({
            let i = stop_before(u.times(Binary32::of_integer(7)));
            let j = stop_before(u2.times(Binary32::of_integer(7)));
            (i == j ==> a == a2 && b == b2) && (j == i + 1 ==> b == a2) && (i == j + 1 ==> b2 == a)
        }),
    ensures
        ({
            let (s, s2) = (u.times(Binary32::of_integer(7)), u2.times(Binary32::of_integer(7)));
            let x = blend(a, b, s.minus(Binary32::of_integer(stop_before(s))));
            let y = blend(a2, b2, s2.minus(Binary32::of_integer(stop_before(s2))));
            within(level(y) - level(x), 1)
        }),
{
    let t = pow2(149) as int;
    let p: int = 0x100_0000;
    let seven = Binary32::of_integer(7);
    let (s, s2) = (u.times(seven), u2.times(seven));
    let (i, j) = (stop_before(s), stop_before(s2));
    lemma_128();
    lemma_position(u);
    lemma_position(u2);
    lemma_blend(a, b, s, i);
    lemma_blend(a2, b2, s2, j);
    let x = blend(a, b, s.minus(Binary32::of_integer(i)));
    let y = blend(a2, b2, s2.minus(Binary32::of_integer(j)));
    let d = value(s2) - value(s);
    assert(within(p * d, 71696 * t));
    assert((i + 1) * t == i * t + t && (j + 1) * t == j * t + t) by (nonlinear_arith);
    assert(j <= i + 1) by (nonlinear_arith)
        requires
            j * t <= value(s2),
            value(s) <= i * t + t,
            i < 6 ==> value(s) < i * t + t,
            value(s2) - value(s) < t,
            t > 0,
            j <= 6,
            i <= 6,
    ;
    assert(i <= j + 1) by (nonlinear_arith)
        requires
            i * t <= value(s),
            value(s2) <= j * t + t,
            j < 6 ==> value(s2) < j * t + t,
            value(s) - value(s2) < t,
            t > 0,
            j <= 6,
            i <= 6,
    ;
    let h = ideal(value(a), value(b), i, value(s), t);
    let h2 = ideal(value(a2), value(b2), j, value(s2), t);
    if value(s) <= value(s2) {
        if j < i {
            lemma_meets(value(a2), value(b2), value(b), j, value(s), value(s2), t);
        } else {
            lemma_ideal_moves(value(a), value(b), value(b2), i, value(s), value(s2), t);
        }
    } else {
        if i < j {
            lemma_meets(value(a), value(b), value(b2), i, value(s2), value(s), t);
        } else {
            lemma_ideal_moves(value(a2), value(b2), value(b), j, value(s2), value(s), t);
        }
    }
    assert(within(4 * (h2 - h), 3 * (t * apart(value(s2), value(s)))));
    let w = apart(value(s2), value(s));
    lemma_within_scaled(p * w, 71696 * t, t);
    lemma_same_factor(p, w, t);
    assert((71696 * t) * t == 71696 * (t * t) && w * t == t * w) by (nonlinear_arith);
    assert(within(p * (h2 - h), 53772 * (t * t)));
    let e = value(y) - value(x);
    assert(e * t == value(y) * t - value(x) * t) by (nonlinear_arith)
        requires
            e == value(y) - value(x),
    ;
    lemma_same_factor(p, e, t);
    assert((65000 * t) * t == 65000 * (t * t) && t * t > 0) by (nonlinear_arith)
        requires
            t > 0,
    ;
    lemma_within_cancel(p * e, 65000 * t, t);
    lemma_levels_near(x, y);
}

/// A colour of viridis moves by no more than a level when the share moves by
/// little.
proof fn lemma_viridis_near(u: Binary32, u2: Binary32)
    requires
        u.is_finite(),
        u2.is_finite(),
        0 <= value(u) <= pow2(149),
        0 <= value(u2) <= pow2(149),
        within(0x100_0000 * (value(u2) - value(u)), 20 * (512 * (pow2(149) as int))),
    ensures
        within(viridis_color(u2).red - viridis_color(u).red, 1),
        within(viridis_color(u2).green - viridis_color(u).green, 1),
        within(viridis_color(u2).blue - viridis_color(u).blue, 1),
{
    let seven = Binary32::of_integer(7);
    lemma_position(u);
    lemma_position(u2);
    let (i, j) = (stop_before(u.times(seven)), stop_before(u2.times(seven)));
    lemma_stops(i);
    lemma_stops(j);
    let (a, b) = (viridis_stop(i as usize), viridis_stop((i + 1) as usize));
    let (a2, b2) = (viridis_stop(j as usize), viridis_stop((j + 1) as usize));
    lemma_channel(u, u2, a.0, b.0, a2.0, b2.0);
    lemma_channel(u, u2, a.1, b.1, a2.1, b2.1);
    lemma_channel(u, u2, a.2, b.2, a2.2, b2.2);
}

// ---- hot ----

/// What the constants of the hot map stand for at most.
proof fn lemma_hot_constants()
    ensures
        0 <= value(Binary32 { bits: FOUR_FIFTHS }) <= pow2(149),
        0 <= value(Binary32 { bits: ONE_FIFTH }) <= pow2(149),
        0 <= value(Binary32 { bits: RED_MIDDLE }) <= pow2(149),
        0 <= value(Binary32 { bits: OTHER_MIDDLE }) <= pow2(149),
        within(value(Binary32 { bits: MINUS_SEVEN }), 11 * (pow2(149) as int)),
        within(value(Binary32 { bits: MINUS_TEN }), 11 * (pow2(149) as int)),
        within(value(Binary32 { bits: MINUS_ELEVEN }), 11 * (pow2(149) as int)),
{
    let w = Width::Single;
    let (one, eleven): (nat, nat) = (0x3f80_0000, 0x4130_0000);
    lemma_one();
    lemma2_to64();
    lemma_mag(w, eleven);
    assert(mag_exp(w, eleven) == 129 && mag_man(w, eleven) == 0xb0_0000);
    lemma_pow2_adds(20, 129);
    lemma_units_ordered(w, FOUR_FIFTHS as nat, one);
    lemma_units_ordered(w, ONE_FIFTH as nat, one);
    lemma_units_ordered(w, RED_MIDDLE as nat, one);
    lemma_units_ordered(w, OTHER_MIDDLE as nat, one);
    lemma_units_ordered(w, (MINUS_SEVEN - 0x8000_0000) as nat, eleven);
    lemma_units_ordered(w, (MINUS_TEN - 0x8000_0000) as nat, eleven);
}

/// Where a share stands on the hot map.
proof fn lemma_hot_position(u: Binary32)
    requires
        u.is_finite(),
        0 <= value(u) <= pow2(149),
    ensures
        ({
            let t = pow2(149) as int;
            let c = value(Binary32 { bits: FOUR_FIFTHS });
            let o = value(Binary32 { bits: ONE_FIFTH });
            let x = hot_position(u);
            &&& x.is_finite()
            &&& within(value(x), 4 * t)
            &&& within(0x100_0000 * ((value(x) - o) * t - value(u) * c), 5 * (t * t))
        }),
{
    let t = pow2(149) as int;
    let p: int = 0x100_0000;
    let (f, o) = (Binary32 { bits: FOUR_FIFTHS }, Binary32 { bits: ONE_FIFTH });
    let (x, c) = (value(u), value(f));
    lemma_hot_constants();
    lemma_128();
    assert(0 <= x * c <= t * t && t * t <= (128 * t) * t && p * t <= t * t) by (nonlinear_arith)
        requires
            0 <= x <= t,
            0 <= c <= t,
            p <= t,
    ;
    lemma_small_product(u, f);
    let m = u.times(f);
    let y = value(m);
    assert(within(p * (y * t - x * c), 2 * (t * t)));
    assert(within(y * t, (2 * t) * t)) by {
        assert((2 * t) * t == 2 * (t * t)) by (nonlinear_arith);
    }
    lemma_within_cancel(y, 2 * t, t);
    lemma_small_sum(m, o);
    let e = value(m.plus(o)) - (y + value(o));
    lemma_within_scaled(p * e, 3 * t, t);
    lemma_same_factor(p, e, t);
    assert((3 * t) * t == 3 * (t * t)) by (nonlinear_arith);
    let g = value(m.plus(o)) - value(o);
    assert(g * t == e * t + y * t) by (nonlinear_arith)
        requires
            g == e + y,
    ;
}

/// Whether an exponent moves by no more than a bound, in parts of `2^24`.
spec fn exponent_moves(
    x: Binary32,
    x2: Binary32,
    c: Binary32,
    mid: Binary32,
    bound: int,
) -> bool {
    within(
        0x100_0000 * (value(c.times(x2.minus(mid))) - value(c.times(x.minus(mid)))),
        bound,
    )
}

/// One exponent of the hot map moves with the position by little.
proof fn lemma_exponent(x: Binary32, x2: Binary32, c: Binary32, mid: Binary32, n: int)
    requires
        x.is_finite(),
        x2.is_finite(),
        c.is_finite(),
        mid.is_finite(),
        within(value(x), 4 * (pow2(149) as int)),
        within(value(x2), 4 * (pow2(149) as int)),
        0 <= value(mid) <= pow2(149),
        within(value(c), 11 * (pow2(149) as int)),
        within(0x100_0000 * (value(x2) - value(x)), n),
    ensures
        exponent_moves(x, x2, c, mid, 11 * n + 300 * (pow2(149) as int)),
{
    let t = pow2(149) as int;
    let p: int = 0x100_0000;
    let k = value(c);
    lemma_128();
    lemma_small_difference(x, mid);
    lemma_small_difference(x2, mid);
    let (d, d2) = (value(x.minus(mid)), value(x2.minus(mid)));
    assert(within(d, 6 * t) && within(d2, 6 * t));
    assert(within(p * (d2 - d), n + 10 * t));
    assert(within(k * d, 66 * (t * t)) && within(k * d2, 66 * (t * t)) && 66 * (t * t) <= (128 * t)
        * t) by (nonlinear_arith)
        requires
            -11 * t <= k <= 11 * t,
            -6 * t <= d <= 6 * t,
            -6 * t <= d2 <= 6 * t,
    ;
    lemma_small_product(c, x.minus(mid));
    lemma_small_product(c, x2.minus(mid));
    let (e, e2) = (value(c.times(x.minus(mid))), value(c.times(x2.minus(mid))));
    assert(p * t <= t * t) by (nonlinear_arith)
        requires
            p <= t,
            0 <= t,
    ;
    assert(within(p * (e * t - k * d), 67 * (t * t)));
    assert(within(p * (e2 * t - k * d2), 67 * (t * t)));
    let h = p * (d2 - d);
    let b = n + 10 * t;
    assert(within(k * h, (11 * b) * t)) by (nonlinear_arith)
        requires
            -11 * t <= k <= 11 * t,
            -b <= h <= b,
    ;
    assert(k * h == p * (k * d2) - p * (k * d)) by (nonlinear_arith)
        requires
            h == p * (d2 - d),
    ;
    assert((11 * b) * t == (11 * n) * t + 110 * (t * t)) by (nonlinear_arith)
        requires
            b == n + 10 * t,
    ;
    let g = e2 - e;
    assert(g * t == e2 * t - e * t) by (nonlinear_arith)
        requires
            g == e2 - e,
    ;
    lemma_same_factor(p, g, t);
    assert((11 * n + 300 * t) * t == (11 * n) * t + 300 * (t * t) && t * t > 0)
        by (nonlinear_arith)
        requires
            t > 0,
    ;
    lemma_within_cancel(p * g, 11 * n + 300 * t, t);
}

/// The position on the hot map moves with the share by little.
proof fn lemma_hot_positions_near(u: Binary32, u2: Binary32, b: int)
    requires
        u.is_finite(),
        u2.is_finite(),
        0 <= value(u) <= pow2(149),
        0 <= value(u2) <= pow2(149),
        within(0x100_0000 * (value(u2) - value(u)), b),
    ensures
        ({
            let (x, x2) = (hot_position(u), hot_position(u2));
            &&& x.is_finite()
            &&& x2.is_finite()
            &&& within(value(x), 4 * (pow2(149) as int))
            &&& within(value(x2), 4 * (pow2(149) as int))
            &&& within(0x100_0000 * (value(x2) - value(x)), b + 10 * (pow2(149) as int))
        }),
{
    let t = pow2(149) as int;
    let p: int = 0x100_0000;
    lemma_128();
    lemma_hot_constants();
    lemma_hot_position(u);
    lemma_hot_position(u2);
    let (x, x2) = (hot_position(u), hot_position(u2));
    let c = value(Binary32 { bits: FOUR_FIFTHS });
    let o = value(Binary32 { bits: ONE_FIFTH });
    let h = p * (value(u2) - value(u));
    assert(within(h * c, b * t)) by (nonlinear_arith)
        requires
            -b <= h <= b,
            0 <= c <= t,
    ;
    assert(h * c == p * (value(u2) * c) - p * (value(u) * c)) by (nonlinear_arith)
        requires
            h == p * (value(u2) - value(u)),
    ;
    let g = value(x2) - value(x);
    assert(g * t == (value(x2) - o) * t - (value(x) - o) * t) by (nonlinear_arith)
        requires
            g == value(x2) - value(x),
    ;
    lemma_same_factor(p, g, t);
    assert((b + 10 * t) * t == b * t + 10 * (t * t)) by (nonlinear_arith);
    lemma_within_cancel(p * g, b + 10 * t, t);
}

proof fn lemma_red_moves(x: Binary32, x2: Binary32, n: int)
    requires
        x.is_finite(),
        x2.is_finite(),
        within(value(x), 4 * (pow2(149) as int)),
        within(value(x2), 4 * (pow2(149) as int)),
        within(0x100_0000 * (value(x2) - value(x)), n),
    ensures
        exponent_moves(
            x,
            x2,
            Binary32 { bits: MINUS_SEVEN },
            Binary32 { bits: RED_MIDDLE },
            11 * n + 300 * (pow2(149) as int),
        ),
{
    lemma_hot_constants();
    lemma_exponent(x, x2, Binary32 { bits: MINUS_SEVEN }, Binary32 { bits: RED_MIDDLE }, n);
}

proof fn lemma_green_and_blue_move(x: Binary32, x2: Binary32, n: int)
    requires
        x.is_finite(),
        x2.is_finite(),
        within(value(x), 4 * (pow2(149) as int)),
        within(value(x2), 4 * (pow2(149) as int)),
        within(0x100_0000 * (value(x2) - value(x)), n),
    ensures
        ({
            let mid = Binary32 { bits: OTHER_MIDDLE };
            let bound = 11 * n + 300 * (pow2(149) as int);
            &&& exponent_moves(x, x2, Binary32 { bits: MINUS_TEN }, mid, bound)
            &&& exponent_moves(x, x2, Binary32 { bits: MINUS_ELEVEN }, mid, bound)
        }),
{
    lemma_hot_constants();
    let mid = Binary32 { bits: OTHER_MIDDLE };
    lemma_exponent(x, x2, Binary32 { bits: MINUS_TEN }, mid, n);
    lemma_exponent(x, x2, Binary32 { bits: MINUS_ELEVEN }, mid, n);
}

/// A factor that rounds moves what the hot map takes its exponentials of by
/// little: by `220 * k + 410` parts in `2^24`, where neither end of the Z range is
/// farther from zero than `k` times the range.
pub proof fn law_factor_moves_the_exponents_little(
    v: Binary32,
    lo: Binary32,
    hi: Binary32,
    z: Binary32,
    k: nat,
)
    requires
        z.is_finite(),
        Binary32::of_integer(0).below(z),
        1 <= k <= 4096,
        stays_near(v, lo, hi, z, k),
    ensures
        ({
            let a = hot_exponents(share(v, lo, hi));
            let b = hot_exponents(share(v.times(z), lo.times(z), hi.times(z)));
            let bound = 220 * (k * (pow2(149) as int)) + 410 * (pow2(149) as int);
            &&& within(0x100_0000 * (value(b.red) - value(a.red)), bound)
            &&& within(0x100_0000 * (value(b.green) - value(a.green)), bound)
            &&& within(0x100_0000 * (value(b.blue) - value(a.blue)), bound)
        }),
{
    let t = pow2(149) as int;
    let (u, u2) = (
        unit_clamp(share(v, lo, hi)),
        unit_clamp(share(v.times(z), lo.times(z), hi.times(z))),
    );
    let n = 20 * (k * t) + 10 * t;
    law_factor_moves_the_share_little(v, lo, hi, z, k);
    lemma_hot_positions_near(u, u2, 20 * (k * t));
    let (x, x2) = (hot_position(u), hot_position(u2));
    lemma_red_moves(x, x2, n);
    lemma_green_and_blue_move(x, x2, n);
}

// ---- the whole image ----

/// How many times its range an end of the Z range may be from zero for a map to
/// be left within a level.
pub open spec fn reach_of(cmap: Colormap) -> nat {
    match cmap {
        Colormap::Gray => 2048,
        _ => 512,
    }
}

/// Two colours no number of which differs by more than a level.
pub open spec fn within_a_level(a: Rgb, b: Rgb) -> bool {
    within(b.red - a.red, 1) && within(b.green - a.green, 1) && within(b.blue - a.blue, 1)
}

/// A factor that rounds moves the colour of a height by no more than a level.
proof fn lemma_color_near(
    v: Binary32,
    cmap: Colormap,
    lo: Binary32,
    hi: Binary32,
    z: Binary32,
    hot: HotExps,
)
    requires
        cmap is Gray || cmap is Viridis,
        z.is_finite(),
        Binary32::of_integer(0).below(z),
        stays_near(v, lo, hi, z, reach_of(cmap)),
    ensures
        within_a_level(
            color(cmap, share(v, lo, hi), hot),
            color(cmap, share(v.times(z), lo.times(z), hi.times(z)), hot),
        ),
{
    law_factor_moves_the_share_little(v, lo, hi, z, reach_of(cmap));
    let (u, u2) = (
        unit_clamp(share(v, lo, hi)),
        unit_clamp(share(v.times(z), lo.times(z), hi.times(z))),
    );
    if cmap is Gray {
        lemma_pow2_pos(149);
        lemma_levels_near(u, u2);
    } else {
        lemma_viridis_near(u, u2);
    }
    reveal(color);
}

/// A factor that rounds moves no level of the gray map and of viridis by more
/// than one, where neither end of the Z range is farther from zero than a certain
/// multiple of the range.
pub proof fn law_factor_moves_a_level_at_most(
    data: Seq<Binary32>,
    cmap: Colormap,
    lo: Binary32,
    hi: Binary32,
    z: Binary32,
    hot: Seq<HotExps>,
)
    requires
        cmap is Gray || cmap is Viridis,
        z.is_finite(),
        Binary32::of_integer(0).below(z),
        forall|i: int|
            0 <= i < data.len() ==> stays_near(#[trigger] data[i], lo, hi, z, reach_of(cmap)),
    ensures
        ({
            let scaled = Seq::new(data.len(), |i: int| data[i].times(z));
            let (a, b) = (
                rgba_bytes(data, cmap, lo, hi, hot),
                rgba_bytes(scaled, cmap, lo.times(z), hi.times(z), hot),
            );
            &&& a.len() == b.len()
            &&& forall|i: int| 0 <= i < a.len() ==> within(b[i] - #[trigger] a[i], 1)
        }),
    decreases data.len(),
{
    let scaled = Seq::new(data.len(), |i: int| data[i].times(z));
    if data.len() > 0 {
        let front = data.drop_last();
        assert forall|i: int| 0 <= i < front.len() implies stays_near(
            #[trigger] front[i],
            lo,
            hi,
            z,
            reach_of(cmap),
        ) by {
            assert(front[i] == data[i]);
        }
        law_factor_moves_a_level_at_most(front, cmap, lo, hi, z, hot);
        assert(scaled.drop_last() =~= Seq::new(front.len(), |i: int| front[i].times(z)));
        let v = data[data.len() - 1];
        assert(data.last() == v && scaled.last() == v.times(z));
        lemma_color_near(v, cmap, lo, hi, z, hot_at(hot, data.len() - 1));
    }
}

} // verus!
