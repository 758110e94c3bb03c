//! What a factor on the heights leaves of the look of an image.

use crate::binary::Binary32;
use crate::colormap::{color, hot_exponents, rgba_bytes, share, unit_clamp, Colormap, HotExps};
use crate::filter::epsilon;
use crate::float::{
    lemma_mag, mag_exp, mag_man, nearest, product, quotient, sum, units, Parts, Width,
};
use crate::order::{
    is_exact_difference, is_exact_product, law_one, law_product_keeps_order,
    law_quotient_keeps_order, law_representable_is_kept, law_rounding_keeps_order,
    law_rounding_scales, lemma_nearest_zero, lemma_one, lemma_short_is_exact, lemma_unit_zero,
    lemma_zero, value,
};
use crate::rolling::{
    greatest, law_extremes_hold_all, least, minus_infinity, plus_infinity, range_of,
};
use crate::rounding::lemma_pow2_mono;
use vstd::arithmetic::power2::{lemma2_to64, lemma_pow2_adds, lemma_pow2_pos, pow2};
use vstd::prelude::*;

verus! {

/// Whether nothing is rounded when a height and the Z range are scaled, nor in
/// their distances from the lower end; the range is not a degenerate one.
pub open spec fn scales_exactly(v: Binary32, lo: Binary32, hi: Binary32, z: Binary32) -> bool {
    &&& is_exact_product(v, z)
    &&& is_exact_product(lo, z)
    &&& is_exact_product(hi, z)
    &&& is_exact_difference(v, lo)
    &&& is_exact_difference(hi, lo)
    &&& is_exact_difference(v.times(z), lo.times(z))
    &&& is_exact_difference(hi.times(z), lo.times(z))
    &&& epsilon().at_most(hi.minus(lo))
    &&& epsilon().at_most(hi.times(z).minus(lo.times(z)))
}

/// A product with a positive number keeps the sign.
pub(crate) proof fn lemma_product_sign(a: Binary32, z: Binary32)
    requires
        a.is_finite(),
        z.is_finite(),
        Binary32::of_integer(0).below(z),
        a.times(z).is_finite(),
    ensures
        a.times(z).parts().neg == a.parts().neg,
{
    reveal(product);
    lemma_zero();
}

/// The sign of a difference: that of its value, or of a zero less a zero. Only
/// equal numbers have none.
proof fn lemma_difference_sign(a: Binary32, b: Binary32)
    requires
        a.is_finite(),
        b.is_finite(),
        a.minus(b).is_finite(),
    ensures
        a.minus(b).parts().neg == if value(a) == value(b) {
            a.parts().neg && !b.parts().neg
        } else {
            value(a) < value(b)
        },
        a.minus(b).parts().mag == 0 <==> value(a) == value(b),
{
    let w = Width::Single;
    reveal(sum);
    lemma_unit_zero(b.parts().mag as nat);
    assert(units(w, 1) == 1) by {
        lemma2_to64();
        assert(mag_exp(w, 1) == 0 && mag_man(w, 1) == 1);
        assert(1 * pow2(0) == 1) by (nonlinear_arith)
            requires
                pow2(0) == 1,
        ;
    }
    law_representable_is_kept(w, 1, 1);
    if value(a) < value(b) {
        law_rounding_keeps_order(w, 1, 1, (value(b) - value(a)) as nat, 1);
    } else if value(b) < value(a) {
        law_rounding_keeps_order(w, 1, 1, (value(a) - value(b)) as nat, 1);
    }
}

/// Equal ratios have equal quotients.
pub(crate) proof fn lemma_equal_ratios(a: Parts, b: Parts, c: Parts, d: Parts)
    requires
        a.mag < Width::Single.inf(),
        c.mag < Width::Single.inf(),
        0 < b.mag < Width::Single.inf(),
        0 < d.mag < Width::Single.inf(),
        a.neg == c.neg,
        !b.neg,
        !d.neg,
        a.mag == 0 <==> c.mag == 0,
        units(Width::Single, a.mag as nat) * units(Width::Single, d.mag as nat) == units(
            Width::Single,
            c.mag as nat,
        ) * units(Width::Single, b.mag as nat),
    ensures
        quotient(Width::Single, a, b) == quotient(Width::Single, c, d),
{
    reveal(quotient);
    let w = Width::Single;
    let (ua, ub) = (units(w, a.mag as nat), units(w, b.mag as nat));
    let (uc, ud) = (units(w, c.mag as nat), units(w, d.mag as nat));
    let t = pow2(149);
    lemma_unit_zero(b.mag as nat);
    lemma_unit_zero(d.mag as nat);
    assert((ua * t) * ud == (uc * t) * ub) by (nonlinear_arith)
        requires
            ua * ud == uc * ub,
    ;
    law_rounding_keeps_order(w, ua * t, ub, uc * t, ud);
    law_rounding_keeps_order(w, uc * t, ud, ua * t, ub);
}

/// Whether the rounded difference of two numbers scales as the numbers do.
spec fn difference_scales(a: Binary32, b: Binary32, z: Binary32) -> bool {
    &&& a.minus(b).is_finite()
    &&& a.times(z).minus(b.times(z)).is_finite()
    &&& value(a.times(z).minus(b.times(z))) * pow2(149) == value(a.minus(b)) * value(z)
}

/// Where the differences scale with a height, so does the Z range, and the share
/// stays.
proof fn lemma_share_is_kept(v: Binary32, lo: Binary32, hi: Binary32, z: Binary32)
    requires
        Binary32::of_integer(0).below(z),
        is_exact_product(v, z),
        is_exact_product(lo, z),
        is_exact_product(hi, z),
        difference_scales(v, lo, z),
        difference_scales(hi, lo, z),
        epsilon().at_most(hi.minus(lo)),
        epsilon().at_most(hi.times(z).minus(lo.times(z))),
    ensures
        share(v.times(z), lo.times(z), hi.times(z)) == share(v, lo, hi),
{
    let (v2, lo2, hi2) = (v.times(z), lo.times(z), hi.times(z));
    let (a, b) = (v.minus(lo), hi.minus(lo));
    let (a2, b2) = (v2.minus(lo2), hi2.minus(lo2));
    let t = pow2(149) as int;
    lemma_pow2_pos(149);
    lemma_zero();
    lemma_product_sign(v, z);
    lemma_product_sign(lo, z);
    lemma_difference_sign(v, lo);
    lemma_difference_sign(v2, lo2);
    assert(range_of(lo, hi) == b);
    assert(range_of(lo2, hi2) == b2);
    let (x, y, k) = (value(a), value(b), value(z));
    let (x2, y2) = (value(a2), value(b2));
    lemma_unit_zero(z.parts().mag as nat);
    assert(x2 * y == x * y2) by (nonlinear_arith)
        requires
            x2 * t == x * k,
            y2 * t == y * k,
            t > 0,
    ;
    let (p, q) = (value(v) - value(lo), value(v2) - value(lo2));
    assert((q < 0) == (p < 0) && (q == 0) == (p == 0)) by (nonlinear_arith)
        requires
            p == value(v) - value(lo),
            q == value(v2) - value(lo2),
            value(v2) * t == value(v) * k,
            value(lo2) * t == value(lo) * k,
            t > 0,
            k > 0,
    ;
    let w = Width::Single;
    let (ux, uy) = (units(w, a.parts().mag as nat) as int, units(w, b.parts().mag as nat) as int);
    let (ux2, uy2) = (
        units(w, a2.parts().mag as nat) as int,
        units(w, b2.parts().mag as nat) as int,
    );
    assert(ux2 * uy == ux * uy2) by (nonlinear_arith)
        requires
            x2 * y == x * y2,
            y == uy,
            y2 == uy2,
            (x == ux && x2 == ux2) || (x == -ux && x2 == -ux2),
    ;
    lemma_equal_ratios(a2.parts(), b2.parts(), a.parts(), b.parts());
}

/// Where a factor scales exactly, a height takes up the same share of the Z
/// range as before.
pub proof fn law_exact_factor_keeps_the_share(
    v: Binary32,
    lo: Binary32,
    hi: Binary32,
    z: Binary32,
)
    requires
        Binary32::of_integer(0).below(z),
        scales_exactly(v, lo, hi, z),
    ensures
        share(v.times(z), lo.times(z), hi.times(z)) == share(v, lo, hi),
{
    lemma_exact_difference_scales(v, lo, z);
    lemma_exact_difference_scales(hi, lo, z);
    lemma_share_is_kept(v, lo, hi, z);
}

proof fn lemma_exact_difference_scales(a: Binary32, b: Binary32, z: Binary32)
    requires
        is_exact_product(a, z),
        is_exact_product(b, z),
        is_exact_difference(a, b),
        is_exact_difference(a.times(z), b.times(z)),
    ensures
        difference_scales(a, b, z),
{
    let t = pow2(149) as int;
    let (x, y, k) = (value(a), value(b), value(z));
    assert((value(a.times(z)) - value(b.times(z))) * t == (x - y) * k) by (nonlinear_arith)
        requires
            value(a.times(z)) * t == x * k,
            value(b.times(z)) * t == y * k,
    ;
}

// ---- powers of two ----

/// Whether a number is a power of two.
pub open spec fn is_power_of_two(z: Binary32) -> bool {
    z.is_finite() && exists|e: nat| value(z) == #[trigger] pow2(e)
}

/// Whether scaling neither overflows nor underflows: the product is finite, and
/// unless it is zero it is at least the smallest normal number.
pub open spec fn scales_in_range(a: Binary32, z: Binary32) -> bool {
    &&& a.is_finite()
    &&& a.times(z).is_finite()
    &&& value(a) == 0 || value(a) * value(z) >= Width::Single.hidden() * pow2(149) || -(value(a)
        * value(z)) >= Width::Single.hidden() * pow2(149)
}

/// Whether neither a height nor the Z range is out of range, scaled or not; the Z
/// range is not a degenerate one. The height may be farther from the lower end
/// than any number.
pub open spec fn stays_in_range(v: Binary32, lo: Binary32, hi: Binary32, z: Binary32) -> bool {
    &&& scales_in_range(v, z)
    &&& scales_in_range(lo, z)
    &&& scales_in_range(hi, z)
    &&& hi.minus(lo).is_finite()
    &&& hi.times(z).minus(lo.times(z)).is_finite()
    &&& epsilon().at_most(hi.minus(lo))
    &&& epsilon().at_most(hi.times(z).minus(lo.times(z)))
}

/// Scaling by a power of two rounds nothing while it stays in range.
pub proof fn law_power_of_two_is_exact(a: Binary32, z: Binary32)
    requires
        is_power_of_two(z),
        scales_in_range(a, z),
    ensures
        Binary32::of_integer(0).below(z),
        is_exact_product(a, z),
{
    let w = Width::Single;
    let e = choose|e: nat| value(z) == #[trigger] pow2(e);
    let t = pow2(149);
    let (p, q) = (a.parts(), z.parts());
    let m = p.mag as nat;
    lemma_pow2_pos(e);
    lemma_pow2_pos(149);
    lemma_unit_zero(q.mag as nat);
    lemma_unit_zero(m);
    lemma_zero();
    reveal(product);
    if m == 0 {
        lemma_unit_zero(0);
        assert(0 * t == 0 * pow2(e)) by (nonlinear_arith);
    } else {
        lemma_mag(w, m);
        let (k, man) = (mag_exp(w, m), mag_man(w, m));
        let u = units(w, m);
        lemma_pow2_adds(k, e);
        let n = u * pow2(e);
        assert(n == man * pow2(k + e)) by (nonlinear_arith)
            requires
                n == (man * pow2(k)) * pow2(e),
                pow2(k + e) == pow2(k) * pow2(e),
        ;
        assert(n >= w.hidden() * t) by (nonlinear_arith)
            requires
                value(a) * pow2(e) >= w.hidden() * t || -(value(a) * pow2(e)) >= w.hidden() * t,
                value(a) == u || value(a) == -u,
                n == u * pow2(e),
        ;
        if k + e < 149 {
            lemma_pow2_adds((149 - (k + e)) as nat, k + e);
            let c = pow2((149 - (k + e)) as nat);
            lemma_pow2_mono(1, (149 - (k + e)) as nat);
            lemma2_to64();
            lemma_pow2_pos(k + e);
            assert(false) by (nonlinear_arith)
                requires
                    man * pow2(k + e) >= w.hidden() * (c * pow2(k + e)),
                    man < 2 * w.hidden(),
                    c >= 2,
                    pow2(k + e) > 0,
            ;
        }
        let b = (k + e - 149) as nat;
        lemma_pow2_adds(b, 149);
        let x = man * pow2(b);
        assert(n == x * t) by (nonlinear_arith)
            requires
                n == man * pow2(k + e),
                pow2(k + e) == pow2(b) * t,
                x == man * pow2(b),
        ;
        law_rounding_keeps_order(w, n, t, x, 1);
        law_rounding_keeps_order(w, x, 1, n, t);
        lemma_short_is_exact(w, man, b);
        assert((-x) * t == -(x * t) && (-u) * pow2(e) == -(u * pow2(e))) by (nonlinear_arith);
    }
}

/// Rounded differences scale by powers of two.
proof fn lemma_power_difference_scales(a: Binary32, b: Binary32, z: Binary32)
    requires
        is_power_of_two(z),
        is_exact_product(a, z),
        is_exact_product(b, z),
        a.minus(b).is_finite(),
        a.times(z).minus(b.times(z)).is_finite(),
    ensures
        difference_scales(a, b, z),
{
    let w = Width::Single;
    let e = choose|e: nat| value(z) == #[trigger] pow2(e);
    let k = pow2(e) as int;
    let t = pow2(149) as int;
    let (a2, b2) = (a.times(z), b.times(z));
    let d = value(a) - value(b);
    let d2 = value(a2) - value(b2);
    assert(d2 * t == d * k) by (nonlinear_arith)
        requires
            d == value(a) - value(b),
            d2 == value(a2) - value(b2),
            value(a2) * t == value(a) * k,
            value(b2) * t == value(b) * k,
    ;
    lemma_pow2_pos(e);
    lemma_pow2_pos(149);
    assert((d2 < 0) == (d < 0) && (d2 == 0) == (d == 0)) by (nonlinear_arith)
        requires
            d2 * t == d * k,
            t > 0,
            k > 0,
    ;
    let n = (if d < 0 { -d } else { d }) as nat;
    let n2 = (if d2 < 0 { -d2 } else { d2 }) as nat;
    assert(n2 * t == n * k) by (nonlinear_arith)
        requires
            d2 * t == d * k,
            (n == d && n2 == d2) || (n == -d && n2 == -d2),
    ;
    lemma_difference_units(a, b);
    lemma_difference_units(a2, b2);
    let (x, x2) = (units(w, nearest(w, n, 1) as nat), units(w, nearest(w, n2, 1) as nat));
    assert(x2 * t == x * k) by {
        if e >= 149 {
            let m = (e - 149) as nat;
            lemma_pow2_adds(m, 149);
            assert(n2 == n * pow2(m)) by (nonlinear_arith)
                requires
                    n2 * t == n * k,
                    k == pow2(m) * t,
                    t > 0,
            ;
            law_rounding_scales(w, n, m);
            assert(x2 * t == x * k) by (nonlinear_arith)
                requires
                    x2 == x * pow2(m),
                    k == pow2(m) * t,
            ;
        } else {
            let m = (149 - e) as nat;
            lemma_pow2_adds(m, e);
            assert(n == n2 * pow2(m)) by (nonlinear_arith)
                requires
                    n2 * t == n * k,
                    t == pow2(m) * k,
                    k > 0,
            ;
            law_rounding_scales(w, n2, m);
            assert(x2 * t == x * k) by (nonlinear_arith)
                requires
                    x == x2 * pow2(m),
                    t == pow2(m) * k,
            ;
        }
    }
    assert((-x2) * t == -(x2 * t) && (-x) * k == -(x * k)) by (nonlinear_arith);
}

/// A difference stands for the rounded distance.
pub(crate) proof fn lemma_difference_units(a: Binary32, b: Binary32)
    requires
        a.is_finite(),
        b.is_finite(),
        a.minus(b).is_finite(),
    ensures
        ({
            let d = value(a) - value(b);
            let n = (if d < 0 { -d } else { d }) as nat;
            let x = units(Width::Single, nearest(Width::Single, n, 1) as nat);
            &&& nearest(Width::Single, n, 1) < Width::Single.inf()
            &&& value(a.minus(b)) == if d < 0 { -x } else { x as int }
        }),
{
    reveal(sum);
    lemma_nearest_zero(Width::Single, 1);
    lemma_unit_zero(0);
}

/// What the colour maps take of a share that is beyond the Z range: its end.
pub(crate) proof fn lemma_beyond(a: Binary32, b: Binary32)
    requires
        b.is_finite(),
        Binary32::of_integer(0).below(b),
        b.at_most(a) || a.at_most(b.negate()),
    ensures
        b.at_most(a) ==> unit_clamp(a.over(b)) == Binary32::of_integer(1),
        a.at_most(b.negate()) ==> unit_clamp(a.over(b)) == Binary32::of_integer(0),
{
    lemma_zero();
    lemma_one();
    law_one(b, b);
    if b.at_most(a) {
        law_quotient_keeps_order(b, a, b);
        let t = a.over(b);
        if !Binary32::of_integer(1).below(t) {
            assert(t == Binary32::of_integer(1));
        }
    } else {
        law_quotient_keeps_order(a, b.negate(), b);
        reveal(quotient);
        assert(b.negate().over(b) == Binary32::of_integer(1).negate());
    }
}

/// A height that is farther from the lower end than any number is beyond the Z
/// range, scaled or not.
proof fn lemma_far_is_beyond(v: Binary32, lo: Binary32, hi: Binary32)
    requires
        v.is_finite(),
        lo.is_finite(),
        hi.is_finite(),
        hi.minus(lo).is_finite(),
        epsilon().at_most(hi.minus(lo)),
        value(v) - value(lo) >= value(hi) - value(lo) || value(lo) - value(v) >= value(hi) - value(
            lo,
        ),
    ensures
        value(hi) > value(lo),
        unit_clamp(share(v, lo, hi)) == (if value(v) > value(lo) {
            Binary32::of_integer(1)
        } else {
            Binary32::of_integer(0)
        }),
{
    let w = Width::Single;
    let (a, b) = (v.minus(lo), hi.minus(lo));
    lemma_zero();
    assert(range_of(lo, hi) == b);
    lemma_difference_sign(hi, lo);
    lemma_difference_units(hi, lo);
    let n = (value(hi) - value(lo)) as nat;
    let d = value(v) - value(lo);
    let m = (if d < 0 { -d } else { d }) as nat;
    law_rounding_keeps_order(w, n, 1, m, 1);
    reveal(sum);
    lemma_unit_zero(lo.parts().mag as nat);
    lemma_beyond(a, b);
}

/// A difference that is not finite is of numbers that are farther apart than any
/// two with a finite one.
proof fn lemma_not_finite(a: Binary32, b: Binary32, c: Binary32)
    requires
        a.is_finite(),
        b.is_finite(),
        c.is_finite(),
        !a.minus(b).is_finite(),
        c.minus(b).is_finite(),
    ensures
        value(a) - value(b) > value(c) - value(b) || value(b) - value(a) > value(c) - value(b),
{
    let w = Width::Single;
    lemma_difference_units(c, b);
    let (d, e) = (value(a) - value(b), value(c) - value(b));
    let n = (if d < 0 { -d } else { d }) as nat;
    reveal(sum);
    if n <= e {
        law_rounding_keeps_order(w, n, 1, e as nat, 1);
    }
}

/// A factor that is a power of two changes nothing of the share of the Z range
/// that the colour maps take, while it stays in range.
pub proof fn law_power_of_two_keeps_the_share(
    v: Binary32,
    lo: Binary32,
    hi: Binary32,
    z: Binary32,
)
    requires
        is_power_of_two(z),
        stays_in_range(v, lo, hi, z),
    ensures
        unit_clamp(share(v.times(z), lo.times(z), hi.times(z))) == unit_clamp(share(v, lo, hi)),
        v.minus(lo).is_finite() && v.times(z).minus(lo.times(z)).is_finite() ==> share(
            v.times(z),
            lo.times(z),
            hi.times(z),
        ) == share(v, lo, hi),
{
    law_power_of_two_is_exact(v, z);
    law_power_of_two_is_exact(lo, z);
    law_power_of_two_is_exact(hi, z);
    lemma_power_difference_scales(hi, lo, z);
    let (v2, lo2, hi2) = (v.times(z), lo.times(z), hi.times(z));
    if v.minus(lo).is_finite() && v2.minus(lo2).is_finite() {
        lemma_power_difference_scales(v, lo, z);
        lemma_share_is_kept(v, lo, hi, z);
    } else {
        if !v.minus(lo).is_finite() {
            lemma_not_finite(v, lo, hi);
        } else {
            lemma_not_finite(v2, lo2, hi2);
        }
        let (t, k) = (pow2(149) as int, value(z));
        lemma_pow2_pos(149);
        lemma_zero();
        lemma_unit_zero(z.parts().mag as nat);
        let (d, e) = (value(v) - value(lo), value(hi) - value(lo));
        let (d2, e2) = (value(v2) - value(lo2), value(hi2) - value(lo2));
        assert(d2 * t == d * k && e2 * t == e * k) by (nonlinear_arith)
            requires
                d == value(v) - value(lo),
                e == value(hi) - value(lo),
                d2 == value(v2) - value(lo2),
                e2 == value(hi2) - value(lo2),
                value(v2) * t == value(v) * k,
                value(lo2) * t == value(lo) * k,
                value(hi2) * t == value(hi) * k,
        ;
        assert((d > e) == (d2 > e2) && (-d > e) == (-d2 > e2) && (d > 0) == (d2 > 0))
            by (nonlinear_arith)
            requires
                d2 * t == d * k,
                e2 * t == e * k,
                t > 0,
                k > 0,
        ;
        lemma_far_is_beyond(v, lo, hi);
        lemma_far_is_beyond(v2, lo2, hi2);
    }
}

// ---- the whole image ----

/// Whether a factor leaves the look of some heights: the bytes of the image, and
/// what the hot map takes its exponentials of.
pub open spec fn looks_the_same(
    data: Seq<Binary32>,
    cmap: Colormap,
    lo: Binary32,
    hi: Binary32,
    z: Binary32,
    hot: Seq<HotExps>,
) -> bool {
    let scaled = Seq::new(data.len(), |i: int| data[i].times(z));
    let (lo2, hi2) = (lo.times(z), hi.times(z));
    &&& rgba_bytes(scaled, cmap, lo2, hi2, hot) == rgba_bytes(data, cmap, lo, hi, hot)
    &&& forall|i: int|
        0 <= i < data.len() ==> hot_exponents(share(#[trigger] scaled[i], lo2, hi2))
            == hot_exponents(share(data[i], lo, hi))
}

proof fn lemma_look(
    data: Seq<Binary32>,
    cmap: Colormap,
    lo: Binary32,
    hi: Binary32,
    z: Binary32,
    hot: Seq<HotExps>,
)
    requires
        forall|i: int|
            0 <= i < data.len() ==> unit_clamp(
                share((#[trigger] data[i]).times(z), lo.times(z), hi.times(z)),
            ) == unit_clamp(share(data[i], lo, hi)),
    ensures
        looks_the_same(data, cmap, lo, hi, z, hot),
    decreases data.len(),
{
    let scaled = Seq::new(data.len(), |i: int| data[i].times(z));
    if data.len() > 0 {
        let front = data.drop_last();
        assert forall|i: int| 0 <= i < front.len() implies unit_clamp(
            share((#[trigger] front[i]).times(z), lo.times(z), hi.times(z)),
        ) == unit_clamp(share(front[i], lo, hi)) by {
            assert(front[i] == data[i]);
        }
        lemma_look(front, cmap, lo, hi, z, hot);
        assert(scaled.drop_last() =~= Seq::new(front.len(), |i: int| front[i].times(z)));
        assert(data.last() == data[data.len() - 1]);
        reveal(color);
    }
}

/// Where a factor on the heights and on the Z range scales exactly, the image
/// looks as before, in every colour map.
pub proof fn law_exact_factor_keeps_the_look(
    data: Seq<Binary32>,
    cmap: Colormap,
    lo: Binary32,
    hi: Binary32,
    z: Binary32,
    hot: Seq<HotExps>,
)
    requires
        Binary32::of_integer(0).below(z),
        forall|i: int| 0 <= i < data.len() ==> scales_exactly(#[trigger] data[i], lo, hi, z),
    ensures
        looks_the_same(data, cmap, lo, hi, z, hot),
{
    assert forall|i: int| 0 <= i < data.len() implies unit_clamp(
        share((#[trigger] data[i]).times(z), lo.times(z), hi.times(z)),
    ) == unit_clamp(share(data[i], lo, hi)) by {
        law_exact_factor_keeps_the_share(data[i], lo, hi, z);
    }
    lemma_look(data, cmap, lo, hi, z, hot);
}

/// A factor that is a power of two leaves the look of the image, in every colour
/// map, while nothing is out of range.
pub proof fn law_power_of_two_keeps_the_look(
    data: Seq<Binary32>,
    cmap: Colormap,
    lo: Binary32,
    hi: Binary32,
    z: Binary32,
    hot: Seq<HotExps>,
)
    requires
        is_power_of_two(z),
        forall|i: int| 0 <= i < data.len() ==> stays_in_range(#[trigger] data[i], lo, hi, z),
    ensures
        looks_the_same(data, cmap, lo, hi, z, hot),
{
    assert forall|i: int| 0 <= i < data.len() implies unit_clamp(
        share((#[trigger] data[i]).times(z), lo.times(z), hi.times(z)),
    ) == unit_clamp(share(data[i], lo, hi)) by {
        law_power_of_two_keeps_the_share(data[i], lo, hi, z);
    }
    lemma_look(data, cmap, lo, hi, z, hot);
}

/// A factor scales the extremes of the heights as it scales the heights, so the
/// Z range that is drawn follows it.
pub proof fn law_extremes_follow_a_factor(s: Seq<Binary32>, z: Binary32, n: int)
    requires
        0 < n <= s.len(),
        forall|i: int| 0 <= i < n ==> (#[trigger] s[i]).is_finite(),
        Binary32::of_integer(0).below(z),
        z.is_finite(),
    ensures
        ({
            let scaled = Seq::new(s.len(), |i: int| s[i].times(z));
            &&& least(scaled, n).equals(least(s, n).times(z))
            &&& greatest(scaled, n).equals(greatest(s, n).times(z))
        }),
    decreases n,
{
    let scaled = Seq::new(s.len(), |i: int| s[i].times(z));
    let x = s[n - 1];
    assert(x.is_finite());
    assert(scaled[n - 1] == x.times(z));
    law_product_keeps_order(x, x, z);
    if n == 1 {
        assert(least(s, 0) == plus_infinity() && least(scaled, 0) == plus_infinity());
        assert(greatest(s, 0) == minus_infinity() && greatest(scaled, 0) == minus_infinity());
    } else {
        law_extremes_follow_a_factor(s, z, n - 1);
        law_extremes_hold_all(s, n - 1, 0);
        let (lo, hi) = (least(s, n - 1), greatest(s, n - 1));
        if x.below(lo) {
            law_product_keeps_order(x, lo, z);
        } else {
            law_product_keeps_order(lo, x, z);
        }
        if hi.below(x) {
            law_product_keeps_order(hi, x, z);
        } else {
            law_product_keeps_order(x, hi, z);
        }
    }
}

} // verus!
