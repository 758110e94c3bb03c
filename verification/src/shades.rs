//! Which shade a height is drawn in.

use crate::binary::Binary32;
use crate::colormap::{
    blend, color, law_four_bytes_each, level, rgba_bytes, share, stop_before, unit_clamp,
    viridis_stop, Colormap, HotExps,
};
use crate::filter::epsilon;
use crate::float::{mag_exp, mag_man, Width};
use crate::nearness::{
    are_neighbours, ideal, lemma_blend, lemma_inside, lemma_level, lemma_outside, lemma_position,
    lemma_stops, within,
};
use crate::order::value;
use crate::reals::{law_compare, num, size};
use vstd::arithmetic::div_mod::lemma_fundamental_div_mod;
use vstd::arithmetic::power2::{
    lemma2_to64, lemma2_to64_rest, lemma_pow2_adds, lemma_pow2_pos, pow2,
};
use vstd::prelude::*;

verus! {

/// The share of a range that a number takes up: 0 at its lower end and below, 1 at
/// its upper end and above.
pub open spec fn true_share(v: real, lo: real, hi: real) -> real {
    if v <= lo {
        0 as real
    } else if v >= hi {
        1 as real
    } else {
        (v - lo) / (hi - lo)
    }
}

/// The share that a colour map takes of a height is the share of the Z range that
/// the height takes up, but for rounding.
pub proof fn law_share_is_that_of_the_range(v: Binary32, lo: Binary32, hi: Binary32)
    requires
        v.is_finite(),
        lo.is_finite(),
        hi.is_finite(),
        hi.minus(lo).is_finite(),
        epsilon().at_most(hi.minus(lo)),
    ensures
        unit_clamp(share(v, lo, hi)).is_finite(),
        0 as real <= num(unit_clamp(share(v, lo, hi))) <= 1 as real,
        0 <= value(unit_clamp(share(v, lo, hi))) <= pow2(149),
        size(num(unit_clamp(share(v, lo, hi))) - true_share(num(v), num(lo), num(hi))) <= 6 as real
            / 0x100_0000 as real,
{
    let u = unit_clamp(share(v, lo, hi));
    let t = pow2(149) as int;
    lemma_pow2_pos(149);
    law_compare(v, lo);
    law_compare(hi, v);
    law_compare(lo, v);
    law_compare(v, hi);
    lemma_outside(v, lo, hi);
    let tr = t as real;
    assert(0 as real / tr == 0 as real && tr / tr == 1 as real) by (nonlinear_arith)
        requires
            tr > 0 as real,
    ;
    if !v.at_most(lo) && !hi.at_most(v) {
        lemma_inside(v, lo, hi);
        let (d, r) = (value(v) - value(lo), value(hi) - value(lo));
        let s = value(u);
        // `s / t` is near `d / r`
        let (sr, dr, rr) = (s as real, d as real, r as real);
        let p = 0x100_0000 as real;
        assert((0x100_0000 * (s * r - d * t)) as real == p * (sr * rr - dr * tr)) by {
            assert((s * r) as real == sr * rr) by (nonlinear_arith)
                requires
                    sr == s as real,
                    rr == r as real,
            ;
            assert((d * t) as real == dr * tr) by (nonlinear_arith)
                requires
                    dr == d as real,
                    tr == t as real,
            ;
        }
        assert((6 * (r * t)) as real == 6 as real * (rr * tr)) by {
            assert((r * t) as real == rr * tr) by (nonlinear_arith)
                requires
                    rr == r as real,
                    tr == t as real,
            ;
        }
        let (a, b) = (sr / tr, dr / rr);
        assert(a * tr == sr && b * rr == dr) by (nonlinear_arith)
            requires
                a == sr / tr,
                b == dr / rr,
                tr > 0 as real,
                rr > 0 as real,
        ;
        assert(size(a - b) <= 6 as real / p) by {
            let k = rr * tr;
            assert(k > 0 as real) by (nonlinear_arith)
                requires
                    k == rr * tr,
                    rr > 0 as real,
                    tr > 0 as real,
            ;
            assert(sr * rr - dr * tr == (a - b) * k) by (nonlinear_arith)
                requires
                    a * tr == sr,
                    b * rr == dr,
                    k == rr * tr,
            ;
            let e = a - b;
            assert(size(e) <= 6 as real / p) by (nonlinear_arith)
                requires
                    -(6 as real * k) <= p * (e * k),
                    p * (e * k) <= 6 as real * k,
                    k > 0 as real,
                    p > 0 as real,
            ;
        }
        let (x, l, h) = (num(v), num(lo), num(hi));
        let (xv, lv, hv) = (value(v) as real, value(lo) as real, value(hi) as real);
        assert(x - l == dr / tr && h - l == rr / tr) by (nonlinear_arith)
            requires
                x == xv / tr,
                l == lv / tr,
                h == hv / tr,
                dr == xv - lv,
                rr == hv - lv,
                tr > 0 as real,
        ;
        assert((dr / tr) / (rr / tr) == dr / rr) by (nonlinear_arith)
            requires
                tr > 0 as real,
                rr > 0 as real,
        ;
        assert(0 as real <= sr / tr && sr / tr <= 1 as real) by (nonlinear_arith)
            requires
                0 as real <= sr,
                sr <= tr,
                tr > 0 as real,
        ;
    }
}

/// What is whole of 255 times a share is near it.
pub(crate) proof fn lemma_level_near(a: Binary32)
    requires
        a.is_finite(),
        0 <= value(a) <= pow2(149),
    ensures
        level(a) as real <= 255 as real * num(a) + 1 as real / 0x1_0000 as real,
        level(a) as real > 255 as real * num(a) - 1 as real - 1 as real / 0x1_0000 as real,
{
    let t = pow2(149) as int;
    lemma_pow2_pos(149);
    lemma_level(a);
    let x = value(a.times(Binary32::of_integer(255)));
    let n = x / t;
    lemma_fundamental_div_mod(x, t);
    let (nr, xr, tr, u) = (n as real, x as real, t as real, value(a) as real);
    assert((t * n) as real == tr * nr) by (nonlinear_arith)
        requires
            tr == t as real,
            nr == n as real,
    ;
    let y = num(a);
    assert(y * tr == u && y <= 1 as real) by (nonlinear_arith)
        requires
            y == u / tr,
            tr > 0 as real,
            u <= tr,
    ;
    let p = 0x100_0000 as real;
    assert((2 * (0x100_0000 * (x - 255 * value(a)))) as real == 2 as real * (p * (xr - 255 as real
        * u)));
    assert((511 * t) as real == 511 as real * tr);
    assert(nr <= 255 as real * y + 1 as real / 0x1_0000 as real) by (nonlinear_arith)
        requires
            tr * nr <= xr,
            2 as real * (p * (xr - 255 as real * u)) <= 511 as real * tr,
            y * tr == u,
            tr > 0 as real,
            p == 0x100_0000 as real,
    ;
    assert(nr > 255 as real * y - 1 as real - 1 as real / 0x1_0000 as real) by (nonlinear_arith)
        requires
            tr * nr > xr - tr,
            2 as real * (p * (xr - 255 as real * u)) >= -(511 as real * tr),
            y * tr == u,
            tr > 0 as real,
            p == 0x100_0000 as real,
    ;
}

/// Whether a byte is a number from 0 to 1 on the scale from 0 to 255, without its
/// fraction, but for rounding.
pub open spec fn is_byte_of(b: u8, x: real) -> bool {
    &&& b as real <= 255 as real * x + 1 as real / 0x40 as real
    &&& b as real > 255 as real * x - 1 as real - 1 as real / 0x40 as real
}

/// The gray map shows a height by the share of the Z range that it takes up: black
/// at its lower end and below, white at its upper end and above, and evenly
/// between; red, green and blue alike, and opaque.
pub proof fn law_gray_shows_the_share(
    data: Seq<Binary32>,
    lo: Binary32,
    hi: Binary32,
    hot: Seq<HotExps>,
    i: int,
)
    requires
        0 <= i < data.len(),
        data[i].is_finite(),
        lo.is_finite(),
        hi.is_finite(),
        hi.minus(lo).is_finite(),
        epsilon().at_most(hi.minus(lo)),
    ensures
        ({
            let b = rgba_bytes(data, Colormap::Gray, lo, hi, hot);
            let s = true_share(num(data[i]), num(lo), num(hi));
            &&& b.len() == 4 * data.len()
            &&& is_byte_of(b[4 * i], s)
            &&& is_byte_of(b[4 * i + 1], s)
            &&& is_byte_of(b[4 * i + 2], s)
            &&& b[4 * i + 3] == 255
        }),
{
    law_four_bytes_each(data, Colormap::Gray, lo, hi, hot, i);
    law_share_is_that_of_the_range(data[i], lo, hi);
    lemma_level_near(unit_clamp(share(data[i], lo, hi)));
    reveal(color);
}

// ---- viridis ----

/// The stops of viridis in thousandths, for red, green and blue.
pub open spec fn stop_in_thousandths(c: int, i: int) -> int {
    if c == 0 {
        seq![267int, 283, 254, 207, 164, 128, 285, 993][i]
    } else if c == 1 {
        seq![4int, 141, 265, 372, 471, 566, 706, 906][i]
    } else {
        seq![329int, 458, 530, 553, 558, 551, 429, 144][i]
    }
}

/// A number of thousandths, as a single-precision number.
proof fn lemma_thousandths(bits: u32, k: int, e: nat, man: nat)
    requires
        bits < 0x4000_0000,
        mag_exp(Width::Single, bits as nat) == e,
        mag_man(Width::Single, bits as nat) == man,
        100 <= e <= 149,
        within(
            0x1_0000 * (1000 * man - k * pow2((149 - e) as nat)),
            1000 * (pow2((149 - e) as nat) as int),
        ),
    ensures
        size(num(Binary32 { bits }) - k as real / 1000 as real) <= 1 as real / 0x1_0000 as real,
{
    let w = Width::Single;
    let a = Binary32 { bits };
    let (x, q) = (pow2((149 - e) as nat) as int, pow2(e) as int);
    let t = pow2(149) as int;
    lemma_pow2_adds((149 - e) as nat, e);
    lemma_pow2_pos(e);
    lemma_pow2_pos(149);
    lemma_pow2_pos((149 - e) as nat);
    assert(a.parts().mag == bits && !a.parts().neg);
    assert(value(a) == man * q);
    let (m, xr, qr, kr) = (man as real, x as real, q as real, k as real);
    assert((man * q) as real == m * qr) by (nonlinear_arith)
        requires
            m == man as real,
            qr == q as real,
    ;
    assert(t as real == xr * qr) by (nonlinear_arith)
        requires
            t == x * q,
            xr == x as real,
            qr == q as real,
    ;
    let y = num(a);
    assert(y == m / xr) by (nonlinear_arith)
        requires
            y == (m * qr) / (xr * qr),
            qr > 0 as real,
            xr > 0 as real,
    ;
    assert((k * x) as real == kr * xr) by (nonlinear_arith)
        requires
            kr == k as real,
            xr == x as real,
    ;
    let p = 0x1_0000 as real;
    assert((0x1_0000 * (1000 * man - k * x)) as real == p * (1000 as real * m - kr * xr));
    assert(size(y - kr / 1000 as real) <= 1 as real / p) by (nonlinear_arith)
        requires
            y == m / xr,
            xr > 0 as real,
            p == 0x1_0000 as real,
            -(1000 as real * xr) <= p * (1000 as real * m - kr * xr),
            p * (1000 as real * m - kr * xr) <= 1000 as real * xr,
    ;
}

/// The stops are those of the table.
proof fn lemma_table(i: int)
    requires
        0 <= i <= 7,
    ensures
        ({
            let s = viridis_stop(i as usize);
            let near = 1 as real / 0x1_0000 as real;
            &&& size(num(s.0) - stop_in_thousandths(0, i) as real / 1000 as real) <= near
            &&& size(num(s.1) - stop_in_thousandths(1, i) as real / 1000 as real) <= near
            &&& size(num(s.2) - stop_in_thousandths(2, i) as real / 1000 as real) <= near
        }),
{
    lemma2_to64();
    lemma2_to64_rest();
    if i == 0 {
        lemma_thousandths(0x3e88_b439, 267, 124, 0x88_b439);
        lemma_thousandths(0x3b83_126f, 4, 118, 0x83_126f);
        lemma_thousandths(0x3ea8_72b0, 329, 124, 0xa8_72b0);
    } else if i == 1 {
        lemma_thousandths(0x3e90_e560, 283, 124, 0x90_e560);
        lemma_thousandths(0x3e10_624e, 141, 123, 0x90_624e);
        lemma_thousandths(0x3eea_7efa, 458, 124, 0xea_7efa);
    } else if i == 2 {
        lemma_thousandths(0x3e82_0c4a, 254, 124, 0x82_0c4a);
        lemma_thousandths(0x3e87_ae14, 265, 124, 0x87_ae14);
        lemma_thousandths(0x3f07_ae14, 530, 125, 0x87_ae14);
    } else if i == 3 {
        lemma_thousandths(0x3e53_f7cf, 207, 123, 0xd3_f7cf);
        lemma_thousandths(0x3ebe_76c9, 372, 124, 0xbe_76c9);
        lemma_thousandths(0x3f0d_9168, 553, 125, 0x8d_9168);
    } else if i == 4 {
        lemma_thousandths(0x3e27_ef9e, 164, 123, 0xa7_ef9e);
        lemma_thousandths(0x3ef1_26e9, 471, 124, 0xf1_26e9);
        lemma_thousandths(0x3f0e_d917, 558, 125, 0x8e_d917);
    } else if i == 5 {
        lemma_thousandths(0x3e03_126f, 128, 123, 0x83_126f);
        lemma_thousandths(0x3f10_e560, 566, 125, 0x90_e560);
        lemma_thousandths(0x3f0d_0e56, 551, 125, 0x8d_0e56);
    } else if i == 6 {
        lemma_thousandths(0x3e91_eb85, 285, 124, 0x91_eb85);
        lemma_thousandths(0x3f34_bc6a, 706, 125, 0xb4_bc6a);
        lemma_thousandths(0x3edb_a5e3, 429, 124, 0xdb_a5e3);
    } else {
        lemma_thousandths(0x3f7e_353f, 993, 125, 0xfe_353f);
        lemma_thousandths(0x3f67_ef9e, 906, 125, 0xe7_ef9e);
        lemma_thousandths(0x3e13_74bc, 144, 123, 0x93_74bc);
    }
}

/// Where channel `c` of viridis stands at `x`, on the way from stop `i` to the next:
/// in a straight line between the two.
pub open spec fn between_stops(c: int, i: int, x: real) -> real {
    let (a, b) = (
        stop_in_thousandths(c, i) as real / 1000 as real,
        stop_in_thousandths(c, i + 1) as real / 1000 as real,
    );
    a + (x - i as real) * (b - a)
}

/// Whether a byte is that of channel `c` of viridis, for a share of the Z range: the
/// stops lie evenly from 0 to 1, and colours in a straight line between them.
pub open spec fn is_viridis(b: u8, c: int, s: real) -> bool {
    exists|i: int, x: real|
        0 <= i <= 6 && i as real <= x <= (i + 1) as real && size(x - 7 as real * s) <= 1 as real
            / 0x1_0000 as real && is_byte_of(b, #[trigger] between_stops(c, i, x))
}

/// One channel of viridis.
proof fn lemma_channel(u: Binary32, a: Binary32, b: Binary32, c: int, s: real)
    requires
        u.is_finite(),
        0 <= value(u) <= pow2(149),
        size(num(u) - s) <= 6 as real / 0x100_0000 as real,
        0 <= c <= 2,
        ({
            let i = stop_before(u.times(Binary32::of_integer(7)));
            let near = 1 as real / 0x1_0000 as real;
            &&& are_neighbours(a, b)
            &&& size(num(a) - stop_in_thousandths(c, i) as real / 1000 as real) <= near
            &&& size(num(b) - stop_in_thousandths(c, i + 1) as real / 1000 as real) <= near
        }),
    ensures
        ({
            let x = u.times(Binary32::of_integer(7));
            let i = stop_before(x);
            is_viridis(
                level(blend(a, b, x.minus(Binary32::of_integer(i)))),
                c,
                s,
            )
        }),
{
    let t = pow2(149) as int;
    lemma_pow2_pos(149);
    lemma_position(u);
    let x = u.times(Binary32::of_integer(7));
    let i = stop_before(x);
    lemma_blend(a, b, x, i);
    let f = x.minus(Binary32::of_integer(i));
    let r = blend(a, b, f);
    lemma_level_near(r);
    // the position
    let (xr, tr, p) = (value(x) as real, t as real, 0x100_0000 as real);
    let (xn, un) = (num(x), num(u));
    assert(xn * tr == xr && un * tr == value(u) as real) by (nonlinear_arith)
        requires
            xn == xr / tr,
            un == value(u) as real / tr,
            tr > 0 as real,
    ;
    assert((0x100_0000 * (value(x) - 7 * value(u))) as real == p * (xr - 7 as real
        * value(u) as real));
    assert(size(xn - 7 as real * un) <= 8 as real / p) by (nonlinear_arith)
        requires
            -(8 as real * tr) <= p * (xr - 7 as real * (un * tr)),
            p * (xr - 7 as real * (un * tr)) <= 8 as real * tr,
            xn * tr == xr,
            tr > 0 as real,
            p > 0 as real,
    ;
    let ir = i as real;
    assert((i * t) as real == ir * tr && ((i + 1) * t) as real == (ir + 1 as real) * tr)
        by (nonlinear_arith)
        requires
            ir == i as real,
            tr == t as real,
    ;
    assert(ir <= xn && xn <= ir + 1 as real) by (nonlinear_arith)
        requires
            ir * tr <= xr,
            xr <= (ir + 1 as real) * tr,
            xn * tr == xr,
            tr > 0 as real,
    ;
    // the blend
    let (av, bv, rv) = (value(a) as real, value(b) as real, value(r) as real);
    let (an, bn, rn) = (num(a), num(b), num(r));
    let d = value(x) - i * t;
    let id = ideal(value(a), value(b), i, value(x), t);
    let dr = d as real;
    assert(an * tr == av && bn * tr == bv && rn * tr == rv) by (nonlinear_arith)
        requires
            an == av / tr,
            bn == bv / tr,
            rn == rv / tr,
            tr > 0 as real,
    ;
    assert(id as real == av * tr + dr * (bv - av)) by {
        let g = value(b) - value(a);
        assert((d * g) as real == dr * (g as real)) by (nonlinear_arith)
            requires
                dr == d as real,
        ;
        assert((value(a) * t) as real == av * tr) by (nonlinear_arith)
            requires
                av == value(a) as real,
                tr == t as real,
        ;
    }
    assert(dr == (xn - ir) * tr) by (nonlinear_arith)
        requires
            dr == xr - ir * tr,
            xn * tr == xr,
    ;
    let h = an + (xn - ir) * (bn - an);
    assert(id as real == h * (tr * tr)) by (nonlinear_arith)
        requires
            id as real == av * tr + dr * (bv - av),
            dr == (xn - ir) * tr,
            an * tr == av,
            bn * tr == bv,
            h == an + (xn - ir) * (bn - an),
    ;
    assert((value(r) * t) as real == rn * (tr * tr)) by (nonlinear_arith)
        requires
            rn * tr == value(r) as real,
            tr == t as real,
    ;
    let tt = tr * tr;
    assert(tt > 0 as real && (t * t) as real == tt) by (nonlinear_arith)
        requires
            tt == tr * tr,
            tr == t as real,
            tr > 0 as real,
    ;
    let e = value(r) * t - id;
    assert((0x100_0000 * e) as real == p * ((rn - h) * tt)) by {
        assert(e as real == rn * tt - h * tt);
        assert(rn * tt - h * tt == (rn - h) * tt) by (nonlinear_arith);
    }
    assert(size(rn - h) <= 7 as real / p) by (nonlinear_arith)
        requires
            -(7 as real * tt) <= p * ((rn - h) * tt),
            p * ((rn - h) * tt) <= 7 as real * tt,
            tt > 0 as real,
            p > 0 as real,
    ;
    // the table
    let (ka, kb) = (
        stop_in_thousandths(c, i) as real / 1000 as real,
        stop_in_thousandths(c, i + 1) as real / 1000 as real,
    );
    let w = xn - ir;
    let q = between_stops(c, i, xn);
    assert(h - q == (1 as real - w) * (an - ka) + w * (bn - kb)) by (nonlinear_arith)
        requires
            h == an + w * (bn - an),
            q == ka + w * (kb - ka),
    ;
    let near = 1 as real / 0x1_0000 as real;
    assert(size((1 as real - w) * (an - ka)) <= near && size(w * (bn - kb)) <= near)
        by (nonlinear_arith)
        requires
            0 as real <= w <= 1 as real,
            size(an - ka) <= near,
            size(bn - kb) <= near,
            near > 0 as real,
    ;
    assert(size(rn - q) <= 3 as real * near);
    assert(is_byte_of(level(r), q));
    assert(size(xn - 7 as real * s) <= near);
}

/// The viridis map shows a height by the share of the Z range that it takes up.
pub proof fn law_viridis_shows_the_share(
    data: Seq<Binary32>,
    lo: Binary32,
    hi: Binary32,
    hot: Seq<HotExps>,
    k: int,
)
    requires
        0 <= k < data.len(),
        data[k].is_finite(),
        lo.is_finite(),
        hi.is_finite(),
        hi.minus(lo).is_finite(),
        epsilon().at_most(hi.minus(lo)),
    ensures
        ({
            let b = rgba_bytes(data, Colormap::Viridis, lo, hi, hot);
            let s = true_share(num(data[k]), num(lo), num(hi));
            &&& b.len() == 4 * data.len()
            &&& is_viridis(b[4 * k], 0, s)
            &&& is_viridis(b[4 * k + 1], 1, s)
            &&& is_viridis(b[4 * k + 2], 2, s)
            &&& b[4 * k + 3] == 255
        }),
{
    law_four_bytes_each(data, Colormap::Viridis, lo, hi, hot, k);
    law_share_is_that_of_the_range(data[k], lo, hi);
    let u = unit_clamp(share(data[k], lo, hi));
    let s = true_share(num(data[k]), num(lo), num(hi));
    lemma_position(u);
    let i = stop_before(u.times(Binary32::of_integer(7)));
    lemma_stops(i);
    lemma_table(i);
    lemma_table(i + 1);
    let (a, b) = (viridis_stop(i as usize), viridis_stop((i + 1) as usize));
    lemma_channel(u, a.0, b.0, 0, s);
    lemma_channel(u, a.1, b.1, 1, s);
    lemma_channel(u, a.2, b.2, 2, s);
    reveal(color);
}

} // verus!
