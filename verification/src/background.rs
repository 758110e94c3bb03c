//! The background that a ball finds is a finite number and not below the lowest
//! height, so what is left of the heights is finite.

use crate::binary::Binary32;
use crate::float::{
    lemma_mag, mag_exp, mag_man, negated, of_int, product, signed_units, sum, to_int, units, Width,
};
use crate::grid::{lemma_place, lemma_row_and_column};
use crate::opening::{
    law_nothing_negative_is_left, law_opening_stays_below, lemma_at_most_trans, lemma_ball_has,
    lemma_ball_points, lemma_eroded, lemma_heights, lemma_range_positive, lemma_squares,
};
use crate::order::{
    law_conversion_keeps_order, law_difference_keeps_order, law_difference_with_itself,
    law_integer_is_exact, law_one, law_product_keeps_order, law_quotient_keeps_order,
    law_representable_is_kept, law_rounding_keeps_order, law_scaling_keeps_order,
    law_sum_keeps_order, lemma_doubled, lemma_integer_finite, lemma_one, lemma_root_bound,
    lemma_unit_zero, lemma_zero, lemma_zero_quotient, value,
};
use crate::rolling::{
    background, ball_height, between, block_len, blocks, brought_back, clamped, distance2,
    enlarged, enlarged_at, greatest, law_extremes_hold_all, least, least_in_block, least_run,
    lemma_blocks, lower, mixed, morphed, opened, plus_infinity, range_of, rolled, shrink_factor,
    shrunk, small_radius, spacing, spread, subtracted, under, upper, whole_ball,
};
use crate::surface::{lemma_commutes, lemma_negated, lemma_share};
use vstd::arithmetic::div_mod::{lemma_fundamental_div_mod, lemma_fundamental_div_mod_converse};
use vstd::arithmetic::power2::{lemma2_to64, lemma_pow2_adds, lemma_pow2_pos, pow2};
use vstd::prelude::*;

verus! {

/// Whether a number lies between 0 and `c`.
pub open spec fn is_upto(a: Binary32, c: int) -> bool {
    Binary32::of_integer(0).at_most(a) && a.at_most(Binary32::of_integer(c))
}

proof fn lemma_upto(a: Binary32, c: int)
    requires
        is_upto(a, c),
        0 <= c <= 0x1_0000_0000_0000_0000,
    ensures
        a.is_finite(),
        !a.is_nan(),
{
    lemma_zero();
    lemma_integer_finite(c);
}

/// A height takes its place between 0 and 100.
proof fn lemma_spread_upto(d: Binary32, lo: Binary32, hi: Binary32)
    requires
        d.is_finite(),
        lo.is_finite(),
        hi.is_finite(),
        lo.at_most(d),
        d.at_most(hi),
        range_of(lo, hi).is_finite(),
    ensures
        is_upto(d.minus(lo).over(range_of(lo, hi)).times(Binary32::of_integer(100)), 100),
        d.minus(lo).at_most(range_of(lo, hi)),
        Binary32::of_integer(0).at_most(d.minus(lo)),
{
    let range = range_of(lo, hi);
    let work = Binary32::of_integer(100);
    let (zero, one) = (Binary32::of_integer(0), Binary32::of_integer(1));
    lemma_zero();
    lemma_one();
    lemma_range_positive(lo, hi);
    lemma_integer_finite(100);
    law_difference_with_itself(lo);
    law_difference_keeps_order(lo, d, lo, lo);
    law_difference_keeps_order(d, hi, lo, lo);
    assert(hi.minus(lo).at_most(range));
    lemma_share(d.minus(lo), range);
    let s = d.minus(lo).over(range);
    law_scaling_keeps_order(s, one, work);
    law_one(one, work);
}

// ---- shrinking ----

proof fn lemma_run_upto(acc: Binary32, data: Seq<Binary32>, from: int, n: int)
    requires
        0 <= from,
        from + n <= data.len(),
        forall|i: int| from <= i < from + n ==> is_upto(#[trigger] data[i], 100),
        acc == plus_infinity() || is_upto(acc, 100),
    ensures
        ({
            let r = least_run(acc, data, from, n);
            is_upto(r, 100) || (r == plus_infinity() && acc == plus_infinity() && n <= 0)
        }),
    decreases n,
{
    lemma_zero();
    lemma_integer_finite(100);
    if n > 0 {
        lemma_run_upto(acc, data, from, n - 1);
        assert(is_upto(data[from + n - 1], 100));
        lemma_upto(data[from + n - 1], 100);
    }
}

proof fn lemma_block_upto(
    data: Seq<Binary32>,
    w: int,
    h: int,
    x: int,
    cols: int,
    y: int,
    rows: int,
)
    requires
        w * h <= data.len(),
        forall|i: int| 0 <= i < w * h ==> is_upto(#[trigger] data[i], 100),
        0 <= x,
        0 < cols,
        x + cols <= w,
        0 <= y,
        y + rows <= h,
    ensures
        ({
            let r = least_in_block(data, w, x, cols, y, rows);
            is_upto(r, 100) || (r == plus_infinity() && rows <= 0)
        }),
    decreases rows,
{
    if rows > 0 {
        lemma_block_upto(data, w, h, x, cols, y, rows - 1);
        lemma_place(w, h, y + rows - 1, x);
        lemma_place(w, h, y + rows - 1, x + cols - 1);
        lemma_run_upto(
            least_in_block(data, w, x, cols, y, rows - 1),
            data,
            (y + rows - 1) * w + x,
            cols,
        );
    }
}

proof fn lemma_shrunk_upto(data: Seq<Binary32>, w: int, h: int, k: int, o: int)
    requires
        w > 0,
        h > 0,
        k > 1,
        w * h <= data.len(),
        forall|i: int| 0 <= i < w * h ==> is_upto(#[trigger] data[i], 100),
        0 <= o < blocks(w, k) * blocks(h, k),
    ensures
        is_upto(shrunk(data, w, h, k)[o], 100),
{
    let sw = blocks(w, k);
    let sh = blocks(h, k);
    lemma_blocks(w, k);
    lemma_blocks(h, k);
    lemma_row_and_column(sw, sh, o);
    let (i, j) = (o % sw, o / sw);
    assert(0 < block_len(w, k, i));
    assert(0 < block_len(h, k, j));
    lemma_block_upto(data, w, h, i * k, block_len(w, k, i), j * k, block_len(h, k, j));
}

// ---- opening ----

/// An eroded surface is not below a bound that holds for every point of the ball.
proof fn lemma_eroded_above(
    g: Seq<Binary32>,
    w: int,
    h: int,
    b: Seq<(i32, i32, Binary32)>,
    x: int,
    y: int,
    n: int,
    c: Binary32,
)
    requires
        0 <= n <= b.len(),
        c.is_finite(),
        forall|m: int|
            0 <= m < n ==> c.at_most(#[trigger] under(g, w, h, x, y, b[m]).minus(b[m].2)),
    ensures
        c.at_most(rolled(g, w, h, b, false, x, y, n)),
    decreases n,
{
    if n > 0 {
        lemma_eroded_above(g, w, h, b, x, y, n - 1, c);
        assert(c.at_most(under(g, w, h, x, y, b[n - 1]).minus(b[n - 1].2)));
    } else {
        assert(rolled(g, w, h, b, false, x, y, 0) == plus_infinity());
    }
}

/// A dilated surface is not below any point of the ball.
proof fn lemma_dilated_above(
    g: Seq<Binary32>,
    w: int,
    h: int,
    b: Seq<(i32, i32, Binary32)>,
    x: int,
    y: int,
    n: int,
    i: int,
)
    requires
        0 <= i < n <= b.len(),
        forall|m: int|
            0 <= m < n ==> !(#[trigger] under(g, w, h, x, y, b[m]).plus(b[m].2)).is_nan(),
    ensures
        under(g, w, h, x, y, b[i]).plus(b[i].2).at_most(rolled(g, w, h, b, true, x, y, n)),
    decreases n,
{
    let last = under(g, w, h, x, y, b[n - 1]).plus(b[n - 1].2);
    assert(!last.is_nan());
    assert(!rolled(g, w, h, b, true, x, y, n - 1).is_nan()) by {
        if n > 1 {
            lemma_dilated_above(g, w, h, b, x, y, n - 1, 0);
        }
    }
    if i < n - 1 {
        lemma_dilated_above(g, w, h, b, x, y, n - 1, i);
    }
}

/// The heights of a ball.
proof fn lemma_ball_heights(r: int, i: int)
    requires
        0 <= r <= 32767,
        0 <= i < whole_ball(r).len(),
    ensures
        ({
            let p = whole_ball(r)[i];
            &&& p.2.is_finite()
            &&& p.2.at_most(ball_height(r, 0, 0))
            &&& is_upto(p.2, 0x1_0000)
            &&& ball_height(r, 0, 0).is_finite()
        }),
{
    let p = whole_ball(r)[i];
    lemma_ball_points(r, (2 * r + 1) * (2 * r + 1), i);
    let (di, dj) = (p.0 as int, p.1 as int);
    assert(0int * 0 <= di * di && 0int * 0 <= dj * dj) by (nonlinear_arith);
    lemma_heights(r, di, dj, 0, 0);
    lemma_squares(r, di, dj);
    let r2 = Binary32::of_integer(r * r);
    let d2 = distance2(di, dj);
    let zero = Binary32::of_integer(0);
    lemma_integer_finite(r * r);
    lemma_integer_finite(di * di + dj * dj);
    lemma_integer_finite(0);
    law_conversion_keeps_order(r * r, 0x8000_0000);
    law_difference_with_itself(d2);
    law_difference_with_itself(r2);
    law_difference_keeps_order(d2, r2, d2, d2);
    law_difference_keeps_order(r2, r2, d2, zero);
    lemma_zero();
    lemma_root_bound(r2.minus(d2));
}

/// An opened surface of heights between 0 and 100 is not negative.
proof fn lemma_opened_above(g: Seq<Binary32>, w: int, h: int, r: int, k: int)
    requires
        w > 0,
        h > 0,
        w * h <= g.len(),
        0 <= r <= 32767,
        forall|i: int| 0 <= i < w * h ==> is_upto(#[trigger] g[i], 100),
        0 <= k < w * h,
    ensures
        Binary32::of_integer(0).at_most(opened(g, w, h, r)[k]),
{
    let b = whole_ball(r);
    let n = b.len() as int;
    let side = 2 * r + 1;
    let eroded = morphed(g, w, h, b, false);
    let (x, y) = (k % w, k / w);
    let zero = Binary32::of_integer(0);
    lemma_zero();
    lemma_row_and_column(w, h, k);
    assert(w * h >= 0);
    assert forall|i: int| 0 <= i < w * h implies !(#[trigger] g[i]).is_nan() by {
        lemma_upto(g[i], 100);
    }
    lemma_squares(r, 0, 0);
    lemma_integer_finite(r * r);
    lemma_place(side, side, r, r);
    let c = lemma_ball_has(r, side * side, 0, 0);
    let top = b[c].2;
    lemma_ball_heights(r, c);
    // the eroded surface is not below minus the height of the ball
    assert forall|m: int| 0 <= m < n implies zero.minus(top).at_most(
        #[trigger] under(g, w, h, x, y, b[m]).minus(b[m].2),
    ) by {
        lemma_ball_heights(r, m);
        let p = b[m];
        lemma_place(w, h, clamped(y + p.1, h), clamped(x + p.0, w));
        law_difference_keeps_order(zero, under(g, w, h, x, y, p), top, p.2);
    }
    law_difference_with_itself(top);
    assert(zero.minus(top).is_finite() && zero.minus(top).plus(top) == zero) by {
        lemma_minus_plus(top);
    }
    lemma_eroded_above(g, w, h, b, x, y, n, zero.minus(top));
    assert(eroded[k] == rolled(g, w, h, b, false, x, y, n));
    assert(under(eroded, w, h, x, y, b[c]) == eroded[k]);
    assert forall|m: int| 0 <= m < n implies !(#[trigger] under(eroded, w, h, x, y, b[m]).plus(
        b[m].2,
    )).is_nan() by {
        let p = b[m];
        lemma_ball_heights(r, m);
        let (qx, qy) = (clamped(x + p.0, w), clamped(y + p.1, h));
        lemma_place(w, h, qy, qx);
        lemma_eroded(g, w, h, r, qx, qy, c);
        let v = under(eroded, w, h, x, y, p);
        assert(v == rolled(g, w, h, b, false, qx, qy, n));
        law_sum_keeps_order(v, v, p.2, p.2);
    }
    lemma_dilated_above(eroded, w, h, b, x, y, n, c);
    law_sum_keeps_order(zero.minus(top), eroded[k], top, top);
    assert(opened(g, w, h, r)[k] == rolled(eroded, w, h, b, true, x, y, n));
    lemma_at_most_trans(zero, eroded[k].plus(top), opened(g, w, h, r)[k]);
}

proof fn lemma_minus_plus(a: Binary32)
    requires
        a.is_finite(),
        Binary32::of_integer(0).at_most(a),
    ensures
        Binary32::of_integer(0).minus(a).is_finite(),
        Binary32::of_integer(0).minus(a).plus(a) == Binary32::of_integer(0),
        Binary32::of_integer(0).minus(a).equals(a.negate()),
{
    let w = Width::Single;
    let m = a.parts().mag as nat;
    lemma_zero();
    reveal(sum);
    lemma_unit_zero(0);
    lemma_unit_zero(m);
    law_representable_is_kept(w, m, 1);
    assert(units(w, m) * 1 == units(w, m));
    law_difference_with_itself(a);
}

/// An opened surface of heights between 0 and 100 stays in range.
proof fn lemma_opened_upto(g: Seq<Binary32>, w: int, h: int, r: int, k: int)
    requires
        w > 0,
        h > 0,
        w * h <= g.len(),
        0 <= r <= 32767,
        forall|i: int| 0 <= i < w * h ==> is_upto(#[trigger] g[i], 100),
        0 <= k < w * h,
    ensures
        is_upto(opened(g, w, h, r)[k], 0x2_0000),
{
    let b = whole_ball(r);
    let zero = Binary32::of_integer(0);
    lemma_opened_above(g, w, h, r, k);
    assert forall|i: int| 0 <= i < w * h implies !(#[trigger] g[i]).is_nan() by {
        lemma_upto(g[i], 100);
    }
    law_opening_stays_below(g, w, h, r, k);
    let i = choose|i: int|
        0 <= i < b.len() && opened(g, w, h, r)[k].at_most(
            g[k].minus((#[trigger] b[i]).2).plus(b[i].2),
        );
    let p = b[i].2;
    let c = Binary32::of_integer(0x1_0000);
    lemma_ball_heights(r, i);
    lemma_upto(g[k], 100);
    lemma_zero();
    lemma_integer_finite(100);
    lemma_integer_finite(0x1_0000);
    law_conversion_keeps_order(100, 0x1_0000);
    law_difference_with_itself(g[k]);
    law_difference_keeps_order(g[k], g[k], p, zero);
    law_sum_keeps_order(g[k].minus(p), c, p, c);
    lemma_doubled(0x1_0000);
}

// ---- enlarging ----

/// Mixing two numbers that are in range, or one with itself, stays in range.
proof fn lemma_mixed_upto(a: Binary32, b: Binary32, t: Binary32, c: int)
    requires
        0 < c < 0x40_0000,
        is_upto(a, c),
        is_upto(b, c),
        t.is_finite(),
        a == b || is_upto(t, 1),
    ensures
        is_upto(mixed(a, b, t), 2 * c),
{
    let (zero, one) = (Binary32::of_integer(0), Binary32::of_integer(1));
    let top = Binary32::of_integer(c);
    let d = b.minus(a);
    lemma_zero();
    lemma_one();
    lemma_upto(a, c);
    lemma_upto(b, c);
    lemma_integer_finite(c);
    lemma_doubled(c);
    lemma_doubled(0);
    if a == b {
        law_difference_with_itself(a);
        lemma_zero_product(t);
        let x = d.times(t);
        law_sum_keeps_order(zero, a, zero, x);
        law_sum_keeps_order(a, top, x, top);
    } else {
        lemma_minus_plus(a);
        law_difference_with_itself(top);
        law_difference_keeps_order(zero, b, a, a);
        law_difference_keeps_order(b, top, a, zero);
        assert(d.is_finite());
        let x = d.times(t);
        law_one(one, d);
        if zero.at_most(d) {
            lemma_commutes(d, t);
            law_scaling_keeps_order(t, one, d);
            law_scaling_keeps_order(zero, t, d);
            lemma_one_times(d);
            law_sum_keeps_order(zero, a, zero, x);
            law_sum_keeps_order(a, top, x, top);
        } else {
            let e = d.negate();
            assert(e.is_finite() && zero.at_most(e));
            lemma_commutes(e, t);
            law_scaling_keeps_order(t, one, e);
            law_scaling_keeps_order(zero, t, e);
            lemma_one_times(e);
            lemma_negated(e, t);
            assert(e.negate() == d);
            // -a <= d <= x <= 0
            assert(d.at_most(x) && x.at_most(zero) && x.is_finite());
            let m = a.negate();
            assert(m.at_most(x) && m.is_finite());
            assert(a.plus(m) == a.minus(a));
            law_difference_with_itself(a);
            law_sum_keeps_order(a, a, m, x);
            law_sum_keeps_order(a, top, x, top);
        }
    }
}

proof fn lemma_one_times(a: Binary32)
    requires
        a.is_finite(),
    ensures
        Binary32::of_integer(1).times(a) == a,
{
    let one = Binary32::of_integer(1);
    lemma_zero();
    lemma_one();
    law_one(one, a);
}

proof fn lemma_zero_product(t: Binary32)
    requires
        t.is_finite(),
    ensures
        Binary32::of_integer(0).times(t).equals(Binary32::of_integer(0)),
        Binary32::of_integer(0).times(t).is_finite(),
{
    reveal(product);
    lemma_zero();
}

/// What a whole number takes off a number that is not negative: less than one.
proof fn lemma_fractional(g: Binary32)
    requires
        g.is_finite(),
        Binary32::of_integer(0).at_most(g),
    ensures
        ({
            let f = value(g) / pow2(149) as int;
            0 <= f && is_upto(g.minus(Binary32::of_integer(f)), 1)
        }),
{
    let w = Width::Single;
    let t = pow2(149) as int;
    let m = g.parts().mag as nat;
    let u = units(w, m) as int;
    let f = value(g) / t;
    lemma_zero();
    lemma_one();
    lemma_pow2_pos(149);
    lemma_unit_zero(0);
    lemma_unit_zero(m);
    assert(value(g) == u);
    lemma_fundamental_div_mod(u, t);
    assert(f >= 0) by (nonlinear_arith)
        requires
            u == t * f + u % t,
            0 <= u % t < t,
            u >= 0,
    ;
    assert(f * t == t * f) by (nonlinear_arith);
    if f < 0x100_0000 {
        law_integer_is_exact(f);
        let d = (u - f * t) as nat;
        law_representable_is_kept(w, 0x3f80_0000, 1);
        assert(units(w, 0x3f80_0000) * 1 == t);
        law_rounding_keeps_order(w, d, 1, t as nat, 1);
        reveal(sum);
        let x = Binary32::of_integer(f);
        assert(signed_units(w, negated(x.parts())) == -(f * t));
    } else {
        // so large a number is whole
        lemma_mag(w, m);
        let (k, a) = (mag_exp(w, m), mag_man(w, m) as int);
        lemma2_to64();
        assert(k > 149) by {
            if k <= 149 {
                lemma_pow2_adds((149 - k) as nat, k);
                lemma_pow2_pos((149 - k) as nat);
                lemma_pow2_pos(k);
                let c = pow2((149 - k) as nat) as int;
                assert(false) by (nonlinear_arith)
                    requires
                        a * pow2(k) >= f * (c * pow2(k)),
                        a < 0x100_0000,
                        f >= 0x100_0000,
                        c >= 1,
                        pow2(k) > 0,
                ;
            }
        }
        let e = (k - 149) as nat;
        lemma_pow2_adds(e, 149);
        let q = a * pow2(e);
        assert(u == q * t + 0) by (nonlinear_arith)
            requires
                u == a * pow2(k),
                pow2(k) == pow2(e) * t,
                q == a * pow2(e),
        ;
        lemma_fundamental_div_mod_converse(u, t, q, 0);
        assert(f * t == u);
        law_representable_is_kept(w, m, 1);
        assert(units(w, m) * 1 == units(w, m));
        reveal(of_int);
        assert(Binary32::of_integer(f) == g);
        law_difference_with_itself(g);
    }
}

/// Where a sample of the enlarged axis lies: between two samples, or on the last.
proof fn lemma_between(i: int, n: int, len: int)
    requires
        0 < n <= len <= usize::MAX,
        0 <= i < len,
    ensures
        ({
            let step = spacing(n, len);
            let t = between(i, step, n);
            &&& t.is_finite()
            &&& lower(i, step, n) == upper(i, step, n) || is_upto(t, 1)
            &&& 0 <= lower(i, step, n) < n
            &&& 0 <= upper(i, step, n) < n
        }),
{
    let step = spacing(n, len);
    let (zero, one) = (Binary32::of_integer(0), Binary32::of_integer(1));
    let at = Binary32::of_integer(i);
    let g = at.times(step);
    lemma_zero();
    lemma_one();
    lemma_integer_finite(i);
    lemma_integer_finite(n - 1);
    lemma_integer_finite(len - 1);
    assert(is_upto(step, 1)) by {
        if len > 1 {
            law_conversion_keeps_order(n - 1, len - 1);
            lemma_share(Binary32::of_integer(n - 1), Binary32::of_integer(len - 1));
        }
    }
    lemma_upto(step, 1);
    lemma_commutes(at, step);
    law_scaling_keeps_order(step, one, at);
    law_scaling_keeps_order(zero, step, at);
    lemma_one_times(at);
    lemma_zero_product(at);
    assert(zero.at_most(g) && g.is_finite());
    let t = between(i, step, n);
    let low = lower(i, step, n);
    lemma_integer_finite(low);
    let x = Binary32::of_integer(low);
    // the difference is finite
    lemma_minus_plus(x);
    law_difference_with_itself(g);
    law_difference_keeps_order(zero, g, x, x);
    law_difference_keeps_order(g, g, x, zero);
    assert(t.is_finite());
    if low + 1 < n {
        lemma_fractional(g);
        reveal(to_int);
        lemma_unit_zero(g.parts().mag as nat);
        assert(low == value(g) / pow2(149) as int);
    }
}

/// An enlarged grid stays in range.
proof fn lemma_enlarged_upto(
    small: Seq<Binary32>,
    sw: int,
    sh: int,
    w: int,
    h: int,
    k: int,
)
    requires
        0 < sw <= w <= usize::MAX,
        0 < sh <= h <= usize::MAX,
        sw * sh <= small.len(),
        forall|i: int| 0 <= i < sw * sh ==> is_upto(#[trigger] small[i], 0x2_0000),
        0 <= k < w * h,
    ensures
        is_upto(enlarged(small, sw, sh, w, h)[k], 0x8_0000),
{
    if sw == w && sh == h {
        assert(is_upto(small[k], 0x2_0000));
        lemma_upto(small[k], 0x2_0000);
        law_conversion_keeps_order(0x2_0000, 0x8_0000);
    } else {
        lemma_row_and_column(w, h, k);
        let (x, y) = (k % w, k / w);
        let (sx, sy) = (spacing(sw, w), spacing(sh, h));
        lemma_between(x, sw, w);
        lemma_between(y, sh, h);
        let (x0, x1, tx) = (lower(x, sx, sw), upper(x, sx, sw), between(x, sx, sw));
        let (y0, y1, ty) = (lower(y, sy, sh), upper(y, sy, sh), between(y, sy, sh));
        lemma_place(sw, sh, y0, x0);
        lemma_place(sw, sh, y0, x1);
        lemma_place(sw, sh, y1, x0);
        lemma_place(sw, sh, y1, x1);
        let (a, b) = (small[y0 * sw + x0], small[y0 * sw + x1]);
        let (c, d) = (small[y1 * sw + x0], small[y1 * sw + x1]);
        lemma_mixed_upto(a, b, tx, 0x2_0000);
        lemma_mixed_upto(c, d, tx, 0x2_0000);
        lemma_mixed_upto(mixed(a, b, tx), mixed(c, d, tx), ty, 0x4_0000);
        assert(enlarged(small, sw, sh, w, h)[k] == enlarged_at(small, sw, sh, sx, sy, x, y));
    }
}

// ---- the background ----

/// The background of heights between 0 and 100 is a finite number that is not
/// negative.
proof fn lemma_background_upto(norm: Seq<Binary32>, w: int, h: int, radius: int, k: int)
    requires
        0 < w <= usize::MAX,
        0 < h <= usize::MAX,
        w * h <= norm.len(),
        radius > 0,
        small_radius(radius) <= 32767,
        forall|i: int| 0 <= i < w * h ==> is_upto(#[trigger] norm[i], 100),
        0 <= k < w * h,
    ensures
        is_upto(background(norm, w, h, radius)[k], 0x8_0000),
{
    let f = shrink_factor(radius);
    let r = small_radius(radius);
    if f > 1 {
        let (sw, sh) = (blocks(w, f), blocks(h, f));
        lemma_blocks(w, f);
        lemma_blocks(h, f);
        assert(sw > 0) by (nonlinear_arith)
            requires
                w <= sw * f,
                w > 0,
                f > 0,
        ;
        assert(sh > 0) by (nonlinear_arith)
            requires
                h <= sh * f,
                h > 0,
                f > 0,
        ;
        let small = shrunk(norm, w, h, f);
        assert(sw * sh >= 0) by (nonlinear_arith)
            requires
                sw > 0,
                sh > 0,
        ;
        assert forall|o: int| 0 <= o < sw * sh implies is_upto(#[trigger] small[o], 100) by {
            lemma_shrunk_upto(norm, w, h, f, o);
        }
        let open = opened(small, sw, sh, r);
        assert forall|o: int| 0 <= o < sw * sh implies is_upto(#[trigger] open[o], 0x2_0000) by {
            lemma_opened_upto(small, sw, sh, r, o);
        }
        lemma_enlarged_upto(open, sw, sh, w, h, k);
    } else {
        let open = opened(norm, w, h, r);
        assert(w * h >= 0);
        assert forall|o: int| 0 <= o < w * h implies is_upto(#[trigger] open[o], 0x2_0000) by {
            lemma_opened_upto(norm, w, h, r, o);
        }
        lemma_enlarged_upto(open, w, h, w, h, k);
    }
}

/// Of finite heights with a finite range, what is left is finite and not
/// negative, whatever the radius of the ball; it is at most the range.
pub proof fn law_what_is_left_is_finite(data: Seq<Binary32>, w: int, h: int, radius: int, k: int)
    requires
        0 < w <= usize::MAX,
        0 < h <= usize::MAX,
        w * h <= data.len(),
        radius > 0,
        small_radius(radius) <= 32767,
        forall|i: int| 0 <= i < data.len() ==> (#[trigger] data[i]).is_finite(),
        range_of(
            least(data, data.len() as int),
            greatest(data, data.len() as int),
        ).is_finite(),
        0 <= k < w * h,
    ensures
        ({
            let r = subtracted(data, w, h, radius)[k];
            &&& Binary32::of_integer(0).at_most(r)
            &&& r.is_finite()
            &&& r.at_most(
                range_of(least(data, data.len() as int), greatest(data, data.len() as int)),
            )
        }),
{
    let n = data.len() as int;
    let (lo, hi) = (least(data, n), greatest(data, n));
    let range = range_of(lo, hi);
    let z = spread(data, lo, range);
    let v = data[k];
    let (zero, work) = (Binary32::of_integer(0), Binary32::of_integer(100));
    lemma_extremes_finite(data);
    assert forall|i: int| 0 <= i < w * h implies is_upto(#[trigger] z[i], 100) by {
        law_extremes_hold_all(data, n, i);
        assert(data[i].is_finite());
        lemma_spread_upto(data[i], lo, hi);
    }
    lemma_background_upto(z, w, h, radius, k);
    let bg = background(z, w, h, radius)[k];
    lemma_upto(bg, 0x8_0000);
    lemma_zero();
    lemma_range_positive(lo, hi);
    lemma_integer_finite(100);
    // the background comes back at or above the least height
    law_quotient_keeps_order(zero, bg, work);
    lemma_zero_quotient(work);
    law_product_keeps_order(zero, bg.over(work), range);
    lemma_zero_product(range);
    let up = bg.over(work).times(range);
    lemma_at_most_trans(zero, zero.times(range), up);
    law_sum_keeps_order(zero, up, lo, lo);
    let back = brought_back(bg, lo, range);
    lemma_zero_sum(lo);
    lemma_at_most_trans(lo, zero.plus(lo), back);
    law_extremes_hold_all(data, n, k);
    assert(v.is_finite());
    let x = back.min(v);
    assert(lo.at_most(x) && x.at_most(v) && x.is_finite());
    lemma_spread_upto(v, lo, hi);
    law_difference_keeps_order(v, v, x, lo);
    lemma_at_most_trans(v.minus(x), v.minus(lo), range);
    law_nothing_negative_is_left(data, w, h, radius);
    assert(subtracted(data, w, h, radius)[k] == v.minus(x));
}

proof fn lemma_zero_sum(a: Binary32)
    requires
        a.is_finite(),
    ensures
        Binary32::of_integer(0).plus(a).equals(a),
{
    let w = Width::Single;
    let m = a.parts().mag as nat;
    lemma_zero();
    reveal(sum);
    lemma_unit_zero(0);
    lemma_unit_zero(m);
    law_representable_is_kept(w, m, 1);
    assert(units(w, m) * 1 == units(w, m));
}

proof fn lemma_extremes_finite(s: Seq<Binary32>)
    requires
        s.len() > 0,
        forall|i: int| 0 <= i < s.len() ==> (#[trigger] s[i]).is_finite(),
    ensures
        least(s, s.len() as int).is_finite(),
        greatest(s, s.len() as int).is_finite(),
{
    let n = s.len() as int;
    law_extremes_hold_all(s, n, 0);
    let j = choose|j: int| 0 <= j < n && least(s, n) == #[trigger] s[j];
    assert(s[j].is_finite());
    let j = choose|j: int| 0 <= j < n && greatest(s, n) == #[trigger] s[j];
    assert(s[j].is_finite());
}

} // verus!
