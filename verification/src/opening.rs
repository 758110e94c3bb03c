//! A ball rolled underneath a surface stays underneath it.

use crate::binary::Binary32;
use crate::float::sum;
use crate::grid::{lemma_place, lemma_row_and_column};
use crate::order::{
    law_conversion_keeps_order, law_difference_keeps_order, law_difference_with_itself,
    law_product_keeps_order, law_quotient_keeps_order, law_root_keeps_order, law_sum_keeps_order,
    lemma_integer_finite, lemma_zero,
};
use crate::rolling::{
    background, ball, ball_height, brought_back, clamped, distance2, greatest, in_ball, least,
    minus_infinity, morphed, opened, plus_infinity, range_of, rolled, small_radius, spread,
    subtracted, under, whole_ball,
};
use vstd::prelude::*;

verus! {

pub(crate) proof fn lemma_squares(r: int, di: int, dj: int)
    requires
        0 <= r <= 32767,
        -r <= di <= r,
        -r <= dj <= r,
    ensures
        0 <= di * di + dj * dj <= 0x8000_0000,
        0 <= r * r <= 0x8000_0000,
{
    assert(0 <= di * di <= 32767 * 32767) by (nonlinear_arith)
        requires
            -32767 <= di <= 32767,
    ;
    assert(0 <= dj * dj <= 32767 * 32767) by (nonlinear_arith)
        requires
            -32767 <= dj <= 32767,
    ;
    assert(0 <= r * r <= 32767 * 32767) by (nonlinear_arith)
        requires
            0 <= r <= 32767,
    ;
}

/// What lies in a ball: offsets no longer than its radius, each with its height.
pub(crate) proof fn lemma_ball_points(r: int, n: int, i: int)
    requires
        0 <= r <= 32767,
        0 <= n <= (2 * r + 1) * (2 * r + 1),
        0 <= i < ball(r, n).len(),
    ensures
        ({
            let p = ball(r, n)[i];
            &&& -r <= p.0 <= r
            &&& -r <= p.1 <= r
            &&& in_ball(r, p.0 as int, p.1 as int)
            &&& p.2 == ball_height(r, p.0 as int, p.1 as int)
        }),
    decreases n,
{
    let side = 2 * r + 1;
    let di = (n - 1) % side - r;
    let dj = (n - 1) / side - r;
    lemma_row_and_column(side, side, n - 1);
    if i < ball(r, n - 1).len() {
        lemma_ball_points(r, n - 1, i);
    }
}

/// Every offset within the radius lies in the ball.
pub(crate) proof fn lemma_ball_has(r: int, n: int, di: int, dj: int) -> (i: int)
    requires
        0 <= r <= 32767,
        n <= (2 * r + 1) * (2 * r + 1),
        -r <= di <= r,
        -r <= dj <= r,
        in_ball(r, di, dj),
        (dj + r) * (2 * r + 1) + (di + r) < n,
    ensures
        0 <= i < ball(r, n).len(),
        ball(r, n)[i] == (di as i32, dj as i32, ball_height(r, di, dj)),
    decreases n,
{
    let side = 2 * r + 1;
    let m = (dj + r) * side + (di + r);
    lemma_place(side, side, dj + r, di + r);
    if m == n - 1 {
        ball(r, n - 1).len() as int
    } else {
        lemma_ball_has(r, n - 1, di, dj)
    }
}

/// The height of the ball is finite, and no less nearer to its centre.
pub(crate) proof fn lemma_heights(r: int, di: int, dj: int, ei: int, ej: int)
    requires
        0 <= r <= 32767,
        -r <= di <= r,
        -r <= dj <= r,
        in_ball(r, di, dj),
        -r <= ei <= r,
        -r <= ej <= r,
        ei * ei <= di * di,
        ej * ej <= dj * dj,
    ensures
        in_ball(r, ei, ej),
        ball_height(r, di, dj).at_most(ball_height(r, ei, ej)),
        ball_height(r, di, dj).is_finite(),
        ball_height(r, ei, ej).is_finite(),
{
    lemma_squares(r, di, dj);
    lemma_squares(r, ei, ej);
    let r2 = Binary32::of_integer(r * r);
    let (d2, e2) = (distance2(di, dj), distance2(ei, ej));
    let zero = Binary32::of_integer(0);
    lemma_integer_finite(r * r);
    lemma_integer_finite(di * di + dj * dj);
    lemma_integer_finite(ei * ei + ej * ej);
    law_conversion_keeps_order(ei * ei + ej * ej, di * di + dj * dj);
    // 0 <= r2 - d2 <= r2 - e2 <= r2
    law_difference_with_itself(d2);
    law_difference_with_itself(r2);
    lemma_integer_finite(0);
    law_difference_keeps_order(d2, r2, d2, d2);
    law_difference_keeps_order(r2, r2, d2, e2);
    law_difference_keeps_order(r2, r2, e2, zero);
    lemma_zero();
    law_root_keeps_order(r2.minus(d2), r2.minus(e2));
    law_root_keeps_order(r2.minus(d2), r2.minus(d2));
}

/// An eroded surface lies below every point that the ball was held against.
proof fn lemma_eroded_below(
    g: Seq<Binary32>,
    w: int,
    h: int,
    b: Seq<(i32, i32, Binary32)>,
    x: int,
    y: int,
    n: int,
    i: int,
)
    requires
        0 <= i < n <= b.len(),
        forall|m: int|
            0 <= m < n ==> !(#[trigger] under(g, w, h, x, y, b[m]).minus(b[m].2)).is_nan(),
    ensures
        rolled(g, w, h, b, false, x, y, n).at_most(under(g, w, h, x, y, b[i]).minus(b[i].2)),
    decreases n,
{
    let last = under(g, w, h, x, y, b[n - 1]).minus(b[n - 1].2);
    assert(!last.is_nan());
    assert(!rolled(g, w, h, b, false, x, y, n - 1).is_nan()) by {
        if n > 1 {
            lemma_eroded_below(g, w, h, b, x, y, n - 1, 0);
        }
    }
    if i < n - 1 {
        lemma_eroded_below(g, w, h, b, x, y, n - 1, i);
    }
}

/// A dilated surface is held up by one of the points of the ball.
proof fn lemma_dilated_by_one(
    g: Seq<Binary32>,
    w: int,
    h: int,
    b: Seq<(i32, i32, Binary32)>,
    x: int,
    y: int,
    n: int,
) -> (i: int)
    requires
        0 < n <= b.len(),
        forall|m: int|
            0 <= m < n ==> !(#[trigger] under(g, w, h, x, y, b[m]).plus(b[m].2)).is_nan(),
    ensures
        0 <= i < n,
        rolled(g, w, h, b, true, x, y, n).at_most(under(g, w, h, x, y, b[i]).plus(b[i].2)),
    decreases n,
{
    let last = under(g, w, h, x, y, b[n - 1]).plus(b[n - 1].2);
    assert(!last.is_nan());
    if n == 1 {
        assert(rolled(g, w, h, b, true, x, y, 0) == minus_infinity());
        0
    } else {
        let before = rolled(g, w, h, b, true, x, y, n - 1);
        let i = lemma_dilated_by_one(g, w, h, b, x, y, n - 1);
        if before.below(last) {
            n - 1
        } else {
            i
        }
    }
}

/// An eroded surface is a number everywhere, and lies below what the ball
/// leaves of a point within its reach.
pub(crate) proof fn lemma_eroded(g: Seq<Binary32>, w: int, h: int, r: int, x: int, y: int, i: int)
    requires
        w > 0,
        h > 0,
        w * h <= g.len(),
        0 <= r <= 32767,
        0 <= x < w,
        0 <= y < h,
        forall|k: int| 0 <= k < w * h ==> !(#[trigger] g[k]).is_nan(),
        0 <= i < whole_ball(r).len(),
    ensures
        ({
            let b = whole_ball(r);
            rolled(g, w, h, b, false, x, y, b.len() as int).at_most(
                under(g, w, h, x, y, b[i]).minus(b[i].2),
            )
        }),
{
    let b = whole_ball(r);
    assert forall|m: int| 0 <= m < b.len() implies !(#[trigger] under(g, w, h, x, y, b[m]).minus(
        b[m].2,
    )).is_nan() by {
        lemma_ball_points(r, (2 * r + 1) * (2 * r + 1), m);
        let p = b[m];
        lemma_heights(r, p.0 as int, p.1 as int, p.0 as int, p.1 as int);
        lemma_place(w, h, clamped(y + p.1, h), clamped(x + p.0, w));
        let v = under(g, w, h, x, y, p);
        law_difference_keeps_order(v, v, p.2, p.2);
    }
    lemma_eroded_below(g, w, h, b, x, y, b.len() as int, i);
}

/// Opening a surface with a ball leaves it no higher anywhere than that height
/// comes out when it is lowered by some height of the ball and raised again.
pub proof fn law_opening_stays_below(g: Seq<Binary32>, w: int, h: int, r: int, k: int)
    requires
        w > 0,
        h > 0,
        w * h <= g.len(),
        0 <= r <= 32767,
        forall|k: int| 0 <= k < w * h ==> !(#[trigger] g[k]).is_nan(),
        0 <= k < w * h,
    ensures
        exists|i: int|
            0 <= i < whole_ball(r).len() && opened(g, w, h, r)[k].at_most(
                g[k].minus((#[trigger] whole_ball(r)[i]).2).plus(whole_ball(r)[i].2),
            ),
{
    let b = whole_ball(r);
    let n = b.len() as int;
    let side = 2 * r + 1;
    let eroded = morphed(g, w, h, b, false);
    let (x, y) = (k % w, k / w);
    lemma_row_and_column(w, h, k);
    assert(w * h >= 0);
    // the centre of the ball
    assert(n > 0) by {
        lemma_squares(r, 0, 0);
        lemma_integer_finite(r * r);
        lemma_place(side, side, r, r);
        let i = lemma_ball_has(r, side * side, 0, 0);
    }
    assert forall|m: int| 0 <= m < n implies {
        let v = #[trigger] under(eroded, w, h, x, y, b[m]).plus(b[m].2);
        !v.is_nan() && exists|i: int|
            0 <= i < n && v.at_most(g[k].minus((#[trigger] b[i]).2).plus(b[i].2))
    } by {
        let p = b[m];
        lemma_ball_points(r, side * side, m);
        let (qx, qy) = (clamped(x + p.0, w), clamped(y + p.1, h));
        lemma_place(w, h, qy, qx);
        let q = qy * w + qx;
        // the point itself, as the ball centred on q meets it
        let (ei, ej) = (x - qx, y - qy);
        assert(-r <= ei <= r && -r <= ej <= r);
        let (di, dj) = (p.0 as int, p.1 as int);
        assert(ei * ei <= di * di) by (nonlinear_arith)
            requires
                -ei == di || (di <= -ei <= 0) || (0 <= -ei <= di),
        ;
        assert(ej * ej <= dj * dj) by (nonlinear_arith)
            requires
                -ej == dj || (dj <= -ej <= 0) || (0 <= -ej <= dj),
        ;
        lemma_heights(r, di, dj, ei, ej);
        lemma_place(side, side, ej + r, ei + r);
        let i = lemma_ball_has(r, side * side, ei, ej);
        let low = b[i].2;
        assert(under(g, w, h, qx, qy, b[i]) == g[k]);
        lemma_eroded(g, w, h, r, qx, qy, i);
        assert(eroded[q] == rolled(g, w, h, b, false, qx, qy, n));
        assert(under(eroded, w, h, x, y, p) == eroded[q]);
        law_sum_keeps_order(eroded[q], g[k].minus(low), p.2, low);
    }
    let m = lemma_dilated_by_one(eroded, w, h, b, x, y, n);
    let v = under(eroded, w, h, x, y, b[m]).plus(b[m].2);
    let i = choose|i: int| 0 <= i < n && v.at_most(g[k].minus((#[trigger] b[i]).2).plus(b[i].2));
    assert(opened(g, w, h, r)[k] == rolled(eroded, w, h, b, true, x, y, n));
    assert(opened(g, w, h, r)[k].at_most(g[k].minus(b[i].2).plus(b[i].2)));
}

/// Whether a height is not rounded up on its way: taken to the working range,
/// lowered by any height of the ball, raised again and brought back, it is no
/// higher than before.
pub open spec fn rounds_no_higher(v: Binary32, lo: Binary32, range: Binary32, r: int) -> bool {
    let z = v.minus(lo).over(range).times(Binary32::of_integer(100));
    let b = whole_ball(r);
    forall|i: int|
        0 <= i < b.len() ==> brought_back(z.minus((#[trigger] b[i]).2).plus(b[i].2), lo, range).at_most(
            v,
        )
}

proof fn lemma_least_finite(s: Seq<Binary32>, n: int)
    requires
        0 < n <= s.len(),
        forall|i: int| 0 <= i < n ==> (#[trigger] s[i]).is_finite(),
    ensures
        least(s, n).is_finite(),
    decreases n,
{
    assert(s[n - 1].is_finite());
    if n > 1 {
        lemma_least_finite(s, n - 1);
    } else {
        assert(least(s, 0) == plus_infinity());
    }
}

pub(crate) proof fn lemma_range_positive(lo: Binary32, hi: Binary32)
    ensures
        Binary32::of_integer(0).below(range_of(lo, hi)),
{
    lemma_zero();
}

/// A finite height is a number in the working range.
proof fn lemma_spread_is_number(d: Binary32, lo: Binary32, range: Binary32)
    requires
        d.is_finite(),
        lo.is_finite(),
        range.is_finite(),
        Binary32::of_integer(0).below(range),
    ensures
        !d.minus(lo).over(range).times(Binary32::of_integer(100)).is_nan(),
{
    lemma_integer_finite(100);
    law_difference_keeps_order(d, d, lo, lo);
    law_quotient_keeps_order(d.minus(lo), d.minus(lo), range);
    law_product_keeps_order(
        d.minus(lo).over(range),
        d.minus(lo).over(range),
        Binary32::of_integer(100),
    );
}

/// Bringing heights back keeps their order.
proof fn lemma_brought_back_ordered(a: Binary32, b: Binary32, lo: Binary32, range: Binary32)
    requires
        a.at_most(b),
        lo.is_finite(),
        range.is_finite(),
        Binary32::of_integer(0).below(range),
    ensures
        brought_back(a, lo, range).at_most(brought_back(b, lo, range)),
{
    let work = Binary32::of_integer(100);
    lemma_integer_finite(100);
    law_quotient_keeps_order(a, b, work);
    law_product_keeps_order(a.over(work), b.over(work), range);
    law_sum_keeps_order(a.over(work).times(range), b.over(work).times(range), lo, lo);
}

/// What is left of a height above something lower is not negative.
proof fn lemma_rest(v: Binary32, x: Binary32)
    requires
        v.is_finite(),
        x.at_most(v),
    ensures
        Binary32::of_integer(0).at_most(v.minus(x)),
{
    if x.is_finite() {
        law_difference_with_itself(x);
        law_difference_keeps_order(x, v, x, x);
    } else {
        reveal(sum);
        lemma_zero();
    }
}

/// Nothing negative is left of a finite height, whatever the radius of the ball.
pub proof fn law_nothing_negative_is_left(data: Seq<Binary32>, w: int, h: int, radius: int)
    requires
        radius > 0,
        w > 0,
        h > 0,
        w * h <= data.len(),
        forall|i: int| 0 <= i < w * h ==> (#[trigger] data[i]).is_finite(),
    ensures
        subtracted(data, w, h, radius).len() == w * h,
        forall|k: int|
            0 <= k < w * h ==> Binary32::of_integer(0).at_most(
                #[trigger] subtracted(data, w, h, radius)[k],
            ),
{
    let lo = least(data, data.len() as int);
    let range = range_of(lo, greatest(data, data.len() as int));
    let bg = background(spread(data, lo, range), w, h, radius);
    assert(w * h >= 0) by (nonlinear_arith)
        requires
            w > 0,
            h > 0,
    ;
    assert forall|k: int| 0 <= k < w * h implies Binary32::of_integer(0).at_most(
        #[trigger] subtracted(data, w, h, radius)[k],
    ) by {
        assert(data[k].is_finite());
        lemma_rest(data[k], brought_back(bg[k], lo, range).min(data[k]));
    }
}

/// A ball that is rolled on the image itself stays below a height that is not
/// rounded up on its way: all of the background there is taken away.
pub proof fn law_small_ball_stays_below(
    data: Seq<Binary32>,
    w: int,
    h: int,
    radius: int,
    k: int,
)
    requires
        0 < radius <= 10,
        w > 0,
        h > 0,
        w * h <= data.len(),
        forall|i: int| 0 <= i < data.len() ==> (#[trigger] data[i]).is_finite(),
        0 <= k < w * h,
        ({
            let lo = least(data, data.len() as int);
            let range = range_of(lo, greatest(data, data.len() as int));
            range.is_finite() && rounds_no_higher(data[k], lo, range, radius)
        }),
    ensures
        ({
            let lo = least(data, data.len() as int);
            let range = range_of(lo, greatest(data, data.len() as int));
            let bg = background(spread(data, lo, range), w, h, radius)[k];
            brought_back(bg, lo, range).at_most(data[k]) && subtracted(data, w, h, radius)[k]
                == data[k].minus(brought_back(bg, lo, range))
        }),
{
    let lo = least(data, data.len() as int);
    let hi = greatest(data, data.len() as int);
    let range = range_of(lo, hi);
    let z = spread(data, lo, range);
    let b = whole_ball(radius);
    let v = data[k];
    lemma_least_finite(data, data.len() as int);
    lemma_range_positive(lo, hi);
    assert forall|i: int| 0 <= i < w * h implies !(#[trigger] z[i]).is_nan() by {
        lemma_spread_is_number(data[i], lo, range);
    }
    law_opening_stays_below(z, w, h, radius, k);
    let bg = opened(z, w, h, radius)[k];
    let i = choose|i: int|
        0 <= i < b.len() && bg.at_most(z[k].minus((#[trigger] b[i]).2).plus(b[i].2));
    lemma_brought_back_ordered(bg, z[k].minus(b[i].2).plus(b[i].2), lo, range);
    lemma_at_most_trans(
        brought_back(bg, lo, range),
        brought_back(z[k].minus(b[i].2).plus(b[i].2), lo, range),
        v,
    );
    assert(small_radius(radius) == radius) by {
        assert(radius / 1 == radius);
    }
    assert(background(z, w, h, radius) == opened(z, w, h, radius));
    lemma_min_of_lower(brought_back(bg, lo, range), v);
    assert(subtracted(data, w, h, radius)[k] == v.minus(brought_back(bg, lo, range)));
}

proof fn lemma_min_of_lower(a: Binary32, b: Binary32)
    requires
        a.at_most(b),
    ensures
        a.min(b) == a,
{
}

pub(crate) proof fn lemma_at_most_trans(a: Binary32, b: Binary32, c: Binary32)
    requires
        a.at_most(b),
        b.at_most(c),
    ensures
        a.at_most(c),
{
}

} // verus!
