//! What rolling a ball does: it is held against every height within its radius, and
//! touches one.

use crate::binary::Binary32;
use crate::blurring::held;
use crate::drawn_line::lemma_rounded_well;
use crate::fitting::lemma_rounded_small;
use crate::float::Toward;
use crate::grid::lemma_place;
use crate::measures::lemma_ratio_of_near;
use crate::opening::{lemma_ball_has, lemma_ball_points};
use crate::reals::{
    law_compare, law_fraction_is_dropped, law_minus, law_of_integer, law_over, law_plus, law_sqrt,
    law_times, lemma_finite_minus, lemma_finite_over, lemma_finite_plus, lemma_finite_times,
    lemma_of_integer_finite, num, size,
};
use crate::rolling::{
    ball_height, between, block_len, blocks, brought_back, clamped, distance2, enlarged, in_ball,
    least_in_block, least_run, lemma_blocks, lower, minus_infinity, mixed, morphed, plus_infinity,
    rolled, shrunk, spacing, spread, under, upper, whole_ball,
};
use vstd::prelude::*;

verus! {

/// Whether an offset is no longer than the radius.
pub open spec fn is_within(r: int, di: int, dj: int) -> bool {
    di * di + dj * dj <= r * r
}

/// The height at a place of a grid; beyond an edge, that of the edge.
pub open spec fn surface_at(g: Seq<Binary32>, w: int, h: int, x: int, y: int) -> real {
    num(g[held(y, h) * w + held(x, w)])
}

proof fn lemma_within(r: int, di: int, dj: int)
    requires
        0 <= r <= 4095,
        is_within(r, di, dj),
    ensures
        -r <= di <= r,
        -r <= dj <= r,
        in_ball(r, di, dj),
        0 <= di * di + dj * dj <= r * r <= 0xff_e001,
{
    assert(-r <= di && di <= r) by (nonlinear_arith)
        requires
            di * di + dj * dj <= r * r,
            r >= 0,
    ;
    assert(-r <= dj && dj <= r) by (nonlinear_arith)
        requires
            di * di + dj * dj <= r * r,
            r >= 0,
    ;
    assert(0 <= di * di && 0 <= dj * dj) by (nonlinear_arith);
    assert(r * r <= 4095 * 4095) by (nonlinear_arith)
        requires
            0 <= r <= 4095,
    ;
    let (a, b) = (di * di + dj * dj, r * r);
    lemma_of_integer_finite(a);
    lemma_of_integer_finite(b);
    law_of_integer(a);
    law_of_integer(b);
    law_compare(Binary32::of_integer(a), Binary32::of_integer(b));
}

proof fn lemma_ball_is_within(r: int, di: int, dj: int)
    requires
        0 <= r <= 4095,
        -r <= di <= r,
        -r <= dj <= r,
        in_ball(r, di, dj),
    ensures
        is_within(r, di, dj),
{
    assert(0 <= di * di <= 4095 * 4095 && 0 <= dj * dj <= 4095 * 4095) by (nonlinear_arith)
        requires
            -4095 <= di <= 4095,
            -4095 <= dj <= 4095,
    ;
    assert(0 <= r * r <= 4095 * 4095) by (nonlinear_arith)
        requires
            0 <= r <= 4095,
    ;
    let (a, b) = (di * di + dj * dj, r * r);
    lemma_of_integer_finite(a);
    lemma_of_integer_finite(b);
    law_of_integer(a);
    law_of_integer(b);
    let (x, y) = (Binary32::of_integer(a), Binary32::of_integer(b));
    law_compare(x, y);
    lemma_rounded_well(a as real, num(x), a as real);
}

/// Over an offset within its radius a ball is as high as a ball is: the squares of its
/// height and of the offset add up to that of the radius, but for rounding.
pub proof fn law_ball_is_round(r: int, di: int, dj: int)
    requires
        0 <= r <= 4095,
        is_within(r, di, dj),
    ensures
        ({
            let b = ball_height(r, di, dj);
            &&& b.is_finite()
            &&& 0 as real <= num(b) <= 0x2000 as real
            &&& size(num(b) * num(b) + (di * di + dj * dj) as real - (r * r) as real) <= num(b)
                * num(b) / 0x20_0000 as real + (r * r) as real / 0x100_0000 as real
        }),
{
    lemma_within(r, di, dj);
    let (a, b) = (di * di + dj * dj, r * r);
    lemma_of_integer_finite(a);
    lemma_of_integer_finite(b);
    law_of_integer(a);
    law_of_integer(b);
    let (x, y) = (distance2(di, dj), Binary32::of_integer(b));
    lemma_finite_minus(y, x);
    law_minus(y, x);
    let d = y.minus(x);
    let true_d = (b - a) as real;
    assert(true_d == b as real - a as real);
    lemma_rounded_well(true_d, num(d), true_d);
    law_sqrt(d);
    let v = num(d.sqrt());
    let vv = v * v;
    assert(v <= 0x2000 as real) by (nonlinear_arith)
        requires
            v * v <= 0x200_0000 as real,
            v >= 0 as real,
    ;
}

// ---- the least and the greatest ----

proof fn lemma_min(a: Binary32, b: Binary32)
    requires
        a == plus_infinity() || a.is_finite(),
        b.is_finite(),
    ensures
        a.min(b).is_finite(),
        num(a.min(b)) <= num(b),
        a.is_finite() ==> num(a.min(b)) <= num(a),
        a.min(b) == b || (a.is_finite() && a.min(b) == a),
{
    if a.is_finite() {
        law_compare(b, a);
    }
}

proof fn lemma_max(a: Binary32, b: Binary32)
    requires
        a == minus_infinity() || a.is_finite(),
        b.is_finite(),
    ensures
        a.max(b).is_finite(),
        num(a.max(b)) >= num(b),
        a.is_finite() ==> num(a.max(b)) >= num(a),
        a.max(b) == b || (a.is_finite() && a.max(b) == a),
{
    if a.is_finite() {
        law_compare(a, b);
    }
}

/// Where the ball lies when one of its points is held against the surface.
spec fn position(
    g: Seq<Binary32>,
    w: int,
    h: int,
    p: (i32, i32, Binary32),
    dilate: bool,
    x: int,
    y: int,
) -> Binary32 {
    if dilate {
        under(g, w, h, x, y, p).plus(p.2)
    } else {
        under(g, w, h, x, y, p).minus(p.2)
    }
}

proof fn lemma_rolled(
    g: Seq<Binary32>,
    w: int,
    h: int,
    b: Seq<(i32, i32, Binary32)>,
    dilate: bool,
    x: int,
    y: int,
    n: int,
) -> (at: int)
    requires
        0 < n <= b.len(),
        forall|i: int| 0 <= i < n ==> position(g, w, h, #[trigger] b[i], dilate, x, y).is_finite(),
    ensures
        0 <= at < n,
        rolled(g, w, h, b, dilate, x, y, n) == position(g, w, h, b[at], dilate, x, y),
        forall|i: int|
            0 <= i < n ==> {
                let p = num(position(g, w, h, #[trigger] b[i], dilate, x, y));
                let r = num(rolled(g, w, h, b, dilate, x, y, n));
                if dilate {
                    r >= p
                } else {
                    r <= p
                }
            },
    decreases n,
{
    let last = position(g, w, h, b[n - 1], dilate, x, y);
    assert(last.is_finite());
    let before = rolled(g, w, h, b, dilate, x, y, n - 1);
    if n == 1 {
        if dilate {
            lemma_max(before, last);
        } else {
            lemma_min(before, last);
        }
        0
    } else {
        let at = lemma_rolled(g, w, h, b, dilate, x, y, n - 1);
        assert(before.is_finite()) by {
            assert(position(g, w, h, b[at], dilate, x, y).is_finite());
        }
        if dilate {
            lemma_max(before, last);
        } else {
            lemma_min(before, last);
        }
        if rolled(g, w, h, b, dilate, x, y, n) == last {
            n - 1
        } else {
            at
        }
    }
}

/// Whether the heights of a grid are finite and no higher than `d`.
pub open spec fn is_surface_of(g: Seq<Binary32>, w: int, h: int, d: real) -> bool {
    &&& w > 0
    &&& h > 0
    &&& w * h <= g.len()
    &&& 1 as real <= d <= 0x100_0000_0000 as real
    &&& forall|k: int| 0 <= k < w * h ==> (#[trigger] g[k]).is_finite()
    &&& forall|k: int| 0 <= k < w * h ==> size(num(#[trigger] g[k])) <= d
}

/// One position of the ball, as a real number.
pub open spec fn held_against(
    g: Seq<Binary32>,
    w: int,
    h: int,
    r: int,
    dilate: bool,
    x: int,
    y: int,
    di: int,
    dj: int,
) -> real {
    if dilate {
        surface_at(g, w, h, x + di, y + dj) + num(ball_height(r, di, dj))
    } else {
        surface_at(g, w, h, x + di, y + dj) - num(ball_height(r, di, dj))
    }
}

/// How far rounding can move a position of the ball.
pub open spec fn rolling_slack(d: real) -> real {
    (d + 0x2000 as real) / 0x100_0000 as real
}

proof fn lemma_position(
    g: Seq<Binary32>,
    w: int,
    h: int,
    r: int,
    dilate: bool,
    x: int,
    y: int,
    p: (i32, i32, Binary32),
    d: real,
)
    requires
        is_surface_of(g, w, h, d),
        0 <= r <= 4095,
        is_within(r, p.0 as int, p.1 as int),
        p.2 == ball_height(r, p.0 as int, p.1 as int),
        0 <= x < w,
        0 <= y < h,
    ensures
        position(g, w, h, p, dilate, x, y).is_finite(),
        size(
            num(position(g, w, h, p, dilate, x, y)) - held_against(
                g,
                w,
                h,
                r,
                dilate,
                x,
                y,
                p.0 as int,
                p.1 as int,
            ),
        ) <= rolling_slack(d),
{
    law_ball_is_round(r, p.0 as int, p.1 as int);
    assert(clamped(y + p.1, h) == held(y + p.1, h) && clamped(x + p.0, w) == held(x + p.0, w));
    lemma_place(w, h, held(y + p.1, h), held(x + p.0, w));
    let v = under(g, w, h, x, y, p);
    assert(v.is_finite() && size(num(v)) <= d);
    let top = d + 0x2000 as real;
    if dilate {
        lemma_finite_plus(v, p.2);
        law_plus(v, p.2);
        lemma_rounded_well(num(v) + num(p.2), num(v.plus(p.2)), top);
    } else {
        lemma_finite_minus(v, p.2);
        law_minus(v, p.2);
        lemma_rounded_well(num(v) - num(p.2), num(v.minus(p.2)), top);
    }
}

/// Rolled underneath a surface, a ball lies as high as every height within its radius
/// lets it, and touches one; rolled on top of one, it lies as low. Both but for
/// rounding.
pub proof fn law_ball_touches_the_surface(
    g: Seq<Binary32>,
    w: int,
    h: int,
    r: int,
    dilate: bool,
    x: int,
    y: int,
    d: real,
)
    requires
        is_surface_of(g, w, h, d),
        0 <= r <= 4095,
        0 <= x < w,
        0 <= y < h,
    ensures
        ({
            let m = morphed(g, w, h, whole_ball(r), dilate)[y * w + x];
            let e = rolling_slack(d);
            &&& m.is_finite()
            &&& forall|di: int, dj: int|
                #[trigger] is_within(r, di, dj) ==> {
                    let p = held_against(g, w, h, r, dilate, x, y, di, dj);
                    if dilate {
                        num(m) >= p - e
                    } else {
                        num(m) <= p + e
                    }
                }
            &&& exists|di: int, dj: int| #[trigger]
                is_within(r, di, dj) && size(
                    num(m) - held_against(g, w, h, r, dilate, x, y, di, dj),
                ) <= e
        }),
{
    let b = whole_ball(r);
    let side = 2 * r + 1;
    let all = side * side;
    let e = rolling_slack(d);
    lemma_place(w, h, y, x);
    assert forall|i: int| 0 <= i < b.len() implies position(
        g,
        w,
        h,
        #[trigger] b[i],
        dilate,
        x,
        y,
    ).is_finite() by {
        lemma_ball_points(r, all, i);
        lemma_ball_is_within(r, b[i].0 as int, b[i].1 as int);
        lemma_position(g, w, h, r, dilate, x, y, b[i], d);
    }
    let m = morphed(g, w, h, b, dilate)[y * w + x];
    assert(b.len() > 0) by {
        assert(is_within(r, 0, 0)) by (nonlinear_arith)
            requires
                r >= 0,
        ;
        let i = lemma_ball_index(r, 0, 0);
    }
    let at = lemma_rolled(g, w, h, b, dilate, x, y, b.len() as int);
    assert(m == rolled(g, w, h, b, dilate, x, y, b.len() as int));
    lemma_ball_points(r, all, at);
    let (di, dj) = (b[at].0 as int, b[at].1 as int);
    lemma_ball_is_within(r, di, dj);
    lemma_position(g, w, h, r, dilate, x, y, b[at], d);
    assert(is_within(r, di, dj) && size(num(m) - held_against(g, w, h, r, dilate, x, y, di, dj))
        <= e);
    assert forall|di: int, dj: int| #[trigger] is_within(r, di, dj) implies {
        let p = held_against(g, w, h, r, dilate, x, y, di, dj);
        if dilate {
            num(m) >= p - e
        } else {
            num(m) <= p + e
        }
    } by {
        let i = lemma_ball_index(r, di, dj);
        lemma_position(g, w, h, r, dilate, x, y, b[i], d);
    }
}

proof fn lemma_ball_index(r: int, di: int, dj: int) -> (i: int)
    requires
        0 <= r <= 4095,
        is_within(r, di, dj),
    ensures
        0 <= i < whole_ball(r).len(),
        whole_ball(r)[i] == (di as i32, dj as i32, ball_height(r, di, dj)),
        di as i32 == di,
        dj as i32 == dj,
{
    lemma_within(r, di, dj);
    let side = 2 * r + 1;
    lemma_place(side, side, dj + r, di + r);
    lemma_ball_has(r, side * side, di, dj)
}

// ---- shrinking ----

/// The height at a place of a grid.
pub open spec fn cell_at(data: Seq<Binary32>, w: int, x: int, y: int) -> Binary32 {
    data[y * w + x]
}

proof fn lemma_least_run(acc: Binary32, data: Seq<Binary32>, from: int, n: int) -> (at: int)
    requires
        0 < n,
        acc == plus_infinity() || acc.is_finite(),
        forall|i: int| from <= i < from + n ==> (#[trigger] data[i]).is_finite(),
    ensures
        ({
            let r = least_run(acc, data, from, n);
            &&& r.is_finite()
            &&& acc.is_finite() ==> num(r) <= num(acc)
            &&& forall|i: int| from <= i < from + n ==> num(r) <= num(#[trigger] data[i])
            &&& (acc.is_finite() && r == acc) || (from <= at < from + n && r == data[at])
        }),
    decreases n,
{
    let last = data[from + n - 1];
    assert(last.is_finite());
    let before = least_run(acc, data, from, n - 1);
    if n == 1 {
        lemma_min(before, last);
        from
    } else {
        let at = lemma_least_run(acc, data, from, n - 1);
        lemma_min(before, last);
        if least_run(acc, data, from, n) == last {
            from + n - 1
        } else {
            at
        }
    }
}

proof fn lemma_least_in_block(
    data: Seq<Binary32>,
    w: int,
    x: int,
    cols: int,
    y: int,
    rows: int,
) -> (at: (int, int))
    requires
        0 < cols,
        0 < rows,
        forall|i: int, j: int|
            x <= i < x + cols && y <= j < y + rows ==> (#[trigger] cell_at(
                data,
                w,
                i,
                j,
            )).is_finite(),
    ensures
        ({
            let r = least_in_block(data, w, x, cols, y, rows);
            &&& r.is_finite()
            &&& forall|i: int, j: int|
                x <= i < x + cols && y <= j < y + rows ==> num(r) <= num(
                    (#[trigger] cell_at(data, w, i, j)),
                )
            &&& x <= at.0 < x + cols
            &&& y <= at.1 < y + rows
            &&& r == data[at.1 * w + at.0]
        }),
    decreases rows,
{
    let j = y + rows - 1;
    let from = j * w + x;
    let acc = least_in_block(data, w, x, cols, y, rows - 1);
    assert forall|i: int| from <= i < from + cols implies (#[trigger] data[i]).is_finite() by {
        let c = i - j * w;
        assert(cell_at(data, w, c, j).is_finite());
    }
    if rows == 1 {
        let at = lemma_least_run(acc, data, from, cols);
        assert forall|i: int, k: int| x <= i < x + cols && y <= k < y + rows implies num(
            least_in_block(data, w, x, cols, y, rows),
        ) <= num(#[trigger] cell_at(data, w, i, k)) by {
            assert(k == j);
        }
        (at - j * w, j)
    } else {
        let old_at = lemma_least_in_block(data, w, x, cols, y, rows - 1);
        let at = lemma_least_run(acc, data, from, cols);
        assert forall|i: int, k: int| x <= i < x + cols && y <= k < y + rows implies num(
            least_in_block(data, w, x, cols, y, rows),
        ) <= num(#[trigger] cell_at(data, w, i, k)) by {
            if k < j {
                assert(num(acc) <= num(cell_at(data, w, i, k)));
            } else {
                assert(k == j);
                assert(num(least_run(acc, data, from, cols)) <= num(data[j * w + i]));
            }
        }
        if least_in_block(data, w, x, cols, y, rows) == acc {
            old_at
        } else {
            (at - j * w, j)
        }
    }
}

/// A shrunk grid holds the least height of every block.
pub proof fn law_block_becomes_its_least(
    data: Seq<Binary32>,
    w: int,
    h: int,
    k: int,
    bx: int,
    by: int,
)
    requires
        w > 0,
        h > 0,
        k > 1,
        w * h <= data.len(),
        0 <= bx * k < w,
        0 <= by * k < h,
        forall|i: int| 0 <= i < w * h ==> (#[trigger] data[i]).is_finite(),
    ensures
        ({
            let sw = blocks(w, k);
            let v = shrunk(data, w, h, k)[by * sw + bx];
            &&& v.is_finite()
            &&& forall|x: int, y: int|
                bx * k <= x < bx * k + k && x < w && by * k <= y < by * k + k && y < h ==> num(v)
                    <= num(#[trigger] cell_at(data, w, x, y))
            &&& exists|x: int, y: int|
                bx * k <= x < bx * k + k && x < w && by * k <= y < by * k + k && y < h && v
                    == #[trigger] cell_at(data, w, x, y)
        }),
{
    let (sw, sh) = (blocks(w, k), blocks(h, k));
    lemma_blocks(w, k);
    lemma_blocks(h, k);
    assert(0 <= bx < sw) by (nonlinear_arith)
        requires
            0 <= bx * k < w,
            w <= sw * k,
            k > 1,
    ;
    assert(0 <= by < sh) by (nonlinear_arith)
        requires
            0 <= by * k < h,
            h <= sh * k,
            k > 1,
    ;
    lemma_place(sw, sh, by, bx);
    let (cols, rows) = (block_len(w, k, bx), block_len(h, k, by));
    assert forall|i: int, j: int|
        bx * k <= i < bx * k + cols && by * k <= j < by * k + rows implies (#[trigger] cell_at(
        data,
        w,
        i,
        j,
    )).is_finite() by {
        lemma_place(w, h, j, i);
    }
    let at = lemma_least_in_block(data, w, bx * k, cols, by * k, rows);
    let v = shrunk(data, w, h, k)[by * sw + bx];
    assert(v == least_in_block(data, w, bx * k, cols, by * k, rows));
    assert(v == cell_at(data, w, at.0, at.1));
}

// ---- the working range ----

/// Heights are spread over the range from 0 to 100 by the share of the range that they
/// take up.
pub proof fn law_spread_is_a_percentage(
    data: Seq<Binary32>,
    lo: Binary32,
    range: Binary32,
    i: int,
)
    requires
        0 <= i < data.len(),
        data[i].is_finite(),
        lo.is_finite(),
        range.is_finite(),
        size(num(data[i])) <= 0x100_0000_0000 as real,
        size(num(lo)) <= 0x100_0000_0000 as real,
        num(range) >= 1 as real / 0x100_0000 as real,
        num(lo) <= num(data[i]) <= num(lo) + num(range),
    ensures
        spread(data, lo, range)[i].is_finite(),
        size(
            num(spread(data, lo, range)[i]) - (num(data[i]) - num(lo)) / num(range) * 100 as real,
        ) <= 1 as real / 0x1000 as real,
{
    let w = 0x100_0000 as real;
    let v = data[i];
    let (p, q) = (num(v) - num(lo), num(range));
    lemma_finite_minus(v, lo);
    law_minus(v, lo);
    let d = v.minus(lo);
    lemma_rounded_well(p, num(d), q);
    assert(1 as real * q == q);
    lemma_ratio_of_near(p, q, num(d), q, 1 as real, w);
    let t = p / q;
    assert(0 as real <= t && t <= 1 as real) by (nonlinear_arith)
        requires
            t == p / q,
            0 as real <= p,
            p <= q,
            q > 0 as real,
    ;
    lemma_finite_over(d, range);
    law_over(d, range);
    let s = d.over(range);
    lemma_rounded_small(num(d) / q, num(s), 2 as real);
    let hundred = Binary32::of_integer(100);
    lemma_of_integer_finite(100);
    law_of_integer(100);
    lemma_finite_times(s, hundred);
    law_times(s, hundred);
    lemma_rounded_small(num(s) * 100 as real, num(s.times(hundred)), 200 as real);
}

/// A height in the working range comes back as its share of the range above the least.
pub proof fn law_percentage_comes_back(z: Binary32, lo: Binary32, range: Binary32, d: real)
    requires
        z.is_finite(),
        lo.is_finite(),
        range.is_finite(),
        1 as real <= d <= 0x100_0000_0000 as real,
        size(num(z)) <= 0x400 as real,
        size(num(lo)) <= d,
        0 as real <= num(range) <= d,
    ensures
        brought_back(z, lo, range).is_finite(),
        size(num(brought_back(z, lo, range)) - (num(z) / 100 as real * num(range) + num(lo))) <= d
            / 0x4_0000 as real,
{
    let w = 0x100_0000 as real;
    let hundred = Binary32::of_integer(100);
    lemma_of_integer_finite(100);
    law_of_integer(100);
    lemma_finite_over(z, hundred);
    law_over(z, hundred);
    let s = z.over(hundred);
    let t = num(z) / 100 as real;
    lemma_rounded_small(t, num(s), 16 as real);
    let (e, r) = (num(s) - t, num(range));
    assert(num(s) * r - t * r == e * r) by (nonlinear_arith)
        requires
            e == num(s) - t,
    ;
    assert(size(e * r) <= 17 as real / w * d) by (nonlinear_arith)
        requires
            size(e) <= 17 as real / w,
            0 as real <= r,
            r <= d,
    ;
    let y = num(s) * r;
    assert(size(y) <= 16 as real * d) by (nonlinear_arith)
        requires
            y == num(s) * r,
            size(num(s)) <= 16 as real,
            0 as real <= r,
            r <= d,
    ;
    lemma_finite_times(s, range);
    law_times(s, range);
    let m = s.times(range);
    lemma_rounded_small(y, num(m), 16 as real * d);
    let z2 = num(m) + num(lo);
    lemma_finite_plus(m, lo);
    law_plus(m, lo);
    lemma_rounded_well(z2, num(m.plus(lo)), 18 as real * d);
    assert(17 as real / w * d == 17 as real * d / w) by (nonlinear_arith)
        requires
            w > 0 as real,
    ;
}

// ---- enlarging ----

/// Where a sample of an enlarged axis lies among the `n` that it is made from.
proof fn lemma_axis(i: int, n: int, len: int)
    requires
        1 < len <= 0x4000,
        0 <= i < len,
        1 <= n <= len,
    ensures
        ({
            let step = spacing(n, len);
            let (a, b, t) = (lower(i, step, n), upper(i, step, n), between(i, step, n));
            let e = 1 as real / 0x80 as real;
            &&& 0 <= a < n
            &&& b == (if a + 1 < n { a + 1 } else { a })
            &&& t.is_finite()
            &&& -e <= num(t) <= 1 as real + e
            &&& size(a as real + num(t) - i as real * ((n - 1) as real / (len - 1) as real)) <= e
        }),
{
    let w = 0x100_0000 as real;
    let (p, q, k) = (
        Binary32::of_integer(n - 1),
        Binary32::of_integer(len - 1),
        Binary32::of_integer(i),
    );
    lemma_of_integer_finite(n - 1);
    lemma_of_integer_finite(len - 1);
    lemma_of_integer_finite(i);
    law_of_integer(n - 1);
    law_of_integer(len - 1);
    law_of_integer(i);
    let (x, y, z) = ((n - 1) as real, (len - 1) as real, i as real);
    let r = x / y;
    assert(0 as real <= r && r <= 1 as real && r * y == x) by (nonlinear_arith)
        requires
            r == x / y,
            0 as real <= x,
            x <= y,
            y > 0 as real,
    ;
    lemma_finite_over(p, q);
    law_over(p, q);
    let step = p.over(q);
    lemma_rounded_small(r, num(step), 1 as real);
    let d = num(step) - r;
    let zr = z * r;
    assert(z * num(step) - zr == z * d) by (nonlinear_arith)
        requires
            d == num(step) - r,
            zr == z * r,
    ;
    assert(size(z * d) <= 0x4000 as real * (2 as real / w)) by (nonlinear_arith)
        requires
            0 as real <= z,
            z <= 0x4000 as real,
            size(d) <= 2 as real / w,
    ;
    assert(0 as real <= zr && zr <= x) by (nonlinear_arith)
        requires
            zr == z * r,
            0 as real <= z,
            z <= y,
            0 as real <= r,
            r * y == x,
    ;
    lemma_finite_times(k, step);
    law_times(k, step);
    let at = k.times(step);
    lemma_rounded_small(z * num(step), num(at), 0x4001 as real);
    let e = 1 as real / 0x100 as real;
    assert(size(num(at) - zr) <= e);
    law_fraction_is_dropped(at, Toward::Floor, usize::MAX as int);
    let f = at.integer(Toward::Floor, 0, usize::MAX as int);
    assert((usize::MAX as int) as real >= 0xffff_ffff as real);
    let a = lower(i, step, n);
    assert(f as real <= x + 1 as real);
    let low = Binary32::of_integer(a);
    lemma_of_integer_finite(a);
    law_of_integer(a);
    assert(-e <= num(at) - a as real && num(at) - a as real <= 1 as real + e);
    lemma_finite_minus(at, low);
    law_minus(at, low);
    lemma_rounded_well(num(at) - a as real, num(at.minus(low)), 2 as real);
}

/// Two numbers mixed.
pub open spec fn blend(a: real, b: real, t: real) -> real {
    a + (b - a) * t
}

proof fn lemma_mixed(a: Binary32, b: Binary32, t: Binary32, d: real)
    requires
        a.is_finite() && size(num(a)) <= d,
        b.is_finite() && size(num(b)) <= d,
        t.is_finite() && size(num(t)) <= 2 as real,
        1 as real <= d <= 0x1_0000_0000_0000 as real,
    ensures
        mixed(a, b, t).is_finite(),
        size(num(mixed(a, b, t)) - blend(num(a), num(b), num(t))) <= 16 as real * d
            / 0x100_0000 as real,
        size(num(mixed(a, b, t))) <= 6 as real * d,
{
    let w = 0x100_0000 as real;
    lemma_finite_minus(b, a);
    law_minus(b, a);
    let c = b.minus(a);
    let (x, y) = (num(b) - num(a), num(t));
    lemma_rounded_well(x, num(c), 2 as real * d);
    let e = num(c) - x;
    assert(num(c) * y - x * y == e * y) by (nonlinear_arith)
        requires
            e == num(c) - x,
    ;
    let k = 2 as real * d / w;
    assert(size(e * y) <= k * 2 as real) by (nonlinear_arith)
        requires
            size(e) <= k,
            size(y) <= 2 as real,
    ;
    assert(size(x * y) <= 4 as real * d) by (nonlinear_arith)
        requires
            size(x) <= 2 as real * d,
            size(y) <= 2 as real,
    ;
    lemma_finite_times(c, t);
    law_times(c, t);
    let m = c.times(t);
    lemma_rounded_small(num(c) * y, num(m), 5 as real * d);
    lemma_finite_plus(a, m);
    law_plus(a, m);
    lemma_rounded_well(num(a) + num(m), num(a.plus(m)), 6 as real * d);
}

/// Whether a height is the bilinear mean of the four samples around a place, but for
/// rounding; the place given by a column, a row and how far it lies beyond them.
pub open spec fn is_bilinear(
    v: Binary32,
    g: Seq<Binary32>,
    w: int,
    h: int,
    x: int,
    tx: real,
    y: int,
    ty: real,
    d: real,
) -> bool {
    size(
        num(v) - blend(
            blend(surface_at(g, w, h, x, y), surface_at(g, w, h, x + 1, y), tx),
            blend(surface_at(g, w, h, x, y + 1), surface_at(g, w, h, x + 1, y + 1), tx),
            ty,
        ),
    ) <= 256 as real * d / 0x100_0000 as real
}

/// An enlarged grid is bilinear between the samples, its corners those of the grid that
/// it is made from.
pub proof fn law_enlarged_grid_is_bilinear(
    g: Seq<Binary32>,
    sw: int,
    sh: int,
    w: int,
    h: int,
    x: int,
    y: int,
    d: real,
)
    requires
        is_surface_of(g, sw, sh, d),
        sw != w || sh != h,
        1 < w <= 0x4000,
        1 < h <= 0x4000,
        sw <= w,
        sh <= h,
        0 <= x < w,
        0 <= y < h,
    ensures
        exists|x0: int, tx: real, y0: int, ty: real| #[trigger]
            is_bilinear(enlarged(g, sw, sh, w, h)[y * w + x], g, sw, sh, x0, tx, y0, ty, d) && size(
                x0 as real + tx - x as real * ((sw - 1) as real / (w - 1) as real),
            ) <= 1 as real / 0x80 as real && size(
                y0 as real + ty - y as real * ((sh - 1) as real / (h - 1) as real),
            ) <= 1 as real / 0x80 as real && 0 <= x0 < sw && 0 <= y0 < sh,
{
    let p = 0x100_0000 as real;
    lemma_place(w, h, y, x);
    lemma_axis(x, sw, w);
    lemma_axis(y, sh, h);
    let (sx, sy) = (spacing(sw, w), spacing(sh, h));
    let (x0, x1, tx) = (lower(x, sx, sw), upper(x, sx, sw), between(x, sx, sw));
    let (y0, y1, ty) = (lower(y, sy, sh), upper(y, sy, sh), between(y, sy, sh));
    lemma_place(sw, sh, y0, x0);
    lemma_place(sw, sh, y0, x1);
    lemma_place(sw, sh, y1, x0);
    lemma_place(sw, sh, y1, x1);
    assert(held(x0, sw) == x0 && held(x0 + 1, sw) == x1);
    assert(held(y0, sh) == y0 && held(y0 + 1, sh) == y1);
    let (a, b) = (g[y0 * sw + x0], g[y0 * sw + x1]);
    let (c, e) = (g[y1 * sw + x0], g[y1 * sw + x1]);
    assert(a.is_finite() && b.is_finite() && c.is_finite() && e.is_finite());
    lemma_mixed(a, b, tx, d);
    lemma_mixed(c, e, tx, d);
    let (m, n) = (mixed(a, b, tx), mixed(c, e, tx));
    lemma_mixed(m, n, ty, 6 as real * d);
    let v = mixed(m, n, ty);
    assert(enlarged(g, sw, sh, w, h)[y * w + x] == v);
    let (s, t, u) = (
        blend(num(a), num(b), num(tx)),
        blend(num(c), num(e), num(tx)),
        num(ty),
    );
    let (f, k) = (num(m) - s, num(n) - t);
    let top = 16 as real * d / p;
    assert(blend(num(m), num(n), u) - blend(s, t, u) == f + (k - f) * u) by (nonlinear_arith)
        requires
            f == num(m) - s,
            k == num(n) - t,
    ;
    assert(size((k - f) * u) <= 4 as real * top) by (nonlinear_arith)
        requires
            size(k - f) <= 2 as real * top,
            size(u) <= 2 as real,
    ;
    assert(is_bilinear(v, g, sw, sh, x0, num(tx), y0, num(ty), d));
}

} // verus!
