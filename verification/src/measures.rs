//! What is measured and shown: heights between the points of a profile, the scale
//! bar, and where the corners of a mesh lie.

use crate::binary::{Binary32, Binary64};
use crate::drawn_line::lemma_rounded_well;
use crate::filter::epsilon;
use crate::fitting::lemma_rounded_small;
use crate::float::Width;
use crate::mesh::{along, half, mesh_height, sides, Relief};
use crate::profile::{first_beyond, height_at, height_between};
use crate::reals::{
    huge, law_compare, law_minus, law_narrow, law_nearest_integer, law_of_integer, law_over,
    law_plus, law_times, law_widen, lemma_abs, lemma_bits, lemma_finite_minus, lemma_finite_over,
    lemma_finite_plus, lemma_finite_times, lemma_of_integer_finite, num, num64, rounds_to, size,
};
use crate::scalebar::{has_bar, plan_of, snapped};
use crate::scaling::lemma_product_commutes;
use vstd::arithmetic::power2::{lemma2_to64, lemma2_to64_rest, pow2};
use vstd::prelude::*;

verus! {

/// The gap below which two points count as one.
pub(crate) proof fn lemma_epsilon()
    ensures
        epsilon().is_finite(),
        num(epsilon()) == 1 as real / 0x80_0000 as real,
{
    lemma_bits(epsilon(), 104, 0);
    lemma2_to64_rest();
    assert(pow2((150 - 104) as nat) == 0x4000_0000_0000);
    assert(0x80_0000 as real / 0x4000_0000_0000 as real == 1 as real / 0x80_0000 as real);
}

pub(crate) proof fn lemma_half()
    ensures
        half().is_finite(),
        num(half()) == 1 as real / 2 as real,
{
    lemma_bits(half(), 126, 0);
    lemma2_to64();
    assert(pow2((150 - 126) as nat) == 0x100_0000);
    assert(0x80_0000 as real / 0x100_0000 as real == 1 as real / 2 as real);
}

/// The quotient of two numbers that are known to within a part in `w`.
pub(crate) proof fn lemma_ratio_of_near(p: real, q: real, d1: real, d2: real, b: real, w: real)
    requires
        size(p) <= b * q,
        0 as real <= b,
        q > 0 as real,
        w >= 0x1000 as real,
        size(d1 - p) <= b * q / w,
        size(d2 - q) <= q / w,
    ensures
        d2 > 0 as real,
        2 as real * d2 >= q,
        size(d1 / d2 - p / q) <= 3 as real * b / w,
{
    let (r, t) = (d1 / d2, p / q);
    let e = 3 as real * b / w;
    let (bq, qw) = (b * q, q / w);
    assert(qw > 0 as real && qw <= q / 0x1000 as real) by (nonlinear_arith)
        requires
            qw == q / w,
            q > 0 as real,
            w >= 0x1000 as real,
    ;
    assert(e >= 0 as real) by (nonlinear_arith)
        requires
            e == 3 as real * b / w,
            b >= 0 as real,
            w > 0 as real,
    ;
    let low = q * 0xfff as real / 0x1000 as real;
    assert(d2 >= low);
    assert(t * q == p) by (nonlinear_arith)
        requires
            t == p / q,
            q > 0 as real,
    ;
    assert(size(t) <= b) by (nonlinear_arith)
        requires
            size(p) <= b * q,
            t * q == p,
            q > 0 as real,
    ;
    assert(r * d2 == d1) by (nonlinear_arith)
        requires
            r == d1 / d2,
            d2 > 0 as real,
    ;
    let g = (r - t) * d2;
    let h = t * (q - d2);
    assert(g == (d1 - p) + h) by (nonlinear_arith)
        requires
            g == (r - t) * d2,
            h == t * (q - d2),
            r * d2 == d1,
            t * q == p,
    ;
    assert(size(h) <= b * qw) by (nonlinear_arith)
        requires
            h == t * (q - d2),
            size(q - d2) <= qw,
            size(t) <= b,
    ;
    assert(b * qw == bq / w) by (nonlinear_arith)
        requires
            qw == q / w,
            bq == b * q,
            w > 0 as real,
    ;
    assert(e * low >= 2 as real * (bq / w)) by {
        let eq = e * q;
        assert(eq == 3 as real * (bq / w)) by (nonlinear_arith)
            requires
                eq == e * q,
                e == 3 as real * b / w,
                bq == b * q,
                w > 0 as real,
        ;
        assert(e * low == eq * 0xfff as real / 0x1000 as real) by (nonlinear_arith)
            requires
                eq == e * q,
                low == q * 0xfff as real / 0x1000 as real,
        ;
        assert(bq / w >= 0 as real) by (nonlinear_arith)
            requires
                bq == b * q,
                b >= 0 as real,
                q > 0 as real,
                w > 0 as real,
        ;
    }
    assert(e * d2 >= e * low) by (nonlinear_arith)
        requires
            d2 >= low,
            e >= 0 as real,
    ;
    assert(size(r - t) <= e) by (nonlinear_arith)
        requires
            g == (r - t) * d2,
            size(g) <= e * d2,
            d2 > 0 as real,
    ;
}

/// The height on the straight line through two points.
pub open spec fn on_the_line(a: (Binary32, Binary32), b: (Binary32, Binary32), x: real) -> real {
    num(a.1) + (x - num(a.0)) / (num(b.0) - num(a.0)) * (num(b.1) - num(a.1))
}

/// Whether two points of a profile are finite and of moderate heights.
pub open spec fn are_points(a: (Binary32, Binary32), b: (Binary32, Binary32), m: real) -> bool {
    &&& a.0.is_finite() && a.1.is_finite() && b.0.is_finite() && b.1.is_finite()
    &&& size(num(a.0)) <= 0x100_0000_0000 as real
    &&& size(num(b.0)) <= 0x100_0000_0000 as real
    &&& size(num(a.1)) <= m
    &&& size(num(b.1)) <= m
}

proof fn lemma_between(a: (Binary32, Binary32), b: (Binary32, Binary32), x: Binary32, m: real)
    requires
        are_points(a, b, m),
        1 as real <= m <= 0x100_0000_0000 as real,
        x.is_finite(),
        num(a.0) <= num(x) <= num(b.0),
        num(b.0) - num(a.0) >= 1 as real / 0x40_0000 as real,
    ensures
        height_between(a, b, x).is_finite(),
        size(num(height_between(a, b, x)) - on_the_line(a, b, num(x))) <= 32 as real * m
            / 0x100_0000 as real,
{
    let w = 0x100_0000 as real;
    let (p, q) = (num(x) - num(a.0), num(b.0) - num(a.0));
    lemma_finite_minus(x, a.0);
    law_minus(x, a.0);
    lemma_finite_minus(b.0, a.0);
    law_minus(b.0, a.0);
    let (d1, d2) = (x.minus(a.0), b.0.minus(a.0));
    lemma_rounded_well(p, num(d1), q);
    lemma_rounded_well(q, num(d2), q);
    assert(1 as real * q == q);
    lemma_ratio_of_near(p, q, num(d1), num(d2), 1 as real, w);
    lemma_epsilon();
    let gap = d2.abs();
    assert(num(gap) == num(d2) && gap.is_finite()) by {
        lemma_abs(d2);
    }
    law_compare(gap, epsilon());
    let t = d1.over(d2);
    let (tq, tt) = (num(d1) / num(d2), p / q);
    assert(0 as real <= tt && tt <= 1 as real) by (nonlinear_arith)
        requires
            tt == p / q,
            0 as real <= p,
            p <= q,
            q > 0 as real,
    ;
    assert(size(num(d1)) <= huge() * size(num(d2)));
    lemma_finite_over(d1, d2);
    law_over(d1, d2);
    lemma_rounded_small(tq, num(t), 2 as real);
    assert(size(num(t) - tt) <= 6 as real / w);
    let hh = num(b.1) - num(a.1);
    lemma_finite_minus(b.1, a.1);
    law_minus(b.1, a.1);
    let hd = b.1.minus(a.1);
    lemma_rounded_well(hh, num(hd), 2 as real * m);
    let (u, v) = (num(t), num(hd));
    assert(size(u * v - tt * hh) <= 16 as real * m / w) by {
        let (e, f) = (u - tt, v - hh);
        assert(u * v - tt * hh == u * f + e * hh) by (nonlinear_arith)
            requires
                e == u - tt,
                f == v - hh,
        ;
        assert(size(u * f) <= 2 as real * (2 as real * m / w)) by (nonlinear_arith)
            requires
                size(u) <= 2 as real,
                size(f) <= 2 as real * m / w,
        ;
        assert(size(e * hh) <= 6 as real / w * (2 as real * m)) by (nonlinear_arith)
            requires
                size(e) <= 6 as real / w,
                size(hh) <= 2 as real * m,
        ;
        assert(6 as real / w * (2 as real * m) == 12 as real * m / w) by (nonlinear_arith)
            requires
                w > 0 as real,
        ;
    }
    let g = tt * hh;
    assert(size(g) <= 2 as real * m) by (nonlinear_arith)
        requires
            g == tt * hh,
            0 as real <= tt,
            tt <= 1 as real,
            size(hh) <= 2 as real * m,
    ;
    assert(size(u * v) <= 3 as real * m);
    lemma_finite_times(t, hd);
    law_times(t, hd);
    let k = t.times(hd);
    lemma_rounded_small(u * v, num(k), 3 as real * m);
    assert(size(num(a.1) + num(k)) <= 5 as real * m);
    lemma_finite_plus(a.1, k);
    law_plus(a.1, k);
    lemma_rounded_well(num(a.1) + num(k), num(a.1.plus(k)), 5 as real * m);
}

proof fn lemma_first_beyond(p: Seq<(Binary32, Binary32)>, x: Binary32, i: int)
    requires
        0 <= i <= p.len(),
        x.is_finite(),
        forall|j: int| 0 <= j < p.len() ==> (#[trigger] p[j]).0.is_finite(),
        forall|j: int| 0 <= j < i ==> num((#[trigger] p[j]).0) < num(x),
        i < p.len() ==> num(x) <= num(p[i].0),
    ensures
        first_beyond(p, x) == i,
    decreases p.len(),
{
    if p.len() > 0 {
        law_compare(x, p[0].0);
        if i > 0 {
            let q = p.drop_first();
            assert forall|j: int| 0 <= j < q.len() implies (#[trigger] q[j]).0.is_finite() by {
                assert(q[j] == p[j + 1]);
            }
            assert forall|j: int| 0 <= j < i - 1 implies num((#[trigger] q[j]).0) < num(x) by {
                assert(q[j] == p[j + 1]);
            }
            lemma_first_beyond(q, x, i - 1);
        }
    }
}

/// Between two points of a profile the height lies on the straight line through
/// them, but for rounding; point `i` is the first at or beyond the distance.
pub proof fn law_height_lies_between_its_neighbours(
    p: Seq<(Binary32, Binary32)>,
    x_nm: Binary64,
    i: int,
    m: real,
)
    requires
        1 <= i < p.len(),
        x_nm.is_finite(),
        x_nm.narrow().is_finite(),
        forall|j: int| 0 <= j < p.len() ==> (#[trigger] p[j]).0.is_finite(),
        forall|j: int| 0 <= j < i ==> num((#[trigger] p[j]).0) < num(x_nm.narrow()),
        num(x_nm.narrow()) <= num(p[i].0),
        are_points(p[i - 1], p[i], m),
        1 as real <= m <= 0x100_0000_0000 as real,
        num(p[i].0) - num(p[i - 1].0) >= 1 as real / 0x40_0000 as real,
    ensures
        height_at(p, x_nm).is_finite(),
        size(num64(height_at(p, x_nm)) - on_the_line(p[i - 1], p[i], num(x_nm.narrow())))
            <= 32 as real * m / 0x100_0000 as real,
        rounds_to(Width::Single, num64(x_nm), num(x_nm.narrow())),
{
    let x = x_nm.narrow();
    law_narrow(x_nm);
    lemma_first_beyond(p, x, i);
    assert(num(p[i - 1].0) < num(x));
    lemma_between(p[i - 1], p[i], x, m);
    law_widen(height_between(p[i - 1], p[i], x));
}

/// Before the first point and beyond the last the height is that of the point.
pub proof fn law_height_beyond_the_ends(p: Seq<(Binary32, Binary32)>, x_nm: Binary64)
    requires
        p.len() > 0,
        x_nm.narrow().is_finite(),
        forall|j: int| 0 <= j < p.len() ==> (#[trigger] p[j]).0.is_finite(),
        forall|j: int| 0 <= j < p.len() ==> (#[trigger] p[j]).1.is_finite(),
    ensures
        num(x_nm.narrow()) <= num(p[0].0) ==> num64(height_at(p, x_nm)) == num(p[0].1),
        (forall|j: int| 0 <= j < p.len() ==> num((#[trigger] p[j]).0) < num(x_nm.narrow()))
            ==> num64(height_at(p, x_nm)) == num(p.last().1),
{
    let x = x_nm.narrow();
    law_widen(p[0].1);
    law_widen(p.last().1);
    if num(x) <= num(p[0].0) {
        lemma_first_beyond(p, x, 0);
    }
    if forall|j: int| 0 <= j < p.len() ==> num((#[trigger] p[j]).0) < num(x) {
        lemma_first_beyond(p, x, p.len() as int);
    }
}

// ---- the scale bar ----

/// The bar is as many pixels long as its length takes on the image, to the nearest
/// pixel, but no less than one and no more than fit.
pub proof fn law_bar_has_its_length(w: int, h: int, scan_nm: Binary32)
    requires
        has_bar(w, h, scan_nm),
        w <= 0x10_0000,
        scan_nm.is_finite(),
        1 as real / 0x10_0000 as real <= num(scan_nm) <= 0x100_0000_0000 as real,
    ensures
        ({
            let p = plan_of(w, h, scan_nm);
            let ideal = p.nm as real / num(scan_nm) * (w as real);
            let e = 1 as real / 2 as real + ideal / 0x20_0000 as real + 1 as real / 0x1000 as real;
            &&& 1 <= p.px <= w - 1
            &&& 1 < p.px < w - 1 ==> size(p.px as real - ideal) <= e
            &&& p.px == 1 ==> ideal <= 1 as real + e
            &&& p.px == w - 1 ==> ideal >= w as real - 1 as real - e
        }),
{
    let v = 0x100_0000 as real;
    let nm = snapped(scan_nm.over(Binary32::of_integer(5)));
    assert(1 <= nm <= 100000);
    let (a, b) = (Binary32::of_integer(nm), Binary32::of_integer(w));
    lemma_of_integer_finite(nm);
    lemma_of_integer_finite(w);
    law_of_integer(nm);
    law_of_integer(w);
    let (n, s, y) = (nm as real, num(scan_nm), w as real);
    lemma_finite_over(a, scan_nm);
    law_over(a, scan_nm);
    let q = a.over(scan_nm);
    let x = n / s;
    assert(x * s == n) by (nonlinear_arith)
        requires
            x == n / s,
            s > 0 as real,
    ;
    assert(0 as real <= x && x <= 0x20_0000_0000 as real) by (nonlinear_arith)
        requires
            x * s == n,
            s >= 1 as real / 0x10_0000 as real,
            0 as real <= n,
            n <= 0x2_0000 as real,
    ;
    lemma_rounded_small(x, num(q), x);
    let ideal = x * y;
    let r = num(q) * y;
    let tiny = 1 as real / 0x100_0000_0000_0000 as real;
    let f = num(q) - x;
    assert(r - ideal == f * y) by (nonlinear_arith)
        requires
            r == num(q) * y,
            ideal == x * y,
            f == num(q) - x,
    ;
    assert(size(f * y) <= (x / v + tiny) * y) by (nonlinear_arith)
        requires
            size(f) <= x / v + tiny,
            y >= 0 as real,
    ;
    assert((x / v + tiny) * y == ideal / v + tiny * y) by (nonlinear_arith)
        requires
            ideal == x * y,
            v > 0 as real,
    ;
    assert(tiny * y <= 1 as real / 0x10_0000_0000 as real) by (nonlinear_arith)
        requires
            tiny == 1 as real / 0x100_0000_0000_0000 as real,
            y <= 0x10_0000 as real,
    ;
    assert(0 as real <= ideal && ideal <= 0x200_0000_0000_0000 as real) by (nonlinear_arith)
        requires
            ideal == x * y,
            0 as real <= x,
            x <= 0x20_0000_0000 as real,
            0 as real <= y,
            y <= 0x10_0000 as real,
    ;
    lemma_finite_times(q, b);
    law_times(q, b);
    let z = q.times(b);
    lemma_rounded_small(r, num(z), 2 as real * ideal + 1 as real);
    law_nearest_integer(z, 0, u32::MAX as int);
}

// ---- the mesh ----

/// The corners of a mesh stand at even distances, with its middle at zero.
pub proof fn law_corners_are_even(i: int, n: int, span: Binary32)
    requires
        2 <= n <= 0x100_0000,
        0 <= i < n,
        span.is_finite(),
        size(num(span)) <= 0x100_0000_0000 as real,
    ensures
        along(i, n, span).is_finite(),
        size(
            num(along(i, n, span)) - (i as real / (n - 1) as real - 1 as real / 2 as real) * num(
                span,
            ),
        ) <= (8 as real * size(num(span)) + 1 as real) / 0x100_0000 as real,
{
    let w = 0x100_0000 as real;
    let (a, b) = (Binary32::of_integer(i), Binary32::of_integer(n - 1));
    lemma_of_integer_finite(i);
    lemma_of_integer_finite(n - 1);
    law_of_integer(i);
    law_of_integer(n - 1);
    lemma_half();
    let (x, y) = (i as real, (n - 1) as real);
    let t = x / y;
    assert(0 as real <= t && t <= 1 as real) by (nonlinear_arith)
        requires
            t == x / y,
            0 as real <= x,
            x <= y,
            y > 0 as real,
    ;
    lemma_finite_over(a, b);
    law_over(a, b);
    let q = a.over(b);
    lemma_rounded_small(t, num(q), 1 as real);
    lemma_finite_minus(q, half());
    law_minus(q, half());
    let d = q.minus(half());
    lemma_rounded_well(num(q) - num(half()), num(d), 1 as real);
    lemma_scaled(t - 1 as real / 2 as real, d, span, 4 as real);
}

/// A number that is near a true one, times another.
proof fn lemma_scaled(y: real, d: Binary32, c: Binary32, k: real)
    requires
        d.is_finite(),
        c.is_finite(),
        size(num(c)) <= 0x100_0000_0000 as real,
        size(y) <= 2 as real,
        1 as real <= k <= 0x1000 as real,
        size(num(d) - y) <= k / 0x100_0000 as real,
    ensures
        d.times(c).is_finite(),
        size(num(d.times(c)) - y * num(c)) <= ((k + 3 as real) * size(num(c)) + 1 as real)
            / 0x100_0000 as real,
{
    let w = 0x100_0000 as real;
    let (u, v) = (num(d), num(c));
    let e = u - y;
    assert(u * v - y * v == e * v) by (nonlinear_arith)
        requires
            e == u - y,
    ;
    assert(size(e * v) <= k / w * size(v)) by (nonlinear_arith)
        requires
            size(e) <= k / w,
    ;
    assert(size(u * v) <= 3 as real * size(v)) by (nonlinear_arith)
        requires
            size(u) <= 3 as real,
    ;
    lemma_finite_times(d, c);
    law_times(d, c);
    lemma_rounded_small(u * v, num(d.times(c)), 3 as real * size(v));
    assert(k / w * size(v) + 3 as real * size(v) / w == (k + 3 as real) * size(v) / w)
        by (nonlinear_arith)
        requires
            w > 0 as real,
    ;
}

/// A corner stands as high as its sample lies in the range, stretched.
pub proof fn law_corner_has_the_height_of_its_sample(f: Relief, row: int, col: int)
    requires
        f.data[row * f.w + col].is_finite(),
        f.low.is_finite(),
        f.range.is_finite(),
        f.exaggeration.is_finite(),
        size(num(f.exaggeration)) <= 0x100_0000_0000 as real,
        num(f.range) >= 1 as real / 0x100_0000 as real,
        size(num(f.data[row * f.w + col])) <= 0x100_0000_0000 as real,
        size(num(f.low)) <= 0x100_0000_0000 as real,
        num(f.low) <= num(f.data[row * f.w + col]) <= num(f.low) + num(f.range),
    ensures
        ({
            let share = (num(f.data[row * f.w + col]) - num(f.low)) / num(f.range);
            let y = (share - 1 as real / 2 as real) * num(f.exaggeration);
            &&& mesh_height(f, row, col).is_finite()
            &&& size(num(mesh_height(f, row, col)) - y) <= (16 as real * size(num(f.exaggeration))
                + 1 as real) / 0x100_0000 as real
        }),
{
    let w = 0x100_0000 as real;
    let v = f.data[row * f.w + col];
    let (p, q) = (num(v) - num(f.low), num(f.range));
    lemma_finite_minus(v, f.low);
    law_minus(v, f.low);
    let d1 = v.minus(f.low);
    lemma_rounded_well(p, num(d1), q);
    assert(1 as real * q == q);
    lemma_ratio_of_near(p, q, num(d1), q, 1 as real, w);
    let t = p / q;
    assert(0 as real <= t && t <= 1 as real) by (nonlinear_arith)
        requires
            t == p / q,
            0 as real <= p,
            p <= q,
            q > 0 as real,
    ;
    lemma_finite_over(d1, f.range);
    law_over(d1, f.range);
    let s = d1.over(f.range);
    lemma_rounded_small(num(d1) / q, num(s), 2 as real);
    lemma_half();
    lemma_finite_minus(s, half());
    law_minus(s, half());
    let d = s.minus(half());
    lemma_rounded_well(num(s) - num(half()), num(d), 2 as real);
    lemma_scaled(t - 1 as real / 2 as real, d, f.exaggeration, 9 as real);
}

/// The longer side of an image becomes the given side, the shorter one keeps its
/// proportion.
pub proof fn law_sides_keep_the_proportion(a: Binary32, b: Binary32, side: Binary32)
    requires
        a.is_finite(),
        b.is_finite(),
        side.is_finite(),
        num(b) > 0 as real,
        num(b) <= num(a),
        size(num(side)) <= 0x100_0000_0000 as real,
    ensures
        sides(a, b, side).0 == side,
        sides(b, a, side).1 == side,
        size(num(sides(a, b, side).1) - num(b) / num(a) * num(side)) <= (8 as real * size(num(side))
            + 1 as real) / 0x100_0000 as real,
        size(num(sides(b, a, side).0) - num(b) / num(a) * num(side)) <= (8 as real * size(num(side))
            + 1 as real) / 0x100_0000 as real,
{
    let zero = Binary32::of_integer(0);
    lemma_of_integer_finite(0);
    law_of_integer(0);
    law_compare(zero, a);
    law_compare(zero, b);
    law_compare(a, b);
    law_compare(b, a);
    let (x, y, s) = (num(b), num(a), num(side));
    let t = x / y;
    assert(0 as real <= t && t <= 1 as real) by (nonlinear_arith)
        requires
            t == x / y,
            0 as real <= x,
            x <= y,
            y > 0 as real,
    ;
    if x == y {
        assert(t == 1 as real) by (nonlinear_arith)
            requires
                t == x / y,
                x == y,
                y > 0 as real,
        ;
        assert(t * s == s) by (nonlinear_arith)
            requires
                t == 1 as real,
        ;
    } else {
        lemma_finite_over(b, a);
        law_over(b, a);
        let q = b.over(a);
        lemma_rounded_small(t, num(q), 1 as real);
        lemma_scaled(t, q, side, 2 as real);
        lemma_product_commutes(Width::Single, q.parts(), side.parts());
        assert(side.times(q) == q.times(side));
    }
}

} // verus!
