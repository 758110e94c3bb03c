//! What the filters do: every height becomes a mean of those in its window, weighted
//! with the weights that fall on a sample.

use crate::binary::Binary32;
use crate::blurring::{blend_of, lemma_blend_near, lemma_same, real_total};
use crate::drawn_line::lemma_rounded_well;
use crate::filter::{
    blurred, blurred_at, blurred_columns, blurred_rows, epsilon, filtered, filtered_at,
    filtered_rows, fits_axis, in_range, kernel_products, kernel_sum, product_sum, weight_sum,
    window_start,
};
use crate::fitting::{lemma_rounded_small, lemma_weight_grows, weight};
use crate::float::to_int;
use crate::grid::lemma_place;
use crate::measures::lemma_epsilon;
use crate::reals::{
    huge, law_compare, law_of_integer, law_over, law_plus, law_times, lemma_abs, lemma_finite_over,
    lemma_finite_plus, lemma_finite_times, lemma_of_integer_finite, num, size,
};
use crate::smooth::reach;
use vstd::prelude::*;

verus! {

/// A weighted mean from a rounded sum of products and a rounded sum of weights.
proof fn lemma_mean(
    s: Binary32,
    t: Binary32,
    a: real,
    b: real,
    n: real,
    k: real,
    q: real,
    d: real,
)
    requires
        s.is_finite(),
        t.is_finite(),
        1 as real <= n,
        1 as real <= k <= 0x10_0000 as real,
        1 as real <= q <= 0x100 as real,
        n * q <= 0x1_0000 as real,
        1 as real <= d <= 0x100_0000_0000 as real,
        size(num(s) - a) <= 8 as real * (n * (k * d)) / 0x100_0000 as real,
        size(num(t) - b) <= 4 as real * (n * k) / 0x100_0000 as real,
        size(a) <= k * d,
        size(b) * q >= k,
    ensures
        s.over(t).is_finite(),
        size(num(s.over(t)) - a / b) <= 32 as real * (n * (q * (q * d))) / 0x100_0000 as real,
        size(a / b) <= q * d,
        2 as real * size(num(t)) >= size(b),
{
    let w = 0x100_0000 as real;
    let (x, y) = (num(s), num(t));
    let (r, v) = (x / y, a / b);
    let nk = n * k;
    assert(size(b) > 0 as real) by (nonlinear_arith)
        requires
            size(b) * q >= k,
            k >= 1 as real,
            q >= 1 as real,
    ;
    assert(4 as real * nk / w <= size(b) / 0x10 as real) by {
        assert(nk <= n * (size(b) * q)) by (nonlinear_arith)
            requires
                nk == n * k,
                size(b) * q >= k,
                n >= 0 as real,
        ;
        assert(n * (size(b) * q) == (n * q) * size(b)) by (nonlinear_arith);
        assert((n * q) * size(b) <= 0x1_0000 as real * size(b)) by (nonlinear_arith)
            requires
                n * q <= 0x1_0000 as real,
                size(b) >= 0 as real,
        ;
    }
    assert(v * b == a) by (nonlinear_arith)
        requires
            v == a / b,
            b != 0 as real,
    ;
    assert(size(v) <= q * d) by (nonlinear_arith)
        requires
            v * b == a,
            size(a) <= k * d,
            size(b) * q >= k,
            size(b) > 0 as real,
            d >= 0 as real,
            q >= 0 as real,
    ;
    assert(r * y == x) by (nonlinear_arith)
        requires
            r == x / y,
            y != 0 as real,
    ;
    let (ea, eb) = (x - a, y - b);
    let g = (r - v) * y;
    assert(g == ea - v * eb) by (nonlinear_arith)
        requires
            g == (r - v) * y,
            r * y == x,
            v * b == a,
            ea == x - a,
            eb == y - b,
    ;
    let nkd = n * (k * d);
    let nqkd = q * nkd;
    assert(size(v * eb) <= (q * d) * (4 as real * nk / w)) by (nonlinear_arith)
        requires
            size(v) <= q * d,
            size(eb) <= 4 as real * nk / w,
    ;
    assert((q * d) * (4 as real * nk / w) == 4 as real * nqkd / w) by (nonlinear_arith)
        requires
            nk == n * k,
            nkd == n * (k * d),
            nqkd == q * nkd,
            w > 0 as real,
    ;
    assert(nkd <= nqkd && nkd >= 0 as real) by (nonlinear_arith)
        requires
            nqkd == q * nkd,
            nkd == n * (k * d),
            n >= 0 as real,
            k >= 0 as real,
            d >= 0 as real,
            q >= 1 as real,
    ;
    assert(size(g) <= 12 as real * nqkd / w);
    let goal = n * (q * (q * d));
    // k <= q |b| <= 16/15 q |y|
    let z = 25 as real * goal / w;
    assert(size(r - v) <= z) by {
        assert(12 as real * nqkd <= 25 as real * goal * size(y)) by {
            let ky = q * size(y);
            assert(k <= 2 as real * ky) by (nonlinear_arith)
                requires
                    size(b) * q >= k,
                    2 as real * size(y) >= size(b),
                    ky == q * size(y),
                    q >= 0 as real,
            ;
            let m = n * (q * d);
            assert(nqkd == m * k) by (nonlinear_arith)
                requires
                    nqkd == q * (n * (k * d)),
                    m == n * (q * d),
            ;
            assert(m >= 0 as real) by (nonlinear_arith)
                requires
                    m == n * (q * d),
                    n >= 0 as real,
                    q >= 0 as real,
                    d >= 0 as real,
            ;
            assert(m * k <= m * (2 as real * ky)) by (nonlinear_arith)
                requires
                    k <= 2 as real * ky,
                    m >= 0 as real,
            ;
            assert(m * (2 as real * ky) == 2 as real * (goal * size(y))) by (nonlinear_arith)
                requires
                    m == n * (q * d),
                    ky == q * size(y),
                    goal == n * (q * (q * d)),
            ;
            assert(25 as real * goal * size(y) == 25 as real * (goal * size(y))) by (nonlinear_arith);
            assert(goal * size(y) >= 0 as real) by (nonlinear_arith)
                requires
                    goal == n * (q * (q * d)),
                    n >= 0 as real,
                    q >= 0 as real,
                    d >= 0 as real,
                    size(y) >= 0 as real,
            ;
        }
        assert(size(g) <= z * size(y)) by (nonlinear_arith)
            requires
                size(g) <= 12 as real * nqkd / w,
                12 as real * nqkd <= 25 as real * goal * size(y),
                z == 25 as real * goal / w,
                w > 0 as real,
        ;
        assert(size(r - v) <= z) by (nonlinear_arith)
            requires
                g == (r - v) * y,
                size(g) <= z * size(y),
                size(y) > 0 as real,
        ;
    }
    let qd = q * d;
    assert(qd >= 1 as real && qd <= goal) by (nonlinear_arith)
        requires
            qd == q * d,
            goal == n * (q * qd),
            q >= 1 as real,
            d >= 1 as real,
            n >= 1 as real,
    ;
    assert(z <= qd) by {
        assert(goal == (n * q) * qd) by (nonlinear_arith)
            requires
                goal == n * (q * qd),
        ;
        assert((n * q) * qd <= 0x1_0000 as real * qd) by (nonlinear_arith)
            requires
                n * q <= 0x1_0000 as real,
                qd >= 0 as real,
        ;
    }
    assert(size(r) <= 2 as real * qd);
    assert(size(x) <= huge() * size(y)) by {
        assert(size(x) <= size(r) * size(y)) by (nonlinear_arith)
            requires
                r * y == x,
        ;
        assert(qd <= 0x1_0000_0000_0000 as real) by (nonlinear_arith)
            requires
                qd == q * d,
                0 as real <= q,
                q <= 0x100 as real,
                0 as real <= d,
                d <= 0x100_0000_0000 as real,
        ;
        assert(size(r) * size(y) <= huge() * size(y)) by (nonlinear_arith)
            requires
                size(r) <= huge(),
                size(y) >= 0 as real,
        ;
    }
    lemma_finite_over(s, t);
    law_over(s, t);
    lemma_rounded_small(r, num(s.over(t)), 2 as real * qd);
}

/// Moving the numbers by no more than `e` moves their weighted mean by no more than
/// `q` times that.
proof fn lemma_mean_moves(a: real, c: real, b: real, k: real, q: real, e: real)
    requires
        size(a - c) <= e * k,
        e >= 0 as real,
        k >= 0 as real,
        q >= 1 as real,
        size(b) * q >= k,
        size(b) > 0 as real,
    ensures
        size(a / b - c / b) <= q * e,
{
    let d = a - c;
    assert(a / b - c / b == d / b) by (nonlinear_arith)
        requires
            d == a - c,
            b != 0 as real,
    ;
    let v = d / b;
    assert(v * b == d) by (nonlinear_arith)
        requires
            v == d / b,
            b != 0 as real,
    ;
    assert(size(v) <= q * e) by (nonlinear_arith)
        requires
            v * b == d,
            size(d) <= e * k,
            size(b) * q >= k,
            size(b) > 0 as real,
            e >= 0 as real,
    ;
}

// ---- Gaussian windows ----

/// Whether weights are fit for a window: finite, none negative or above one, and
/// together at least one, which the sample itself has.
pub open spec fn is_window(k: Seq<Binary32>) -> bool {
    &&& 1 <= k.len() <= 0x1000
    &&& forall|i: int|
        0 <= i < k.len() ==> (#[trigger] k[i]).is_finite() && 0 as real <= num(k[i]) <= 1 as real
    &&& real_total(k, k.len() as int) >= 1 as real
}

proof fn lemma_window(k: Seq<Binary32>, n: int)
    requires
        is_window(k),
        0 <= n <= k.len(),
    ensures
        weight(k, n) == real_total(k, n),
        0 as real <= real_total(k, n) <= n as real,
        real_total(k, n) <= real_total(k, k.len() as int),
    decreases n,
{
    if n > 0 {
        lemma_window(k, n - 1);
        assert(k[n - 1].is_finite());
    }
    lemma_window_rest(k, n);
}

proof fn lemma_window_rest(k: Seq<Binary32>, n: int)
    requires
        is_window(k),
        0 <= n <= k.len(),
    ensures
        real_total(k, n) <= real_total(k, k.len() as int),
    decreases k.len() - n,
{
    if n < k.len() {
        lemma_window_rest(k, n + 1);
        assert(k[n].is_finite());
    }
}

proof fn lemma_weight_sum(k: Seq<Binary32>, n: int)
    requires
        is_window(k),
        0 <= n <= k.len(),
    ensures
        weight_sum(k, n).is_finite(),
        size(num(weight_sum(k, n)) - real_total(k, n)) <= 4 as real * (n as real * real_total(
            k,
            k.len() as int,
        )) / 0x100_0000 as real,
    decreases n,
{
    let w = 0x100_0000 as real;
    let t = real_total(k, k.len() as int);
    lemma_window(k, n);
    lemma_window(k, k.len() as int);
    if n <= 0 {
        lemma_of_integer_finite(0);
        law_of_integer(0);
        assert(4 as real * (0 as real * t) / w == 0 as real) by (nonlinear_arith)
            requires
                w > 0 as real,
        ;
    } else {
        lemma_weight_sum(k, n - 1);
        lemma_window(k, n - 1);
        let (s, a) = (weight_sum(k, n - 1), k[n - 1]);
        assert(a.is_finite());
        let (n0, n1) = ((n - 1) as real, n as real);
        let (p0, p1) = (n0 * t, n1 * t);
        assert(p1 == p0 + t) by (nonlinear_arith)
            requires
                p0 == n0 * t,
                p1 == n1 * t,
                n1 == n0 + 1 as real,
        ;
        assert(p0 <= 0x1000 as real * t) by (nonlinear_arith)
            requires
                p0 == n0 * t,
                n0 <= 0x1000 as real,
                t >= 0 as real,
        ;
        let y = num(s) + num(a);
        assert(size(y) <= 2 as real * t);
        lemma_finite_plus(s, a);
        law_plus(s, a);
        lemma_rounded_well(y, num(s.plus(a)), 2 as real * t);
    }
}

/// The sample that weight `i` of a window falls on.
spec fn seen(data: Seq<Binary32>, from: int, stride: int) -> spec_fn(int) -> real {
    |i: int| num(data[from + i * stride])
}

proof fn lemma_product_sum(
    data: Seq<Binary32>,
    from: int,
    stride: int,
    k: Seq<Binary32>,
    n: int,
    d: real,
)
    requires
        is_window(k),
        0 <= n <= k.len(),
        1 as real <= d <= 0x100_0000_0000 as real,
        forall|i: int|
            0 <= i < k.len() ==> {
                let v = data[from + #[trigger] (i * stride)];
                v.is_finite() && size(num(v)) <= d
            },
    ensures
        ({
            let f = seen(data, from, stride);
            let t = real_total(k, k.len() as int);
            &&& product_sum(data, from, stride, k, n).is_finite()
            &&& size(blend_of(f, k, n)) <= real_total(k, n) * d
            &&& size(num(product_sum(data, from, stride, k, n)) - blend_of(f, k, n)) <= 8 as real * (
            n as real * (t * d)) / 0x100_0000 as real
        }),
    decreases n,
{
    let w = 0x100_0000 as real;
    let f = seen(data, from, stride);
    let t = real_total(k, k.len() as int);
    let td = t * d;
    lemma_window(k, n);
    lemma_window(k, k.len() as int);
    assert(td >= 1 as real) by (nonlinear_arith)
        requires
            td == t * d,
            t >= 1 as real,
            d >= 1 as real,
    ;
    assert(td <= 0x1000 as real * d) by (nonlinear_arith)
        requires
            td == t * d,
            t <= 0x1000 as real,
            d >= 0 as real,
    ;
    if n <= 0 {
        lemma_of_integer_finite(0);
        law_of_integer(0);
        assert(8 as real * (0 as real * td) / w == 0 as real) by (nonlinear_arith)
            requires
                w > 0 as real,
        ;
        assert(0 as real * d == 0 as real) by (nonlinear_arith);
    } else {
        lemma_product_sum(data, from, stride, k, n - 1, d);
        lemma_window(k, n - 1);
        let s = product_sum(data, from, stride, k, n - 1);
        let (v, a) = (data[from + (n - 1) * stride], k[n - 1]);
        assert(a.is_finite() && 0 as real <= num(a) <= 1 as real);
        assert(v.is_finite() && size(num(v)) <= d) by {
            assert(0 <= n - 1 < k.len());
            let i = n - 1;
            assert(data[from + i * stride].is_finite());
        }
        let (x, y) = (num(v), num(a));
        let r0 = real_total(k, n - 1);
        assert(size(x * y) <= y * d) by (nonlinear_arith)
            requires
                size(x) <= d,
                0 as real <= y,
        ;
        assert((r0 + y) * d == r0 * d + y * d && (r0 + y) * d <= td && r0 * d >= 0 as real)
            by (nonlinear_arith)
            requires
                r0 + y <= t,
                td == t * d,
                d >= 0 as real,
                r0 >= 0 as real,
        ;
        lemma_finite_times(v, a);
        law_times(v, a);
        let m = v.times(a);
        lemma_rounded_small(x * y, num(m), td);
        let (n0, n1) = ((n - 1) as real, n as real);
        let (p0, p1) = (n0 * td, n1 * td);
        assert(p1 == p0 + td) by (nonlinear_arith)
            requires
                p0 == n0 * td,
                p1 == n1 * td,
                n1 == n0 + 1 as real,
        ;
        assert(p0 <= 0x1000 as real * td) by (nonlinear_arith)
            requires
                p0 == n0 * td,
                n0 <= 0x1000 as real,
                td >= 0 as real,
        ;
        let z = num(s) + num(m);
        assert(size(z) <= 4 as real * td);
        lemma_finite_plus(s, m);
        law_plus(s, m);
        lemma_rounded_well(z, num(s.plus(m)), 4 as real * td);
        assert(f(n - 1) == x);
    }
}

/// The mean of what a window sees.
pub open spec fn mean_of(f: spec_fn(int) -> real, k: Seq<Binary32>) -> real {
    blend_of(f, k, k.len() as int) / real_total(k, k.len() as int)
}

/// The first sample of the window around a position.
pub open spec fn first_seen(pos: int, reached: int) -> int {
    if pos < reached {
        0
    } else {
        pos - reached
    }
}

/// The last one.
pub open spec fn last_seen(pos: int, reached: int, len: int) -> int {
    if pos + reached < len {
        pos + reached
    } else {
        len - 1
    }
}

proof fn lemma_blurred_at(
    data: Seq<Binary32>,
    base: int,
    stride: int,
    pos: int,
    radius: int,
    k: Seq<Binary32>,
    d: real,
)
    requires
        is_window(k),
        0 <= pos,
        1 as real <= d <= 0x100_0000_0000 as real,
        forall|i: int|
            0 <= i < k.len() ==> {
                let v = data[base + first_seen(pos, radius) * stride + #[trigger] (i * stride)];
                v.is_finite() && size(num(v)) <= d
            },
    ensures
        ({
            let f = seen(data, base + first_seen(pos, radius) * stride, stride);
            let r = blurred_at(data, base, stride, pos, radius, k);
            &&& r.is_finite()
            &&& size(num(r) - mean_of(f, k)) <= 32 as real * (k.len() as real * d)
                / 0x100_0000 as real
            &&& size(mean_of(f, k)) <= d
        }),
{
    let n = k.len() as int;
    let from = base + first_seen(pos, radius) * stride;
    assert(window_start(pos, radius) == first_seen(pos, radius));
    let t = real_total(k, n);
    lemma_window(k, n);
    lemma_weight_sum(k, n);
    lemma_product_sum(data, from, stride, k, n, d);
    assert(t * 1 as real == t && 1 as real * d == d && 1 as real * (1 as real * d) == d)
        by (nonlinear_arith);
    let nr = k.len() as real;
    assert(nr * 1 as real == nr) by (nonlinear_arith);
    let s = product_sum(data, from, stride, k, n);
    lemma_mean(s, weight_sum(k, n), blend_of(seen(data, from, stride), k, n), t, nr, t, 1 as real, d);
}

/// Near numbers have near means.
proof fn lemma_means_near(
    f: spec_fn(int) -> real,
    g: spec_fn(int) -> real,
    k: Seq<Binary32>,
    e: real,
)
    requires
        is_window(k),
        e >= 0 as real,
        forall|i: int| 0 <= i < k.len() ==> size(#[trigger] f(i) - g(i)) <= e,
    ensures
        size(mean_of(f, k) - mean_of(g, k)) <= e,
{
    let n = k.len() as int;
    lemma_window(k, n);
    lemma_blend_near(f, g, k, n, e);
    let t = real_total(k, n);
    assert(t * 1 as real == t && 1 as real * e == e) by (nonlinear_arith);
    lemma_mean_moves(blend_of(f, k, n), blend_of(g, k, n), t, t, 1 as real, e);
}

/// The heights of a row from a column on.
pub open spec fn along_row(data: Seq<Binary32>, w: int, row: int, left: int) -> spec_fn(
    int,
) -> real {
    |j: int| num(data[row * w + (left + j)])
}

/// The means of the rows from a row on.
pub open spec fn down_rows(
    data: Seq<Binary32>,
    w: int,
    top: int,
    left: int,
    k: Seq<Binary32>,
) -> spec_fn(int) -> real {
    |i: int| mean_of(along_row(data, w, top + i, left), k)
}

/// The mean along a row.
proof fn lemma_row_mean(
    data: Seq<Binary32>,
    w: int,
    h: int,
    radius: int,
    across: Seq<Seq<Binary32>>,
    y: int,
    c: int,
    d: real,
)
    requires
        data.len() == w * h,
        0 <= y < h,
        0 <= c < w,
        radius >= 0,
        fits_axis(across, w, radius),
        is_window(across[c]),
        1 as real <= d <= 0x100_0000_0000 as real,
        forall|i: int| 0 <= i < data.len() ==> (#[trigger] data[i]).is_finite(),
        forall|i: int| 0 <= i < data.len() ==> size(num(#[trigger] data[i])) <= d,
    ensures
        ({
            let m = blurred_rows(data, w, h, radius, across)[y * w + c];
            let true_m = mean_of(along_row(data, w, y, first_seen(c, radius)), across[c]);
            &&& m.is_finite()
            &&& size(num(m) - true_m) <= 32 as real * (across[c].len() as real * d)
                / 0x100_0000 as real
            &&& size(num(m)) <= 2 as real * d
        }),
{
    let k = across[c];
    let left = first_seen(c, radius);
    lemma_place(w, h, y, c);
    assert forall|i: int| 0 <= i < k.len() implies {
        let v = data[y * w + left * 1 + #[trigger] (i * 1)];
        v.is_finite() && size(num(v)) <= d
    } by {
        lemma_place(w, h, y, left + i);
    }
    lemma_blurred_at(data, y * w, 1, c, radius, k, d);
    let f = seen(data, y * w + left * 1, 1);
    let g = along_row(data, w, y, left);
    assert forall|i: int| 0 <= i < k.len() implies #[trigger] f(i) == g(i) by {
    }
    lemma_same(f, g, k, k.len() as int);
    let kl = k.len() as real;
    assert(kl * d <= 0x1000 as real * d) by (nonlinear_arith)
        requires
            kl <= 0x1000 as real,
            d >= 0 as real,
    ;
}

/// The mean down a column.
proof fn lemma_column_mean(
    mid: Seq<Binary32>,
    w: int,
    h: int,
    radius: int,
    down: Seq<Seq<Binary32>>,
    r: int,
    c: int,
    g: spec_fn(int) -> real,
    d: real,
    e: real,
)
    requires
        mid.len() == w * h,
        0 <= r < h,
        0 <= c < w,
        radius >= 0,
        fits_axis(down, h, radius),
        is_window(down[r]),
        1 as real <= d <= 0x100_0000_0000 as real,
        e >= 0 as real,
        forall|i: int|
            0 <= i < down[r].len() ==> {
                let m = mid[#[trigger] ((first_seen(r, radius) + i) * w) + c];
                m.is_finite() && size(num(m)) <= d && size(num(m) - g(i)) <= e
            },
    ensures
        ({
            let out = blurred_columns(mid, w, h, radius, down)[r * w + c];
            &&& out.is_finite()
            &&& size(num(out) - mean_of(g, down[r])) <= 32 as real * (down[r].len() as real * d)
                / 0x100_0000 as real + e
        }),
{
    let k = down[r];
    let top = first_seen(r, radius);
    lemma_place(w, h, r, c);
    assert forall|i: int| 0 <= i < k.len() implies {
        let v = mid[c + top * w + #[trigger] (i * w)];
        v.is_finite() && size(num(v)) <= d
    } by {
        assert((top + i) * w == top * w + i * w) by (nonlinear_arith);
    }
    lemma_blurred_at(mid, c, w, r, radius, k, d);
    let f = seen(mid, c + top * w, w);
    assert forall|i: int| 0 <= i < k.len() implies size(#[trigger] f(i) - g(i)) <= e by {
        assert((top + i) * w == top * w + i * w) by (nonlinear_arith);
    }
    lemma_means_near(f, g, k, e);
}

/// A Gaussian filter makes of every height the mean of those within its reach that lie
/// on the grid, weighted along the rows and along the columns; `across` and `down`
/// are the weights of the columns and of the rows.
pub proof fn law_gaussian_filter_is_a_weighted_mean(
    data: Seq<Binary32>,
    w: int,
    h: int,
    sigma: Binary32,
    across: Seq<Seq<Binary32>>,
    down: Seq<Seq<Binary32>>,
    r: int,
    c: int,
    n: int,
    d: real,
)
    requires
        !sigma.at_most(Binary32::of_integer(0)),
        data.len() == w * h,
        0 <= r < h,
        0 <= c < w,
        fits_axis(across, w, reach(sigma)),
        fits_axis(down, h, reach(sigma)),
        is_window(across[c]),
        is_window(down[r]),
        across[c].len() <= n,
        down[r].len() <= n,
        n <= 0x1000,
        1 as real <= d <= 0x10_0000_0000 as real,
        forall|i: int| 0 <= i < data.len() ==> (#[trigger] data[i]).is_finite(),
        forall|i: int| 0 <= i < data.len() ==> size(num(#[trigger] data[i])) <= d,
    ensures
        ({
            let reached = reach(sigma);
            let out = blurred(data, w, h, sigma, across, down);
            let (top, left) = (first_seen(r, reached), first_seen(c, reached));
            let mean = mean_of(down_rows(data, w, top, left, across[c]), down[r]);
            &&& out.len() == w * h
            &&& down[r].len() == last_seen(r, reached, h) - top + 1
            &&& across[c].len() == last_seen(c, reached, w) - left + 1
            &&& out[r * w + c].is_finite()
            &&& size(num(out[r * w + c]) - mean) <= 96 as real * (n as real * d)
                / 0x100_0000 as real
        }),
{
    let reached = reach(sigma);
    lemma_reach(sigma);
    let p = 0x100_0000 as real;
    let mid = blurred_rows(data, w, h, reached, across);
    let (top, left) = (first_seen(r, reached), first_seen(c, reached));
    let (ka, kd) = (across[c].len() as real, down[r].len() as real);
    let nd = n as real * d;
    let e = 32 as real * (ka * d) / p;
    lemma_place(w, h, r, c);
    assert(ka * d <= nd && kd * (2 as real * d) <= 2 as real * nd && ka * d >= 0 as real)
        by (nonlinear_arith)
        requires
            nd == n as real * d,
            0 as real <= ka,
            ka <= n as real,
            kd <= n as real,
            d >= 0 as real,
    ;
    let g = down_rows(data, w, top, left, across[c]);
    assert forall|i: int| 0 <= i < down[r].len() implies {
        let m = mid[#[trigger] ((top + i) * w) + c];
        m.is_finite() && size(num(m)) <= 2 as real * d && size(num(m) - g(i)) <= e
    } by {
        lemma_row_mean(data, w, h, reached, across, top + i, c, d);
    }
    lemma_column_mean(mid, w, h, reached, down, r, c, g, 2 as real * d, e);
}

/// A reach is never negative.
proof fn lemma_reach(sigma: Binary32)
    ensures
        reach(sigma) >= 0,
{
    reveal(to_int);
}

// ---- kernels of one's own ----

/// The sum of the first `n` weights of a kernel that fall on one of `len` samples.
pub open spec fn total_on(k: Seq<Binary32>, pos: int, len: int, n: int) -> real
    decreases n,
{
    if n <= 0 {
        0 as real
    } else if 0 <= pos + (n - 1) - k.len() as int / 2 < len {
        total_on(k, pos, len, n - 1) + num(k[n - 1])
    } else {
        total_on(k, pos, len, n - 1)
    }
}

/// The sum of those weights times the numbers that they fall on.
pub open spec fn blend_on(
    f: spec_fn(int) -> real,
    k: Seq<Binary32>,
    pos: int,
    len: int,
    n: int,
) -> real
    decreases n,
{
    if n <= 0 {
        0 as real
    } else if 0 <= pos + (n - 1) - k.len() as int / 2 < len {
        blend_on(f, k, pos, len, n - 1) + f(pos + (n - 1) - k.len() as int / 2) * num(k[n - 1])
    } else {
        blend_on(f, k, pos, len, n - 1)
    }
}

/// The mean of the numbers that a kernel falls on.
pub open spec fn mean_on(f: spec_fn(int) -> real, k: Seq<Binary32>, pos: int, len: int) -> real {
    blend_on(f, k, pos, len, k.len() as int) / total_on(k, pos, len, k.len() as int)
}

/// Whether a kernel is fit for use: finite, not too long, and its weights together no
/// more than `m`.
pub open spec fn is_own_kernel(k: Seq<Binary32>, m: real) -> bool {
    &&& 1 <= k.len() <= 0x1000
    &&& 1 as real <= m <= 0x10_0000 as real
    &&& forall|i: int| 0 <= i < k.len() ==> (#[trigger] k[i]).is_finite()
    &&& weight(k, k.len() as int) <= m
}

proof fn lemma_kernel_sum(k: Seq<Binary32>, pos: int, len: int, n: int, m: real)
    requires
        is_own_kernel(k, m),
        0 <= n <= k.len(),
    ensures
        kernel_sum(k, pos, len, n).is_finite(),
        size(total_on(k, pos, len, n)) <= weight(k, n),
        size(num(kernel_sum(k, pos, len, n)) - total_on(k, pos, len, n)) <= 4 as real * (n as real
            * m) / 0x100_0000 as real,
    decreases n,
{
    let w = 0x100_0000 as real;
    if n <= 0 {
        lemma_of_integer_finite(0);
        law_of_integer(0);
        assert(4 as real * (0 as real * m) / w == 0 as real) by (nonlinear_arith)
            requires
                w > 0 as real,
        ;
    } else {
        lemma_kernel_sum(k, pos, len, n - 1, m);
        lemma_weight_grows(k, n, k.len() as int);
        let (n0, n1) = ((n - 1) as real, n as real);
        let (p0, p1) = (n0 * m, n1 * m);
        assert(p1 == p0 + m) by (nonlinear_arith)
            requires
                p0 == n0 * m,
                p1 == n1 * m,
                n1 == n0 + 1 as real,
        ;
        assert(p0 <= 0x1000 as real * m) by (nonlinear_arith)
            requires
                p0 == n0 * m,
                n0 <= 0x1000 as real,
                m >= 0 as real,
        ;
        if in_range(pos, n - 1, k.len() as int, len) {
            let (s, a) = (kernel_sum(k, pos, len, n - 1), k[n - 1]);
            assert(a.is_finite());
            let y = num(s) + num(a);
            assert(size(y) <= 2 as real * m);
            lemma_finite_plus(s, a);
            law_plus(s, a);
            lemma_rounded_well(y, num(s.plus(a)), 2 as real * m);
        }
    }
}

/// The samples on an axis of a grid.
spec fn on_axis(data: Seq<Binary32>, base: int, stride: int) -> spec_fn(int) -> real {
    |p: int| num(data[base + p * stride])
}

proof fn lemma_kernel_products(
    data: Seq<Binary32>,
    base: int,
    stride: int,
    len: int,
    k: Seq<Binary32>,
    pos: int,
    n: int,
    m: real,
    d: real,
)
    requires
        is_own_kernel(k, m),
        0 <= n <= k.len(),
        1 as real <= d <= 0x100_0000_0000 as real,
        forall|p: int|
            0 <= p < len ==> {
                let v = data[base + #[trigger] (p * stride)];
                v.is_finite() && size(num(v)) <= d
            },
    ensures
        ({
            let f = on_axis(data, base, stride);
            let r = kernel_products(data, base, stride, len, k, pos, n);
            &&& r.is_finite()
            &&& size(blend_on(f, k, pos, len, n)) <= weight(k, n) * d
            &&& size(num(r) - blend_on(f, k, pos, len, n)) <= 8 as real * (n as real * (m * d))
                / 0x100_0000 as real
        }),
    decreases n,
{
    let w = 0x100_0000 as real;
    let f = on_axis(data, base, stride);
    let md = m * d;
    assert(1 as real <= md && md <= 0x10_0000 as real * d) by (nonlinear_arith)
        requires
            md == m * d,
            1 as real <= m,
            m <= 0x10_0000 as real,
            d >= 1 as real,
    ;
    if n <= 0 {
        lemma_of_integer_finite(0);
        law_of_integer(0);
        assert(8 as real * (0 as real * md) / w == 0 as real) by (nonlinear_arith)
            requires
                w > 0 as real,
        ;
        assert(0 as real * d == 0 as real) by (nonlinear_arith);
    } else {
        lemma_kernel_products(data, base, stride, len, k, pos, n - 1, m, d);
        lemma_weight_grows(k, n, k.len() as int);
        lemma_weight_grows(k, 0, n - 1);
        let (n0, n1) = ((n - 1) as real, n as real);
        let (p0, p1) = (n0 * md, n1 * md);
        assert(p1 == p0 + md) by (nonlinear_arith)
            requires
                p0 == n0 * md,
                p1 == n1 * md,
                n1 == n0 + 1 as real,
        ;
        assert(0 as real <= p0 && p0 <= 0x1000 as real * md) by (nonlinear_arith)
            requires
                p0 == n0 * md,
                0 as real <= n0,
                n0 <= 0x1000 as real,
                md >= 0 as real,
        ;
        let a = k[n - 1];
        let (w0, y) = (weight(k, n - 1), num(a));
        assert((w0 + size(y)) * d == w0 * d + size(y) * d && (w0 + size(y)) * d <= md && w0 * d
            >= 0 as real && size(y) * d >= 0 as real) by (nonlinear_arith)
            requires
                w0 + size(y) <= m,
                md == m * d,
                d >= 0 as real,
                w0 >= 0 as real,
        ;
        if in_range(pos, n - 1, k.len() as int, len) {
            let p = pos + (n - 1) - k.len() as int / 2;
            let s = kernel_products(data, base, stride, len, k, pos, n - 1);
            let v = data[base + p * stride];
            assert(a.is_finite());
            assert(v.is_finite() && size(num(v)) <= d);
            assert(pos + n - 1 - k.len() as int / 2 == p);
            let x = num(v);
            assert(size(x * y) <= size(y) * d) by (nonlinear_arith)
                requires
                    size(x) <= d,
            ;
            lemma_finite_times(v, a);
            law_times(v, a);
            let z = v.times(a);
            lemma_rounded_small(x * y, num(z), md);
            let t = num(s) + num(z);
            assert(size(t) <= 4 as real * md);
            lemma_finite_plus(s, z);
            law_plus(s, z);
            lemma_rounded_well(t, num(s.plus(z)), 4 as real * md);
            assert(f(p) == x);
        }
    }
}

/// A kernel applied at one sample gives the mean of those that it falls on.
proof fn lemma_filtered_at(
    data: Seq<Binary32>,
    base: int,
    stride: int,
    len: int,
    k: Seq<Binary32>,
    pos: int,
    m: real,
    q: real,
    d: real,
)
    requires
        is_own_kernel(k, m),
        1 as real <= q <= 0x100 as real,
        k.len() as real * q <= 0x1_0000 as real,
        1 as real <= d <= 0x100_0000_0000 as real,
        size(total_on(k, pos, len, k.len() as int)) * q >= m,
        forall|p: int|
            0 <= p < len ==> {
                let v = data[base + #[trigger] (p * stride)];
                v.is_finite() && size(num(v)) <= d
            },
    ensures
        ({
            let f = on_axis(data, base, stride);
            let r = filtered_at(data, base, stride, len, k, pos);
            &&& r.is_finite()
            &&& size(num(r) - mean_on(f, k, pos, len)) <= 32 as real * (k.len() as real * (q * (q
                * d))) / 0x100_0000 as real
            &&& size(mean_on(f, k, pos, len)) <= q * d
        }),
{
    let n = k.len() as int;
    let nr = k.len() as real;
    let f = on_axis(data, base, stride);
    lemma_kernel_sum(k, pos, len, n, m);
    lemma_kernel_products(data, base, stride, len, k, pos, n, m, d);
    let (s, t) = (
        kernel_products(data, base, stride, len, k, pos, n),
        kernel_sum(k, pos, len, n),
    );
    let (a, b, wt) = (blend_on(f, k, pos, len, n), total_on(k, pos, len, n), weight(k, n));
    assert(wt * d <= m * d) by (nonlinear_arith)
        requires
            wt <= m,
            d >= 0 as real,
    ;
    lemma_mean(s, t, a, b, nr, m, q, d);
    assert(size(b) >= 1 as real / 0x100 as real) by (nonlinear_arith)
        requires
            size(b) * q >= m,
            m >= 1 as real,
            q > 0 as real,
            q <= 0x100 as real,
    ;
    lemma_epsilon();
    lemma_abs(t);
    law_compare(epsilon(), t.abs());
}

proof fn lemma_blend_on_near(
    f: spec_fn(int) -> real,
    g: spec_fn(int) -> real,
    k: Seq<Binary32>,
    pos: int,
    len: int,
    n: int,
    e: real,
)
    requires
        0 <= n,
        e >= 0 as real,
        forall|p: int| 0 <= p < len ==> size(#[trigger] f(p) - g(p)) <= e,
    ensures
        size(blend_on(f, k, pos, len, n) - blend_on(g, k, pos, len, n)) <= e * weight(k, n),
    decreases n,
{
    if n > 0 {
        lemma_blend_on_near(f, g, k, pos, len, n - 1, e);
        let y = num(k[n - 1]);
        let w0 = weight(k, n - 1);
        assert(e * (w0 + size(y)) == e * w0 + e * size(y) && e * size(y) >= 0 as real)
            by (nonlinear_arith)
            requires
                e >= 0 as real,
        ;
        let p = pos + (n - 1) - k.len() as int / 2;
        if 0 <= p < len {
            let (x, z) = (f(p), g(p));
            let d = x - z;
            assert(x * y - z * y == d * y) by (nonlinear_arith)
                requires
                    d == x - z,
            ;
            assert(size(d * y) <= e * size(y)) by (nonlinear_arith)
                requires
                    size(d) <= e,
            ;
        }
    } else {
        assert(e * 0 as real == 0 as real) by (nonlinear_arith);
    }
}

/// The heights of a row.
pub open spec fn row_heights(data: Seq<Binary32>, w: int, row: int) -> spec_fn(int) -> real {
    |p: int| num(data[row * w + p])
}

/// The means of the rows at a column.
pub open spec fn row_means(data: Seq<Binary32>, w: int, c: int, k: Seq<Binary32>) -> spec_fn(
    int,
) -> real {
    |row: int| mean_on(row_heights(data, w, row), k, c, w)
}

/// A kernel applied along a row.
proof fn lemma_row_filtered(
    data: Seq<Binary32>,
    w: int,
    h: int,
    k: Seq<Binary32>,
    y: int,
    c: int,
    m: real,
    q: real,
    d: real,
)
    requires
        data.len() == w * h,
        0 <= y < h,
        0 <= c < w,
        is_own_kernel(k, m),
        1 as real <= q <= 0x100 as real,
        k.len() as real * q <= 0x1_0000 as real,
        1 as real <= d <= 0x100_0000_0000 as real,
        size(total_on(k, c, w, k.len() as int)) * q >= m,
        forall|i: int| 0 <= i < data.len() ==> (#[trigger] data[i]).is_finite(),
        forall|i: int| 0 <= i < data.len() ==> size(num(#[trigger] data[i])) <= d,
    ensures
        ({
            let r = filtered_rows(data, w, h, k)[y * w + c];
            &&& r.is_finite()
            &&& size(num(r) - row_means(data, w, c, k)(y)) <= 32 as real * (k.len() as real * (q * (
            q * d))) / 0x100_0000 as real
            &&& size(num(r)) <= 2 as real * (q * d)
        }),
{
    lemma_place(w, h, y, c);
    assert forall|p: int| 0 <= p < w implies {
        let v = data[y * w + #[trigger] (p * 1)];
        v.is_finite() && size(num(v)) <= d
    } by {
        lemma_place(w, h, y, p);
    }
    lemma_filtered_at(data, y * w, 1, w, k, c, m, q, d);
    let (f, g) = (on_axis(data, y * w, 1), row_heights(data, w, y));
    assert forall|p: int| 0 <= p < w implies size(#[trigger] f(p) - g(p)) <= 0 as real by {
    }
    let n = k.len() as int;
    lemma_blend_on_near(f, g, k, c, w, n, 0 as real);
    let wt = weight(k, n);
    assert(0 as real * wt == 0 as real) by (nonlinear_arith);
    assert(blend_on(f, k, c, w, n) == blend_on(g, k, c, w, n));
    let (nr, qd) = (k.len() as real, q * d);
    assert(nr * (q * qd) <= 0x1_0000 as real * qd) by (nonlinear_arith)
        requires
            nr * q <= 0x1_0000 as real,
            qd == q * d,
            q >= 0 as real,
            d >= 0 as real,
    ;
}

/// A kernel of one's own makes of every height the mean of those that its weights fall
/// on, along the rows and along the columns, with weights that fall beyond the grid
/// left out. `q` says how far the weights cancel each other: their sizes together are
/// `m`, no more than `q` times what those on the grid add up to.
pub proof fn law_kernel_filter_is_a_weighted_mean(
    data: Seq<Binary32>,
    w: int,
    h: int,
    k: Seq<Binary32>,
    r: int,
    c: int,
    m: real,
    q: real,
    d: real,
)
    requires
        data.len() == w * h,
        0 <= r < h,
        0 <= c < w,
        is_own_kernel(k, m),
        1 as real <= q <= 0x100 as real,
        k.len() as real * q <= 0x1_0000 as real,
        1 as real <= d <= 0x4000_0000 as real,
        size(total_on(k, c, w, k.len() as int)) * q >= m,
        size(total_on(k, r, h, k.len() as int)) * q >= m,
        forall|i: int| 0 <= i < data.len() ==> (#[trigger] data[i]).is_finite(),
        forall|i: int| 0 <= i < data.len() ==> size(num(#[trigger] data[i])) <= d,
    ensures
        ({
            let out = filtered(data, w, h, k);
            let mean = mean_on(row_means(data, w, c, k), k, r, h);
            &&& out.len() == w * h
            &&& out[r * w + c].is_finite()
            &&& size(num(out[r * w + c]) - mean) <= 96 as real * (k.len() as real * (q * (q * (q
                * d)))) / 0x100_0000 as real
        }),
{
    let p = 0x100_0000 as real;
    let n = k.len() as int;
    let nr = k.len() as real;
    let mid = filtered_rows(data, w, h, k);
    lemma_place(w, h, r, c);
    let e = 32 as real * (nr * (q * (q * d))) / p;
    let d2 = 2 as real * (q * d);
    assert(1 as real <= q * d && q * d <= 0x40_0000_0000 as real) by (nonlinear_arith)
        requires
            1 as real <= q,
            q <= 0x100 as real,
            1 as real <= d,
            d <= 0x4000_0000 as real,
    ;
    assert forall|y: int| 0 <= y < h implies {
        let v = mid[c + #[trigger] (y * w)];
        v.is_finite() && size(num(v)) <= d2 && size(num(v) - row_means(data, w, c, k)(y)) <= e
    } by {
        lemma_row_filtered(data, w, h, k, y, c, m, q, d);
    }
    lemma_filtered_at(mid, c, w, h, k, r, m, q, d2);
    let (f, g) = (on_axis(mid, c, w), row_means(data, w, c, k));
    assert forall|y: int| 0 <= y < h implies size(#[trigger] f(y) - g(y)) <= e by {
        assert(mid[c + y * w].is_finite());
    }
    assert(nr * (q * (q * d)) >= 0 as real) by (nonlinear_arith)
        requires
            nr >= 0 as real,
            q >= 0 as real,
            d >= 0 as real,
    ;
    lemma_blend_on_near(f, g, k, r, h, n, e);
    let (wt, b) = (weight(k, n), total_on(k, r, h, n));
    assert(e * wt <= e * m) by (nonlinear_arith)
        requires
            wt <= m,
            e >= 0 as real,
    ;
    assert(size(b) > 0 as real) by (nonlinear_arith)
        requires
            size(b) * q >= m,
            m >= 1 as real,
            q >= 0 as real,
    ;
    lemma_mean_moves(blend_on(f, k, r, h, n), blend_on(g, k, r, h, n), b, m, q, e);
    let all = nr * (q * (q * (q * d)));
    assert(q * e == 32 as real * all / p) by (nonlinear_arith)
        requires
            e == 32 as real * (nr * (q * (q * d))) / p,
            all == nr * (q * (q * (q * d))),
            p > 0 as real,
    ;
    assert(nr * (q * (q * d2)) == 2 as real * all) by (nonlinear_arith)
        requires
            d2 == 2 as real * (q * d),
            all == nr * (q * (q * (q * d))),
    ;
}

/// Weights of zero leave every height alone.
pub proof fn law_empty_kernel_changes_nothing(
    data: Seq<Binary32>,
    base: int,
    stride: int,
    len: int,
    k: Seq<Binary32>,
    pos: int,
)
    requires
        1 <= k.len() <= 0x1000,
        forall|i: int|
            0 <= i < k.len() ==> (#[trigger] k[i]).is_finite() && num(k[i]) == 0 as real,
    ensures
        filtered_at(data, base, stride, len, k, pos) == data[base + pos * stride],
{
    let n = k.len() as int;
    lemma_zero_kernel(k, pos, len, n);
    let t = kernel_sum(k, pos, len, n);
    lemma_epsilon();
    lemma_abs(t);
    law_compare(epsilon(), t.abs());
}

proof fn lemma_zero_kernel(k: Seq<Binary32>, pos: int, len: int, n: int)
    requires
        0 <= n <= k.len(),
        forall|i: int|
            0 <= i < k.len() ==> (#[trigger] k[i]).is_finite() && num(k[i]) == 0 as real,
    ensures
        kernel_sum(k, pos, len, n).is_finite(),
        num(kernel_sum(k, pos, len, n)) == 0 as real,
    decreases n,
{
    if n <= 0 {
        lemma_of_integer_finite(0);
        law_of_integer(0);
    } else {
        lemma_zero_kernel(k, pos, len, n - 1);
        let (s, a) = (kernel_sum(k, pos, len, n - 1), k[n - 1]);
        assert(a.is_finite() && num(a) == 0 as real);
        lemma_finite_plus(s, a);
        law_plus(s, a);
        lemma_rounded_well(0 as real, num(s.plus(a)), 0 as real);
    }
}

} // verus!
