//! What smoothing does: every height becomes a weighted mean of those around it.

use crate::binary::Binary32;
use crate::drawn_line::{lemma_rounded, lemma_rounded_well};
use crate::fitting::{lemma_finite_times_zero, lemma_rounded_small, lemma_weight_grows, weight};
use crate::float::Width;
use crate::grid::lemma_place;
use crate::order::{law_scaling_keeps_order, lemma_integer_finite, lemma_zero};
use crate::profile::lemma_zero_times;
use crate::reals::{
    grain, law_ceiling, law_compare, law_of_integer, law_over, law_plus, law_times,
    lemma_finite_plus, lemma_finite_times, lemma_grain, lemma_of_integer_finite,
    lemma_quotient_finite, num, size,
};
use crate::scaling::lemma_product_commutes;
use crate::smooth::{
    normalised, reach, smoothed, smoothed_columns, smoothed_rows, tap, total, weighted,
};
use vstd::prelude::*;

verus! {

/// The sum of the first `n` numbers of a list times their weights.
pub open spec fn blend_of(f: spec_fn(int) -> real, k: Seq<Binary32>, n: int) -> real
    decreases n,
{
    if n <= 0 {
        0 as real
    } else {
        blend_of(f, k, n - 1) + f(n - 1) * num(k[n - 1])
    }
}

/// A position, or the nearest one of those from 0 to `len - 1`.
pub open spec fn held(v: int, len: int) -> int {
    if v < 0 {
        0
    } else if v >= len {
        len - 1
    } else {
        v
    }
}

proof fn lemma_blend_bound(f: spec_fn(int) -> real, k: Seq<Binary32>, n: int, b: real)
    requires
        0 <= n,
        b >= 0 as real,
        forall|i: int| 0 <= i < n ==> size(#[trigger] f(i)) <= b,
    ensures
        size(blend_of(f, k, n)) <= b * weight(k, n),
        weight(k, n) >= 0 as real,
    decreases n,
{
    if n > 0 {
        lemma_blend_bound(f, k, n - 1, b);
        let (x, y) = (f(n - 1), num(k[n - 1]));
        assert(size(x * y) <= b * size(y)) by (nonlinear_arith)
            requires
                size(x) <= b,
        ;
        let (w0, w1) = (weight(k, n - 1), weight(k, n));
        assert(b * w1 == b * w0 + b * size(y)) by (nonlinear_arith)
            requires
                w1 == w0 + size(y),
        ;
    } else {
        assert(b * 0 as real == 0 as real) by (nonlinear_arith);
    }
}

/// Near numbers have near weighted sums.
pub(crate) proof fn lemma_blend_near(
    f: spec_fn(int) -> real,
    g: spec_fn(int) -> real,
    k: Seq<Binary32>,
    n: int,
    e: real,
)
    requires
        0 <= n,
        e >= 0 as real,
        forall|i: int| 0 <= i < n ==> size(#[trigger] f(i) - g(i)) <= e,
    ensures
        size(blend_of(f, k, n) - blend_of(g, k, n)) <= e * weight(k, n),
    decreases n,
{
    if n > 0 {
        lemma_blend_near(f, g, k, n - 1, e);
        let (x, z, y) = (f(n - 1), g(n - 1), num(k[n - 1]));
        assert(x * y - z * y == (x - z) * y) by (nonlinear_arith);
        let d = x - z;
        assert(size(d * y) <= e * size(y)) by (nonlinear_arith)
            requires
                size(d) <= e,
        ;
        let (w0, w1) = (weight(k, n - 1), weight(k, n));
        assert(e * w1 == e * w0 + e * size(y)) by (nonlinear_arith)
            requires
                w1 == w0 + size(y),
        ;
    } else {
        assert(e * 0 as real == 0 as real) by (nonlinear_arith);
    }
}

/// Whether weights are fit for use: finite, not too many, and together no more than
/// two.
pub open spec fn is_kernel(k: Seq<Binary32>) -> bool {
    &&& k.len() <= 0x10_0000
    &&& forall|i: int| 0 <= i < k.len() ==> (#[trigger] k[i]).is_finite()
    &&& weight(k, k.len() as int) <= 2 as real
}

/// One rounded weighted sum is near the true one.
proof fn lemma_weighted(
    data: Seq<Binary32>,
    base: int,
    stride: int,
    len: int,
    k: Seq<Binary32>,
    radius: int,
    pos: int,
    n: int,
    b: real,
)
    requires
        is_kernel(k),
        0 <= n <= k.len(),
        1 as real <= b <= 0x100_0000_0000 as real,
        forall|i: int|
            0 <= i < k.len() ==> {
                let v = data[base + #[trigger] tap(pos, i, radius, len) * stride];
                v.is_finite() && size(num(v)) <= b
            },
    ensures
        ({
            let f = |i: int| num(data[base + tap(pos, i, radius, len) * stride]);
            let r = weighted(data, base, stride, len, k, radius, pos, n);
            &&& r.is_finite()
            &&& size(num(r) - blend_of(f, k, n)) <= n as real * (8 as real * b) / 0x100_0000 as real
            &&& size(blend_of(f, k, n)) <= 2 as real * b
        }),
    decreases n,
{
    let w = 0x100_0000 as real;
    let f = |i: int| num(data[base + tap(pos, i, radius, len) * stride]);
    lemma_weight_grows(k, n, k.len() as int);
    lemma_blend_bound(f, k, n, b);
    let wn = weight(k, n);
    assert(b * wn <= 2 as real * b) by (nonlinear_arith)
        requires
            wn <= 2 as real,
            b >= 0 as real,
    ;
    if n <= 0 {
        lemma_of_integer_finite(0);
        law_of_integer(0);
        assert(0 as real * (8 as real * b) / w == 0 as real) by (nonlinear_arith)
            requires
                w > 0 as real,
        ;
    } else {
        lemma_weighted(data, base, stride, len, k, radius, pos, n - 1, b);
        let s = weighted(data, base, stride, len, k, radius, pos, n - 1);
        let v = data[base + tap(pos, n - 1, radius, len) * stride];
        let a = k[n - 1];
        assert(a.is_finite());
        let (x, y) = (num(v), num(a));
        lemma_weight_grows(k, 0, n - 1);
        assert(size(y) <= 2 as real);
        assert(size(x * y) <= 2 as real * b) by (nonlinear_arith)
            requires
                size(x) <= b,
                size(y) <= 2 as real,
        ;
        lemma_finite_times(v, a);
        law_times(v, a);
        let m = v.times(a);
        lemma_rounded_small(x * y, num(m), 2 as real * b);
        let before = blend_of(f, k, n - 1);
        let e0 = (n - 1) as real * (8 as real * b) / w;
        assert(e0 <= b) by (nonlinear_arith)
            requires
                e0 == (n - 1) as real * (8 as real * b) / w,
                (n - 1) as real <= 0x10_0000 as real,
                w == 0x100_0000 as real,
                b >= 0 as real,
        ;
        let sum = num(s) + num(m);
        assert(size(sum - (before + x * y)) <= e0 + 2 as real * b / w + 1 as real
            / 0x100_0000_0000_0000 as real);
        assert(size(sum) <= 4 as real * b);
        lemma_finite_plus(s, m);
        law_plus(s, m);
        lemma_rounded_well(sum, num(s.plus(m)), 4 as real * b);
        let e1 = n as real * (8 as real * b) / w;
        assert(e1 == e0 + 8 as real * b / w) by (nonlinear_arith)
            requires
                e0 == (n - 1) as real * (8 as real * b) / w,
                e1 == n as real * (8 as real * b) / w,
                (n - 1) as real == n as real - 1 as real,
                w > 0 as real,
        ;
        assert(f(n - 1) == x);
    }
}

/// Smoothing makes of every height a mean of the heights around it, weighted along
/// the rows and along the columns with the same weights; beyond an edge the edge
/// counts. `exps` are the weights before they are divided by their sum.
pub proof fn law_smoothing_is_a_weighted_mean(
    data: Seq<Binary32>,
    w: int,
    h: int,
    sigma: Binary32,
    exps: Seq<Binary32>,
    r: int,
    c: int,
    b: real,
)
    requires
        !sigma.at_most(Binary32::of_integer(0)),
        0 <= r < h,
        0 <= c < w,
        data.len() == w * h,
        is_kernel(normalised(exps)),
        1 as real <= b <= 0x10_0000_0000 as real,
        forall|i: int| 0 <= i < data.len() ==> (#[trigger] data[i]).is_finite(),
        forall|i: int| 0 <= i < data.len() ==> size(num(#[trigger] data[i])) <= b,
    ensures
        ({
            let k = normalised(exps);
            let n = k.len() as int;
            let reached = reach(sigma);
            let out = smoothed(data, w, h, sigma, exps);
            let mean = blend_of(
                |i: int|
                    blend_of(
                        |j: int|
                            num(data[held(r + i - reached, h) * w + held(c + j - reached, w)]),
                        k,
                        n,
                    ),
                k,
                n,
            );
            &&& out.len() == w * h
            &&& out[r * w + c].is_finite()
            &&& size(num(out[r * w + c]) - mean) <= n as real * (48 as real * b)
                / 0x100_0000 as real
        }),
{
    let k = normalised(exps);
    let n = k.len() as int;
    let radius = reach(sigma);
    let p = 0x100_0000 as real;
    let mid = smoothed_rows(data, w, h, k, radius);
    let out = smoothed_columns(mid, w, h, k, radius);
    let e = n as real * (8 as real * b) / p;
    assert(0 as real <= e && e <= b) by (nonlinear_arith)
        requires
            e == n as real * (8 as real * b) / p,
            0 as real <= n as real,
            n as real <= 0x10_0000 as real,
            p == 0x100_0000 as real,
            b >= 0 as real,
    ;
    // the first pass
    assert forall|y: int, x: int| 0 <= y < h && 0 <= x < w implies {
        let m = #[trigger] mid[y * w + x];
        let true_m = blend_of(|j: int| num(data[y * w + held(x + j - radius, w)]), k, n);
        m.is_finite() && size(num(m) - true_m) <= e && size(num(m)) <= 3 as real * b
    } by {
        lemma_place(w, h, y, x);
        assert forall|i: int| 0 <= i < k.len() implies {
            let v = data[y * w + #[trigger] tap(x, i, radius, w) * 1];
            v.is_finite() && size(num(v)) <= b
        } by {
            lemma_place(w, h, y, tap(x, i, radius, w));
        }
        lemma_weighted(data, y * w, 1, w, k, radius, x, n, b);
        let f = |i: int| num(data[y * w + tap(x, i, radius, w) * 1]);
        let g = |j: int| num(data[y * w + held(x + j - radius, w)]);
        lemma_same(f, g, k, n);
    }
    // the second pass
    lemma_place(w, h, r, c);
    assert forall|i: int| 0 <= i < k.len() implies {
        let v = mid[c + #[trigger] tap(r, i, radius, h) * w];
        v.is_finite() && size(num(v)) <= 3 as real * b
    } by {
        let y = tap(r, i, radius, h);
        lemma_place(w, h, y, c);
        assert(mid[y * w + c].is_finite());
    }
    lemma_weighted(mid, c, w, h, k, radius, r, n, 3 as real * b);
    let f = |i: int| num(mid[c + tap(r, i, radius, h) * w]);
    let g = |i: int|
        blend_of(
            |j: int| num(data[held(r + i - radius, h) * w + held(c + j - radius, w)]),
            k,
            n,
        );
    assert forall|i: int| 0 <= i < n implies size(#[trigger] f(i) - g(i)) <= e by {
        let y = tap(r, i, radius, h);
        assert(y == held(r + i - radius, h));
        lemma_place(w, h, y, c);
        assert(size(num(mid[y * w + c]) - g(i)) <= e);
    }
    lemma_blend_near(f, g, k, n, e);
    let wk = weight(k, n);
    assert(e * wk <= 2 as real * e) by (nonlinear_arith)
        requires
            wk <= 2 as real,
            e >= 0 as real,
    ;
    assert(n as real * (8 as real * (3 as real * b)) / p == 3 as real * e) by (nonlinear_arith)
        requires
            e == n as real * (8 as real * b) / p,
            p > 0 as real,
    ;
    assert(n as real * (48 as real * b) / p == 6 as real * e) by (nonlinear_arith)
        requires
            e == n as real * (8 as real * b) / p,
            p > 0 as real,
    ;
}

pub(crate) proof fn lemma_same(
    f: spec_fn(int) -> real,
    g: spec_fn(int) -> real,
    k: Seq<Binary32>,
    n: int,
)
    requires
        forall|i: int| 0 <= i < n ==> #[trigger] f(i) == g(i),
    ensures
        blend_of(f, k, n) == blend_of(g, k, n),
    decreases n,
{
    if n > 0 {
        lemma_same(f, g, k, n - 1);
        assert(f(n - 1) == g(n - 1));
    }
}

// ---- the weights ----

/// The sum of the first `n` numbers.
pub open spec fn real_total(s: Seq<Binary32>, n: int) -> real
    decreases n,
{
    if n <= 0 {
        0 as real
    } else {
        real_total(s, n - 1) + num(s[n - 1])
    }
}

proof fn lemma_total(s: Seq<Binary32>, n: int)
    requires
        0 <= n <= s.len(),
        s.len() <= 0x1000,
        forall|i: int|
            0 <= i < s.len() ==> (#[trigger] s[i]).is_finite() && 0 as real <= num(s[i])
                <= 1 as real,
    ensures
        total(s, n).is_finite(),
        0 as real <= real_total(s, n) <= n as real,
        size(num(total(s, n)) - real_total(s, n)) <= real_total(s, n) * (n as real * 2 as real)
            / 0x100_0000 as real,
    decreases n,
{
    let w = 0x100_0000 as real;
    if n <= 0 {
        lemma_of_integer_finite(0);
        law_of_integer(0);
        assert(0 as real * (0 as real * 2 as real) / w == 0 as real) by (nonlinear_arith)
            requires
                w > 0 as real,
        ;
    } else {
        lemma_total(s, n - 1);
        let (a, b) = (total(s, n - 1), s[n - 1]);
        let (r0, r1, x) = (real_total(s, n - 1), real_total(s, n), num(b));
        let n0 = (n - 1) as real;
        let e0 = r0 * (n0 * 2 as real) / w;
        assert(0 as real <= e0 && e0 <= r0 / 0x100 as real) by (nonlinear_arith)
            requires
                e0 == r0 * (n0 * 2 as real) / w,
                0 as real <= n0,
                n0 <= 0x1000 as real,
                w == 0x100_0000 as real,
                r0 >= 0 as real,
        ;
        let y = num(a) + x;
        assert(size(y) <= 2 as real * r1);
        lemma_finite_plus(a, b);
        law_plus(a, b);
        assert(size(y - r1) <= e0);
        lemma_grain();
        let g = grain(Width::Single);
        let z = size(y) * g;
        assert(z <= (r1 + e0) / w) by (nonlinear_arith)
            requires
                z == size(y) * g,
                size(y) <= r1 + e0,
                g == 1 as real / w,
                w > 0 as real,
        ;
        let e1 = r1 * (n as real * 2 as real) / w;
        assert(e1 >= e0 + 2 as real * r1 / w) by (nonlinear_arith)
            requires
                e1 == r1 * (n as real * 2 as real) / w,
                e0 == r0 * (n0 * 2 as real) / w,
                n as real == n0 + 1 as real,
                r1 >= r0,
                r0 >= 0 as real,
                n0 >= 0 as real,
                w > 0 as real,
        ;
        assert((r1 + e0) / w <= 2 as real * r1 / w);
    }
}

/// Each weight is its exponential over the sum of them all, but for rounding.
pub proof fn law_weights_are_shares_of_their_sum(exps: Seq<Binary32>, i: int)
    requires
        0 <= i < exps.len() <= 0x1000,
        forall|j: int|
            0 <= j < exps.len() ==> (#[trigger] exps[j]).is_finite() && 0 as real <= num(exps[j])
                <= 1 as real,
        real_total(exps, exps.len() as int) >= 2 as real,
    ensures
        ({
            let n = exps.len() as int;
            let k = normalised(exps);
            let true_k = num(exps[i]) / real_total(exps, n);
            &&& k.len() == n
            &&& k[i].is_finite()
            &&& size(num(k[i]) - true_k) <= 4 as real * (n as real + 1 as real)
                / 0x100_0000 as real
        }),
{
    let n = exps.len() as int;
    let w = 0x100_0000 as real;
    lemma_total(exps, n);
    let (t, s) = (total(exps, n), real_total(exps, n));
    let (x, y, nr) = (num(exps[i]), num(t), n as real);
    assert(exps[i].is_finite() && 0 as real <= num(exps[i]) <= 1 as real);
    let e = s * (nr * 2 as real) / w;
    assert(e <= s / 0x100 as real) by (nonlinear_arith)
        requires
            e == s * (nr * 2 as real) / w,
            0 as real <= nr,
            nr <= 0x1000 as real,
            w == 0x100_0000 as real,
            s >= 0 as real,
    ;
    assert(y >= 1 as real && 2 as real * y >= s);
    lemma_quotient_finite(exps[i], t);
    law_over(exps[i], t);
    let (q, z) = (x / y, x / s);
    assert(0 as real <= q && q <= 1 as real) by (nonlinear_arith)
        requires
            q == x / y,
            0 as real <= x,
            x <= 1 as real,
            y >= 1 as real,
    ;
    assert(size(q - z) <= 2 as real * (nr * 2 as real) / w) by {
        assert(q - z == x * (s - y) / (y * s)) by (nonlinear_arith)
            requires
                q == x / y,
                z == x / s,
                y >= 1 as real,
                s >= 1 as real,
        ;
        let d = s - y;
        let v = x * d / (y * s);
        assert(v * (y * s) == x * d && y * s > 0 as real) by (nonlinear_arith)
            requires
                v == x * d / (y * s),
                y >= 1 as real,
                s >= 1 as real,
        ;
        assert(size(x * d) <= e) by (nonlinear_arith)
            requires
                size(d) <= e,
                0 as real <= x,
                x <= 1 as real,
        ;
        let ys = y * s;
        assert(ys >= s) by (nonlinear_arith)
            requires
                ys == y * s,
                y >= 1 as real,
                s >= 0 as real,
        ;
        let k = nr * 2 as real / w;
        assert(e == s * k) by (nonlinear_arith)
            requires
                e == s * (nr * 2 as real) / w,
                k == nr * 2 as real / w,
                w > 0 as real,
        ;
        assert(size(v) <= k) by (nonlinear_arith)
            requires
                v * ys == x * d,
                size(x * d) <= s * k,
                ys >= s,
                s >= 1 as real,
                k >= 0 as real,
        ;
    }
    lemma_rounded(q, num(normalised(exps)[i]), 1 as real);
}

/// A Gaussian reaches three times its width to either side, rounded up.
pub proof fn law_reach_is_three_widths(sigma: Binary32)
    requires
        sigma.is_finite(),
        0 as real <= num(sigma) <= 0x10_0000 as real,
    ensures
        ({
            let r = reach(sigma);
            &&& r as real >= 3 as real * num(sigma) - 1 as real / 2 as real
            &&& (r - 1) as real <= 3 as real * num(sigma) + 1 as real / 2 as real
        }),
{
    let three = Binary32::of_integer(3);
    lemma_of_integer_finite(3);
    law_of_integer(3);
    lemma_of_integer_finite(0);
    law_of_integer(0);
    let x = num(sigma);
    lemma_finite_times(three, sigma);
    law_times(three, sigma);
    let t = three.times(sigma);
    lemma_rounded_small(3 as real * x, num(t), 0x30_0000 as real);
    assert(num(t) >= 0 as real) by {
        lemma_integer_finite(3);
        lemma_zero();
        law_compare(Binary32::of_integer(0), sigma);
        law_scaling_keeps_order(Binary32::of_integer(0), sigma, three);
        lemma_zero_times(three);
        lemma_finite_times_zero(three);
        lemma_product_commutes(Width::Single, sigma.parts(), three.parts());
        law_compare(Binary32::of_integer(0).times(three), sigma.times(three));
        law_compare(Binary32::of_integer(0).times(three), Binary32::of_integer(0));
    }
    assert((usize::MAX as int) as real >= 0xffff_ffff as real);
    law_ceiling(t, 0, usize::MAX as int);
}

} // verus!
