//! What fitting a polynomial gives: the one that leaves nothing for a polynomial of
//! its order to improve on.

use crate::binary::{Binary32, Binary64};
use crate::fitting::{lemma_weight_grows, real_polynomial, real_power, weight};
use crate::float::Width;
use crate::poly::{
    eliminated, fitted, height_sum, is_square, normal_equations, pivot_row, power, power_sum,
    solved, triangular,
};
use crate::reals::{
    grain, law_narrow, law_of_integer64, law_plus64, law_times64, law_widen, lemma_finite_plus64,
    lemma_finite_times64, lemma_grain, lemma_narrow_finite, lemma_whole_double, num, num64, size,
    speck,
};
use crate::solving::{
    dot, fine, is_tame, law_solution_fulfils_the_equations, lemma_fine, lemma_solved_length,
    lemma_tiny, load,
};
use vstd::prelude::*;

verus! {

/// Whether positions are finite and lie between zero and one.
pub open spec fn are_places(x: Seq<Binary32>) -> bool {
    &&& 1 <= x.len() <= 0x10_0000
    &&& forall|i: int| 0 <= i < x.len() ==> (#[trigger] x[i]).is_finite()
    &&& forall|i: int| 0 <= i < x.len() ==> 0 as real <= num(#[trigger] x[i]) <= 1 as real
}

/// Whether heights are finite and no higher than `h`.
pub open spec fn are_heights(y: Seq<Binary32>, h: real) -> bool {
    &&& 1 as real <= h <= 0x100_0000_0000 as real
    &&& forall|i: int| 0 <= i < y.len() ==> (#[trigger] y[i]).is_finite()
    &&& forall|i: int| 0 <= i < y.len() ==> size(num(#[trigger] y[i])) <= h
}

/// The sum of the powers of the first `n` positions.
pub open spec fn real_power_sum(x: Seq<Binary32>, k: int, n: int) -> real
    decreases n,
{
    if n <= 0 {
        0 as real
    } else {
        real_power_sum(x, k, n - 1) + real_power(num(x[n - 1]), k)
    }
}

/// The sum of the first `n` heights times the powers of their positions.
pub open spec fn real_height_sum(x: Seq<Binary32>, y: Seq<Binary32>, k: int, n: int) -> real
    decreases n,
{
    if n <= 0 {
        0 as real
    } else {
        real_height_sum(x, y, k, n - 1) + num(y[n - 1]) * real_power(num(x[n - 1]), k)
    }
}

/// What a polynomial leaves of the first `n` heights, times the powers of their
/// positions.
pub open spec fn moment(
    x: Seq<Binary32>,
    y: Seq<Binary32>,
    c: Seq<Binary32>,
    k: int,
    n: int,
) -> real
    decreases n,
{
    if n <= 0 {
        0 as real
    } else {
        moment(x, y, c, k, n - 1) + real_power(num(x[n - 1]), k) * (num(y[n - 1])
            - real_polynomial(c, num(x[n - 1]), c.len() as int))
    }
}

// ---- the sums ----

proof fn lemma_unit_power(x: real, k: int)
    requires
        0 as real <= x <= 1 as real,
        0 <= k,
    ensures
        0 as real <= real_power(x, k) <= 1 as real,
    decreases k,
{
    if k > 0 {
        lemma_unit_power(x, k - 1);
        let p = real_power(x, k - 1);
        assert(0 as real <= p * x && p * x <= 1 as real) by (nonlinear_arith)
            requires
                0 as real <= p,
                p <= 1 as real,
                0 as real <= x,
                x <= 1 as real,
        ;
    }
}

proof fn lemma_power(x: Binary64, k: int)
    requires
        x.is_finite(),
        0 as real <= num64(x) <= 1 as real,
        0 <= k <= 6,
    ensures
        power(x, k).is_finite(),
        size(num64(power(x, k)) - real_power(num64(x), k)) <= k as real * (2 as real * fine()),
    decreases k,
{
    let (f, s) = (fine(), speck(Width::Double));
    lemma_fine();
    if k <= 0 {
        lemma_whole_double(1);
        law_of_integer64(1);
        assert(0 as real * (2 as real * f) == 0 as real) by (nonlinear_arith);
    } else {
        lemma_power(x, k - 1);
        let p = power(x, k - 1);
        let (a, b, t) = (num64(p), num64(x), real_power(num64(x), k - 1));
        lemma_unit_power(b, k - 1);
        let (k0, k1) = ((k - 1) as real, k as real);
        let e = k0 * (2 as real * f);
        assert(e <= 12 as real * f) by (nonlinear_arith)
            requires
                e == k0 * (2 as real * f),
                k0 <= 6 as real,
                f >= 0 as real,
        ;
        let d = a - t;
        assert(a * b - t * b == d * b) by (nonlinear_arith)
            requires
                d == a - t,
        ;
        assert(size(d * b) <= e) by (nonlinear_arith)
            requires
                size(d) <= e,
                0 as real <= b,
                b <= 1 as real,
        ;
        assert(0 as real <= t * b && t * b <= 1 as real) by (nonlinear_arith)
            requires
                0 as real <= t,
                t <= 1 as real,
                0 as real <= b,
                b <= 1 as real,
        ;
        assert(size(a * b) <= 3 as real / 2 as real);
        lemma_finite_times64(p, x);
        law_times64(p, x);
        assert(size(a * b) * f <= 3 as real / 2 as real * f) by (nonlinear_arith)
            requires
                size(a * b) <= 3 as real / 2 as real,
                f >= 0 as real,
        ;
        assert(k1 * (2 as real * f) == e + 2 as real * f) by (nonlinear_arith)
            requires
                e == k0 * (2 as real * f),
                k1 == k0 + 1 as real,
        ;
    }
}

proof fn lemma_power_sum(x: Seq<Binary32>, k: int, n: int)
    requires
        are_places(x),
        0 <= k <= 6,
        0 <= n <= x.len(),
    ensures
        power_sum(x, k, n).is_finite(),
        0 as real <= real_power_sum(x, k, n) <= n as real,
        size(num64(power_sum(x, k, n)) - real_power_sum(x, k, n)) <= n as real
            / 0x2000_0000 as real,
    decreases n,
{
    let f = fine();
    lemma_fine();
    if n <= 0 {
        lemma_whole_double(0);
        law_of_integer64(0);
    } else {
        lemma_power_sum(x, k, n - 1);
        let a = x[n - 1];
        assert(a.is_finite() && 0 as real <= num(a) <= 1 as real);
        law_widen(a);
        lemma_power(a.widen(), k);
        lemma_unit_power(num(a), k);
        let (s, p) = (power_sum(x, k, n - 1), power(a.widen(), k));
        let kr = k as real;
        assert(kr * (2 as real * f) <= 12 as real * f) by (nonlinear_arith)
            requires
                kr <= 6 as real,
                f >= 0 as real,
        ;
        let g = num64(s) + num64(p);
        assert(size(g) <= 0x20_0000 as real);
        lemma_finite_plus64(s, p);
        law_plus64(s, p);
        assert(size(g) * f <= 0x20_0000 as real * f) by (nonlinear_arith)
            requires
                size(g) <= 0x20_0000 as real,
                f >= 0 as real,
        ;
    }
}

proof fn lemma_height_sum(x: Seq<Binary32>, y: Seq<Binary32>, k: int, n: int, h: real)
    requires
        are_places(x),
        are_heights(y, h),
        x.len() == y.len(),
        0 <= k <= 6,
        0 <= n <= x.len(),
    ensures
        height_sum(x, y, k, n).is_finite(),
        size(real_height_sum(x, y, k, n)) <= n as real * h,
        size(num64(height_sum(x, y, k, n)) - real_height_sum(x, y, k, n)) <= n as real * (h
            / 0x2000_0000 as real),
    decreases n,
{
    let (f, sp) = (fine(), speck(Width::Double));
    let u = h / 0x2000_0000 as real;
    lemma_fine();
    if n <= 0 {
        lemma_whole_double(0);
        law_of_integer64(0);
        assert(0 as real * h == 0 as real && 0 as real * u == 0 as real) by (nonlinear_arith);
    } else {
        lemma_height_sum(x, y, k, n - 1, h);
        let (a, b) = (x[n - 1], y[n - 1]);
        assert(a.is_finite() && 0 as real <= num(a) <= 1 as real);
        assert(b.is_finite() && size(num(b)) <= h);
        law_widen(a);
        law_widen(b);
        lemma_power(a.widen(), k);
        lemma_unit_power(num(a), k);
        let (s, p, v) = (height_sum(x, y, k, n - 1), power(a.widen(), k), b.widen());
        let kr = k as real;
        assert(kr * (2 as real * f) <= 12 as real * f) by (nonlinear_arith)
            requires
                kr <= 6 as real,
                f >= 0 as real,
        ;
        let (z, q, t) = (num(b), num64(p), real_power(num(a), k));
        let d = q - t;
        assert(z * q - z * t == z * d) by (nonlinear_arith)
            requires
                d == q - t,
        ;
        assert(size(z * d) <= h * (12 as real * f)) by (nonlinear_arith)
            requires
                size(z) <= h,
                size(d) <= 12 as real * f,
        ;
        assert(size(z * t) <= h) by (nonlinear_arith)
            requires
                size(z) <= h,
                0 as real <= t,
                t <= 1 as real,
        ;
        let hf = h * f;
        assert(h * (12 as real * f) == 12 as real * hf) by (nonlinear_arith)
            requires
                hf == h * f,
        ;
        assert(hf * 0x100_0000 as real == u) by (nonlinear_arith)
            requires
                hf == h * f,
                u == h / 0x2000_0000 as real,
                f == 1 as real / 0x20_0000_0000_0000 as real,
        ;
        assert(f <= hf) by (nonlinear_arith)
            requires
                hf == h * f,
                h >= 1 as real,
                f >= 0 as real,
        ;
        assert(size(z * q) <= 2 as real * h);
        lemma_finite_times64(v, p);
        law_times64(v, p);
        let m = v.times(p);
        assert(size(z * q) * f <= 2 as real * hf) by (nonlinear_arith)
            requires
                size(z * q) <= 2 as real * h,
                hf == h * f,
                f >= 0 as real,
        ;
        assert(size(num64(m) - z * t) <= 15 as real * hf);
        let (n0, n1) = ((n - 1) as real, n as real);
        assert(n1 * h == n0 * h + h && n1 * u == n0 * u + u) by (nonlinear_arith)
            requires
                n1 == n0 + 1 as real,
        ;
        assert(n0 * h <= 0x10_0000 as real * h && n0 * u <= h) by (nonlinear_arith)
            requires
                n0 <= 0x10_0000 as real,
                n0 >= 0 as real,
                h >= 0 as real,
                u == h / 0x2000_0000 as real,
        ;
        let g = num64(s) + num64(m);
        assert(size(g) <= 0x20_0000 as real * h);
        lemma_finite_plus64(s, m);
        law_plus64(s, m);
        assert(size(g) * f <= 0x20_0000 as real * hf) by (nonlinear_arith)
            requires
                size(g) <= 0x20_0000 as real * h,
                hf == h * f,
                f >= 0 as real,
        ;
    }
}

// ---- the moments ----

/// The coefficients times the sums of the powers from `k` on.
spec fn mix(x: Seq<Binary32>, c: Seq<Binary32>, k: int, n: int, m: int) -> real
    decreases m,
{
    if m <= 0 {
        0 as real
    } else {
        mix(x, c, k, n, m - 1) + num(c[m - 1]) * real_power_sum(x, k + m - 1, n)
    }
}

spec fn shifted(c: Seq<Binary32>, x: real, k: int, m: int) -> real
    decreases m,
{
    if m <= 0 {
        0 as real
    } else {
        shifted(c, x, k, m - 1) + num(c[m - 1]) * real_power(x, k + m - 1)
    }
}

proof fn lemma_powers_add(x: real, j: int, k: int)
    requires
        0 <= j,
        0 <= k,
    ensures
        real_power(x, j) * real_power(x, k) == real_power(x, j + k),
    decreases k,
{
    let a = real_power(x, j);
    if k > 0 {
        lemma_powers_add(x, j, k - 1);
        let b = real_power(x, k - 1);
        assert(a * (b * x) == (a * b) * x) by (nonlinear_arith);
    } else {
        assert(a * 1 as real == a) by (nonlinear_arith);
    }
}

proof fn lemma_shifted(c: Seq<Binary32>, x: real, k: int, m: int)
    requires
        0 <= k,
        0 <= m,
    ensures
        real_power(x, k) * real_polynomial(c, x, m) == shifted(c, x, k, m),
    decreases m,
{
    let a = real_power(x, k);
    if m > 0 {
        lemma_shifted(c, x, k, m - 1);
        lemma_powers_add(x, k, m - 1);
        let (p, q, r) = (real_polynomial(c, x, m - 1), num(c[m - 1]), real_power(x, m - 1));
        assert(a * (p + q * r) == a * p + q * (a * r)) by (nonlinear_arith);
    } else {
        assert(a * 0 as real == 0 as real) by (nonlinear_arith);
    }
}

proof fn lemma_mix_grows(x: Seq<Binary32>, c: Seq<Binary32>, k: int, n: int, m: int)
    requires
        0 < n,
    ensures
        mix(x, c, k, n, m) == mix(x, c, k, n - 1, m) + shifted(c, num(x[n - 1]), k, m),
    decreases m,
{
    if m > 0 {
        lemma_mix_grows(x, c, k, n, m - 1);
        let (q, s, p) = (
            num(c[m - 1]),
            real_power_sum(x, k + m - 1, n - 1),
            real_power(num(x[n - 1]), k + m - 1),
        );
        assert(q * (s + p) == q * s + q * p) by (nonlinear_arith);
    }
}

proof fn lemma_mix_empty(x: Seq<Binary32>, c: Seq<Binary32>, k: int, m: int)
    ensures
        mix(x, c, k, 0, m) == 0 as real,
    decreases m,
{
    if m > 0 {
        lemma_mix_empty(x, c, k, m - 1);
        let q = num(c[m - 1]);
        assert(q * 0 as real == 0 as real) by (nonlinear_arith);
    }
}

proof fn lemma_moment(x: Seq<Binary32>, y: Seq<Binary32>, c: Seq<Binary32>, k: int, n: int)
    requires
        0 <= k,
        0 <= n,
    ensures
        moment(x, y, c, k, n) == real_height_sum(x, y, k, n) - mix(x, c, k, n, c.len() as int),
    decreases n,
{
    let m = c.len() as int;
    if n > 0 {
        lemma_moment(x, y, c, k, n - 1);
        lemma_mix_grows(x, c, k, n, m);
        lemma_shifted(c, num(x[n - 1]), k, m);
        let (p, h, v) = (
            real_power(num(x[n - 1]), k),
            num(y[n - 1]),
            real_polynomial(c, num(x[n - 1]), m),
        );
        assert(p * (h - v) == h * p - p * v) by (nonlinear_arith);
    } else {
        lemma_mix_empty(x, c, k, m);
    }
}

// ---- the fit ----

/// A coefficient is its unknown in single precision.
proof fn lemma_coefficient(x: Binary64, c: Binary32)
    requires
        c == x.narrow(),
        c.is_finite(),
    ensures
        x.is_finite(),
        size(num64(x) - num(c)) <= size(num64(x)) / 0x100_0000 as real + 1 as real
            / 0x100_0000_0000_0000 as real,
        size(num64(x)) <= 2 as real * size(num(c)) + 1 as real / 0x80_0000_0000_0000 as real,
{
    lemma_narrow_finite(x);
    law_narrow(x);
    lemma_grain();
    let (g, sp) = (grain(Width::Single), speck(Width::Single));
    let y = size(num64(x));
    assert(y * g == y / 0x100_0000 as real) by (nonlinear_arith)
        requires
            g == 1 as real / 0x100_0000 as real,
    ;
    assert(sp <= 1 as real / 0x100_0000_0000_0000 as real) by (nonlinear_arith)
        requires
            sp * 0x1000_0000_0000_0000 as real <= g,
            g <= 1 as real,
            sp > 0 as real,
    ;
}

/// The rounded equation is near the true one.
proof fn lemma_row(
    x: Seq<Binary32>,
    row: Seq<Binary64>,
    u: Seq<Binary64>,
    c: Seq<Binary32>,
    k: int,
    m: int,
)
    requires
        are_places(x),
        0 <= k <= 3,
        0 <= m <= 4,
        m <= c.len(),
        m <= u.len(),
        m <= row.len(),
        forall|j: int|
            0 <= j < m ==> #[trigger] row[j] == power_sum(x, k + j, x.len() as int),
        forall|j: int| 0 <= j < m ==> #[trigger] c[j] == u[j].narrow() && c[j].is_finite(),
    ensures
        0 as real <= load(u, 0, m) <= 2 as real * weight(c, m) + m as real
            / 0x80_0000_0000_0000 as real,
        size(dot(row, u, 0, m) - mix(x, c, k, x.len() as int, m)) <= x.len() as real * (load(
            u,
            0,
            m,
        ) / 0x80_0000 as real + m as real / 0x100_0000_0000_0000 as real),
    decreases m,
{
    let n = x.len() as int;
    let nr = x.len() as real;
    if m <= 0 {
        assert(nr * (0 as real / 0x80_0000 as real + 0 as real / 0x100_0000_0000_0000 as real)
            == 0 as real) by (nonlinear_arith);
    } else {
        lemma_row(x, row, u, c, k, m - 1);
        let j = m - 1;
        assert(row[j] == power_sum(x, k + j, n));
        assert(c[j] == u[j].narrow() && c[j].is_finite());
        lemma_coefficient(u[j], c[j]);
        lemma_power_sum(x, k + j, n);
        let (a, s, v, w) = (
            num64(row[j]),
            real_power_sum(x, k + j, n),
            num64(u[j]),
            num(c[j]),
        );
        let tiny = 1 as real / 0x100_0000_0000_0000 as real;
        let (d, e) = (a - s, v - w);
        assert(a * v - w * s == d * v + s * e) by (nonlinear_arith)
            requires
                d == a - s,
                e == v - w,
        ;
        assert(size(d * v) <= nr / 0x2000_0000 as real * size(v)) by (nonlinear_arith)
            requires
                size(d) <= nr / 0x2000_0000 as real,
        ;
        assert(size(s * e) <= nr * (size(v) / 0x100_0000 as real + tiny)) by (nonlinear_arith)
            requires
                0 as real <= s,
                s <= nr,
                size(e) <= size(v) / 0x100_0000 as real + tiny,
        ;
        let l = load(u, 0, m - 1);
        let nv = nr * size(v);
        assert(nv >= 0 as real) by (nonlinear_arith)
            requires
                nv == nr * size(v),
                nr >= 0 as real,
        ;
        assert(nr / 0x2000_0000 as real * size(v) == nv / 0x2000_0000 as real) by (nonlinear_arith)
            requires
                nv == nr * size(v),
        ;
        assert(nr * (size(v) / 0x100_0000 as real + tiny) == nv / 0x100_0000 as real + nr * tiny)
            by (nonlinear_arith)
            requires
                nv == nr * size(v),
        ;
        let (m0, m1) = ((m - 1) as real, m as real);
        assert(nr * ((l + size(v)) / 0x80_0000 as real + m1 / 0x100_0000_0000_0000 as real) == nr
            * (l / 0x80_0000 as real + m0 / 0x100_0000_0000_0000 as real) + nv / 0x80_0000 as real
            + nr * tiny) by (nonlinear_arith)
            requires
                nv == nr * size(v),
                m1 == m0 + 1 as real,
                tiny == 1 as real / 0x100_0000_0000_0000 as real,
        ;
    }
}

/// A fitted polynomial leaves nothing that a polynomial of its order could take: what
/// it leaves of the heights, times any power of the positions up to its order, adds up
/// to zero, but for rounding. That is what makes it the least-squares fit.
pub proof fn law_fit_is_the_least_squares_fit(
    x: Seq<Binary32>,
    y: Seq<Binary32>,
    order: nat,
    h: real,
    k: int,
)
    requires
        are_places(x),
        are_heights(y, h),
        x.len() == y.len(),
        fitted(x, y, order) is Ok,
        0 <= k <= order,
        forall|j: int|
            0 <= j < fitted(x, y, order)->Ok_0.len() ==> (#[trigger] fitted(
                x,
                y,
                order,
            )->Ok_0[j]).is_finite(),
        weight(fitted(x, y, order)->Ok_0, order as int + 1) <= 0x400_0000_0000 as real,
    ensures
        ({
            let c = fitted(x, y, order)->Ok_0;
            &&& c.len() == order + 1
            &&& size(moment(x, y, c, k, x.len() as int)) <= x.len() as real * (weight(
                c,
                order as int + 1,
            ) + h) / 0x10_0000 as real
        }),
{
    let n = x.len() as int;
    let nr = x.len() as real;
    let m = order as int + 1;
    let s = normal_equations(x, y, m);
    let c = fitted(x, y, order)->Ok_0;
    let u = solved(s)->Ok_0;
    let wc = weight(c, m);
    assert(c =~= Seq::new(u.len(), |i: int| u[i].narrow()));
    let (g, b) = (2 as real * nr, 2 as real * (nr * h));
    assert(nr <= nr * h && nr * h <= 0x1000_0000_0000_0000 as real) by (nonlinear_arith)
        requires
            1 as real <= nr,
            nr <= 0x10_0000 as real,
            1 as real <= h,
            h <= 0x100_0000_0000 as real,
    ;
    assert(is_tame(s, 0, g, b)) by {
        assert forall|i: int, j: int| 0 <= i < m && 0 <= j < m implies (
        #[trigger] s.a[i][j]).is_finite() && size(num64(s.a[i][j])) <= g by {
            lemma_power_sum(x, i + j, n);
        }
        assert forall|i: int| 0 <= i < m implies (#[trigger] s.b[i]).is_finite() && size(
            num64(s.b[i]),
        ) <= b by {
            lemma_height_sum(x, y, i, n, h);
            assert(nr * (h / 0x2000_0000 as real) <= nr * h) by (nonlinear_arith)
                requires
                    nr >= 0 as real,
                    h >= 0 as real,
            ;
        }
    }
    lemma_solved_length(s);
    assert forall|j: int| 0 <= j < m implies #[trigger] c[j] == u[j].narrow() && c[j].is_finite() by {
        assert(fitted(x, y, order)->Ok_0[j].is_finite());
    }
    assert forall|j: int| 0 <= j < u.len() implies (#[trigger] u[j]).is_finite() by {
        assert(c[j] == u[j].narrow() && c[j].is_finite());
        lemma_narrow_finite(u[j]);
    }
    assert forall|j: int| 0 <= j < m implies #[trigger] s.a[k][j] == power_sum(x, k + j, n) by {
    }
    lemma_row(x, s.a[k], u, c, k, m);
    let w = 2 as real * wc + 1 as real;
    assert(load(u, 0, m) <= w);
    lemma_weight_grows(c, 0, m);
    law_solution_fulfils_the_equations(s, u, g, b, w, k);
    lemma_height_sum(x, y, k, n, h);
    lemma_moment(x, y, c, k, n);
    let l = load(u, 0, m);
    let (nw, nh, nc) = (nr * w, nr * h, nr * wc);
    assert(nr * (l / 0x80_0000 as real + m as real / 0x100_0000_0000_0000 as real) <= nw
        / 0x80_0000 as real + nr / 0x1000_0000_0000 as real) by (nonlinear_arith)
        requires
            nw == nr * w,
            l <= w,
            m as real <= 4 as real,
            nr >= 0 as real,
    ;
    assert(g * w == 2 as real * nw) by (nonlinear_arith)
        requires
            g == 2 as real * nr,
            nw == nr * w,
    ;
    assert(nr * (h / 0x2000_0000 as real) == nh / 0x2000_0000 as real) by (nonlinear_arith)
        requires
            nh == nr * h,
    ;
    assert(nw == 2 as real * nc + nr) by (nonlinear_arith)
        requires
            nw == nr * w,
            w == 2 as real * wc + 1 as real,
            nc == nr * wc,
    ;
    assert(w <= nw) by (nonlinear_arith)
        requires
            nw == nr * w,
            nr >= 1 as real,
            w >= 0 as real,
    ;
    assert(nr * (wc + h) == nc + nh) by (nonlinear_arith)
        requires
            nc == nr * wc,
            nh == nr * h,
    ;
    assert(nc >= 0 as real) by (nonlinear_arith)
        requires
            nc == nr * wc,
            nr >= 0 as real,
            wc >= 0 as real,
    ;
}

/// A level can be fitted to every line.
pub proof fn law_level_is_always_found(x: Seq<Binary32>, y: Seq<Binary32>)
    requires
        are_places(x),
        x.len() == y.len(),
    ensures
        fitted(x, y, 0) is Ok,
        fitted(x, y, 0)->Ok_0.len() == 1,
{
    let n = x.len() as int;
    let s = normal_equations(x, y, 1);
    lemma_power_sum(x, 0, n);
    lemma_ones(x, n);
    assert(s.a[0][0] == power_sum(x, 0, n));
    lemma_tiny(s.a[0][0]);
    assert(is_square(s));
    assert(pivot_row(s.a, 0, 1) == 0);
    assert(triangular(s, 0) == Some(s));
    assert(eliminated(s, 0) is Some);
    assert(triangular(s, 1) is Some);
    lemma_solved_length(s);
}

proof fn lemma_ones(x: Seq<Binary32>, n: int)
    requires
        0 <= n,
    ensures
        real_power_sum(x, 0, n) == n as real,
    decreases n,
{
    if n > 0 {
        lemma_ones(x, n - 1);
    }
}

} // verus!
