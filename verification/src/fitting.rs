//! What flattening takes away from a line: a polynomial in the position, which
//! runs evenly from 0 to 1.

use crate::binary::Binary32;
use crate::drawn_line::{lemma_rounded, lemma_rounded_well};
use crate::float::Width;
use crate::order::{
    law_conversion_keeps_order, law_one, law_quotient_keeps_order, law_scaling_keeps_order,
    lemma_integer_finite, lemma_zero_quotient,
};
use crate::poly::{fitted, flat_line, flat_lines, flattened, polynomial, positions, single_power};
use crate::profile::lemma_zero_times;
use crate::reals::{
    grain, law_compare, law_minus, law_of_integer, law_over, law_plus, law_times,
    lemma_finite_minus, lemma_finite_plus, lemma_finite_times, lemma_grain, lemma_of_integer_finite,
    lemma_quotient_finite, num, rounds_to, size, speck,
};
use vstd::prelude::*;

verus! {

// ---- positions ----

/// Where sample `i` of `n` lies along a line that runs from 0 to 1.
pub open spec fn place(i: int, n: int) -> real {
    i as real / (n - 1) as real
}

proof fn lemma_place(i: int, j: int, n: int)
    requires
        0 <= i <= j < n,
        n >= 2,
    ensures
        0 as real <= place(i, n),
        place(i, n) <= place(j, n),
        place(j, n) <= 1 as real,
        (place(j, n) - place(i, n)) * (n - 1) as real == (j - i) as real,
{
    let (x, y, d) = (i as real, j as real, (n - 1) as real);
    assert(0 as real <= x / d && x / d <= y / d && y / d <= 1 as real && (y / d - x / d) * d == y
        - x) by (nonlinear_arith)
        requires
            0 as real <= x,
            x <= y,
            y <= d,
            d > 0 as real,
    ;
}

/// The positions of a line run evenly from 0 to 1: position `i` of `n` is the
/// quotient of `i` by `n - 1`, but for rounding; the first is 0 and the last is 1,
/// none lies before the one before it, and on lines of up to four million samples
/// each lies behind it.
pub proof fn law_positions_are_even(n: nat, i: int)
    requires
        2 <= n <= 0x1_0000_0000_0000_0000,
        0 <= i < n,
    ensures
        positions(n).len() == n,
        positions(n)[i].is_finite(),
        0 as real <= num(positions(n)[i]) <= 1 as real,
        size(num(positions(n)[i]) - place(i, n as int)) <= 8 as real / 0x100_0000 as real,
        n <= 0x100_0000 ==> rounds_to(
            Width::Single,
            place(i, n as int),
            num(positions(n)[i]),
        ),
        num(positions(n)[0]) == 0 as real,
        num(positions(n)[n - 1]) == 1 as real,
        i + 1 < n ==> num(positions(n)[i]) <= num(positions(n)[i + 1]),
        i + 1 < n <= 0x40_0000 ==> num(positions(n)[i]) < num(positions(n)[i + 1]),
{
    lemma_position(n, i);
    lemma_ends(n);
    if i + 1 < n {
        lemma_position(n, i + 1);
        lemma_steps(n, i);
        if n <= 0x40_0000 {
            lemma_place(i, i + 1, n as int);
            let (x, y, d) = (place(i, n as int), place(i + 1, n as int), (n - 1) as real);
            assert(y - x >= 4 as real / 0x100_0000 as real) by (nonlinear_arith)
                requires
                    (y - x) * d == 1 as real,
                    d > 0 as real,
                    d <= 0x40_0000 as real,
            ;
            lemma_tight(n, i);
            lemma_tight(n, i + 1);
        }
    }
}

proof fn lemma_tight(n: nat, i: int)
    requires
        2 <= n <= 0x100_0000,
        0 <= i < n,
        rounds_to(Width::Single, place(i, n as int), num(positions(n)[i])),
    ensures
        size(num(positions(n)[i]) - place(i, n as int)) * 2 as real <= 3 as real
            / 0x100_0000 as real,
{
    lemma_place(i, i, n as int);
    lemma_grain();
    let (x, g, sp) = (place(i, n as int), grain(Width::Single), speck(Width::Single));
    assert(x * g <= g) by (nonlinear_arith)
        requires
            0 as real <= x <= 1 as real,
            g > 0 as real,
    ;
    assert(sp * 2 as real <= g) by (nonlinear_arith)
        requires
            sp * 0x1000_0000_0000_0000 as real <= g,
            sp > 0 as real,
    ;
}

proof fn lemma_steps(n: nat, i: int)
    requires
        2 <= n <= 0x1_0000_0000_0000_0000,
        0 <= i,
        i + 1 < n,
        positions(n)[i].is_finite(),
        positions(n)[i + 1].is_finite(),
    ensures
        num(positions(n)[i]) <= num(positions(n)[i + 1]),
{
    let b = Binary32::of_integer(n - 1);
    lemma_integer_finite(n - 1);
    law_conversion_keeps_order(i, i + 1);
    law_quotient_keeps_order(
        Binary32::of_integer(i),
        Binary32::of_integer(i + 1),
        b,
    );
    law_compare(positions(n)[i], positions(n)[i + 1]);
}

proof fn lemma_ends(n: nat)
    requires
        2 <= n <= 0x1_0000_0000_0000_0000,
    ensures
        num(positions(n)[0]) == 0 as real,
        num(positions(n)[n - 1]) == 1 as real,
{
    let b = Binary32::of_integer(n - 1);
    lemma_integer_finite(n - 1);
    law_one(b, b);
    lemma_zero_quotient(b);
    lemma_of_integer_finite(0);
    lemma_of_integer_finite(1);
    law_of_integer(0);
    law_of_integer(1);
}

proof fn lemma_position(n: nat, i: int)
    requires
        2 <= n <= 0x1_0000_0000_0000_0000,
        0 <= i < n,
    ensures
        positions(n)[i].is_finite(),
        0 as real <= num(positions(n)[i]) <= 1 as real,
        size(num(positions(n)[i]) - place(i, n as int)) <= 8 as real / 0x100_0000 as real,
        n <= 0x100_0000 ==> rounds_to(
            Width::Single,
            place(i, n as int),
            num(positions(n)[i]),
        ),
{
    let (a, b) = (Binary32::of_integer(i), Binary32::of_integer(n - 1));
    let w = 0x100_0000 as real;
    lemma_of_integer_finite(i);
    lemma_of_integer_finite(n - 1);
    law_of_integer(i);
    law_of_integer(n - 1);
    lemma_place(i, i, n as int);
    let (k, d, x, y) = (i as real, (n - 1) as real, num(a), num(b));
    let t = place(i, n as int);
    lemma_rounded_well(k, x, k);
    lemma_rounded_well(d, y, d);
    assert(k == t * d) by (nonlinear_arith)
        requires
            t == k / d,
            d > 0 as real,
    ;
    assert(1 as real <= d);
    assert(y >= 1 as real) by {
        lemma_of_integer_finite(1);
        law_of_integer(1);
        law_conversion_keeps_order(1, n - 1);
        law_compare(Binary32::of_integer(1), b);
    }
    assert(x / y <= 1 as real && 0 as real <= x / y) by {
        lemma_of_integer_finite(0);
        law_of_integer(0);
        law_conversion_keeps_order(i, n - 1);
        law_conversion_keeps_order(0, i);
        law_compare(a, b);
        law_compare(Binary32::of_integer(0), a);
        assert(x / y <= 1 as real && 0 as real <= x / y) by (nonlinear_arith)
            requires
                0 as real <= x,
                x <= y,
                y >= 1 as real,
        ;
    }
    lemma_quotient_finite(a, b);
    law_over(a, b);
    let q = num(a.over(b));
    lemma_rounded(x / y, q, 1 as real);
    let z = x / y;
    assert(size(z - t) <= 4 as real / w) by {
        assert(z * y == x) by (nonlinear_arith)
            requires
                z == x / y,
                y >= 1 as real,
        ;
        assert(size(z - t) * y <= 2 as real * (t * d) / w) by (nonlinear_arith)
            requires
                z * y == x,
                k == t * d,
                size(x - k) <= k / w,
                size(y - d) <= d / w,
                0 as real <= t <= 1 as real,
                d >= 1 as real,
                w == 0x100_0000 as real,
                y >= 1 as real,
        ;
        assert(2 as real * y >= d);
        assert(size(z - t) <= 4 as real / w) by (nonlinear_arith)
            requires
                size(z - t) * y <= 2 as real * (t * d) / w,
                2 as real * y >= d,
                0 as real <= t <= 1 as real,
                d >= 1 as real,
                w == 0x100_0000 as real,
        ;
    }
    // between 0 and 1
    lemma_integer_finite(n - 1);
    lemma_integer_finite(i);
    law_conversion_keeps_order(i, n - 1);
    law_quotient_keeps_order(a, b, b);
    law_quotient_keeps_order(Binary32::of_integer(0), a, b);
    law_one(b, b);
    lemma_zero_quotient(b);
    lemma_of_integer_finite(0);
    lemma_of_integer_finite(1);
    law_of_integer(0);
    law_of_integer(1);
    law_compare(a.over(b), Binary32::of_integer(1));
    law_compare(Binary32::of_integer(0), a.over(b));
}

// ---- polynomials ----

/// A power of a real number.
pub open spec fn real_power(x: real, k: int) -> real
    decreases k,
{
    if k <= 0 {
        1 as real
    } else {
        real_power(x, k - 1) * x
    }
}

/// The first `n` terms of a polynomial with given coefficients.
pub open spec fn real_polynomial(c: Seq<Binary32>, x: real, n: int) -> real
    decreases n,
{
    if n <= 0 {
        0 as real
    } else {
        real_polynomial(c, x, n - 1) + num(c[n - 1]) * real_power(x, n - 1)
    }
}

/// How large the first `n` coefficients are together.
pub open spec fn weight(c: Seq<Binary32>, n: int) -> real
    decreases n,
{
    if n <= 0 {
        0 as real
    } else {
        weight(c, n - 1) + size(num(c[n - 1]))
    }
}

/// Whether coefficients are finite and not huge.
pub open spec fn are_moderate(c: Seq<Binary32>) -> bool {
    &&& forall|j: int| 0 <= j < c.len() ==> (#[trigger] c[j]).is_finite()
    &&& weight(c, c.len() as int) <= 0x100_0000_0000_0000 as real
}

proof fn lemma_real_power(x: real, y: real, k: int)
    requires
        0 as real <= x <= 1 as real,
        0 as real <= y <= 1 as real,
        0 <= k <= 3,
    ensures
        0 as real <= real_power(x, k) <= 1 as real,
        size(real_power(x, k) - real_power(y, k)) <= 3 as real * size(x - y),
        k == 0 ==> real_power(x, k) == real_power(y, k),
        size(real_power(x, k) - real_power(y, k)) <= k as real * size(x - y),
    decreases k,
{
    if k > 0 {
        lemma_real_power(x, y, k - 1);
        lemma_real_power(y, x, k - 1);
        let (p, q) = (real_power(x, k - 1), real_power(y, k - 1));
        assert(0 as real <= p * x && p * x <= 1 as real) by (nonlinear_arith)
            requires
                0 as real <= p <= 1 as real,
                0 as real <= x <= 1 as real,
        ;
        assert(p * x - q * y == (p - q) * x + q * (x - y)) by (nonlinear_arith);
        assert(size((p - q) * x) <= size(p - q)) by (nonlinear_arith)
            requires
                0 as real <= x <= 1 as real,
        ;
        assert(size(q * (x - y)) <= size(x - y)) by (nonlinear_arith)
            requires
                0 as real <= q <= 1 as real,
        ;
        let (e, kr) = (size(x - y), k as real);
        assert((kr - 1 as real) * e + e == kr * e) by (nonlinear_arith);
        assert(kr * e <= 3 as real * e) by (nonlinear_arith)
            requires
                kr <= 3 as real,
                e >= 0 as real,
        ;
        assert((k - 1) as real == kr - 1 as real);
    } else {
        assert(0 as real * size(x - y) == 0 as real) by (nonlinear_arith);
        assert(3 as real * size(x - y) >= 0 as real);
    }
}

/// Rounded powers of a number between 0 and 1.
proof fn lemma_single_power(x: Binary32, k: int)
    requires
        x.is_finite(),
        0 as real <= num(x) <= 1 as real,
        0 <= k <= 3,
    ensures
        single_power(x, k).is_finite(),
        0 as real <= num(single_power(x, k)) <= 1 as real,
        size(num(single_power(x, k)) - real_power(num(x), k)) <= 6 as real / 0x100_0000 as real,
        size(num(single_power(x, k)) - real_power(num(x), k)) <= (2 * k) as real
            / 0x100_0000 as real,
    decreases k,
{
    let w = 0x100_0000 as real;
    let (zero, one) = (Binary32::of_integer(0), Binary32::of_integer(1));
    lemma_of_integer_finite(0);
    lemma_of_integer_finite(1);
    law_of_integer(0);
    law_of_integer(1);
    if k > 0 {
        lemma_single_power(x, k - 1);
        let p = single_power(x, k - 1);
        let (a, b, t) = (num(p), num(x), real_power(num(x), k - 1));
        lemma_real_power(b, b, k - 1);
        assert(0 as real <= a * b && a * b <= 1 as real) by (nonlinear_arith)
            requires
                0 as real <= a <= 1 as real,
                0 as real <= b <= 1 as real,
        ;
        lemma_finite_times(p, x);
        law_times(p, x);
        lemma_rounded(a * b, num(p.times(x)), 1 as real);
        assert(size(a * b - t * b) <= size(a - t)) by (nonlinear_arith)
            requires
                0 as real <= b <= 1 as real,
        ;
        lemma_times_one(p, x);
        assert((2 * k) as real == (2 * (k - 1)) as real + 2 as real);
        assert((2 * k) as real / w == (2 * (k - 1)) as real / w + 2 as real / w);
    } else {
        assert(0 as real / w == 0 as real);
    }
}

/// A product of two numbers between 0 and 1 is between 0 and 1.
proof fn lemma_times_one(a: Binary32, b: Binary32)
    requires
        a.is_finite(),
        b.is_finite(),
        0 as real <= num(a) <= 1 as real,
        0 as real <= num(b) <= 1 as real,
        a.times(b).is_finite(),
    ensures
        0 as real <= num(a.times(b)) <= 1 as real,
{
    let (zero, one) = (Binary32::of_integer(0), Binary32::of_integer(1));
    lemma_of_integer_finite(0);
    lemma_of_integer_finite(1);
    law_of_integer(0);
    law_of_integer(1);
    law_compare(zero, a);
    law_compare(a, one);
    law_compare(zero, b);
    law_compare(b, one);
    law_scaling_keeps_order(a, one, b);
    law_scaling_keeps_order(zero, a, b);
    lemma_integer_finite(1);
    law_one(one, b);
    lemma_zero_times(b);
    law_compare(a.times(b), b);
    lemma_finite_times_zero(b);
    law_compare(zero.times(b), a.times(b));
    law_compare(zero.times(b), zero);
}

pub(crate) proof fn lemma_finite_times_zero(b: Binary32)
    requires
        b.is_finite(),
    ensures
        Binary32::of_integer(0).times(b).is_finite(),
{
    lemma_of_integer_finite(0);
    law_of_integer(0);
    let x = num(Binary32::of_integer(0));
    assert(x * num(b) == 0 as real) by (nonlinear_arith)
        requires
            x == 0 as real,
    ;
    lemma_finite_times(Binary32::of_integer(0), b);
}

/// A rounded polynomial is near the polynomial.
proof fn lemma_polynomial(c: Seq<Binary32>, x: Binary32, n: int)
    requires
        x.is_finite(),
        0 as real <= num(x) <= 1 as real,
        0 <= n <= c.len(),
        c.len() <= 4,
        are_moderate(c),
    ensures
        ({
            let w = weight(c, n);
            let r = polynomial(c, x, n);
            &&& 0 as real <= w <= 0x100_0000_0000_0000 as real
            &&& r.is_finite()
            &&& size(real_polynomial(c, num(x), n)) <= w
            &&& size(num(r) - real_polynomial(c, num(x), n)) <= n as real * (11 as real
                * w + 2 as real) / 0x100_0000 as real
        }),
    decreases n,
{
    let w = 0x100_0000 as real;
    if n <= 0 {
        lemma_of_integer_finite(0);
        law_of_integer(0);
        lemma_weight(c, 0);
        let f = 11 as real * weight(c, 0) + 2 as real;
        assert(0 as real * f / w == 0 as real) by (nonlinear_arith)
            requires
                w > 0 as real,
        ;
    } else {
        lemma_polynomial(c, x, n - 1);
        lemma_single_power(x, n - 1);
        lemma_real_power(num(x), num(x), n - 1);
        lemma_weight(c, n);
        let (p, s) = (polynomial(c, x, n - 1), single_power(x, n - 1));
        let a = c[n - 1];
        assert(a.is_finite());
        let (k, t, q) = (num(a), real_power(num(x), n - 1), num(s));
        let (w0, w1) = (weight(c, n - 1), weight(c, n));
        assert(size(k * q) <= size(k) && size(k * t) <= size(k)) by (nonlinear_arith)
            requires
                0 as real <= q <= 1 as real,
                0 as real <= t <= 1 as real,
        ;
        assert(size(k * q - k * t) <= size(k) * (6 as real / w)) by (nonlinear_arith)
            requires
                size(q - t) <= 6 as real / w,
                w > 0 as real,
        ;
        assert(size(k) * (6 as real / w) == 6 as real * size(k) / w) by (nonlinear_arith)
            requires
                w > 0 as real,
        ;
        lemma_finite_times(a, s);
        law_times(a, s);
        let m = a.times(s);
        lemma_rounded_small(k * q, num(m), size(k));
        // the sum
        let r0 = real_polynomial(c, num(x), n - 1);
        let e0 = (n - 1) as real * (11 as real * w0 + 2 as real) / w;
        let f0 = 11 as real * w0 + 2 as real;
        assert(e0 <= 3 as real * f0 / w) by (nonlinear_arith)
            requires
                e0 == (n - 1) as real * f0 / w,
                (n - 1) as real <= 3 as real,
                f0 >= 0 as real,
                w > 0 as real,
        ;
        let y = num(p) + num(m);
        assert(size(y) <= 2 as real * w1 + 1 as real);
        lemma_finite_plus(p, m);
        law_plus(p, m);
        lemma_rounded_well(y, num(p.plus(m)), 2 as real * w1 + 1 as real);
        let f1 = 11 as real * w1 + 2 as real;
        let total = n as real * f1 / w;
        assert(total >= e0 + f1 / w) by (nonlinear_arith)
            requires
                total == n as real * f1 / w,
                e0 == (n - 1) as real * f0 / w,
                (n - 1) as real == n as real - 1 as real,
                n as real >= 1 as real,
                f1 >= f0,
                f0 >= 0 as real,
                w > 0 as real,
        ;
        assert(size(num(m) - k * t) <= 8 as real * size(k) / w + 1 as real / w);
        let e = (8 as real * size(k) + 1 as real) / w + (2 as real * w1 + 1 as real) / w;
        assert(e <= f1 / w);
    }
}

/// A product that may be small is near the product.
pub(crate) proof fn lemma_rounded_small(y: real, x: real, b: real)
    requires
        rounds_to(Width::Single, y, x),
        size(y) <= b,
    ensures
        size(x - y) <= b / 0x100_0000 as real + 1 as real / 0x100_0000_0000_0000 as real,
{
    lemma_grain();
    let (g, sp) = (grain(Width::Single), speck(Width::Single));
    let w = 0x100_0000 as real;
    assert(size(y) * g <= b / w) by (nonlinear_arith)
        requires
            size(y) <= b,
            g == 1 as real / w,
            w > 0 as real,
    ;
    assert(sp <= 1 as real / 0x100_0000_0000_0000 as real) by (nonlinear_arith)
        requires
            sp * 0x1000_0000_0000_0000 as real <= g,
            g <= 1 as real,
            sp > 0 as real,
    ;
}

proof fn lemma_weight(c: Seq<Binary32>, n: int)
    requires
        0 <= n <= c.len(),
        are_moderate(c),
    ensures
        0 as real <= weight(c, n) <= 0x100_0000_0000_0000 as real,
{
    lemma_weight_grows(c, n, c.len() as int);
    lemma_weight_grows(c, 0, n);
}

pub(crate) proof fn lemma_weight_grows(c: Seq<Binary32>, a: int, b: int)
    requires
        0 <= a <= b,
    ensures
        weight(c, a) <= weight(c, b),
    decreases b,
{
    if a < b {
        lemma_weight_grows(c, a, b - 1);
    }
}

/// Moving the position moves a polynomial by little.
proof fn lemma_polynomial_moves(c: Seq<Binary32>, x: real, y: real, n: int)
    requires
        0 as real <= x <= 1 as real,
        0 as real <= y <= 1 as real,
        0 <= n <= c.len(),
        c.len() <= 4,
    ensures
        size(real_polynomial(c, x, n) - real_polynomial(c, y, n)) <= 3 as real * size(x - y)
            * weight(c, n),
        weight(c, n) >= 0 as real,
    decreases n,
{
    let e = 3 as real * size(x - y);
    if n > 0 {
        lemma_polynomial_moves(c, x, y, n - 1);
        lemma_real_power(x, y, n - 1);
        let (k, p, q) = (num(c[n - 1]), real_power(x, n - 1), real_power(y, n - 1));
        assert(size(k * p - k * q) <= e * size(k)) by (nonlinear_arith)
            requires
                size(p - q) <= e,
                e >= 0 as real,
        ;
        let (w0, w1) = (weight(c, n - 1), weight(c, n));
        assert(e * w1 == e * w0 + e * size(k)) by (nonlinear_arith)
            requires
                w1 == w0 + size(k),
        ;
    } else {
        assert(e * 0 as real == 0 as real) by (nonlinear_arith);
    }
}

/// Flattening by order `k` takes from every sample of a line a polynomial of
/// degree `k` at most in the place of the sample, which runs evenly from 0 to 1;
/// the same polynomial from all samples of the line. Its coefficients are those of
/// the fit.
pub proof fn law_flattening_takes_a_polynomial_away(
    rows: Seq<Seq<Binary32>>,
    order: nat,
    r: int,
    i: int,
)
    requires
        flattened(rows, order) is Ok,
        0 <= r < rows.len(),
        2 <= rows[0].len() <= 0x1_0000_0000_0000_0000,
        0 <= i < rows[0].len(),
    ensures
        ({
            let v = flattened(rows, order)->Ok_0;
            let n = rows[0].len() as int;
            &&& order <= 3
            &&& rows[r].len() == n
            &&& v.len() == rows.len() * n
            &&& 0 <= r * n + i < v.len()
            &&& fitted(positions(n as nat), rows[r], order) matches Ok(c) && (are_moderate(c)
                && c.len() == order + 1 && rows[r][i].is_finite() && size(num(rows[r][i]))
                <= 0x100_0000_0000_0000 as real ==> {
                let h = num(rows[r][i]);
                let taken = real_polynomial(c, place(i, n), c.len() as int);
                size(num(v[r * n + i]) - (h - taken)) <= (80 as real * weight(c, c.len() as int)
                    + size(h) + 16 as real) / 0x100_0000 as real
            })
        }),
{
    let n = rows[0].len();
    let v = flattened(rows, order)->Ok_0;
    lemma_lines(rows, order, n, r, i);
    if let Ok(c) = fitted(positions(n), rows[r], order) {
        if are_moderate(c) && c.len() == order + 1 && rows[r][i].is_finite() && size(
            num(rows[r][i]),
        ) <= 0x100_0000_0000_0000 as real {
            lemma_taken(rows[r], c, i);
        }
    }
}

/// One sample less the polynomial.
proof fn lemma_taken(row: Seq<Binary32>, c: Seq<Binary32>, i: int)
    requires
        2 <= row.len() <= 0x1_0000_0000_0000_0000,
        0 <= i < row.len(),
        are_moderate(c),
        c.len() <= 4,
        row[i].is_finite(),
        size(num(row[i])) <= 0x100_0000_0000_0000 as real,
    ensures
        ({
            let h = num(row[i]);
            let taken = real_polynomial(c, place(i, row.len() as int), c.len() as int);
            size(num(flat_line(row, c)[i]) - (h - taken)) <= (80 as real * weight(
                c,
                c.len() as int,
            ) + size(h) + 16 as real) / 0x100_0000 as real
        }),
{
    let n = row.len();
    let w = 0x100_0000 as real;
    let m = c.len() as int;
    let x = positions(n)[i];
    law_positions_are_even(n, i);
    lemma_place(i, i, n as int);
    lemma_polynomial(c, x, m);
    lemma_polynomial_moves(c, num(x), place(i, n as int), m);
    let (k, h) = (weight(c, m), num(row[i]));
    let p = polynomial(c, x, m);
    let (near, taken) = (
        real_polynomial(c, num(x), m),
        real_polynomial(c, place(i, n as int), m),
    );
    let e = size(num(x) - place(i, n as int));
    assert(3 as real * e * k <= 24 as real * k / w) by (nonlinear_arith)
        requires
            e <= 8 as real / w,
            e >= 0 as real,
            k >= 0 as real,
            w > 0 as real,
    ;
    let f = 11 as real * k + 2 as real;
    assert(m as real * f / w <= 4 as real * f / w) by (nonlinear_arith)
        requires
            m as real <= 4 as real,
            f >= 0 as real,
            w > 0 as real,
    ;
    let d = h - num(p);
    assert(size(num(p)) <= 2 as real * k + 1 as real);
    lemma_finite_minus(row[i], p);
    law_minus(row[i], p);
    lemma_rounded_well(d, num(row[i].minus(p)), size(h) + 2 as real * k + 1 as real);
}

/// Where a line stands among the flattened ones.
proof fn lemma_lines(rows: Seq<Seq<Binary32>>, order: nat, cols: nat, r: int, i: int)
    requires
        flat_lines(rows, order, cols) is Ok,
        0 <= r < rows.len(),
        0 <= i < cols,
    ensures
        ({
            let v = flat_lines(rows, order, cols)->Ok_0;
            &&& rows[r].len() == cols
            &&& v.len() == rows.len() * cols
            &&& 0 <= r * cols + i < v.len()
            &&& fitted(positions(cols), rows[r], order) matches Ok(c) && v[r * cols + i]
                == flat_line(rows[r], c)[i]
        }),
    decreases rows.len(),
{
    let front = rows.drop_last();
    let k = rows.len() - 1;
    assert((k + 1) * cols == k * cols + cols) by (nonlinear_arith);
    let before = flat_lines(front, order, cols)->Ok_0;
    assert(before.len() == k * cols) by {
        if k > 0 {
            lemma_lines(front, order, cols, 0, i);
        } else {
            assert(0 * cols == 0);
        }
    }
    if r < k {
        lemma_lines(front, order, cols, r, i);
        assert(front[r] == rows[r]);
    } else {
        assert(rows.last() == rows[r]);
    }
    crate::grid::lemma_place(cols as int, rows.len() as int, r, i);
    assert(cols * rows.len() == rows.len() * cols) by (nonlinear_arith);
}

} // verus!
