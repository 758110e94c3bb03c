//! How the weights of a Gaussian fall with the distance.

use crate::binary::Binary32;
use crate::drawn_line::lemma_rounded_well;
use crate::filter::{distance_exponent, minus_half};
use crate::fitting::lemma_rounded_small;
use crate::float::{negated, Width};
use crate::measures::{lemma_half, lemma_ratio_of_near};
use crate::mesh::half;
use crate::reals::{
    huge, law_minus, law_negation, law_of_integer, law_over, law_times, lemma_finite_minus,
    lemma_finite_over, lemma_finite_times, lemma_negate, lemma_of_integer_finite, num, size,
};
use crate::smooth::kernel_exponent;
use vstd::prelude::*;

verus! {

proof fn lemma_minus_half()
    ensures
        minus_half().is_finite(),
        num(minus_half()) == -(1 as real / 2 as real),
{
    lemma_half();
    assert(minus_half().parts() == negated(half().parts()));
    law_negation(Width::Single, half().parts());
}

/// The distance of two positions, rounded.
proof fn lemma_distance(a: int, b: int)
    requires
        0 <= a <= 0x100_0000,
        0 <= b <= 0x100_0000,
    ensures
        ({
            let d = Binary32::of_integer(a).minus(Binary32::of_integer(b));
            &&& d.is_finite()
            &&& size(num(d) - (a - b) as real) <= size((a - b) as real) / 0x100_0000 as real
        }),
{
    let (p, q) = (Binary32::of_integer(a), Binary32::of_integer(b));
    lemma_of_integer_finite(a);
    lemma_of_integer_finite(b);
    law_of_integer(a);
    law_of_integer(b);
    lemma_finite_minus(p, q);
    law_minus(p, q);
    let y = (a - b) as real;
    assert(y == a as real - b as real);
    lemma_rounded_well(y, num(p.minus(q)), size(y));
}

/// The weight at a distance of `t` widths is the exponential of minus half the square
/// of `t`, but for rounding; `m` bounds `t`.
pub proof fn law_exponent_is_half_the_square(pos: int, at: int, sigma: Binary32, m: real)
    requires
        0 <= pos <= 0x100_0000,
        0 <= at <= 0x100_0000,
        sigma.is_finite(),
        1 as real / 0x10_0000 as real <= num(sigma),
        1 as real <= m <= 0x10_0000 as real,
        size((pos - at) as real) <= m * num(sigma),
    ensures
        ({
            let t = (pos - at) as real / num(sigma);
            let e = distance_exponent(pos, at, sigma);
            &&& e.is_finite()
            &&& size(num(e) - (-(t * t / 2 as real))) <= 16 as real * (m * m) / 0x100_0000 as real
        }),
{
    let w = 0x100_0000 as real;
    let (p, s) = ((pos - at) as real, num(sigma));
    let d = Binary32::of_integer(pos).minus(Binary32::of_integer(at));
    lemma_distance(pos, at);
    let ms = m * s;
    lemma_ratio_of_near(p, s, num(d), s, m, w);
    let (t, r) = (p / s, num(d) / s);
    assert(size(t) <= m) by (nonlinear_arith)
        requires
            t == p / s,
            size(p) <= m * s,
            s > 0 as real,
    ;
    assert(size(num(d)) <= 0x200_0000 as real);
    lemma_finite_over(d, sigma);
    law_over(d, sigma);
    let x = d.over(sigma);
    lemma_rounded_small(r, num(x), 2 as real * m);
    lemma_minus_half();
    let mh = minus_half();
    let nx = num(x);
    assert(num(mh) * nx == -(nx / 2 as real)) by (nonlinear_arith)
        requires
            num(mh) == -(1 as real / 2 as real),
    ;
    lemma_finite_times(mh, x);
    law_times(mh, x);
    let y = mh.times(x);
    lemma_rounded_small(-(nx / 2 as real), num(y), m);
    let ny = num(y);
    assert(size(ny + t / 2 as real) <= 5 as real * m / w);
    let (ex, ey) = (nx - t, ny + t / 2 as real);
    let mm = m * m;
    assert(ny * nx - (-(t * t / 2 as real)) == ny * ex + t * ey) by (nonlinear_arith)
        requires
            ex == nx - t,
            ey == ny + t / 2 as real,
    ;
    assert(size(ny * ex) <= 6 as real * mm / w) by (nonlinear_arith)
        requires
            size(ny) <= m,
            size(ex) <= 6 as real * m / w,
            mm == m * m,
            w > 0 as real,
    ;
    assert(size(t * ey) <= 5 as real * mm / w) by (nonlinear_arith)
        requires
            size(t) <= m,
            size(ey) <= 5 as real * m / w,
            mm == m * m,
            w > 0 as real,
    ;
    assert(size(ny * nx) <= 2 as real * mm) by (nonlinear_arith)
        requires
            size(ny) <= m,
            size(nx) <= 2 as real * m,
            mm == m * m,
    ;
    assert(1 as real <= mm && mm <= 0x100_0000_0000 as real) by (nonlinear_arith)
        requires
            mm == m * m,
            1 as real <= m,
            m <= 0x10_0000 as real,
    ;
    lemma_finite_times(y, x);
    law_times(y, x);
    lemma_rounded_small(ny * nx, num(y.times(x)), 2 as real * mm);
}

/// The weight of sample `i` of a Gaussian that reaches `radius` samples to either side
/// is the exponential of minus half the square of its distance from the middle, in
/// widths; `m` bounds that.
pub proof fn law_kernel_exponent_is_half_the_square(sigma: Binary32, radius: int, i: int, m: real)
    requires
        0 <= radius <= 0x8_0000,
        0 <= i <= 0x10_0000,
        sigma.is_finite(),
        1 as real / 0x400 as real <= num(sigma) <= 0x10_0000 as real,
        1 as real <= m <= 0x10_0000_0000 as real,
        ((i - radius) * (i - radius)) as real <= m * (2 as real * num(sigma) * num(sigma)),
    ensures
        ({
            let p = (i - radius) as real;
            let e = kernel_exponent(sigma, radius, i);
            &&& e.is_finite()
            &&& size(num(e) - (-(p * p)) / (2 as real * num(sigma) * num(sigma))) <= m
                / 0x4_0000 as real
        }),
{
    let w = 0x100_0000 as real;
    let v = 0x20_0000 as real;
    let (p, s) = ((i - radius) as real, num(sigma));
    let x = Binary32::of_integer(i).minus(Binary32::of_integer(radius));
    lemma_distance(i, radius);
    lemma_negate(x);
    let nx = num(x);
    let pp = p * p;
    assert(((i - radius) * (i - radius)) as real == pp) by (nonlinear_arith)
        requires
            p == (i - radius) as real,
            pp == p * p,
    ;
    assert(0 as real <= pp && pp <= 0x200_0000_0000 as real) by (nonlinear_arith)
        requires
            pp == p * p,
            size(p) <= 0x10_0000 as real,
    ;
    assert(-nx * nx == -(nx * nx)) by (nonlinear_arith);
    let ex = nx - p;
    assert(size(nx * nx - pp) <= 3 as real * pp / w) by {
        assert(nx * nx - pp == ex * (nx + p)) by (nonlinear_arith)
            requires
                ex == nx - p,
                pp == p * p,
        ;
        assert(size(nx + p) <= 3 as real * size(p));
        let (a, b) = (size(ex), size(nx + p));
        assert(size(ex * (nx + p)) == a * b) by (nonlinear_arith)
            requires
                a == size(ex),
                b == size(nx + p),
        ;
        assert(a * b <= size(p) / w * (3 as real * size(p))) by (nonlinear_arith)
            requires
                0 as real <= a,
                a <= size(p) / w,
                0 as real <= b,
                b <= 3 as real * size(p),
        ;
        assert(size(p) / w * (3 as real * size(p)) == 3 as real * pp / w) by (nonlinear_arith)
            requires
                pp == p * p,
                w > 0 as real,
        ;
    }
    lemma_finite_times(x.negate(), x);
    law_times(x.negate(), x);
    let top = x.negate().times(x);
    lemma_rounded_small(-(nx * nx), num(top), 2 as real * pp);
    // the divisor
    let two = Binary32::of_integer(2);
    lemma_of_integer_finite(2);
    law_of_integer(2);
    lemma_finite_times(two, sigma);
    law_times(two, sigma);
    let t = two.times(sigma);
    lemma_rounded_small(2 as real * s, num(t), 2 as real * s);
    let q = 2 as real * s * s;
    let (nt, et) = (num(t), num(t) - 2 as real * s);
    assert(nt * s - q == et * s) by (nonlinear_arith)
        requires
            et == nt - 2 as real * s,
            q == 2 as real * s * s,
    ;
    let tiny = 1 as real / 0x100_0000_0000_0000 as real;
    assert(size(et * s) <= q / w + tiny * s) by (nonlinear_arith)
        requires
            size(et) <= 2 as real * s / w + tiny,
            q == 2 as real * s * s,
            s > 0 as real,
            w > 0 as real,
    ;
    assert(q >= 1 as real / 0x8_0000 as real && q <= 0x400_0000_0000 as real && tiny * s <= q / w)
        by (nonlinear_arith)
        requires
            q == 2 as real * s * s,
            s >= 1 as real / 0x400 as real,
            s <= 0x10_0000 as real,
            tiny == 1 as real / 0x100_0000_0000_0000 as real,
            w == 0x100_0000 as real,
    ;
    lemma_finite_times(t, sigma);
    law_times(t, sigma);
    let den = t.times(sigma);
    lemma_rounded_small(nt * s, num(den), 2 as real * q);
    assert(tiny <= q / w);
    assert(size(num(den) - q) <= 5 as real * (q / w));
    let mq = m * q;
    assert(q <= mq) by (nonlinear_arith)
        requires
            mq == m * q,
            m >= 1 as real,
            q > 0 as real,
    ;
    assert(size(num(top) - (-pp)) <= mq / v);
    lemma_ratio_of_near(-pp, q, num(top), num(den), m, v);
    let r = num(top) / num(den);
    let ideal = (-pp) / q;
    assert(size(ideal) <= m) by (nonlinear_arith)
        requires
            ideal == (-pp) / q,
            0 as real <= pp,
            pp <= m * q,
            q > 0 as real,
    ;
    assert(size(num(top)) <= huge() * size(num(den))) by {
        assert(size(num(den)) >= 1 as real / 0x10_0000 as real);
        let y = size(num(den));
        assert(huge() * y >= 0x800_0000_0000 as real) by (nonlinear_arith)
            requires
                y >= 1 as real / 0x10_0000 as real,
                huge() == 0x1_0000_0000_0000_0000 as real,
        ;
    }
    lemma_finite_over(top, den);
    law_over(top, den);
    lemma_rounded_small(r, num(top.over(den)), 2 as real * m);
}

} // verus!
