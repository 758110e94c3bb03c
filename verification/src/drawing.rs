//! What is drawn: straight lines, and the points of a plot where they belong.

use crate::binary::Binary32;
use crate::canvas::Pixel;
use crate::drawn_line::lemma_rounded_well;
use crate::fitting::lemma_rounded_small;
use crate::float::Toward;
use crate::grid::lemma_place;
use crate::measures::lemma_ratio_of_near;
use crate::plot::{axis_place, line_drawn, line_steps, step_at, whole_line};
use crate::reals::{
    law_fraction_is_dropped, law_minus, law_nearest_integer, law_of_integer, law_over, law_plus,
    law_times, lemma_finite_minus, lemma_finite_over, lemma_finite_plus, lemma_finite_times,
    lemma_of_integer_finite, num, size,
};
use vstd::prelude::*;

verus! {

/// Step `i` of a line lies where the straight line does, to the nearest pixel.
pub proof fn law_step_lies_on_the_line(a: int, b: int, i: int, steps: int)
    requires
        -0x2000 <= a <= 0x2000,
        -0x2000 <= b <= 0x2000,
        0 <= i <= steps <= 0x4000,
        steps >= 1,
    ensures
        size(
            step_at(a, b, i, steps) as real - (a as real + i as real / steps as real * (b
                - a) as real),
        ) <= 1 as real / 2 as real + 1 as real / 0x40 as real,
{
    let (p, q, s, t) = (
        Binary32::of_integer(i),
        Binary32::of_integer(steps),
        Binary32::of_integer(a),
        Binary32::of_integer(b - a),
    );
    lemma_of_integer_finite(i);
    lemma_of_integer_finite(steps);
    lemma_of_integer_finite(a);
    lemma_of_integer_finite(b - a);
    law_of_integer(i);
    law_of_integer(steps);
    law_of_integer(a);
    law_of_integer(b - a);
    let (x, y, d) = (i as real, steps as real, (b - a) as real);
    let r = x / y;
    assert(0 as real <= r && r <= 1 as real) by (nonlinear_arith)
        requires
            r == x / y,
            0 as real <= x,
            x <= y,
            y > 0 as real,
    ;
    lemma_finite_over(p, q);
    law_over(p, q);
    let f = p.over(q);
    lemma_rounded_small(r, num(f), 1 as real);
    let e = num(f) - r;
    assert(num(f) * d - r * d == e * d) by (nonlinear_arith)
        requires
            e == num(f) - r,
    ;
    let w = 0x100_0000 as real;
    assert(size(e * d) <= 2 as real / w * 0x4000 as real) by (nonlinear_arith)
        requires
            size(e) <= 2 as real / w,
            size(d) <= 0x4000 as real,
    ;
    assert(size(r * d) <= 0x4000 as real) by (nonlinear_arith)
        requires
            0 as real <= r,
            r <= 1 as real,
            size(d) <= 0x4000 as real,
    ;
    lemma_finite_times(f, t);
    law_times(f, t);
    let m = f.times(t);
    lemma_rounded_small(num(f) * d, num(m), 0x8000 as real);
    lemma_finite_plus(s, m);
    law_plus(s, m);
    let z = s.plus(m);
    lemma_rounded_well(num(s) + num(m), num(z), 0x1_0000 as real);
    law_nearest_integer(z, i64::MIN as int, i64::MAX as int);
}

/// Whether one of the first `n` steps of a line falls on a pixel.
pub open spec fn is_on_line(a: (int, int), b: (int, int), n: int, x: int, y: int) -> bool {
    exists|i: int| #[trigger] is_step(a, b, i, x, y) && 0 <= i < n
}

/// Whether step `i` of a line falls on a pixel.
pub open spec fn is_step(a: (int, int), b: (int, int), i: int, x: int, y: int) -> bool {
    let steps = line_steps(a.0, a.1, b.0, b.1);
    step_at(a.0, b.0, i, steps) == x && step_at(a.1, b.1, i, steps) == y
}

proof fn lemma_line_drawn(
    pixels: Seq<Pixel>,
    w: int,
    h: int,
    a: (int, int),
    b: (int, int),
    c: Pixel,
    n: int,
    x: int,
    y: int,
)
    requires
        pixels.len() == w * h,
        0 <= x < w,
        0 <= y < h,
        0 <= n,
    ensures
        line_drawn(pixels, w, h, a, b, c, n).len() == w * h,
        line_drawn(pixels, w, h, a, b, c, n)[y * w + x] == (if is_on_line(a, b, n, x, y) {
            c
        } else {
            pixels[y * w + x]
        }),
    decreases n,
{
    lemma_place(w, h, y, x);
    if n > 0 {
        lemma_line_drawn(pixels, w, h, a, b, c, n - 1, x, y);
        let steps = line_steps(a.0, a.1, b.0, b.1);
        let (u, v) = (step_at(a.0, b.0, n - 1, steps), step_at(a.1, b.1, n - 1, steps));
        if 0 <= u < w && 0 <= v < h {
            lemma_place(w, h, v, u);
        }
        if u == x && v == y {
            assert(is_step(a, b, n - 1, x, y));
        } else {
            assert(v * w + u != y * w + x || !(0 <= u < w && 0 <= v < h));
            if is_on_line(a, b, n, x, y) {
                let i = choose|i: int| #[trigger] is_step(a, b, i, x, y) && 0 <= i < n;
                assert(i != n - 1);
                assert(is_on_line(a, b, n - 1, x, y));
            }
            if is_on_line(a, b, n - 1, x, y) {
                let i = choose|i: int| #[trigger] is_step(a, b, i, x, y) && 0 <= i < n - 1;
                assert(is_step(a, b, i, x, y) && 0 <= i < n);
            }
        }
    }
}

/// Drawing a line colours the pixels that its steps fall on, from its first point to its
/// last, and no other.
pub proof fn law_line_colours_its_steps(
    pixels: Seq<Pixel>,
    w: int,
    h: int,
    a: (int, int),
    b: (int, int),
    c: Pixel,
    x: int,
    y: int,
)
    requires
        pixels.len() == w * h,
        0 <= x < w,
        0 <= y < h,
    ensures
        ({
            let n = if b.0 - a.0 > b.1 - a.1 {
                b.0 - a.0
            } else {
                b.1 - a.1
            };
            let m = if a.0 - b.0 > a.1 - b.1 {
                a.0 - b.0
            } else {
                a.1 - b.1
            };
            let steps = if n >= m && n >= 1 {
                n
            } else if m >= 1 {
                m
            } else {
                1
            };
            &&& whole_line(pixels, w, h, a, b, c).len() == w * h
            &&& whole_line(pixels, w, h, a, b, c)[y * w + x] == (if is_on_line(
                a,
                b,
                steps + 1,
                x,
                y,
            ) {
                c
            } else {
                pixels[y * w + x]
            })
        }),
{
    let steps = line_steps(a.0, a.1, b.0, b.1);
    lemma_line_drawn(pixels, w, h, a, b, c, steps + 1, x, y);
}

/// A value stands on an axis by the share of the range that it takes up, without its
/// fraction of a pixel.
pub proof fn law_axis_shows_the_share(v: Binary32, low: Binary32, range: Binary32, len: int)
    requires
        v.is_finite(),
        low.is_finite(),
        range.is_finite(),
        0 < len <= 0x1000,
        size(num(v)) <= 0x100_0000_0000 as real,
        size(num(low)) <= 0x100_0000_0000 as real,
        num(range) >= 1 as real / 0x100_0000 as real,
        num(low) <= num(v) <= num(low) + num(range),
    ensures
        ({
            let at = (num(v) - num(low)) / num(range) * (len as real);
            let n = axis_place(v, low, range, len) as real;
            &&& n <= at + 1 as real / 0x80 as real
            &&& n > at - 1 as real - 1 as real / 0x80 as real
            &&& 0 as real <= n
        }),
{
    let w = 0x100_0000 as real;
    let (p, q) = (num(v) - num(low), num(range));
    lemma_finite_minus(v, low);
    law_minus(v, low);
    let d = v.minus(low);
    lemma_rounded_well(p, num(d), q);
    assert(1 as real * q == q);
    lemma_ratio_of_near(p, q, num(d), q, 1 as real, w);
    let t = p / q;
    assert(0 as real <= t && t <= 1 as real) by (nonlinear_arith)
        requires
            t == p / q,
            0 as real <= p,
            p <= q,
            q > 0 as real,
    ;
    lemma_finite_over(d, range);
    law_over(d, range);
    let s = d.over(range);
    lemma_rounded_small(num(d) / q, num(s), 2 as real);
    let l = Binary32::of_integer(len);
    lemma_of_integer_finite(len);
    law_of_integer(len);
    let y = len as real;
    let e = num(s) - t;
    assert(num(s) * y - t * y == e * y) by (nonlinear_arith)
        requires
            e == num(s) - t,
    ;
    assert(size(e * y) <= 6 as real / w * 0x1000 as real) by (nonlinear_arith)
        requires
            size(e) <= 6 as real / w,
            0 as real <= y,
            y <= 0x1000 as real,
    ;
    assert(0 as real <= t * y && t * y <= 0x1000 as real) by (nonlinear_arith)
        requires
            0 as real <= t,
            t <= 1 as real,
            0 as real <= y,
            y <= 0x1000 as real,
    ;
    lemma_finite_times(s, l);
    law_times(s, l);
    let z = s.times(l);
    lemma_rounded_small(num(s) * y, num(z), 0x2000 as real);
    law_fraction_is_dropped(z, Toward::Zero, u32::MAX as int);
}

} // verus!
