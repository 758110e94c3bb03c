//! What a line profile shows: the heights of the samples nearest to the line that
//! was drawn, at their distances along it.

use crate::binary::Binary32;
use crate::float::Width;
use crate::order::{
    law_conversion_keeps_order, law_one, law_quotient_keeps_order, lemma_integer_finite, lemma_one,
    lemma_root_not_negative, lemma_zero, lemma_zero_quotient,
};
use crate::profile::{
    distance_at, fraction, lemma_count, lemma_distance_ordered, lemma_zero_times, length_nm,
    nearest_index, norm, profile, profile_point, profile_upto, sample_count, segment, Point,
    Segment, Surface,
};
use crate::reals::{
    grain, law_ceiling, law_compare, law_minus, law_nearest_integer, law_of_integer, law_over,
    law_plus, law_sqrt, law_times, lemma_finite_minus, lemma_finite_plus, lemma_finite_times,
    lemma_grain, lemma_of_integer_finite, lemma_quotient_finite, lemma_square, num, rounds_to,
    rounds_well_to, size, speck,
};
use vstd::prelude::*;

verus! {

/// A part of a grain.
pub(crate) proof fn lemma_rounded(y: real, x: real, b: real)
    requires
        rounds_to(Width::Single, y, x),
        size(y) <= b,
        b >= 1 as real,
    ensures
        size(x - y) <= 2 as real * b / 0x100_0000 as real,
{
    lemma_grain();
    let g = grain(Width::Single);
    assert(size(y) * g <= b * g) by (nonlinear_arith)
        requires
            size(y) <= b,
            g > 0 as real,
    ;
    assert(speck(Width::Single) <= b * g) by (nonlinear_arith)
        requires
            speck(Width::Single) * 0x1000_0000_0000_0000 as real <= g,
            speck(Width::Single) > 0 as real,
            b >= 1 as real,
            g > 0 as real,
    ;
    assert(2 as real * b / 0x100_0000 as real == 2 as real * (b * g)) by (nonlinear_arith)
        requires
            g == 1 as real / 0x100_0000 as real,
    ;
}

pub(crate) proof fn lemma_rounded_well(y: real, x: real, b: real)
    requires
        rounds_well_to(Width::Single, y, x),
        size(y) <= b,
    ensures
        size(x - y) <= b / 0x100_0000 as real,
{
    lemma_grain();
    let g = grain(Width::Single);
    assert(size(y) * g <= b * g) by (nonlinear_arith)
        requires
            size(y) <= b,
            g > 0 as real,
    ;
    assert(b / 0x100_0000 as real == b * g) by (nonlinear_arith)
        requires
            g == 1 as real / 0x100_0000 as real,
    ;
}

/// How far along a line sample `k` of `n` lies.
pub open spec fn part(k: int, n: int) -> real {
    k as real / (n - 1) as real
}

/// The fraction of a sample is near the part of the line before it.
proof fn lemma_fraction(k: int, n: int)
    requires
        0 <= k < n,
        2 <= n <= 0x100_0000,
    ensures
        fraction(k, n).is_finite(),
        0 as real <= part(k, n) <= 1 as real,
        size(num(fraction(k, n)) - part(k, n)) <= 2 as real / 0x100_0000 as real,
        0 as real <= num(fraction(k, n)) <= 1 as real,
{
    let (a, b) = (Binary32::of_integer(k), Binary32::of_integer(n - 1));
    lemma_of_integer_finite(k);
    lemma_of_integer_finite(n - 1);
    law_of_integer(k);
    law_of_integer(n - 1);
    let (x, y) = (k as real, (n - 1) as real);
    assert(0 as real <= x / y && x / y <= 1 as real) by (nonlinear_arith)
        requires
            0 as real <= x <= y,
            y > 0 as real,
    ;
    lemma_quotient_finite(a, b);
    law_over(a, b);
    lemma_rounded(x / y, num(a.over(b)), 1 as real);
    lemma_integer_finite(n - 1);
    lemma_integer_finite(k);
    law_conversion_keeps_order(k, n - 1);
    law_quotient_keeps_order(a, b, b);
    law_quotient_keeps_order(Binary32::of_integer(0), a, b);
    law_one(b, b);
    lemma_zero_quotient(b);
    lemma_of_integer_finite(0);
    lemma_of_integer_finite(1);
    law_of_integer(0);
    law_of_integer(1);
    law_compare(a.over(b), Binary32::of_integer(1));
    law_compare(Binary32::of_integer(0), a.over(b));
}

/// A point `t` of the way from `a` to `b`.
pub open spec fn along(a: real, b: real, t: real) -> real {
    a + t * (b - a)
}

/// How much rounding moves a point of a line, in samples: `c` is the number of
/// samples across, and no end of the line is farther out than `m` times that.
pub open spec fn wobble(c: int, m: int) -> real {
    (32 * (m * c)) as real / 0x100_0000 as real
}

/// The coordinate of a sample of a line, and the grid position nearest to it.
proof fn lemma_coordinate(p: Binary32, q: Binary32, c: int, k: int, n: int, m: int)
    requires
        p.is_finite(),
        q.is_finite(),
        1 <= c <= 0x100_0000,
        1 <= m <= 0x10_0000,
        size(num(p)) <= m as real,
        size(num(q)) <= m as real,
        0 <= k < n,
        2 <= n <= 0x100_0000,
    ensures
        ({
            let r = Binary32::of_integer(c);
            let x0 = p.times(r);
            let dx = q.times(r).minus(x0);
            let v = x0.plus(fraction(k, n).times(dx));
            let true_x = along(num(p) * c as real, num(q) * c as real, part(k, n));
            &&& v.is_finite()
            &&& size(num(v) - true_x) <= wobble(c, m)
            &&& size(nearest_index(v) as real - true_x) <= 1 as real / 2 as real + wobble(c, m)
        }),
{
    let r = Binary32::of_integer(c);
    let w = 0x100_0000 as real;
    let b = (m * c) as real;
    lemma_of_integer_finite(c);
    law_of_integer(c);
    lemma_fraction(k, n);
    let (a0, a1) = (num(p) * c as real, num(q) * c as real);
    assert(size(a0) <= b && size(a1) <= b && 1 as real <= b && b <= 0x1000_0000_0000 as real) by {
        assert((m * c) as real == m as real * c as real) by (nonlinear_arith);
        assert(size(a0) == size(num(p)) * c as real && size(a1) == size(num(q)) * c as real)
            by (nonlinear_arith)
            requires
                c as real >= 1 as real,
                a0 == num(p) * c as real,
                a1 == num(q) * c as real,
        ;
        assert(size(num(p)) * c as real <= m as real * c as real && size(num(q)) * c as real
            <= m as real * c as real) by (nonlinear_arith)
            requires
                c as real >= 1 as real,
                size(num(p)) <= m as real,
                size(num(q)) <= m as real,
        ;
        assert(1 <= m * c <= 0x10_0000 * 0x100_0000) by (nonlinear_arith)
            requires
                1 <= c <= 0x100_0000,
                1 <= m <= 0x10_0000,
        ;
    }
    // the ends, in samples
    lemma_finite_times(p, r);
    lemma_finite_times(q, r);
    law_times(p, r);
    law_times(q, r);
    let (x0, x1) = (p.times(r), q.times(r));
    lemma_rounded(a0, num(x0), b);
    lemma_rounded(a1, num(x1), b);
    // their distance
    let s = num(x1) - num(x0);
    lemma_finite_minus(x1, x0);
    law_minus(x1, x0);
    let dx = x1.minus(x0);
    lemma_rounded_well(s, num(dx), 3 as real * b);
    // the part of it
    let f = fraction(k, n);
    let (t, ft, d) = (part(k, n), num(f), num(dx));
    assert(size(d - (a1 - a0)) <= 7 as real * b / w);
    assert(size(d) <= 3 as real * b);
    assert(size(ft * d) <= 3 as real * b) by (nonlinear_arith)
        requires
            0 as real <= ft <= 1 as real,
            size(d) <= 3 as real * b,
            b >= 0 as real,
    ;
    lemma_finite_times(f, dx);
    law_times(f, dx);
    let g = f.times(dx);
    lemma_rounded(ft * d, num(g), 3 as real * b);
    assert(size(ft * d - t * (a1 - a0)) <= 13 as real * b / w) by {
        let (e, h) = (d - (a1 - a0), ft - t);
        assert(ft * d - t * (a1 - a0) == ft * e + h * (a1 - a0)) by (nonlinear_arith)
            requires
                e == d - (a1 - a0),
                h == ft - t,
        ;
        assert(size(ft * e) <= size(e)) by (nonlinear_arith)
            requires
                0 as real <= ft <= 1 as real,
        ;
        assert(size(h * (a1 - a0)) <= (2 as real / w) * (2 as real * b)) by (nonlinear_arith)
            requires
                size(h) <= 2 as real / w,
                size(a1 - a0) <= 2 as real * b,
                w > 0 as real,
                b > 0 as real,
        ;
        assert((2 as real / w) * (2 as real * b) == 4 as real * b / w) by (nonlinear_arith)
            requires
                w > 0 as real,
        ;
    }
    // the point
    let sum = num(x0) + num(g);
    assert(size(sum) <= 6 as real * b);
    lemma_finite_plus(x0, g);
    law_plus(x0, g);
    let v = x0.plus(g);
    lemma_rounded_well(sum, num(v), 6 as real * b);
    let true_x = along(a0, a1, t);
    assert(wobble(c, m) == 32 as real * b / w);
    law_nearest_integer(v, i64::MIN as int, i64::MAX as int);
    assert(size(num(v)) <= 8 as real * b);
    let i = nearest_index(v);
    assert(i as real == i64::MIN as int as real ==> i as real <= -(0x4000_0000_0000_0000 as real));
    assert(i == i64::MIN as int ==> i as real == -(0x8000_0000_0000_0000 as real));
    assert(i == i64::MAX as int ==> i as real == 0x7fff_ffff_ffff_ffff as real);
    assert(i64::MIN < i < i64::MAX);
    assert(size(i as real - num(v)) <= 1 as real / 2 as real);
    assert(size(num(v) - true_x) <= 32 as real * b / w);
}

/// Whether a pair of a profile belongs to part `t` of the line between two points:
/// its height is that of the sample nearest to the point there, its distance that
/// part of the length. The same part counts on both axes and for the distance.
pub open spec fn shows(
    s: Surface,
    p0: Point,
    p1: Point,
    t: real,
    m: int,
    pair: (Binary32, Binary32),
) -> bool {
    let x = along(num(p0.x) * s.cols as real, num(p1.x) * s.cols as real, t);
    let y = along(num(p0.y) * s.rows as real, num(p1.y) * s.rows as real, t);
    let length = num(length_nm(s, segment(s, p0, p1)));
    &&& exists|col: int, row: int|
        0 <= col < s.cols && 0 <= row < s.rows && pair.1 == #[trigger] s.data[row * s.cols + col]
            && size(col as real - x) <= 1 as real / 2 as real + wobble(s.cols, m) && size(
            row as real - y,
        ) <= 1 as real / 2 as real + wobble(s.rows, m)
    &&& size(num(pair.0) - t * length) <= 4 as real * length / 0x100_0000 as real + speck(
        Width::Single,
    )
}

/// Whether part `t` of a line lies outside an image, or no farther inside than
/// rounding may move it.
pub open spec fn misses(s: Surface, p0: Point, p1: Point, t: real, m: int) -> bool {
    let x = along(num(p0.x) * s.cols as real, num(p1.x) * s.cols as real, t);
    let y = along(num(p0.y) * s.rows as real, num(p1.y) * s.rows as real, t);
    let half = 1 as real / 2 as real;
    ||| x <= wobble(s.cols, m) - half
    ||| x >= s.cols as real - half - wobble(s.cols, m)
    ||| y <= wobble(s.rows, m) - half
    ||| y >= s.rows as real - half - wobble(s.rows, m)
}

/// Whether the points of a line are in a sensible range.
pub open spec fn is_sound(s: Surface, p0: Point, p1: Point, m: int) -> bool {
    &&& 1 <= s.cols <= 0x100_0000
    &&& 1 <= s.rows <= 0x100_0000
    &&& 1 <= m <= 0x10_0000
    &&& p0.x.is_finite() && size(num(p0.x)) <= m as real
    &&& p0.y.is_finite() && size(num(p0.y)) <= m as real
    &&& p1.x.is_finite() && size(num(p1.x)) <= m as real
    &&& p1.y.is_finite() && size(num(p1.y)) <= m as real
    &&& sample_count(segment(s, p0, p1)) <= 0x100_0000
    &&& length_nm(s, segment(s, p0, p1)).is_finite()
}

proof fn lemma_distance(s: Surface, g: Segment, k: int, n: int)
    requires
        0 <= k < n,
        2 <= n <= 0x100_0000,
        length_nm(s, g).is_finite(),
    ensures
        ({
            let (t, l) = (part(k, n), num(length_nm(s, g)));
            let d = distance_at(s, g, k, n);
            &&& l >= 0 as real
            &&& d.is_finite()
            &&& size(num(d) - t * l) <= 4 as real * l / 0x100_0000 as real + speck(Width::Single)
        }),
{
    let length = length_nm(s, g);
    let l = num(length);
    let f = fraction(k, n);
    let (t, ft) = (part(k, n), num(f));
    let w = 0x100_0000 as real;
    lemma_zero();
    lemma_one();
    lemma_fraction(k, n);
    lemma_distance_ordered(s, g, 0, k, n);
    lemma_distance_ordered(s, g, k, n - 1, n);
    lemma_ends(s, g, n);
    let d = distance_at(s, g, k, n);
    law_times(f, length);
    law_compare(Binary32::of_integer(0), length);
    lemma_of_integer_finite(0);
    law_of_integer(0);
    assert(size(ft * l - t * l) <= 2 as real * l / w) by (nonlinear_arith)
        requires
            size(ft - t) <= 2 as real / w,
            l >= 0 as real,
            w > 0 as real,
    ;
    lemma_grain();
    let e = grain(Width::Single);
    assert(size(ft * l) * e <= l / w) by (nonlinear_arith)
        requires
            0 as real <= ft <= 1 as real,
            l >= 0 as real,
            e == 1 as real / w,
            w > 0 as real,
    ;
    assert(2 as real * l / w + l / w <= 4 as real * l / w) by (nonlinear_arith)
        requires
            l >= 0 as real,
            w > 0 as real,
    ;
}

/// The first distance is zero and the last one is the length.
proof fn lemma_ends(s: Surface, g: Segment, n: int)
    requires
        2 <= n <= 0x100_0000,
        length_nm(s, g).is_finite(),
    ensures
        distance_at(s, g, n - 1, n) == length_nm(s, g),
        distance_at(s, g, 0, n).equals(Binary32::of_integer(0)),
        Binary32::of_integer(0).at_most(length_nm(s, g)),
{
    lemma_integer_finite(n - 1);
    law_one(Binary32::of_integer(n - 1), length_nm(s, g));
    lemma_zero_quotient(Binary32::of_integer(n - 1));
    lemma_zero_times(length_nm(s, g));
    let (x, y) = (
        g.dx.times(s.width_nm.over(Binary32::of_integer(s.cols))),
        g.dy.times(s.height_nm.over(Binary32::of_integer(s.rows))),
    );
    lemma_root_not_negative(x.times(x).plus(y.times(y)));
}

/// One sample of a line: it is shown, or it misses the image.
proof fn lemma_sample_shown(s: Surface, p0: Point, p1: Point, m: int, k: int)
    requires
        is_sound(s, p0, p1, m),
        0 <= k < sample_count(segment(s, p0, p1)),
    ensures
        ({
            let g = segment(s, p0, p1);
            let n = sample_count(g);
            match profile_point(s, g, k, n) {
                Some(pair) => shows(s, p0, p1, part(k, n), m, pair),
                None => misses(s, p0, p1, part(k, n), m),
            }
        }),
{
    let g = segment(s, p0, p1);
    let n = sample_count(g);
    lemma_count(g);
    lemma_coordinate(p0.x, p1.x, s.cols, k, n, m);
    lemma_coordinate(p0.y, p1.y, s.rows, k, n, m);
    lemma_distance(s, g, k, n);
    let f = fraction(k, n);
    let col = nearest_index(g.x0.plus(f.times(g.dx)));
    let row = nearest_index(g.y0.plus(f.times(g.dy)));
    if let Some(pair) = profile_point(s, g, k, n) {
        assert(pair.1 == s.data[row * s.cols + col]);
    } else {
        assert(col < 0 ==> col as real <= -(1 as real));
        assert(col >= s.cols ==> col as real >= s.cols as real);
        assert(row < 0 ==> row as real <= -(1 as real));
        assert(row >= s.rows ==> row as real >= s.rows as real);
        lemma_coordinate_strict(p0.x, p1.x, s.cols, k, n, m);
        lemma_coordinate_strict(p0.y, p1.y, s.rows, k, n, m);
    }
}

/// A coordinate whose nearest grid position is outside lies outside but for
/// rounding.
proof fn lemma_coordinate_strict(p: Binary32, q: Binary32, c: int, k: int, n: int, m: int)
    requires
        p.is_finite(),
        q.is_finite(),
        1 <= c <= 0x100_0000,
        1 <= m <= 0x10_0000,
        size(num(p)) <= m as real,
        size(num(q)) <= m as real,
        0 <= k < n,
        2 <= n <= 0x100_0000,
    ensures
        ({
            let r = Binary32::of_integer(c);
            let x0 = p.times(r);
            let dx = q.times(r).minus(x0);
            let i = nearest_index(x0.plus(fraction(k, n).times(dx)));
            let x = along(num(p) * c as real, num(q) * c as real, part(k, n));
            let half = 1 as real / 2 as real;
            &&& i < 0 ==> x <= wobble(c, m) - half
            &&& i >= c ==> x >= c as real - half - wobble(c, m)
        }),
{
    lemma_coordinate(p, q, c, k, n, m);
}

/// The parts of a line whose samples a profile holds are told by a list of
/// numbers of samples, in rising order.
pub open spec fn is_record(
    s: Surface,
    p0: Point,
    p1: Point,
    m: int,
    ks: Seq<int>,
    n: int,
    upto: int,
    pairs: Seq<(Binary32, Binary32)>,
) -> bool {
    &&& ks.len() == pairs.len()
    &&& forall|i: int, j: int| 0 <= i < j < ks.len() ==> #[trigger] ks[i] < #[trigger] ks[j]
    &&& forall|j: int|
        0 <= j < ks.len() ==> 0 <= #[trigger] ks[j] < upto && shows(
            s,
            p0,
            p1,
            part(ks[j], n),
            m,
            pairs[j],
        )
    &&& forall|k: int|
        0 <= k < upto && !ks.contains(k) ==> #[trigger] misses(s, p0, p1, part(k, n), m)
}

proof fn lemma_record(s: Surface, p0: Point, p1: Point, m: int, k: int) -> (ks: Seq<int>)
    requires
        is_sound(s, p0, p1, m),
        0 <= k <= sample_count(segment(s, p0, p1)),
    ensures
        ({
            let g = segment(s, p0, p1);
            let n = sample_count(g);
            is_record(s, p0, p1, m, ks, n, k, profile_upto(s, g, k, n))
        }),
    decreases k,
{
    let g = segment(s, p0, p1);
    let n = sample_count(g);
    if k == 0 {
        Seq::empty()
    } else {
        let before = lemma_record(s, p0, p1, m, k - 1);
        lemma_sample_shown(s, p0, p1, m, k - 1);
        let pairs = profile_upto(s, g, k - 1, n);
        match profile_point(s, g, k - 1, n) {
            Some(pair) => {
                let ks = before.push(k - 1);
                assert(ks[before.len() as int] == k - 1);
                assert forall|i: int| 0 <= i < k && !ks.contains(i) implies #[trigger] misses(
                    s,
                    p0,
                    p1,
                    part(i, n),
                    m,
                ) by {
                    assert(i != k - 1);
                    if before.contains(i) {
                        let j = choose|j: int| 0 <= j < before.len() && before[j] == i;
                        assert(ks[j] == i);
                    }
                }
                assert forall|j: int| 0 <= j < ks.len() implies 0 <= #[trigger] ks[j] < k && shows(
                    s,
                    p0,
                    p1,
                    part(ks[j], n),
                    m,
                    pairs.push(pair)[j],
                ) by {
                    if j < before.len() {
                        assert(ks[j] == before[j]);
                    }
                }
                assert forall|i: int, j: int| 0 <= i < j < ks.len() implies #[trigger] ks[i]
                    < #[trigger] ks[j] by {
                    assert(ks[i] == before[i]);
                    if j < before.len() {
                        assert(ks[j] == before[j]);
                    }
                }
                ks
            },
            None => {
                assert forall|i: int| 0 <= i < k && !before.contains(i) implies #[trigger] misses(
                    s,
                    p0,
                    p1,
                    part(i, n),
                    m,
                ) by {}
                before
            },
        }
    }
}

/// A profile follows the line that was drawn: its pairs belong to rising parts of
/// the line, evenly spaced from the start to the end; each holds the height of
/// the sample nearest to the point at that part, and that part of the length; and
/// the parts that it leaves out lie outside the image.
pub proof fn law_profile_follows_the_line(s: Surface, p0: Point, p1: Point, m: int)
    requires
        is_sound(s, p0, p1, m),
    ensures
        ({
            let n = sample_count(segment(s, p0, p1));
            exists|ks: Seq<int>| #[trigger]
                is_record(s, p0, p1, m, ks, n, n, profile(s, p0, p1))
        }),
{
    let g = segment(s, p0, p1);
    let n = sample_count(g);
    lemma_count(g);
    let ks = lemma_record(s, p0, p1, m, n);
    assert(is_record(s, p0, p1, m, ks, n, n, profile(s, p0, p1)));
}

// ---- lengths ----

/// The square of a length is near the sum of the squares.
proof fn lemma_norm(x: Binary32, y: Binary32)
    requires
        x.is_finite(),
        y.is_finite(),
        size(num(x)) <= 0x8000_0000 as real,
        size(num(y)) <= 0x8000_0000 as real,
    ensures
        ({
            let r = num(norm(x, y));
            let s = num(x) * num(x) + num(y) * num(y);
            &&& norm(x, y).is_finite()
            &&& r >= 0 as real
            &&& size(r * r - s) <= (s + 1 as real) * 64 as real / 0x100_0000 as real
        }),
{
    let w = 0x100_0000 as real;
    let top = 0x8000_0000 as real;
    let (a, b) = (num(x) * num(x), num(y) * num(y));
    let (c, d) = (size(num(x)), size(num(y)));
    assert(a == c * c && b == d * d && 0 as real <= a && a <= top * top && 0 as real <= b && b <= top
        * top) by (nonlinear_arith)
        requires
            a == num(x) * num(x),
            b == num(y) * num(y),
            c == size(num(x)),
            d == size(num(y)),
            0 as real <= c <= top,
            0 as real <= d <= top,
    ;
    assert(top * top == 0x4000_0000_0000_0000 as real) by (nonlinear_arith)
        requires
            top == 0x8000_0000 as real,
    ;
    lemma_finite_times(x, x);
    lemma_finite_times(y, y);
    law_times(x, x);
    law_times(y, y);
    let (p, q) = (x.times(x), y.times(y));
    lemma_rounded(a, num(p), a + 1 as real);
    lemma_rounded(b, num(q), b + 1 as real);
    let t = num(p) + num(q);
    let s = a + b;
    assert(size(t - s) <= 2 as real * (s + 2 as real) / w);
    lemma_finite_plus(p, q);
    law_plus(p, q);
    let u = p.plus(q);
    lemma_squares_not_negative(x);
    lemma_squares_not_negative(y);
    assert(t >= 0 as real);
    lemma_rounded_well(t, num(u), t);
    assert(num(u) >= 0 as real);
    law_sqrt(u);
    let r = num(u.sqrt());
    let rr = r * r;
    assert(rr >= 0 as real) by (nonlinear_arith)
        requires
            rr == r * r,
    ;
    assert(size(rr - num(u)) <= rr * 8 as real / w);
    assert(rr <= 2 as real * num(u));
    assert(num(u) <= 2 as real * s + 2 as real);
    assert(size(rr - num(u)) <= (4 as real * s + 4 as real) * 8 as real / w);
    assert(size(num(u) - t) <= (2 as real * s + 2 as real) / w);
}

proof fn lemma_squares_not_negative(x: Binary32)
    requires
        x.is_finite(),
        x.times(x).is_finite(),
    ensures
        num(x.times(x)) >= 0 as real,
{
    lemma_square(x);
}

/// How much rounding may change the square of a length: `a` and `b` are the sides
/// of the image, and no end of the line is farther out than `m` times these.
pub open spec fn slack(a: real, b: real, m: int) -> real {
    (m * m) as real * (a * a + b * b + 1 as real) / 0x2000 as real
}

/// Whether `n` is a length rounded up, and at least two; the square of the length
/// is near another number.
pub open spec fn is_step_count(n: int, length: real, square: real, bound: real) -> bool {
    &&& length >= 0 as real
    &&& size(length * length - square) <= bound
    &&& length <= n as real
    &&& n > 2 ==> length > (n - 1) as real
}

/// The number of samples of a line is its length in samples, rounded up, and at
/// least two.
pub proof fn law_one_sample_for_each_step(s: Surface, p0: Point, p1: Point, m: int)
    requires
        is_sound(s, p0, p1, m),
        m <= 0x20,
    ensures
        ({
            let n = sample_count(segment(s, p0, p1));
            let dx = num(p1.x) * s.cols as real - num(p0.x) * s.cols as real;
            let dy = num(p1.y) * s.rows as real - num(p0.y) * s.rows as real;
            n >= 2 && exists|r: real| #[trigger]
                is_step_count(
                    n,
                    r,
                    dx * dx + dy * dy,
                    slack(s.cols as real, s.rows as real, m),
                )
        }),
{
    let g = segment(s, p0, p1);
    let (c, d) = (s.cols, s.rows);
    lemma_side(p0.x, p1.x, c, m);
    lemma_side(p0.y, p1.y, d, m);
    let (x, y) = (num(g.dx), num(g.dy));
    let dx = num(p1.x) * c as real - num(p0.x) * c as real;
    let dy = num(p1.y) * d as real - num(p0.y) * d as real;
    lemma_norm(g.dx, g.dy);
    let r = num(norm(g.dx, g.dy));
    lemma_squared(x, dx, c as real, m);
    lemma_squared(y, dy, d as real, m);
    let (e, f, k) = (x * x + y * y, dx * dx + dy * dy, (m * m) as real);
    let t = c as real * c as real + d as real * d as real;
    lemma_budget(c as real, d as real, m, x * x, y * y, dx * dx, dy * dy, r * r);
    assert(r <= 0xc000_0000 as real) by (nonlinear_arith)
        requires
            r * r <= 0x8000_0000_0000_0000 as real,
            r >= 0 as real,
    ;
    assert(usize::MAX as int >= 0xffff_ffff);
    assert((usize::MAX as int) as real >= 0xffff_ffff as real);
    law_ceiling(norm(g.dx, g.dy), 0, usize::MAX as int);
    let n = sample_count(g);
    assert(is_step_count(n, r, dx * dx + dy * dy, slack(c as real, d as real, m)));
}

/// The rounded extent of a line along one axis.
proof fn lemma_side(p: Binary32, q: Binary32, c: int, m: int)
    requires
        p.is_finite(),
        q.is_finite(),
        1 <= c <= 0x100_0000,
        1 <= m <= 0x20,
        size(num(p)) <= m as real,
        size(num(q)) <= m as real,
    ensures
        ({
            let r = Binary32::of_integer(c);
            let dx = q.times(r).minus(p.times(r));
            let b = (m * c) as real;
            &&& dx.is_finite()
            &&& size(num(dx) - (num(q) * c as real - num(p) * c as real)) <= 7 as real * b
                / 0x100_0000 as real
            &&& size(num(dx)) <= 3 as real * b
            &&& size(num(q) * c as real - num(p) * c as real) <= 2 as real * b
            &&& b <= 0x2000_0000 as real
            &&& b == m as real * c as real
        }),
{
    let r = Binary32::of_integer(c);
    let b = (m * c) as real;
    lemma_of_integer_finite(c);
    law_of_integer(c);
    let (a0, a1) = (num(p) * c as real, num(q) * c as real);
    assert((m * c) as real == m as real * c as real) by (nonlinear_arith);
    assert(size(a0) == size(num(p)) * c as real && size(a1) == size(num(q)) * c as real)
        by (nonlinear_arith)
        requires
            c as real >= 1 as real,
            a0 == num(p) * c as real,
            a1 == num(q) * c as real,
    ;
    assert(size(num(p)) * c as real <= m as real * c as real && size(num(q)) * c as real
        <= m as real * c as real) by (nonlinear_arith)
        requires
            c as real >= 1 as real,
            size(num(p)) <= m as real,
            size(num(q)) <= m as real,
    ;
    assert(1 <= m * c <= 0x20 * 0x100_0000) by (nonlinear_arith)
        requires
            1 <= c <= 0x100_0000,
            1 <= m <= 0x20,
    ;
    lemma_finite_times(p, r);
    lemma_finite_times(q, r);
    law_times(p, r);
    law_times(q, r);
    let (x0, x1) = (p.times(r), q.times(r));
    lemma_rounded(a0, num(x0), b);
    lemma_rounded(a1, num(x1), b);
    let s = num(x1) - num(x0);
    lemma_finite_minus(x1, x0);
    law_minus(x1, x0);
    lemma_rounded_well(s, num(x1.minus(x0)), 3 as real * b);
}

/// The squares of near numbers are near.
proof fn lemma_squared(x: real, y: real, c: real, m: int)
    requires
        size(x - y) <= 16 as real * (m as real * c) / 0x100_0000 as real,
        size(x) <= 3 as real * (m as real * c),
        size(y) <= 2 as real * (m as real * c),
        c >= 0 as real,
        m >= 1,
    ensures
        size(x * x - y * y) <= 80 as real * ((m * m) as real * (c * c)) / 0x100_0000 as real,
        0 as real <= x * x,
        x * x <= 9 as real * ((m * m) as real * (c * c)),
{
    let b = m as real * c;
    let w = 0x100_0000 as real;
    assert(b * b == (m * m) as real * (c * c)) by {
        assert((m * m) as real == m as real * m as real) by (nonlinear_arith);
        let k = m as real;
        assert((k * c) * (k * c) == (k * k) * (c * c)) by (nonlinear_arith);
    }
    assert(b >= 0 as real) by (nonlinear_arith)
        requires
            b == m as real * c,
            m as real >= 0 as real,
            c >= 0 as real,
    ;
    assert(x * x - y * y == (x - y) * (x + y)) by (nonlinear_arith);
    let (d, t) = (x - y, x + y);
    assert(size(d * t) <= (16 as real * b / w) * (5 as real * b)) by (nonlinear_arith)
        requires
            size(d) <= 16 as real * b / w,
            size(t) <= 5 as real * b,
            b >= 0 as real,
            w > 0 as real,
    ;
    assert((16 as real * b / w) * (5 as real * b) == 80 as real * (b * b) / w) by (nonlinear_arith)
        requires
            w > 0 as real,
    ;
    assert(0 as real <= x * x && x * x <= 9 as real * (b * b)) by (nonlinear_arith)
        requires
            size(x) <= 3 as real * b,
            b >= 0 as real,
    ;
}

proof fn lemma_budget(
    a: real,
    b: real,
    m: int,
    xx: real,
    yy: real,
    dx2: real,
    dy2: real,
    rr: real,
)
    requires
        a >= 0 as real,
        b >= 0 as real,
        a <= 0x100_0000 as real,
        b <= 0x100_0000 as real,
        1 <= m <= 0x20,
        size(xx - dx2) <= 80 as real * ((m * m) as real * (a * a)) / 0x100_0000 as real,
        size(yy - dy2) <= 80 as real * ((m * m) as real * (b * b)) / 0x100_0000 as real,
        0 as real <= xx,
        xx <= 9 as real * ((m * m) as real * (a * a)),
        0 as real <= yy,
        yy <= 9 as real * ((m * m) as real * (b * b)),
        size(rr - (xx + yy)) <= (xx + yy + 1 as real) * 64 as real / 0x100_0000 as real,
    ensures
        size(rr - (dx2 + dy2)) <= slack(a, b, m),
        rr <= 0x8000_0000_0000_0000 as real,
{
    let k = (m * m) as real;
    let (p, q) = (k * (a * a), k * (b * b));
    assert(1 <= m * m <= 0x400) by (nonlinear_arith)
        requires
            1 <= m <= 0x20,
    ;
    let top = 0x100_0000 as real;
    assert(0 as real <= a * a && a * a <= top * top && 0 as real <= b * b && b * b <= top * top)
        by (nonlinear_arith)
        requires
            0 as real <= a <= top,
            0 as real <= b <= top,
    ;
    assert(top * top == 0x1_0000_0000_0000 as real) by (nonlinear_arith)
        requires
            top == 0x100_0000 as real,
    ;
    assert(0 as real <= p && p <= 0x400 as real * 0x1_0000_0000_0000 as real && 0 as real <= q && q
        <= 0x400 as real * 0x1_0000_0000_0000 as real) by (nonlinear_arith)
        requires
            p == k * (a * a),
            q == k * (b * b),
            1 as real <= k <= 0x400 as real,
            0 as real <= a * a,
            a * a <= 0x1_0000_0000_0000 as real,
            0 as real <= b * b,
            b * b <= 0x1_0000_0000_0000 as real,
    ;
    let sl = k * (a * a + b * b + 1 as real);
    assert(sl == p + q + k) by (nonlinear_arith)
        requires
            sl == k * (a * a + b * b + 1 as real),
            p == k * (a * a),
            q == k * (b * b),
    ;
    assert(slack(a, b, m) == sl / 0x2000 as real);
}

/// The rounded extent of a line along one axis, in nanometres: `size_nm` is the
/// size of the image there.
proof fn lemma_side_nm(p: Binary32, q: Binary32, c: int, size_nm: Binary32, m: int)
    requires
        p.is_finite(),
        q.is_finite(),
        size_nm.is_finite(),
        0 as real <= num(size_nm) < 0x100_0000 as real - 1 as real,
        1 <= c <= 0x100_0000,
        1 <= m <= 0x20,
        size(num(p)) <= m as real,
        size(num(q)) <= m as real,
    ensures
        ({
            let r = Binary32::of_integer(c);
            let dx = q.times(r).minus(p.times(r)).times(size_nm.over(r));
            let a = num(size_nm) + 1 as real;
            let true_x = (num(q) - num(p)) * num(size_nm);
            &&& dx.is_finite()
            &&& size(num(dx) - true_x) <= 16 as real * (m as real * a) / 0x100_0000 as real
            &&& size(num(dx)) <= 3 as real * (m as real * a)
            &&& size(true_x) <= 2 as real * (m as real * a)
            &&& m as real * a <= 0x2000_0000 as real
        }),
{
    let r = Binary32::of_integer(c);
    let w = 0x100_0000 as real;
    let cr = c as real;
    let b = (m * c) as real;
    lemma_side(p, q, c, m);
    lemma_of_integer_finite(c);
    law_of_integer(c);
    lemma_grain();
    let (g, sp) = (grain(Width::Single), speck(Width::Single));
    let side = q.times(r).minus(p.times(r));
    let d = num(q) * cr - num(p) * cr;
    let (dr, l) = (num(side), num(size_nm));
    // nanometres for each sample
    lemma_quotient_finite(size_nm, r);
    law_over(size_nm, r);
    let st = size_nm.over(r);
    let (h, hr) = (l / cr, num(st));
    assert(0 as real <= h && h <= l && h * cr == l) by (nonlinear_arith)
        requires
            h == l / cr,
            cr >= 1 as real,
            l >= 0 as real,
    ;
    assert(size(hr - h) <= h * g + sp);
    // the product
    let a = l + 1 as real;
    let ma = m as real * a;
    let (mc, ml) = (b, m as real * l);
    assert(b * h == ml) by (nonlinear_arith)
        requires
            b == m as real * cr,
            h * cr == l,
            ml == m as real * l,
    ;
    assert(ma == ml + m as real) by (nonlinear_arith)
        requires
            ma == m as real * (l + 1 as real),
            ml == m as real * l,
    ;
    assert(ml >= 0 as real) by (nonlinear_arith)
        requires
            ml == m as real * l,
            l >= 0 as real,
            m as real >= 1 as real,
    ;
    assert(ma <= 0x2000_0000 as real) by (nonlinear_arith)
        requires
            ma == m as real * a,
            1 as real <= m as real,
            m as real <= 0x20 as real,
            0 as real <= a,
            a <= 0x100_0000 as real,
    ;
    let true_x = (num(q) - num(p)) * l;
    assert(true_x == d * h) by (nonlinear_arith)
        requires
            true_x == (num(q) - num(p)) * l,
            d == num(q) * cr - num(p) * cr,
            h * cr == l,
    ;
    // how far the exact product of the rounded factors is off
    let e1 = dr - d;
    let e2 = hr - h;
    assert(size(e1 * h) <= 7 as real * ml / w) by (nonlinear_arith)
        requires
            size(e1) <= 7 as real * b / w,
            b * h == ml,
            h >= 0 as real,
            w > 0 as real,
    ;
    assert(size(dr * e2) <= 3 as real * (ml * g + b * sp)) by (nonlinear_arith)
        requires
            size(dr) <= 3 as real * b,
            size(e2) <= h * g + sp,
            b * h == ml,
            b >= 0 as real,
            g > 0 as real,
            sp > 0 as real,
            h >= 0 as real,
    ;
    assert(b * sp <= g / 2 as real) by (nonlinear_arith)
        requires
            sp * 0x1000_0000_0000_0000 as real <= g,
            b <= 0x2000_0000 as real,
            sp > 0 as real,
            g > 0 as real,
    ;
    assert(dr * hr - d * h == e1 * h + dr * e2) by (nonlinear_arith)
        requires
            e1 == dr - d,
            e2 == hr - h,
    ;
    assert(ml * g == ml / w) by (nonlinear_arith)
        requires
            g == 1 as real / w,
            w > 0 as real,
    ;
    let y = dr * hr;
    assert(size(true_x) <= 2 as real * ml) by (nonlinear_arith)
        requires
            true_x == d * h,
            size(d) <= 2 as real * b,
            b * h == ml,
            h >= 0 as real,
    ;
    assert(size(y - true_x) <= 10 as real * ml / w + 2 as real / w);
    assert(size(y) <= 3 as real * ma);
    lemma_finite_times(side, st);
    law_times(side, st);
    let v = side.times(st);
    assert(size(y) <= 5 as real * ml / 2 as real + 1 as real);
    lemma_rounded(y, num(v), 5 as real * ml / 2 as real + 1 as real);
    assert(size(num(v) - true_x) <= 16 as real * ma / w);
    assert(size(num(v)) <= 3 as real * ma);
}

/// The length of a line in nanometres: its square is near the sum of the squares
/// of its extents, which are the differences of the coordinates times the sizes of
/// the image.
pub proof fn law_length_is_that_of_the_line(s: Surface, p0: Point, p1: Point, m: int)
    requires
        is_sound(s, p0, p1, m),
        m <= 0x20,
        s.width_nm.is_finite(),
        s.height_nm.is_finite(),
        0 as real <= num(s.width_nm) < 0x100_0000 as real - 1 as real,
        0 as real <= num(s.height_nm) < 0x100_0000 as real - 1 as real,
    ensures
        ({
            let length = num(length_nm(s, segment(s, p0, p1)));
            let dx = (num(p1.x) - num(p0.x)) * num(s.width_nm);
            let dy = (num(p1.y) - num(p0.y)) * num(s.height_nm);
            &&& length >= 0 as real
            &&& size(length * length - (dx * dx + dy * dy)) <= slack(
                num(s.width_nm) + 1 as real,
                num(s.height_nm) + 1 as real,
                m,
            )
        }),
{
    let g = segment(s, p0, p1);
    lemma_side_nm(p0.x, p1.x, s.cols, s.width_nm, m);
    lemma_side_nm(p0.y, p1.y, s.rows, s.height_nm, m);
    let (a, b) = (num(s.width_nm) + 1 as real, num(s.height_nm) + 1 as real);
    let x = g.dx.times(s.width_nm.over(Binary32::of_integer(s.cols)));
    let y = g.dy.times(s.height_nm.over(Binary32::of_integer(s.rows)));
    let dx = (num(p1.x) - num(p0.x)) * num(s.width_nm);
    let dy = (num(p1.y) - num(p0.y)) * num(s.height_nm);
    lemma_norm(x, y);
    lemma_squared(num(x), dx, a, m);
    lemma_squared(num(y), dy, b, m);
    let r = num(norm(x, y));
    lemma_budget(
        a,
        b,
        m,
        num(x) * num(x),
        num(y) * num(y),
        dx * dx,
        dy * dy,
        r * r,
    );
}

} // verus!
