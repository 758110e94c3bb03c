//! Line profiles across an image.

use crate::binary::{Binary32, Binary64};
use crate::filter::{epsilon, EPSILON};
use crate::float::{product, to_int, Toward};
use crate::order::{
    law_conversion_keeps_order, law_one, law_quotient_keeps_order, law_scaling_keeps_order,
    lemma_integer_finite, lemma_one, lemma_root_not_negative, lemma_zero,
    lemma_zero_quotient,
};
use crate::spm::{ImageModel, SpmImage};
use vstd::prelude::*;

verus! {

/// A grid of heights with its physical size.
pub struct Surface {
    pub data: Seq<Binary32>,
    pub rows: int,
    pub cols: int,
    pub width_nm: Binary32,
    pub height_nm: Binary32,
}

/// A point of an image, as fractions of its width and height.
#[derive(Clone, Copy, PartialEq, Eq, Structural, Debug)]
pub struct Point {
    pub x: Binary32,
    pub y: Binary32,
}

/// A line on the grid of an image, in samples.
pub struct Segment {
    pub x0: Binary32,
    pub y0: Binary32,
    pub dx: Binary32,
    pub dy: Binary32,
}

/// The line between two points.
pub open spec fn segment(s: Surface, p0: Point, p1: Point) -> Segment {
    let (cols, rows) = (Binary32::of_integer(s.cols), Binary32::of_integer(s.rows));
    let (x0, y0) = (p0.x.times(cols), p0.y.times(rows));
    let (x1, y1) = (p1.x.times(cols), p1.y.times(rows));
    Segment { x0, y0, dx: x1.minus(x0), dy: y1.minus(y0) }
}

/// The length of a vector.
pub open spec fn norm(x: Binary32, y: Binary32) -> Binary32 {
    x.times(x).plus(y.times(y)).sqrt()
}

/// The number of samples along a line: one for each step on the grid, and at
/// least two.
pub open spec fn sample_count(g: Segment) -> int {
    let n = norm(g.dx, g.dy).integer(Toward::Ceil, 0, usize::MAX as int);
    if n > 2 {
        n
    } else {
        2
    }
}

/// The length of a line in nanometres.
pub open spec fn length_nm(s: Surface, g: Segment) -> Binary32 {
    norm(
        g.dx.times(s.width_nm.over(Binary32::of_integer(s.cols))),
        g.dy.times(s.height_nm.over(Binary32::of_integer(s.rows))),
    )
}

/// How far sample `i` of `n` lies along a line.
pub open spec fn fraction(i: int, n: int) -> Binary32 {
    Binary32::of_integer(i).over(Binary32::of_integer(n - 1))
}

/// The grid position nearest to a coordinate.
pub open spec fn nearest_index(v: Binary32) -> int {
    v.integer(Toward::Nearest, i64::MIN as int, i64::MAX as int)
}

/// Sample `i` of `n` along a line: its distance from the start and the height
/// there; none when it falls outside the image.
pub open spec fn profile_point(s: Surface, g: Segment, i: int, n: int) -> Option<
    (Binary32, Binary32),
> {
    let f = fraction(i, n);
    let col = nearest_index(g.x0.plus(f.times(g.dx)));
    let row = nearest_index(g.y0.plus(f.times(g.dy)));
    if 0 <= col < s.cols && 0 <= row < s.rows {
        Some((f.times(length_nm(s, g)), s.data[row * s.cols + col]))
    } else {
        None
    }
}

/// The first `k` of `n` samples along a line, without those outside the image.
pub open spec fn profile_upto(s: Surface, g: Segment, k: int, n: int) -> Seq<(Binary32, Binary32)>
    decreases k,
{
    if k <= 0 {
        Seq::empty()
    } else {
        match profile_point(s, g, k - 1, n) {
            Some(p) => profile_upto(s, g, k - 1, n).push(p),
            None => profile_upto(s, g, k - 1, n),
        }
    }
}

/// The profile between two points.
pub open spec fn profile(s: Surface, p0: Point, p1: Point) -> Seq<(Binary32, Binary32)> {
    let g = segment(s, p0, p1);
    profile_upto(s, g, sample_count(g), sample_count(g))
}

fn norm_of(x: Binary32, y: Binary32) -> (r: Binary32)
    ensures
        r == norm(x, y),
{
    x.times(x).plus(y.times(y)).sqrt()
}

/// Samples the heights along the line between two points: pairs of a distance
/// and a height, in nanometres.
pub fn sample_line(
    data: &[Binary32],
    rows: usize,
    cols: usize,
    width_nm: Binary32,
    height_nm: Binary32,
    p0: Point,
    p1: Point,
) -> (r: Vec<(Binary32, Binary32)>)
    requires
        rows * cols <= data@.len(),
    ensures
        r@ == profile(
            Surface { data: data@, rows: rows as int, cols: cols as int, width_nm, height_nm },
            p0,
            p1,
        ),
{
    let ghost s = Surface {
        data: data@,
        rows: rows as int,
        cols: cols as int,
        width_nm,
        height_nm,
    };
    let ghost g = segment(s, p0, p1);
    let len: usize = data.len();
    let cf: Binary32 = Binary32::from_usize(cols);
    let rf: Binary32 = Binary32::from_usize(rows);
    let x0: Binary32 = p0.x.times(cf);
    let y0: Binary32 = p0.y.times(rf);
    let dx: Binary32 = p1.x.times(cf).minus(x0);
    let dy: Binary32 = p1.y.times(rf).minus(y0);
    let steps: usize = norm_of(dx, dy).to_usize(Toward::Ceil);
    let n: usize = if steps > 2 {
        steps
    } else {
        2
    };
    let total: Binary32 = norm_of(dx.times(width_nm.over(cf)), dy.times(height_nm.over(rf)));
    let last: Binary32 = Binary32::from_usize(n - 1);
    let mut out: Vec<(Binary32, Binary32)> = Vec::new();
    let mut i: usize = 0;
    while i < n
        invariant
            i <= n,
            len == data@.len(),
            rows * cols <= len,
            s == (Surface {
                data: data@,
                rows: rows as int,
                cols: cols as int,
                width_nm,
                height_nm,
            }),
            g == (Segment { x0, y0, dx, dy }),
            total == length_nm(s, g),
            last == Binary32::of_integer(n - 1),
            out@ == profile_upto(s, g, i as int, n as int),
        decreases n - i,
    {
        let f: Binary32 = Binary32::from_usize(i).over(last);
        let col: i64 = x0.plus(f.times(dx)).to_i64(Toward::Nearest);
        let row: i64 = y0.plus(f.times(dy)).to_i64(Toward::Nearest);
        if col >= 0 && row >= 0 && (col as u64) < cols as u64 && (row as u64) < rows as u64 {
            let (c, r) = (col as usize, row as usize);
            proof {
                crate::grid::lemma_place(cols as int, rows as int, r as int, c as int);
                assert(cols * rows == rows * cols) by (nonlinear_arith);
            }
            out.push((f.times(total), data[r * cols + c]));
        }
        i += 1;
    }
    out
}

/// The surface of an image.
pub open spec fn surface_of(m: ImageModel) -> Surface {
    Surface {
        data: m.data,
        rows: m.rows,
        cols: m.cols,
        width_nm: m.width_nm,
        height_nm: m.height_nm,
    }
}

/// Samples the heights of an image along the line between two points: pairs of
/// a distance and a height, in nanometres.
pub fn line_profile(image: &SpmImage, p0: Point, p1: Point) -> (r: Vec<(Binary32, Binary32)>)
    requires
        image.wf(),
    ensures
        r@ == profile(surface_of(image@), p0, p1),
{
    assert(image.number_of_lines * image.samps_per_line == image.samps_per_line
        * image.number_of_lines) by (nonlinear_arith);
    sample_line(
        image.data.as_slice(),
        image.number_of_lines,
        image.samps_per_line,
        image.scan_size_x_nm,
        image.scan_size_y_nm,
        p0,
        p1,
    )
}

/// Every point of a profile has the height of some sample of the image.
pub proof fn law_profile_heights_are_samples(s: Surface, p0: Point, p1: Point, i: int)
    requires
        s.rows * s.cols <= s.data.len(),
        0 <= i < profile(s, p0, p1).len(),
    ensures
        s.data.contains(profile(s, p0, p1)[i].1),
{
    let g = segment(s, p0, p1);
    lemma_heights(s, g, sample_count(g), sample_count(g), i);
}

proof fn lemma_heights(s: Surface, g: Segment, k: int, n: int, i: int)
    requires
        s.rows * s.cols <= s.data.len(),
        0 <= i < profile_upto(s, g, k, n).len(),
    ensures
        s.data.contains(profile_upto(s, g, k, n)[i].1),
    decreases k,
{
    if k > 0 {
        let before = profile_upto(s, g, k - 1, n);
        match profile_point(s, g, k - 1, n) {
            Some(p) => {
                if i == before.len() {
                    let f = fraction(k - 1, n);
                    let col = nearest_index(g.x0.plus(f.times(g.dx)));
                    let row = nearest_index(g.y0.plus(f.times(g.dy)));
                    crate::grid::lemma_place(s.cols, s.rows, row, col);
                    assert(s.cols * s.rows == s.rows * s.cols) by (nonlinear_arith);
                    assert(s.data[row * s.cols + col] == p.1);
                } else {
                    lemma_heights(s, g, k - 1, n, i);
                }
            },
            None => {
                lemma_heights(s, g, k - 1, n, i);
            },
        }
    }
}

/// A profile has at most as many points as the line has samples.
pub proof fn law_profile_length(s: Surface, p0: Point, p1: Point)
    ensures
        profile(s, p0, p1).len() <= sample_count(segment(s, p0, p1)),
{
    let g = segment(s, p0, p1);
    lemma_profile_length(s, g, sample_count(g), sample_count(g));
}

proof fn lemma_profile_length(s: Surface, g: Segment, k: int, n: int)
    requires
        k >= 0,
    ensures
        profile_upto(s, g, k, n).len() <= k,
    decreases k,
{
    if k > 0 {
        lemma_profile_length(s, g, k - 1, n);
    }
}

/// How far sample `i` of `n` is from the start of a line, in nanometres.
pub open spec fn distance_at(s: Surface, g: Segment, i: int, n: int) -> Binary32 {
    fraction(i, n).times(length_nm(s, g))
}

/// Later samples are not nearer to the start.
pub(crate) proof fn lemma_distance_ordered(s: Surface, g: Segment, i: int, j: int, n: int)
    requires
        0 <= i <= j < n <= usize::MAX,
        n >= 2,
        length_nm(s, g).is_finite(),
    ensures
        distance_at(s, g, i, n).at_most(distance_at(s, g, j, n)),
{
    let last = Binary32::of_integer(n - 1);
    lemma_integer_finite(n - 1);
    lemma_integer_finite(i);
    lemma_integer_finite(j);
    law_conversion_keeps_order(i, j);
    law_conversion_keeps_order(j, n - 1);
    law_quotient_keeps_order(Binary32::of_integer(i), Binary32::of_integer(j), last);
    law_quotient_keeps_order(Binary32::of_integer(j), last, last);
    law_quotient_keeps_order(Binary32::of_integer(0), Binary32::of_integer(i), last);
    law_one(last, last);
    lemma_zero_quotient(last);
    lemma_one();
    lemma_zero();
    let l = length_nm(s, g);
    let (x, y) = (
        g.dx.times(s.width_nm.over(Binary32::of_integer(s.cols))),
        g.dy.times(s.height_nm.over(Binary32::of_integer(s.rows))),
    );
    lemma_root_not_negative(x.times(x).plus(y.times(y)));
    law_scaling_keeps_order(fraction(i, n), fraction(j, n), l);
}

proof fn lemma_distances(s: Surface, g: Segment, k: int, n: int, i: int, j: int)
    requires
        0 <= i <= j < profile_upto(s, g, k, n).len(),
        k <= n <= usize::MAX,
        n >= 2,
        length_nm(s, g).is_finite(),
    ensures
        profile_upto(s, g, k, n)[i].0.at_most(profile_upto(s, g, k, n)[j].0),
        k >= 1,
        profile_upto(s, g, k, n)[j].0.at_most(distance_at(s, g, k - 1, n)),
    decreases k,
{
    if k > 0 {
        let before = profile_upto(s, g, k - 1, n);
        lemma_distance_ordered(s, g, k - 1, k - 1, n);
        if j < before.len() {
            lemma_distances(s, g, k - 1, n, i, j);
            lemma_distance_ordered(s, g, k - 2, k - 1, n);
        } else if i < before.len() {
            lemma_distances(s, g, k - 1, n, i, i);
            lemma_distance_ordered(s, g, k - 2, k - 1, n);
        }
    }
}

/// The distances of a profile never decrease.
pub proof fn law_distances_never_decrease(s: Surface, p0: Point, p1: Point, i: int, j: int)
    requires
        0 <= i <= j < profile(s, p0, p1).len(),
        length_nm(s, segment(s, p0, p1)).is_finite(),
    ensures
        profile(s, p0, p1)[i].0.at_most(profile(s, p0, p1)[j].0),
{
    let g = segment(s, p0, p1);
    lemma_count(g);
    lemma_distances(s, g, sample_count(g), sample_count(g), i, j);
}

pub(crate) proof fn lemma_count(g: Segment)
    ensures
        2 <= sample_count(g) <= usize::MAX,
{
    reveal(to_int);
}

proof fn lemma_first(s: Surface, g: Segment, k: int, n: int)
    requires
        k >= 1,
        profile_point(s, g, 0, n) is Some,
    ensures
        profile_upto(s, g, k, n).len() > 0,
        profile_upto(s, g, k, n)[0] == profile_point(s, g, 0, n)->0,
    decreases k,
{
    if k > 1 {
        lemma_first(s, g, k - 1, n);
    } else {
        assert(profile_upto(s, g, 0, n).len() == 0);
    }
}

/// A profile whose start lies in the image begins at the distance 0.
pub proof fn law_profile_starts_at_zero(s: Surface, p0: Point, p1: Point)
    requires
        length_nm(s, segment(s, p0, p1)).is_finite(),
        ({
            let g = segment(s, p0, p1);
            profile_point(s, g, 0, sample_count(g)) is Some
        }),
    ensures
        profile(s, p0, p1).len() > 0,
        profile(s, p0, p1)[0].0.equals(Binary32::of_integer(0)),
{
    let g = segment(s, p0, p1);
    let n = sample_count(g);
    lemma_count(g);
    lemma_first(s, g, n, n);
    lemma_integer_finite(n - 1);
    lemma_zero_quotient(Binary32::of_integer(n - 1));
    lemma_zero_times(length_nm(s, g));
}

pub(crate) proof fn lemma_zero_times(a: Binary32)
    requires
        a.is_finite(),
    ensures
        Binary32::of_integer(0).times(a).equals(Binary32::of_integer(0)),
{
    reveal(product);
    lemma_zero();
}

/// A profile whose end lies in the image ends at the length of the line.
pub proof fn law_profile_ends_at_the_length(s: Surface, p0: Point, p1: Point)
    requires
        length_nm(s, segment(s, p0, p1)).is_finite(),
        ({
            let g = segment(s, p0, p1);
            profile_point(s, g, sample_count(g) - 1, sample_count(g)) is Some
        }),
    ensures
        profile(s, p0, p1).len() > 0,
        profile(s, p0, p1).last().0 == length_nm(s, segment(s, p0, p1)),
{
    let g = segment(s, p0, p1);
    let n = sample_count(g);
    lemma_count(g);
    lemma_integer_finite(n - 1);
    law_one(Binary32::of_integer(n - 1), length_nm(s, g));
}

/// No distance of a profile exceeds the length of the line.
pub proof fn law_distances_within_the_length(s: Surface, p0: Point, p1: Point, i: int)
    requires
        0 <= i < profile(s, p0, p1).len(),
        length_nm(s, segment(s, p0, p1)).is_finite(),
    ensures
        profile(s, p0, p1)[i].0.at_most(length_nm(s, segment(s, p0, p1))),
{
    let g = segment(s, p0, p1);
    let n = sample_count(g);
    lemma_count(g);
    lemma_distances(s, g, n, n, i, i);
    lemma_integer_finite(n - 1);
    law_one(Binary32::of_integer(n - 1), length_nm(s, g));
}

// ---- reading a profile ----

/// The first point at or beyond a distance; the number of points when there is
/// none.
pub open spec fn first_beyond(p: Seq<(Binary32, Binary32)>, x: Binary32) -> nat
    decreases p.len(),
{
    if p.len() == 0 || x.at_most(p[0].0) {
        0
    } else {
        1 + first_beyond(p.drop_first(), x)
    }
}

/// The height between two points of a profile.
pub open spec fn height_between(
    a: (Binary32, Binary32),
    b: (Binary32, Binary32),
    x: Binary32,
) -> Binary32 {
    let t = if b.0.minus(a.0).abs().below(epsilon()) {
        Binary32::of_integer(0)
    } else {
        x.minus(a.0).over(b.0.minus(a.0))
    };
    a.1.plus(t.times(b.1.minus(a.1)))
}

/// The height of a profile at a distance: interpolated between the two points
/// around it, and that of the first or last point outside the profile.
pub open spec fn height_at(p: Seq<(Binary32, Binary32)>, x_nm: Binary64) -> Binary64 {
    let x = x_nm.narrow();
    let i = first_beyond(p, x) as int;
    if p.len() == 0 {
        Binary64::of_integer(0)
    } else if i == p.len() {
        p.last().1.widen()
    } else if i == 0 {
        p[0].1.widen()
    } else {
        height_between(p[i - 1], p[i], x).widen()
    }
}

/// Interpolates the height of a profile at a distance.
pub fn interp_height(profile: &[(Binary32, Binary32)], x_nm: Binary64) -> (r: Binary64)
    ensures
        r == height_at(profile@, x_nm),
{
    let x: Binary32 = x_nm.narrow();
    let n: usize = profile.len();
    if n == 0 {
        return Binary64::from_usize(0);
    }
    let mut i: usize = 0;
    assert(profile@.skip(0) == profile@);
    while i < n && !x.at_most(profile[i].0)
        invariant
            n == profile@.len(),
            i <= n,
            first_beyond(profile@, x) == i + first_beyond(profile@.skip(i as int), x),
        decreases n - i,
    {
        assert(profile@.skip(i as int).drop_first() == profile@.skip(i as int + 1));
        i += 1;
    }
    if i == n {
        profile[n - 1].1.widen()
    } else if i == 0 {
        profile[0].1.widen()
    } else {
        let (d0, h0) = profile[i - 1];
        let (d1, h1) = profile[i];
        let t: Binary32 = if d1.minus(d0).abs().below(Binary32 { bits: EPSILON }) {
            Binary32::from_usize(0)
        } else {
            x.minus(d0).over(d1.minus(d0))
        };
        h0.plus(t.times(h1.minus(h0))).widen()
    }
}

} // verus!
