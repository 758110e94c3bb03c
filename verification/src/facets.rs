//! What a mesh is made of: triangles that cover every cell, and normals that stand on
//! the surface.

use crate::binary::Binary32;
use crate::drawn_line::lemma_rounded_well;
use crate::fitting::lemma_rounded_small;
use crate::float::Width;
use crate::grid::lemma_place;
use crate::measures::lemma_ratio_of_near;
use crate::mesh::{
    cell, length_recip, mesh_height, mesh_normal, slope, triangles, unit_vector, Relief, Vec3,
};
use crate::reals::{
    grain, law_compare, law_minus, law_of_integer, law_over, law_plus, law_sqrt, law_times,
    lemma_finite_minus, lemma_finite_over, lemma_finite_plus, lemma_finite_times, lemma_grain,
    lemma_of_integer_finite, num, size, speck,
};
use vstd::prelude::*;

verus! {

// ---- triangles ----

proof fn lemma_triangles_of(w: int, n: int, m: int)
    requires
        w >= 2,
        0 <= m < n,
    ensures
        triangles(w, n).len() == 6 * n,
        forall|j: int|
            0 <= j < 6 ==> #[trigger] triangles(w, n)[6 * m + j] == cell(
                w,
                m / (w - 1),
                m % (w - 1),
            )[j],
    decreases n,
{
    lemma_triangles_len(w, n);
    lemma_triangles_len(w, n - 1);
    if m < n - 1 {
        lemma_triangles_of(w, n - 1, m);
        assert forall|j: int| 0 <= j < 6 implies #[trigger] triangles(w, n)[6 * m + j] == cell(
            w,
            m / (w - 1),
            m % (w - 1),
        )[j] by {
            assert(triangles(w, n)[6 * m + j] == triangles(w, n - 1)[6 * m + j]);
        }
    }
}

proof fn lemma_triangles_len(w: int, n: int)
    requires
        0 <= n,
    ensures
        triangles(w, n).len() == 6 * n,
    decreases n,
{
    if n > 0 {
        lemma_triangles_len(w, n - 1);
    }
}

/// Whether an index is that of the corner at a place.
pub open spec fn is_corner(i: u32, w: int, row: int, col: int) -> bool {
    i == row * w + col
}

/// Every cell of the grid is covered by two triangles, above and below its diagonal, with
/// their corners in the same turn.
pub proof fn law_cell_is_two_triangles(w: int, h: int, row: int, col: int)
    requires
        w >= 2,
        h >= 2,
        w * h <= u32::MAX,
        0 <= row < h - 1,
        0 <= col < w - 1,
    ensures
        ({
            let t = triangles(w, (w - 1) * (h - 1));
            let k = 6 * (row * (w - 1) + col);
            &&& 0 <= k && k + 6 <= t.len()
            &&& is_corner(t[k], w, row, col)
            &&& is_corner(t[k + 1], w, row, col + 1)
            &&& is_corner(t[k + 2], w, row + 1, col + 1)
            &&& is_corner(t[k + 3], w, row, col)
            &&& is_corner(t[k + 4], w, row + 1, col + 1)
            &&& is_corner(t[k + 5], w, row + 1, col)
        }),
{
    let n = (w - 1) * (h - 1);
    let m = row * (w - 1) + col;
    lemma_place(w - 1, h - 1, row, col);
    lemma_triangles_of(w, n, m);
    lemma_place(w, h, row + 1, col + 1);
    lemma_place(w, h, row, col);
    assert((row + 1) * w == row * w + w) by (nonlinear_arith);
    let t = triangles(w, n);
    let c = cell(w, row, col);
    assert(t[6 * m + 0] == c[0]);
    assert(t[6 * m + 1] == c[1]);
    assert(t[6 * m + 2] == c[2]);
    assert(t[6 * m + 3] == c[3]);
    assert(t[6 * m + 4] == c[4]);
    assert(t[6 * m + 5] == c[5]);
}

// ---- normals ----

/// A square, rounded.
proof fn lemma_square_near(x: Binary32)
    requires
        x.is_finite(),
        size(num(x)) <= 0x10_0000 as real,
    ensures
        x.times(x).is_finite(),
        size(num(x.times(x)) - num(x) * num(x)) <= num(x) * num(x) / 0x100_0000 as real + 1 as real
            / 0x100_0000_0000_0000 as real,
        0 as real <= num(x) * num(x) <= 0x100_0000_0000 as real,
{
    let y = num(x);
    assert(0 as real <= y * y && y * y <= 0x100_0000_0000 as real) by (nonlinear_arith)
        requires
            size(y) <= 0x10_0000 as real,
    ;
    lemma_finite_times(x, x);
    law_times(x, x);
    lemma_rounded_small(y * y, num(x.times(x)), y * y);
}

/// The reciprocal of a vector's length.
proof fn lemma_recip(v: Vec3)
    requires
        v.x.is_finite() && size(num(v.x)) <= 0x10_0000 as real,
        v.z.is_finite() && size(num(v.z)) <= 0x10_0000 as real,
        v.y.is_finite() && num(v.y) == 1 as real,
    ensures
        ({
            let r = num(length_recip(v));
            let l = num(v.x) * num(v.x) + 1 as real + num(v.z) * num(v.z);
            &&& length_recip(v).is_finite()
            &&& r > 0 as real
            &&& r <= 2 as real
            &&& size(r * r * l - 1 as real) <= 1 as real / 0x4_0000 as real
        }),
{
    let w = 0x100_0000 as real;
    lemma_square_near(v.x);
    lemma_square_near(v.y);
    lemma_square_near(v.z);
    let (a, b, c) = (v.x.times(v.x), v.y.times(v.y), v.z.times(v.z));
    let (xx, zz) = (num(v.x) * num(v.x), num(v.z) * num(v.z));
    let l = xx + 1 as real + zz;
    lemma_finite_plus(a, b);
    law_plus(a, b);
    let s = a.plus(b);
    lemma_rounded_well(num(a) + num(b), num(s), 2 as real * l);
    lemma_finite_plus(s, c);
    law_plus(s, c);
    let t = s.plus(c);
    lemma_rounded_well(num(s) + num(c), num(t), 2 as real * l);
    let n = num(t);
    assert(size(n - l) <= 8 as real * l / w);
    law_sqrt(t);
    let q = num(t.sqrt());
    let qq = q * q;
    let one = Binary32::of_integer(1);
    lemma_of_integer_finite(1);
    law_of_integer(1);
    assert(qq >= 1 as real / 2 as real);
    assert(q >= 1 as real / 2 as real) by (nonlinear_arith)
        requires
            q * q >= 1 as real / 2 as real,
            q >= 0 as real,
    ;
    assert(q <= 0x20_0000 as real) by (nonlinear_arith)
        requires
            q * q <= 0x400_0000_0000 as real,
            q >= 0 as real,
    ;
    lemma_finite_over(one, t.sqrt());
    law_over(one, t.sqrt());
    let r = num(length_recip(v));
    let k = 1 as real / q;
    lemma_grain();
    let (g, sp) = (
        grain(Width::Single),
        speck(Width::Single),
    );
    assert(k * q == 1 as real && k > 0 as real && k <= 2 as real) by (nonlinear_arith)
        requires
            k == 1 as real / q,
            q >= 1 as real / 2 as real,
    ;
    let e = r * q - 1 as real;
    let d = r - k;
    assert(e == d * q) by (nonlinear_arith)
        requires
            e == r * q - 1 as real,
            d == r - k,
            k * q == 1 as real,
    ;
    assert(size(d * q) <= (k * g + sp) * q) by (nonlinear_arith)
        requires
            size(d) <= k * g + sp,
            q >= 0 as real,
    ;
    assert((k * g + sp) * q == g + sp * q) by (nonlinear_arith)
        requires
            k * q == 1 as real,
    ;
    assert(sp * q <= g) by (nonlinear_arith)
        requires
            sp * 0x1000_0000_0000_0000 as real <= g,
            sp >= 0 as real,
            0 as real <= q,
            q <= 0x20_0000 as real,
    ;
    assert(size(e) <= 2 as real / w);
    assert(r > 0 as real && r <= 3 as real) by (nonlinear_arith)
        requires
            r * q >= 1 as real / 2 as real,
            r * q <= 5 as real / 4 as real,
            q >= 1 as real / 2 as real,
    ;
    // r^2 l = (r q)^2 (l / q^2)
    let rq = r * q;
    let rr = r * r;
    assert(rr * qq == rq * rq) by (nonlinear_arith)
        requires
            rr == r * r,
            qq == q * q,
            rq == r * q,
    ;
    assert(size(rq * rq - 1 as real) <= 5 as real / w) by (nonlinear_arith)
        requires
            size(rq - 1 as real) <= 2 as real / w,
            w == 0x100_0000 as real,
    ;
    let f = qq - l;
    assert(size(f) <= qq / 0x10_0000 as real);
    assert(rr * l == rr * qq - rr * f) by (nonlinear_arith)
        requires
            f == qq - l,
    ;
    assert(size(rr * f) <= rr * (qq / 0x10_0000 as real)) by (nonlinear_arith)
        requires
            size(f) <= qq / 0x10_0000 as real,
            rr == r * r,
    ;
    assert(rr * (qq / 0x10_0000 as real) == rr * qq / 0x10_0000 as real) by (nonlinear_arith);
    assert(r * r * l == rr * l) by (nonlinear_arith)
        requires
            rr == r * r,
    ;
    assert(r <= 2 as real) by (nonlinear_arith)
        requires
            rr * qq <= 1 as real + 5 as real / w,
            rr == r * r,
            qq >= 1 as real / 2 as real,
            w == 0x100_0000 as real,
            r > 0 as real,
    ;
}

/// A vector with a part of one along the height is scaled to a length of one, and keeps
/// its direction, but for rounding.
pub proof fn law_unit_vector_has_length_one(v: Vec3)
    requires
        v.x.is_finite() && size(num(v.x)) <= 0x10_0000 as real,
        v.z.is_finite() && size(num(v.z)) <= 0x10_0000 as real,
        v.y.is_finite() && num(v.y) == 1 as real,
    ensures
        ({
            let n = unit_vector(v);
            let r = num(length_recip(v));
            let l = num(v.x) * num(v.x) + 1 as real + num(v.z) * num(v.z);
            let e = 4 as real / 0x100_0000 as real;
            &&& r > 0 as real
            &&& size(r * r * l - 1 as real) <= 1 as real / 0x4_0000 as real
            &&& size(num(n.x) - num(v.x) * r) <= e
            &&& size(num(n.y) - r) <= e
            &&& size(num(n.z) - num(v.z) * r) <= e
        }),
{
    lemma_recip(v);
    let zero = Binary32::of_integer(0);
    lemma_of_integer_finite(0);
    law_of_integer(0);
    let r = length_recip(v);
    law_compare(zero, r);
    let (x, y, z, k) = (num(v.x), num(v.y), num(v.z), num(r));
    let kk = k * k;
    assert(kk * (x * x) <= 2 as real && kk * (z * z) <= 2 as real && kk >= 0 as real)
        by (nonlinear_arith)
        requires
            kk == k * k,
            k * k * (x * x + 1 as real + z * z) <= 2 as real,
    ;
    assert(size(x * k) <= 3 as real / 2 as real) by (nonlinear_arith)
        requires
            kk == k * k,
            kk * (x * x) <= 2 as real,
    ;
    assert(size(z * k) <= 3 as real / 2 as real) by (nonlinear_arith)
        requires
            kk == k * k,
            kk * (z * z) <= 2 as real,
    ;
    assert(y * k == k) by (nonlinear_arith)
        requires
            y == 1 as real,
    ;
    lemma_finite_times(v.x, r);
    law_times(v.x, r);
    lemma_rounded_small(x * k, num(v.x.times(r)), 2 as real);
    lemma_finite_times(v.y, r);
    law_times(v.y, r);
    lemma_rounded_small(y * k, num(v.y.times(r)), 2 as real);
    lemma_finite_times(v.z, r);
    law_times(v.z, r);
    lemma_rounded_small(z * k, num(v.z.times(r)), 2 as real);
}

/// A slope is the difference of two heights over twice the distance of neighbouring
/// samples, but for rounding; `b` bounds it.
pub proof fn law_slope_is_a_difference_quotient(
    high: Binary32,
    low: Binary32,
    n: int,
    span: Binary32,
    b: real,
)
    requires
        high.is_finite() && size(num(high)) <= 0x100_0000 as real,
        low.is_finite() && size(num(low)) <= 0x100_0000 as real,
        span.is_finite() && 1 as real / 0x100 as real <= num(span) <= 0x100 as real,
        2 <= n <= 0x1_0000,
        1 as real <= b <= 0x1000_0000_0000 as real,
        size(num(high) - num(low)) <= b * (2 as real * (num(span) / (n - 1) as real)),
    ensures
        slope(high, low, n, span).is_finite(),
        size(
            num(slope(high, low, n, span)) - (num(high) - num(low)) / (2 as real * (num(span) / (n
                - 1) as real)),
        ) <= b / 0x8_0000 as real,
{
    let w = 0x100_0000 as real;
    let v = 0x20_0000 as real;
    lemma_finite_minus(high, low);
    law_minus(high, low);
    let d = high.minus(low);
    let p = num(high) - num(low);
    lemma_rounded_well(p, num(d), size(p));
    let (two, m) = (Binary32::of_integer(2), Binary32::of_integer(n - 1));
    lemma_of_integer_finite(2);
    lemma_of_integer_finite(n - 1);
    law_of_integer(2);
    law_of_integer(n - 1);
    let (s, y) = (num(span), (n - 1) as real);
    let gap = s / y;
    assert(gap * y == s && gap >= 1 as real / 0x100_0000 as real && gap <= 0x100 as real)
        by (nonlinear_arith)
        requires
            gap == s / y,
            s >= 1 as real / 0x100 as real,
            s <= 0x100 as real,
            1 as real <= y,
            y <= 0x1_0000 as real,
    ;
    lemma_finite_over(span, m);
    law_over(span, m);
    let g = span.over(m);
    lemma_rounded_small(gap, num(g), gap);
    lemma_finite_times(two, g);
    law_times(two, g);
    let t = two.times(g);
    let q = 2 as real * gap;
    lemma_rounded_small(2 as real * num(g), num(t), 2 as real * q);
    let tiny = 1 as real / 0x100_0000_0000_0000 as real;
    assert(tiny <= q / w);
    assert(size(num(t) - q) <= q / v);
    let bq = b * q;
    assert(bq / w <= bq / v) by (nonlinear_arith)
        requires
            bq == b * q,
            b >= 0 as real,
            q >= 0 as real,
            w == 0x100_0000 as real,
            v == 0x20_0000 as real,
    ;
    lemma_ratio_of_near(p, q, num(d), num(t), b, v);
    let r = p / q;
    assert(size(r) <= b) by (nonlinear_arith)
        requires
            r == p / q,
            size(p) <= b * q,
            q > 0 as real,
    ;
    assert(size(num(d)) <= 0x800_0000 as real && size(num(t)) >= 1 as real / 0x200_0000 as real);
    lemma_finite_over(d, t);
    law_over(d, t);
    lemma_rounded_small(num(d) / num(t), num(d.over(t)), 2 as real * b);
}

/// The normal at a sample stands on the surface: it is the unit vector of the slopes
/// across and down, taken between the samples beside it, at an edge that at the edge.
pub proof fn law_normal_stands_on_the_surface(f: Relief, row: int, col: int)
    requires
        2 <= f.w,
        2 <= f.h,
        0 <= row < f.h,
        0 <= col < f.w,
    ensures
        ({
            let (left, right) = (
                if col == 0 {
                    0
                } else {
                    col - 1
                },
                if col == f.w - 1 {
                    col
                } else {
                    col + 1
                },
            );
            let (above, below) = (
                if row == 0 {
                    0
                } else {
                    row - 1
                },
                if row == f.h - 1 {
                    row
                } else {
                    row + 1
                },
            );
            let x = slope(mesh_height(f, row, right), mesh_height(f, row, left), f.w, f.span_x);
            let z = slope(mesh_height(f, below, col), mesh_height(f, above, col), f.h, f.span_z);
            mesh_normal(f, row, col) == unit_vector(
                Vec3 { x: x.negate(), y: Binary32::of_integer(1), z: z.negate() },
            )
        }),
{
}

} // verus!
