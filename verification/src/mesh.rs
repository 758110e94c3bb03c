//! The surface of an image as a mesh of triangles.
//!
//! The scan plane is mapped to X and Z, its longer side from -1 to 1 and the
//! other in proportion; height maps to Y.

use crate::binary::Binary32;
use crate::colormap::{color, hot_at, share, Colormap, HotExps, Rgb};
use crate::filter::EPSILON;
use crate::grid::lemma_place;
use crate::rolling::{extremes, greatest, least, range_of};
use vstd::prelude::*;

verus! {

/// One half.
pub const HALF: u32 = 0x3f00_0000;

pub open spec fn half() -> Binary32 {
    Binary32 { bits: HALF }
}

/// A vector.
#[derive(Clone, Copy, PartialEq, Eq, Structural, Debug)]
pub struct Vec3 {
    pub x: Binary32,
    pub y: Binary32,
    pub z: Binary32,
}

/// A corner of the mesh.
#[derive(Clone, Copy, PartialEq, Eq, Structural, Debug)]
pub struct Vertex {
    pub pos: Vec3,
    pub normal: Vec3,
    pub color: Vec3,
}

/// One over the length of a vector.
pub open spec fn length_recip(v: Vec3) -> Binary32 {
    Binary32::of_integer(1).over(
        v.x.times(v.x).plus(v.y.times(v.y)).plus(v.z.times(v.z)).sqrt(),
    )
}

/// A vector scaled to length one; zero when it has no direction.
pub open spec fn unit_vector(v: Vec3) -> Vec3 {
    let r = length_recip(v);
    if r.is_finite() && Binary32::of_integer(0).below(r) {
        Vec3 { x: v.x.times(r), y: v.y.times(r), z: v.z.times(r) }
    } else {
        Vec3 {
            x: Binary32::of_integer(0),
            y: Binary32::of_integer(0),
            z: Binary32::of_integer(0),
        }
    }
}

/// Scales a vector to length one.
pub fn normalize_or_zero(v: Vec3) -> (r: Vec3)
    ensures
        r == unit_vector(v),
{
    let l: Binary32 = v.x.times(v.x).plus(v.y.times(v.y)).plus(v.z.times(v.z)).sqrt();
    let r: Binary32 = Binary32::from_usize(1).over(l);
    if r.is_finite() && Binary32::from_usize(0).below(r) {
        Vec3 { x: v.x.times(r), y: v.y.times(r), z: v.z.times(r) }
    } else {
        let zero: Binary32 = Binary32::from_usize(0);
        Vec3 { x: zero, y: zero, z: zero }
    }
}

/// The parts of a side that the two extents of an image take: all for the
/// longer, and in proportion for the other.
pub open spec fn sides(width_nm: Binary32, height_nm: Binary32, side: Binary32) -> (
    Binary32,
    Binary32,
) {
    let zero = Binary32::of_integer(0);
    if !zero.below(width_nm) || !zero.below(height_nm) {
        (side, side)
    } else if height_nm.below(width_nm) {
        (side, side.times(height_nm.over(width_nm)))
    } else if width_nm.below(height_nm) {
        (side.times(width_nm.over(height_nm)), side)
    } else {
        (side, side)
    }
}

/// Divides a side between the two extents of an image.
pub fn fit_sides(width_nm: Binary32, height_nm: Binary32, side: Binary32) -> (r: (
    Binary32,
    Binary32,
))
    ensures
        r == sides(width_nm, height_nm, side),
{
    let zero: Binary32 = Binary32::from_usize(0);
    if !zero.below(width_nm) || !zero.below(height_nm) {
        (side, side)
    } else if height_nm.below(width_nm) {
        (side, side.times(height_nm.over(width_nm)))
    } else if width_nm.below(height_nm) {
        (side.times(width_nm.over(height_nm)), side)
    } else {
        (side, side)
    }
}

/// What a mesh is made from.
pub struct Relief {
    pub data: Seq<Binary32>,
    pub w: int,
    pub h: int,
    /// The extents of the mesh.
    pub span_x: Binary32,
    pub span_z: Binary32,
    /// The least height and the range of heights.
    pub low: Binary32,
    pub range: Binary32,
    pub exaggeration: Binary32,
}

/// The height of a point of the mesh.
pub open spec fn mesh_height(f: Relief, row: int, col: int) -> Binary32 {
    f.data[row * f.w + col].minus(f.low).over(f.range).minus(half()).times(f.exaggeration)
}

/// The place of sample `i` of `n` along a side of the mesh.
pub open spec fn along(i: int, n: int, span: Binary32) -> Binary32 {
    Binary32::of_integer(i).over(Binary32::of_integer(n - 1)).minus(half()).times(span)
}

pub open spec fn before(i: int) -> int {
    if i > 0 {
        i - 1
    } else {
        0
    }
}

pub open spec fn after(i: int, n: int) -> int {
    if i + 1 < n {
        i + 1
    } else {
        n - 1
    }
}

/// The slope between two heights that lie two samples apart.
pub open spec fn slope(high: Binary32, low: Binary32, n: int, span: Binary32) -> Binary32 {
    high.minus(low).over(
        Binary32::of_integer(2).times(span.over(Binary32::of_integer(n - 1))),
    )
}

/// The normal of the surface at a point, from central differences.
pub open spec fn mesh_normal(f: Relief, row: int, col: int) -> Vec3 {
    let dydx = slope(
        mesh_height(f, row, after(col, f.w)),
        mesh_height(f, row, before(col)),
        f.w,
        f.span_x,
    );
    let dydz = slope(
        mesh_height(f, after(row, f.h), col),
        mesh_height(f, before(row), col),
        f.h,
        f.span_z,
    );
    unit_vector(Vec3 { x: dydx.negate(), y: Binary32::of_integer(1), z: dydz.negate() })
}

/// A level as a share of 255.
pub open spec fn channel(v: u8) -> Binary32 {
    Binary32::of_integer(v as int).over(Binary32::of_integer(255))
}

/// A colour as shares.
pub open spec fn rgb_shares(c: Rgb) -> Vec3 {
    Vec3 { x: channel(c.red), y: channel(c.green), z: channel(c.blue) }
}

impl Colormap {
    /// Maps a height in the unit range to shares of red, green and blue.
    pub fn map_rgb_f32(self, t: Binary32, hot: HotExps) -> (r: Vec3)
        ensures
            r == rgb_shares(color(self, t, hot)),
    {
        let c: Rgb = self.map_u8(t, hot);
        let full: Binary32 = Binary32::from_usize(255);
        Vec3 {
            x: Binary32::from_usize(c.red as usize).over(full),
            y: Binary32::from_usize(c.green as usize).over(full),
            z: Binary32::from_usize(c.blue as usize).over(full),
        }
    }
}

/// How a mesh is coloured.
pub struct Paint {
    pub cmap: Colormap,
    pub z_min: Binary32,
    pub z_max: Binary32,
    pub hot: Seq<HotExps>,
}

/// The corner of the mesh at a point of the grid.
pub open spec fn vertex(f: Relief, p: Paint, row: int, col: int) -> Vertex {
    Vertex {
        pos: Vec3 {
            x: along(col, f.w, f.span_x),
            y: mesh_height(f, row, col),
            z: along(row, f.h, f.span_z),
        },
        normal: mesh_normal(f, row, col),
        color: rgb_shares(
            color(
                p.cmap,
                share(f.data[row * f.w + col], p.z_min, p.z_max),
                hot_at(p.hot, row * f.w + col),
            ),
        ),
    }
}

/// The corners of the mesh, row by row.
pub open spec fn vertices(f: Relief, p: Paint) -> Seq<Vertex> {
    Seq::new((f.w * f.h) as nat, |k: int| vertex(f, p, k / f.w, k % f.w))
}

/// The two triangles of a cell of the grid; positions are 32 bits wide.
pub open spec fn cell(w: int, row: int, col: int) -> Seq<u32> {
    let i = row * w + col;
    seq![
        i as u32,
        (i + 1) as u32,
        (i + w + 1) as u32,
        i as u32,
        (i + w + 1) as u32,
        (i + w) as u32,
    ]
}

/// The triangles of the first `n` cells, row by row.
pub open spec fn triangles(w: int, n: int) -> Seq<u32>
    decreases n,
{
    if n <= 0 {
        Seq::empty()
    } else {
        triangles(w, n - 1) + cell(w, (n - 1) / (w - 1), (n - 1) % (w - 1))
    }
}

/// Whether there is a surface: at least two rows and two columns, all there.
pub open spec fn is_surface(len: int, w: int, h: int) -> bool {
    w >= 2 && h >= 2 && len >= w * h
}

/// What the mesh of an image is made from.
pub open spec fn relief(
    data: Seq<Binary32>,
    w: int,
    h: int,
    width_nm: Binary32,
    height_nm: Binary32,
    exaggeration: Binary32,
) -> Relief {
    let low = least(data, data.len() as int);
    let (span_x, span_z) = sides(width_nm, height_nm, Binary32::of_integer(2));
    Relief {
        data,
        w,
        h,
        span_x,
        span_z,
        low,
        range: range_of(low, greatest(data, data.len() as int)),
        exaggeration,
    }
}

fn height_of(
    data: &[Binary32],
    at: usize,
    low: Binary32,
    range: Binary32,
    exaggeration: Binary32,
) -> (r: Binary32)
    requires
        at < data@.len(),
    ensures
        r == data@[at as int].minus(low).over(range).minus(half()).times(exaggeration),
{
    data[at].minus(low).over(range).minus(Binary32 { bits: HALF }).times(exaggeration)
}

/// Builds the mesh of a surface: its corners, and the corners of its triangles.
/// It is empty when there is no surface. `hot` are the exponentials of
/// [`crate::colormap::hot_exponents_of`] for the hot map.
pub fn build_mesh(
    data: &[Binary32],
    w: usize,
    h: usize,
    width_nm: Binary32,
    height_nm: Binary32,
    cmap: Colormap,
    z_color_min: Binary32,
    z_color_max: Binary32,
    hot: &[HotExps],
    z_exaggeration: Binary32,
) -> (r: (Vec<Vertex>, Vec<u32>))
    requires
        cmap == Colormap::AfmHot ==> hot@.len() == data@.len(),
    ensures
        is_surface(data@.len() as int, w as int, h as int) ==> r.0@ == vertices(
            relief(data@, w as int, h as int, width_nm, height_nm, z_exaggeration),
            Paint { cmap, z_min: z_color_min, z_max: z_color_max, hot: hot@ },
        ) && r.1@ == triangles(w as int, (w - 1) * (h - 1)),
        !is_surface(data@.len() as int, w as int, h as int) ==> r.0@.len() == 0 && r.1@.len() == 0,
{
    let len: usize = data.len();
    if w < 2 || h < 2 {
        return (Vec::new(), Vec::new());
    }
    let n: usize = match w.checked_mul(h) {
        Some(n) => n,
        None => {
            return (Vec::new(), Vec::new());
        },
    };
    if len < n {
        return (Vec::new(), Vec::new());
    }
    let (low, high) = extremes(data);
    let range: Binary32 = high.minus(low).max(Binary32 { bits: EPSILON });
    let color_range: Binary32 = z_color_max.minus(z_color_min).max(Binary32 { bits: EPSILON });
    let (span_x, span_z) = fit_sides(width_nm, height_nm, Binary32::from_usize(2));
    let ghost f = relief(data@, w as int, h as int, width_nm, height_nm, z_exaggeration);
    let ghost p = Paint { cmap, z_min: z_color_min, z_max: z_color_max, hot: hot@ };
    let last_x: Binary32 = Binary32::from_usize(w - 1);
    let last_z: Binary32 = Binary32::from_usize(h - 1);
    let two_dx: Binary32 = Binary32::from_usize(2).times(span_x.over(last_x));
    let two_dz: Binary32 = Binary32::from_usize(2).times(span_z.over(last_z));
    let mut verts: Vec<Vertex> = Vec::new();
    let mut row: usize = 0;
    assert(0 * w == 0);
    while row < h
        invariant
            row <= h,
            w >= 2,
            h >= 2,
            n == w * h,
            n <= len,
            len == data@.len(),
            f == relief(data@, w as int, h as int, width_nm, height_nm, z_exaggeration),
            p == (Paint { cmap, z_min: z_color_min, z_max: z_color_max, hot: hot@ }),
            low == f.low,
            range == f.range,
            span_x == f.span_x,
            span_z == f.span_z,
            color_range == range_of(z_color_min, z_color_max),
            last_x == Binary32::of_integer(w - 1),
            last_z == Binary32::of_integer(h - 1),
            two_dx == Binary32::of_integer(2).times(span_x.over(last_x)),
            two_dz == Binary32::of_integer(2).times(span_z.over(last_z)),
            verts@.len() == row * w,
            row * w <= n,
            forall|k: int| 0 <= k < row * w ==> #[trigger] verts@[k] == vertex(f, p, k / (w as int), k % (w as int)),
        decreases h - row,
    {
        let z: Binary32 = Binary32::from_usize(row).over(last_z).minus(
            Binary32 { bits: HALF },
        ).times(span_z);
        let up: usize = if row + 1 < h {
            row + 1
        } else {
            h - 1
        };
        let down: usize = if row > 0 {
            row - 1
        } else {
            0
        };
        let mut col: usize = 0;
        assert((row + 1) * w == row * w + w) by (nonlinear_arith);
        assert(row * w + w <= n) by (nonlinear_arith)
            requires
                row + 1 <= h,
                n == w * h,
        ;
        while col < w
            invariant
                row < h,
                col <= w,
                w >= 2,
                h >= 2,
                n == w * h,
                n <= len,
                len == data@.len(),
                f == relief(data@, w as int, h as int, width_nm, height_nm, z_exaggeration),
                p == (Paint { cmap, z_min: z_color_min, z_max: z_color_max, hot: hot@ }),
                low == f.low,
                range == f.range,
                span_x == f.span_x,
                span_z == f.span_z,
                color_range == range_of(z_color_min, z_color_max),
                last_x == Binary32::of_integer(w - 1),
                last_z == Binary32::of_integer(h - 1),
                two_dx == Binary32::of_integer(2).times(span_x.over(last_x)),
                two_dz == Binary32::of_integer(2).times(span_z.over(last_z)),
                z == along(row as int, h as int, span_z),
                up == after(row as int, h as int),
                down == before(row as int),
                verts@.len() == row * w + col,
                row * w + w <= n,
                forall|k: int|
                    0 <= k < row * w + col ==> #[trigger] verts@[k] == vertex(
                        f,
                        p,
                        k / (w as int),
                        k % (w as int),
                    ),
            decreases w - col,
        {
            let right: usize = if col + 1 < w {
                col + 1
            } else {
                w - 1
            };
            let left: usize = if col > 0 {
                col - 1
            } else {
                0
            };
            proof {
                lemma_place(w as int, h as int, row as int, col as int);
                lemma_place(w as int, h as int, row as int, right as int);
                lemma_place(w as int, h as int, row as int, left as int);
                lemma_place(w as int, h as int, up as int, col as int);
                lemma_place(w as int, h as int, down as int, col as int);
            }
            let at: usize = row * w + col;
            let x: Binary32 = Binary32::from_usize(col).over(last_x).minus(
                Binary32 { bits: HALF },
            ).times(span_x);
            let y: Binary32 = height_of(data, at, low, range, z_exaggeration);
            let hl: Binary32 = height_of(data, row * w + left, low, range, z_exaggeration);
            let hr: Binary32 = height_of(data, row * w + right, low, range, z_exaggeration);
            let hd: Binary32 = height_of(data, down * w + col, low, range, z_exaggeration);
            let hu: Binary32 = height_of(data, up * w + col, low, range, z_exaggeration);
            let dydx: Binary32 = hr.minus(hl).over(two_dx);
            let dydz: Binary32 = hu.minus(hd).over(two_dz);
            let normal: Vec3 = normalize_or_zero(
                Vec3 { x: dydx.negate(), y: Binary32::from_usize(1), z: dydz.negate() },
            );
            let e: HotExps = if at < hot.len() {
                hot[at]
            } else {
                let zero: Binary32 = Binary32::from_usize(0);
                HotExps { red: zero, green: zero, blue: zero }
            };
            let shade: Vec3 = cmap.map_rgb_f32(data[at].minus(z_color_min).over(color_range), e);
            let v: Vertex = Vertex { pos: Vec3 { x, y, z }, normal, color: shade };
            assert(v == vertex(f, p, row as int, col as int));
            verts.push(v);
            col += 1;
        }
        row += 1;
    }
    assert(h * w == w * h) by (nonlinear_arith);
    assert(verts@ =~= vertices(f, p));
    let indices: Vec<u32> = build_indices(w, h);
    (verts, indices)
}

fn build_indices(w: usize, h: usize) -> (r: Vec<u32>)
    requires
        w >= 2,
        h >= 2,
        w * h <= usize::MAX,
    ensures
        r@ == triangles(w as int, (w - 1) * (h - 1)),
{
    let mut out: Vec<u32> = Vec::new();
    let mut row: usize = 0;
    assert(out@ =~= Seq::empty());
    assert(0 * (w - 1) == 0);
    while row < h - 1
        invariant
            row <= h - 1,
            w >= 2,
            h >= 2,
            w * h <= usize::MAX,
            out@ == triangles(w as int, row * (w - 1)),
        decreases h - 1 - row,
    {
        let mut col: usize = 0;
        assert((row + 1) * (w - 1) == row * (w - 1) + (w - 1)) by (nonlinear_arith);
        while col < w - 1
            invariant
                row < h - 1,
                col <= w - 1,
                w >= 2,
                h >= 2,
                w * h <= usize::MAX,
                out@ == triangles(w as int, row * (w - 1) + col),
            decreases w - 1 - col,
        {
            proof {
                lemma_place(w as int, h as int, row + 1, col + 1);
                lemma_place(w as int, h as int, row as int, col as int);
                lemma_place(w as int - 1, h as int - 1, row as int, col as int);
                assert((row + 1) * w == row * w + w) by (nonlinear_arith);
            }
            let i00: u32 = (row * w + col) as u32;
            let i10: u32 = (row * w + col + 1) as u32;
            let i01: u32 = ((row + 1) * w + col) as u32;
            let i11: u32 = ((row + 1) * w + col + 1) as u32;
            let ghost shown = out@;
            out.push(i00);
            out.push(i10);
            out.push(i11);
            out.push(i00);
            out.push(i11);
            out.push(i01);
            assert(out@ =~= shown + cell(w as int, row as int, col as int));
            col += 1;
        }
        row += 1;
    }
    assert((h - 1) * (w - 1) == (w - 1) * (h - 1)) by (nonlinear_arith);
    out
}

proof fn lemma_triangles(w: int, h: int, n: int)
    requires
        w >= 2,
        h >= 2,
        0 <= n <= (w - 1) * (h - 1),
        w * h <= u32::MAX,
    ensures
        triangles(w, n).len() == 6 * n,
        forall|i: int| 0 <= i < 6 * n ==> #[trigger] triangles(w, n)[i] < w * h,
    decreases n,
{
    if n > 0 {
        lemma_triangles(w, h, n - 1);
        let k = n - 1;
        crate::grid::lemma_row_and_column(w - 1, h - 1, k);
        let (row, col) = (k / (w - 1), k % (w - 1));
        lemma_place(w, h, row, col);
        lemma_place(w, h, row + 1, col + 1);
        assert((row + 1) * w == row * w + w) by (nonlinear_arith);
        let t = triangles(w, n - 1);
        let c = cell(w, row, col);
        assert forall|i: int| 0 <= i < 6 * n implies #[trigger] triangles(w, n)[i] < w * h by {
            if i < 6 * k {
                assert(triangles(w, n)[i] == t[i]);
            } else {
                assert(triangles(w, n)[i] == c[i - 6 * k]);
            }
        }
    }
}

/// A mesh has a corner for every sample and two triangles for every cell of the
/// grid, and every triangle has its corners in the mesh.
pub proof fn law_mesh_is_complete(f: Relief, p: Paint)
    requires
        f.w >= 2,
        f.h >= 2,
        f.w * f.h <= u32::MAX,
    ensures
        vertices(f, p).len() == f.w * f.h,
        triangles(f.w, (f.w - 1) * (f.h - 1)).len() == 6 * ((f.w - 1) * (f.h - 1)),
        forall|i: int|
            0 <= i < triangles(f.w, (f.w - 1) * (f.h - 1)).len() ==> #[trigger] triangles(
                f.w,
                (f.w - 1) * (f.h - 1),
            )[i] < vertices(f, p).len(),
{
    assert(f.w * f.h >= 0) by (nonlinear_arith)
        requires
            f.w >= 2,
            f.h >= 2,
    ;
    assert((f.w - 1) * (f.h - 1) >= 0) by (nonlinear_arith)
        requires
            f.w >= 2,
            f.h >= 2,
    ;
    lemma_triangles(f.w, f.h, (f.w - 1) * (f.h - 1));
}

} // verus!
