//! Exporting a line profile: as a table and as a plot.

use crate::binary::Binary32;
use crate::canvas::{fill_rect, filled, Canvas, Pixel};
use crate::filter::EPSILON;
use crate::float::Toward;
use crate::grid::lemma_place;
use crate::rolling::{minus_infinity, plus_infinity, range_of, MINUS_INFINITY, PLUS_INFINITY};
use crate::text::{append, to_chars, to_text};
use vstd::prelude::*;

verus! {

// ---- tables ----

/// The rows of a profile's table.
pub open spec fn csv_rows(profile: Seq<(Binary32, Binary32)>) -> Seq<char>
    decreases profile.len(),
{
    if profile.len() == 0 {
        Seq::empty()
    } else {
        let p = profile.last();
        csv_rows(profile.drop_last()) + (p.0.fixed(4) + ","@ + p.1.fixed(6) + "\n"@)
    }
}

/// A profile as a table: distances with four decimals, heights with six.
pub open spec fn csv_of(profile: Seq<(Binary32, Binary32)>) -> Seq<char> {
    "distance_nm,height_nm\n"@ + csv_rows(profile)
}

/// Writes a profile as a table.
pub fn csv_text(profile: &[(Binary32, Binary32)]) -> (r: String)
    ensures
        r@ == csv_of(profile@),
{
    let mut out: Vec<char> = to_chars("distance_nm,height_nm\n");
    let comma: Vec<char> = to_chars(",");
    let end: Vec<char> = to_chars("\n");
    let ghost head = out@;
    let mut i: usize = 0;
    assert(profile@.take(0).len() == 0);
    assert(out@ =~= head + csv_rows(profile@.take(0)));
    while i < profile.len()
        invariant
            i <= profile@.len(),
            comma@ == ","@,
            end@ == "\n"@,
            out@ == head + csv_rows(profile@.take(i as int)),
        decreases profile@.len() - i,
    {
        let ghost before = out@;
        let ghost t = profile@.take(i as int + 1);
        assert(t.drop_last() == profile@.take(i as int));
        assert(t.last() == profile@[i as int]);
        let (d, h) = profile[i];
        let left: Vec<char> = d.to_fixed(4);
        let right: Vec<char> = h.to_fixed(6);
        append(&mut out, left.as_slice());
        append(&mut out, comma.as_slice());
        append(&mut out, right.as_slice());
        append(&mut out, end.as_slice());
        i += 1;
        assert(out@ =~= head + csv_rows(t));
    }
    assert(profile@.take(i as int) == profile@);
    to_text(out.as_slice())
}

// ---- lines ----

pub open spec fn larger(a: int, b: int) -> int {
    if a > b {
        a
    } else {
        b
    }
}

pub open spec fn magnitude(a: int) -> int {
    if a < 0 {
        -a
    } else {
        a
    }
}

/// The number of steps of a line.
pub open spec fn line_steps(x0: int, y0: int, x1: int, y1: int) -> int {
    larger(larger(magnitude(x1 - x0), magnitude(y1 - y0)), 1)
}

/// The coordinate of step `i` of a line from `a` to `b`.
pub open spec fn step_at(a: int, b: int, i: int, steps: int) -> int {
    let t = Binary32::of_integer(i).over(Binary32::of_integer(steps));
    Binary32::of_integer(a).plus(t.times(Binary32::of_integer(b - a))).integer(
        Toward::Nearest,
        i64::MIN as int,
        i64::MAX as int,
    )
}

/// Pixels with one replaced, if it lies on the image.
pub open spec fn dotted(pixels: Seq<Pixel>, w: int, h: int, x: int, y: int, c: Pixel) -> Seq<Pixel> {
    if 0 <= x < w && 0 <= y < h {
        pixels.update(y * w + x, c)
    } else {
        pixels
    }
}

/// Pixels with the first `n` steps of a line drawn.
pub open spec fn line_drawn(
    pixels: Seq<Pixel>,
    w: int,
    h: int,
    a: (int, int),
    b: (int, int),
    c: Pixel,
    n: int,
) -> Seq<Pixel>
    decreases n,
{
    if n <= 0 {
        pixels
    } else {
        let steps = line_steps(a.0, a.1, b.0, b.1);
        dotted(
            line_drawn(pixels, w, h, a, b, c, n - 1),
            w,
            h,
            step_at(a.0, b.0, n - 1, steps),
            step_at(a.1, b.1, n - 1, steps),
            c,
        )
    }
}

/// Pixels with a line drawn.
pub open spec fn whole_line(
    pixels: Seq<Pixel>,
    w: int,
    h: int,
    a: (int, int),
    b: (int, int),
    c: Pixel,
) -> Seq<Pixel> {
    line_drawn(pixels, w, h, a, b, c, line_steps(a.0, a.1, b.0, b.1) + 1)
}

fn step_of(a: i64, b: i64, i: i64, steps: i64) -> (r: i64)
    requires
        0 <= i <= steps,
        -0x1_0000_0000 <= a <= 0x1_0000_0000,
        -0x1_0000_0000 <= b <= 0x1_0000_0000,
    ensures
        r == step_at(a as int, b as int, i as int, steps as int),
{
    let t: Binary32 = Binary32::from_i64(i).over(Binary32::from_i64(steps));
    Binary32::from_i64(a).plus(t.times(Binary32::from_i64(b - a))).to_i64(Toward::Nearest)
}

/// Sets a pixel, if it lies on the image.
fn put_dot(img: &mut Canvas, x: i64, y: i64, color: Pixel)
    requires
        old(img).wf(),
    ensures
        final(img).wf(),
        final(img).w() == old(img).w(),
        final(img).h() == old(img).h(),
        final(img)@ == dotted(old(img)@, old(img).w(), old(img).h(), x as int, y as int, color),
{
    let (w, h) = (img.width(), img.height());
    let ghost start = img@;
    if x >= 0 && y >= 0 && x < w as i64 && y < h as i64 {
        fill_rect(img, x as u64, y as u64, 1, 1, color);
        proof {
            lemma_place(w as int, h as int, y as int, x as int);
            let at = y * w + x;
            assert forall|k: int| 0 <= k < start.len() implies #[trigger] img@[k] == start.update(
                at,
                color,
            )[k] by {
                crate::grid::lemma_row_and_column(w as int, h as int, k);
                if k == at {
                } else {
                    assert(!(k % (w as int) == x && k / (w as int) == y));
                }
            }
            assert(img@ =~= start.update(at, color));
        }
    }
}

/// Draws a line.
pub fn draw_line(img: &mut Canvas, x0: i32, y0: i32, x1: i32, y1: i32, color: Pixel)
    requires
        old(img).wf(),
    ensures
        final(img).wf(),
        final(img).w() == old(img).w(),
        final(img).h() == old(img).h(),
        final(img)@ == whole_line(
            old(img)@,
            old(img).w(),
            old(img).h(),
            (x0 as int, y0 as int),
            (x1 as int, y1 as int),
            color,
        ),
{
    let (ax, ay, bx, by) = (x0 as i64, y0 as i64, x1 as i64, y1 as i64);
    let dx: i64 = if bx < ax {
        ax - bx
    } else {
        bx - ax
    };
    let dy: i64 = if by < ay {
        ay - by
    } else {
        by - ay
    };
    let longer: i64 = if dx > dy {
        dx
    } else {
        dy
    };
    let steps: i64 = if longer > 1 {
        longer
    } else {
        1
    };
    let ghost start = img@;
    let ghost (w, h) = (img.w(), img.h());
    let ghost a = (x0 as int, y0 as int);
    let ghost b = (x1 as int, y1 as int);
    let mut i: i64 = 0;
    while i <= steps
        invariant
            0 <= i <= steps + 1,
            ax == x0,
            ay == y0,
            bx == x1,
            by == y1,
            a == (x0 as int, y0 as int),
            b == (x1 as int, y1 as int),
            steps == line_steps(a.0, a.1, b.0, b.1),
            steps <= 0x1_0000_0000,
            img.wf(),
            img.w() == w,
            img.h() == h,
            img@ == line_drawn(start, w, h, a, b, color, i as int),
        decreases steps + 1 - i,
    {
        let x: i64 = step_of(ax, bx, i, steps);
        let y: i64 = step_of(ay, by, i, steps);
        put_dot(img, x, y, color);
        i += 1;
    }
}

// ---- plots ----

/// The least height of the first `n` points.
pub open spec fn lowest(p: Seq<(Binary32, Binary32)>, n: int) -> Binary32
    decreases n,
{
    if n <= 0 {
        plus_infinity()
    } else {
        lowest(p, n - 1).min(p[n - 1].1)
    }
}

/// The greatest height of the first `n` points.
pub open spec fn highest(p: Seq<(Binary32, Binary32)>, n: int) -> Binary32
    decreases n,
{
    if n <= 0 {
        minus_infinity()
    } else {
        highest(p, n - 1).max(p[n - 1].1)
    }
}

/// A value's place on an axis `len` pixels long.
pub open spec fn axis_place(v: Binary32, low: Binary32, range: Binary32, len: int) -> int {
    v.minus(low).over(range).times(Binary32::of_integer(len)).integer(
        Toward::Zero,
        0,
        u32::MAX as int,
    )
}

/// The pixel of a point on the plot of 800 by 400 pixels with a margin of 50.
pub open spec fn plot_point(
    p: (Binary32, Binary32),
    x_min: Binary32,
    x_range: Binary32,
    y_min: Binary32,
    y_range: Binary32,
) -> (int, int) {
    let px = 50 + axis_place(p.0, x_min, x_range, 700);
    let up = axis_place(p.1, y_min, y_range, 300);
    let py = if up <= 350 {
        350 - up
    } else {
        0
    };
    (
        if px < 799 {
            px
        } else {
            799
        },
        py,
    )
}

/// The pixels of the points of a profile.
pub open spec fn plot_points(p: Seq<(Binary32, Binary32)>) -> Seq<(int, int)> {
    let n = p.len() as int;
    let x_min = p[0].0;
    let y_min = lowest(p, n);
    Seq::new(
        p.len(),
        |i: int|
            plot_point(
                p[i],
                x_min,
                range_of(x_min, p.last().0),
                y_min,
                range_of(y_min, highest(p, n)),
            ),
    )
}

/// Pixels with lines drawn between the first `n` points.
pub open spec fn lines_drawn(pixels: Seq<Pixel>, ps: Seq<(int, int)>, n: int) -> Seq<Pixel>
    decreases n,
{
    if n <= 1 {
        pixels
    } else {
        whole_line(
            lines_drawn(pixels, ps, n - 1),
            800,
            400,
            ps[n - 2],
            ps[n - 1],
            (0u8, 100u8, 200u8, 255u8),
        )
    }
}

/// The empty plot: white, with its two axes in black.
pub open spec fn plot_ground() -> Seq<Pixel> {
    let blank = Seq::new(320000, |i: int| (255u8, 255u8, 255u8, 255u8));
    let ink = (0u8, 0u8, 0u8, 255u8);
    filled(filled(blank, 800, 50, 350, 700, 1, ink), 800, 50, 50, 1, 300, ink)
}

/// Plots a profile on an image of 800 by 400 pixels.
pub fn profile_plot(profile: &[(Binary32, Binary32)]) -> (r: Result<Canvas, String>)
    ensures
        match r {
            Ok(c) => profile@.len() > 0 && c.wf() && c.w() == 800 && c.h() == 400 && c@
                == lines_drawn(plot_ground(), plot_points(profile@), profile@.len() as int),
            Err(e) => profile@.len() == 0 && e@ == "Profile is empty"@,
        },
{
    let n: usize = profile.len();
    if n == 0 {
        return Err("Profile is empty".to_owned());
    }
    let x_min: Binary32 = profile[0].0;
    let x_range: Binary32 = profile[n - 1].0.minus(x_min).max(Binary32 { bits: EPSILON });
    let mut y_min: Binary32 = Binary32 { bits: PLUS_INFINITY };
    let mut y_max: Binary32 = Binary32 { bits: MINUS_INFINITY };
    let mut i: usize = 0;
    while i < n
        invariant
            n == profile@.len(),
            i <= n,
            y_min == lowest(profile@, i as int),
            y_max == highest(profile@, i as int),
        decreases n - i,
    {
        y_min = y_min.min(profile[i].1);
        y_max = y_max.max(profile[i].1);
        i += 1;
    }
    let y_range: Binary32 = y_max.minus(y_min).max(Binary32 { bits: EPSILON });
    let mut img: Canvas = Canvas::from_pixel(800, 400, (255, 255, 255, 255));
    let ink: Pixel = (0, 0, 0, 255);
    assert(img@ =~= Seq::new(320000, |i: int| (255u8, 255u8, 255u8, 255u8)));
    fill_rect(&mut img, 50, 350, 700, 1, ink);
    fill_rect(&mut img, 50, 50, 1, 300, ink);
    assert(img@ == plot_ground());
    let ghost ps = plot_points(profile@);
    let mut last: (i32, i32) = place(profile[0], x_min, x_range, y_min, y_range);
    let mut i: usize = 1;
    while i < n
        invariant
            n == profile@.len(),
            1 <= i <= n,
            x_min == profile@[0].0,
            x_range == range_of(x_min, profile@.last().0),
            y_min == lowest(profile@, n as int),
            y_range == range_of(y_min, highest(profile@, n as int)),
            ps == plot_points(profile@),
            (last.0 as int, last.1 as int) == ps[i - 1],
            img.wf(),
            img.w() == 800,
            img.h() == 400,
            img@ == lines_drawn(plot_ground(), ps, i as int),
        decreases n - i,
    {
        let next: (i32, i32) = place(profile[i], x_min, x_range, y_min, y_range);
        draw_line(&mut img, last.0, last.1, next.0, next.1, (0, 100, 200, 255));
        last = next;
        i += 1;
    }
    Ok(img)
}

fn place(
    p: (Binary32, Binary32),
    x_min: Binary32,
    x_range: Binary32,
    y_min: Binary32,
    y_range: Binary32,
) -> (r: (i32, i32))
    ensures
        (r.0 as int, r.1 as int) == plot_point(p, x_min, x_range, y_min, y_range),
{
    let across: u32 = p.0.minus(x_min).over(x_range).times(Binary32::from_usize(700)).to_u32(
        Toward::Zero,
    );
    let up: u32 = p.1.minus(y_min).over(y_range).times(Binary32::from_usize(300)).to_u32(
        Toward::Zero,
    );
    let px: i32 = if across < 749 {
        50 + across as i32
    } else {
        799
    };
    let py: i32 = if up <= 350 {
        350 - up as i32
    } else {
        0
    };
    (px, py)
}

} // verus!
