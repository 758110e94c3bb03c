//! What painting does to pixels, and where a scale bar is put.

use crate::binary::Binary32;
use crate::canvas::{covered, dimmed_level, kept, painted, Brush, Pixel};
use crate::colormap::unit_clamp;
use crate::drawn_line::lemma_rounded_well;
use crate::fitting::lemma_rounded_small;
use crate::float::Toward;
use crate::glow::lemma_unit;
use crate::grid::lemma_place;
use crate::reals::{
    law_fraction_is_dropped, law_minus, law_of_integer, law_plus, law_times, lemma_finite_minus,
    lemma_finite_plus, lemma_finite_times, lemma_of_integer_finite, num, size,
};
use crate::scalebar::{placement_of, plan_of, Plan};
use crate::views::kept_between;
use vstd::prelude::*;

verus! {

/// Painting a rectangle changes the pixels within it, and no other.
pub proof fn law_painting_stays_within(
    pixels: Seq<Pixel>,
    width: int,
    height: int,
    x: int,
    y: int,
    w: int,
    h: int,
    b: Brush,
    px: int,
    py: int,
)
    requires
        pixels.len() == width * height,
        0 <= px < width,
        0 <= py < height,
    ensures
        ({
            let out = painted(pixels, width, x, y, w, h, b);
            let k = py * width + px;
            &&& out.len() == pixels.len()
            &&& x <= px && px < x + w && y <= py && py < y + h ==> out[k] == b.on(pixels[k])
            &&& px < x || px >= x + w || py < y || py >= y + h ==> out[k] == pixels[k]
        }),
{
    lemma_place(width, height, py, px);
}

/// A pixel that is darkened keeps one less the amount of its light, without the fraction
/// of a level.
pub proof fn law_darkening_keeps_a_share(v: u8, amount: Binary32)
    requires
        amount.is_finite(),
        size(num(amount)) <= 0x1000 as real,
    ensures
        ({
            let share = kept_between(1 as real - num(amount), 0 as real, 1 as real);
            let n = dimmed_level(v, kept(amount)) as real;
            &&& n <= v as real * share + 1 as real / 8 as real
            &&& n > v as real * share - 1 as real - 1 as real / 8 as real
        }),
{
    let one = Binary32::of_integer(1);
    lemma_of_integer_finite(1);
    law_of_integer(1);
    lemma_finite_minus(one, amount);
    law_minus(one, amount);
    let d = one.minus(amount);
    lemma_rounded_well(1 as real - num(amount), num(d), 0x1001 as real);
    lemma_unit(d);
    let k = kept(amount);
    assert(k == unit_clamp(d));
    let share = kept_between(1 as real - num(amount), 0 as real, 1 as real);
    let e = num(k) - share;
    assert(size(e) <= 1 as real / 0x800 as real);
    let a = Binary32::of_integer(v as int);
    lemma_of_integer_finite(v as int);
    law_of_integer(v as int);
    let y = v as real;
    assert(y == (v as int) as real);
    assert(y * num(k) - y * share == y * e) by (nonlinear_arith)
        requires
            e == num(k) - share,
    ;
    assert(size(y * e) <= 255 as real / 0x800 as real) by (nonlinear_arith)
        requires
            0 as real <= y,
            y <= 255 as real,
            size(e) <= 1 as real / 0x800 as real,
    ;
    assert(0 as real <= y * num(k) && y * num(k) <= 255 as real) by (nonlinear_arith)
        requires
            0 as real <= y,
            y <= 255 as real,
            0 as real <= num(k),
            num(k) <= 1 as real,
    ;
    lemma_finite_times(a, k);
    law_times(a, k);
    let z = a.times(k);
    lemma_rounded_small(y * num(k), num(z), 255 as real);
    law_fraction_is_dropped(z, Toward::Zero, 255);
}

/// A level that is covered by white in part lies that far on the way to white, without
/// its fraction.
pub proof fn law_covering_goes_toward_white(v: u8, share: Binary32)
    requires
        share.is_finite(),
        0 as real <= num(share) <= 1 as real,
    ensures
        ({
            let at = v as real + (255 as real - v as real) * num(share);
            let n = covered(v, share) as real;
            &&& n <= at + 1 as real / 0x1000 as real
            &&& n > at - 1 as real - 1 as real / 0x1000 as real
        }),
{
    let (one, full, a) = (
        Binary32::of_integer(1),
        Binary32::of_integer(255),
        Binary32::of_integer(v as int),
    );
    lemma_of_integer_finite(1);
    lemma_of_integer_finite(255);
    lemma_of_integer_finite(v as int);
    law_of_integer(1);
    law_of_integer(255);
    law_of_integer(v as int);
    let (s, y) = (num(share), v as real);
    assert(y == (v as int) as real);
    lemma_finite_minus(one, share);
    law_minus(one, share);
    let d = one.minus(share);
    lemma_rounded_well(1 as real - s, num(d), 1 as real);
    let e = num(d) - (1 as real - s);
    let w = 0x100_0000 as real;
    assert(y * num(d) - y * (1 as real - s) == y * e) by (nonlinear_arith)
        requires
            e == num(d) - (1 as real - s),
    ;
    let g = 1 as real / w;
    assert(size(y * e) <= 255 as real * g) by (nonlinear_arith)
        requires
            0 as real <= y,
            y <= 255 as real,
            size(e) <= g,
    ;
    assert(0 as real <= y * (1 as real - s) && y * (1 as real - s) <= 255 as real)
        by (nonlinear_arith)
        requires
            0 as real <= y,
            y <= 255 as real,
            0 as real <= s,
            s <= 1 as real,
    ;
    lemma_finite_times(a, d);
    law_times(a, d);
    let p = a.times(d);
    lemma_rounded_small(y * num(d), num(p), 256 as real);
    lemma_finite_times(full, share);
    law_times(full, share);
    let q = full.times(share);
    lemma_rounded_small(255 as real * s, num(q), 255 as real);
    lemma_finite_plus(p, q);
    law_plus(p, q);
    let z = p.plus(q);
    lemma_rounded_well(num(p) + num(q), num(z), 520 as real);
    assert(y * (1 as real - s) + 255 as real * s == y + (255 as real - y) * s) by (nonlinear_arith);
    let at = y + (255 as real - y) * s;
    assert(0 as real <= at && at <= 255 as real) by (nonlinear_arith)
        requires
            at == y + (255 as real - y) * s,
            0 as real <= y,
            y <= 255 as real,
            0 as real <= s,
            s <= 1 as real,
    ;
    law_fraction_is_dropped(z, Toward::Zero, 255);
}

/// A scale bar stands four units from the left and from the bottom, its label a unit above
/// it, and the panel a unit around both, wherever the image is high enough.
pub proof fn law_bar_stands_in_the_corner(p: Plan, h: int, text_w: int, text_h: int)
    requires
        p.unit >= 0,
        p.thickness >= 0,
        text_h >= 0,
        h >= 6 * p.unit + p.thickness + text_h,
    ensures
        ({
            let at = placement_of(p, h, text_w, text_h);
            &&& at.bar_x == 4 * p.unit
            &&& at.bar_y + p.thickness + 4 * p.unit == h
            &&& at.text_y + text_h + p.unit == at.bar_y
            &&& at.panel_x + p.unit == at.bar_x
            &&& at.panel_y + p.unit == at.text_y
            &&& at.panel_y + at.panel_h == at.bar_y + p.thickness + p.unit
            &&& at.panel_w >= p.px + 2 * p.unit
            &&& at.panel_w >= text_w + 2 * p.unit
            &&& at.panel_w == p.px + 2 * p.unit || at.panel_w == text_w + 2 * p.unit
        }),
{
}

/// Its unit is a hundredth of the image's height, its thickness a hundred-and-twentieth,
/// both in whole pixels, and no less than two and three.
pub proof fn law_bar_grows_with_the_image(w: int, h: int, scan_nm: Binary32)
    requires
        h >= 0,
    ensures
        ({
            let p = plan_of(w, h, scan_nm);
            &&& p.unit >= 2
            &&& p.thickness >= 3
            &&& p.unit * 100 <= h || p.unit == 2
            &&& p.unit * 100 + 100 > h
            &&& p.thickness * 120 <= h || p.thickness == 3
            &&& p.thickness * 120 + 120 > h
        }),
{
}

} // verus!
