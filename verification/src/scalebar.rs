//! The scale bar that is burnt into exported images.

use crate::binary::Binary32;
use crate::canvas::{
    darken_rect, draw_text, fill_rect, filled, fits, kept, painted, pixels_in, text_drawn, Brush,
    Canvas, Pixel,
};
use crate::colormap::{rgba_bytes, to_rgba_bytes, Colormap, HotExps};
use crate::float::{
    lemma_hidden, nearest, of_int, product, sum, to_int, units, Toward, Width,
};
use crate::order::{
    law_conversion_keeps_order, law_integer_is_exact, law_rounding_error,
    law_rounding_keeps_order, lemma_integer_finite, lemma_nearest_zero, lemma_unit_zero,
    lemma_units_follow, lemma_zero, value,
};
use crate::text::{decimal, to_decimal, to_text};
use vstd::arithmetic::div_mod::lemma_fundamental_div_mod;
use vstd::arithmetic::power2::{lemma_pow2_pos, pow2};
use vstd::prelude::*;

verus! {

/// The lengths that a scale bar can have, in nanometres.
pub open spec fn nice_length(i: int) -> int {
    if i == 0 {
        1
    } else if i == 1 {
        2
    } else if i == 2 {
        5
    } else if i == 3 {
        10
    } else if i == 4 {
        20
    } else if i == 5 {
        50
    } else if i == 6 {
        100
    } else if i == 7 {
        200
    } else if i == 8 {
        500
    } else if i == 9 {
        1000
    } else if i == 10 {
        2000
    } else if i == 11 {
        5000
    } else if i == 12 {
        10000
    } else if i == 13 {
        20000
    } else if i == 14 {
        50000
    } else {
        100000
    }
}

/// How far a length is from a hint, in thousandths of a nanometre.
pub open spec fn misfit(length: int, hint: Binary32) -> int {
    Binary32::of_integer(length).minus(hint).abs().times(Binary32::of_integer(1000)).integer(
        Toward::Zero,
        i64::MIN as int,
        i64::MAX as int,
    )
}

/// Of the first `n` lengths the first that is nearest to a hint.
pub open spec fn nearest_length(hint: Binary32, n: int) -> int
    decreases n,
{
    if n <= 1 {
        0
    } else {
        let b = nearest_length(hint, n - 1);
        if misfit(nice_length(n - 1), hint) < misfit(nice_length(b), hint) {
            n - 1
        } else {
            b
        }
    }
}

/// The length in nanometres that a hint is snapped to: 1, 2 or 5 times a power
/// of ten.
pub open spec fn snapped(hint: Binary32) -> int {
    nice_length(nearest_length(hint, 16))
}

fn nice_at(i: usize) -> (r: usize)
    ensures
        r == nice_length(i as int),
{
    match i {
        0 => 1,
        1 => 2,
        2 => 5,
        3 => 10,
        4 => 20,
        5 => 50,
        6 => 100,
        7 => 200,
        8 => 500,
        9 => 1000,
        10 => 2000,
        11 => 5000,
        12 => 10000,
        13 => 20000,
        14 => 50000,
        _ => 100000,
    }
}

fn misfit_of(length: usize, hint: Binary32) -> (r: i64)
    ensures
        r == misfit(length as int, hint),
{
    Binary32::from_usize(length).minus(hint).abs().times(Binary32::from_usize(1000)).to_i64(
        Toward::Zero,
    )
}

fn snap(hint: Binary32) -> (r: usize)
    ensures
        r == snapped(hint),
        r <= 100000,
{
    let mut best: usize = 0;
    let mut best_misfit: i64 = misfit_of(1, hint);
    let mut n: usize = 1;
    while n < 16
        invariant
            1 <= n <= 16,
            best < n,
            best == nearest_length(hint, n as int),
            best_misfit == misfit(nice_length(best as int), hint),
        decreases 16 - n,
    {
        let m: i64 = misfit_of(nice_at(n), hint);
        if m < best_misfit {
            best = n;
            best_misfit = m;
        }
        n += 1;
    }
    nice_at(best)
}

/// Snaps a length to a nice one.
pub fn nice_scale(hint: Binary32) -> (r: Binary32)
    ensures
        r == Binary32::of_integer(snapped(hint)),
{
    Binary32::from_usize(snap(hint))
}

proof fn lemma_nearest(hint: Binary32, n: int, i: int)
    requires
        0 <= i < n <= 16,
    ensures
        0 <= nearest_length(hint, n) < n,
        misfit(nice_length(nearest_length(hint, n)), hint) <= misfit(nice_length(i), hint),
    decreases n,
{
    if n > 1 {
        if i < n - 1 {
            lemma_nearest(hint, n - 1, i);
        } else {
            lemma_nearest(hint, n - 1, 0);
        }
    }
}

/// How far a length in nanometres is from a hint, in the units of [`value`].
pub open spec fn distance(length: int, hint: Binary32) -> int {
    let d = length * pow2(149) - value(hint);
    if d < 0 {
        -d
    } else {
        d
    }
}

/// The misfit is the distance in thousandths, but for what is rounded: some
/// number of units `s` near to a thousand times the distance, cut to an integer.
proof fn lemma_misfit(length: int, hint: Binary32) -> (s: int)
    requires
        0 <= length <= 100000,
        Binary32::of_integer(0).below(hint),
        hint.at_most(Binary32::of_integer(200000)),
    ensures
        ({
            let t = pow2(149) as int;
            let d = distance(length, hint);
            let e: int = 0x100_0000;
            let m = misfit(length, hint);
            &&& 0 <= d <= 200000 * t
            &&& m * t <= s < m * t + t
            &&& (e * e) * s <= 1000 * ((e + 1) * ((e + 1) * d))
            &&& (e * e) * s >= 1000 * ((e - 1) * ((e - 1) * d))
        }),
{
    let w = Width::Single;
    let t = pow2(149) as int;
    let a = Binary32::of_integer(length);
    let k = Binary32::of_integer(1000);
    let zero = Binary32::of_integer(0);
    let x = value(hint);
    let e: int = 0x100_0000;
    lemma_pow2_pos(149);
    lemma_hidden(w);
    law_integer_is_exact(length);
    law_integer_is_exact(1000);
    law_integer_is_exact(200000);
    lemma_zero();
    lemma_units_follow(zero, hint);
    lemma_units_follow(hint, Binary32::of_integer(200000));
    law_integer_is_exact(0);
    let d = distance(length, hint);
    assert(0 * t == 0) by (nonlinear_arith);
    assert(0 <= length * t <= 100000 * t) by (nonlinear_arith)
        requires
            0 <= length <= 100000,
            t > 0,
    ;
    // the difference
    let diff = a.minus(hint);
    let q = units(w, nearest(w, d as nat, 1) as nat) as int;
    lemma_bounded(d as nat, 200000);
    law_rounding_error(w, d as nat);
    assert(diff.abs().is_finite() && value(diff.abs()) == q) by {
        lemma_abs_difference(a, hint);
    }
    // the product
    let s = units(w, nearest(w, (q * 1000) as nat, 1) as nat) as int;
    assert(e * q <= (e + 1) * d);
    assert(q <= 400000 * t);
    lemma_bounded((q * 1000) as nat, 400000000);
    law_rounding_error(w, (q * 1000) as nat);
    lemma_times_thousand(diff.abs());
    let p = diff.abs().times(k);
    assert(value(p) == s);
    reveal(to_int);
    let m = s / t;
    lemma_fundamental_div_mod(s, t);
    assert(m * t == t * m) by (nonlinear_arith);
    assert(s <= 800000000 * t);
    assert(0 <= m <= 800000000) by (nonlinear_arith)
        requires
            0 <= s <= 800000000 * t,
            s == t * m + s % t,
            0 <= s % t < t,
    ;
    assert(misfit(length, hint) == m);
    assert((e * e) * s == e * (e * s)) by (nonlinear_arith);
    s
}

/// A multiple of the unit length is far from out of range.
proof fn lemma_bounded(n: nat, k: nat)
    requires
        k <= 0x8000_0000,
        n <= k * pow2(149),
    ensures
        nearest(Width::Single, n, 1) < Width::Single.inf(),
{
    let w = Width::Single;
    let t = pow2(149);
    lemma_integer_finite(k as int);
    lemma_integer_finite(0x8000_0000);
    assert(n <= 0x8000_0000 * t) by (nonlinear_arith)
        requires
            n <= k * t,
            k <= 0x8000_0000,
    ;
    reveal(of_int);
    law_rounding_keeps_order(w, n, 1, 0x8000_0000 * t, 1);
}

/// The magnitude of a difference is the rounded distance.
proof fn lemma_abs_difference(a: Binary32, b: Binary32)
    requires
        a.is_finite(),
        b.is_finite(),
        ({
            let d = if value(a) < value(b) {
                value(b) - value(a)
            } else {
                value(a) - value(b)
            };
            nearest(Width::Single, d as nat, 1) < Width::Single.inf()
        }),
    ensures
        ({
            let d = if value(a) < value(b) {
                value(b) - value(a)
            } else {
                value(a) - value(b)
            };
            let r = a.minus(b).abs();
            r.is_finite() && !r.parts().neg && r.parts().mag == nearest(
                Width::Single,
                d as nat,
                1,
            )
        }),
{
    reveal(sum);
    lemma_nearest_zero(Width::Single, 1);
}

/// A thousand times a number is the rounded thousandfold.
proof fn lemma_times_thousand(a: Binary32)
    requires
        a.is_finite(),
        !a.parts().neg,
        nearest(Width::Single, (value(a) * 1000) as nat, 1) < Width::Single.inf(),
    ensures
        ({
            let r = a.times(Binary32::of_integer(1000));
            r.is_finite() && !r.parts().neg && r.parts().mag == nearest(
                Width::Single,
                (value(a) * 1000) as nat,
                1,
            )
        }),
{
    let w = Width::Single;
    let k = Binary32::of_integer(1000);
    let t = pow2(149);
    let u = units(w, a.parts().mag as nat);
    reveal(product);
    lemma_pow2_pos(149);
    law_integer_is_exact(1000);
    lemma_unit_zero(a.parts().mag as nat);
    lemma_unit_zero(k.parts().mag as nat);
    lemma_nearest_zero(w, 1);
    assert(u * (1000 * t) == (u * 1000) * t) by (nonlinear_arith);
    law_rounding_keeps_order(w, u * (1000 * t), t, u * 1000, 1);
    law_rounding_keeps_order(w, u * 1000, 1, u * (1000 * t), t);
}

/// Any other nice length is nearer by at most a twentieth of a nanometre.
proof fn lemma_nearly_nearest(hint: Binary32, i: int)
    requires
        0 <= i < 16,
        Binary32::of_integer(0).below(hint),
        hint.at_most(Binary32::of_integer(200000)),
    ensures
        20 * distance(snapped(hint), hint) <= 20 * distance(nice_length(i), hint) + pow2(149),
        ({
            let d = distance(nice_length(i), hint);
            d <= 25000 * pow2(149) ==> 100 * distance(snapped(hint), hint) <= 100 * d + pow2(149)
        }),
{
    lemma_nearest(hint, 16, i);
    let t = pow2(149) as int;
    lemma_pow2_pos(149);
    let (l, r) = (nice_length(i), snapped(hint));
    let (d, c) = (distance(l, hint), distance(r, hint));
    let s = lemma_misfit(l, hint);
    let u = lemma_misfit(r, hint);
    let (m, n) = (misfit(l, hint), misfit(r, hint));
    assert(n * t <= m * t) by (nonlinear_arith)
        requires
            n <= m,
            t > 0,
    ;
    assert(u < s + t);
}

/// No nice length is nearer to a hint than the one it is snapped to, by more
/// than a hundredth of a nanometre, which is what rounding can do.
pub proof fn law_snaps_to_the_nearest_length(hint: Binary32, i: int)
    requires
        0 <= i < 16,
        Binary32::of_integer(0).below(hint),
        hint.at_most(Binary32::of_integer(200000)),
    ensures
        100 * distance(snapped(hint), hint) <= 100 * distance(nice_length(i), hint) + pow2(149),
{
    let t = pow2(149) as int;
    lemma_pow2_pos(149);
    lemma_nearest(hint, 16, i);
    let j = nearest_length(hint, 16);
    let (l, r) = (nice_length(i), nice_length(j));
    lemma_nearly_nearest(hint, i);
    let (d, c) = (distance(l, hint), distance(r, hint));
    if c > d {
        // the two lie on different sides, and next to each other
        let between = if i < j {
            i + 1
        } else {
            i - 1
        };
        if between != j {
            lemma_nearly_nearest(hint, between);
        }
        assert(l * t - r * t == (l - r) * t) by (nonlinear_arith);
        assert(l != r ==> (l - r) * t >= t || (r - l) * t >= t) by (nonlinear_arith)
            requires
                t > 0,
        ;
        let k = nice_length(between);
        assert(k * t - r * t == (k - r) * t && l * t - k * t == (l - k) * t) by (nonlinear_arith);
        assert(l < k ==> (k - l) * t >= t) by (nonlinear_arith)
            requires
                t > 0,
        ;
        assert(k < l ==> (l - k) * t >= t) by (nonlinear_arith)
            requires
                t > 0,
        ;
        assert(r < k ==> (k - r) * t >= t) by (nonlinear_arith)
            requires
                t > 0,
        ;
        assert(k < r ==> (r - k) * t >= t) by (nonlinear_arith)
            requires
                t > 0,
        ;
        assert((k - l) * t == -((l - k) * t) && (k - r) * t == -((r - k) * t) && (r - l) * t == -((l
            - r) * t)) by (nonlinear_arith);
        if between == j {
            assert((l - r) * t <= 50000 * t && (r - l) * t <= 50000 * t) by (nonlinear_arith)
                requires
                    l - r <= 50000,
                    r - l <= 50000,
                    t > 0,
            ;
        }
    }
}

/// A nice length is snapped to itself.
pub proof fn law_nice_length_is_kept(i: int)
    requires
        0 <= i < 16,
    ensures
        snapped(Binary32::of_integer(nice_length(i))) == nice_length(i),
{
    let l = nice_length(i);
    let hint = Binary32::of_integer(l);
    let t = pow2(149) as int;
    lemma_pow2_pos(149);
    lemma_integer_finite(l);
    law_conversion_keeps_order(l, 200000);
    law_integer_is_exact(l);
    law_snaps_to_the_nearest_length(hint, i);
    let r = snapped(hint);
    assert(r * t - l * t == (r - l) * t) by (nonlinear_arith);
    assert(r > l ==> (r - l) * t >= t) by (nonlinear_arith)
        requires
            t > 0,
    ;
    assert(r < l ==> (r - l) * t <= -t) by (nonlinear_arith)
        requires
            t > 0,
    ;
}

/// No nice length is nearer to a hint than the one it is snapped to, in whole
/// thousandths of a nanometre.
pub proof fn law_snaps_to_the_nearest(hint: Binary32, i: int)
    requires
        0 <= i < 16,
    ensures
        misfit(snapped(hint), hint) <= misfit(nice_length(i), hint),
{
    lemma_nearest(hint, 16, i);
}

// ---- the bar ----

/// `0.06`: the height of the label as a share of the image's.
pub const LABEL_SHARE: u32 = 0x3d75_c28f;

/// `0.45`: how much the panel behind the bar is darkened.
pub const PANEL_DARKENING: u32 = 0x3ee6_6666;

/// What is drawn: the length of the bar, and the sizes of its parts in pixels.
pub struct Plan {
    pub nm: int,
    pub px: int,
    /// The unit of the gaps and of the bitmap font.
    pub unit: int,
    pub thickness: int,
    /// The height of the label in another font.
    pub font_px: Binary32,
}

/// Whether an image gets a scale bar.
pub open spec fn has_bar(w: int, h: int, scan_nm: Binary32) -> bool {
    w >= 16 && h >= 16 && !scan_nm.at_most(Binary32::of_integer(0))
}

pub open spec fn at_least(v: int, low: int) -> int {
    if v > low {
        v
    } else {
        low
    }
}

/// The scale bar of an image: about a fifth of its width.
pub open spec fn plan_of(w: int, h: int, scan_nm: Binary32) -> Plan {
    let nm = snapped(scan_nm.over(Binary32::of_integer(5)));
    let raw = Binary32::of_integer(nm).over(scan_nm).times(Binary32::of_integer(w)).integer(
        Toward::Nearest,
        0,
        u32::MAX as int,
    );
    Plan {
        nm,
        px: if raw < 1 {
            1
        } else if raw > w - 1 {
            w - 1
        } else {
            raw
        },
        unit: at_least(h / 100, 2),
        thickness: at_least(h / 120, 3),
        font_px: Binary32::of_integer(h).times(Binary32 { bits: LABEL_SHARE }).max(
            Binary32::of_integer(11),
        ),
    }
}

/// The label of a bar.
pub open spec fn label_of(p: Plan) -> Seq<char> {
    decimal(p.nm as nat) + " nm"@
}

/// Where the parts of a scale bar go.
pub struct Placement {
    pub bar_x: int,
    pub bar_y: int,
    pub text_y: int,
    pub panel_x: int,
    pub panel_y: int,
    pub panel_w: int,
    pub panel_h: int,
}

/// The placement of a bar with a label of some size: in the lower left corner,
/// the label above the bar, a panel behind both.
pub open spec fn placement_of(p: Plan, h: int, text_w: int, text_h: int) -> Placement {
    let bar_x = 4 * p.unit;
    let bar_y = at_least(h - (4 * p.unit + p.thickness), 0);
    let text_y = at_least(bar_y - (text_h + p.unit), 0);
    Placement {
        bar_x,
        bar_y,
        text_y,
        panel_x: at_least(bar_x - p.unit, 0),
        panel_y: at_least(text_y - p.unit, 0),
        panel_w: at_least(p.px, text_w) + 2 * p.unit,
        panel_h: at_least(bar_y + p.thickness - text_y, 0) + 2 * p.unit,
    }
}

/// The size of the label in the bitmap font.
pub open spec fn bitmap_size(p: Plan) -> (int, int) {
    (label_of(p).len() * 6 * p.unit, 7 * p.unit)
}

/// White.
pub open spec fn white() -> Pixel {
    (255u8, 255u8, 255u8, 255u8)
}

/// Pixels with the panel and the bar drawn.
pub open spec fn bar_drawn(pixels: Seq<Pixel>, w: int, p: Plan, at: Placement) -> Seq<Pixel> {
    filled(
        painted(
            pixels,
            w,
            at.panel_x,
            at.panel_y,
            at.panel_w,
            at.panel_h,
            Brush::Dim(kept(Binary32 { bits: PANEL_DARKENING })),
        ),
        w,
        at.bar_x,
        at.bar_y,
        p.px,
        p.thickness,
        white(),
    )
}

/// Pixels with a scale bar drawn. `font` is the size of the label in another
/// font, which is then left out; without one it is drawn in the bitmap font.
pub open spec fn scale_bar_drawn(
    pixels: Seq<Pixel>,
    w: int,
    h: int,
    scan_nm: Binary32,
    font: Option<(int, int)>,
) -> Seq<Pixel> {
    if !has_bar(w, h, scan_nm) {
        pixels
    } else {
        let p = plan_of(w, h, scan_nm);
        match font {
            Some(size) => bar_drawn(pixels, w, p, placement_of(p, h, size.0, size.1)),
            None => {
                let at = placement_of(p, h, bitmap_size(p).0, bitmap_size(p).1);
                text_drawn(
                    bar_drawn(pixels, w, p, at),
                    w,
                    at.bar_x,
                    at.text_y,
                    label_of(p),
                    p.unit,
                    white(),
                )
            },
        }
    }
}

/// A scale bar is measured along the width of an image alone, so it is right
/// whatever the aspect of the samples.
pub proof fn law_bar_follows_the_width(w: int, h: int, other: int, scan_nm: Binary32)
    ensures
        plan_of(w, h, scan_nm).nm == plan_of(w, other, scan_nm).nm,
        plan_of(w, h, scan_nm).px == plan_of(w, other, scan_nm).px,
        w >= 2 ==> 1 <= plan_of(w, h, scan_nm).px < w,
{
}

/// An image of fewer than 16 rows or columns gets no bar.
pub proof fn law_tiny_image_is_left_alone(
    pixels: Seq<Pixel>,
    w: int,
    h: int,
    scan_nm: Binary32,
    font: Option<(int, int)>,
)
    requires
        w < 16 || h < 16,
    ensures
        scale_bar_drawn(pixels, w, h, scan_nm, font) == pixels,
{
}

/// The label of a scale bar: its text, and its height in pixels in a font.
pub struct BarLabel {
    pub text: String,
    pub px: Binary32,
}

/// The plan of a scale bar in machine numbers.
struct PlanNumbers {
    nm: usize,
    px: u64,
    unit: u64,
    thickness: u64,
    font_px: Binary32,
}

impl PlanNumbers {
    spec fn view(&self) -> Plan {
        Plan {
            nm: self.nm as int,
            px: self.px as int,
            unit: self.unit as int,
            thickness: self.thickness as int,
            font_px: self.font_px,
        }
    }
}

fn make_plan(w: u32, h: u32, scan_nm: Binary32) -> (r: PlanNumbers)
    requires
        w >= 16,
    ensures
        r@ == plan_of(w as int, h as int, scan_nm),
        r.nm <= 100000,
        r.unit <= 0x300_0000,
        r.thickness <= 0x300_0000,
        r.px <= u32::MAX,
{
    let nm: usize = snap(scan_nm.over(Binary32::from_usize(5)));
    let raw: u32 = Binary32::from_usize(nm).over(scan_nm).times(
        Binary32::from_usize(w as usize),
    ).to_u32(Toward::Nearest);
    let px: u32 = if raw < 1 {
        1
    } else if raw > w - 1 {
        w - 1
    } else {
        raw
    };
    let unit: u64 = if h / 100 > 2 {
        (h / 100) as u64
    } else {
        2
    };
    let thickness: u64 = if h / 120 > 3 {
        (h / 120) as u64
    } else {
        3
    };
    let font_px: Binary32 = Binary32::from_usize(h as usize).times(
        Binary32 { bits: LABEL_SHARE },
    ).max(Binary32::from_usize(11));
    PlanNumbers { nm, px: px as u64, unit, thickness, font_px }
}

fn label_text(p: &PlanNumbers) -> (r: String)
    ensures
        r@ == label_of(p@),
{
    let d: Vec<char> = to_decimal(p.nm);
    to_text(d.as_slice()).concat(" nm")
}

proof fn lemma_decimal_len(n: nat, k: nat)
    requires
        n < crate::decimal::pow10(k),
        k > 0,
    ensures
        decimal(n).len() <= k,
    decreases k,
{
    if n >= 10 {
        if k == 1 {
            reveal_with_fuel(crate::decimal::pow10, 2);
            assert(crate::decimal::pow10(1) == 10);
        } else {
            lemma_decimal_len(n / 10, (k - 1) as nat);
        }
    }
}

/// The label that an image's scale bar gets; none when it gets no bar.
pub fn bar_label(width: u32, height: u32, scan_size_nm: Binary32) -> (r: Option<BarLabel>)
    ensures
        r is Some <==> has_bar(width as int, height as int, scan_size_nm),
        r matches Some(l) ==> l.text@ == label_of(
            plan_of(width as int, height as int, scan_size_nm),
        ) && l.px == plan_of(width as int, height as int, scan_size_nm).font_px,
{
    if width < 16 || height < 16 || scan_size_nm.at_most(Binary32::from_usize(0)) {
        return None;
    }
    let p: PlanNumbers = make_plan(width, height, scan_size_nm);
    Some(BarLabel { text: label_text(&p), px: p.font_px })
}

pub open spec fn size_of(font: Option<(u32, u32)>) -> Option<(int, int)> {
    match font {
        Some(s) => Some((s.0 as int, s.1 as int)),
        None => None,
    }
}

/// Draws a scale bar. `font` is the width and the height of the label in
/// another font; the label is then left to the caller, at the place that is
/// returned. Without one it is drawn in the bitmap font.
pub fn draw_scale_bar(img: &mut Canvas, scan_size_nm: Binary32, font: Option<(u32, u32)>) -> (r: Option<
    (u64, u64),
>)
    requires
        old(img).wf(),
    ensures
        final(img).wf(),
        final(img).w() == old(img).w(),
        final(img).h() == old(img).h(),
        final(img)@ == scale_bar_drawn(
            old(img)@,
            old(img).w(),
            old(img).h(),
            scan_size_nm,
            size_of(font),
        ),
        r is Some <==> font is Some && has_bar(old(img).w(), old(img).h(), scan_size_nm),
        r matches Some(at) ==> {
            let p = plan_of(old(img).w(), old(img).h(), scan_size_nm);
            let place = placement_of(p, old(img).h(), (font->0).0 as int, (font->0).1 as int);
            at.0 == place.bar_x && at.1 == place.text_y
        },
{
    let (w, h) = (img.width(), img.height());
    if w < 16 || h < 16 || scan_size_nm.at_most(Binary32::from_usize(0)) {
        return None;
    }
    let p: PlanNumbers = make_plan(w, h, scan_size_nm);
    let label: String = label_text(&p);
    proof {
        reveal_strlit(" nm");
        reveal_with_fuel(crate::decimal::pow10, 7);
        assert(crate::decimal::pow10(6) == 1000000);
        lemma_decimal_len(p.nm as nat, 6);
        assert(label@.len() <= 9);
    }
    let n: u64 = crate::text::to_chars(label.as_str()).len() as u64;
    assert(n * 6 * p.unit <= 9 * 6 * 0x300_0000) by (nonlinear_arith)
        requires
            n <= 9,
            0 <= p.unit <= 0x300_0000,
    ;
    let (text_w, text_h): (u64, u64) = match font {
        Some(size) => (size.0 as u64, size.1 as u64),
        None => (n * 6 * p.unit, 7 * p.unit),
    };
    let h64: u64 = h as u64;
    let bar_x: u64 = 4 * p.unit;
    let bar_y: u64 = if h64 > 4 * p.unit + p.thickness {
        h64 - (4 * p.unit + p.thickness)
    } else {
        0
    };
    let text_y: u64 = if bar_y > text_h + p.unit {
        bar_y - (text_h + p.unit)
    } else {
        0
    };
    let panel_x: u64 = bar_x - p.unit;
    let panel_y: u64 = if text_y > p.unit {
        text_y - p.unit
    } else {
        0
    };
    let wide: u64 = if p.px > text_w {
        p.px
    } else {
        text_w
    };
    let tall: u64 = if bar_y + p.thickness > text_y {
        bar_y + p.thickness - text_y
    } else {
        0
    };
    darken_rect(
        img,
        panel_x,
        panel_y,
        wide + 2 * p.unit,
        tall + 2 * p.unit,
        Binary32 { bits: PANEL_DARKENING },
    );
    let ink: Pixel = (255, 255, 255, 255);
    fill_rect(img, bar_x, bar_y, p.px, p.thickness, ink);
    match font {
        Some(_) => Some((bar_x, text_y)),
        None => {
            assert(6 * p.unit * label@.len() == n * 6 * p.unit) by (nonlinear_arith)
                requires
                    n == label@.len(),
            ;
            draw_text(img, bar_x, text_y, label.as_str(), p.unit, ink);
            None
        },
    }
}

// ---- exporting ----

/// Makes an image of heights; the scale bar is left out.
pub fn afm_image(
    data: &[Binary32],
    rows: usize,
    cols: usize,
    cmap: Colormap,
    z_min: Binary32,
    z_max: Binary32,
    hot: &[HotExps],
) -> (r: Result<Canvas, String>)
    requires
        cmap == Colormap::AfmHot ==> hot@.len() == data@.len(),
    ensures
        ({
            let (w, h) = (cols as u32, rows as u32);
            let bytes = rgba_bytes(data@, cmap, z_min, z_max, hot@);
            match r {
                Ok(c) => fits(w, h, bytes.len() as int) && c.wf() && c.w() == w && c.h() == h && c@
                    == pixels_in(bytes, (w * h) as nat),
                Err(e) => !fits(w, h, bytes.len() as int) && e@ == "Failed to create image buffer"@,
            }
        }),
{
    let bytes: Vec<u8> = to_rgba_bytes(data, cmap, z_min, z_max, hot);
    match Canvas::from_bytes(cols as u32, rows as u32, bytes) {
        Some(c) => Ok(c),
        None => Err("Failed to create image buffer".to_owned()),
    }
}

/// Makes an image of bytes that were read from the bottom row up.
pub fn image_from_bottom_up(width: u32, height: u32, bytes: Vec<u8>) -> (r: Result<Canvas, String>)
    ensures
        match r {
            Ok(c) => fits(width, height, bytes@.len() as int) && c.wf() && c.w() == width && c.h()
                == height && c@ == crate::canvas::flipped(
                pixels_in(bytes@, (width * height) as nat),
                width as int,
                height as int,
            ),
            Err(e) => !fits(width, height, bytes@.len() as int) && e@
                == "Failed to build image buffer"@,
        },
{
    match Canvas::from_bytes(width, height, bytes) {
        Some(c) => {
            let mut img: Canvas = c;
            img.flip_vertical();
            Ok(img)
        },
        None => Err("Failed to build image buffer".to_owned()),
    }
}

} // verus!
