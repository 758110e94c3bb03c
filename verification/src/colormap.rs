//! Colour maps for heights.
//!
//! The hot map is made of sigmoids. The exponents that they need are computed
//! here; the exponentials of those come from the caller.

use crate::binary::Binary32;
use crate::filter::EPSILON;
use crate::float::Toward;
use crate::rolling::range_of;
use vstd::prelude::*;

verus! {

/// A colour map.
#[derive(Clone, Copy, PartialEq, Eq, Structural, Debug)]
pub enum Colormap {
    AfmHot,
    Gray,
    Viridis,
}

/// The exponentials that the hot map takes at one height: for red, green and
/// blue.
#[derive(Clone, Copy, PartialEq, Eq, Structural, Debug)]
pub struct HotExps {
    pub red: Binary32,
    pub green: Binary32,
    pub blue: Binary32,
}

/// A colour.
#[derive(Clone, Copy, PartialEq, Eq, Structural, Debug)]
pub struct Rgb {
    pub red: u8,
    pub green: u8,
    pub blue: u8,
}

/// `0.8`.
pub const FOUR_FIFTHS: u32 = 0x3f4c_cccd;

/// `0.2`.
pub const ONE_FIFTH: u32 = 0x3e4c_cccd;

/// `-7.0`.
pub const MINUS_SEVEN: u32 = 0xc0e0_0000;

/// `-10.0`.
pub const MINUS_TEN: u32 = 0xc120_0000;

/// `-11.0`.
pub const MINUS_ELEVEN: u32 = 0xc130_0000;

/// `0.6`.
pub const RED_MIDDLE: u32 = 0x3f19_999a;

/// `0.7`.
pub const OTHER_MIDDLE: u32 = 0x3f33_3333;

/// `1.05`.
pub const RED_GAIN: u32 = 0x3f86_6666;

/// `1.1`.
pub const GREEN_GAIN: u32 = 0x3f8c_cccd;

/// `0.05`.
pub const GREEN_CUT: u32 = 0x3d4c_cccd;

/// `1.6`.
pub const BLUE_GAIN: u32 = 0x3fcc_cccd;

/// `0.55`.
pub const BLUE_CUT: u32 = 0x3f0c_cccd;

/// A number, but no less than 0 and no more than 1.
pub open spec fn unit_clamp(v: Binary32) -> Binary32 {
    if v.below(Binary32::of_integer(0)) {
        Binary32::of_integer(0)
    } else if Binary32::of_integer(1).below(v) {
        Binary32::of_integer(1)
    } else {
        v
    }
}

/// Confines a number to the range from 0 to 1.
pub fn clamp_unit(v: Binary32) -> (r: Binary32)
    ensures
        r == unit_clamp(v),
{
    if v.below(Binary32::from_usize(0)) {
        Binary32::from_usize(0)
    } else if Binary32::from_usize(1).below(v) {
        Binary32::from_usize(1)
    } else {
        v
    }
}

/// A share of 255, without its fraction.
pub open spec fn level(v: Binary32) -> u8 {
    v.times(Binary32::of_integer(255)).integer(Toward::Zero, 0, 255) as u8
}

fn level_of(v: Binary32) -> (r: u8)
    ensures
        r == level(v),
{
    v.times(Binary32::from_usize(255)).to_u8()
}

// ---- hot ----

/// Where a height in the unit range stands on the hot map.
pub open spec fn hot_position(t: Binary32) -> Binary32 {
    t.times(Binary32 { bits: FOUR_FIFTHS }).plus(Binary32 { bits: ONE_FIFTH })
}

/// The exponents of the sigmoids at a height.
pub open spec fn hot_exponents(t: Binary32) -> HotExps {
    let p = hot_position(unit_clamp(t));
    HotExps {
        red: (Binary32 { bits: MINUS_SEVEN }).times(p.minus(Binary32 { bits: RED_MIDDLE })),
        green: (Binary32 { bits: MINUS_TEN }).times(p.minus(Binary32 { bits: OTHER_MIDDLE })),
        blue: (Binary32 { bits: MINUS_ELEVEN }).times(p.minus(Binary32 { bits: OTHER_MIDDLE })),
    }
}

/// The sigmoid whose exponential is `e`.
pub open spec fn sigmoid(e: Binary32) -> Binary32 {
    Binary32::of_integer(1).over(Binary32::of_integer(1).plus(e))
}

fn sigmoid_of(e: Binary32) -> (r: Binary32)
    ensures
        r == sigmoid(e),
{
    Binary32::from_usize(1).over(Binary32::from_usize(1).plus(e))
}

/// The colour of the hot map: red rises first, then green, then blue.
pub open spec fn hot_color(e: HotExps) -> Rgb {
    Rgb {
        red: level(unit_clamp(sigmoid(e.red).times(Binary32 { bits: RED_GAIN }))),
        green: level(
            unit_clamp(
                sigmoid(e.green).times(Binary32 { bits: GREEN_GAIN }).minus(
                    Binary32 { bits: GREEN_CUT },
                ),
            ),
        ),
        blue: level(
            unit_clamp(
                sigmoid(e.blue).times(Binary32 { bits: BLUE_GAIN }).minus(
                    Binary32 { bits: BLUE_CUT },
                ),
            ),
        ),
    }
}

/// Computes the colour of the hot map.
pub fn afm_hot(e: HotExps) -> (r: Rgb)
    ensures
        r == hot_color(e),
{
    let red: Binary32 = sigmoid_of(e.red).times(Binary32 { bits: RED_GAIN });
    let green: Binary32 = sigmoid_of(e.green).times(Binary32 { bits: GREEN_GAIN }).minus(
        Binary32 { bits: GREEN_CUT },
    );
    let blue: Binary32 = sigmoid_of(e.blue).times(Binary32 { bits: BLUE_GAIN }).minus(
        Binary32 { bits: BLUE_CUT },
    );
    Rgb {
        red: level_of(clamp_unit(red)),
        green: level_of(clamp_unit(green)),
        blue: level_of(clamp_unit(blue)),
    }
}

// ---- viridis ----

/// The colours between which viridis runs:
///
/// | stop | red | green | blue |
/// |---|---|---|---|
/// | 0 | 0.267 | 0.004 | 0.329 |
/// | 1 | 0.283 | 0.141 | 0.458 |
/// | 2 | 0.254 | 0.265 | 0.530 |
/// | 3 | 0.207 | 0.372 | 0.553 |
/// | 4 | 0.164 | 0.471 | 0.558 |
/// | 5 | 0.128 | 0.566 | 0.551 |
/// | 6 | 0.285 | 0.706 | 0.429 |
/// | 7 | 0.993 | 0.906 | 0.144 |
pub open spec fn viridis_stop(i: usize) -> (Binary32, Binary32, Binary32) {
    match i {
        0 => (
            Binary32 { bits: 0x3e88_b439 },
            Binary32 { bits: 0x3b83_126f },
            Binary32 { bits: 0x3ea8_72b0 },
        ),
        1 => (
            Binary32 { bits: 0x3e90_e560 },
            Binary32 { bits: 0x3e10_624e },
            Binary32 { bits: 0x3eea_7efa },
        ),
        2 => (
            Binary32 { bits: 0x3e82_0c4a },
            Binary32 { bits: 0x3e87_ae14 },
            Binary32 { bits: 0x3f07_ae14 },
        ),
        3 => (
            Binary32 { bits: 0x3e53_f7cf },
            Binary32 { bits: 0x3ebe_76c9 },
            Binary32 { bits: 0x3f0d_9168 },
        ),
        4 => (
            Binary32 { bits: 0x3e27_ef9e },
            Binary32 { bits: 0x3ef1_26e9 },
            Binary32 { bits: 0x3f0e_d917 },
        ),
        5 => (
            Binary32 { bits: 0x3e03_126f },
            Binary32 { bits: 0x3f10_e560 },
            Binary32 { bits: 0x3f0d_0e56 },
        ),
        6 => (
            Binary32 { bits: 0x3e91_eb85 },
            Binary32 { bits: 0x3f34_bc6a },
            Binary32 { bits: 0x3edb_a5e3 },
        ),
        _ => (
            Binary32 { bits: 0x3f7e_353f },
            Binary32 { bits: 0x3f67_ef9e },
            Binary32 { bits: 0x3e13_74bc },
        ),
    }
}

fn stop(i: usize) -> (r: (Binary32, Binary32, Binary32))
    ensures
        r == viridis_stop(i),
{
    match i {
        0 => (
            Binary32 { bits: 0x3e88_b439 },
            Binary32 { bits: 0x3b83_126f },
            Binary32 { bits: 0x3ea8_72b0 },
        ),
        1 => (
            Binary32 { bits: 0x3e90_e560 },
            Binary32 { bits: 0x3e10_624e },
            Binary32 { bits: 0x3eea_7efa },
        ),
        2 => (
            Binary32 { bits: 0x3e82_0c4a },
            Binary32 { bits: 0x3e87_ae14 },
            Binary32 { bits: 0x3f07_ae14 },
        ),
        3 => (
            Binary32 { bits: 0x3e53_f7cf },
            Binary32 { bits: 0x3ebe_76c9 },
            Binary32 { bits: 0x3f0d_9168 },
        ),
        4 => (
            Binary32 { bits: 0x3e27_ef9e },
            Binary32 { bits: 0x3ef1_26e9 },
            Binary32 { bits: 0x3f0e_d917 },
        ),
        5 => (
            Binary32 { bits: 0x3e03_126f },
            Binary32 { bits: 0x3f10_e560 },
            Binary32 { bits: 0x3f0d_0e56 },
        ),
        6 => (
            Binary32 { bits: 0x3e91_eb85 },
            Binary32 { bits: 0x3f34_bc6a },
            Binary32 { bits: 0x3edb_a5e3 },
        ),
        _ => (
            Binary32 { bits: 0x3f7e_353f },
            Binary32 { bits: 0x3f67_ef9e },
            Binary32 { bits: 0x3e13_74bc },
        ),
    }
}

/// The stop at or before a position on the map, but not the last.
pub open spec fn stop_before(scaled: Binary32) -> int {
    let f = scaled.integer(Toward::Floor, 0, usize::MAX as int);
    if f < 6 {
        f
    } else {
        6
    }
}

/// `t` of the way from `a` to `b`.
pub open spec fn blend(a: Binary32, b: Binary32, t: Binary32) -> Binary32 {
    a.plus(t.times(b.minus(a)))
}

fn blend_of(a: Binary32, b: Binary32, t: Binary32) -> (r: Binary32)
    ensures
        r == blend(a, b, t),
{
    a.plus(t.times(b.minus(a)))
}

/// The colour of viridis: linear between the stops.
pub open spec fn viridis_color(t: Binary32) -> Rgb {
    let scaled = t.times(Binary32::of_integer(7));
    let lo = stop_before(scaled);
    let frac = scaled.minus(Binary32::of_integer(lo));
    let (a, b) = (viridis_stop(lo as usize), viridis_stop((lo + 1) as usize));
    Rgb {
        red: level(blend(a.0, b.0, frac)),
        green: level(blend(a.1, b.1, frac)),
        blue: level(blend(a.2, b.2, frac)),
    }
}

/// Computes the colour of viridis.
pub fn viridis(t: Binary32) -> (r: Rgb)
    ensures
        r == viridis_color(t),
{
    let scaled: Binary32 = t.times(Binary32::from_usize(7));
    let f: usize = scaled.to_usize(Toward::Floor);
    let lo: usize = if f < 6 {
        f
    } else {
        6
    };
    let frac: Binary32 = scaled.minus(Binary32::from_usize(lo));
    let a: (Binary32, Binary32, Binary32) = stop(lo);
    let b: (Binary32, Binary32, Binary32) = stop(lo + 1);
    Rgb {
        red: level_of(blend_of(a.0, b.0, frac)),
        green: level_of(blend_of(a.1, b.1, frac)),
        blue: level_of(blend_of(a.2, b.2, frac)),
    }
}

// ---- the maps ----

/// The colour of a height in the unit range; `hot` counts for the hot map only.
#[verifier::opaque]
pub open spec fn color(cmap: Colormap, t: Binary32, hot: HotExps) -> Rgb {
    match cmap {
        Colormap::Gray => {
            let v = level(unit_clamp(t));
            Rgb { red: v, green: v, blue: v }
        },
        Colormap::AfmHot => hot_color(hot),
        Colormap::Viridis => viridis_color(unit_clamp(t)),
    }
}

impl Colormap {
    /// All maps, in the order in which they are offered.
    pub fn all() -> (r: [Colormap; 3])
        ensures
            r@ == seq![Colormap::AfmHot, Colormap::Gray, Colormap::Viridis],
    {
        let r: [Colormap; 3] = [Colormap::AfmHot, Colormap::Gray, Colormap::Viridis];
        assert(r@ =~= seq![Colormap::AfmHot, Colormap::Gray, Colormap::Viridis]);
        r
    }

    /// The name of a map.
    pub fn name(self) -> (r: &'static str)
        ensures
            r@ == (match self {
                Colormap::AfmHot => "AFM Hot"@,
                Colormap::Gray => "Gray"@,
                Colormap::Viridis => "Viridis"@,
            }),
    {
        match self {
            Colormap::AfmHot => "AFM Hot",
            Colormap::Gray => "Gray",
            Colormap::Viridis => "Viridis",
        }
    }

    /// Maps a height in the unit range to a colour; `hot` counts for the hot
    /// map only.
    pub fn map_u8(self, t: Binary32, hot: HotExps) -> (r: Rgb)
        ensures
            r == color(self, t, hot),
    {
        proof {
            reveal(color);
        }
        match self {
            Colormap::Gray => {
                let v: u8 = level_of(clamp_unit(t));
                Rgb { red: v, green: v, blue: v }
            },
            Colormap::AfmHot => afm_hot(hot),
            Colormap::Viridis => viridis(clamp_unit(t)),
        }
    }
}

/// A height as a share of the Z range.
pub open spec fn share(v: Binary32, z_min: Binary32, z_max: Binary32) -> Binary32 {
    v.minus(z_min).over(range_of(z_min, z_max))
}

/// Computes the exponents that the hot map needs for some heights.
pub fn hot_exponents_of(data: &[Binary32], z_min: Binary32, z_max: Binary32) -> (r: Vec<HotExps>)
    ensures
        r@ == Seq::new(data@.len(), |i: int| hot_exponents(share(data@[i], z_min, z_max))),
{
    let ghost goal = Seq::new(data@.len(), |i: int| hot_exponents(share(data@[i], z_min, z_max)));
    let range: Binary32 = z_max.minus(z_min).max(Binary32 { bits: EPSILON });
    let mut out: Vec<HotExps> = Vec::new();
    let mut i: usize = 0;
    while i < data.len()
        invariant
            i <= data@.len(),
            range == range_of(z_min, z_max),
            goal == Seq::new(data@.len(), |i: int| hot_exponents(share(data@[i], z_min, z_max))),
            out@ == goal.take(i as int),
        decreases data@.len() - i,
    {
        let t: Binary32 = clamp_unit(data[i].minus(z_min).over(range));
        let p: Binary32 = t.times(Binary32 { bits: FOUR_FIFTHS }).plus(
            Binary32 { bits: ONE_FIFTH },
        );
        out.push(
            HotExps {
                red: (Binary32 { bits: MINUS_SEVEN }).times(p.minus(Binary32 { bits: RED_MIDDLE })),
                green: (Binary32 { bits: MINUS_TEN }).times(
                    p.minus(Binary32 { bits: OTHER_MIDDLE }),
                ),
                blue: (Binary32 { bits: MINUS_ELEVEN }).times(
                    p.minus(Binary32 { bits: OTHER_MIDDLE }),
                ),
            },
        );
        i += 1;
        assert(out@ =~= goal.take(i as int));
    }
    assert(out@ =~= goal);
    out
}

/// The exponentials at sample `i`; zeros where there are none.
pub open spec fn hot_at(hot: Seq<HotExps>, i: int) -> HotExps {
    if i < hot.len() {
        hot[i]
    } else {
        HotExps {
            red: Binary32::of_integer(0),
            green: Binary32::of_integer(0),
            blue: Binary32::of_integer(0),
        }
    }
}

/// The bytes of an image: red, green, blue and opaque, for each sample.
pub open spec fn rgba_bytes(
    data: Seq<Binary32>,
    cmap: Colormap,
    z_min: Binary32,
    z_max: Binary32,
    hot: Seq<HotExps>,
) -> Seq<u8>
    decreases data.len(),
{
    if data.len() == 0 {
        Seq::empty()
    } else {
        let c = color(
            cmap,
            share(data.last(), z_min, z_max),
            hot_at(hot, data.len() - 1),
        );
        rgba_bytes(data.drop_last(), cmap, z_min, z_max, hot) + seq![
            c.red,
            c.green,
            c.blue,
            255u8,
        ]
    }
}

/// Maps heights to the bytes of an image; `hot` are the exponentials of
/// [`hot_exponents_of`] for the hot map, and count for nothing else.
pub fn to_rgba_bytes(
    data: &[Binary32],
    cmap: Colormap,
    z_min: Binary32,
    z_max: Binary32,
    hot: &[HotExps],
) -> (r: Vec<u8>)
    requires
        cmap == Colormap::AfmHot ==> hot@.len() == data@.len(),
    ensures
        r@ == rgba_bytes(data@, cmap, z_min, z_max, hot@),
{
    let range: Binary32 = z_max.minus(z_min).max(Binary32 { bits: EPSILON });
    let mut out: Vec<u8> = Vec::new();
    let mut i: usize = 0;
    assert(data@.take(0).len() == 0);
    while i < data.len()
        invariant
            i <= data@.len(),
            range == range_of(z_min, z_max),
            out@ == rgba_bytes(data@.take(i as int), cmap, z_min, z_max, hot@),
        decreases data@.len() - i,
    {
        let e: HotExps = if i < hot.len() {
            hot[i]
        } else {
            HotExps {
                red: Binary32::from_usize(0),
                green: Binary32::from_usize(0),
                blue: Binary32::from_usize(0),
            }
        };
        let c: Rgb = cmap.map_u8(data[i].minus(z_min).over(range), e);
        let ghost before = out@;
        out.push(c.red);
        out.push(c.green);
        out.push(c.blue);
        out.push(255);
        i += 1;
        assert(data@.take(i as int).drop_last() == data@.take(i as int - 1));
        assert(out@ =~= before + seq![c.red, c.green, c.blue, 255u8]);
    }
    assert(data@.take(i as int) == data@);
    out
}

proof fn lemma_bytes_len(
    data: Seq<Binary32>,
    cmap: Colormap,
    z_min: Binary32,
    z_max: Binary32,
    hot: Seq<HotExps>,
)
    ensures
        rgba_bytes(data, cmap, z_min, z_max, hot).len() == 4 * data.len(),
    decreases data.len(),
{
    if data.len() > 0 {
        lemma_bytes_len(data.drop_last(), cmap, z_min, z_max, hot);
    }
}

/// An image has four bytes for each sample: its colour, and opaque.
pub proof fn law_four_bytes_each(
    data: Seq<Binary32>,
    cmap: Colormap,
    z_min: Binary32,
    z_max: Binary32,
    hot: Seq<HotExps>,
    i: int,
)
    requires
        0 <= i < data.len(),
    ensures
        ({
            let bytes = rgba_bytes(data, cmap, z_min, z_max, hot);
            let c = color(cmap, share(data[i], z_min, z_max), hot_at(hot, i));
            &&& bytes.len() == 4 * data.len()
            &&& bytes[4 * i] == c.red
            &&& bytes[4 * i + 1] == c.green
            &&& bytes[4 * i + 2] == c.blue
            &&& bytes[4 * i + 3] == 255
        }),
    decreases data.len(),
{
    let t = data.drop_last();
    lemma_bytes_len(data, cmap, z_min, z_max, hot);
    lemma_bytes_len(t, cmap, z_min, z_max, hot);
    if i < t.len() {
        law_four_bytes_each(t, cmap, z_min, z_max, hot, i);
        assert(t[i] == data[i]);
    } else {
        assert(data.last() == data[i]);
    }
}

/// The grey map is grey.
pub proof fn law_gray_is_gray(t: Binary32, hot: HotExps)
    ensures
        color(Colormap::Gray, t, hot).red == color(Colormap::Gray, t, hot).green,
        color(Colormap::Gray, t, hot).green == color(Colormap::Gray, t, hot).blue,
{
    reveal(color);
}

} // verus!
