//! What the hot map shows: where its sigmoids rise, and how bright they make a colour.

use crate::binary::Binary32;
use crate::colormap::{
    hot_color, hot_exponents, hot_position, level, sigmoid, unit_clamp, HotExps, BLUE_CUT,
    BLUE_GAIN, FOUR_FIFTHS, GREEN_CUT, GREEN_GAIN, MINUS_ELEVEN, MINUS_SEVEN, MINUS_TEN, ONE_FIFTH,
    OTHER_MIDDLE, RED_GAIN, RED_MIDDLE,
};
use crate::drawn_line::lemma_rounded_well;
use crate::fitting::lemma_rounded_small;
use crate::float::{negated, Width};
use crate::measures::lemma_ratio_of_near;
use crate::order::value;
use crate::reals::{
    law_compare, law_minus, law_negation, law_of_integer, law_over, law_plus, lemma_finite_minus,
    lemma_finite_over, lemma_finite_plus, lemma_of_integer_finite, num, size,
};
use crate::shades::{is_byte_of, lemma_level_near};
use crate::views::{kept_between, known, lemma_known, lemma_product_near};
use vstd::arithmetic::power2::{lemma2_to64, lemma2_to64_rest, lemma_pow2_pos, pow2};
use vstd::prelude::*;

verus! {

/// The numbers that the hot map is made of.
proof fn lemma_hot_numbers()
    ensures
        known(FOUR_FIFTHS).is_finite() && size(num(known(FOUR_FIFTHS)) - 8 as real / 10 as real)
            <= 1 as real / 0x100_0000 as real,
        known(ONE_FIFTH).is_finite() && size(num(known(ONE_FIFTH)) - 2 as real / 10 as real)
            <= 1 as real / 0x100_0000 as real,
        known(RED_MIDDLE).is_finite() && size(num(known(RED_MIDDLE)) - 6 as real / 10 as real)
            <= 1 as real / 0x100_0000 as real,
        known(OTHER_MIDDLE).is_finite() && size(num(known(OTHER_MIDDLE)) - 7 as real / 10 as real)
            <= 1 as real / 0x100_0000 as real,
        known(MINUS_SEVEN).is_finite() && num(known(MINUS_SEVEN)) == -(7 as real),
        known(MINUS_TEN).is_finite() && num(known(MINUS_TEN)) == -(10 as real),
        known(MINUS_ELEVEN).is_finite() && num(known(MINUS_ELEVEN)) == -(11 as real),
{
    lemma2_to64();
    lemma2_to64_rest();
    lemma_known(known(FOUR_FIFTHS), 126, 0x4c_cccd, 0x100_0000);
    lemma_known(known(ONE_FIFTH), 124, 0x4c_cccd, 0x400_0000);
    lemma_known(known(RED_MIDDLE), 126, 0x19_999a, 0x100_0000);
    lemma_known(known(OTHER_MIDDLE), 126, 0x33_3333, 0x100_0000);
    lemma_opposite(known(MINUS_SEVEN), known(0x40e0_0000));
    lemma_known(known(0x40e0_0000), 129, 0x60_0000, 0x20_0000);
    lemma_opposite(known(MINUS_TEN), known(0x4120_0000));
    lemma_known(known(0x4120_0000), 130, 0x20_0000, 0x10_0000);
    lemma_opposite(known(MINUS_ELEVEN), known(0x4130_0000));
    lemma_known(known(0x4130_0000), 130, 0x30_0000, 0x10_0000);
}

proof fn lemma_gains()
    ensures
        known(RED_GAIN).is_finite() && size(num(known(RED_GAIN)) - 105 as real / 100 as real)
            <= 1 as real / 0x80_0000 as real,
        known(GREEN_GAIN).is_finite() && size(num(known(GREEN_GAIN)) - 110 as real / 100 as real)
            <= 1 as real / 0x80_0000 as real,
        known(GREEN_CUT).is_finite() && size(num(known(GREEN_CUT)) - 5 as real / 100 as real)
            <= 1 as real / 0x80_0000 as real,
        known(BLUE_GAIN).is_finite() && size(num(known(BLUE_GAIN)) - 160 as real / 100 as real)
            <= 1 as real / 0x80_0000 as real,
        known(BLUE_CUT).is_finite() && size(num(known(BLUE_CUT)) - 55 as real / 100 as real)
            <= 1 as real / 0x80_0000 as real,
{
    lemma2_to64();
    lemma2_to64_rest();
    lemma_known(known(RED_GAIN), 127, 0x6_6666, 0x80_0000);
    lemma_known(known(GREEN_GAIN), 127, 0xc_cccd, 0x80_0000);
    lemma_known(known(GREEN_CUT), 122, 0x4c_cccd, 0x1000_0000);
    lemma_known(known(BLUE_GAIN), 127, 0x4c_cccd, 0x80_0000);
    lemma_known(known(BLUE_CUT), 126, 0xc_cccd, 0x100_0000);
}

/// Numbers that differ in their sign only.
proof fn lemma_opposite(a: Binary32, b: Binary32)
    requires
        b.is_finite(),
        a.parts() == negated(b.parts()),
    ensures
        a.is_finite(),
        num(a) == -num(b),
{
    law_negation(Width::Single, b.parts());
}

pub(crate) proof fn lemma_unit(v: Binary32)
    requires
        v.is_finite(),
    ensures
        unit_clamp(v).is_finite(),
        num(unit_clamp(v)) == kept_between(num(v), 0 as real, 1 as real),
{
    let (zero, one) = (Binary32::of_integer(0), Binary32::of_integer(1));
    lemma_of_integer_finite(0);
    lemma_of_integer_finite(1);
    law_of_integer(0);
    law_of_integer(1);
    law_compare(v, zero);
    law_compare(one, v);
}

/// One exponent of the hot map.
proof fn lemma_exponent(p: Binary32, k: Binary32, c: Binary32, at: real, slope: real, middle: real)
    requires
        p.is_finite(),
        k.is_finite(),
        c.is_finite(),
        0 as real <= at <= 1 as real,
        0 as real <= middle <= 1 as real,
        size(num(p) - at) <= 6 as real / 0x100_0000 as real,
        size(num(c) - middle) <= 1 as real / 0x100_0000 as real,
        num(k) == -slope,
        0 as real <= slope <= 16 as real,
    ensures
        k.times(p.minus(c)).is_finite(),
        size(num(k.times(p.minus(c))) - (-slope * (at - middle))) <= 1 as real / 0x1_0000 as real,
{
    let w = 0x100_0000 as real;
    lemma_finite_minus(p, c);
    law_minus(p, c);
    let d = p.minus(c);
    lemma_rounded_well(num(p) - num(c), num(d), 2 as real);
    lemma_product_near(
        k,
        d,
        -slope,
        at - middle,
        16 as real,
        2 as real,
        0 as real,
        9 as real / w,
    );
    assert(2 as real * 0 as real == 0 as real);
}

/// The hot map shows a height by sigmoids of `0.8 t + 0.2`, `t` the share of the range
/// that it takes up: red about 0.6 with a slope of 7, green and blue about 0.7 with
/// slopes of 10 and 11. Their exponents are these, but for rounding.
pub proof fn law_hot_exponents_rise_with_the_share(t: Binary32)
    requires
        t.is_finite(),
    ensures
        ({
            let e = hot_exponents(t);
            let s = kept_between(num(t), 0 as real, 1 as real);
            let p = 8 as real / 10 as real * s + 2 as real / 10 as real;
            let near = 1 as real / 0x1_0000 as real;
            &&& size(num(e.red) - (-(7 as real) * (p - 6 as real / 10 as real))) <= near
            &&& size(num(e.green) - (-(10 as real) * (p - 7 as real / 10 as real))) <= near
            &&& size(num(e.blue) - (-(11 as real) * (p - 7 as real / 10 as real))) <= near
            &&& e.red.is_finite()
            &&& e.green.is_finite()
            &&& e.blue.is_finite()
        }),
{
    lemma_unit(t);
    lemma_hot_numbers();
    let u = unit_clamp(t);
    let s = num(u);
    let w = 0x100_0000 as real;
    let at = 8 as real / 10 as real * s + 2 as real / 10 as real;
    let (a, b) = (known(FOUR_FIFTHS), known(ONE_FIFTH));
    lemma_product_near(
        u,
        a,
        s,
        8 as real / 10 as real,
        1 as real,
        1 as real,
        0 as real,
        1 as real / w,
    );
    let k = u.times(a);
    assert(s * (8 as real / 10 as real) == 8 as real / 10 as real * s) by (nonlinear_arith);
    lemma_finite_plus(k, b);
    law_plus(k, b);
    lemma_rounded_well(num(k) + num(b), num(k.plus(b)), 2 as real);
    let p = hot_position(u);
    assert(size(num(p) - at) <= 6 as real / w);
    lemma_exponent(p, known(MINUS_SEVEN), known(RED_MIDDLE), at, 7 as real, 6 as real / 10 as real);
    let middle = 7 as real / 10 as real;
    lemma_exponent(p, known(MINUS_TEN), known(OTHER_MIDDLE), at, 10 as real, middle);
    lemma_exponent(p, known(MINUS_ELEVEN), known(OTHER_MIDDLE), at, 11 as real, middle);
}

/// A sigmoid, from its exponential.
proof fn lemma_sigmoid(e: Binary32)
    requires
        e.is_finite(),
        0 as real <= num(e) <= 0x10_0000 as real,
    ensures
        sigmoid(e).is_finite(),
        size(num(sigmoid(e)) - 1 as real / (1 as real + num(e))) <= 8 as real / 0x100_0000 as real,
        size(num(sigmoid(e))) <= 2 as real,
        0 as real <= 1 as real / (1 as real + num(e)) <= 1 as real,
{
    let w = 0x100_0000 as real;
    let one = Binary32::of_integer(1);
    lemma_of_integer_finite(1);
    law_of_integer(1);
    lemma_finite_plus(one, e);
    law_plus(one, e);
    let s = one.plus(e);
    let q = 1 as real + num(e);
    lemma_rounded_well(q, num(s), q);
    lemma_ratio_of_near(1 as real, q, 1 as real, num(s), 1 as real, w);
    let t = 1 as real / q;
    assert(0 as real <= t && t <= 1 as real) by (nonlinear_arith)
        requires
            t == 1 as real / q,
            q >= 1 as real,
    ;
    lemma_finite_over(one, s);
    law_over(one, s);
    lemma_rounded_small(1 as real / num(s), num(sigmoid(e)), 2 as real);
}

/// The level of a number from 0 to 1.
proof fn lemma_shown(v: Binary32, x: real)
    requires
        v.is_finite(),
        size(num(v) - x) <= 64 as real / 0x100_0000 as real,
    ensures
        is_byte_of(level(unit_clamp(v)), kept_between(x, 0 as real, 1 as real)),
{
    lemma_unit(v);
    let u = unit_clamp(v);
    lemma_pow2_pos(149);
    let (n, d) = (value(u) as real, pow2(149) as real);
    assert(num(u) == n / d);
    assert(num(u) * d == n) by (nonlinear_arith)
        requires
            num(u) == n / d,
            d > 0 as real,
    ;
    assert(0 as real <= n && n <= d) by (nonlinear_arith)
        requires
            num(u) * d == n,
            0 as real <= num(u),
            num(u) <= 1 as real,
            d > 0 as real,
    ;
    lemma_level_near(u);
}

/// The colours of the hot map: each a sigmoid, stretched so that red goes up to 1.05,
/// green from -0.05 to 1.05, and blue from -0.55 to 1.05, and shown as far as it lies
/// between none and all. `e` are the exponentials of the exponents.
pub proof fn law_hot_colours_are_sigmoids(e: HotExps)
    requires
        e.red.is_finite() && 0 as real <= num(e.red) <= 0x10_0000 as real,
        e.green.is_finite() && 0 as real <= num(e.green) <= 0x10_0000 as real,
        e.blue.is_finite() && 0 as real <= num(e.blue) <= 0x10_0000 as real,
    ensures
        ({
            let c = hot_color(e);
            let (r, g, b) = (
                1 as real / (1 as real + num(e.red)),
                1 as real / (1 as real + num(e.green)),
                1 as real / (1 as real + num(e.blue)),
            );
            let (lo, hi) = (0 as real, 1 as real);
            &&& is_byte_of(c.red, kept_between(r * (105 as real / 100 as real), lo, hi))
            &&& is_byte_of(
                c.green,
                kept_between(
                    g * (110 as real / 100 as real) - 5 as real / 100 as real,
                    lo,
                    hi,
                ),
            )
            &&& is_byte_of(
                c.blue,
                kept_between(
                    b * (160 as real / 100 as real) - 55 as real / 100 as real,
                    lo,
                    hi,
                ),
            )
        }),
{
    let w = 0x100_0000 as real;
    lemma_gains();
    lemma_sigmoid(e.red);
    lemma_sigmoid(e.green);
    lemma_sigmoid(e.blue);
    let (r, g, b) = (
        1 as real / (1 as real + num(e.red)),
        1 as real / (1 as real + num(e.green)),
        1 as real / (1 as real + num(e.blue)),
    );
    let (m, e8, e2) = (2 as real, 8 as real / w, 2 as real / w);
    lemma_product_near(sigmoid(e.red), known(RED_GAIN), r, 105 as real / 100 as real, m, m, e8, e2);
    lemma_shown(sigmoid(e.red).times(known(RED_GAIN)), r * (105 as real / 100 as real));
    lemma_product_near(
        sigmoid(e.green),
        known(GREEN_GAIN),
        g,
        110 as real / 100 as real,
        m,
        m,
        e8,
        e2,
    );
    let x = sigmoid(e.green).times(known(GREEN_GAIN));
    lemma_finite_minus(x, known(GREEN_CUT));
    law_minus(x, known(GREEN_CUT));
    let y = x.minus(known(GREEN_CUT));
    lemma_rounded_well(num(x) - num(known(GREEN_CUT)), num(y), 16 as real);
    lemma_shown(y, g * (110 as real / 100 as real) - 5 as real / 100 as real);
    lemma_product_near(
        sigmoid(e.blue),
        known(BLUE_GAIN),
        b,
        160 as real / 100 as real,
        m,
        m,
        e8,
        e2,
    );
    let z = sigmoid(e.blue).times(known(BLUE_GAIN));
    lemma_finite_minus(z, known(BLUE_CUT));
    law_minus(z, known(BLUE_CUT));
    let v = z.minus(known(BLUE_CUT));
    lemma_rounded_well(num(z) - num(known(BLUE_CUT)), num(v), 16 as real);
    lemma_shown(v, b * (160 as real / 100 as real) - 55 as real / 100 as real);
}

} // verus!
