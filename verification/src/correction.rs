//! What a calibration does to the numbers of an image.

use crate::binary::Binary32;
use crate::calibration::{is_near_one, Calibration, NEAR};
use crate::drawn_line::lemma_rounded_well;
use crate::filter::epsilon;
use crate::float::{lemma_mag, lemma_units_ordered, mag_exp, mag_man, nearest, sum, units, Width};
use crate::order::{
    law_representable_is_kept, law_rounding_keeps_order, lemma_nearest_zero, lemma_one,
    lemma_unit_zero, value,
};
use crate::reals::{
    law_compare, law_minus, law_of_integer, law_times, lemma_abs, lemma_finite_minus,
    lemma_of_integer_finite, num, rounds_to, size,
};
use crate::spm::{calibrated, ImageModel};
use crate::views::{known, lemma_known};
use vstd::arithmetic::power2::{
    lemma2_to64, lemma2_to64_rest, lemma_pow2_adds, lemma_pow2_pos, pow2,
};
use vstd::prelude::*;

verus! {

/// The smallest step of the numbers above one.
pub open spec fn step_at_one() -> real {
    1 as real / 0x80_0000 as real
}

/// A number between a half and two is a whole number of small steps.
proof fn lemma_whole_steps(m: nat)
    requires
        0x3f00_0000 <= m < 0x4000_0000,
    ensures
        exists|k: nat| units(Width::Single, m) == #[trigger] (k * pow2(125)),
{
    let w = Width::Single;
    lemma_mag(w, m);
    let e = mag_exp(w, m);
    assert(e == 125 || e == 126);
    lemma_pow2_adds((e - 125) as nat, 125);
    let k = mag_man(w, m) * pow2((e - 125) as nat);
    assert(mag_man(w, m) * (pow2((e - 125) as nat) * pow2(125)) == k * pow2(125))
        by (nonlinear_arith)
        requires
            k == mag_man(w, m) * pow2((e - 125) as nat),
    ;
}

proof fn lemma_landmarks()
    ensures
        units(Width::Single, 0x3f00_0000) == pow2(148),
        units(Width::Single, 0x4000_0000) == pow2(150),
        units(Width::Single, 0x3400_0000) == pow2(126),
        units(Width::Single, 0x3440_0000) == 3 * pow2(125),
        pow2(126) == 2 * pow2(125),
        pow2(148) == 0x80_0000 * pow2(125),
        pow2(149) == 2 * pow2(148),
        pow2(150) == 2 * pow2(149),
        pow2(125) > 0,
{
    let w = Width::Single;
    lemma2_to64();
    lemma_mag(w, 0x3f00_0000);
    lemma_mag(w, 0x4000_0000);
    lemma_mag(w, 0x3400_0000);
    lemma_mag(w, 0x3440_0000);
    assert(mag_exp(w, 0x3f00_0000) == 125 && mag_man(w, 0x3f00_0000) == 0x80_0000);
    assert(mag_exp(w, 0x4000_0000) == 127 && mag_man(w, 0x4000_0000) == 0x80_0000);
    assert(mag_exp(w, 0x3400_0000) == 103 && mag_man(w, 0x3400_0000) == 0x80_0000);
    assert(mag_exp(w, 0x3440_0000) == 103 && mag_man(w, 0x3440_0000) == 0xc0_0000);
    lemma_pow2_adds(23, 125);
    lemma_pow2_adds(23, 127);
    lemma_pow2_adds(23, 103);
    lemma_pow2_adds(22, 103);
    lemma_pow2_adds(1, 125);
    lemma_pow2_adds(1, 148);
    lemma_pow2_adds(1, 149);
    lemma_pow2_pos(125);
}

/// A factor differs from one by more than the smallest step exactly when its
/// rounded distance from one does.
proof fn lemma_apart(z: Binary32)
    requires
        z.is_finite(),
    ensures
        epsilon().below(z.minus(Binary32::of_integer(1)).abs()) <==> size(num(z) - 1 as real)
            > step_at_one(),
{
    let w = Width::Single;
    let one = Binary32::of_integer(1);
    let t = pow2(149) as int;
    let q = pow2(125) as int;
    lemma_one();
    lemma_landmarks();
    let m = z.parts().mag as nat;
    let x = value(z);
    let v = x - t;
    let n = (if v < 0 { -v } else { v }) as nat;
    lemma_unit_zero(m);
    // what the distance is, in units
    assert(size(num(z) - 1 as real) > step_at_one() <==> n > pow2(126)) by {
        let (a, d) = (x as real, t as real);
        assert(a / d - 1 as real == (a - d) / d) by (nonlinear_arith)
            requires
                d > 0 as real,
        ;
        let y = (a - d) / d;
        assert((y < 0 as real) == (a - d < 0 as real) && y * d == a - d) by (nonlinear_arith)
            requires
                d > 0 as real,
                y == (a - d) / d,
        ;
        let s = size(y);
        assert(s * d == n as real) by (nonlinear_arith)
            requires
                y * d == v as real,
                (s == y && n == v) || (s == -y && n == -v),
        ;
        assert(d == 0x80_0000 as real * (pow2(126) as real)) by {
            assert(t == 0x80_0000 * pow2(126));
        }
        assert((s > 1 as real / 0x80_0000 as real) == (s * d > pow2(126) as real))
            by (nonlinear_arith)
            requires
                d == 0x80_0000 as real * (pow2(126) as real),
                pow2(126) as real > 0 as real,
        ;
    }
    // where rounding puts it
    law_representable_is_kept(w, 0x3400_0000, 1);
    law_representable_is_kept(w, 0x3440_0000, 1);
    assert(pow2(126) * 1 == pow2(126) && (3 * pow2(125)) * 1 == 3 * pow2(125));
    if n <= pow2(126) {
        law_rounding_keeps_order(w, n, 1, pow2(126), 1);
    } else {
        assert(n >= 3 * pow2(125)) by {
            if z.parts().neg || m < 0x3f00_0000 {
                if m < 0x3f00_0000 {
                    lemma_units_ordered(w, m, 0x3f00_0000);
                }
            } else if m >= 0x4000_0000 {
                if m > 0x4000_0000 {
                    lemma_units_ordered(w, 0x4000_0000, m);
                }
            } else {
                lemma_whole_steps(m);
                let k = choose|k: nat| units(w, m) == #[trigger] (k * pow2(125));
                assert(v == (k - 0x100_0000) * q) by (nonlinear_arith)
                    requires
                        v == k * q - t,
                        t == 0x100_0000 * q,
                ;
                let j = if v < 0 { 0x100_0000 - k } else { k - 0x100_0000 };
                assert(n == j * q) by (nonlinear_arith)
                    requires
                        v == (k - 0x100_0000) * q,
                        (n == v && j == k - 0x100_0000) || (n == -v && j == 0x100_0000 - k),
                ;
                assert(j > 2) by (nonlinear_arith)
                    requires
                        j * q > 2 * q,
                        q > 0,
                ;
                assert(j * q >= 3 * q) by (nonlinear_arith)
                    requires
                        j >= 3,
                        q > 0,
                ;
            }
        }
        law_rounding_keeps_order(w, 3 * pow2(125), 1, n, 1);
    }
    reveal(sum);
    assert(nearest(w, 0, 1) == 0) by {
        lemma_nearest_zero(w, 1);
    }
    law_rounding_keeps_order(w, n, 1, n, 1);
    let d = z.minus(one);
    assert(d.parts().mag == nearest(w, n, 1));
    assert(d.abs().parts().mag == nearest(w, n, 1) && !d.abs().parts().neg);
}

/// Calibrating an image multiplies each height by the Z factor, rounded, whenever
/// the factor is not one; a factor that differs from one by no more than the
/// smallest step changes no height, which is then off by no more than that step
/// of itself. The extents are multiplied by the X and the Y factor.
pub proof fn law_calibration_multiplies(m: ImageModel, cal: Calibration)
    requires
        cal.z.is_finite(),
    ensures
        ({
            let c = calibrated(m, cal);
            &&& c.data.len() == m.data.len()
            &&& c.width_nm == m.width_nm.times(cal.x)
            &&& c.height_nm == m.height_nm.times(cal.y)
            &&& size(num(cal.z) - 1 as real) > step_at_one() ==> forall|i: int|
                0 <= i < m.data.len() ==> #[trigger] c.data[i] == m.data[i].times(cal.z)
            &&& size(num(cal.z) - 1 as real) <= step_at_one() ==> c.data == m.data
        }),
{
    lemma_apart(cal.z);
}

/// How near the numbers of a calibrated image are to the true products: every
/// height is its height before times the Z factor, every extent the extent times
/// its factor, but for rounding.
pub proof fn law_calibrated_numbers_are_products(m: ImageModel, cal: Calibration, i: int)
    requires
        cal.x.is_finite(),
        cal.y.is_finite(),
        cal.z.is_finite(),
        0 <= i < m.data.len(),
        m.data[i].is_finite(),
        m.width_nm.is_finite(),
        m.height_nm.is_finite(),
    ensures
        ({
            let c = calibrated(m, cal);
            let h = num(m.data[i]);
            &&& c.data[i].is_finite() ==> rounds_to(
                Width::Single,
                h * num(cal.z),
                num(c.data[i]),
            ) || (size(num(cal.z) - 1 as real) <= step_at_one() && size(
                num(c.data[i]) - h * num(cal.z),
            ) <= size(h) * step_at_one())
            &&& c.width_nm.is_finite() ==> rounds_to(
                Width::Single,
                num(m.width_nm) * num(cal.x),
                num(c.width_nm),
            )
            &&& c.height_nm.is_finite() ==> rounds_to(
                Width::Single,
                num(m.height_nm) * num(cal.y),
                num(c.height_nm),
            )
        }),
{
    let c = calibrated(m, cal);
    law_calibration_multiplies(m, cal);
    if c.width_nm.is_finite() {
        law_times(m.width_nm, cal.x);
    }
    if c.height_nm.is_finite() {
        law_times(m.height_nm, cal.y);
    }
    if c.data[i].is_finite() {
        let (h, z) = (num(m.data[i]), num(cal.z));
        if size(z - 1 as real) > step_at_one() {
            law_times(m.data[i], cal.z);
        } else {
            let e = z - 1 as real;
            assert(h - h * z == h * (-e)) by (nonlinear_arith)
                requires
                    e == z - 1 as real,
            ;
            assert(size(h * (-e)) == size(h) * size(e)) by (nonlinear_arith);
            assert(size(h) * size(e) <= size(h) * step_at_one()) by (nonlinear_arith)
                requires
                    size(e) <= step_at_one(),
                    size(h) >= 0 as real,
            ;
        }
    }
}

/// A factor counts as one when it is no more than a millionth away from it, but for
/// rounding, and a calibration as none at all when its three factors do.
pub proof fn law_unity_is_within_a_millionth(c: Calibration)
    requires
        c.x.is_finite() && size(num(c.x)) <= 0x1000 as real,
        c.y.is_finite() && size(num(c.y)) <= 0x1000 as real,
        c.z.is_finite() && size(num(c.z)) <= 0x1000 as real,
    ensures
        ({
            let (less, more) = (999 as real / 1000000000 as real, 1001 as real / 1000000000 as real);
            let (x, y, z) = (
                size(num(c.x) - 1 as real),
                size(num(c.y) - 1 as real),
                size(num(c.z) - 1 as real),
            );
            &&& c.is_unity() ==> x <= more && y <= more && z <= more
            &&& x <= less && y <= less && z <= less ==> c.is_unity()
        }),
{
    lemma_near_one(c.x);
    lemma_near_one(c.y);
    lemma_near_one(c.z);
}

proof fn lemma_near_one(v: Binary32)
    requires
        v.is_finite(),
        size(num(v)) <= 0x1000 as real,
    ensures
        is_near_one(v) ==> size(num(v) - 1 as real) <= 1001 as real / 1000000000 as real,
        size(num(v) - 1 as real) <= 999 as real / 1000000000 as real ==> is_near_one(v),
{
    let one = Binary32::of_integer(1);
    lemma_of_integer_finite(1);
    law_of_integer(1);
    lemma_finite_minus(v, one);
    law_minus(v, one);
    let d = v.minus(one);
    let y = num(v) - 1 as real;
    lemma_rounded_well(y, num(d), size(y));
    lemma_abs(d);
    lemma2_to64_rest();
    lemma_known(known(NEAR), 107, 0x6_37bd, 0x800_0000_0000);
    law_compare(d.abs(), known(NEAR));
}

} // verus!
