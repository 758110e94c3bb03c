//! Where a mesh lies: within a cube of side two but for the exaggeration, in
//! finite numbers.

use crate::binary::Binary32;
use crate::colormap::{color, hot_at, share};
use crate::float::{nan, product, quotient, sum, units, Width};
use crate::grid::{lemma_place, lemma_row_and_column};
use crate::mesh::{
    after, along, before, channel, half, length_recip, mesh_height, mesh_normal, relief, sides,
    slope, unit_vector, vertex, vertices, Paint, Relief, Vec3,
};
use crate::order::{
    law_conversion_keeps_order, law_difference_keeps_order, law_difference_with_itself, law_one,
    law_quotient_keeps_order, law_representable_is_kept, law_root_keeps_order,
    law_scaling_keeps_order, law_sum_keeps_order, lemma_integer_finite, lemma_one,
    lemma_product_range, lemma_two_and_half, lemma_unit_zero, lemma_zero, lemma_zero_quotient,
};
use crate::rolling::{greatest, law_extremes_hold_all, least, range_of};
use crate::root::{lemma_isqrt_bounds, root, root_mag};
use crate::rounding::{is_ulp, lemma_ulp_is};
use vstd::arithmetic::div_mod::lemma_fundamental_div_mod_converse;
use vstd::arithmetic::power2::{lemma2_to64, lemma_pow2_adds, lemma_pow2_pos, pow2};
use vstd::prelude::*;

verus! {

/// Whether a number lies between `-b` and `b`.
pub open spec fn is_within(a: Binary32, b: Binary32) -> bool {
    b.negate().at_most(a) && a.at_most(b)
}

/// Whether a number lies between 0 and 1.
pub open spec fn is_share(a: Binary32) -> bool {
    Binary32::of_integer(0).at_most(a) && a.at_most(Binary32::of_integer(1))
}

pub(crate) proof fn lemma_commutes(a: Binary32, b: Binary32)
    ensures
        a.times(b) == b.times(a),
{
    let w = Width::Single;
    let (x, y) = (units(w, a.parts().mag as nat), units(w, b.parts().mag as nat));
    reveal(product);
    assert(x * y == y * x) by (nonlinear_arith);
}

pub(crate) proof fn lemma_negated(a: Binary32, b: Binary32)
    requires
        a.is_finite(),
        b.is_finite(),
    ensures
        a.negate().is_finite(),
        a.negate().times(b).parts().mag == a.times(b).parts().mag,
        !a.times(b).is_nan(),
        a.negate().times(b).parts().neg == !a.times(b).parts().neg,
{
    let w = Width::Single;
    reveal(product);
    lemma_product_range(a, b);
    lemma_product_range(a.negate(), b);
}

/// One half, and its negation.
proof fn lemma_half()
    ensures
        half().is_finite(),
        Binary32::of_integer(0).below(half()),
        half().at_most(Binary32::of_integer(1)),
        Binary32::of_integer(1).minus(half()) == half(),
        Binary32::of_integer(0).minus(half()) == half().negate(),
        Binary32::of_integer(2).times(half()) == Binary32::of_integer(1),
        Binary32::of_integer(2).is_finite(),
{
    let w = Width::Single;
    lemma_zero();
    lemma_one();
    lemma_two_and_half();
}

/// Taking a half off a share leaves at most a half either way.
proof fn lemma_centred(a: Binary32)
    requires
        is_share(a),
    ensures
        a.is_finite(),
        is_within(a.minus(half()), half()),
        a.minus(half()).is_finite(),
{
    lemma_zero();
    lemma_one();
    lemma_half();
    law_difference_keeps_order(Binary32::of_integer(0), a, half(), half());
    law_difference_keeps_order(a, Binary32::of_integer(1), half(), half());
}

/// Scaling what is within a half by `c` leaves it within half of `c`.
proof fn lemma_scaled_within(a: Binary32, c: Binary32)
    requires
        a.is_finite(),
        is_within(a, half()),
        c.is_finite(),
        Binary32::of_integer(0).at_most(c),
    ensures
        is_within(a.times(c), half().times(c)),
        half().times(c).is_finite(),
        a.times(c).is_finite(),
{
    let h = half();
    let one = Binary32::of_integer(1);
    lemma_half();
    lemma_one();
    lemma_zero();
    lemma_negated(h, c);
    law_scaling_keeps_order(h.negate(), a, c);
    law_scaling_keeps_order(a, h, c);
    // half of c is at most c
    law_scaling_keeps_order(h, one, c);
    law_one(one, c);
    law_scaling_keeps_order(Binary32::of_integer(0), h, c);
}

/// A part over a whole is a share.
pub(crate) proof fn lemma_share(a: Binary32, b: Binary32)
    requires
        Binary32::of_integer(0).at_most(a),
        a.at_most(b),
        b.is_finite(),
        Binary32::of_integer(0).below(b),
    ensures
        is_share(a.over(b)),
{
    law_quotient_keeps_order(Binary32::of_integer(0), a, b);
    law_quotient_keeps_order(a, b, b);
    law_one(b, b);
    lemma_zero_quotient(b);
}

proof fn lemma_sides(width_nm: Binary32, height_nm: Binary32)
    ensures
        ({
            let two = Binary32::of_integer(2);
            let (x, z) = sides(width_nm, height_nm, two);
            &&& Binary32::of_integer(0).at_most(x) && x.at_most(two) && x.is_finite()
            &&& Binary32::of_integer(0).at_most(z) && z.at_most(two) && z.is_finite()
        }),
{
    let two = Binary32::of_integer(2);
    lemma_integer_finite(2);
    lemma_zero();
    if Binary32::of_integer(0).below(width_nm) && Binary32::of_integer(0).below(height_nm) {
        if height_nm.below(width_nm) {
            lemma_proportion(height_nm, width_nm);
        } else if width_nm.below(height_nm) {
            lemma_proportion(width_nm, height_nm);
        }
    }
}

/// The smaller extent takes at most all of a side.
proof fn lemma_proportion(a: Binary32, b: Binary32)
    requires
        Binary32::of_integer(0).below(a),
        a.below(b),
    ensures
        ({
            let two = Binary32::of_integer(2);
            let r = two.times(a.over(b));
            Binary32::of_integer(0).at_most(r) && r.at_most(two) && r.is_finite()
        }),
{
    let two = Binary32::of_integer(2);
    let one = Binary32::of_integer(1);
    let q = a.over(b);
    lemma_integer_finite(2);
    lemma_zero();
    lemma_one();
    if b.is_finite() {
        lemma_share(a, b);
    } else {
        reveal(quotient);
        assert(q == Binary32::of_integer(0));
    }
    assert(is_share(q));
    lemma_commutes(two, q);
    law_scaling_keeps_order(Binary32::of_integer(0), q, two);
    law_scaling_keeps_order(q, one, two);
    law_one(one, two);
    law_scaling_keeps_order(q, q, two);
}

/// The places along a side lie within one.
proof fn lemma_along(i: int, n: int, span: Binary32)
    requires
        0 <= i < n <= usize::MAX,
        n >= 2,
        span.is_finite(),
        Binary32::of_integer(0).at_most(span),
        span.at_most(Binary32::of_integer(2)),
    ensures
        is_within(along(i, n, span), Binary32::of_integer(1)),
        along(i, n, span).is_finite(),
{
    let last = Binary32::of_integer(n - 1);
    let two = Binary32::of_integer(2);
    let a = Binary32::of_integer(i).over(last);
    lemma_integer_finite(n - 1);
    lemma_integer_finite(i);
    law_conversion_keeps_order(i, n - 1);
    lemma_share(Binary32::of_integer(i), last);
    lemma_centred(a);
    lemma_scaled_within(a.minus(half()), span);
    lemma_half();
    lemma_zero();
    lemma_one();
    lemma_commutes(half(), span);
    lemma_commutes(half(), two);
    law_scaling_keeps_order(span, two, half());
}

/// The heights lie within half of the exaggeration.
proof fn lemma_height_within(f: Relief, row: int, col: int)
    requires
        0 <= row < f.h,
        0 <= col < f.w,
        f.w * f.h <= f.data.len(),
        forall|i: int| 0 <= i < f.data.len() ==> (#[trigger] f.data[i]).is_finite(),
        f.low == least(f.data, f.data.len() as int),
        f.range == range_of(f.low, greatest(f.data, f.data.len() as int)),
        f.range.is_finite(),
        f.exaggeration.is_finite(),
    ensures
        is_within(mesh_height(f, row, col), half().times(f.exaggeration.abs())),
        mesh_height(f, row, col).is_finite(),
{
    lemma_place(f.w, f.h, row, col);
    let k = row * f.w + col;
    let n = f.data.len() as int;
    let v = f.data[k];
    let hi = greatest(f.data, n);
    law_extremes_hold_all(f.data, n, k);
    assert(v.is_finite());
    let j = choose|j: int| 0 <= j < n && least(f.data, n) == #[trigger] f.data[j];
    assert(f.data[j].is_finite());
    let j = choose|j: int| 0 <= j < n && greatest(f.data, n) == #[trigger] f.data[j];
    assert(f.data[j].is_finite());
    lemma_zero();
    law_difference_with_itself(f.low);
    law_difference_keeps_order(f.low, v, f.low, f.low);
    law_difference_keeps_order(v, hi, f.low, f.low);
    assert(hi.minus(f.low).at_most(f.range));
    lemma_share(v.minus(f.low), f.range);
    lemma_centred(v.minus(f.low).over(f.range));
    lemma_scaled_either_way(v.minus(f.low).over(f.range).minus(half()), f.exaggeration);
}

/// Scaling what is within a half by `c` leaves it within half of the magnitude of
/// `c`.
proof fn lemma_scaled_either_way(a: Binary32, c: Binary32)
    requires
        a.is_finite(),
        is_within(a, half()),
        c.is_finite(),
    ensures
        is_within(a.times(c), half().times(c.abs())),
        a.times(c).is_finite(),
{
    let b = c.abs();
    lemma_zero();
    lemma_scaled_within(a, b);
    if c.parts().neg {
        assert(b.negate() == c);
        lemma_negated(b, a);
        lemma_commutes(a, b);
        lemma_commutes(a, c);
    } else {
        assert(b == c);
    }
}

/// The shares of a colour are shares.
proof fn lemma_channel(v: u8)
    ensures
        is_share(channel(v)),
        channel(v).is_finite(),
{
    lemma_integer_finite(v as int);
    lemma_integer_finite(255);
    law_conversion_keeps_order(v as int, 255);
    lemma_share(Binary32::of_integer(v as int), Binary32::of_integer(255));
    lemma_zero();
    lemma_one();
}

// ---- normals ----

pub open spec fn is_finite_vector(v: Vec3) -> bool {
    v.x.is_finite() && v.y.is_finite() && v.z.is_finite()
}

/// A square is not negative.
proof fn lemma_square(a: Binary32)
    requires
        !a.is_nan(),
    ensures
        Binary32::of_integer(0).at_most(a.times(a)),
        a.times(a).is_finite() ==> a.is_finite(),
{
    reveal(product);
    lemma_zero();
    if a.is_finite() {
        lemma_product_range(a, a);
    }
}

/// A sum that is finite has finite parts.
proof fn lemma_sum_parts(a: Binary32, b: Binary32)
    requires
        a.plus(b).is_finite(),
    ensures
        a.is_finite() && b.is_finite(),
{
    reveal(sum);
    assert(Binary32::of(nan(Width::Single)).parts() == nan(Width::Single));
    assert(Binary32::of(a.parts()).parts() == a.parts() || a.is_nan());
    assert(Binary32::of(b.parts()).parts() == b.parts() || b.is_nan());
}

/// What has a finite root that is not negative is finite.
proof fn lemma_root_parts(a: Binary32)
    requires
        a.sqrt().is_finite(),
    ensures
        a.is_finite(),
{
    reveal(root);
    assert(Binary32::of(nan(Width::Single)).parts() == nan(Width::Single));
    assert(Binary32::of(a.parts()).parts() == a.parts() || a.is_nan());
}

/// A reciprocal that is positive is one of a finite number.
proof fn lemma_reciprocal(a: Binary32)
    requires
        Binary32::of_integer(1).over(a).is_finite(),
        Binary32::of_integer(0).below(Binary32::of_integer(1).over(a)),
    ensures
        a.is_finite(),
{
    reveal(quotient);
    lemma_zero();
    lemma_one();
    assert(Binary32::of(nan(Width::Single)).parts() == nan(Width::Single));
}

/// One is its own square root.
proof fn lemma_root_of_one()
    ensures
        Binary32::of_integer(1).sqrt() == Binary32::of_integer(1),
{
    let w = Width::Single;
    let u = pow2(149);
    let n = u * u;
    reveal(root);
    lemma_one();
    lemma2_to64();
    lemma_pow2_pos(149);
    lemma_pow2_pos(150);
    lemma_pow2_adds(1, 149);
    lemma_pow2_adds(23, 126);
    lemma_pow2_adds(24, 126);
    assert(n < (u + 1) * (u + 1)) by (nonlinear_arith)
        requires
            n == u * u,
    ;
    lemma_isqrt_bounds(n, u, u + 1);
    let v = pow2(150);
    assert(4 * n == v * v) by (nonlinear_arith)
        requires
            n == u * u,
            v == 2 * u,
    ;
    assert(v * v < (v + 1) * (v + 1)) by (nonlinear_arith);
    lemma_isqrt_bounds(4 * n, v, v + 1);
    assert(is_ulp(24, u, 1, 126));
    lemma_ulp_is(24, u, 1, 126);
    lemma_pow2_pos(126);
    lemma_fundamental_div_mod_converse(v as int, pow2(126) as int, 0x100_0000, 0);
    assert(root_mag(w, n) == 0x3f80_0000);
}

/// A normal is finite, whatever the slopes.
proof fn lemma_unit_vector_finite(x: Binary32, z: Binary32)
    ensures
        is_finite_vector(unit_vector(Vec3 { x, y: Binary32::of_integer(1), z })),
{
    let one = Binary32::of_integer(1);
    let zero = Binary32::of_integer(0);
    let v = Vec3 { x, y: one, z };
    let r = length_recip(v);
    lemma_zero();
    lemma_one();
    if r.is_finite() && zero.below(r) {
        let (p, q, s) = (x.times(x), one.times(one), z.times(z));
        let a = p.plus(q).plus(s);
        let l = a.sqrt();
        lemma_reciprocal(l);
        lemma_root_parts(a);
        lemma_sum_parts(p.plus(q), s);
        lemma_sum_parts(p, q);
        law_one(one, one);
        assert(q == one);
        lemma_factor_is_number(x);
        lemma_factor_is_number(z);
        lemma_square(x);
        lemma_square(z);
        // the length is at least one
        lemma_zero_plus(one);
        law_sum_keeps_order(zero, p, one, one);
        law_sum_keeps_order(one, p.plus(q), zero, s);
        lemma_plus_zero(one);
        law_root_keeps_order(one, a);
        lemma_root_of_one();
        law_quotient_keeps_order(one, l, l);
        law_one(l, l);
        assert(is_share(r));
        lemma_shrunk(x, r);
        lemma_shrunk(one, r);
        lemma_shrunk(z, r);
    }
}

proof fn lemma_factor_is_number(a: Binary32)
    requires
        a.times(a).is_finite(),
    ensures
        !a.is_nan(),
{
    reveal(product);
    assert(Binary32::of(nan(Width::Single)).parts() == nan(Width::Single));
}

proof fn lemma_zero_plus(a: Binary32)
    requires
        a == Binary32::of_integer(1),
    ensures
        Binary32::of_integer(0).plus(a) == a,
{
    let w = Width::Single;
    reveal(sum);
    lemma_zero();
    lemma_one();
    lemma_unit_zero(0);
    law_representable_is_kept(w, 0x3f80_0000, 1);
    assert(units(w, 0x3f80_0000) * 1 == units(w, 0x3f80_0000));
    lemma_pow2_pos(149);
}

proof fn lemma_plus_zero(a: Binary32)
    requires
        a == Binary32::of_integer(1),
    ensures
        a.plus(Binary32::of_integer(0)) == a,
{
    let w = Width::Single;
    reveal(sum);
    lemma_zero();
    lemma_one();
    lemma_unit_zero(0);
    law_representable_is_kept(w, 0x3f80_0000, 1);
    assert(units(w, 0x3f80_0000) * 1 == units(w, 0x3f80_0000));
    lemma_pow2_pos(149);
}

/// A share of a finite number is finite.
proof fn lemma_shrunk(a: Binary32, r: Binary32)
    requires
        a.is_finite(),
        is_share(r),
        r.is_finite(),
    ensures
        a.times(r).is_finite(),
{
    let one = Binary32::of_integer(1);
    let b = a.abs();
    lemma_zero();
    lemma_one();
    assert(b.is_finite() && Binary32::of_integer(0).at_most(b));
    law_scaling_keeps_order(r, one, b);
    law_scaling_keeps_order(Binary32::of_integer(0), r, b);
    law_one(one, b);
    lemma_commutes(b, r);
    reveal(product);
    lemma_product_range(a, r);
    lemma_product_range(b, r);
}

// ---- the law ----

/// The mesh of finite heights with a finite range lies within one along X and Z
/// and within half of the magnitude of the exaggeration along Y; its colours are
/// shares, and all of it is finite.
pub proof fn law_mesh_is_bounded(
    data: Seq<Binary32>,
    w: int,
    h: int,
    width_nm: Binary32,
    height_nm: Binary32,
    exaggeration: Binary32,
    p: Paint,
    k: int,
)
    requires
        2 <= w <= usize::MAX,
        2 <= h <= usize::MAX,
        w * h <= data.len(),
        forall|i: int| 0 <= i < data.len() ==> (#[trigger] data[i]).is_finite(),
        relief(data, w, h, width_nm, height_nm, exaggeration).range.is_finite(),
        exaggeration.is_finite(),
        0 <= k < w * h,
    ensures
        ({
            let f = relief(data, w, h, width_nm, height_nm, exaggeration);
            let v = vertices(f, p)[k];
            &&& is_within(v.pos.x, Binary32::of_integer(1))
            &&& is_within(v.pos.z, Binary32::of_integer(1))
            &&& is_within(v.pos.y, half().times(exaggeration.abs()))
            &&& is_share(v.color.x) && is_share(v.color.y) && is_share(v.color.z)
            &&& is_finite_vector(v.pos) && is_finite_vector(v.color) && is_finite_vector(v.normal)
        }),
{
    let f = relief(data, w, h, width_nm, height_nm, exaggeration);
    lemma_row_and_column(w, h, k);
    let (row, col) = (k / w, k % w);
    lemma_sides(width_nm, height_nm);
    lemma_along(col, w, f.span_x);
    lemma_along(row, h, f.span_z);
    lemma_height_within(f, row, col);
    let v = vertex(f, p, row, col);
    assert(vertices(f, p)[k] == v);
    lemma_colours(v.color, f, p, row, col);
    lemma_normal(f, row, col);
}

proof fn lemma_colours(c: Vec3, f: Relief, p: Paint, row: int, col: int)
    requires
        c == vertex(f, p, row, col).color,
    ensures
        is_share(c.x) && is_share(c.y) && is_share(c.z),
        is_finite_vector(c),
{
    let rgb = color(
        p.cmap,
        share(f.data[row * f.w + col], p.z_min, p.z_max),
        hot_at(p.hot, row * f.w + col),
    );
    lemma_channel(rgb.red);
    lemma_channel(rgb.green);
    lemma_channel(rgb.blue);
}

proof fn lemma_normal(f: Relief, row: int, col: int)
    ensures
        is_finite_vector(mesh_normal(f, row, col)),
{
    let dydx = slope(
        mesh_height(f, row, after(col, f.w)),
        mesh_height(f, row, before(col)),
        f.w,
        f.span_x,
    );
    let dydz = slope(
        mesh_height(f, after(row, f.h), col),
        mesh_height(f, before(row), col),
        f.h,
        f.span_z,
    );
    lemma_unit_vector_finite(dydx.negate(), dydz.negate());
}

} // verus!
