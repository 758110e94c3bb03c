//! What turning, moving and zooming do, in numbers.

use crate::binary::Binary32;
use crate::camera::{
    confined, dollied, eye_of, orbited, panned, OrbitalCamera, MAX_FACTOR, MAX_RADIUS, MIN_FACTOR,
    MIN_RADIUS, ORBIT_SPEED, PAN_SPEED, PITCH_LIMIT, ZOOM_SPEED,
};
use crate::drawn_line::lemma_rounded_well;
use crate::fitting::lemma_rounded_small;
use crate::measures::{lemma_half, lemma_ratio_of_near};
use crate::mesh::{half, Vec3};
use crate::pointer::{
    on_image, on_screen, origin, pan_toward, zoom_step, zoomed, Area, Viewport, MAX_STEP, MAX_ZOOM,
    MIN_STEP, MIN_ZOOM, SCROLL_SPEED,
};
use crate::profile::Point;
use crate::reals::{
    law_compare, law_minus, law_of_integer, law_over, law_plus, law_times, lemma_bits,
    lemma_finite_minus, lemma_finite_over, lemma_finite_plus, lemma_finite_times, lemma_negate,
    lemma_of_integer_finite, num, size,
};
use vstd::arithmetic::power2::{lemma2_to64, lemma2_to64_rest, lemma_pow2_pos, pow2};
use vstd::prelude::*;

verus! {

/// A number given by its bits.
pub open spec fn known(bits: u32) -> Binary32 {
    Binary32 { bits }
}

/// A number given by its exponent and fraction, with the power of two that divides it.
pub(crate) proof fn lemma_known(a: Binary32, e: nat, f: nat, p: nat)
    requires
        a.bits == e * 0x80_0000 + f,
        f < 0x80_0000,
        1 <= e <= 149,
        p == pow2((150 - e) as nat),
    ensures
        a.is_finite(),
        num(a) * (p as real) == 0x80_0000 as real + f as real,
{
    lemma_bits(a, e, f);
    lemma_pow2_pos((150 - e) as nat);
    let (x, y) = ((0x80_0000 + f) as real, p as real);
    assert((x / y) * y == x) by (nonlinear_arith)
        requires
            y > 0 as real,
    ;
}

/// The numbers that turning, moving and zooming go by.
proof fn lemma_speeds()
    ensures
        known(ORBIT_SPEED).is_finite() && size(num(known(ORBIT_SPEED)) - 1 as real / 100 as real)
            <= 1 as real / 0x1000_0000 as real,
        known(PAN_SPEED).is_finite() && size(num(known(PAN_SPEED)) - 18 as real / 10000 as real)
            <= 1 as real / 0x1000_0000 as real,
        known(ZOOM_SPEED).is_finite() && size(num(known(ZOOM_SPEED)) - 15 as real / 10000 as real)
            <= 1 as real / 0x1000_0000 as real,
        known(SCROLL_SPEED).is_finite() && size(num(known(SCROLL_SPEED)) - 1 as real / 1000 as real)
            <= 1 as real / 0x1000_0000 as real,
{
    lemma2_to64();
    lemma2_to64_rest();
    lemma_known(known(ORBIT_SPEED), 120, 0x23_d70a, 0x4000_0000);
    lemma_known(known(PAN_SPEED), 117, 0x6b_edfa, 0x2_0000_0000);
    lemma_known(known(ZOOM_SPEED), 117, 0x44_9ba6, 0x2_0000_0000);
    lemma_known(known(SCROLL_SPEED), 117, 0x3_126f, 0x2_0000_0000);
}

/// The limits that they keep to.
proof fn lemma_limits()
    ensures
        known(PITCH_LIMIT).is_finite() && size(num(known(PITCH_LIMIT)) - 15533 as real / 10000 as real)
            <= 1 as real / 10000 as real,
        known(MIN_RADIUS).is_finite() && size(num(known(MIN_RADIUS)) - 1 as real / 10 as real)
            <= 1 as real / 0x100_0000 as real,
        known(MAX_RADIUS).is_finite() && num(known(MAX_RADIUS)) == 50 as real,
        known(MIN_FACTOR).is_finite() && size(num(known(MIN_FACTOR)) - 1 as real / 5 as real)
            <= 1 as real / 0x100_0000 as real,
        known(MAX_FACTOR).is_finite() && num(known(MAX_FACTOR)) == 5 as real,
        known(MIN_STEP).is_finite() && size(num(known(MIN_STEP)) - 4 as real / 5 as real)
            <= 1 as real / 0x100_0000 as real,
        known(MAX_STEP).is_finite() && num(known(MAX_STEP)) == 5 as real / 4 as real,
        known(MIN_ZOOM).is_finite() && size(num(known(MIN_ZOOM)) - 1 as real / 10 as real)
            <= 1 as real / 0x100_0000 as real,
        known(MAX_ZOOM).is_finite() && num(known(MAX_ZOOM)) == 50 as real,
{
    lemma2_to64();
    lemma2_to64_rest();
    lemma_known(known(PITCH_LIMIT), 127, 0x46_d3f2, 0x80_0000);
    lemma_known(known(MIN_RADIUS), 123, 0x4c_cccd, 0x800_0000);
    lemma_known(known(MAX_RADIUS), 132, 0x48_0000, 0x4_0000);
    lemma_known(known(MIN_FACTOR), 124, 0x4c_cccd, 0x400_0000);
    lemma_known(known(MAX_FACTOR), 129, 0x20_0000, 0x20_0000);
    lemma_known(known(MIN_STEP), 126, 0x4c_cccd, 0x100_0000);
    lemma_known(known(MAX_STEP), 127, 0x20_0000, 0x80_0000);
    lemma_known(known(MIN_ZOOM), 123, 0x4c_cccd, 0x800_0000);
    lemma_known(known(MAX_ZOOM), 132, 0x48_0000, 0x4_0000);
}

/// A real number kept between two others.
pub open spec fn kept_between(x: real, lo: real, hi: real) -> real {
    if x < lo {
        lo
    } else if x > hi {
        hi
    } else {
        x
    }
}

proof fn lemma_confined(v: Binary32, lo: Binary32, hi: Binary32)
    requires
        v.is_finite(),
        lo.is_finite(),
        hi.is_finite(),
    ensures
        confined(v, lo, hi).is_finite(),
        num(confined(v, lo, hi)) == kept_between(num(v), num(lo), num(hi)),
{
    law_compare(v, lo);
    law_compare(hi, v);
}

/// A number less a multiple of another.
proof fn lemma_moved(a: Binary32, d: Binary32, s: Binary32, t: real, m: real)
    requires
        a.is_finite(),
        d.is_finite(),
        s.is_finite(),
        1 as real <= m <= 0x100_0000 as real,
        size(num(a)) <= m,
        size(num(d)) <= m,
        0 as real <= t <= 1 as real / 8 as real,
        size(num(s) - t) <= 1 as real / 0x1000_0000 as real,
    ensures
        a.minus(d.times(s)).is_finite(),
        a.plus(d.times(s)).is_finite(),
        size(num(a.minus(d.times(s))) - (num(a) - num(d) * t)) <= 4 as real * m
            / 0x100_0000 as real,
        size(num(a.plus(d.times(s))) - (num(a) + num(d) * t)) <= 4 as real * m
            / 0x100_0000 as real,
{
    let (x, y) = (num(d), num(s));
    let e = y - t;
    assert(x * y - x * t == x * e) by (nonlinear_arith)
        requires
            e == y - t,
    ;
    assert(size(x * e) <= m / 0x1000_0000 as real) by (nonlinear_arith)
        requires
            size(x) <= m,
            size(e) <= 1 as real / 0x1000_0000 as real,
    ;
    assert(size(x * y) <= m) by (nonlinear_arith)
        requires
            size(x) <= m,
            size(y) <= 1 as real,
    ;
    lemma_finite_times(d, s);
    law_times(d, s);
    let k = d.times(s);
    lemma_rounded_small(x * y, num(k), m);
    lemma_finite_minus(a, k);
    law_minus(a, k);
    lemma_finite_plus(a, k);
    law_plus(a, k);
    let b = 5 as real * m / 2 as real;
    lemma_rounded_well(num(a) - num(k), num(a.minus(k)), b);
    lemma_rounded_well(num(a) + num(k), num(a.plus(k)), b);
}

/// Dragging turns the camera by a hundredth of a radian for every pixel, and no
/// farther up or down than to its limit; nothing else changes.
pub proof fn law_drag_turns_the_camera(c: OrbitalCamera, dx: Binary32, dy: Binary32, m: real)
    requires
        c.yaw.is_finite(),
        c.pitch.is_finite(),
        dx.is_finite(),
        dy.is_finite(),
        1 as real <= m <= 0x10_0000 as real,
        size(num(c.yaw)) <= m,
        size(num(c.pitch)) <= m,
        size(num(dx)) <= m,
        size(num(dy)) <= m,
    ensures
        ({
            let n = orbited(c, dx, dy);
            let limit = num(known(PITCH_LIMIT));
            let e = 4 as real * m / 0x100_0000 as real;
            &&& n.center == c.center
            &&& n.radius == c.radius
            &&& n.fov_y == c.fov_y
            &&& n.near == c.near
            &&& n.far == c.far
            &&& size(num(n.yaw) - (num(c.yaw) - num(dx) * (1 as real / 100 as real))) <= e
            &&& size(
                num(n.pitch) - kept_between(
                    num(c.pitch) - num(dy) * (1 as real / 100 as real),
                    -limit,
                    limit,
                ),
            ) <= e
            &&& size(limit - 15533 as real / 10000 as real) <= 1 as real / 10000 as real
        }),
{
    lemma_speeds();
    lemma_limits();
    let (s, l) = (known(ORBIT_SPEED), known(PITCH_LIMIT));
    lemma_moved(c.yaw, dx, s, 1 as real / 100 as real, m);
    lemma_moved(c.pitch, dy, s, 1 as real / 100 as real, m);
    lemma_negate(l);
    lemma_confined(c.pitch.minus(dy.times(s)), l.negate(), l);
}

/// Scrolling brings the camera nearer or takes it away, by 15 parts in ten thousand
/// for every unit, no more than five times at once, and within its limits.
pub proof fn law_scrolling_moves_the_camera(c: OrbitalCamera, scroll: Binary32, m: real)
    requires
        c.radius.is_finite(),
        scroll.is_finite(),
        1 as real <= m <= 0x10_0000 as real,
        0 as real <= num(c.radius) <= 50 as real,
        size(num(scroll)) <= m,
    ensures
        ({
            let n = dollied(c, scroll);
            let factor = kept_between(
                1 as real - num(scroll) * (15 as real / 10000 as real),
                1 as real / 5 as real,
                5 as real,
            );
            &&& n.center == c.center
            &&& n.yaw == c.yaw
            &&& n.pitch == c.pitch
            &&& size(
                num(n.radius) - kept_between(
                    num(c.radius) * factor,
                    1 as real / 10 as real,
                    50 as real,
                ),
            ) <= 1 as real / 0x1000 as real + 256 as real * m / 0x100_0000 as real
        }),
{
    lemma_speeds();
    lemma_limits();
    let one = Binary32::of_integer(1);
    lemma_of_integer_finite(1);
    law_of_integer(1);
    lemma_moved(one, scroll, known(ZOOM_SPEED), 15 as real / 10000 as real, m);
    let raw = one.minus(scroll.times(known(ZOOM_SPEED)));
    let (lo, hi) = (known(MIN_FACTOR), known(MAX_FACTOR));
    lemma_confined(raw, lo, hi);
    let f = confined(raw, lo, hi);
    let factor = kept_between(
        1 as real - num(scroll) * (15 as real / 10000 as real),
        1 as real / 5 as real,
        5 as real,
    );
    let e = 5 as real * m / 0x100_0000 as real;
    assert(size(num(f) - factor) <= e);
    lemma_scaled_radius(c.radius, f, factor, e);
    lemma_confined(c.radius.times(f), known(MIN_RADIUS), known(MAX_RADIUS));
}

proof fn lemma_scaled_radius(r: Binary32, f: Binary32, factor: real, e: real)
    requires
        r.is_finite(),
        f.is_finite(),
        0 as real <= num(r) <= 50 as real,
        size(num(f)) <= 6 as real,
        size(num(f) - factor) <= e,
    ensures
        r.times(f).is_finite(),
        size(num(r.times(f)) - num(r) * factor) <= 50 as real * e + 1 as real / 0x4000 as real,
{
    let (x, y) = (num(r), num(f));
    let d = y - factor;
    assert(x * y - x * factor == x * d) by (nonlinear_arith)
        requires
            d == y - factor,
    ;
    assert(size(x * d) <= 50 as real * e) by (nonlinear_arith)
        requires
            0 as real <= x,
            x <= 50 as real,
            size(d) <= e,
    ;
    assert(size(x * y) <= 300 as real) by (nonlinear_arith)
        requires
            0 as real <= x,
            x <= 50 as real,
            size(y) <= 6 as real,
    ;
    lemma_finite_times(r, f);
    law_times(r, f);
    lemma_rounded_small(x * y, num(r.times(f)), 300 as real);
}

/// Scrolling over an image zooms by a thousandth for every unit, by no more than a
/// quarter in and a fifth out at once, and within its limits.
pub proof fn law_scrolling_zooms(zoom: Binary32, scroll: Binary32, m: real)
    requires
        zoom.is_finite(),
        scroll.is_finite(),
        1 as real <= m <= 0x10_0000 as real,
        0 as real <= num(zoom) <= 50 as real,
        size(num(scroll)) <= m,
    ensures
        ({
            let factor = kept_between(
                1 as real + num(scroll) * (1 as real / 1000 as real),
                4 as real / 5 as real,
                5 as real / 4 as real,
            );
            &&& size(num(zoom_step(scroll)) - factor) <= 5 as real * m / 0x100_0000 as real
            &&& size(
                num(zoomed(zoom, zoom_step(scroll))) - kept_between(
                    num(zoom) * factor,
                    1 as real / 10 as real,
                    50 as real,
                ),
            ) <= 1 as real / 0x1000 as real + 256 as real * m / 0x100_0000 as real
        }),
{
    lemma_speeds();
    lemma_limits();
    let one = Binary32::of_integer(1);
    lemma_of_integer_finite(1);
    law_of_integer(1);
    lemma_moved(one, scroll, known(SCROLL_SPEED), 1 as real / 1000 as real, m);
    let raw = one.plus(scroll.times(known(SCROLL_SPEED)));
    let (lo, hi) = (known(MIN_STEP), known(MAX_STEP));
    lemma_confined(raw, lo, hi);
    let f = zoom_step(scroll);
    let factor = kept_between(
        1 as real + num(scroll) * (1 as real / 1000 as real),
        4 as real / 5 as real,
        5 as real / 4 as real,
    );
    let e = 5 as real * m / 0x100_0000 as real;
    assert(size(num(f) - factor) <= e);
    lemma_scaled_radius(zoom, f, factor, e);
    lemma_confined(zoom.times(f), known(MIN_ZOOM), known(MAX_ZOOM));
}

proof fn lemma_eye(center: Binary32, forward: Binary32, radius: Binary32)
    requires
        center.is_finite(),
        forward.is_finite(),
        radius.is_finite(),
        size(num(center)) <= 0x1000 as real,
        size(num(forward)) <= 2 as real,
        size(num(radius)) <= 64 as real,
    ensures
        size(
            num(center.minus(forward.times(radius))) - (num(center) - num(forward) * num(radius)),
        ) <= 1 as real / 0x400 as real,
{
    let (x, y) = (num(forward), num(radius));
    assert(size(x * y) <= 128 as real) by (nonlinear_arith)
        requires
            size(x) <= 2 as real,
            size(y) <= 64 as real,
    ;
    lemma_finite_times(forward, radius);
    law_times(forward, radius);
    let k = forward.times(radius);
    lemma_rounded_small(x * y, num(k), 128 as real);
    lemma_finite_minus(center, k);
    law_minus(center, k);
    lemma_rounded_well(num(center) - num(k), num(center.minus(k)), 0x2000 as real);
}

/// Whether a vector is finite, and none of its parts is larger than `m`.
pub open spec fn is_vector(v: Vec3, m: real) -> bool {
    &&& v.x.is_finite() && size(num(v.x)) <= m
    &&& v.y.is_finite() && size(num(v.y)) <= m
    &&& v.z.is_finite() && size(num(v.z)) <= m
}

/// A camera stands its radius away from its centre, against the way that it looks.
pub proof fn law_eye_is_behind_the_centre(c: OrbitalCamera, forward: Vec3)
    requires
        is_vector(c.center, 0x1000 as real),
        is_vector(forward, 2 as real),
        c.radius.is_finite(),
        size(num(c.radius)) <= 64 as real,
    ensures
        ({
            let eye = eye_of(c, forward);
            let (r, e) = (num(c.radius), 1 as real / 0x400 as real);
            &&& size(num(eye.x) - (num(c.center.x) - num(forward.x) * r)) <= e
            &&& size(num(eye.y) - (num(c.center.y) - num(forward.y) * r)) <= e
            &&& size(num(eye.z) - (num(c.center.z) - num(forward.z) * r)) <= e
        }),
{
    lemma_eye(c.center.x, forward.x, c.radius);
    lemma_eye(c.center.y, forward.y, c.radius);
    lemma_eye(c.center.z, forward.z, c.radius);
}

/// A product whose factors are near true ones.
pub(crate) proof fn lemma_product_near(
    a: Binary32,
    b: Binary32,
    s: real,
    t: real,
    m: real,
    n: real,
    e: real,
    f: real,
)
    requires
        a.is_finite(),
        b.is_finite(),
        size(s) <= m,
        size(num(b)) <= n,
        size(num(a) - s) <= e,
        size(num(b) - t) <= f,
        size(num(a)) <= m,
        0 as real <= m <= 0x1_0000 as real,
        0 as real <= n <= 0x1_0000 as real,
    ensures
        a.times(b).is_finite(),
        size(num(a.times(b)) - s * t) <= n * e + m * f + m * n / 0x100_0000 as real + 1 as real
            / 0x100_0000_0000_0000 as real,
        size(num(a.times(b))) <= 2 as real * (m * n) + 1 as real / 0x100_0000_0000_0000 as real,
{
    let (x, y) = (num(a), num(b));
    let (d, g) = (x - s, y - t);
    assert(x * y - s * t == d * y + s * g) by (nonlinear_arith)
        requires
            d == x - s,
            g == y - t,
    ;
    assert(size(d * y) <= n * e) by (nonlinear_arith)
        requires
            size(d) <= e,
            size(y) <= n,
    ;
    assert(size(s * g) <= m * f) by (nonlinear_arith)
        requires
            size(s) <= m,
            size(g) <= f,
    ;
    let mn = m * n;
    assert(size(x * y) <= mn && 0 as real <= mn && mn <= 0x1_0000_0000 as real) by (nonlinear_arith)
        requires
            size(x) <= m,
            size(y) <= n,
            mn == m * n,
            0 as real <= m,
            m <= 0x1_0000 as real,
            0 as real <= n,
            n <= 0x1_0000 as real,
    ;
    lemma_finite_times(a, b);
    law_times(a, b);
    lemma_rounded_small(x * y, num(a.times(b)), mn);
}

/// One coordinate of the centre after a drag.
proof fn lemma_panned(
    c: Binary32,
    right: Binary32,
    up: Binary32,
    dx: Binary32,
    dy: Binary32,
    radius: Binary32,
)
    requires
        c.is_finite() && size(num(c)) <= 0x1000 as real,
        right.is_finite() && size(num(right)) <= 2 as real,
        up.is_finite() && size(num(up)) <= 2 as real,
        dx.is_finite() && size(num(dx)) <= 0x1000 as real,
        dy.is_finite() && size(num(dy)) <= 0x1000 as real,
        radius.is_finite() && 0 as real <= num(radius) <= 50 as real,
    ensures
        ({
            let scale = radius.times(known(PAN_SPEED));
            let (a, b) = (dx.negate().times(scale), dy.times(scale));
            let step = num(radius) * (18 as real / 10000 as real);
            size(
                num(c.plus(right.times(a).plus(up.times(b)))) - (num(c) + num(right) * (-num(dx)
                    * step) + num(up) * (num(dy) * step)),
            ) <= 1 as real / 0x40 as real
        }),
{
    lemma_speeds();
    let s = known(PAN_SPEED);
    let rate = 18 as real / 10000 as real;
    let tiny = 1 as real / 0x1000_0000 as real;
    let most = 1 as real / 500 as real;
    lemma_product_near(radius, s, num(radius), rate, 50 as real, most, 0 as real, tiny);
    let scale = radius.times(s);
    let step = num(radius) * rate;
    assert(50 as real * (1 as real / 500 as real) == 1 as real / 10 as real);
    let e1 = 1 as real / 0x40_0000 as real;
    assert(size(num(scale) - step) <= e1);
    assert(size(num(scale)) <= 1 as real / 8 as real) by (nonlinear_arith)
        requires
            size(num(scale) - step) <= e1,
            step == num(radius) * rate,
            0 as real <= num(radius),
            num(radius) <= 50 as real,
            rate == 18 as real / 10000 as real,
            e1 == 1 as real / 0x40_0000 as real,
    ;
    lemma_negate(dx);
    let m = 0x1000 as real;
    let n8 = 1 as real / 8 as real;
    lemma_product_near(dx.negate(), scale, -num(dx), step, m, n8, 0 as real, e1);
    lemma_product_near(dy, scale, num(dy), step, m, n8, 0 as real, e1);
    let (a, b) = (dx.negate().times(scale), dy.times(scale));
    let e2 = 1 as real / 0x200 as real;
    assert(m * n8 == 0x200 as real && m * e1 == 1 as real / 0x400 as real);
    assert(size(num(a) - (-num(dx) * step)) <= e2);
    assert(size(num(b) - num(dy) * step) <= e2);
    let m2 = 0x401 as real;
    lemma_product_near(right, a, num(right), -num(dx) * step, 2 as real, m2, 0 as real, e2);
    lemma_product_near(up, b, num(up), num(dy) * step, 2 as real, m2, 0 as real, e2);
    let (p, q) = (right.times(a), up.times(b));
    assert(2 as real * m2 == 0x802 as real);
    lemma_finite_plus(p, q);
    law_plus(p, q);
    let t = p.plus(q);
    lemma_rounded_well(num(p) + num(q), num(t), 0x4000 as real);
    lemma_finite_plus(c, t);
    law_plus(c, t);
    lemma_rounded_well(num(c) + num(t), num(c.plus(t)), 0x8000 as real);
}

/// Dragging with the other button moves the centre along the camera's own axes, by 18
/// parts in ten thousand of its radius for every pixel: the scene follows the pointer.
pub proof fn law_drag_moves_the_centre(
    c: OrbitalCamera,
    dx: Binary32,
    dy: Binary32,
    right: Vec3,
    up: Vec3,
)
    requires
        is_vector(c.center, 0x1000 as real),
        is_vector(right, 2 as real),
        is_vector(up, 2 as real),
        dx.is_finite() && size(num(dx)) <= 0x1000 as real,
        dy.is_finite() && size(num(dy)) <= 0x1000 as real,
        c.radius.is_finite() && 0 as real <= num(c.radius) <= 50 as real,
    ensures
        ({
            let n = panned(c, dx, dy, right, up);
            let step = num(c.radius) * (18 as real / 10000 as real);
            let (a, b) = (-num(dx) * step, num(dy) * step);
            let e = 1 as real / 0x40 as real;
            &&& n.radius == c.radius
            &&& n.yaw == c.yaw
            &&& n.pitch == c.pitch
            &&& size(num(n.center.x) - (num(c.center.x) + num(right.x) * a + num(up.x) * b)) <= e
            &&& size(num(n.center.y) - (num(c.center.y) + num(right.y) * a + num(up.y) * b)) <= e
            &&& size(num(n.center.z) - (num(c.center.z) + num(right.z) * a + num(up.z) * b)) <= e
        }),
{
    lemma_panned(c.center.x, right.x, up.x, dx, dy, c.radius);
    lemma_panned(c.center.y, right.y, up.y, dx, dy, c.radius);
    lemma_panned(c.center.z, right.z, up.z, dx, dy, c.radius);
}

/// Zooming toward the cursor scales the way from the image's middle to the cursor by
/// the factor: the spot under the cursor stays there.
pub proof fn law_zoom_keeps_the_spot(
    cursor: Binary32,
    center: Binary32,
    pan: Binary32,
    factor: Binary32,
    m: real,
)
    requires
        cursor.is_finite() && size(num(cursor)) <= m,
        center.is_finite() && size(num(center)) <= m,
        pan.is_finite() && size(num(pan)) <= m,
        factor.is_finite() && 0 as real <= num(factor) <= 2 as real,
        1 as real <= m <= 0x1000 as real,
    ensures
        ({
            let f = num(cursor) - num(center);
            size((f - num(pan_toward(cursor, center, pan, factor))) - (f - num(pan)) * num(factor))
                <= 64 as real * m / 0x100_0000 as real
        }),
{
    let f = num(cursor) - num(center);
    lemma_finite_minus(cursor, center);
    law_minus(cursor, center);
    let a = cursor.minus(center);
    lemma_rounded_well(f, num(a), 2 as real * m);
    lemma_finite_minus(a, pan);
    law_minus(a, pan);
    let b = a.minus(pan);
    lemma_rounded_well(num(a) - num(pan), num(b), 4 as real * m);
    let w = 0x100_0000 as real;
    let e = 6 as real * m / w;
    assert(size(num(b) - (f - num(pan))) <= e);
    lemma_product_near(b, factor, f - num(pan), num(factor), 4 as real * m, 2 as real, e, 0 as real);
    let c = b.times(factor);
    assert(4 as real * m * 0 as real == 0 as real) by (nonlinear_arith);
    lemma_finite_minus(a, c);
    law_minus(a, c);
    lemma_rounded_well(num(a) - num(c), num(a.minus(c)), 20 as real * m);
}

// ---- places on the screen ----

/// Where a part of an image is on the screen, on one axis: the middle of the image
/// stands at the centre, moved by the pan, and the image is as large as the zoom makes
/// it.
pub open spec fn true_place(p: real, center: real, pan: real, extent: real, zoom: real) -> real {
    center + pan + (p - 1 as real / 2 as real) * (extent * zoom)
}

/// The upper left corner, on one axis.
proof fn lemma_origin(center: Binary32, pan: Binary32, extent: Binary32, zoom: Binary32, m: real)
    requires
        center.is_finite() && size(num(center)) <= m,
        pan.is_finite() && size(num(pan)) <= m,
        extent.is_finite() && 0 as real <= num(extent) <= m,
        zoom.is_finite() && 0 as real <= num(zoom) <= 50 as real,
        1 as real <= m <= 0x400 as real,
    ensures
        origin(center, pan, extent, zoom).is_finite(),
        extent.times(zoom).is_finite(),
        size(num(extent.times(zoom)) - num(extent) * num(zoom)) <= 51 as real * m
            / 0x100_0000 as real,
        size(
            num(origin(center, pan, extent, zoom)) - true_place(
                0 as real,
                num(center),
                num(pan),
                num(extent),
                num(zoom),
            ),
        ) <= 256 as real * m / 0x100_0000 as real,
        0 as real <= num(extent) * num(zoom) <= 50 as real * m,
        size(num(origin(center, pan, extent, zoom))) <= 60 as real * m,
{
    let w = 0x100_0000 as real;
    lemma_half();
    let (x, z) = (num(extent), num(zoom));
    let s = x * z;
    assert(0 as real <= s && s <= 50 as real * m) by (nonlinear_arith)
        requires
            s == x * z,
            0 as real <= x,
            x <= m,
            0 as real <= z,
            z <= 50 as real,
    ;
    lemma_finite_times(extent, zoom);
    law_times(extent, zoom);
    let e = extent.times(zoom);
    lemma_rounded_small(s, num(e), 50 as real * m);
    let y = num(e);
    assert(y * num(half()) == y / 2 as real) by (nonlinear_arith)
        requires
            num(half()) == 1 as real / 2 as real,
    ;
    lemma_finite_times(e, half());
    law_times(e, half());
    let k = e.times(half());
    lemma_rounded_small(y / 2 as real, num(k), 26 as real * m);
    lemma_finite_plus(center, pan);
    law_plus(center, pan);
    let c = center.plus(pan);
    lemma_rounded_well(num(center) + num(pan), num(c), 2 as real * m);
    lemma_finite_minus(c, k);
    law_minus(c, k);
    lemma_rounded_well(num(c) - num(k), num(c.minus(k)), 30 as real * m);
    assert((0 as real - 1 as real / 2 as real) * s == -(s / 2 as real)) by (nonlinear_arith);
}

/// A point of an image is shown where the pan and the zoom put it; `p` from 0 to 1
/// across the image.
pub proof fn law_point_is_shown_in_its_place(p: Point, a: Area, v: Viewport, m: real)
    requires
        p.x.is_finite() && 0 as real <= num(p.x) <= 1 as real,
        p.y.is_finite() && 0 as real <= num(p.y) <= 1 as real,
        a.center_x.is_finite() && size(num(a.center_x)) <= m,
        a.center_y.is_finite() && size(num(a.center_y)) <= m,
        v.pan_x.is_finite() && size(num(v.pan_x)) <= m,
        v.pan_y.is_finite() && size(num(v.pan_y)) <= m,
        a.width.is_finite() && 0 as real <= num(a.width) <= m,
        a.height.is_finite() && 0 as real <= num(a.height) <= m,
        v.zoom.is_finite() && 0 as real <= num(v.zoom) <= 50 as real,
        1 as real <= m <= 0x400 as real,
    ensures
        ({
            let s = on_screen(p, a, v);
            let e = 1024 as real * m / 0x100_0000 as real;
            &&& size(
                num(s.x) - true_place(
                    num(p.x),
                    num(a.center_x),
                    num(v.pan_x),
                    num(a.width),
                    num(v.zoom),
                ),
            ) <= e
            &&& size(
                num(s.y) - true_place(
                    num(p.y),
                    num(a.center_y),
                    num(v.pan_y),
                    num(a.height),
                    num(v.zoom),
                ),
            ) <= e
        }),
{
    lemma_shown_at(p.x, a.center_x, v.pan_x, a.width, v.zoom, m);
    lemma_shown_at(p.y, a.center_y, v.pan_y, a.height, v.zoom, m);
}

proof fn lemma_shown_at(
    p: Binary32,
    center: Binary32,
    pan: Binary32,
    extent: Binary32,
    zoom: Binary32,
    m: real,
)
    requires
        p.is_finite() && 0 as real <= num(p) <= 1 as real,
        center.is_finite() && size(num(center)) <= m,
        pan.is_finite() && size(num(pan)) <= m,
        extent.is_finite() && 0 as real <= num(extent) <= m,
        zoom.is_finite() && 0 as real <= num(zoom) <= 50 as real,
        1 as real <= m <= 0x400 as real,
    ensures
        ({
            let s = origin(center, pan, extent, zoom).plus(p.times(extent.times(zoom)));
            size(
                num(s) - true_place(num(p), num(center), num(pan), num(extent), num(zoom)),
            ) <= 1024 as real * m / 0x100_0000 as real
        }),
{
    let w = 0x100_0000 as real;
    lemma_origin(center, pan, extent, zoom, m);
    let e = extent.times(zoom);
    let s = num(extent) * num(zoom);
    let f = 51 as real * m / w;
    lemma_product_near(p, e, num(p), s, 1 as real, 51 as real * m, 0 as real, f);
    let k = p.times(e);
    let o = origin(center, pan, extent, zoom);
    assert(51 as real * m * 0 as real == 0 as real) by (nonlinear_arith);
    assert(1 as real * f == f && 1 as real * (51 as real * m) == 51 as real * m);
    lemma_finite_plus(o, k);
    law_plus(o, k);
    lemma_rounded_well(num(o) + num(k), num(o.plus(k)), 200 as real * m);
    let q = num(p);
    let h = 1 as real / 2 as real;
    assert((q - h) * s == (0 as real - h) * s + q * s) by (nonlinear_arith);
}

/// A place on the screen is read as the part of the image that is shown there: that part
/// is shown at the place, but for rounding.
pub proof fn law_place_is_read_as_its_point(s: Point, a: Area, v: Viewport, m: real)
    requires
        s.x.is_finite() && size(num(s.x)) <= m,
        s.y.is_finite() && size(num(s.y)) <= m,
        a.center_x.is_finite() && size(num(a.center_x)) <= m,
        a.center_y.is_finite() && size(num(a.center_y)) <= m,
        v.pan_x.is_finite() && size(num(v.pan_x)) <= m,
        v.pan_y.is_finite() && size(num(v.pan_y)) <= m,
        a.width.is_finite() && 0 as real <= num(a.width) <= m,
        a.height.is_finite() && 0 as real <= num(a.height) <= m,
        v.zoom.is_finite() && 0 as real <= num(v.zoom) <= 50 as real,
        num(a.width) * num(v.zoom) >= 1 as real,
        num(a.height) * num(v.zoom) >= 1 as real,
        1 as real <= m <= 0x400 as real,
    ensures
        ({
            let p = on_image(s, a, v);
            let e = m / 8 as real;
            &&& p.x.is_finite()
            &&& p.y.is_finite()
            &&& size(
                true_place(
                    num(p.x),
                    num(a.center_x),
                    num(v.pan_x),
                    num(a.width),
                    num(v.zoom),
                ) - num(s.x),
            ) <= e
            &&& size(
                true_place(
                    num(p.y),
                    num(a.center_y),
                    num(v.pan_y),
                    num(a.height),
                    num(v.zoom),
                ) - num(s.y),
            ) <= e
        }),
{
    lemma_read_at(s.x, a.center_x, v.pan_x, a.width, v.zoom, m);
    lemma_read_at(s.y, a.center_y, v.pan_y, a.height, v.zoom, m);
}

proof fn lemma_read_at(
    at: Binary32,
    center: Binary32,
    pan: Binary32,
    extent: Binary32,
    zoom: Binary32,
    m: real,
)
    requires
        at.is_finite() && size(num(at)) <= m,
        center.is_finite() && size(num(center)) <= m,
        pan.is_finite() && size(num(pan)) <= m,
        extent.is_finite() && 0 as real <= num(extent) <= m,
        zoom.is_finite() && 0 as real <= num(zoom) <= 50 as real,
        num(extent) * num(zoom) >= 1 as real,
        1 as real <= m <= 0x400 as real,
    ensures
        ({
            let p = at.minus(origin(center, pan, extent, zoom)).over(extent.times(zoom));
            &&& p.is_finite()
            &&& size(
                true_place(num(p), num(center), num(pan), num(extent), num(zoom)) - num(at),
            ) <= m / 8 as real
        }),
{
    let w = 0x100_0000 as real;
    lemma_origin(center, pan, extent, zoom, m);
    let e = extent.times(zoom);
    let q = num(extent) * num(zoom);
    let o = origin(center, pan, extent, zoom);
    lemma_finite_minus(at, o);
    law_minus(at, o);
    let d = at.minus(o);
    lemma_rounded_well(num(at) - num(o), num(d), 64 as real * m);
    let true_o = true_place(0 as real, num(center), num(pan), num(extent), num(zoom));
    let p = num(at) - true_o;
    let v = 0x1000 as real;
    let b = 64 as real * m / q;
    let bq = b * q;
    assert(bq == 64 as real * m) by (nonlinear_arith)
        requires
            bq == b * q,
            b == 64 as real * m / q,
            q > 0 as real,
    ;
    assert(b >= 0 as real) by (nonlinear_arith)
        requires
            b == 64 as real * m / q,
            m >= 0 as real,
            q > 0 as real,
    ;
    law_times(extent, zoom);
    lemma_rounded_small(q, num(e), q);
    assert(size(num(e) - q) <= q / v);
    lemma_ratio_of_near(p, q, num(d), num(e), b, v);
    lemma_finite_over(d, e);
    law_over(d, e);
    let r = num(d) / num(e);
    let t = p / q;
    let c = d.over(e);
    assert(t * q == p) by (nonlinear_arith)
        requires
            t == p / q,
            q > 0 as real,
    ;
    assert(size(t) <= b) by (nonlinear_arith)
        requires
            t * q == p,
            size(p) <= b * q,
            q > 0 as real,
    ;
    let tiny = 1 as real / 0x100_0000_0000_0000 as real;
    lemma_rounded_small(r, num(c), 2 as real * b);
    let g = num(c) - t;
    let k = 4 as real * b / v + tiny;
    assert(size(g) <= k);
    assert(size(g * q) <= k * q) by (nonlinear_arith)
        requires
            size(g) <= k,
            q > 0 as real,
    ;
    assert(k * q == 4 as real * bq / v + tiny * q) by (nonlinear_arith)
        requires
            k == 4 as real * b / v + tiny,
            bq == b * q,
            v > 0 as real,
    ;
    assert(tiny * q <= 1 as real / 0x100_0000 as real) by (nonlinear_arith)
        requires
            q <= 0x10_0000 as real,
            tiny == 1 as real / 0x100_0000_0000_0000 as real,
    ;
    let nc = num(c);
    let h = 1 as real / 2 as real;
    assert((nc - h) * q == (0 as real - h) * q + t * q + g * q) by (nonlinear_arith)
        requires
            g == nc - t,
    ;
}

} // verus!
