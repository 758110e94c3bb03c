//! The camera of the 3D view.
//!
//! The camera orbits a centre on a turntable: yaw about the world's up axis and
//! pitch are kept as angles, so that dragging never makes the view roll. The
//! directions that the angles stand for come from the caller.

use crate::binary::Binary32;
use crate::mesh::Vec3;
use vstd::prelude::*;

verus! {

/// `0.01` radians per pixel.
pub const ORBIT_SPEED: u32 = 0x3c23_d70a;

/// `0.0018` radii per pixel.
pub const PAN_SPEED: u32 = 0x3aeb_edfa;

/// `0.0015` per unit of scrolling.
pub const ZOOM_SPEED: u32 = 0x3ac4_9ba6;

/// `0.1`.
pub const MIN_RADIUS: u32 = 0x3dcc_cccd;

/// `50`.
pub const MAX_RADIUS: u32 = 0x4248_0000;

/// `0.2`.
pub const MIN_FACTOR: u32 = 0x3e4c_cccd;

/// `5`.
pub const MAX_FACTOR: u32 = 0x40a0_0000;

/// 89 degrees in radians.
pub const PITCH_LIMIT: u32 = 0x3fc6_d3f2;

/// Minus 30 degrees in radians.
pub const FIRST_ANGLE: u32 = 0xbf06_0a92;

/// `3.5`.
pub const FIRST_RADIUS: u32 = 0x4060_0000;

/// 45 degrees in radians.
pub const FIELD_OF_VIEW: u32 = 0x3f49_0fdb;

/// `0.01`.
pub const NEAR_PLANE: u32 = 0x3c23_d70a;

/// `100`.
pub const FAR_PLANE: u32 = 0x42c8_0000;

/// A number confined to a range.
pub open spec fn confined(v: Binary32, lo: Binary32, hi: Binary32) -> Binary32 {
    if v.below(lo) {
        lo
    } else if hi.below(v) {
        hi
    } else {
        v
    }
}

/// Confines a number to a range.
pub fn confine(v: Binary32, lo: Binary32, hi: Binary32) -> (r: Binary32)
    ensures
        r == confined(v, lo, hi),
{
    if v.below(lo) {
        lo
    } else if hi.below(v) {
        hi
    } else {
        v
    }
}

/// An orbital turntable camera.
#[derive(Clone, Copy, PartialEq, Eq, Structural, Debug)]
pub struct OrbitalCamera {
    pub center: Vec3,
    /// Azimuth about the world's up axis, in radians.
    pub yaw: Binary32,
    /// Elevation in radians.
    pub pitch: Binary32,
    pub radius: Binary32,
    pub fov_y: Binary32,
    pub near: Binary32,
    pub far: Binary32,
}

/// The camera at first: a bird's-eye view.
pub open spec fn first_camera() -> OrbitalCamera {
    OrbitalCamera {
        center: Vec3 {
            x: Binary32::of_integer(0),
            y: Binary32::of_integer(0),
            z: Binary32::of_integer(0),
        },
        yaw: Binary32 { bits: FIRST_ANGLE },
        pitch: Binary32 { bits: FIRST_ANGLE },
        radius: Binary32 { bits: FIRST_RADIUS },
        fov_y: Binary32 { bits: FIELD_OF_VIEW },
        near: Binary32 { bits: NEAR_PLANE },
        far: Binary32 { bits: FAR_PLANE },
    }
}

impl Default for OrbitalCamera {
    fn default() -> (r: OrbitalCamera)
        ensures
            r == first_camera(),
    {
        let zero: Binary32 = Binary32::from_usize(0);
        OrbitalCamera {
            center: Vec3 { x: zero, y: zero, z: zero },
            yaw: Binary32 { bits: FIRST_ANGLE },
            pitch: Binary32 { bits: FIRST_ANGLE },
            radius: Binary32 { bits: FIRST_RADIUS },
            fov_y: Binary32 { bits: FIELD_OF_VIEW },
            near: Binary32 { bits: NEAR_PLANE },
            far: Binary32 { bits: FAR_PLANE },
        }
    }
}

/// A camera after a drag of some pixels: it turns about its centre.
pub open spec fn orbited(c: OrbitalCamera, dx: Binary32, dy: Binary32) -> OrbitalCamera {
    let speed = Binary32 { bits: ORBIT_SPEED };
    let limit = Binary32 { bits: PITCH_LIMIT };
    OrbitalCamera {
        yaw: c.yaw.minus(dx.times(speed)),
        pitch: confined(c.pitch.minus(dy.times(speed)), limit.negate(), limit),
        ..c
    }
}

/// A camera after a drag of some pixels: its centre moves along its own axes.
pub open spec fn panned(
    c: OrbitalCamera,
    dx: Binary32,
    dy: Binary32,
    right: Vec3,
    up: Vec3,
) -> OrbitalCamera {
    let scale = c.radius.times(Binary32 { bits: PAN_SPEED });
    let (a, b) = (dx.negate().times(scale), dy.times(scale));
    OrbitalCamera {
        center: Vec3 {
            x: c.center.x.plus(right.x.times(a).plus(up.x.times(b))),
            y: c.center.y.plus(right.y.times(a).plus(up.y.times(b))),
            z: c.center.z.plus(right.z.times(a).plus(up.z.times(b))),
        },
        ..c
    }
}

/// A camera after scrolling: nearer for a positive amount.
pub open spec fn dollied(c: OrbitalCamera, scroll: Binary32) -> OrbitalCamera {
    let factor = confined(
        Binary32::of_integer(1).minus(scroll.times(Binary32 { bits: ZOOM_SPEED })),
        Binary32 { bits: MIN_FACTOR },
        Binary32 { bits: MAX_FACTOR },
    );
    OrbitalCamera {
        radius: confined(
            c.radius.times(factor),
            Binary32 { bits: MIN_RADIUS },
            Binary32 { bits: MAX_RADIUS },
        ),
        ..c
    }
}

/// Where a camera stands that looks along `forward`.
pub open spec fn eye_of(c: OrbitalCamera, forward: Vec3) -> Vec3 {
    Vec3 {
        x: c.center.x.minus(forward.x.times(c.radius)),
        y: c.center.y.minus(forward.y.times(c.radius)),
        z: c.center.z.minus(forward.z.times(c.radius)),
    }
}

impl OrbitalCamera {
    /// Turns about the centre.
    pub fn orbit(&mut self, dx: Binary32, dy: Binary32)
        ensures
            *final(self) == orbited(*old(self), dx, dy),
    {
        let speed: Binary32 = Binary32 { bits: ORBIT_SPEED };
        let limit: Binary32 = Binary32 { bits: PITCH_LIMIT };
        self.yaw = self.yaw.minus(dx.times(speed));
        self.pitch = confine(self.pitch.minus(dy.times(speed)), limit.negate(), limit);
    }

    /// Moves the centre along the camera's own axes.
    pub fn pan(&mut self, dx: Binary32, dy: Binary32, right: Vec3, up: Vec3)
        ensures
            *final(self) == panned(*old(self), dx, dy, right, up),
    {
        let scale: Binary32 = self.radius.times(Binary32 { bits: PAN_SPEED });
        let a: Binary32 = dx.negate().times(scale);
        let b: Binary32 = dy.times(scale);
        self.center = Vec3 {
            x: self.center.x.plus(right.x.times(a).plus(up.x.times(b))),
            y: self.center.y.plus(right.y.times(a).plus(up.y.times(b))),
            z: self.center.z.plus(right.z.times(a).plus(up.z.times(b))),
        };
    }

    /// Moves nearer or farther.
    pub fn dolly(&mut self, scroll: Binary32)
        ensures
            *final(self) == dollied(*old(self), scroll),
    {
        let factor: Binary32 = confine(
            Binary32::from_usize(1).minus(scroll.times(Binary32 { bits: ZOOM_SPEED })),
            Binary32 { bits: MIN_FACTOR },
            Binary32 { bits: MAX_FACTOR },
        );
        self.radius = confine(
            self.radius.times(factor),
            Binary32 { bits: MIN_RADIUS },
            Binary32 { bits: MAX_RADIUS },
        );
    }

    /// Where the camera stands when it looks along `forward`.
    pub fn eye(&self, forward: Vec3) -> (r: Vec3)
        ensures
            r == eye_of(*self, forward),
    {
        Vec3 {
            x: self.center.x.minus(forward.x.times(self.radius)),
            y: self.center.y.minus(forward.y.times(self.radius)),
            z: self.center.z.minus(forward.z.times(self.radius)),
        }
    }
}

/// A confined number is not beyond the ends of a range that has a lower and an
/// upper end.
proof fn lemma_confined(v: Binary32, lo: Binary32, hi: Binary32)
    requires
        !hi.below(lo),
        !lo.below(lo),
        !hi.below(hi),
    ensures
        !confined(v, lo, hi).below(lo),
        !hi.below(confined(v, lo, hi)),
{
}

/// Dragging never tilts the camera past 89 degrees, so it never turns over.
pub proof fn law_pitch_is_confined(c: OrbitalCamera, dx: Binary32, dy: Binary32)
    ensures
        !orbited(c, dx, dy).pitch.below((Binary32 { bits: PITCH_LIMIT }).negate()),
        !(Binary32 { bits: PITCH_LIMIT }).below(orbited(c, dx, dy).pitch),
        orbited(c, dx, dy).center == c.center,
        orbited(c, dx, dy).radius == c.radius,
{
    let limit = Binary32 { bits: PITCH_LIMIT };
    lemma_confined(c.pitch.minus(dy.times(Binary32 { bits: ORBIT_SPEED })), limit.negate(), limit);
}

/// Scrolling never takes the camera out of its range of distances.
pub proof fn law_radius_is_confined(c: OrbitalCamera, scroll: Binary32)
    ensures
        !dollied(c, scroll).radius.below(Binary32 { bits: MIN_RADIUS }),
        !(Binary32 { bits: MAX_RADIUS }).below(dollied(c, scroll).radius),
        dollied(c, scroll).center == c.center,
        dollied(c, scroll).yaw == c.yaw,
        dollied(c, scroll).pitch == c.pitch,
{
    let factor = confined(
        Binary32::of_integer(1).minus(scroll.times(Binary32 { bits: ZOOM_SPEED })),
        Binary32 { bits: MIN_FACTOR },
        Binary32 { bits: MAX_FACTOR },
    );
    lemma_confined(
        c.radius.times(factor),
        Binary32 { bits: MIN_RADIUS },
        Binary32 { bits: MAX_RADIUS },
    );
}

} // verus!
