//! Colours, the mesh and the camera.

use glam::{Mat4, Quat, Vec3 as GlamVec3};
use kintuba::binary::Binary32;
use kintuba::camera::{confine, OrbitalCamera};
use kintuba::colormap::{hot_exponents_of, to_rgba_bytes, viridis, Colormap, HotExps};
use kintuba::mesh::{build_mesh, fit_sides, normalize_or_zero, Vec3, Vertex};

fn f(v: f32) -> Binary32 {
    Binary32 { bits: v.to_bits() }
}

fn fs(v: &[f32]) -> Vec<Binary32> {
    v.iter().map(|&x| f(x)).collect()
}

fn g(v: Binary32) -> f32 {
    f32::from_bits(v.bits)
}

fn exponentials(data: &[Binary32], z_min: f32, z_max: f32) -> Vec<HotExps> {
    hot_exponents_of(data, f(z_min), f(z_max))
        .iter()
        .map(|e| HotExps {
            red: f(g(e.red).exp()),
            green: f(g(e.green).exp()),
            blue: f(g(e.blue).exp()),
        })
        .collect()
}

// ---- colours ----

fn hardware_color(cmap: Colormap, t: f32) -> [u8; 3] {
    const STOPS: [[f32; 3]; 8] = [
        [0.267, 0.004, 0.329],
        [0.283, 0.141, 0.458],
        [0.254, 0.265, 0.530],
        [0.207, 0.372, 0.553],
        [0.164, 0.471, 0.558],
        [0.128, 0.566, 0.551],
        [0.285, 0.706, 0.429],
        [0.993, 0.906, 0.144],
    ];
    let t = t.clamp(0.0, 1.0);
    match cmap {
        Colormap::Gray => [(t * 255.0) as u8; 3],
        Colormap::AfmHot => {
            let sigmoid = |t: f32, sigma: f32, z: f32| 1.0 / (1.0 + (-sigma * (t - z)).exp());
            let t = t * 0.8 + 0.2;
            let r = (sigmoid(t, 7.0, 0.6) * 1.05).clamp(0.0, 1.0);
            let g = (sigmoid(t, 10.0, 0.7) * 1.1 - 0.05).clamp(0.0, 1.0);
            let b = (sigmoid(t, 11.0, 0.7) * 1.6 - 0.55).clamp(0.0, 1.0);
            [(r * 255.0) as u8, (g * 255.0) as u8, (b * 255.0) as u8]
        }
        Colormap::Viridis => {
            let scaled = t * 7.0;
            let lo = (scaled.floor() as usize).min(6);
            let frac = scaled - lo as f32;
            let mix = |i: usize| STOPS[lo][i] + frac * (STOPS[lo + 1][i] - STOPS[lo][i]);
            [(mix(0) * 255.0) as u8, (mix(1) * 255.0) as u8, (mix(2) * 255.0) as u8]
        }
    }
}

#[test]
fn colours_match_the_hardware() {
    let data: Vec<f32> = (-20..=1220)
        .map(|i| i as f32 / 1000.0)
        .chain([f32::NAN, f32::INFINITY, f32::NEG_INFINITY, -0.0])
        .collect();
    let bits = fs(&data);
    for cmap in Colormap::all() {
        for (z_min, z_max) in [(0.0f32, 1.0f32), (0.25, 0.75), (-3.0, 17.0), (0.5, 0.5)] {
            let hot = exponentials(&bits, z_min, z_max);
            let got = to_rgba_bytes(&bits, cmap, f(z_min), f(z_max), &hot);
            let range = (z_max - z_min).max(f32::EPSILON);
            for (i, &v) in data.iter().enumerate() {
                let [r, g, b] = hardware_color(cmap, (v - z_min) / range);
                assert_eq!(got[4 * i..4 * i + 4], [r, g, b, 255], "{cmap:?} {v}");
            }
        }
    }
}

#[test]
fn colormaps_have_names() {
    let names: Vec<&str> = Colormap::all().iter().map(|c| c.name()).collect();
    assert_eq!(names, ["AFM Hot", "Gray", "Viridis"]);
    let dark = viridis(f(0.0));
    assert_eq!((dark.red, dark.green, dark.blue), (68, 1, 83));
}

// ---- the mesh ----

fn coords(v: Vec3) -> [f32; 3] {
    [g(v.x), g(v.y), g(v.z)]
}

fn mesh(w: usize, h: usize, cmap: Colormap, z: (f32, f32), exagg: f32) -> (Vec<Vertex>, Vec<u32>) {
    let data: Vec<Binary32> = (0..w * h).map(|i| f(i as f32)).collect();
    let hot = exponentials(&data, z.0, z.1);
    build_mesh(&data, w, h, f(1000.0), f(1000.0), cmap, f(z.0), f(z.1), &hot, f(exagg))
}

#[test]
fn mesh_has_expected_counts_and_finite_values() {
    let (verts, indices) = mesh(4, 3, Colormap::AfmHot, (0.0, 11.0), 1.0);
    assert_eq!(verts.len(), 4 * 3);
    assert_eq!(indices.len(), (4 - 1) * (3 - 1) * 6);
    assert!(indices.iter().all(|&i| (i as usize) < verts.len()));
    for v in &verts {
        assert!(coords(v.pos).iter().all(|c| c.is_finite()));
        assert!(coords(v.normal).iter().all(|c| c.is_finite()));
        assert!(coords(v.color).iter().all(|&c| (0.0..=1.0).contains(&c)));
    }
}

#[test]
fn mesh_is_empty_for_degenerate_size() {
    let (verts, indices) = mesh(1, 5, Colormap::Gray, (0.0, 1.0), 1.0);
    assert!(verts.is_empty());
    assert!(indices.is_empty());
}

#[test]
fn a_mesh_matches_the_hardware() {
    let (w, h, exagg) = (5usize, 4usize, 0.6f32);
    let data: Vec<f32> = (0..w * h).map(|i| ((i * 7919) % 31) as f32 * 0.37).collect();
    let bits = fs(&data);
    let (verts, indices) = build_mesh(
        &bits,
        w,
        h,
        f(800.0),
        f(400.0),
        Colormap::Viridis,
        f(1.0),
        f(9.0),
        &[],
        f(exagg),
    );
    // The sample is twice as wide as high.
    let (span_x, span_z) = (2.0f32, 2.0f32 * (400.0f32 / 800.0));
    let low = data.iter().cloned().fold(f32::INFINITY, f32::min);
    let high = data.iter().cloned().fold(f32::NEG_INFINITY, f32::max);
    let height = |r: usize, c: usize| ((data[r * w + c] - low) / (high - low) - 0.5) * exagg;
    let (dx, dz) = (span_x / (w - 1) as f32, span_z / (h - 1) as f32);
    for row in 0..h {
        for col in 0..w {
            let v = verts[row * w + col];
            let x = (col as f32 / (w - 1) as f32 - 0.5) * span_x;
            let z = (row as f32 / (h - 1) as f32 - 0.5) * span_z;
            assert_eq!(coords(v.pos), [x, height(row, col), z]);
            let slope_x = (height(row, (col + 1).min(w - 1))
                - height(row, col.saturating_sub(1)))
                / (2.0 * dx);
            let slope_z = (height((row + 1).min(h - 1), col)
                - height(row.saturating_sub(1), col))
                / (2.0 * dz);
            let normal = GlamVec3::new(-slope_x, 1.0, -slope_z).normalize_or_zero();
            let got = GlamVec3::from(coords(v.normal));
            assert!((got - normal).length() < 1e-6, "{got} {normal}");
            let [r, g, b] = hardware_color(Colormap::Viridis, (data[row * w + col] - 1.0) / 8.0);
            assert_eq!(
                coords(v.color),
                [r as f32 / 255.0, g as f32 / 255.0, b as f32 / 255.0]
            );
        }
    }
    assert_eq!(indices[..6], [0, 1, 6, 0, 6, 5]);
    assert_eq!(indices[indices.len() - 6..], [13, 14, 19, 13, 19, 18]);
}

#[test]
fn a_vector_without_a_direction_stays_zero() {
    let v = |x: f32, y: f32, z: f32| Vec3 { x: f(x), y: f(y), z: f(z) };
    assert_eq!(normalize_or_zero(v(0.0, 0.0, 0.0)), v(0.0, 0.0, 0.0));
    assert_eq!(normalize_or_zero(v(3e38, 3e38, 0.0)), v(0.0, 0.0, 0.0));
    assert_eq!(coords(normalize_or_zero(v(0.0, 4.0, 0.0))), [0.0, 1.0, 0.0]);
}

#[test]
fn the_longer_side_is_filled() {
    let fit = |w: f32, h: f32| {
        let (a, b) = fit_sides(f(w), f(h), f(100.0));
        (g(a), g(b))
    };
    assert_eq!(fit(500.0, 500.0), (100.0, 100.0));
    assert_eq!(fit(500.0, 250.0), (100.0, 50.0));
    assert_eq!(fit(250.0, 1000.0), (25.0, 100.0));
    assert_eq!(fit(0.0, 10.0), (100.0, 100.0));
}

// ---- the camera ----

fn rotation(cam: &OrbitalCamera) -> Quat {
    Quat::from_axis_angle(GlamVec3::Y, g(cam.yaw)) * Quat::from_axis_angle(GlamVec3::X, g(cam.pitch))
}

fn vec3(v: GlamVec3) -> Vec3 {
    Vec3 { x: f(v.x), y: f(v.y), z: f(v.z) }
}

fn eye(cam: &OrbitalCamera) -> GlamVec3 {
    GlamVec3::from(coords(cam.eye(vec3(rotation(cam) * GlamVec3::NEG_Z))))
}

#[test]
fn camera_eye_sits_at_radius_and_dolly_zooms() {
    let mut cam = OrbitalCamera::default();
    let r = g(cam.radius);
    assert!(((eye(&cam) - GlamVec3::from(coords(cam.center))).length() - r).abs() < 1e-4);
    cam.dolly(f(100.0)); // positive scroll → zoom in
    assert!(g(cam.radius) < r);
    assert_eq!(g(cam.radius), r * (1.0f32 - 100.0 * 0.0015));
    let m = glam::camera::rh::proj::opengl::perspective(g(cam.fov_y), 1.5, g(cam.near), g(cam.far))
        * Mat4::from_quat(rotation(&cam).inverse())
        * Mat4::from_translation(-eye(&cam));
    assert!(m.to_cols_array().iter().all(|c| c.is_finite()));
}

#[test]
fn camera_orbit_changes_orientation() {
    let mut cam = OrbitalCamera::default();
    let before = rotation(&cam);
    cam.orbit(f(50.0), f(0.0));
    assert!(rotation(&cam).angle_between(before) > 1e-3);
}

#[test]
fn camera_never_rolls() {
    // After arbitrary orbiting, the camera's right axis must stay horizontal
    // (zero world-Y component) — i.e. no roll about the view axis.
    let mut cam = OrbitalCamera::default();
    for _ in 0..50 {
        cam.orbit(f(37.0), f(-21.0));
    }
    let right = rotation(&cam) * GlamVec3::X;
    assert!(right.y.abs() < 1e-4, "right axis tilted: {}", right.y);
}

#[test]
fn the_camera_starts_at_a_birds_eye_view() {
    let cam = OrbitalCamera::default();
    assert_eq!(coords(cam.center), [0.0; 3]);
    assert_eq!(g(cam.yaw), -30f32.to_radians());
    assert_eq!(g(cam.pitch), -30f32.to_radians());
    assert_eq!(g(cam.radius), 3.5);
    assert_eq!(g(cam.fov_y), 45f32.to_radians());
    assert_eq!((g(cam.near), g(cam.far)), (0.01, 100.0));
}

#[test]
fn the_pitch_stays_short_of_the_poles() {
    let mut cam = OrbitalCamera::default();
    cam.orbit(f(10.0), f(10000.0));
    assert_eq!(g(cam.pitch), -89f32.to_radians());
    assert_eq!(g(cam.yaw), -30f32.to_radians() - 10.0 * 0.01);
    cam.orbit(f(0.0), f(-10000.0));
    assert_eq!(g(cam.pitch), 89f32.to_radians());
}

#[test]
fn the_radius_stays_in_its_range() {
    let mut cam = OrbitalCamera::default();
    for _ in 0..100 {
        cam.dolly(f(10000.0));
    }
    assert_eq!(g(cam.radius), 0.1);
    for _ in 0..100 {
        cam.dolly(f(-10000.0));
    }
    assert_eq!(g(cam.radius), 50.0);
    assert_eq!(g(confine(f(0.5), f(1.0), f(2.0))), 1.0);
}

#[test]
fn panning_slides_along_the_screen() {
    let mut cam = OrbitalCamera::default();
    let unit = |x: f32, y: f32| Vec3 { x: f(x), y: f(y), z: f(0.0) };
    cam.pan(f(10.0), f(20.0), unit(1.0, 0.0), unit(0.0, 1.0));
    let scale = 3.5f32 * 0.0018;
    assert_eq!(coords(cam.center), [-10.0 * scale, 20.0 * scale, 0.0]);
}

#[test]
fn a_mesh_stays_within_its_bounds() {
    let data: Vec<Binary32> = (0..35).map(|i| f(((i * 37) % 101) as f32 * 0.3 - 7.0)).collect();
    for cmap in Colormap::all() {
        let hot = exponentials(&data, -2.0, 9.0);
        let (verts, _) =
            build_mesh(&data, 7, 5, f(800.0), f(300.0), cmap, f(-2.0), f(9.0), &hot, f(0.7));
        for v in verts {
            let ([x, y, z], c) = (coords(v.pos), coords(v.color));
            assert!(x.abs() <= 1.0 && z.abs() <= 1.0 && y.abs() <= 0.35);
            assert!(c.iter().all(|s| (0.0..=1.0).contains(s)));
            assert!(coords(v.normal).iter().all(|n| n.is_finite()));
        }
    }
}

#[test]
fn a_mesh_turned_over_stays_within_its_bounds() {
    let data: Vec<Binary32> = (0..35).map(|i| f(((i * 37) % 101) as f32 * 0.3 - 7.0)).collect();
    let cmap = Colormap::Gray;
    let (verts, _) =
        build_mesh(&data, 7, 5, f(800.0), f(300.0), cmap, f(-2.0), f(9.0), &[], f(-0.7));
    assert!(verts.iter().all(|v| coords(v.pos)[1].abs() <= 0.35));
    assert!(verts.iter().any(|v| coords(v.pos)[1] == 0.35));
}
