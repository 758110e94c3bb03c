//! Background, profiles, scale bars, filters and exports.

use kintuba::binary::{Binary32, Binary64};
use kintuba::canvas::{blend_pixel, label_size, text_width, Canvas};
use kintuba::colormap::{hot_exponents_of, to_rgba_bytes, Colormap, HotExps};
use kintuba::filter::{
    axis_exponents, custom_kernel_filter_2d, gaussian_filter_2d, parse_kernel,
};
use kintuba::plot::{csv_text, draw_line, profile_plot};
use kintuba::poly::{eval_polynomial, fit_polynomial, flatten_polynomial, solve_linear_system};
use kintuba::profile::{interp_height, sample_line, Point};
use kintuba::rolling::{build_ball, enlarge, extremes, rolling_ball_subtract, shrink_min};
use kintuba::scalebar::{afm_image, bar_label, draw_scale_bar, image_from_bottom_up, nice_scale};
use kintuba::smooth::{apply_gaussian_filter, kernel_exponents};

fn f(v: f32) -> Binary32 {
    Binary32 { bits: v.to_bits() }
}

fn d(v: f64) -> Binary64 {
    Binary64 { bits: v.to_bits() }
}

fn fs(v: &[f32]) -> Vec<Binary32> {
    v.iter().map(|&x| f(x)).collect()
}

fn g(v: Binary32) -> f32 {
    f32::from_bits(v.bits)
}

fn gs(v: &[Binary32]) -> Vec<f32> {
    v.iter().map(|&x| g(x)).collect()
}

/// A stream of numbers between 0 and 1.
struct Stream(u64);

impl Stream {
    fn draw(&mut self) -> f32 {
        self.0 ^= self.0 << 13;
        self.0 ^= self.0 >> 7;
        self.0 ^= self.0 << 17;
        (self.0 >> 40) as f32 / (1u64 << 24) as f32
    }
}

fn noise(n: usize, seed: u64) -> Vec<f32> {
    let mut s = Stream(seed);
    (0..n).map(|_| s.draw() * 20.0 - 7.0).collect()
}

fn assert_same(got: &[Binary32], want: &[f32]) {
    assert_eq!(got.len(), want.len());
    for (i, (a, b)) in got.iter().zip(want).enumerate() {
        assert_eq!(a.bits, b.to_bits(), "number {i}: {} and {b}", g(*a));
    }
}

// ---- rolling ball ----

#[test]
fn rolling_ball_noop_for_zero_radius() {
    let data = vec![1.0, 2.0, 3.0, 4.0];
    assert_eq!(gs(&rolling_ball_subtract(&fs(&data), 2, 2, 0)), data);
}

#[test]
fn rolling_ball_flattens_constant() {
    let (w, h) = (32, 32);
    let data = vec![5.0f32; w * h];
    let out = gs(&rolling_ball_subtract(&fs(&data), w, h, 8));
    assert!(out.iter().all(|&v| v.abs() < 1e-3));
}

#[test]
fn rolling_ball_keeps_narrow_feature_removes_background() {
    let (w, h) = (40, 40);
    let mut data = vec![0.0f32; w * h];
    for y in 19..21 {
        for x in 19..21 {
            data[y * w + x] = 10.0; // tiny bump, much smaller than the ball
        }
    }
    let out = gs(&rolling_ball_subtract(&fs(&data), w, h, 10));
    assert!(out[20 * w + 20] > 5.0, "feature preserved: {}", out[20 * w + 20]);
    assert!(out[0].abs() < 1.0, "background removed: {}", out[0]);
    assert!(out.iter().all(|&v| v.is_finite() && v >= -1e-3));
}

#[test]
fn rolling_ball_leaves_a_short_grid_alone() {
    let data = fs(&[1.0, 2.0, 3.0]);
    assert_eq!(rolling_ball_subtract(&data, 2, 2, 3), data);
    assert_eq!(rolling_ball_subtract(&data, 0, 2, 3), data);
    assert_eq!(rolling_ball_subtract(&data, usize::MAX, 2, 3), data);
}

#[test]
fn a_ball_is_a_sphere() {
    let ball = build_ball(2);
    assert_eq!(ball.len(), 13);
    assert!(ball.contains(&(0, 0, f(2.0))));
    assert!(ball.contains(&(-2, 0, f(0.0))));
    assert!(ball.contains(&(1, 1, f(2.0f32.sqrt()))));
    assert!(!ball.iter().any(|&(x, y, _)| x == 2 && y == 1));
}

#[test]
fn shrinking_keeps_the_least_of_each_block() {
    let data = fs(&[9.0, 1.0, 5.0, 3.0, 4.0, 6.0]);
    let (sw, sh, small) = shrink_min(&data, 3, 2, 2);
    assert_eq!((sw, sh), (2, 1));
    assert_eq!(gs(&small), [1.0, 5.0]);
}

#[test]
fn enlarging_is_linear() {
    let out = enlarge(&fs(&[0.0, 4.0]), 2, 1, 5, 1);
    assert_eq!(gs(&out), [0.0, 1.0, 2.0, 3.0, 4.0]);
}

/// The background subtraction in hardware numbers.
fn hardware_rolling_ball(data: &[f32], w: usize, h: usize, radius: usize) -> Vec<f32> {
    let min = data.iter().cloned().fold(f32::INFINITY, f32::min);
    let max = data.iter().cloned().fold(f32::NEG_INFINITY, f32::max);
    let range = (max - min).max(f32::EPSILON);
    let norm: Vec<f32> = data.iter().map(|&v| (v - min) / range * 100.0).collect();
    let k = match radius {
        0..=10 => 1,
        11..=30 => 2,
        31..=100 => 4,
        _ => 8,
    };
    let (sw, sh) = (w.div_ceil(k), h.div_ceil(k));
    let mut small = vec![f32::INFINITY; sw * sh];
    for y in 0..h {
        for x in 0..w {
            let o = (y / k) * sw + x / k;
            small[o] = small[o].min(norm[y * w + x]);
        }
    }
    let r = (radius / k).max(1) as i32;
    let morph = |g: &[f32], dilate: bool| -> Vec<f32> {
        let mut out = Vec::new();
        for y in 0..sh as i32 {
            for x in 0..sw as i32 {
                let mut acc = if dilate { f32::NEG_INFINITY } else { f32::INFINITY };
                for dj in -r..=r {
                    for di in -r..=r {
                        let d2 = (di * di + dj * dj) as f32;
                        if d2 > (r * r) as f32 {
                            continue;
                        }
                        let bh = ((r * r) as f32 - d2).sqrt();
                        let xx = (x + di).clamp(0, sw as i32 - 1) as usize;
                        let yy = (y + dj).clamp(0, sh as i32 - 1) as usize;
                        let s = g[yy * sw + xx];
                        acc = if dilate { acc.max(s + bh) } else { acc.min(s - bh) };
                    }
                }
                out.push(acc);
            }
        }
        out
    };
    let opened = morph(&morph(&small, false), true);
    let bg: Vec<f32> = if (sw, sh) == (w, h) {
        opened
    } else {
        let sx = if w > 1 { (sw - 1) as f32 / (w - 1) as f32 } else { 0.0 };
        let sy = if h > 1 { (sh - 1) as f32 / (h - 1) as f32 } else { 0.0 };
        let mut out = Vec::new();
        for y in 0..h {
            let gy = y as f32 * sy;
            let y0 = gy.floor() as usize;
            let y1 = (y0 + 1).min(sh - 1);
            let ty = gy - y0 as f32;
            for x in 0..w {
                let gx = x as f32 * sx;
                let x0 = gx.floor() as usize;
                let x1 = (x0 + 1).min(sw - 1);
                let tx = gx - x0 as f32;
                let at = |y: usize, x: usize| opened[y * sw + x];
                let top = at(y0, x0) + (at(y0, x1) - at(y0, x0)) * tx;
                let bot = at(y1, x0) + (at(y1, x1) - at(y1, x0)) * tx;
                out.push(top + (bot - top) * ty);
            }
        }
        out
    };
    (0..w * h).map(|i| data[i] - (bg[i] / 100.0 * range + min).min(data[i])).collect()
}

#[test]
fn rolling_ball_matches_the_hardware() {
    for (w, h, radius) in [(13, 9, 4), (17, 12, 11), (40, 23, 35), (21, 30, 120), (5, 1, 2)] {
        let data = noise(w * h, 77 + radius as u64);
        assert_same(
            &rolling_ball_subtract(&fs(&data), w, h, radius),
            &hardware_rolling_ball(&data, w, h, radius),
        );
    }
}

// ---- scale bars ----

#[test]
fn nice_scale_snaps_to_1_2_5() {
    assert_eq!(g(nice_scale(f(190.0))), 200.0);
    assert_eq!(g(nice_scale(f(0.9))), 1.0);
    assert_eq!(g(nice_scale(f(3.0))), 2.0);
    assert_eq!(g(nice_scale(f(800.0))), 1000.0);
    assert_eq!(g(nice_scale(f(3000.0))), 2000.0);
}

#[test]
fn nice_scale_covers_every_hint() {
    assert_eq!(g(nice_scale(f(-5.0))), 1.0);
    assert_eq!(g(nice_scale(f(1e9))), 100000.0);
    // So far off that every length misses by as much as can be counted.
    assert_eq!(g(nice_scale(f(f32::INFINITY))), 1.0);
    assert_eq!(g(nice_scale(f(f32::NAN))), 1.0);
    let nice = [
        1.0f32, 2.0, 5.0, 10.0, 20.0, 50.0, 100.0, 200.0, 500.0, 1000.0, 2000.0, 5000.0, 10000.0,
        20000.0, 50000.0, 100000.0,
    ];
    let mut s = Stream(5);
    for i in 0..2000 {
        let hint = s.draw() * 10f32.powi(i % 6);
        let want = nice
            .iter()
            .copied()
            .min_by_key(|&v| ((v - hint).abs() * 1000.0) as i64)
            .unwrap();
        assert_eq!(g(nice_scale(f(hint))), want, "{hint}");
    }
}

#[test]
fn scale_bar_has_expected_width() {
    let (w, h) = (200u32, 200u32);
    let mut img = Canvas::from_pixel(w, h, (0, 0, 0, 255));
    let scan = 1000.0_f32; // bar_nm = nice_scale(200) = 200 → 40 px
    draw_scale_bar(&mut img, f(scan), None);

    let expected = ((200.0 / scan) * w as f32).round() as u32; // 40
    // Longest solid-white horizontal run = the bar (wider than any glyph).
    let mut best = 0u32;
    for y in 0..h {
        let mut run = 0u32;
        for x in 0..w {
            if img.pixel(x, y) == (255, 255, 255, 255) {
                run += 1;
                best = best.max(run);
            } else {
                run = 0;
            }
        }
    }
    assert!(
        (best as i32 - expected as i32).abs() <= 2,
        "bar width {best}, expected {expected}"
    );
}

#[test]
fn scale_bar_is_noop_on_tiny_image() {
    let mut img = Canvas::from_pixel(8, 8, (10, 20, 30, 255));
    draw_scale_bar(&mut img, f(1000.0), None);
    for y in 0..8 {
        for x in 0..8 {
            assert_eq!(img.pixel(x, y), (10, 20, 30, 255));
        }
    }
}

#[test]
fn scale_bar_needs_an_extent() {
    let mut img = Canvas::from_pixel(40, 40, (10, 20, 30, 255));
    assert_eq!(draw_scale_bar(&mut img, f(0.0), None), None);
    assert_eq!(img.pixel(10, 30), (10, 20, 30, 255));
    assert!(bar_label(40, 40, f(-1.0)).is_none());
    assert!(bar_label(15, 40, f(100.0)).is_none());
}

#[test]
fn scale_bar_label_and_panel() {
    let label = bar_label(200, 200, f(1000.0)).unwrap();
    assert_eq!(label.text, "200 nm");
    assert_eq!(g(label.px), 200.0f32 * 0.06);
    let label = bar_label(20, 20, f(1000.0)).unwrap();
    assert_eq!(g(label.px), 11.0);

    // Without a font the label is drawn in the built-in glyphs.
    let mut img = Canvas::from_pixel(200, 200, (100, 200, 40, 255));
    assert_eq!(draw_scale_bar(&mut img, f(1000.0), None), None);
    // unit 2, bar at (8, 189), 3 high; text 14 high above a gap of 2.
    assert_eq!(img.pixel(8, 189), (255, 255, 255, 255));
    assert_eq!(img.pixel(47, 191), (255, 255, 255, 255));
    assert_eq!(img.pixel(48, 191), (55, 110, 22, 255));
    assert_eq!(img.pixel(8, 188), (55, 110, 22, 255));
    // The first glyph, a two: its top row has pixels 1 to 3.
    assert_eq!(img.pixel(8, 173), (55, 110, 22, 255));
    assert_eq!(img.pixel(10, 173), (255, 255, 255, 255));
    assert_eq!(img.pixel(15, 174), (255, 255, 255, 255));
    assert_eq!(img.pixel(16, 173), (55, 110, 22, 255));
    // Outside the panel nothing changes.
    assert_eq!(img.pixel(5, 189), (100, 200, 40, 255));
    assert_eq!(img.pixel(100, 100), (100, 200, 40, 255));

    // With a font the place of the label is handed back.
    let mut img = Canvas::from_pixel(200, 200, (100, 200, 40, 255));
    assert_eq!(draw_scale_bar(&mut img, f(1000.0), Some((50, 12))), Some((8, 175)));
    assert_eq!(img.pixel(10, 180), (55, 110, 22, 255));
}

#[test]
fn a_text_has_six_columns_for_each_character() {
    assert_eq!(text_width("200 nm", 3), 108);
}

#[test]
fn an_image_needs_as_many_heights_as_samples() {
    let data = fs(&[0.0, 1.0, 2.0, 3.0]);
    let ok = afm_image(&data, 2, 2, Colormap::Gray, f(0.0), f(3.0), &[]).ok().unwrap();
    assert_eq!((ok.width(), ok.height()), (2, 2));
    assert_eq!(ok.pixel(1, 0), (85, 85, 85, 255));
    assert_eq!(ok.pixel(0, 1), (170, 170, 170, 255));
    let bad = afm_image(&data, 3, 2, Colormap::Gray, f(0.0), f(3.0), &[]);
    assert_eq!(bad.err().unwrap(), "Failed to create image buffer");
}

#[test]
fn rows_that_come_bottom_up_are_turned_over() {
    let bytes: Vec<u8> = (0..24).collect();
    let img = image_from_bottom_up(2, 3, bytes).ok().unwrap();
    assert_eq!(img.pixel(0, 0), (16, 17, 18, 19));
    assert_eq!(img.pixel(1, 2), (4, 5, 6, 7));
    assert_eq!(
        image_from_bottom_up(2, 3, vec![0; 23]).err().unwrap(),
        "Failed to build image buffer"
    );
}

#[test]
fn turning_over_twice_changes_nothing() {
    let bytes: Vec<u8> = (0..36).collect();
    let mut img = Canvas::from_bytes(3, 3, bytes.clone()).unwrap();
    img.flip_vertical();
    assert_eq!(img.pixel(0, 0), (24, 25, 26, 27));
    img.flip_vertical();
    assert_eq!(img.into_bytes(), bytes);
    assert!(Canvas::from_bytes(3, 3, vec![0; 35]).is_none());
}

// ---- profiles ----

#[test]
fn a_profile_runs_along_the_line() {
    let data = fs(&[0.0, 1.0, 2.0, 3.0, 4.0, 5.0, 6.0, 7.0]);
    let (p0, p1) = (Point { x: f(0.0), y: f(0.0) }, Point { x: f(0.75), y: f(0.0) });
    let p = sample_line(&data, 2, 4, f(400.0), f(100.0), p0, p1);
    let want = [(0.0, 0.0), (150.0, 2.0), (300.0, 3.0)];
    assert_eq!(p.iter().map(|&(a, b)| (g(a), g(b))).collect::<Vec<_>>(), want);
}

#[test]
fn a_profile_measures_each_axis_by_its_own_extent() {
    let data = fs(&[0.0; 16]);
    let (p0, p1) = (Point { x: f(0.0), y: f(0.0) }, Point { x: f(0.75), y: f(0.5) });
    let p = sample_line(&data, 4, 4, f(400.0), f(800.0), p0, p1);
    // 300 nm across and 400 nm down.
    assert_eq!(g(p.last().unwrap().0), 500.0);
}

#[test]
fn a_profile_leaves_out_what_is_not_on_the_image() {
    let data = fs(&[5.0; 4]);
    let (p0, p1) = (Point { x: f(0.0), y: f(0.0) }, Point { x: f(1.0), y: f(0.0) });
    let p = sample_line(&data, 2, 2, f(10.0), f(10.0), p0, p1);
    // Two samples; the second lands on column 2.
    assert_eq!(p.len(), 1);
    assert_eq!(g(p[0].0), 0.0);
}

#[test]
fn a_height_is_interpolated() {
    let p = [(f(0.0), f(1.0)), (f(10.0), f(3.0)), (f(10.0), f(8.0)), (f(20.0), f(4.0))];
    let at = |x: f64| f64::from_bits(interp_height(&p, d(x)).bits);
    assert_eq!(at(-5.0), 1.0);
    assert_eq!(at(0.0), 1.0);
    assert_eq!(at(5.0), 2.0);
    assert_eq!(at(10.0), 3.0);
    assert_eq!(at(15.0), 6.0);
    assert_eq!(at(25.0), 4.0);
    assert_eq!(f64::from_bits(interp_height(&[], d(1.0)).bits), 0.0);
}

#[test]
fn a_profile_is_written_as_csv() {
    let text = csv_text(&[(f(0.0), f(1.5)), (f(10.25), f(-0.1234567))]);
    assert_eq!(text, "distance_nm,height_nm\n0.0000,1.500000\n10.2500,-0.123457\n");
    assert_eq!(csv_text(&[]), "distance_nm,height_nm\n");
}

#[test]
fn a_profile_is_plotted() {
    let img = profile_plot(&[(f(0.0), f(0.0)), (f(10.0), f(5.0))]).ok().unwrap();
    assert_eq!((img.width(), img.height()), (800, 400));
    let (white, black, blue) =
        ((255, 255, 255, 255), (0, 0, 0, 255), (0, 100, 200, 255));
    assert_eq!(img.pixel(0, 0), white);
    assert_eq!(img.pixel(749, 350), black);
    assert_eq!(img.pixel(751, 350), white);
    assert_eq!(img.pixel(50, 60), black);
    assert_eq!(img.pixel(50, 350), blue);
    assert_eq!(img.pixel(750, 50), blue);
    assert_eq!(img.pixel(400, 200), blue);
    assert_eq!(profile_plot(&[]).err().unwrap(), "Profile is empty");
}

#[test]
fn a_line_is_drawn_within_the_image() {
    let (white, red) = ((255, 255, 255, 255), (200, 0, 0, 255));
    let mut img = Canvas::from_pixel(5, 5, white);
    draw_line(&mut img, -2, 1, 3, 1, red);
    draw_line(&mut img, 4, 4, 4, 4, red);
    for x in 0..5 {
        assert_eq!(img.pixel(x, 1), if x <= 3 { red } else { white });
        assert_eq!(img.pixel(x, 4), if x == 4 { red } else { white });
        assert_eq!(img.pixel(x, 0), white);
    }
}

// ---- flattening ----

#[test]
fn a_line_is_fitted() {
    let (x, y) = (fs(&[0.0, 1.0, 2.0, 3.0]), fs(&[1.0, 3.0, 5.0, 7.0]));
    assert_eq!(gs(&fit_polynomial(&x, &y, 1).unwrap()), [1.0, 2.0]);
    assert_eq!(g(eval_polynomial(&fs(&[1.0, 2.0, 3.0]), f(2.0))), 17.0);
    assert_eq!(fit_polynomial(&x, &y, 4).unwrap_err(), "Order must be 0-3");
    assert_eq!(fit_polynomial(&x, &[], 1).unwrap_err(), "Mismatched or empty x/y arrays");
}

#[test]
fn flattening_removes_a_slope() {
    let rows = vec![fs(&[0.0, 2.0, 4.0, 6.0]), fs(&[9.0, 8.0, 7.0, 6.0])];
    let flat = gs(&flatten_polynomial(&rows, 1).unwrap());
    assert!(flat.iter().all(|v| v.abs() < 1e-5), "{flat:?}");
    let order0 = gs(&flatten_polynomial(&rows, 0).unwrap());
    assert_eq!(order0, [-3.0, -1.0, 1.0, 3.0, 1.5, 0.5, -0.5, -1.5]);
}

#[test]
fn flattening_that_cannot_be_done() {
    let rows = vec![fs(&[1.0, 2.0])];
    assert_eq!(flatten_polynomial(&rows, 4).unwrap_err(), "Polynomial order must be 0-3");
    assert_eq!(flatten_polynomial(&Vec::new(), 1).unwrap_err(), "Empty image");
    assert_eq!(
        flatten_polynomial(&vec![fs(&[1.0, 2.0]), fs(&[1.0])], 0).unwrap_err(),
        "Inconsistent line length"
    );
    assert_eq!(
        flatten_polynomial(&vec![fs(&[1.0])], 2).unwrap_err(),
        "Polynomial fitting failed: Singular matrix while fitting polynomial"
    );
    assert_eq!(
        flatten_polynomial(&vec![Vec::new()], 2).unwrap_err(),
        "Polynomial fitting failed: Mismatched or empty x/y arrays"
    );
}

#[test]
fn a_linear_system_is_solved() {
    let a = vec![vec![d(0.0), d(2.0)], vec![d(1.0), d(1.0)]];
    let x = solve_linear_system(a, vec![d(4.0), d(5.0)]).unwrap();
    assert_eq!(x, vec![d(3.0), d(2.0)]);
    let a = vec![vec![d(1.0), d(2.0)], vec![d(2.0), d(4.0)]];
    assert_eq!(
        solve_linear_system(a, vec![d(1.0), d(2.0)]).unwrap_err(),
        "Singular matrix while fitting polynomial"
    );
    let a = vec![vec![d(1.0), d(2.0)]];
    assert_eq!(
        solve_linear_system(a, vec![d(1.0), d(2.0)]).unwrap_err(),
        "Linear solver received invalid matrix dimensions"
    );
}

/// The least-squares fit of a row in hardware numbers.
fn hardware_fit(x: &[f32], y: &[f32], order: usize) -> Vec<f32> {
    let m = order + 1;
    let mut a = vec![vec![0.0f64; m]; m];
    let mut b = vec![0.0f64; m];
    for (&xv, &yv) in x.iter().zip(y) {
        let mut powers = vec![1.0f64; 2 * m];
        for p in 1..2 * m {
            powers[p] = powers[p - 1] * xv as f64;
        }
        for row in 0..m {
            b[row] += yv as f64 * powers[row];
            for col in 0..m {
                a[row][col] += powers[row + col];
            }
        }
    }
    for k in 0..m {
        let mut pivot = k;
        for r in k + 1..m {
            if a[r][k].abs() > a[pivot][k].abs() {
                pivot = r;
            }
        }
        a.swap(k, pivot);
        b.swap(k, pivot);
        let p = a[k][k];
        for j in k..m {
            a[k][j] /= p;
        }
        b[k] /= p;
        for i in k + 1..m {
            let factor = a[i][k];
            if factor.abs() < 1e-12 {
                continue;
            }
            for j in k..m {
                a[i][j] -= factor * a[k][j];
            }
            b[i] -= factor * b[k];
        }
    }
    let mut out = vec![0.0f64; m];
    for i in (0..m).rev() {
        let mut sum = b[i];
        for j in i + 1..m {
            sum -= a[i][j] * out[j];
        }
        out[i] = sum;
    }
    out.iter().map(|&v| v as f32).collect()
}

#[test]
fn flattening_matches_the_hardware() {
    for order in 0..=3usize {
        let n = 11;
        let rows: Vec<Vec<f32>> = (0..4).map(|r| noise(n, 1000 + r + order as u64)).collect();
        let got = flatten_polynomial(&rows.iter().map(|r| fs(r)).collect(), order as u32).unwrap();
        let x: Vec<f32> = (0..n).map(|i| i as f32 / (n - 1) as f32).collect();
        let mut want = Vec::new();
        for row in &rows {
            let c = hardware_fit(&x, row, order);
            for (&xv, &yv) in x.iter().zip(row) {
                let (mut fit, mut power) = (0.0f32, 1.0f32);
                for &k in &c {
                    fit += k * power;
                    power *= xv;
                }
                want.push(yv - fit);
            }
        }
        assert_same(&got, &want);
    }
}

// ---- smoothing ----

fn exp_all(v: &[Binary32]) -> Vec<Binary32> {
    v.iter().map(|&x| f(g(x).exp())).collect()
}

#[test]
fn smoothing_matches_the_hardware() {
    for (w, h, sigma) in [(9, 7, 1.3f32), (6, 4, 0.4), (3, 8, 2.5)] {
        let data = noise(w * h, 31 + w as u64);
        let exps = exp_all(&kernel_exponents(f(sigma)));
        let got = apply_gaussian_filter(&fs(&data), w, h, f(sigma), &exps);

        let radius = (3.0 * sigma).ceil() as usize;
        let kernel: Vec<f32> = (0..=2 * radius)
            .map(|i| {
                let x = i as f32 - radius as f32;
                (-x * x / (2.0 * sigma * sigma)).exp()
            })
            .collect();
        let sum: f32 = kernel.iter().sum();
        let kernel: Vec<f32> = kernel.iter().map(|&k| k / sum).collect();
        let mut across = vec![0.0f32; w * h];
        let mut both = vec![0.0f32; w * h];
        for r in 0..h {
            for c in 0..w {
                for (k, &kv) in kernel.iter().enumerate() {
                    let cc = (c + k).saturating_sub(radius).min(w - 1);
                    across[r * w + c] += data[r * w + cc] * kv;
                }
            }
        }
        for r in 0..h {
            for c in 0..w {
                for (k, &kv) in kernel.iter().enumerate() {
                    let rr = (r + k).saturating_sub(radius).min(h - 1);
                    both[r * w + c] += across[rr * w + c] * kv;
                }
            }
        }
        assert_same(&got, &both);
    }
    let data = fs(&[1.0, 2.0]);
    assert_eq!(apply_gaussian_filter(&data, 2, 1, f(0.0), &[]), data);
}

#[test]
fn a_gaussian_filter_matches_the_hardware() {
    let none: Vec<Vec<Binary32>> = Vec::new();
    for (w, h, sigma) in [(9usize, 7usize, 1.3f32), (5, 6, 0.4)] {
        let data = noise(w * h, 91 + w as u64);
        let weigh = |len: usize| -> Vec<Vec<Binary32>> {
            axis_exponents(len, f(sigma)).iter().map(|row| exp_all(row)).collect()
        };
        let got = gaussian_filter_2d(&fs(&data), w, h, f(sigma), &weigh(w), &weigh(h));

        let radius = (3.0 * sigma).ceil() as usize;
        let pass = |src: &[f32], down: bool| -> Vec<f32> {
            let mut out = vec![0.0f32; w * h];
            for row in 0..h {
                for col in 0..w {
                    let (at, len) = if down { (row, h) } else { (col, w) };
                    let (mut sum, mut total) = (0.0f32, 0.0f32);
                    for k in at.saturating_sub(radius)..(at + radius + 1).min(len) {
                        let x = (at as f32 - k as f32) / sigma;
                        let weight = (-0.5 * x * x).exp();
                        let v = if down { src[k * w + col] } else { src[row * w + k] };
                        sum += v * weight;
                        total += weight;
                    }
                    out[row * w + col] = sum / total;
                }
            }
            out
        };
        assert_same(&got, &pass(&pass(&data, false), true));
    }
    let data = fs(&[1.0, 2.0]);
    assert_eq!(gaussian_filter_2d(&data, 2, 1, f(0.0), &none, &none), data);
}

#[test]
fn a_kernel_is_read_between_commas() {
    assert_eq!(gs(&parse_kernel("1, 2 ,1")), [1.0, 2.0, 1.0]);
    assert_eq!(gs(&parse_kernel("1,x,,-0.5e1")), [1.0, -5.0]);
    assert!(parse_kernel("").is_empty());
}

#[test]
fn a_kernel_is_applied_along_both_axes() {
    let data = [0.0f32, 0.0, 0.0, 0.0, 16.0, 0.0, 0.0, 0.0, 0.0];
    let out = custom_kernel_filter_2d(&fs(&data), 3, 3, &fs(&[1.0, 2.0, 1.0]));
    // At an edge the kernel is divided by the part of it that is on the image.
    let third = 16.0f32 / 3.0;
    let want_edge = 16.0f32 * 2.0 / 4.0;
    assert_eq!(g(out[4]), want_edge * 2.0 / 4.0);
    assert_eq!(g(out[3]), third * 2.0 / 4.0);
    let same = custom_kernel_filter_2d(&fs(&data), 3, 3, &[]);
    assert_eq!(gs(&same), data);
    // Where the weights cancel out the heights stay.
    let zero = custom_kernel_filter_2d(&fs(&data), 3, 3, &fs(&[0.0]));
    assert_eq!(gs(&zero), data);
}

// ---- the hot map in an export ----

#[test]
fn an_export_in_the_hot_map() {
    let data = fs(&[0.0, 1.0]);
    let hot: Vec<HotExps> = hot_exponents_of(&data, f(0.0), f(1.0))
        .iter()
        .map(|e| HotExps {
            red: f(g(e.red).exp()),
            green: f(g(e.green).exp()),
            blue: f(g(e.blue).exp()),
        })
        .collect();
    let img = afm_image(&data, 1, 2, Colormap::AfmHot, f(0.0), f(1.0), &hot).ok().unwrap();
    let sigmoid = |t: f32, s: f32, z: f32| 1.0 / (1.0 + (-s * (t - z)).exp());
    let t: f32 = 1.0 * 0.8 + 0.2;
    let red = (sigmoid(t, 7.0, 0.6) * 1.05).clamp(0.0, 1.0);
    assert_eq!(img.pixel(1, 0).0, (red * 255.0) as u8);
    assert_eq!(img.pixel(0, 0).2, 0);
}

// ---- labels in a font ----

#[test]
fn a_label_is_as_wide_as_its_glyphs() {
    assert_eq!(label_size(&fs(&[5.25, 6.5, 3.0]), f(11.2)), (15, 12));
    assert_eq!(label_size(&[], f(11.0)), (0, 11));
}

#[test]
fn glyphs_are_blended_over_the_image() {
    let mut img = Canvas::from_pixel(4, 3, (100, 0, 255, 200));
    blend_pixel(&mut img, 1, 2, f(0.5));
    assert_eq!(img.pixel(1, 2), (177, 127, 255, 200));
    blend_pixel(&mut img, 0, 0, f(7.0));
    assert_eq!(img.pixel(0, 0), (255, 255, 255, 200));
    for (x, y) in [(-1, 0), (0, -1), (4, 0), (0, 3)] {
        blend_pixel(&mut img, x, y, f(1.0));
    }
    assert_eq!(img.pixel(3, 0), (100, 0, 255, 200));
    assert_eq!(img.pixel(0, 1), (100, 0, 255, 200));
}

#[test]
fn a_scale_bar_is_measured_along_the_width() {
    let longest = |h: u32| {
        let mut img = Canvas::from_pixel(240, h, (0, 0, 0, 255));
        draw_scale_bar(&mut img, f(1200.0), None);
        let mut best = 0;
        for y in 0..h {
            let mut run = 0;
            for x in 0..240 {
                run = if img.pixel(x, y) == (255, 255, 255, 255) { run + 1 } else { 0 };
                best = best.max(run);
            }
        }
        best
    };
    // 200 nm of 1200 nm on 240 pixels.
    assert_eq!(longest(240), 40);
    assert_eq!(longest(90), 40);
}

#[test]
fn rounding_leaves_no_trace_below_zero() {
    let out = gs(&rolling_ball_subtract(&fs(&[0.1, 2.6, 5.3]), 3, 1, 1));
    assert_eq!(out[0], 0.0);
    assert_eq!(out[1], 0.0);
}

#[test]
fn a_small_ball_leaves_nothing_negative() {
    let mut data = vec![2.0f32; 64];
    data[27] = 12.0;
    data[28] = 7.0;
    let out = gs(&rolling_ball_subtract(&fs(&data), 8, 8, 4));
    assert!(out.iter().all(|&v| v >= 0.0));
    assert_eq!(out[0], 0.0);
    assert!(out[27] > 5.0);
}

#[test]
fn a_large_ball_leaves_nothing_negative() {
    let step: Vec<f32> = (0..24).map(|x| if x < 12 { 0.0 } else { 100.0 }).collect();
    let out = gs(&rolling_ball_subtract(&fs(&step), 24, 1, 11));
    assert!(out.iter().all(|&v| v >= 0.0 && v.is_finite()));
    assert_eq!(out[11], 0.0);
    let out = gs(&rolling_ball_subtract(&fs(&[0.0, 0.0, 100.0, 100.0]), 4, 1, 11));
    assert_eq!((out[0], out[1]), (0.0, 0.0));
    assert!(out[2] > 99.0 && out[3] > 99.0);
}

#[test]
fn extremes_are_numbers_of_the_data() {
    let data = [3.0f32, -1.5, 8.25, 0.0];
    let (lo, hi) = extremes(&fs(&data));
    assert_eq!((g(lo), g(hi)), (-1.5, 8.25));
}

#[test]
fn a_factor_that_scales_exactly_keeps_the_look() {
    let data = [-3.0f32, 0.5, 2.25, 7.5, 9.0];
    for factor in [0.5f32, 4.0] {
        let scaled: Vec<f32> = data.iter().map(|v| v * factor).collect();
        let (lo, hi) = extremes(&fs(&data));
        let (lo2, hi2) = extremes(&fs(&scaled));
        assert_eq!((lo2, hi2), (f(g(lo) * factor), f(g(hi) * factor)));
        let hot = hot_exponents_of(&fs(&data), lo, hi);
        let hot2 = hot_exponents_of(&fs(&scaled), lo2, hi2);
        for cmap in Colormap::all() {
            assert_eq!(
                to_rgba_bytes(&fs(&scaled), cmap, lo2, hi2, &hot2),
                to_rgba_bytes(&fs(&data), cmap, lo, hi, &hot)
            );
        }
    }
}

#[test]
fn a_factor_that_rounds_can_change_a_level() {
    let data = fs(&[0.0, 0.5, 7.5]);
    let scaled: Vec<Binary32> = data.iter().map(|v| v.times(f(0.987))).collect();
    let gray = |d: &[Binary32]| to_rgba_bytes(d, Colormap::Gray, d[0], d[2], &[]);
    assert_eq!(gray(&data)[4], 17);
    assert_eq!(gray(&scaled)[4], 16);
}

#[test]
fn powers_of_two_keep_the_look_of_any_heights() {
    let data = noise(300, 4711);
    let (lo, hi) = extremes(&fs(&data));
    for factor in [0.125f32, 2.0, 1024.0] {
        let scaled: Vec<f32> = data.iter().map(|v| v * factor).collect();
        let (lo2, hi2) = (f(g(lo) * factor), f(g(hi) * factor));
        for cmap in [Colormap::Gray, Colormap::Viridis] {
            assert_eq!(
                to_rgba_bytes(&fs(&scaled), cmap, lo2, hi2, &[]),
                to_rgba_bytes(&fs(&data), cmap, lo, hi, &[])
            );
        }
        assert_eq!(
            hot_exponents_of(&fs(&scaled), lo2, hi2),
            hot_exponents_of(&fs(&data), lo, hi)
        );
    }
}

#[test]
fn a_length_is_snapped_to_the_nearest_in_nanometres() {
    let nice = [
        1.0f64, 2.0, 5.0, 10.0, 20.0, 50.0, 100.0, 200.0, 500.0, 1000.0, 2000.0, 5000.0, 10000.0,
        20000.0, 50000.0, 100000.0,
    ];
    for v in nice {
        assert_eq!(g(nice_scale(f(v as f32))) as f64, v);
    }
    let mut s = Stream(99);
    for _ in 0..1000 {
        let hint = s.draw() * 200000.0;
        let got = g(nice_scale(f(hint))) as f64;
        for v in nice {
            assert!((got - hint as f64).abs() <= (v - hint as f64).abs() + 0.01);
        }
    }
}

#[test]
fn the_distances_of_a_profile_run_from_zero_to_its_length() {
    let data = fs(&noise(64 * 48, 12));
    let (p0, p1) = (Point { x: f(0.1), y: f(0.9) }, Point { x: f(0.8), y: f(0.05) });
    let p = sample_line(&data, 48, 64, f(640.0), f(240.0), p0, p1);
    assert_eq!(g(p[0].0), 0.0);
    assert!(p.windows(2).all(|w| g(w[0].0) <= g(w[1].0)));
    let length = (0.7f32 * 640.0).hypot(0.85 * 240.0);
    assert!((g(p.last().unwrap().0) - length).abs() < 1e-2);
}

#[test]
fn what_a_ball_leaves_is_finite_and_within_the_range() {
    for (w, h, radius) in [(9, 7, 3), (30, 22, 15), (64, 33, 90), (50, 41, 300)] {
        let data: Vec<f32> = noise(w * h, radius as u64).iter().map(|v| v * 1e3 - 400.0).collect();
        let (lo, hi) = extremes(&fs(&data));
        let out = gs(&rolling_ball_subtract(&fs(&data), w, h, radius));
        assert_eq!(out.len(), w * h);
        assert!(out.iter().all(|&v| v >= 0.0 && v <= g(hi) - g(lo)));
    }
}

#[test]
fn powers_of_two_keep_heights_beyond_the_range_beyond_it() {
    // The last two heights are farther from the lower end than any number.
    let data = fs(&[1e38, 1.5e38, 2e38, -3e38, 2.6e38]);
    let (lo, hi) = (f(1e38), f(2e38));
    let look = |d: &[Binary32], lo: Binary32, hi: Binary32| {
        to_rgba_bytes(d, Colormap::Gray, lo, hi, &[])
    };
    let half: Vec<Binary32> = data.iter().map(|v| v.times(f(0.5))).collect();
    let want = look(&data, lo, hi);
    assert_eq!(look(&half, lo.times(f(0.5)), hi.times(f(0.5))), want);
    let reds: Vec<u8> = want.iter().step_by(4).copied().collect();
    assert_eq!(reds, [0, 127, 255, 0, 255]);
}

#[test]
fn no_factor_moves_a_level_by_more_than_one() {
    // Half of these heights are on the edge between two levels.
    let data: Vec<Binary32> = (0..511).map(|i| f(i as f32 * 0.5)).collect();
    let (lo, hi) = extremes(&data);
    let mut moved: usize = 0;
    for factor in [0.987f32, 1.023, 0.1, 3.7, 1e-6, 123456.7] {
        let z = f(factor);
        let scaled: Vec<Binary32> = data.iter().map(|v| v.times(z)).collect();
        for cmap in [Colormap::Gray, Colormap::Viridis] {
            let a = to_rgba_bytes(&data, cmap, lo, hi, &[]);
            let b = to_rgba_bytes(&scaled, cmap, lo.times(z), hi.times(z), &[]);
            assert!(a.iter().zip(&b).all(|(x, y)| x.abs_diff(*y) <= 1));
            moved += a.iter().zip(&b).filter(|(x, y)| x != y).count();
        }
        let a = hot_exponents_of(&data, lo, hi);
        let b = hot_exponents_of(&scaled, lo.times(z), hi.times(z));
        let limit = (220.0 + 410.0) / (1 << 24) as f32;
        for (x, y) in a.iter().zip(&b) {
            assert!((g(x.red) - g(y.red)).abs() <= limit);
            assert!((g(x.green) - g(y.green)).abs() <= limit);
            assert!((g(x.blue) - g(y.blue)).abs() <= limit);
        }
    }
    assert!(moved > 0);
}

#[test]
fn far_from_zero_a_factor_moves_levels_by_more_than_one() {
    let data = fs(&[1000000.0, 1000000.5, 1000001.0]);
    let scaled: Vec<Binary32> = data.iter().map(|v| v.times(f(0.7))).collect();
    let a = to_rgba_bytes(&data, Colormap::Gray, data[0], data[2], &[]);
    let b = to_rgba_bytes(&scaled, Colormap::Gray, scaled[0], scaled[2], &[]);
    assert_eq!((a[4], b[4]), (127, 115));
}

#[test]
fn scaling_after_processing_is_scaling_the_samples() {
    let (w, h) = (24, 17);
    let rows = |z: Binary32| -> Vec<Vec<Binary32>> {
        let samples = fs(&noise(w * h, 5));
        samples.chunks(w).map(|r| r.iter().map(|v| v.times(z)).collect()).collect()
    };
    let sigma = f(1.3);
    let exps: Vec<Binary32> =
        kernel_exponents(sigma).iter().map(|&e| f(g(e).exp())).collect();
    for order in 0..4 {
        let run = |z: f32| {
            let flat = match flatten_polynomial(&rows(f(z)), order) {
                Ok(flat) => flat,
                Err(e) => panic!("cannot be flattened: {e}"),
            };
            let smooth = apply_gaussian_filter(&flat, w, h, sigma, &exps);
            rolling_ball_subtract(&smooth, w, h, 12)
        };
        let plain = run(1.0);
        for z in [0.25f32, 2.0, 64.0] {
            let after: Vec<Binary32> = plain.iter().map(|v| v.times(f(z))).collect();
            assert_eq!(run(z), after);
        }
    }
}
