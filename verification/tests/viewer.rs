//! The state of the viewer.

use kintuba::binary::{Binary32, Binary64};
use kintuba::calibration::{Calibration, CalibrationTable};
use kintuba::colormap::Colormap;
use kintuba::controls::{
    aspect_note, calibration_note, camera_drag, display_size, export_problem, export_width,
    filter_label, flatten_label, image_side, screen_bar, view_aspect, CameraDrag, Panel, Readout,
    Report,
};
use kintuba::fields::FieldMap;
use kintuba::filter::axis_exponents;
use kintuba::pointer::{
    frac_to_screen, image_origin, screen_to_frac, Area, Click, Handle, LineTool, Markers, Viewport,
};
use kintuba::profile::Point;
use kintuba::spm::SpmImage;
use kintuba::viewer::{LoadRequest, ProfileFilter, Tab, Viewer};

fn f(v: f32) -> Binary32 {
    Binary32 { bits: v.to_bits() }
}

fn d(v: f64) -> Binary64 {
    Binary64 { bits: v.to_bits() }
}

fn g(v: Binary32) -> f32 {
    f32::from_bits(v.bits)
}

fn gs(v: &[Binary32]) -> Vec<f32> {
    v.iter().map(|&x| g(x)).collect()
}

fn at(x: f32, y: f32) -> Point {
    Point { x: f(x), y: f(y) }
}

fn square() -> Area {
    Area { center_x: f(100.0), center_y: f(100.0), width: f(200.0), height: f(200.0) }
}

fn far() -> Binary32 {
    f(1000.0)
}

fn image(heights: &[f32], cols: usize, channel: usize) -> SpmImage {
    SpmImage {
        data: heights.iter().map(|&v| f(v)).collect(),
        metadata: FieldMap::new(),
        scan_size_x_nm: f(1000.0),
        scan_size_y_nm: f(500.0),
        samps_per_line: cols,
        number_of_lines: heights.len() / cols,
        channel_name: "Height".to_string(),
        channel_idx: channel,
        available_channels: Vec::new(),
        instrument_id: Some("10396jvlr".to_string()),
        calibration: Calibration::unity(),
    }
}

fn loaded() -> Viewer {
    let mut v = Viewer::new();
    let request = v.begin_load(3, None);
    let table = CalibrationTable::default();
    v.finish_load(request, Ok(image(&[1.0, 2.0, 3.0, 4.0, 5.0, 6.0, 7.0, 8.0], 4, 2)), &table);
    v
}

// ---- loading ----

#[test]
fn the_viewer_starts_empty() {
    let v = Viewer::new();
    assert!(v.image.is_none() && v.selected.is_none() && v.load_error.is_none());
    assert_eq!(v.colormap, Colormap::AfmHot);
    assert_eq!(v.settings.flatten_order, Some(2));
    assert_eq!(g(v.settings.smooth_sigma), 0.0);
    assert!(!v.settings.rolling_ball);
    assert_eq!(v.settings.rolling_ball_radius, 30);
    assert_eq!((g(v.z.min), g(v.z.max)), (0.0, 1.0));
    assert!(v.show_scale_bar);
    assert_eq!(v.tab, Tab::View);
    assert_eq!(v.filter, ProfileFilter::Off);
    assert_eq!(v.kernel_text, "1,2,1");
    assert_eq!(gs(&v.kernel), [1.0, 2.0, 1.0]);
    assert_eq!(g(v.filter_sigma), 1.0);
    assert_eq!(g(v.z_exaggeration), 0.6);
}

#[test]
fn a_new_file_is_shown_in_its_own_channel_and_a_reload_keeps_it() {
    let mut v = loaded();
    assert_eq!(v.selected, Some(3));
    assert_eq!(v.channel_idx, 2);
    assert_eq!(v.generation, 1);
    assert_eq!((g(v.z.min), g(v.z.max)), (1.0, 8.0));
    assert_eq!((g(v.z.data_min), g(v.z.data_max)), (1.0, 8.0));
    assert!(!v.loads_on_click(3) && v.loads_on_click(4));

    let again = v.begin_load(3, None);
    assert_eq!(
        again,
        LoadRequest {
            is_new: false,
            channel: Some(2),
            flatten_order: Some(2),
            smooth_sigma: f(0.0)
        }
    );
    v.finish_load(again, Ok(image(&[0.0, 0.0], 2, 0)), &CalibrationTable::default());
    assert_eq!(v.channel_idx, 2);

    let other = v.begin_load(4, None);
    assert!(other.is_new);
    assert_eq!(other.channel, None);
    let wanted = v.begin_load(4, Some(Some(7)));
    assert_eq!((wanted.is_new, wanted.channel), (false, Some(7)));
    assert_eq!(v.begin_load(4, Some(None)).channel, None);
}

#[test]
fn loading_drops_what_belonged_to_the_image() {
    let mut v = loaded();
    v.set_tab(Tab::HeightAnalysis);
    v.click_line(at(20.0, 20.0), square(), far(), far());
    v.click_line(at(150.0, 20.0), square(), far(), far());
    v.click_plot(d(10.0));
    v.drag_view(f(5.0), f(6.0));
    assert!(!v.profile.is_empty());
    v.take_filter_stale();
    v.begin_load(3, None);
    assert_eq!(v.line, LineTool::new());
    assert_eq!(v.markers, Markers::new());
    assert_eq!(v.view, Viewport::new());
    assert!(v.profile.is_empty() && v.filter_stale);
}

#[test]
fn a_file_that_cannot_be_loaded_shows_its_error() {
    let mut v = loaded();
    let request = v.begin_load(5, None);
    v.finish_load(request, Err("bad".to_string()), &CalibrationTable::default());
    assert!(v.image.is_none());
    assert_eq!(v.selected, Some(5));
    assert_eq!(v.generation, 1);
    assert!(matches!(v.panel(true), Panel::Failure(e) if e == "Error: bad"));
    v.open_folder();
    assert!(v.selected.is_none() && v.load_error.is_none());
}

#[test]
fn a_registered_instrument_is_calibrated() {
    let mut table = CalibrationTable::default();
    table.set("10396JVLR", Calibration { x: f(2.0), y: f(3.0), z: f(0.5) });
    let mut v = Viewer::new();
    let request = v.begin_load(0, None);
    v.finish_load(request, Ok(image(&[2.0, 4.0], 2, 0)), &table);
    let img = v.image.as_ref().unwrap();
    assert_eq!((g(img.scan_size_x_nm), g(img.scan_size_y_nm)), (2000.0, 1500.0));
    assert_eq!(gs(&img.data), [1.0, 2.0]);
    assert_eq!((g(v.z.min), g(v.z.max)), (1.0, 2.0));
    assert_eq!(
        calibration_note(&img.calibration).as_deref(),
        Some("X ×2.0000  Y ×3.0000  Z ×0.5000")
    );
    assert_eq!(calibration_note(&Calibration::unity()), None);
}

#[test]
fn the_rolling_ball_is_taken_away_on_loading() {
    let mut v = Viewer::new();
    assert_eq!(v.set_rolling_ball(true, 5), None);
    let request = v.begin_load(0, None);
    let flat = vec![9.0f32; 64];
    v.finish_load(request, Ok(image(&flat, 8, 0)), &CalibrationTable::default());
    assert!(gs(&v.image.as_ref().unwrap().data).iter().all(|h| h.abs() < 1e-3));
}

// ---- controls ----

#[test]
fn settings_load_the_file_again_when_they_change() {
    let mut v = loaded();
    assert_eq!(v.set_flatten_order(Some(2)), None);
    assert_eq!(v.set_flatten_order(Some(1)), Some(3));
    assert_eq!(v.set_flatten_order(None), Some(3));
    assert_eq!(v.set_flatten_order(None), None);
    assert_eq!(v.set_smooth_sigma(f(1e-8)), None);
    assert_eq!(v.set_smooth_sigma(f(0.5)), Some(3));
    assert_eq!(v.set_rolling_ball(false, 30), None);
    assert_eq!(v.set_rolling_ball(true, 30), Some(3));
    assert_eq!(v.set_rolling_ball(true, 1000), Some(3));
    assert_eq!(v.settings.rolling_ball_radius, 300);
    assert_eq!(v.set_rolling_ball(true, 0), Some(3));
    assert_eq!(v.settings.rolling_ball_radius, 1);
    assert_eq!(Viewer::new().set_flatten_order(None), None);
}

#[test]
fn colours_are_drawn_anew_when_they_change() {
    let mut v = loaded();
    assert!(!v.set_colormap(Colormap::AfmHot));
    assert!(v.set_colormap(Colormap::Gray));
    assert!(!Viewer::new().set_colormap(Colormap::Gray));
    assert!(!v.set_z_range(f(1.0), f(8.0)));
    assert!(v.set_z_range(f(1.0), f(7.0)));
    assert!(v.set_z_range(f(-20.0), f(7.0)));
    v.use_data_range();
    assert_eq!((g(v.z.min), g(v.z.max)), (1.0, 8.0));
    v.set_scale_bar(false);
    assert!(!v.show_scale_bar);
}

#[test]
fn each_tab_says_what_is_missing() {
    let mut v = Viewer::new();
    let message = |v: &Viewer, gl: bool| match v.panel(gl) {
        Panel::Message(m) => m,
        Panel::Failure(m) => m,
        Panel::Image => "image".to_string(),
    };
    assert_eq!(message(&v, true), "Select a file to view.");
    v.set_tab(Tab::HeightAnalysis);
    assert_eq!(message(&v, true), "Select a file first.");
    v.set_tab(Tab::Analysis);
    assert_eq!(message(&v, true), "Select a file first.");
    v.set_tab(Tab::View3D);
    assert_eq!(message(&v, true), "Select a file to view its surface in 3D.");
    assert_eq!(message(&v, false), "3D view requires the glow rendering backend.");
    let mut v = loaded();
    assert_eq!(message(&v, false), "image");
    v.set_tab(Tab::View3D);
    assert_eq!(message(&v, true), "image");
}

// ---- the pointer ----

#[test]
fn the_wheel_zooms_toward_the_cursor() {
    let mut v = loaded();
    v.scroll_view(f(100.0), true, Some(at(150.0, 100.0)), square());
    let factor = 1.0f32 + 100.0 * 0.001;
    assert_eq!(g(v.view.zoom), factor);
    assert_eq!(g(v.view.pan_x), 50.0 - 50.0 * factor);
    assert_eq!(g(v.view.pan_y), 0.0);
    // What was under the cursor is still there.
    let p = screen_to_frac(at(150.0, 100.0), square(), v.view);
    assert!((g(p.x) - 0.75).abs() < 1e-5);
    let before = v.view;
    v.scroll_view(f(100.0), false, None, square());
    v.scroll_view(f(0.0), true, None, square());
    assert_eq!(v.view, before);
    v.scroll_view(f(-5000.0), true, None, square());
    assert_eq!(g(v.view.zoom), factor * 0.8);
    for _ in 0..100 {
        v.scroll_view(f(5000.0), true, None, square());
    }
    assert_eq!(g(v.view.zoom), 50.0);
    for _ in 0..100 {
        v.scroll_view(f(-5000.0), true, None, square());
    }
    assert_eq!(g(v.view.zoom), 0.1);
    v.reset_view();
    assert_eq!(v.view, Viewport::new());
}

#[test]
fn places_on_the_screen_and_on_the_image() {
    let view = Viewport { zoom: f(2.0), pan_x: f(10.0), pan_y: f(-20.0) };
    let o = image_origin(square(), view);
    assert_eq!((g(o.x), g(o.y)), (-90.0, -120.0));
    let s = frac_to_screen(at(0.5, 0.25), square(), view);
    assert_eq!((g(s.x), g(s.y)), (110.0, -20.0));
    let p = screen_to_frac(s, square(), view);
    assert_eq!((g(p.x), g(p.y)), (0.5, 0.25));
}

#[test]
fn two_clicks_draw_a_line() {
    let mut v = loaded();
    v.set_tab(Tab::HeightAnalysis);
    v.click_line(at(0.0, 0.0), square(), far(), far());
    assert_eq!(v.status, "Start set. Click for end.");
    assert!(v.profile.is_empty());
    v.click_line(at(150.0, -50.0), square(), far(), far());
    // The end is moved onto the image.
    assert_eq!(v.line.p1, Some(at(0.75, 0.0)));
    assert_eq!(v.status, "3 profile points");
    let heights: Vec<f32> = v.profile.iter().map(|p| g(p.1)).collect();
    assert_eq!(heights, [1.0, 3.0, 4.0]);
    assert_eq!(g(v.profile[2].0), 750.0);
    // A click on a handle does nothing.
    let before = v.line;
    v.click_line(at(1.0, 1.0), square(), f(13.9), far());
    assert_eq!(v.line, before);
    // A third click begins anew.
    v.click_line(at(100.0, 100.0), square(), f(14.0), far());
    assert_eq!(v.line.p0, Some(at(0.5, 0.5)));
    assert_eq!(v.line.p1, None);
    assert!(v.profile.is_empty());
    v.clear_line();
    assert_eq!(v.line, LineTool::new());
    assert!(v.status.is_empty());
}

#[test]
fn handles_can_be_dragged() {
    let mut v = loaded();
    v.set_tab(Tab::HeightAnalysis);
    v.click_line(at(0.0, 0.0), square(), far(), far());
    v.click_line(at(150.0, 0.0), square(), far(), far());
    // The start is grabbed before the end.
    v.start_drag(f(3.0), f(2.0));
    assert_eq!(v.line.dragged, Some(Handle::Start));
    v.stop_drag();
    v.start_drag(far(), f(13.0));
    assert_eq!(v.line.dragged, Some(Handle::End));
    assert!(v.line.is_near_handle(far(), f(13.0)) && !v.line.is_near_handle(far(), far()));
    // The image stays where it is meanwhile.
    v.drag_view(f(9.0), f(9.0));
    assert_eq!(v.view, Viewport::new());
    v.drag_handle(at(50.0, 100.0), square());
    assert_eq!(v.line.p1, Some(at(0.25, 0.5)));
    assert_eq!(g(v.profile.last().unwrap().1), 6.0);
    // A click is ignored while a handle is held.
    let before = v.line;
    v.click_line(at(100.0, 100.0), square(), far(), far());
    assert_eq!(v.line, before);
    v.stop_drag();
    v.start_drag(far(), far());
    assert_eq!(v.line.dragged, None);
    v.drag_view(f(9.0), f(-9.0));
    assert_eq!((g(v.view.pan_x), g(v.view.pan_y)), (9.0, -9.0));
}

#[test]
fn a_line_by_itself() {
    let mut l = LineTool::new();
    let view = Viewport::new();
    assert_eq!(l.click(at(0.0, 0.0), square(), view, far(), far()), Click::Started);
    assert_eq!(l.click(at(200.0, 0.0), square(), view, far(), far()), Click::Ended);
    assert_eq!(l.click(at(200.0, 0.0), square(), view, far(), f(1.0)), Click::Ignored);
    assert!(!l.drag_to(at(1.0, 1.0), square(), view));
}

// ---- markers ----

#[test]
fn markers_are_read_out() {
    let mut v = loaded();
    v.set_tab(Tab::HeightAnalysis);
    v.click_line(at(0.0, 0.0), square(), far(), far());
    v.click_line(at(150.0, 0.0), square(), far(), far());
    assert!(matches!(v.readout(), Readout::Nothing));
    v.click_plot(d(0.0));
    assert!(matches!(v.readout(), Readout::First(a) if a == "A  0.00 nm,  1.000 nm"));
    v.click_plot(d(187.5));
    match v.readout() {
        Readout::Both(a, b, distance, difference) => {
            assert_eq!(a, "A  0.00 nm,  1.000 nm");
            assert_eq!(b, "B  187.50 nm,  2.000 nm");
            assert_eq!(distance, "ΔD = +187.50 nm");
            assert_eq!(difference, "ΔH = +1.000 nm");
        }
        _ => panic!("two markers"),
    }
    v.click_plot(d(375.0));
    assert_eq!(v.markers, Markers { a: Some(d(375.0)), b: None });
    v.click_plot(d(0.0));
    match v.readout() {
        Readout::Both(_, _, distance, difference) => {
            assert_eq!((distance.as_str(), difference.as_str()), (
                "ΔD = -375.00 nm",
                "ΔH = -2.000 nm"
            ));
        }
        _ => panic!("two markers"),
    }
    v.clear_markers();
    assert_eq!(v.markers, Markers::new());
}

// ---- the filter ----

#[test]
fn the_filtered_image_is_made_when_something_changes() {
    let mut v = loaded();
    assert!(v.take_filter_stale());
    assert!(!v.take_filter_stale());
    v.set_filter(ProfileFilter::Off);
    assert!(!v.filter_stale);
    v.set_filter(ProfileFilter::Gaussian);
    assert!(v.take_filter_stale());
    v.set_filter_sigma(f(1.0));
    assert!(!v.filter_stale);
    v.set_filter_sigma(f(2.0));
    assert!(v.take_filter_stale());
    v.set_kernel_text("1,1".to_string());
    assert!(!v.filter_stale);
    v.apply_kernel();
    assert!(v.take_filter_stale());
    assert_eq!(gs(&v.kernel), [1.0, 1.0]);
}

#[test]
fn the_filter_is_applied() {
    let none: Vec<Vec<Binary32>> = Vec::new();
    let mut v = loaded();
    assert_eq!(v.filtered_data(&none, &none).unwrap(), v.image.as_ref().unwrap().data);
    v.set_filter(ProfileFilter::Custom);
    v.set_kernel_text("0,0,1".to_string());
    v.apply_kernel();
    // Each height comes from one sample further on, along both axes.
    let out = gs(&v.filtered_data(&none, &none).unwrap());
    assert_eq!(out, [6.0, 7.0, 8.0, 8.0, 6.0, 7.0, 8.0, 8.0]);
    v.set_filter(ProfileFilter::Gaussian);
    let weigh = |len: usize| -> Vec<Vec<Binary32>> {
        let rows = axis_exponents(len, f(1.0));
        rows.iter().map(|r| r.iter().map(|&e| f(g(e).exp())).collect()).collect()
    };
    let out = gs(&v.filtered_data(&weigh(4), &weigh(2)).unwrap());
    assert!(out[0] > 1.0 && out[7] < 8.0);
    assert!(Viewer::new().filtered_data(&none, &none).is_none());
}

// ---- the 3D view ----

#[test]
fn the_mesh_is_made_once() {
    let mut v = loaded();
    assert!(v.take_mesh_request());
    assert!(!v.take_mesh_request());
    v.set_exaggeration(f(1.5));
    assert!(v.take_mesh_request());
    v.set_z_range(f(0.0), f(1.0));
    assert!(v.take_mesh_request());
    v.set_colormap(Colormap::Viridis);
    assert!(v.take_mesh_request());
    v.set_tab(Tab::View);
    assert!(!v.take_mesh_request());
    assert!(!Viewer::new().take_mesh_request());
}

#[test]
fn the_camera_can_be_put_back() {
    let mut v = loaded();
    v.camera.orbit(f(10.0), f(10.0));
    v.reset_camera();
    assert_eq!(v.camera, Viewer::new().camera);
    assert_eq!(camera_drag(false, false), CameraDrag::Orbit);
    assert_eq!(camera_drag(true, false), CameraDrag::Pan);
    assert_eq!(camera_drag(false, true), CameraDrag::Pan);
}

#[test]
fn a_saved_scene_has_the_aspect_of_the_view() {
    assert_eq!(g(view_aspect(f(300.0), f(200.0))), 1.5);
    assert_eq!(g(view_aspect(f(300.0), f(0.5))), 300.0);
    assert_eq!(export_width(f(1.5)), 1800);
    assert_eq!(export_width(f(0.001)), 16);
    assert_eq!(export_width(f(-3.0)), 16);
    assert_eq!(export_width(f(1e30)), i32::MAX);
    assert_eq!(export_width(f(f32::NAN)), 16);
}

// ---- texts and sizes ----

#[test]
fn choices_have_labels() {
    let labels: Vec<&str> =
        [None, Some(0), Some(1), Some(2), Some(3), Some(4)].map(flatten_label).to_vec();
    assert_eq!(labels, ["None", "0", "1", "2", "3", "?"]);
    assert_eq!(filter_label(ProfileFilter::Off), "None");
    assert_eq!(filter_label(ProfileFilter::Gaussian), "Gaussian");
    assert_eq!(filter_label(ProfileFilter::Custom), "Custom");
}

#[test]
fn a_scene_needs_a_size_and_a_surface() {
    assert_eq!(export_problem(0, 5, 6).as_deref(), Some("Invalid export size"));
    assert_eq!(export_problem(5, 0, 0).as_deref(), Some("Invalid export size"));
    assert_eq!(export_problem(5, 5, 0).as_deref(), Some("No surface to export"));
    assert_eq!(export_problem(5, 5, 6), None);
}

#[test]
fn images_are_shown_in_their_true_aspect() {
    let img = image(&[0.0; 4], 2, 0);
    let (w, h) = display_size(&img, f(300.0));
    assert_eq!((g(w), g(h)), (300.0, 150.0));
    assert_eq!(g(image_side(Tab::View, f(500.0), f(400.0))), 380.0);
    assert_eq!(g(image_side(Tab::Analysis, f(300.0), f(400.0))), 280.0);
    assert_eq!(g(image_side(Tab::HeightAnalysis, f(500.0), f(400.0))), 250.0);
    assert_eq!(g(image_side(Tab::HeightAnalysis, f(900.0), f(400.0))), 340.0);
}

#[test]
fn a_scale_bar_on_the_screen() {
    let bar = screen_bar(f(1000.0), f(400.0), f(2.0));
    assert_eq!(bar.label, "200 nm");
    assert_eq!(g(bar.px), 200.0f32 / 1000.0 * 400.0 * 2.0);
}

#[test]
fn the_missing_aspect_is_named() {
    let mut img = image(&[0.0; 8], 4, 0);
    assert_eq!(aspect_note(&img), None);
    img.scan_size_y_nm = f(511.5);
    assert_eq!(aspect_note(&img).as_deref(), Some("scale height ×1.0230 for the true aspect"));
}

#[test]
fn everything_that_was_done_is_reported() {
    let mut v = loaded();
    let e = || "e".to_string();
    let cases = [
        (Report::ImageSaved, "Image saved."),
        (Report::ImageFailed(e()), "Save error: e"),
        (Report::Copied, "Copied to clipboard."),
        (Report::CopyFailed(e()), "Clipboard error: e"),
        (Report::CsvSaved, "CSV saved."),
        (Report::CsvFailed(e()), "CSV error: e"),
        (Report::PlotSaved, "PNG saved."),
        (Report::PlotFailed(e()), "PNG error: e"),
        (Report::SceneSaved(e()), "3D image saved: e"),
        (Report::SceneFailed(e()), "Export error: e"),
    ];
    for (report, text) in cases {
        v.report(report);
        assert_eq!(v.status, text);
    }
    match &mut v.image {
        Some(img) => img.scan_size_y_nm = f(511.5),
        None => panic!("loaded"),
    }
    v.report(Report::ImageSaved);
    assert_eq!(v.status, "Image saved. (scale height ×1.0230 for the true aspect)");
}

#[test]
fn a_point_comes_back_from_the_screen() {
    let view = Viewport { zoom: f(2.0), pan_x: f(-12.5), pan_y: f(40.0) };
    for p in [at(0.0, 1.0), at(0.25, 0.625), at(0.5, 0.875)] {
        assert_eq!(screen_to_frac(frac_to_screen(p, square(), view), square(), view), p);
    }
}
