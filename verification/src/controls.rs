//! The controls of the viewer: what each of them does to its state, and what
//! has to be made anew because of it.

use crate::binary::{Binary32, Binary64};
use crate::calibration::{is_near_one, near_one, Calibration};
use crate::camera::{first_camera, OrbitalCamera};
use crate::colormap::Colormap;
use crate::filter::{
    blurred, custom_kernel_filter_2d, epsilon, filtered, fits_axis, gaussian_filter_2d, kernel_in,
    parse_kernel, weights_of, EPSILON,
};
use crate::float::Toward;
use crate::mesh::{fit_sides, half, sides, HALF};
use crate::pointer::{
    clicked, difference_line, difference_text, distance_line, distance_text, grabbed, handle_moved,
    home, marked, marker_line, marker_text, moved, no_line, no_markers, on_image, onto_image,
    scrolled, Area, Click, LineTool, Markers, Viewport,
};
use crate::profile::{height_at, interp_height, line_profile, Point};
use crate::scalebar::{nice_scale, snapped};
use crate::smooth::{copy_numbers, reach};
use crate::spm::{opt_view, ImageModel, SpmImage};
use crate::text::{decimal, parts, to_decimal, to_text};
use crate::viewer::{profile_of, MeshKey, ProfileFilter, Session, Settings, Tab, Viewer, ZRange};
use vstd::prelude::*;

verus! {

// ---- the toolbar ----

/// The label of an order of flattening.
pub fn flatten_label(order: Option<u32>) -> (r: &'static str)
    ensures
        r@ == (match order {
            None => "None"@,
            Some(n) => if n <= 3 {
                decimal(n as nat)
            } else {
                "?"@
            },
        }),
{
    proof {
        reveal_strlit("0");
        reveal_strlit("1");
        reveal_strlit("2");
        reveal_strlit("3");
        assert("0"@ =~= decimal(0));
        assert("1"@ =~= decimal(1));
        assert("2"@ =~= decimal(2));
        assert("3"@ =~= decimal(3));
    }
    match order {
        None => "None",
        Some(0) => "0",
        Some(1) => "1",
        Some(2) => "2",
        Some(3) => "3",
        Some(_) => "?",
    }
}

/// Whether a number was changed by more than rounding.
pub open spec fn has_changed(old: Binary32, new: Binary32) -> bool {
    epsilon().below(new.minus(old).abs())
}

fn changed(before: Binary32, after: Binary32) -> (r: bool)
    ensures
        r == has_changed(before, after),
{
    (Binary32 { bits: EPSILON }).below(after.minus(before).abs())
}

/// The file that has to be loaded again, if one is selected and something
/// changed.
pub open spec fn to_reload(s: Session, changed: bool) -> Option<usize> {
    if changed {
        s.selected
    } else {
        None
    }
}

/// The radius of a ball within the range of its control.
pub open spec fn allowed_radius(radius: u32) -> u32 {
    if radius < 1 {
        1
    } else if radius > 300 {
        300
    } else {
        radius
    }
}

impl Viewer {
    /// Sets the colours; says whether the image has to be drawn anew.
    pub fn set_colormap(&mut self, colormap: Colormap) -> (r: bool)
        requires
            old(self).wf(),
        ensures
            final(self)@ == (Session { colormap, ..old(self)@ }),
            final(self).wf(),
            r == (old(self).colormap != colormap && old(self).image is Some),
    {
        let redraw: bool = self.colormap != colormap && self.image.is_some();
        self.colormap = colormap;
        redraw
    }

    /// Sets the order of flattening; gives the file to load again.
    pub fn set_flatten_order(&mut self, order: Option<u32>) -> (r: Option<usize>)
        requires
            old(self).wf(),
        ensures
            final(self)@ == (Session {
                settings: Settings { flatten_order: order, ..old(self).settings },
                ..old(self)@
            }),
            final(self).wf(),
            r == to_reload(old(self)@, old(self).settings.flatten_order != order),
    {
        let same: bool = match (self.settings.flatten_order, order) {
            (Some(a), Some(b)) => a == b,
            (None, None) => true,
            _ => false,
        };
        self.settings.flatten_order = order;
        if same {
            None
        } else {
            self.selected
        }
    }

    /// Sets the width of the smoothing; gives the file to load again.
    pub fn set_smooth_sigma(&mut self, sigma: Binary32) -> (r: Option<usize>)
        requires
            old(self).wf(),
        ensures
            final(self)@ == (Session {
                settings: Settings { smooth_sigma: sigma, ..old(self).settings },
                ..old(self)@
            }),
            final(self).wf(),
            r == to_reload(old(self)@, has_changed(old(self).settings.smooth_sigma, sigma)),
    {
        let reload: bool = changed(self.settings.smooth_sigma, sigma);
        self.settings.smooth_sigma = sigma;
        if reload {
            self.selected
        } else {
            None
        }
    }

    /// Sets the ball that is rolled under the surface; gives the file to load
    /// again.
    pub fn set_rolling_ball(&mut self, on: bool, radius: u32) -> (r: Option<usize>)
        requires
            old(self).wf(),
        ensures
            final(self)@ == (Session {
                settings: Settings {
                    rolling_ball: on,
                    rolling_ball_radius: allowed_radius(radius),
                    ..old(self).settings
                },
                ..old(self)@
            }),
            final(self).wf(),
            r == to_reload(
                old(self)@,
                old(self).settings.rolling_ball != on || old(self).settings.rolling_ball_radius
                    != allowed_radius(radius),
            ),
    {
        let radius: u32 = if radius < 1 {
            1
        } else if radius > 300 {
            300
        } else {
            radius
        };
        let reload: bool = self.settings.rolling_ball != on || self.settings.rolling_ball_radius
            != radius;
        self.settings.rolling_ball = on;
        self.settings.rolling_ball_radius = radius;
        if reload {
            self.selected
        } else {
            None
        }
    }

    /// Shows the image as a whole again.
    pub fn reset_view(&mut self)
        requires
            old(self).wf(),
        ensures
            final(self)@ == (Session { view: home(), ..old(self)@ }),
            final(self).wf(),
    {
        self.view = Viewport::new();
    }

    /// Turns to a tab.
    pub fn set_tab(&mut self, tab: Tab)
        requires
            old(self).wf(),
        ensures
            final(self)@ == (Session { tab, ..old(self)@ }),
            final(self).wf(),
    {
        self.tab = tab;
    }

    /// Says whether saved images get a scale bar.
    pub fn set_scale_bar(&mut self, show: bool)
        requires
            old(self).wf(),
        ensures
            final(self)@ == (Session { show_scale_bar: show, ..old(self)@ }),
            final(self).wf(),
    {
        self.show_scale_bar = show;
    }
}

// ---- the range of heights ----

impl Viewer {
    /// Sets the heights between which the image is coloured; says whether it
    /// has to be drawn anew.
    pub fn set_z_range(&mut self, min: Binary32, max: Binary32) -> (r: bool)
        requires
            old(self).wf(),
        ensures
            final(self)@ == (Session { z: ZRange { min, max, ..old(self).z }, ..old(self)@ }),
            final(self).wf(),
            r == (has_changed(old(self).z.min, min) || has_changed(old(self).z.max, max)),
    {
        let redraw: bool = changed(self.z.min, min) || changed(self.z.max, max);
        self.z.min = min;
        self.z.max = max;
        redraw
    }

    /// Colours the image between the least and the greatest height it has.
    pub fn use_data_range(&mut self)
        requires
            old(self).wf(),
        ensures
            final(self)@ == (Session {
                z: ZRange { min: old(self).z.data_min, max: old(self).z.data_max, ..old(self).z },
                ..old(self)@
            }),
            final(self).wf(),
    {
        self.z.min = self.z.data_min;
        self.z.max = self.z.data_max;
    }
}

// ---- the image on the screen ----

/// What a tab shows.
#[derive(Debug)]
pub enum Panel {
    /// A message in place of the image.
    Message(String),
    /// An error in place of the image.
    Failure(String),
    Image,
}

/// What a tab shows, as texts.
pub enum PanelModel {
    Message(Seq<char>),
    Failure(Seq<char>),
    Image,
}

impl Panel {
    pub open spec fn view(&self) -> PanelModel {
        match self {
            Panel::Message(s) => PanelModel::Message(s@),
            Panel::Failure(s) => PanelModel::Failure(s@),
            Panel::Image => PanelModel::Image,
        }
    }
}

/// What a tab shows.
pub open spec fn panel_of(s: Session, has_gl: bool) -> PanelModel {
    match s.tab {
        Tab::View => match s.load_error {
            Some(e) => PanelModel::Failure("Error: "@ + e),
            None => if s.image is Some {
                PanelModel::Image
            } else {
                PanelModel::Message("Select a file to view."@)
            },
        },
        Tab::HeightAnalysis | Tab::Analysis => if s.image is Some {
            PanelModel::Image
        } else {
            PanelModel::Message("Select a file first."@)
        },
        Tab::View3D => if !has_gl {
            PanelModel::Failure("3D view requires the glow rendering backend."@)
        } else if s.image is Some {
            PanelModel::Image
        } else {
            PanelModel::Message("Select a file to view its surface in 3D."@)
        },
    }
}

impl Viewer {
    /// What the current tab shows; `has_gl` says whether 3D can be drawn.
    pub fn panel(&self, has_gl: bool) -> (r: Panel)
        ensures
            r@ == panel_of(self@, has_gl),
    {
        match self.tab {
            Tab::View => match &self.load_error {
                Some(e) => Panel::Failure("Error: ".to_owned().concat(e.as_str())),
                None => if self.image.is_some() {
                    Panel::Image
                } else {
                    Panel::Message("Select a file to view.".to_owned())
                },
            },
            Tab::HeightAnalysis | Tab::Analysis => if self.image.is_some() {
                Panel::Image
            } else {
                Panel::Message("Select a file first.".to_owned())
            },
            Tab::View3D => if !has_gl {
                Panel::Failure("3D view requires the glow rendering backend.".to_owned())
            } else if self.image.is_some() {
                Panel::Image
            } else {
                Panel::Message("Select a file to view its surface in 3D.".to_owned())
            },
        }
    }
}

/// The size of an image on the screen, where `side` is free: its longer extent
/// takes all of it and the other is in proportion, as on the sample.
pub fn display_size(image: &SpmImage, side: Binary32) -> (r: (Binary32, Binary32))
    ensures
        r == sides(image.scan_size_x_nm, image.scan_size_y_nm, side),
{
    fit_sides(image.scan_size_x_nm, image.scan_size_y_nm, side)
}

/// The side that an image may take of the space of a tab.
pub open spec fn side_in(tab: Tab, x: Binary32, y: Binary32) -> Binary32 {
    match tab {
        Tab::HeightAnalysis => x.times(half()).min(y.minus(Binary32::of_integer(60))),
        _ => x.min(y).minus(Binary32::of_integer(20)),
    }
}

/// Computes the side that an image may take of the space of a tab.
pub fn image_side(tab: Tab, x: Binary32, y: Binary32) -> (r: Binary32)
    ensures
        r == side_in(tab, x, y),
{
    match tab {
        Tab::HeightAnalysis => x.times(Binary32 { bits: HALF }).min(
            y.minus(Binary32::from_usize(60)),
        ),
        _ => x.min(y).minus(Binary32::from_usize(20)),
    }
}

/// A scale bar on the screen: its length in screen units, and its label.
pub struct ScreenBar {
    pub px: Binary32,
    pub label: String,
}

/// The length of the bar that goes with an extent, in nanometres.
pub open spec fn bar_nm(scan_nm: Binary32) -> Binary32 {
    Binary32::of_integer(snapped(scan_nm.over(Binary32::of_integer(5))))
}

/// Plans the scale bar of an image that is `width` screen units wide before it
/// is zoomed.
pub fn screen_bar(scan_nm: Binary32, width: Binary32, zoom: Binary32) -> (r: ScreenBar)
    ensures
        r.px == bar_nm(scan_nm).over(scan_nm).times(width).times(zoom),
        r.label@ == bar_nm(scan_nm).fixed(0) + " nm"@,
{
    let nm: Binary32 = nice_scale(scan_nm.over(Binary32::from_usize(5)));
    let digits: Vec<char> = nm.to_fixed(0);
    ScreenBar {
        px: nm.over(scan_nm).times(width).times(zoom),
        label: to_text(digits.as_slice()).concat(" nm"),
    }
}

/// The text of a calibration that is in effect.
pub open spec fn calibration_line(c: Calibration) -> Seq<char> {
    "X ×"@ + c.x.fixed(4) + "  Y ×"@ + c.y.fixed(4) + "  Z ×"@ + c.z.fixed(4)
}

/// The note that goes with an image whose calibration changes it; there is none
/// for one that is shown as it was recorded.
pub fn calibration_note(c: &Calibration) -> (r: Option<String>)
    ensures
        match r {
            Some(s) => !c.is_unity() && s@ == calibration_line(*c),
            None => c.is_unity(),
        },
{
    if c.is_unity() {
        return None;
    }
    let x: Vec<char> = c.x.to_fixed(4);
    let y: Vec<char> = c.y.to_fixed(4);
    let z: Vec<char> = c.z.to_fixed(4);
    Some(
        "X ×".to_owned().concat(to_text(x.as_slice()).as_str()).concat("  Y ×").concat(
            to_text(y.as_slice()).as_str(),
        ).concat("  Z ×").concat(to_text(z.as_slice()).as_str()),
    )
}

/// How much taller a sample of an image is than wide.
pub open spec fn sample_aspect(m: ImageModel) -> Binary32 {
    m.height_nm.over(Binary32::of_integer(m.rows)).over(
        m.width_nm.over(Binary32::of_integer(m.cols)),
    )
}

/// The note that a saved image does not have the aspect of the sample.
pub open spec fn aspect_line(f: Binary32) -> Seq<char> {
    "scale height ×"@ + f.fixed(4) + " for the true aspect"@
}

/// The note that goes with a saved image whose samples are not square.
pub fn aspect_note(image: &SpmImage) -> (r: Option<String>)
    ensures
        match r {
            Some(s) => !is_near_one(sample_aspect(image@)) && s@ == aspect_line(
                sample_aspect(image@),
            ),
            None => is_near_one(sample_aspect(image@)),
        },
{
    let f: Binary32 = image.scan_size_y_nm.over(Binary32::from_usize(image.number_of_lines)).over(
        image.scan_size_x_nm.over(Binary32::from_usize(image.samps_per_line)),
    );
    if near_one(f) {
        return None;
    }
    let digits: Vec<char> = f.to_fixed(4);
    Some(
        "scale height ×".to_owned().concat(to_text(digits.as_slice()).as_str()).concat(
            " for the true aspect",
        ),
    )
}

// ---- the pointer on an image ----

/// The view and the line after a drag of the pointer: it moves the image,
/// unless it moves a handle of the line.
pub open spec fn dragged_view(s: Session, dx: Binary32, dy: Binary32) -> Viewport {
    if s.tab == Tab::HeightAnalysis && s.line.dragged is Some {
        s.view
    } else {
        moved(s.view, dx, dy)
    }
}

impl Viewer {
    /// The pointer is dragged by some screen units.
    pub fn drag_view(&mut self, dx: Binary32, dy: Binary32)
        requires
            old(self).wf(),
        ensures
            final(self)@ == (Session { view: dragged_view(old(self)@, dx, dy), ..old(self)@ }),
            final(self).wf(),
    {
        let held: bool = match self.tab {
            Tab::HeightAnalysis => self.line.dragged.is_some(),
            _ => false,
        };
        if !held {
            self.view.drag(dx, dy);
        }
    }

    /// The wheel is turned; `cursor` is where the pointer is, if it is known.
    pub fn scroll_view(
        &mut self,
        scroll: Binary32,
        hovered: bool,
        cursor: Option<Point>,
        area: Area,
    )
        requires
            old(self).wf(),
        ensures
            final(self)@ == (Session {
                view: scrolled(old(self).view, scroll, hovered, cursor, area),
                ..old(self)@
            }),
            final(self).wf(),
    {
        self.view.scroll(scroll, hovered, cursor, area);
    }
}

// ---- the line ----

/// A handle of the line was moved to a point.
pub open spec fn handle_dragged(s: Session, p: Point) -> Session {
    match s.line.dragged {
        None => s,
        Some(h) => {
            let line = handle_moved(s.line, h, p);
            Session {
                line,
                profile: match (s.image, line.p0, line.p1) {
                    (Some(m), Some(_), Some(_)) => profile_of(m, line),
                    _ => s.profile,
                },
                ..s
            }
        },
    }
}

/// A click landed on a point of the image.
pub open spec fn line_clicked(s: Session, p: Point, d0: Binary32, d1: Binary32) -> Session {
    let (line, what) = clicked(s.line, p, d0, d1);
    match what {
        Click::Ignored => s,
        Click::Started => Session {
            line,
            profile: Seq::empty(),
            status: "Start set. Click for end."@,
            ..s
        },
        Click::Ended => {
            let profile = match s.image {
                Some(m) => profile_of(m, line),
                None => s.profile,
            };
            Session { line, profile, status: decimal(profile.len()) + " profile points"@, ..s }
        },
    }
}

impl Viewer {
    fn update_profile(&mut self)
        requires
            old(self).image matches Some(img) ==> img.wf(),
        ensures
            final(self)@ == (Session {
                profile: match (old(self)@.image, old(self).line.p0, old(self).line.p1) {
                    (Some(m), Some(_), Some(_)) => profile_of(m, old(self).line),
                    _ => old(self).profile@,
                },
                ..old(self)@
            }),
    {
        match (&self.image, self.line.p0, self.line.p1) {
            (Some(img), Some(p0), Some(p1)) => {
                self.profile = line_profile(img, p0, p1);
            },
            _ => {},
        }
    }

    /// A drag starts on the image; `d0` and `d1` are the distances of the
    /// pointer from the handles.
    pub fn start_drag(&mut self, d0: Binary32, d1: Binary32)
        requires
            old(self).wf(),
        ensures
            final(self)@ == (Session {
                line: LineTool { dragged: grabbed(old(self).line, d0, d1), ..old(self).line },
                ..old(self)@
            }),
            final(self).wf(),
    {
        self.line.drag_started(d0, d1);
    }

    /// The pointer is dragged to a place on the screen.
    pub fn drag_handle(&mut self, pos: Point, area: Area)
        requires
            old(self).wf(),
        ensures
            final(self)@ == handle_dragged(
                old(self)@,
                onto_image(on_image(pos, area, old(self).view)),
            ),
            final(self).wf(),
    {
        if self.line.drag_to(pos, area, self.view) {
            self.update_profile();
        }
    }

    /// A drag ends.
    pub fn stop_drag(&mut self)
        requires
            old(self).wf(),
        ensures
            final(self)@ == (Session {
                line: LineTool { dragged: None, ..old(self).line },
                ..old(self)@
            }),
            final(self).wf(),
    {
        self.line.drag_stopped();
    }

    /// A click at a place on the screen; `d0` and `d1` are the distances of the
    /// pointer from the handles.
    pub fn click_line(&mut self, pos: Point, area: Area, d0: Binary32, d1: Binary32)
        requires
            old(self).wf(),
        ensures
            final(self)@ == line_clicked(
                old(self)@,
                onto_image(on_image(pos, area, old(self).view)),
                d0,
                d1,
            ),
            final(self).wf(),
    {
        match self.line.click(pos, area, self.view, d0, d1) {
            Click::Ignored => {},
            Click::Started => {
                self.profile = Vec::new();
                self.status = "Start set. Click for end.".to_owned();
            },
            Click::Ended => {
                self.update_profile();
                let n: Vec<char> = to_decimal(self.profile.len());
                self.status = to_text(n.as_slice()).concat(" profile points");
            },
        }
        assert(self@ == line_clicked(
            old(self)@,
            onto_image(on_image(pos, area, old(self).view)),
            d0,
            d1,
        ));
    }

    /// Drops the line.
    pub fn clear_line(&mut self)
        requires
            old(self).wf(),
        ensures
            final(self)@ == (Session {
                line: no_line(),
                profile: Seq::empty(),
                status: Seq::empty(),
                ..old(self)@
            }),
            final(self).wf(),
    {
        self.line = LineTool::new();
        self.profile = Vec::new();
        self.status = String::new();
        assert(self.status@ =~= Seq::<char>::empty());
        assert(self.profile@ =~= Seq::empty());
    }
}

// ---- markers ----

/// What is said of the markers.
pub enum Readout {
    /// There are none.
    Nothing,
    /// There is marker A.
    First(String),
    /// There are both: A, B, their distance and their difference in height.
    Both(String, String, String, String),
}

/// What is said of the markers, as texts.
pub enum ReadoutModel {
    Nothing,
    First(Seq<char>),
    Both(Seq<char>, Seq<char>, Seq<char>, Seq<char>),
}

impl Readout {
    pub open spec fn view(&self) -> ReadoutModel {
        match self {
            Readout::Nothing => ReadoutModel::Nothing,
            Readout::First(a) => ReadoutModel::First(a@),
            Readout::Both(a, b, d, h) => ReadoutModel::Both(a@, b@, d@, h@),
        }
    }
}

/// What is said of the markers on a profile.
pub open spec fn readout_of(p: Seq<(Binary32, Binary32)>, m: Markers) -> ReadoutModel {
    match (m.a, m.b) {
        (Some(xa), Some(xb)) => {
            let (ha, hb) = (height_at(p, xa), height_at(p, xb));
            ReadoutModel::Both(
                marker_line("A"@, xa, ha),
                marker_line("B"@, xb, hb),
                distance_line(xa, xb),
                difference_line(ha, hb),
            )
        },
        (Some(xa), None) => ReadoutModel::First(marker_line("A"@, xa, height_at(p, xa))),
        _ => ReadoutModel::Nothing,
    }
}

impl Viewer {
    /// Says what there is to say of the markers.
    pub fn readout(&self) -> (r: Readout)
        ensures
            r@ == readout_of(self.profile@, self.markers),
    {
        match (self.markers.a, self.markers.b) {
            (Some(xa), Some(xb)) => {
                let ha: Binary64 = interp_height(self.profile.as_slice(), xa);
                let hb: Binary64 = interp_height(self.profile.as_slice(), xb);
                Readout::Both(
                    marker_text("A", xa, ha),
                    marker_text("B", xb, hb),
                    distance_text(xa, xb),
                    difference_text(ha, hb),
                )
            },
            (Some(xa), None) => {
                let ha: Binary64 = interp_height(self.profile.as_slice(), xa);
                Readout::First(marker_text("A", xa, ha))
            },
            _ => Readout::Nothing,
        }
    }

    /// A click on the plot of the profile.
    pub fn click_plot(&mut self, x: Binary64)
        requires
            old(self).wf(),
        ensures
            final(self)@ == (Session { markers: marked(old(self).markers, x), ..old(self)@ }),
            final(self).wf(),
    {
        self.markers.click(x);
    }

    /// Drops the markers.
    pub fn clear_markers(&mut self)
        requires
            old(self).wf(),
        ensures
            final(self)@ == (Session { markers: no_markers(), ..old(self)@ }),
            final(self).wf(),
    {
        self.markers = Markers::new();
    }
}

// ---- the filter ----

/// The label of a filter.
pub fn filter_label(filter: ProfileFilter) -> (r: &'static str)
    ensures
        r@ == (match filter {
            ProfileFilter::Off => "None"@,
            ProfileFilter::Gaussian => "Gaussian"@,
            ProfileFilter::Custom => "Custom"@,
        }),
{
    match filter {
        ProfileFilter::Off => "None",
        ProfileFilter::Gaussian => "Gaussian",
        ProfileFilter::Custom => "Custom",
    }
}

/// The heights of an image under a filter.
pub open spec fn filtered_heights(
    s: Session,
    m: ImageModel,
    across: Seq<Seq<Binary32>>,
    down: Seq<Seq<Binary32>>,
) -> Seq<Binary32> {
    match s.filter {
        ProfileFilter::Off => m.data,
        ProfileFilter::Gaussian => blurred(m.data, m.cols, m.rows, s.filter_sigma, across, down),
        ProfileFilter::Custom => filtered(m.data, m.cols, m.rows, s.kernel),
    }
}

/// Whether some weights are those of a Gaussian on an image, in number.
pub open spec fn weights_fit(
    m: ImageModel,
    sigma: Binary32,
    across: Seq<Seq<Binary32>>,
    down: Seq<Seq<Binary32>>,
) -> bool {
    fits_axis(across, m.cols, reach(sigma)) && fits_axis(down, m.rows, reach(sigma))
}

impl Viewer {
    /// Chooses a filter.
    pub fn set_filter(&mut self, filter: ProfileFilter)
        requires
            old(self).wf(),
        ensures
            final(self)@ == (Session {
                filter,
                filter_stale: old(self).filter_stale || old(self).filter != filter,
                ..old(self)@
            }),
            final(self).wf(),
    {
        if self.filter != filter {
            self.filter_stale = true;
        }
        self.filter = filter;
    }

    /// Sets the width of the Gaussian.
    pub fn set_filter_sigma(&mut self, sigma: Binary32)
        requires
            old(self).wf(),
        ensures
            final(self)@ == (Session {
                filter_sigma: sigma,
                filter_stale: old(self).filter_stale || has_changed(
                    old(self).filter_sigma,
                    sigma,
                ),
                ..old(self)@
            }),
            final(self).wf(),
    {
        if changed(self.filter_sigma, sigma) {
            self.filter_stale = true;
        }
        self.filter_sigma = sigma;
    }

    /// Sets the text that a kernel is written in; it has no effect until it is
    /// applied.
    pub fn set_kernel_text(&mut self, text: String)
        requires
            old(self).wf(),
        ensures
            final(self)@ == (Session { kernel_text: text@, ..old(self)@ }),
            final(self).wf(),
    {
        self.kernel_text = text;
    }

    /// Applies the kernel that is written.
    pub fn apply_kernel(&mut self)
        requires
            old(self).wf(),
        ensures
            final(self)@ == (Session {
                kernel: kernel_in(parts(old(self).kernel_text@, ',')),
                filter_stale: true,
                ..old(self)@
            }),
            final(self).wf(),
    {
        self.kernel = parse_kernel(self.kernel_text.as_str());
        self.filter_stale = true;
    }

    /// Says whether the filtered image has to be made anew, and takes note that
    /// it will be.
    pub fn take_filter_stale(&mut self) -> (r: bool)
        requires
            old(self).wf(),
        ensures
            final(self)@ == (Session { filter_stale: false, ..old(self)@ }),
            final(self).wf(),
            r == old(self).filter_stale,
    {
        let stale: bool = self.filter_stale;
        self.filter_stale = false;
        stale
    }

    /// The heights of the image under the filter; there are none without an
    /// image. `across` and `down` are the exponentials of
    /// [`crate::filter::axis_exponents`] for the width and for the height.
    pub fn filtered_data(&self, across: &Vec<Vec<Binary32>>, down: &Vec<Vec<Binary32>>) -> (r:
        Option<Vec<Binary32>>)
        requires
            self.wf(),
            self.image is Some && self.filter == ProfileFilter::Gaussian ==> weights_fit(
                self@.image->0,
                self.filter_sigma,
                weights_of(across@),
                weights_of(down@),
            ),
        ensures
            match (r, self@.image) {
                (Some(v), Some(m)) => v@ == filtered_heights(
                    self@,
                    m,
                    weights_of(across@),
                    weights_of(down@),
                ),
                (None, None) => true,
                _ => false,
            },
    {
        match &self.image {
            None => None,
            Some(img) => Some(
                match self.filter {
                    ProfileFilter::Off => copy_numbers(img.data.as_slice()),
                    ProfileFilter::Gaussian => gaussian_filter_2d(
                        img.data.as_slice(),
                        img.samps_per_line,
                        img.number_of_lines,
                        self.filter_sigma,
                        across,
                        down,
                    ),
                    ProfileFilter::Custom => custom_kernel_filter_2d(
                        img.data.as_slice(),
                        img.samps_per_line,
                        img.number_of_lines,
                        self.kernel.as_slice(),
                    ),
                },
            ),
        }
    }
}

// ---- the 3D view ----

/// What the mesh of the current image is made from.
pub open spec fn key_of(s: Session) -> MeshKey {
    MeshKey {
        generation: s.generation,
        colormap: s.colormap,
        z_min: s.z.min.bits,
        z_max: s.z.max.bits,
        exaggeration: s.z_exaggeration.bits,
    }
}

/// What dragging the pointer does to the camera.
#[derive(Clone, Copy, PartialEq, Eq, Structural, Debug)]
pub enum CameraDrag {
    Pan,
    Orbit,
}

/// Says what dragging does to the camera.
pub fn camera_drag(secondary: bool, shift: bool) -> (r: CameraDrag)
    ensures
        r == (if secondary || shift {
            CameraDrag::Pan
        } else {
            CameraDrag::Orbit
        }),
{
    if secondary || shift {
        CameraDrag::Pan
    } else {
        CameraDrag::Orbit
    }
}

/// The height of a saved 3D image in pixels.
pub const EXPORT_HEIGHT: i32 = 1200;

/// The aspect of an area; one that is less than a unit high counts as one.
pub open spec fn aspect_of(width: Binary32, height: Binary32) -> Binary32 {
    width.over(height.max(Binary32::of_integer(1)))
}

/// Computes the aspect of an area.
pub fn view_aspect(width: Binary32, height: Binary32) -> (r: Binary32)
    ensures
        r == aspect_of(width, height),
{
    width.over(height.max(Binary32::from_usize(1)))
}

/// The width of a saved 3D image: that of the view, for its height, and at
/// least sixteen.
pub open spec fn width_for(aspect: Binary32) -> int {
    let w = Binary32::of_integer(1200).times(aspect).integer(
        Toward::Nearest,
        i64::MIN as int,
        i64::MAX as int,
    );
    if w > i32::MAX {
        i32::MAX as int
    } else if w < 16 {
        16
    } else {
        w
    }
}

/// Computes the width of a saved 3D image.
pub fn export_width(aspect: Binary32) -> (r: i32)
    ensures
        r == width_for(aspect),
{
    let w: i64 = Binary32::from_usize(1200).times(aspect).to_i64(Toward::Nearest);
    if w > i32::MAX as i64 {
        i32::MAX
    } else if w < 16 {
        16
    } else {
        w as i32
    }
}

/// Why a 3D image of some size cannot be saved, if it cannot: `indices` is the
/// number of corners of the triangles of the surface.
pub open spec fn export_trouble(width: i32, height: i32, indices: i32) -> Option<Seq<char>> {
    if width < 1 || height < 1 {
        Some("Invalid export size"@)
    } else if indices == 0 {
        Some("No surface to export"@)
    } else {
        None
    }
}

/// Says why a 3D image of some size cannot be saved, if it cannot.
pub fn export_problem(width: i32, height: i32, indices: i32) -> (r: Option<String>)
    ensures
        opt_view(r) == export_trouble(width, height, indices),
{
    if width < 1 || height < 1 {
        Some("Invalid export size".to_owned())
    } else if indices == 0 {
        Some("No surface to export".to_owned())
    } else {
        None
    }
}

impl Viewer {
    /// Sets how much the 3D view exaggerates heights.
    pub fn set_exaggeration(&mut self, v: Binary32)
        requires
            old(self).wf(),
        ensures
            final(self)@ == (Session { z_exaggeration: v, ..old(self)@ }),
            final(self).wf(),
    {
        self.z_exaggeration = v;
    }

    /// Puts the camera where it was at first.
    pub fn reset_camera(&mut self)
        requires
            old(self).wf(),
        ensures
            final(self)@ == (Session { camera: first_camera(), ..old(self)@ }),
            final(self).wf(),
    {
        self.camera = OrbitalCamera::default();
    }

    /// Says whether the mesh has to be made anew, and takes note that it will
    /// be.
    pub fn take_mesh_request(&mut self) -> (r: bool)
        requires
            old(self).wf(),
        ensures
            r == (old(self).image is Some && old(self).mesh_key != Some(key_of(old(self)@))),
            final(self)@ == (if r {
                Session { mesh_key: Some(key_of(old(self)@)), ..old(self)@ }
            } else {
                old(self)@
            }),
            final(self).wf(),
    {
        let key: MeshKey = MeshKey {
            generation: self.generation,
            colormap: self.colormap,
            z_min: self.z.min.bits,
            z_max: self.z.max.bits,
            exaggeration: self.z_exaggeration.bits,
        };
        let same: bool = match self.mesh_key {
            Some(k) => k == key,
            None => false,
        };
        if same || self.image.is_none() {
            return false;
        }
        self.mesh_key = Some(key);
        true
    }
}

/// After the mesh was made it is not asked for again until something that it
/// depends on changes.
pub proof fn law_mesh_is_made_once(s: Session)
    ensures
        ({
            let after = Session { mesh_key: Some(key_of(s)), ..s };
            after.mesh_key == Some(key_of(after))
        }),
{
}

// ---- messages ----

/// Something that was done, well or not.
pub enum Report {
    ImageSaved,
    ImageFailed(String),
    Copied,
    CopyFailed(String),
    CsvSaved,
    CsvFailed(String),
    PlotSaved,
    PlotFailed(String),
    /// A 3D image was saved under a path.
    SceneSaved(String),
    SceneFailed(String),
}

/// What is said of something that was done.
pub open spec fn message_of(r: Report, note: Option<Seq<char>>) -> Seq<char> {
    match r {
        Report::ImageSaved => with_note("Image saved."@, note),
        Report::ImageFailed(e) => "Save error: "@ + e@,
        Report::Copied => with_note("Copied to clipboard."@, note),
        Report::CopyFailed(e) => "Clipboard error: "@ + e@,
        Report::CsvSaved => "CSV saved."@,
        Report::CsvFailed(e) => "CSV error: "@ + e@,
        Report::PlotSaved => "PNG saved."@,
        Report::PlotFailed(e) => "PNG error: "@ + e@,
        Report::SceneSaved(path) => "3D image saved: "@ + path@,
        Report::SceneFailed(e) => "Export error: "@ + e@,
    }
}

/// A message with the note that goes with it.
pub open spec fn with_note(message: Seq<char>, note: Option<Seq<char>>) -> Seq<char> {
    match note {
        Some(n) => message + " ("@ + n + ")"@,
        None => message,
    }
}

/// The note on the aspect of the current image.
pub open spec fn note_of(image: Option<ImageModel>) -> Option<Seq<char>> {
    match image {
        Some(m) => if is_near_one(sample_aspect(m)) {
            None
        } else {
            Some(aspect_line(sample_aspect(m)))
        },
        None => None,
    }
}

fn add_note(message: &str, image: &Option<SpmImage>) -> (r: String)
    ensures
        r@ == with_note(message@, note_of(crate::viewer::image_view(*image))),
{
    let note: Option<String> = match image {
        Some(img) => aspect_note(img),
        None => None,
    };
    match note {
        Some(n) => message.to_owned().concat(" (").concat(n.as_str()).concat(")"),
        None => message.to_owned(),
    }
}

impl Viewer {
    /// Says what was done.
    pub fn report(&mut self, report: Report)
        requires
            old(self).wf(),
        ensures
            final(self)@ == (Session {
                status: message_of(report, note_of(old(self)@.image)),
                ..old(self)@
            }),
            final(self).wf(),
    {
        self.status = match &report {
            Report::ImageSaved => add_note("Image saved.", &self.image),
            Report::ImageFailed(e) => "Save error: ".to_owned().concat(e.as_str()),
            Report::Copied => add_note("Copied to clipboard.", &self.image),
            Report::CopyFailed(e) => "Clipboard error: ".to_owned().concat(e.as_str()),
            Report::CsvSaved => "CSV saved.".to_owned(),
            Report::CsvFailed(e) => "CSV error: ".to_owned().concat(e.as_str()),
            Report::PlotSaved => "PNG saved.".to_owned(),
            Report::PlotFailed(e) => "PNG error: ".to_owned().concat(e.as_str()),
            Report::SceneSaved(path) => "3D image saved: ".to_owned().concat(path.as_str()),
            Report::SceneFailed(e) => "Export error: ".to_owned().concat(e.as_str()),
        };
    }
}

} // verus!
