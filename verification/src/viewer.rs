//! The state of the viewer, and what each thing that happens does to it.
//!
//! Reading files, drawing and asking the user are the caller's; every decision
//! that follows from them is made here.

use crate::binary::Binary32;
use crate::calibration::{factors_of, id_key, Calibration, CalibrationTable};
use crate::camera::{first_camera, OrbitalCamera};
use crate::colormap::Colormap;
use crate::pointer::{home, line_is_sound, no_line, no_markers, LineTool, Markers, Viewport};
use crate::profile::{profile, surface_of};
use crate::rolling::{extremes, greatest, least, rolling_ball_subtract, subtracted};
use crate::spm::{calibrated, opt_view, ImageModel, SpmImage};
use vstd::prelude::*;

verus! {

// ---- the state ----

/// How a file is processed when it is loaded.
#[derive(Clone, Copy, PartialEq, Eq, Structural, Debug)]
pub struct Settings {
    pub flatten_order: Option<u32>,
    pub smooth_sigma: Binary32,
    pub rolling_ball: bool,
    pub rolling_ball_radius: u32,
}

/// The heights between which an image is coloured, and those it has.
#[derive(Clone, Copy, PartialEq, Eq, Structural, Debug)]
pub struct ZRange {
    pub min: Binary32,
    pub max: Binary32,
    pub data_min: Binary32,
    pub data_max: Binary32,
}

/// The tabs of the window.
#[derive(Clone, Copy, PartialEq, Eq, Structural, Debug)]
pub enum Tab {
    View,
    HeightAnalysis,
    Analysis,
    View3D,
}

/// The filters of the analysis tab.
#[derive(Clone, Copy, PartialEq, Eq, Structural, Debug)]
pub enum ProfileFilter {
    Off,
    Gaussian,
    Custom,
}

/// What the mesh of the 3D view was made from.
#[derive(Clone, Copy, PartialEq, Eq, Structural, Debug)]
pub struct MeshKey {
    pub generation: u64,
    pub colormap: Colormap,
    pub z_min: u32,
    pub z_max: u32,
    pub exaggeration: u32,
}

/// The state of the viewer.
pub struct Viewer {
    /// The file that is selected, by its place in the list.
    pub selected: Option<usize>,
    pub image: Option<SpmImage>,
    pub load_error: Option<String>,
    pub channel_idx: usize,
    pub colormap: Colormap,
    pub settings: Settings,
    pub z: ZRange,
    pub show_scale_bar: bool,
    pub tab: Tab,
    /// Shared by the tabs that show an image.
    pub view: Viewport,
    pub line: LineTool,
    pub profile: Vec<(Binary32, Binary32)>,
    pub status: String,
    pub markers: Markers,
    pub filter: ProfileFilter,
    pub filter_sigma: Binary32,
    pub kernel_text: String,
    pub kernel: Vec<Binary32>,
    /// Whether the filtered image has to be made anew.
    pub filter_stale: bool,
    pub camera: OrbitalCamera,
    pub z_exaggeration: Binary32,
    /// Counts the images that were loaded.
    pub generation: u64,
    pub mesh_key: Option<MeshKey>,
}

/// What the state of the viewer holds.
pub struct Session {
    pub selected: Option<usize>,
    pub image: Option<ImageModel>,
    pub load_error: Option<Seq<char>>,
    pub channel_idx: usize,
    pub colormap: Colormap,
    pub settings: Settings,
    pub z: ZRange,
    pub show_scale_bar: bool,
    pub tab: Tab,
    pub view: Viewport,
    pub line: LineTool,
    pub profile: Seq<(Binary32, Binary32)>,
    pub status: Seq<char>,
    pub markers: Markers,
    pub filter: ProfileFilter,
    pub filter_sigma: Binary32,
    pub kernel_text: Seq<char>,
    pub kernel: Seq<Binary32>,
    pub filter_stale: bool,
    pub camera: OrbitalCamera,
    pub z_exaggeration: Binary32,
    pub generation: u64,
    pub mesh_key: Option<MeshKey>,
}

pub open spec fn image_view(image: Option<SpmImage>) -> Option<ImageModel> {
    match image {
        Some(img) => Some(img@),
        None => None,
    }
}

/// The profile of a line on an image; empty until the line has both its ends.
pub open spec fn profile_of(m: ImageModel, l: LineTool) -> Seq<(Binary32, Binary32)> {
    match (l.p0, l.p1) {
        (Some(p0), Some(p1)) => profile(surface_of(m), p0, p1),
        _ => Seq::empty(),
    }
}

/// What holds of the state at all times: a shown image fills its grid, belongs
/// to the selected file and comes without an error, its profile is that of the
/// line, the line and the markers are sound, and the ball is of a size that the
/// controls allow.
pub open spec fn is_sound(s: Session) -> bool {
    &&& line_is_sound(s.line)
    &&& s.markers.b is Some ==> s.markers.a is Some
    &&& 1 <= s.settings.rolling_ball_radius <= 300
    &&& s.image matches Some(m) ==> {
        &&& m.data.len() == m.cols * m.rows
        &&& s.selected is Some
        &&& s.load_error is None
        &&& s.profile == profile_of(m, s.line)
    }
}

/// `0.6`: how much the 3D view exaggerates heights at first.
pub const FIRST_EXAGGERATION: u32 = 0x3f19_999a;

/// The state at first.
pub open spec fn first_session() -> Session {
    let (zero, one) = (Binary32::of_integer(0), Binary32::of_integer(1));
    Session {
        selected: None,
        image: None,
        load_error: None,
        channel_idx: 0,
        colormap: Colormap::AfmHot,
        settings: Settings {
            flatten_order: Some(2),
            smooth_sigma: zero,
            rolling_ball: false,
            rolling_ball_radius: 30,
        },
        z: ZRange { min: zero, max: one, data_min: zero, data_max: one },
        show_scale_bar: true,
        tab: Tab::View,
        view: home(),
        line: no_line(),
        profile: Seq::empty(),
        status: Seq::empty(),
        markers: no_markers(),
        filter: ProfileFilter::Off,
        filter_sigma: one,
        kernel_text: "1,2,1"@,
        kernel: seq![one, Binary32::of_integer(2), one],
        filter_stale: false,
        camera: first_camera(),
        z_exaggeration: Binary32 { bits: FIRST_EXAGGERATION },
        generation: 0,
        mesh_key: None,
    }
}

impl Viewer {
    pub open spec fn view(&self) -> Session {
        Session {
            selected: self.selected,
            image: image_view(self.image),
            load_error: opt_view(self.load_error),
            channel_idx: self.channel_idx,
            colormap: self.colormap,
            settings: self.settings,
            z: self.z,
            show_scale_bar: self.show_scale_bar,
            tab: self.tab,
            view: self.view,
            line: self.line,
            profile: self.profile@,
            status: self.status@,
            markers: self.markers,
            filter: self.filter,
            filter_sigma: self.filter_sigma,
            kernel_text: self.kernel_text@,
            kernel: self.kernel@,
            filter_stale: self.filter_stale,
            camera: self.camera,
            z_exaggeration: self.z_exaggeration,
            generation: self.generation,
            mesh_key: self.mesh_key,
        }
    }

    pub open spec fn wf(&self) -> bool {
        is_sound(self@)
    }

    /// The viewer at first.
    pub fn new() -> (r: Viewer)
        ensures
            r@ == first_session(),
            r.wf(),
    {
        let zero: Binary32 = Binary32::from_usize(0);
        let one: Binary32 = Binary32::from_usize(1);
        let kernel: Vec<Binary32> = vec![one, Binary32::from_usize(2), one];
        assert(kernel@ =~= first_session().kernel);
        let profile: Vec<(Binary32, Binary32)> = Vec::new();
        let status: String = String::new();
        assert(status@ =~= Seq::<char>::empty());
        Viewer {
            selected: None,
            image: None,
            load_error: None,
            channel_idx: 0,
            colormap: Colormap::AfmHot,
            settings: Settings {
                flatten_order: Some(2),
                smooth_sigma: zero,
                rolling_ball: false,
                rolling_ball_radius: 30,
            },
            z: ZRange { min: zero, max: one, data_min: zero, data_max: one },
            show_scale_bar: true,
            tab: Tab::View,
            view: Viewport::new(),
            line: LineTool::new(),
            profile,
            status,
            markers: Markers::new(),
            filter: ProfileFilter::Off,
            filter_sigma: one,
            kernel_text: "1,2,1".to_owned(),
            kernel,
            filter_stale: false,
            camera: OrbitalCamera::default(),
            z_exaggeration: Binary32 { bits: FIRST_EXAGGERATION },
            generation: 0,
            mesh_key: None,
        }
    }
}

// ---- loading ----

/// A folder was opened: nothing is selected any more.
pub open spec fn folder_opened(s: Session) -> Session {
    Session { selected: None, image: None, load_error: None, ..s }
}

/// What is to be loaded.
#[derive(Clone, Copy, PartialEq, Eq, Structural, Debug)]
pub struct LoadRequest {
    /// Whether the file was not the selected one.
    pub is_new: bool,
    pub channel: Option<usize>,
    pub flatten_order: Option<u32>,
    pub smooth_sigma: Binary32,
}

/// The request to load a file: the channel that was asked for; else the current
/// one for a file that is loaded again, and one chosen by its content for a new
/// file.
pub open spec fn load_request(s: Session, idx: usize, wanted: Option<Option<usize>>) -> LoadRequest {
    LoadRequest {
        is_new: s.selected != Some(idx),
        channel: match wanted {
            Some(ch) => ch,
            None => if s.selected != Some(idx) {
                None
            } else {
                Some(s.channel_idx)
            },
        },
        flatten_order: s.settings.flatten_order,
        smooth_sigma: s.settings.smooth_sigma,
    }
}

/// A file is about to be loaded: it is selected, and what belonged to the image
/// before it is dropped. The image itself stays until the outcome is known.
pub open spec fn load_begun(s: Session, idx: usize) -> Session {
    Session {
        selected: Some(idx),
        load_error: None,
        line: no_line(),
        profile: Seq::empty(),
        markers: no_markers(),
        view: home(),
        filter_stale: true,
        ..s
    }
}

/// The calibration of an image: that of its instrument.
pub open spec fn calibration_for(m: ImageModel, table: Map<Seq<char>, Calibration>) -> Calibration {
    match m.instrument {
        Some(id) => factors_of(table, id),
        None => Calibration::unity(),
    }
}

/// An image as it is shown: without its background if that is asked for, and
/// calibrated.
pub open spec fn prepared(m: ImageModel, set: Settings, cal: Calibration) -> ImageModel {
    let data = if set.rolling_ball {
        subtracted(m.data, m.cols, m.rows, set.rolling_ball_radius as int)
    } else {
        m.data
    };
    calibrated(ImageModel { data, ..m }, cal)
}

/// The range of the heights of an image.
pub open spec fn full_range(m: ImageModel) -> ZRange {
    let (lo, hi) = (least(m.data, m.data.len() as int), greatest(m.data, m.data.len() as int));
    ZRange { min: lo, max: hi, data_min: lo, data_max: hi }
}

/// The next number in a count that starts over at its end.
pub open spec fn next_count(n: u64) -> u64 {
    if n == u64::MAX {
        0
    } else {
        (n + 1) as u64
    }
}

/// A file was loaded.
pub open spec fn image_loaded(
    s: Session,
    is_new: bool,
    m: ImageModel,
    table: Map<Seq<char>, Calibration>,
) -> Session {
    let shown = prepared(m, s.settings, calibration_for(m, table));
    Session {
        image: Some(shown),
        z: full_range(shown),
        channel_idx: if is_new {
            m.channel_idx as usize
        } else {
            s.channel_idx
        },
        generation: next_count(s.generation),
        ..s
    }
}

/// A file could not be loaded.
pub open spec fn load_failed(s: Session, message: Seq<char>) -> Session {
    Session { image: None, load_error: Some(message), ..s }
}

proof fn lemma_prepared(m: ImageModel, set: Settings, cal: Calibration)
    requires
        m.data.len() == m.cols * m.rows,
        m.cols >= 0,
        m.rows >= 0,
    ensures
        prepared(m, set, cal).data.len() == m.cols * m.rows,
{
    assert(0 <= m.cols * m.rows) by (nonlinear_arith)
        requires
            m.cols >= 0,
            m.rows >= 0,
    ;
}

impl Viewer {
    /// Forgets the selection: another folder was opened.
    pub fn open_folder(&mut self)
        requires
            old(self).wf(),
        ensures
            final(self)@ == folder_opened(old(self)@),
            final(self).wf(),
    {
        self.selected = None;
        self.image = None;
        self.load_error = None;
    }

    /// Whether a click on a file in the list loads it.
    pub fn loads_on_click(&self, idx: usize) -> (r: bool)
        ensures
            r == (self.selected != Some(idx)),
    {
        match self.selected {
            Some(i) => i != idx,
            None => true,
        }
    }

    /// Begins to load a file; `wanted` is the channel that is asked for.
    pub fn begin_load(&mut self, idx: usize, wanted: Option<Option<usize>>) -> (r: LoadRequest)
        requires
            old(self).wf(),
        ensures
            final(self)@ == load_begun(old(self)@, idx),
            final(self).wf(),
            r == load_request(old(self)@, idx, wanted),
    {
        let is_new: bool = self.loads_on_click(idx);
        let channel: Option<usize> = match wanted {
            Some(ch) => ch,
            None => if is_new {
                None
            } else {
                Some(self.channel_idx)
            },
        };
        self.selected = Some(idx);
        self.load_error = None;
        self.line = LineTool::new();
        self.profile = Vec::new();
        self.markers = Markers::new();
        self.view = Viewport::new();
        self.filter_stale = true;
        assert(self@ == load_begun(old(self)@, idx));
        LoadRequest {
            is_new,
            channel,
            flatten_order: self.settings.flatten_order,
            smooth_sigma: self.settings.smooth_sigma,
        }
    }

    /// Takes in the outcome of loading a file.
    pub fn finish_load(
        &mut self,
        request: LoadRequest,
        outcome: Result<SpmImage, String>,
        table: &CalibrationTable,
    )
        requires
            old(self).wf(),
            table.wf(),
            outcome matches Ok(img) ==> img.wf(),
            old(self).selected is Some,
            old(self).load_error is None,
            old(self).line == no_line(),
            old(self).profile@.len() == 0,
        ensures
            match outcome {
                Ok(img) => final(self)@ == image_loaded(
                    old(self)@,
                    request.is_new,
                    img@,
                    table@,
                ),
                Err(e) => final(self)@ == load_failed(old(self)@, e@),
            },
            final(self).wf(),
    {
        match outcome {
            Ok(loaded) => {
                let ghost m = loaded@;
                let ghost before = self@;
                let mut img: SpmImage = loaded;
                if self.settings.rolling_ball {
                    let radius: usize = self.settings.rolling_ball_radius as usize;
                    img.data = rolling_ball_subtract(
                        img.data.as_slice(),
                        img.samps_per_line,
                        img.number_of_lines,
                        radius,
                    );
                }
                let cal: Calibration = match &img.instrument_id {
                    Some(id) => table.get(id.as_str()),
                    None => Calibration::unity(),
                };
                img.apply_calibration(cal);
                assert(img@ == prepared(m, before.settings, calibration_for(m, table@)));
                proof {
                    lemma_prepared(m, before.settings, cal);
                }
                let (lo, hi) = extremes(img.data.as_slice());
                self.z = ZRange { min: lo, max: hi, data_min: lo, data_max: hi };
                if request.is_new {
                    self.channel_idx = img.channel_idx;
                }
                self.image = Some(img);
                self.generation = if self.generation == u64::MAX {
                    0
                } else {
                    self.generation + 1
                };
                assert(self.profile@ =~= Seq::empty());
                assert(self@ == image_loaded(before, request.is_new, m, table@));
            },
            Err(e) => {
                self.image = None;
                self.load_error = Some(e);
            },
        }
    }
}

/// A file that is loaded again keeps its channel; a new file is shown in the
/// channel that its content suggests.
pub proof fn law_channel_is_kept_on_reload(
    s: Session,
    idx: usize,
    m: ImageModel,
    table: Map<Seq<char>, Calibration>,
)
    requires
        0 <= m.channel_idx <= usize::MAX,
    ensures
        ({
            let r = load_request(s, idx, None);
            let after = image_loaded(load_begun(s, idx), r.is_new, m, table);
            if s.selected == Some(idx) {
                r.channel == Some(s.channel_idx) && after.channel_idx == s.channel_idx
            } else {
                r.channel is None && after.channel_idx == m.channel_idx
            }
        }),
{
}

/// A file that cannot be loaded stays selected, shows its error and no image;
/// the settings and all that does not belong to the image are kept.
pub proof fn law_failed_load(s: Session, idx: usize, message: Seq<char>)
    ensures
        ({
            let after = load_failed(load_begun(s, idx), message);
            &&& after.selected == Some(idx)
            &&& after.image is None
            &&& after.load_error == Some(message)
            &&& after.settings == s.settings
            &&& after.colormap == s.colormap
            &&& after.channel_idx == s.channel_idx
            &&& after.generation == s.generation
        }),
{
}

/// An image of an instrument that is not registered is shown as it was
/// recorded, and one of a registered instrument with its factors.
pub proof fn law_calibration_follows_the_table(
    s: Session,
    is_new: bool,
    m: ImageModel,
    table: Map<Seq<char>, Calibration>,
)
    ensures
        image_loaded(s, is_new, m, table).image matches Some(shown) && shown.calibration
            == calibration_for(m, table) && shown.width_nm == m.width_nm.times(
            calibration_for(m, table).x,
        ) && shown.height_nm == m.height_nm.times(calibration_for(m, table).y),
        (m.instrument matches Some(id) ==> !table.dom().contains(id_key(id)))
            ==> calibration_for(m, table) == Calibration::unity(),
{
}

} // verus!
