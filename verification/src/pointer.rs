//! What the pointer does on an image: panning, zooming, and drawing a line.
//!
//! The distances of the pointer from the handles of the line come from the
//! caller; everything that follows from them is decided here.

use crate::binary::{Binary32, Binary64};
use crate::camera::{confine, confined};
use crate::colormap::{clamp_unit, unit_clamp};
use crate::mesh::{half, HALF};
use crate::order::{
    is_exact_product, is_exact_sum, law_exact_product_is_undone, law_exact_sum_is_undone,
};
use crate::profile::Point;
use crate::text::to_text;
use vstd::prelude::*;

verus! {

// ---- panning and zooming ----

/// `0.001`: how much one unit of scrolling zooms.
pub const SCROLL_SPEED: u32 = 0x3a83_126f;

/// `0.8`.
pub const MIN_STEP: u32 = 0x3f4c_cccd;

/// `1.25`.
pub const MAX_STEP: u32 = 0x3fa0_0000;

/// `0.1`.
pub const MIN_ZOOM: u32 = 0x3dcc_cccd;

/// `50`.
pub const MAX_ZOOM: u32 = 0x4248_0000;

/// The area that an image is shown in: its centre and its size on the screen.
#[derive(Clone, Copy, PartialEq, Eq, Structural, Debug)]
pub struct Area {
    pub center_x: Binary32,
    pub center_y: Binary32,
    pub width: Binary32,
    pub height: Binary32,
}

/// A zoom factor, and how far the image is moved, in screen units.
#[derive(Clone, Copy, PartialEq, Eq, Structural, Debug)]
pub struct Viewport {
    pub zoom: Binary32,
    pub pan_x: Binary32,
    pub pan_y: Binary32,
}

/// The image as a whole, in its place.
pub open spec fn home() -> Viewport {
    Viewport {
        zoom: Binary32::of_integer(1),
        pan_x: Binary32::of_integer(0),
        pan_y: Binary32::of_integer(0),
    }
}

/// A view moved by some screen units.
pub open spec fn moved(v: Viewport, dx: Binary32, dy: Binary32) -> Viewport {
    Viewport { zoom: v.zoom, pan_x: v.pan_x.plus(dx), pan_y: v.pan_y.plus(dy) }
}

/// The factor that an amount of scrolling stands for.
pub open spec fn zoom_step(scroll: Binary32) -> Binary32 {
    confined(
        Binary32::of_integer(1).plus(scroll.times(Binary32 { bits: SCROLL_SPEED })),
        Binary32 { bits: MIN_STEP },
        Binary32 { bits: MAX_STEP },
    )
}

pub open spec fn zoomed(zoom: Binary32, factor: Binary32) -> Binary32 {
    confined(zoom.times(factor), Binary32 { bits: MIN_ZOOM }, Binary32 { bits: MAX_ZOOM })
}

/// A coordinate of the pan that keeps the spot under the cursor in its place.
pub open spec fn pan_toward(
    cursor: Binary32,
    center: Binary32,
    pan: Binary32,
    factor: Binary32,
) -> Binary32 {
    let from_center = cursor.minus(center);
    from_center.minus(from_center.minus(pan).times(factor))
}

/// A view after scrolling: zoomed toward the cursor, if it is known.
pub open spec fn scrolled(
    v: Viewport,
    scroll: Binary32,
    hovered: bool,
    cursor: Option<Point>,
    a: Area,
) -> Viewport {
    if scroll.equals(Binary32::of_integer(0)) || !hovered {
        v
    } else {
        let factor = zoom_step(scroll);
        match cursor {
            Some(c) => Viewport {
                zoom: zoomed(v.zoom, factor),
                pan_x: pan_toward(c.x, a.center_x, v.pan_x, factor),
                pan_y: pan_toward(c.y, a.center_y, v.pan_y, factor),
            },
            None => Viewport { zoom: zoomed(v.zoom, factor), pan_x: v.pan_x, pan_y: v.pan_y },
        }
    }
}

fn toward(cursor: Binary32, center: Binary32, pan: Binary32, factor: Binary32) -> (r: Binary32)
    ensures
        r == pan_toward(cursor, center, pan, factor),
{
    let from_center: Binary32 = cursor.minus(center);
    from_center.minus(from_center.minus(pan).times(factor))
}

impl Viewport {
    /// The image as a whole, in its place.
    pub fn new() -> (r: Viewport)
        ensures
            r == home(),
    {
        Viewport {
            zoom: Binary32::from_usize(1),
            pan_x: Binary32::from_usize(0),
            pan_y: Binary32::from_usize(0),
        }
    }

    /// Moves the image.
    pub fn drag(&mut self, dx: Binary32, dy: Binary32)
        ensures
            *final(self) == moved(*old(self), dx, dy),
    {
        self.pan_x = self.pan_x.plus(dx);
        self.pan_y = self.pan_y.plus(dy);
    }

    /// Zooms the image, toward the cursor if it is known.
    pub fn scroll(&mut self, scroll: Binary32, hovered: bool, cursor: Option<Point>, area: Area)
        ensures
            *final(self) == scrolled(*old(self), scroll, hovered, cursor, area),
    {
        if scroll.equals(Binary32::from_usize(0)) || !hovered {
            return;
        }
        let factor: Binary32 = confine(
            Binary32::from_usize(1).plus(scroll.times(Binary32 { bits: SCROLL_SPEED })),
            Binary32 { bits: MIN_STEP },
            Binary32 { bits: MAX_STEP },
        );
        let zoom: Binary32 = confine(
            self.zoom.times(factor),
            Binary32 { bits: MIN_ZOOM },
            Binary32 { bits: MAX_ZOOM },
        );
        match cursor {
            Some(c) => {
                self.pan_x = toward(c.x, area.center_x, self.pan_x, factor);
                self.pan_y = toward(c.y, area.center_y, self.pan_y, factor);
            },
            None => {},
        }
        self.zoom = zoom;
    }
}

/// Zooming never leaves its range.
pub proof fn law_zoom_is_confined(
    v: Viewport,
    scroll: Binary32,
    hovered: bool,
    cursor: Option<Point>,
    a: Area,
)
    requires
        !v.zoom.below(Binary32 { bits: MIN_ZOOM }),
        !(Binary32 { bits: MAX_ZOOM }).below(v.zoom),
    ensures
        !scrolled(v, scroll, hovered, cursor, a).zoom.below(Binary32 { bits: MIN_ZOOM }),
        !(Binary32 { bits: MAX_ZOOM }).below(scrolled(v, scroll, hovered, cursor, a).zoom),
{
}

// ---- places ----

/// The upper left corner of an image on one axis.
pub open spec fn origin(center: Binary32, pan: Binary32, size: Binary32, zoom: Binary32) -> Binary32 {
    center.plus(pan).minus(size.times(zoom).times(half()))
}

/// The upper left corner of an image.
pub open spec fn origin_of(a: Area, v: Viewport) -> Point {
    Point {
        x: origin(a.center_x, v.pan_x, a.width, v.zoom),
        y: origin(a.center_y, v.pan_y, a.height, v.zoom),
    }
}

/// Where a point of an image is on the screen.
pub open spec fn on_screen(p: Point, a: Area, v: Viewport) -> Point {
    Point {
        x: origin_of(a, v).x.plus(p.x.times(a.width.times(v.zoom))),
        y: origin_of(a, v).y.plus(p.y.times(a.height.times(v.zoom))),
    }
}

/// The point of an image that is at a place on the screen.
pub open spec fn on_image(s: Point, a: Area, v: Viewport) -> Point {
    Point {
        x: s.x.minus(origin_of(a, v).x).over(a.width.times(v.zoom)),
        y: s.y.minus(origin_of(a, v).y).over(a.height.times(v.zoom)),
    }
}

/// A point moved onto the image.
pub open spec fn onto_image(p: Point) -> Point {
    Point { x: unit_clamp(p.x), y: unit_clamp(p.y) }
}

/// The upper left corner of an image on the screen.
pub fn image_origin(area: Area, view: Viewport) -> (r: Point)
    ensures
        r == origin_of(area, view),
{
    let h: Binary32 = Binary32 { bits: HALF };
    Point {
        x: area.center_x.plus(view.pan_x).minus(area.width.times(view.zoom).times(h)),
        y: area.center_y.plus(view.pan_y).minus(area.height.times(view.zoom).times(h)),
    }
}

/// Where a point of an image is on the screen.
pub fn frac_to_screen(frac: Point, area: Area, view: Viewport) -> (r: Point)
    ensures
        r == on_screen(frac, area, view),
{
    let o: Point = image_origin(area, view);
    Point {
        x: o.x.plus(frac.x.times(area.width.times(view.zoom))),
        y: o.y.plus(frac.y.times(area.height.times(view.zoom))),
    }
}

/// The point of an image that is at a place on the screen.
pub fn screen_to_frac(pos: Point, area: Area, view: Viewport) -> (r: Point)
    ensures
        r == on_image(pos, area, view),
{
    let o: Point = image_origin(area, view);
    Point {
        x: pos.x.minus(o.x).over(area.width.times(view.zoom)),
        y: pos.y.minus(o.y).over(area.height.times(view.zoom)),
    }
}

/// One axis of [`law_screen_and_back`].
proof fn lemma_axis_and_back(f: Binary32, o: Binary32, size: Binary32)
    requires
        Binary32::of_integer(0).below(size),
        is_exact_product(f, size),
        is_exact_sum(o, f.times(size)),
    ensures
        o.plus(f.times(size)).minus(o).over(size).equals(f),
{
    law_exact_sum_is_undone(o, f.times(size));
    law_exact_product_is_undone(f, size, o.plus(f.times(size)).minus(o));
}

/// Mapping a point of an image to the screen and back gives the point again,
/// where neither its distance from the corner nor its place is rounded.
pub proof fn law_screen_and_back(p: Point, a: Area, v: Viewport)
    requires
        Binary32::of_integer(0).below(a.width.times(v.zoom)),
        Binary32::of_integer(0).below(a.height.times(v.zoom)),
        is_exact_product(p.x, a.width.times(v.zoom)),
        is_exact_product(p.y, a.height.times(v.zoom)),
        is_exact_sum(origin_of(a, v).x, p.x.times(a.width.times(v.zoom))),
        is_exact_sum(origin_of(a, v).y, p.y.times(a.height.times(v.zoom))),
    ensures
        on_image(on_screen(p, a, v), a, v).x.equals(p.x),
        on_image(on_screen(p, a, v), a, v).y.equals(p.y),
{
    lemma_axis_and_back(p.x, origin_of(a, v).x, a.width.times(v.zoom));
    lemma_axis_and_back(p.y, origin_of(a, v).y, a.height.times(v.zoom));
}

fn point_onto_image(p: Point) -> (r: Point)
    ensures
        r == onto_image(p),
{
    Point { x: clamp_unit(p.x), y: clamp_unit(p.y) }
}

// ---- the line ----

/// `14`: how near to a handle the pointer takes hold of it.
pub const GRAB_RADIUS: u32 = 0x4160_0000;

/// An end of the line.
#[derive(Clone, Copy, PartialEq, Eq, Structural, Debug)]
pub enum Handle {
    Start,
    End,
}

/// The line of a profile, and the handle that is being dragged.
#[derive(Clone, Copy, PartialEq, Eq, Structural, Debug)]
pub struct LineTool {
    pub p0: Option<Point>,
    pub p1: Option<Point>,
    pub dragged: Option<Handle>,
}

/// No line.
pub open spec fn no_line() -> LineTool {
    LineTool { p0: None, p1: None, dragged: None }
}

/// Whether a handle is there and the pointer is near it.
pub open spec fn is_near(p: Option<Point>, distance: Binary32) -> bool {
    p is Some && distance.below(Binary32 { bits: GRAB_RADIUS })
}

/// The handle that the pointer takes hold of: the start before the end.
pub open spec fn grabbed(l: LineTool, d0: Binary32, d1: Binary32) -> Option<Handle> {
    if is_near(l.p0, d0) {
        Some(Handle::Start)
    } else if is_near(l.p1, d1) {
        Some(Handle::End)
    } else {
        None
    }
}

/// A line with a handle moved.
pub open spec fn handle_moved(l: LineTool, h: Handle, p: Point) -> LineTool {
    match h {
        Handle::Start => LineTool { p0: Some(p), p1: l.p1, dragged: l.dragged },
        Handle::End => LineTool { p0: l.p0, p1: Some(p), dragged: l.dragged },
    }
}

/// What a click on the image does.
#[derive(Clone, Copy, PartialEq, Eq, Structural, Debug)]
pub enum Click {
    /// Nothing: it landed on a handle, or one is being dragged.
    Ignored,
    /// It set the start of a new line.
    Started,
    /// It set the end of the line.
    Ended,
}

/// Whether a click begins a new line.
pub open spec fn begins(l: LineTool) -> bool {
    l.p0 is None || l.p1 is Some
}

/// What a click does to a line.
pub open spec fn clicked(l: LineTool, p: Point, d0: Binary32, d1: Binary32) -> (LineTool, Click) {
    if l.dragged is Some || is_near(l.p0, d0) || is_near(l.p1, d1) {
        (l, Click::Ignored)
    } else if begins(l) {
        (LineTool { p0: Some(p), p1: None, dragged: None }, Click::Started)
    } else {
        (LineTool { p0: l.p0, p1: Some(p), dragged: None }, Click::Ended)
    }
}

fn near(p: Option<Point>, distance: Binary32) -> (r: bool)
    ensures
        r == is_near(p, distance),
{
    p.is_some() && distance.below(Binary32 { bits: GRAB_RADIUS })
}

impl LineTool {
    /// No line.
    pub fn new() -> (r: LineTool)
        ensures
            r == no_line(),
    {
        LineTool { p0: None, p1: None, dragged: None }
    }

    /// A drag starts; `d0` and `d1` are the distances of the pointer from the
    /// handles.
    pub fn drag_started(&mut self, d0: Binary32, d1: Binary32)
        ensures
            *final(self) == (LineTool { dragged: grabbed(*old(self), d0, d1), ..*old(self) }),
    {
        self.dragged = if near(self.p0, d0) {
            Some(Handle::Start)
        } else if near(self.p1, d1) {
            Some(Handle::End)
        } else {
            None
        };
    }

    /// The pointer is dragged to a place on the screen; says whether a handle
    /// went with it.
    pub fn drag_to(&mut self, pos: Point, area: Area, view: Viewport) -> (r: bool)
        ensures
            r == old(self).dragged is Some,
            match old(self).dragged {
                Some(h) => *final(self) == handle_moved(
                    *old(self),
                    h,
                    onto_image(on_image(pos, area, view)),
                ),
                None => *final(self) == *old(self),
            },
    {
        match self.dragged {
            Some(h) => {
                let p: Point = point_onto_image(screen_to_frac(pos, area, view));
                match h {
                    Handle::Start => {
                        self.p0 = Some(p);
                    },
                    Handle::End => {
                        self.p1 = Some(p);
                    },
                }
                true
            },
            None => false,
        }
    }

    /// A drag ends.
    pub fn drag_stopped(&mut self)
        ensures
            *final(self) == (LineTool { dragged: None, ..*old(self) }),
    {
        self.dragged = None;
    }

    /// A click at a place on the screen; `d0` and `d1` are the distances of the
    /// pointer from the handles.
    pub fn click(
        &mut self,
        pos: Point,
        area: Area,
        view: Viewport,
        d0: Binary32,
        d1: Binary32,
    ) -> (r: Click)
        ensures
            (*final(self), r) == clicked(
                *old(self),
                onto_image(on_image(pos, area, view)),
                d0,
                d1,
            ),
    {
        if self.dragged.is_some() || near(self.p0, d0) || near(self.p1, d1) {
            return Click::Ignored;
        }
        let p: Point = point_onto_image(screen_to_frac(pos, area, view));
        if self.p0.is_none() || self.p1.is_some() {
            self.p0 = Some(p);
            self.p1 = None;
            Click::Started
        } else {
            self.p1 = Some(p);
            Click::Ended
        }
    }

    /// Whether the pointer is near a handle.
    pub fn is_near_handle(&self, d0: Binary32, d1: Binary32) -> (r: bool)
        ensures
            r == (is_near(self.p0, d0) || is_near(self.p1, d1)),
    {
        near(self.p0, d0) || near(self.p1, d1)
    }
}

/// A line never has an end without a start.
pub open spec fn line_is_sound(l: LineTool) -> bool {
    &&& l.p1 is Some ==> l.p0 is Some
    &&& l.dragged == Some(Handle::Start) ==> l.p0 is Some
    &&& l.dragged == Some(Handle::End) ==> l.p1 is Some
}

/// Whatever the pointer does, a line never has an end without a start, and only
/// a handle that is there is dragged.
pub proof fn law_line_stays_sound(l: LineTool, p: Point, d0: Binary32, d1: Binary32)
    requires
        line_is_sound(l),
    ensures
        line_is_sound(no_line()),
        line_is_sound(LineTool { dragged: grabbed(l, d0, d1), ..l }),
        l.dragged matches Some(h) ==> line_is_sound(handle_moved(l, h, p)),
        line_is_sound(LineTool { dragged: None, ..l }),
        line_is_sound(clicked(l, p, d0, d1).0),
{
}

/// Two clicks away from the handles draw a line: the first sets its start, the
/// second its end, and a third begins anew.
pub proof fn law_clicks_alternate(a: Point, b: Point, c: Point, d: Binary32)
    requires
        !d.below(Binary32 { bits: GRAB_RADIUS }),
    ensures
        ({
            let (l1, c1) = clicked(no_line(), a, d, d);
            let (l2, c2) = clicked(l1, b, d, d);
            let (l3, c3) = clicked(l2, c, d, d);
            &&& c1 == Click::Started && l1 == (LineTool { p0: Some(a), p1: None, dragged: None })
            &&& c2 == Click::Ended && l2 == (LineTool { p0: Some(a), p1: Some(b), dragged: None })
            &&& c3 == Click::Started && l3 == (LineTool { p0: Some(c), p1: None, dragged: None })
        }),
{
}

// ---- markers ----

/// The two markers of a profile's plot, as distances in nanometres.
#[derive(Clone, Copy, PartialEq, Eq, Structural, Debug)]
pub struct Markers {
    pub a: Option<Binary64>,
    pub b: Option<Binary64>,
}

/// No markers.
pub open spec fn no_markers() -> Markers {
    Markers { a: None, b: None }
}

/// Markers after a click: A first, then B, then A anew.
pub open spec fn marked(m: Markers, x: Binary64) -> Markers {
    if m.a is None || m.b is Some {
        Markers { a: Some(x), b: None }
    } else {
        Markers { a: m.a, b: Some(x) }
    }
}

impl Markers {
    /// No markers.
    pub fn new() -> (r: Markers)
        ensures
            r == no_markers(),
    {
        Markers { a: None, b: None }
    }

    /// A click on the plot.
    pub fn click(&mut self, x: Binary64)
        ensures
            *final(self) == marked(*old(self), x),
    {
        if self.a.is_none() || self.b.is_some() {
            self.a = Some(x);
            self.b = None;
        } else {
            self.b = Some(x);
        }
    }
}

/// There is never a marker B without a marker A.
pub proof fn law_markers_in_order(m: Markers, x: Binary64)
    requires
        m.b is Some ==> m.a is Some,
    ensures
        marked(m, x).b is Some ==> marked(m, x).a is Some,
        marked(marked(no_markers(), x), x) == (Markers { a: Some(x), b: Some(x) }),
{
}

/// The text of a marker.
pub open spec fn marker_line(letter: Seq<char>, x: Binary64, h: Binary64) -> Seq<char> {
    letter + "  "@ + x.fixed(2) + " nm,  "@ + h.fixed(3) + " nm"@
}

/// The text of the distance between the markers.
pub open spec fn distance_line(a: Binary64, b: Binary64) -> Seq<char> {
    "ΔD = "@ + b.minus(a).signed_fixed(2) + " nm"@
}

/// The text of the height difference between the markers.
pub open spec fn difference_line(a: Binary64, b: Binary64) -> Seq<char> {
    "ΔH = "@ + b.minus(a).signed_fixed(3) + " nm"@
}

/// Writes the text of a marker.
pub fn marker_text(letter: &str, x: Binary64, h: Binary64) -> (r: String)
    ensures
        r@ == marker_line(letter@, x, h),
{
    let xs: Vec<char> = x.to_fixed(2);
    let hs: Vec<char> = h.to_fixed(3);
    letter.to_owned().concat("  ").concat(to_text(xs.as_slice()).as_str()).concat(
        " nm,  ",
    ).concat(to_text(hs.as_slice()).as_str()).concat(" nm")
}

/// Writes the distance between the markers.
pub fn distance_text(a: Binary64, b: Binary64) -> (r: String)
    ensures
        r@ == distance_line(a, b),
{
    let d: Vec<char> = b.minus(a).to_signed_fixed(2);
    "ΔD = ".to_owned().concat(to_text(d.as_slice()).as_str()).concat(" nm")
}

/// Writes the height difference between the markers.
pub fn difference_text(a: Binary64, b: Binary64) -> (r: String)
    ensures
        r@ == difference_line(a, b),
{
    let d: Vec<char> = b.minus(a).to_signed_fixed(3);
    "ΔH = ".to_owned().concat(to_text(d.as_slice()).as_str()).concat(" nm")
}

} // verus!
