//! Drawing on an image.

use crate::binary::Binary32;
use crate::colormap::{clamp_unit, unit_clamp};
use crate::float::Toward;
use crate::grid::lemma_place;
use crate::text::to_chars;
use vstd::prelude::*;

verus! {

/// A pixel: red, green, blue and opacity.
pub type Pixel = (u8, u8, u8, u8);

/// An image of the `image` crate: an `ImageBuffer` of `Rgba<u8>` pixels.
#[verifier::external_body]
pub struct Canvas {
    img: image::RgbaImage,
}

/// The pixels of an image, row by row.
pub uninterp spec fn canvas_pixels(c: Canvas) -> Seq<Pixel>;

/// The width of an image in pixels.
pub uninterp spec fn canvas_width(c: Canvas) -> u32;

/// The height of an image in pixels.
pub uninterp spec fn canvas_height(c: Canvas) -> u32;

/// The pixels that some bytes hold, four bytes each.
pub open spec fn pixels_in(bytes: Seq<u8>, n: nat) -> Seq<Pixel> {
    Seq::new(
        n,
        |i: int| (bytes[4 * i], bytes[4 * i + 1], bytes[4 * i + 2], bytes[4 * i + 3]),
    )
}

/// Rows of pixels in reverse order.
pub open spec fn flipped(pixels: Seq<Pixel>, w: int, h: int) -> Seq<Pixel> {
    Seq::new(pixels.len(), |k: int| pixels[(h - 1 - k / w) * w + k % w])
}

/// Whether an image of a size fits into `len` bytes: four bytes a pixel, and the
/// bytes of a row can be counted even if there is no row.
pub open spec fn fits(width: u32, height: u32, len: int) -> bool {
    4 * width <= usize::MAX && 4 * width * height <= len
}

impl Canvas {
    /// The pixels fill the image.
    pub open spec fn wf(&self) -> bool {
        canvas_pixels(*self).len() == canvas_width(*self) * canvas_height(*self)
    }

    pub open spec fn w(&self) -> int {
        canvas_width(*self) as int
    }

    pub open spec fn h(&self) -> int {
        canvas_height(*self) as int
    }

    pub open spec fn view(&self) -> Seq<Pixel> {
        canvas_pixels(*self)
    }

    /// `ImageBuffer::from_pixel`: an image of the given size, every pixel of
    /// which is the given one. It fails when the bytes of a row cannot be counted
    /// or the buffer would be larger than a vector can be.
    #[verifier::external_body]
    fn filled_with(width: u32, height: u32, p: Pixel) -> (r: Canvas)
        requires
            fits(width, height, isize::MAX as int),
        ensures
            canvas_width(r) == width,
            canvas_height(r) == height,
            canvas_pixels(r) == Seq::new((width * height) as nat, |i: int| p),
    {
        Canvas { img: image::RgbaImage::from_pixel(width, height, image::Rgba([p.0, p.1, p.2, p.3])) }
    }

    /// `ImageBuffer::from_raw`: the image of the given size whose pixels are the
    /// given bytes, four for each pixel, row by row; none when there are fewer
    /// bytes than that, or the bytes of a row cannot be counted.
    #[verifier::external_body]
    fn from_raw(width: u32, height: u32, bytes: Vec<u8>) -> (r: Option<Canvas>)
        ensures
            r is Some <==> fits(width, height, bytes@.len() as int),
            r matches Some(c) ==> canvas_width(c) == width && canvas_height(c) == height
                && canvas_pixels(c) == pixels_in(bytes@, (width * height) as nat),
    {
        match image::RgbaImage::from_raw(width, height, bytes) {
            Some(img) => Some(Canvas { img }),
            None => None,
        }
    }

    /// `ImageBuffer::into_raw`: the bytes of the pixels, four for each, row by
    /// row; bytes beyond the last pixel may follow.
    #[verifier::external_body]
    fn into_raw(self) -> (r: Vec<u8>)
        ensures
            r@.len() >= 4 * canvas_pixels(self).len(),
            pixels_in(r@, canvas_pixels(self).len()) == canvas_pixels(self),
    {
        self.img.into_raw()
    }

    /// `ImageBuffer::width`: the width of the image.
    #[verifier::external_body]
    fn get_width(&self) -> (r: u32)
        ensures
            r == canvas_width(*self),
    {
        self.img.width()
    }

    /// `ImageBuffer::height`: the height of the image.
    #[verifier::external_body]
    fn get_height(&self) -> (r: u32)
        ensures
            r == canvas_height(*self),
    {
        self.img.height()
    }

    /// `ImageBuffer::get_pixel`: the pixel in column `x` of row `y`. It fails
    /// outside the image.
    #[verifier::external_body]
    fn get_pixel(&self, x: u32, y: u32) -> (r: Pixel)
        requires
            x < canvas_width(*self),
            y < canvas_height(*self),
        ensures
            r == canvas_pixels(*self)[y * canvas_width(*self) + x],
    {
        let p: &image::Rgba<u8> = self.img.get_pixel(x, y);
        (p.0[0], p.0[1], p.0[2], p.0[3])
    }

    /// `ImageBuffer::put_pixel`: sets the pixel in column `x` of row `y` and
    /// leaves the others and the size alone. It fails outside the image.
    #[verifier::external_body]
    fn put_pixel(&mut self, x: u32, y: u32, p: Pixel)
        requires
            x < canvas_width(*old(self)),
            y < canvas_height(*old(self)),
        ensures
            canvas_width(*final(self)) == canvas_width(*old(self)),
            canvas_height(*final(self)) == canvas_height(*old(self)),
            canvas_pixels(*final(self)) == canvas_pixels(*old(self)).update(
                y * canvas_width(*old(self)) + x,
                p,
            ),
    {
        self.img.put_pixel(x, y, image::Rgba([p.0, p.1, p.2, p.3]));
    }

    /// `imageops::flip_vertical_in_place`: puts the rows of the image in
    /// reverse order and leaves its size alone.
    #[verifier::external_body]
    fn flip_rows(&mut self)
        ensures
            canvas_width(*final(self)) == canvas_width(*old(self)),
            canvas_height(*final(self)) == canvas_height(*old(self)),
            canvas_pixels(*final(self)) == flipped(
                canvas_pixels(*old(self)),
                canvas_width(*old(self)) as int,
                canvas_height(*old(self)) as int,
            ),
    {
        image::imageops::flip_vertical_in_place(&mut self.img);
    }

    /// An image of one colour.
    pub fn from_pixel(width: u32, height: u32, p: Pixel) -> (r: Canvas)
        requires
            fits(width, height, isize::MAX as int),
        ensures
            r.wf(),
            r.w() == width,
            r.h() == height,
            r@ == Seq::new((width * height) as nat, |i: int| p),
    {
        Canvas::filled_with(width, height, p)
    }

    /// The image that some bytes hold, four for each pixel; none when they are
    /// too few.
    pub fn from_bytes(width: u32, height: u32, bytes: Vec<u8>) -> (r: Option<Canvas>)
        ensures
            r is Some <==> fits(width, height, bytes@.len() as int),
            r matches Some(c) ==> c.wf() && c.w() == width && c.h() == height && c@ == pixels_in(
                bytes@,
                (width * height) as nat,
            ),
    {
        Canvas::from_raw(width, height, bytes)
    }

    /// The bytes of the image, four for each pixel, row by row; bytes beyond the
    /// last pixel may follow.
    pub fn into_bytes(self) -> (r: Vec<u8>)
        ensures
            r@.len() >= 4 * self@.len(),
            pixels_in(r@, self@.len()) == self@,
    {
        self.into_raw()
    }

    /// The width in pixels.
    pub fn width(&self) -> (r: u32)
        ensures
            r == self.w(),
    {
        self.get_width()
    }

    /// The height in pixels.
    pub fn height(&self) -> (r: u32)
        ensures
            r == self.h(),
    {
        self.get_height()
    }

    /// The pixel in column `x` of row `y`.
    pub fn pixel(&self, x: u32, y: u32) -> (r: Pixel)
        requires
            x < self.w(),
            y < self.h(),
        ensures
            r == self@[y * self.w() + x],
    {
        self.get_pixel(x, y)
    }

    /// Puts the rows in reverse order.
    pub fn flip_vertical(&mut self)
        ensures
            old(self).wf() ==> final(self).wf(),
            final(self).w() == old(self).w(),
            final(self).h() == old(self).h(),
            final(self)@ == flipped(old(self)@, old(self).w(), old(self).h()),
    {
        self.flip_rows();
    }
}

/// Flipping an image twice gives it back.
pub proof fn law_flip_twice(pixels: Seq<Pixel>, w: int, h: int)
    requires
        w >= 0,
        h >= 0,
        pixels.len() == w * h,
    ensures
        flipped(flipped(pixels, w, h), w, h) == pixels,
{
    let f = flipped(pixels, w, h);
    let g = flipped(f, w, h);
    assert forall|k: int| 0 <= k < pixels.len() implies g[k] == pixels[k] by {
        crate::grid::lemma_row_and_column(w, h, k);
        let (r, c) = (k / w, k % w);
        lemma_place(w, h, h - 1 - r, c);
        assert(h - 1 - (h - 1 - r) == r);
    }
    assert(g =~= pixels);
}

// ---- rectangles ----

/// Whether column `px` of row `py` lies in a rectangle.
pub open spec fn in_rect(px: int, py: int, x: int, y: int, w: int, h: int) -> bool {
    x <= px < x + w && y <= py < y + h
}

/// A level multiplied, without its fraction.
pub open spec fn dimmed_level(v: u8, keep: Binary32) -> u8 {
    Binary32::of_integer(v as int).times(keep).integer(Toward::Zero, 0, 255) as u8
}

/// A pixel that keeps a share of its light.
pub open spec fn dimmed_pixel(p: Pixel, keep: Binary32) -> Pixel {
    (dimmed_level(p.0, keep), dimmed_level(p.1, keep), dimmed_level(p.2, keep), p.3)
}

/// The share of its light that a pixel keeps when it is darkened by `amount`.
pub open spec fn kept(amount: Binary32) -> Binary32 {
    unit_clamp(Binary32::of_integer(1).minus(amount))
}

/// A level of which a share is covered by white.
pub open spec fn covered(v: u8, share: Binary32) -> u8 {
    Binary32::of_integer(v as int).times(Binary32::of_integer(1).minus(share)).plus(
        Binary32::of_integer(255).times(share),
    ).integer(Toward::Zero, 0, 255) as u8
}

fn cover_level(v: u8, share: Binary32) -> (r: u8)
    ensures
        r == covered(v, share),
{
    Binary32::from_usize(v as usize).times(Binary32::from_usize(1).minus(share)).plus(
        Binary32::from_usize(255).times(share),
    ).to_u8()
}

/// What is done to a pixel.
#[derive(Clone, Copy)]
pub enum Brush {
    /// It is replaced.
    Fill(Pixel),
    /// It keeps a share of its light.
    Dim(Binary32),
    /// A share of it is covered by white.
    Cover(Binary32),
}

impl Brush {
    pub open spec fn on(self, p: Pixel) -> Pixel {
        match self {
            Brush::Fill(c) => c,
            Brush::Dim(keep) => dimmed_pixel(p, keep),
            Brush::Cover(c) => (covered(p.0, c), covered(p.1, c), covered(p.2, c), p.3),
        }
    }

    fn apply(self, p: Pixel) -> (r: Pixel)
        ensures
            r == self.on(p),
    {
        match self {
            Brush::Fill(c) => c,
            Brush::Dim(keep) => (
                dim_level(p.0, keep),
                dim_level(p.1, keep),
                dim_level(p.2, keep),
                p.3,
            ),
            Brush::Cover(c) => (
                cover_level(p.0, c),
                cover_level(p.1, c),
                cover_level(p.2, c),
                p.3,
            ),
        }
    }
}

/// Pixels with those in a rectangle painted.
pub open spec fn painted(
    pixels: Seq<Pixel>,
    width: int,
    x: int,
    y: int,
    w: int,
    h: int,
    b: Brush,
) -> Seq<Pixel> {
    Seq::new(
        pixels.len(),
        |k: int|
            if in_rect(k % width, k / width, x, y, w, h) {
                b.on(pixels[k])
            } else {
                pixels[k]
            },
    )
}

fn end_of(from: u64, len: u64, limit: u32) -> (r: u32)
    requires
        from + len <= u64::MAX,
    ensures
        r == (if from + len < limit {
            from + len
        } else {
            limit as int
        }),
{
    if from + len < limit as u64 {
        (from + len) as u32
    } else {
        limit
    }
}

fn dim_level(v: u8, keep: Binary32) -> (r: u8)
    ensures
        r == dimmed_level(v, keep),
{
    Binary32::from_usize(v as usize).times(keep).to_u8()
}

/// Paints a rectangle, as far as it lies on the image.
fn paint_rect(img: &mut Canvas, x: u64, y: u64, w: u64, h: u64, b: Brush)
    requires
        old(img).wf(),
        x + w <= u64::MAX,
        y + h <= u64::MAX,
    ensures
        final(img).wf(),
        final(img).w() == old(img).w(),
        final(img).h() == old(img).h(),
        final(img)@ == painted(old(img)@, old(img).w(), x as int, y as int, w as int, h as int, b),
{
    let ghost start = img@;
    let (iw, ih) = (img.width(), img.height());
    let x1: u32 = end_of(x, w, iw);
    let y1: u32 = end_of(y, h, ih);
    let ghost goal = painted(start, iw as int, x as int, y as int, w as int, h as int, b);
    if x >= iw as u64 || y >= ih as u64 {
        proof {
            assert forall|k: int| 0 <= k < start.len() implies goal[k] == start[k] by {
                crate::grid::lemma_row_and_column(iw as int, ih as int, k);
            }
            assert(goal =~= start);
        }
        return;
    }
    let x0: u32 = x as u32;
    let y0: u32 = y as u32;
    let mut yy: u32 = y0;
    while yy < y1
        invariant
            y0 == y,
            x0 == x,
            x0 < iw,
            y0 <= yy,
            yy <= y1 || yy == y0,
            y1 <= ih,
            x1 <= iw,
            x1 <= x + w,
            y1 <= y + h,
            x1 == x + w || x1 == iw,
            y1 == y + h || y1 == ih,
            img.w() == iw,
            img.h() == ih,
            img@.len() == start.len(),
            start.len() == iw * ih,
            forall|k: int|
                0 <= k < start.len() ==> #[trigger] img@[k] == (if in_rect(
                    k % (iw as int),
                    k / (iw as int),
                    x as int,
                    y as int,
                    w as int,
                    yy - y,
                ) {
                    b.on(start[k])
                } else {
                    start[k]
                }),
        decreases y1 - yy,
    {
        let mut xx: u32 = x0;
        while xx < x1
            invariant
                y0 == y,
                x0 == x,
                x0 < iw,
                y0 <= yy < y1,
                x0 <= xx,
                xx <= x1 || xx == x0,
                y1 <= ih,
                x1 <= iw,
                x1 <= x + w,
                img.w() == iw,
                img.h() == ih,
                img@.len() == start.len(),
                start.len() == iw * ih,
                forall|k: int|
                    0 <= k < start.len() ==> #[trigger] img@[k] == (if in_rect(
                        k % (iw as int),
                        k / (iw as int),
                        x as int,
                        y as int,
                        w as int,
                        yy - y,
                    ) || in_rect(
                        k % (iw as int),
                        k / (iw as int),
                        x as int,
                        yy as int,
                        xx - x,
                        1,
                    ) {
                        b.on(start[k])
                    } else {
                        start[k]
                    }),
            decreases x1 - xx,
        {
            let ghost before = img@;
            proof {
                lemma_place(iw as int, ih as int, yy as int, xx as int);
            }
            let p: Pixel = img.get_pixel(xx, yy);
            assert(p == start[yy * iw + xx]);
            img.put_pixel(xx, yy, b.apply(p));
            proof {
                let at = yy * iw + xx;
                assert forall|k: int| 0 <= k < start.len() implies #[trigger] img@[k] == (if in_rect(
                    k % (iw as int),
                    k / (iw as int),
                    x as int,
                    y as int,
                    w as int,
                    yy - y,
                ) || in_rect(
                    k % (iw as int),
                    k / (iw as int),
                    x as int,
                    yy as int,
                    xx + 1 - x,
                    1,
                ) {
                    b.on(start[k])
                } else {
                    start[k]
                }) by {
                    crate::grid::lemma_row_and_column(iw as int, ih as int, k);
                    if k != at {
                        assert(img@[k] == before[k]);
                        assert(!(k % (iw as int) == xx && k / (iw as int) == yy));
                    }
                }
            }
            xx += 1;
        }
        proof {
            assert forall|k: int| 0 <= k < start.len() implies #[trigger] img@[k] == (if in_rect(
                k % (iw as int),
                k / (iw as int),
                x as int,
                y as int,
                w as int,
                yy + 1 - y,
            ) {
                b.on(start[k])
            } else {
                start[k]
            }) by {
                crate::grid::lemma_row_and_column(iw as int, ih as int, k);
            }
        }
        yy += 1;
    }
    proof {
        assert forall|k: int| 0 <= k < start.len() implies #[trigger] img@[k] == goal[k] by {
            crate::grid::lemma_row_and_column(iw as int, ih as int, k);
        }
        assert(img@ =~= goal);
    }
}

/// Pixels with those in a rectangle replaced.
pub open spec fn filled(
    pixels: Seq<Pixel>,
    width: int,
    x: int,
    y: int,
    w: int,
    h: int,
    c: Pixel,
) -> Seq<Pixel> {
    painted(pixels, width, x, y, w, h, Brush::Fill(c))
}

/// Fills a rectangle, as far as it lies on the image.
pub fn fill_rect(img: &mut Canvas, x: u64, y: u64, w: u64, h: u64, color: Pixel)
    requires
        old(img).wf(),
        x + w <= u64::MAX,
        y + h <= u64::MAX,
    ensures
        final(img).wf(),
        final(img).w() == old(img).w(),
        final(img).h() == old(img).h(),
        final(img)@ == filled(old(img)@, old(img).w(), x as int, y as int, w as int, h as int, color),
{
    paint_rect(img, x, y, w, h, Brush::Fill(color));
}

/// Darkens a rectangle, as far as it lies on the image.
pub fn darken_rect(img: &mut Canvas, x: u64, y: u64, w: u64, h: u64, amount: Binary32)
    requires
        old(img).wf(),
        x + w <= u64::MAX,
        y + h <= u64::MAX,
    ensures
        final(img).wf(),
        final(img).w() == old(img).w(),
        final(img).h() == old(img).h(),
        final(img)@ == painted(
            old(img)@,
            old(img).w(),
            x as int,
            y as int,
            w as int,
            h as int,
            Brush::Dim(kept(amount)),
        ),
{
    let keep: Binary32 = clamp_unit(Binary32::from_usize(1).minus(amount));
    paint_rect(img, x, y, w, h, Brush::Dim(keep));
}

/// Whether a position lies on an image.
pub open spec fn lies_on(x: int, y: int, w: int, h: int) -> bool {
    0 <= x < w && 0 <= y < h && w <= i32::MAX && h <= i32::MAX
}

/// Covers a share of a pixel by white, if it lies on the image.
pub fn blend_pixel(img: &mut Canvas, x: i32, y: i32, coverage: Binary32)
    requires
        old(img).wf(),
    ensures
        final(img).wf(),
        final(img).w() == old(img).w(),
        final(img).h() == old(img).h(),
        final(img)@ == (if lies_on(x as int, y as int, old(img).w(), old(img).h()) {
            painted(
                old(img)@,
                old(img).w(),
                x as int,
                y as int,
                1,
                1,
                Brush::Cover(unit_clamp(coverage)),
            )
        } else {
            old(img)@
        }),
{
    let (w, h) = (img.width(), img.height());
    if x < 0 || y < 0 || w > i32::MAX as u32 || h > i32::MAX as u32 {
        return;
    }
    if x as u32 >= w || y as u32 >= h {
        return;
    }
    paint_rect(img, x as u64, y as u64, 1, 1, Brush::Cover(clamp_unit(coverage)));
}

// ---- text ----

/// The sum of the first `n` advances.
pub open spec fn advance_sum(advances: Seq<Binary32>, n: int) -> Binary32
    decreases n,
{
    if n <= 0 {
        Binary32::of_integer(0)
    } else {
        advance_sum(advances, n - 1).plus(advances[n - 1])
    }
}

/// The size of a label in whole pixels: the advances of its glyphs, and the
/// height of its font.
pub fn label_size(advances: &[Binary32], px: Binary32) -> (r: (u32, u32))
    ensures
        r.0 == advance_sum(advances@, advances@.len() as int).integer(
            Toward::Ceil,
            0,
            u32::MAX as int,
        ),
        r.1 == px.integer(Toward::Ceil, 0, u32::MAX as int),
{
    let mut sum: Binary32 = Binary32::from_usize(0);
    let mut i: usize = 0;
    while i < advances.len()
        invariant
            i <= advances@.len(),
            sum == advance_sum(advances@, i as int),
        decreases advances@.len() - i,
    {
        sum = sum.plus(advances[i]);
        i += 1;
    }
    (sum.to_u32(Toward::Ceil), px.to_u32(Toward::Ceil))
}

/// The rows of a glyph, five columns each: digits, `n` and `m`; anything else
/// is blank. The leftmost column has the weight 16.
pub open spec fn glyph_rows(c: char) -> Seq<u8> {
    if c == '0' {
        seq![0x0Eu8, 0x11, 0x13, 0x15, 0x19, 0x11, 0x0E]
    } else if c == '1' {
        seq![0x04u8, 0x0C, 0x04, 0x04, 0x04, 0x04, 0x0E]
    } else if c == '2' {
        seq![0x0Eu8, 0x11, 0x01, 0x02, 0x04, 0x08, 0x1F]
    } else if c == '3' {
        seq![0x1Fu8, 0x02, 0x04, 0x02, 0x01, 0x11, 0x0E]
    } else if c == '4' {
        seq![0x02u8, 0x06, 0x0A, 0x12, 0x1F, 0x02, 0x02]
    } else if c == '5' {
        seq![0x1Fu8, 0x10, 0x1E, 0x01, 0x01, 0x11, 0x0E]
    } else if c == '6' {
        seq![0x06u8, 0x08, 0x10, 0x1E, 0x11, 0x11, 0x0E]
    } else if c == '7' {
        seq![0x1Fu8, 0x01, 0x02, 0x04, 0x08, 0x08, 0x08]
    } else if c == '8' {
        seq![0x0Eu8, 0x11, 0x11, 0x0E, 0x11, 0x11, 0x0E]
    } else if c == '9' {
        seq![0x0Eu8, 0x11, 0x11, 0x0F, 0x01, 0x02, 0x0C]
    } else if c == 'n' {
        seq![0x00u8, 0x00, 0x16, 0x19, 0x11, 0x11, 0x11]
    } else if c == 'm' {
        seq![0x00u8, 0x00, 0x1A, 0x15, 0x15, 0x15, 0x15]
    } else {
        seq![0u8, 0, 0, 0, 0, 0, 0]
    }
}

/// The bitmap of a character.
pub fn glyph(c: char) -> (r: [u8; 7])
    ensures
        r@ == glyph_rows(c),
{
    let r: [u8; 7] = match c {
        '0' => [0x0E, 0x11, 0x13, 0x15, 0x19, 0x11, 0x0E],
        '1' => [0x04, 0x0C, 0x04, 0x04, 0x04, 0x04, 0x0E],
        '2' => [0x0E, 0x11, 0x01, 0x02, 0x04, 0x08, 0x1F],
        '3' => [0x1F, 0x02, 0x04, 0x02, 0x01, 0x11, 0x0E],
        '4' => [0x02, 0x06, 0x0A, 0x12, 0x1F, 0x02, 0x02],
        '5' => [0x1F, 0x10, 0x1E, 0x01, 0x01, 0x11, 0x0E],
        '6' => [0x06, 0x08, 0x10, 0x1E, 0x11, 0x11, 0x0E],
        '7' => [0x1F, 0x01, 0x02, 0x04, 0x08, 0x08, 0x08],
        '8' => [0x0E, 0x11, 0x11, 0x0E, 0x11, 0x11, 0x0E],
        '9' => [0x0E, 0x11, 0x11, 0x0F, 0x01, 0x02, 0x0C],
        'n' => [0x00, 0x00, 0x16, 0x19, 0x11, 0x11, 0x11],
        'm' => [0x00, 0x00, 0x1A, 0x15, 0x15, 0x15, 0x15],
        _ => [0, 0, 0, 0, 0, 0, 0],
    };
    assert(r@ =~= glyph_rows(c));
    r
}

/// The weight of a column of a glyph.
pub open spec fn column_weight(col: int) -> u8 {
    if col == 0 {
        16
    } else if col == 1 {
        8
    } else if col == 2 {
        4
    } else if col == 3 {
        2
    } else {
        1
    }
}

/// Whether a row of a glyph is set in a column.
pub open spec fn is_set(bits: u8, col: int) -> bool {
    (bits / column_weight(col)) % 2 == 1
}

fn bit_set(bits: u8, col: u64) -> (r: bool)
    requires
        col < 5,
    ensures
        r == is_set(bits, col as int),
{
    let weight: u8 = match col {
        0 => 16,
        1 => 8,
        2 => 4,
        3 => 2,
        _ => 1,
    };
    (bits / weight) % 2 == 1
}

/// Pixels with the first `n` cells of a glyph drawn, five to a row, each `s`
/// pixels wide and high.
pub open spec fn glyph_drawn(
    pixels: Seq<Pixel>,
    width: int,
    x: int,
    y: int,
    rows: Seq<u8>,
    s: int,
    c: Pixel,
    n: int,
) -> Seq<Pixel>
    decreases n,
{
    if n <= 0 {
        pixels
    } else {
        let before = glyph_drawn(pixels, width, x, y, rows, s, c, n - 1);
        let (row, col) = ((n - 1) / 5, (n - 1) % 5);
        if is_set(rows[row], col) {
            filled(before, width, x + col * s, y + row * s, s, s, c)
        } else {
            before
        }
    }
}

/// Draws a character.
pub fn draw_glyph(img: &mut Canvas, x: u64, y: u64, c: char, s: u64, color: Pixel)
    requires
        old(img).wf(),
        x + 5 * s <= u64::MAX,
        y + 7 * s <= u64::MAX,
    ensures
        final(img).wf(),
        final(img).w() == old(img).w(),
        final(img).h() == old(img).h(),
        final(img)@ == glyph_drawn(
            old(img)@,
            old(img).w(),
            x as int,
            y as int,
            glyph_rows(c),
            s as int,
            color,
            35,
        ),
{
    let ghost start = img@;
    let ghost width = img.w();
    let rows: [u8; 7] = glyph(c);
    let mut row: u64 = 0;
    while row < 7
        invariant
            row <= 7,
            img.wf(),
            img.w() == width,
            img.h() == old(img).h(),
            rows@ == glyph_rows(c),
            x + 5 * s <= u64::MAX,
            y + 7 * s <= u64::MAX,
            img@ == glyph_drawn(
                start,
                width,
                x as int,
                y as int,
                rows@,
                s as int,
                color,
                5 * row as int,
            ),
        decreases 7 - row,
    {
        let bits: u8 = rows[row as usize];
        assert(row * s + s <= 7 * s) by (nonlinear_arith)
            requires
                row + 1 <= 7,
        ;
        let mut col: u64 = 0;
        while col < 5
            invariant
                row < 7,
                col <= 5,
                img.wf(),
                img.w() == width,
                img.h() == old(img).h(),
                bits == rows@[row as int],
                x + 5 * s <= u64::MAX,
                y + 7 * s <= u64::MAX,
                row * s + s <= 7 * s,
                img@ == glyph_drawn(
                    start,
                    width,
                    x as int,
                    y as int,
                    rows@,
                    s as int,
                    color,
                    5 * row + col,
                ),
            decreases 5 - col,
        {
            assert(col * s + s <= 5 * s) by (nonlinear_arith)
                requires
                    col + 1 <= 5,
            ;
            assert((5 * row + col) / 5 == row && (5 * row + col) % 5 == col);
            if bit_set(bits, col) {
                fill_rect(img, x + col * s, y + row * s, s, s, color);
            }
            col += 1;
        }
        row += 1;
    }
}

/// Pixels with a text drawn, six cells to a character.
pub open spec fn text_drawn(
    pixels: Seq<Pixel>,
    width: int,
    x: int,
    y: int,
    text: Seq<char>,
    s: int,
    c: Pixel,
) -> Seq<Pixel>
    decreases text.len(),
{
    if text.len() == 0 {
        pixels
    } else {
        glyph_drawn(
            text_drawn(pixels, width, x, y, text.drop_last(), s, c),
            width,
            x + 6 * s * (text.len() - 1),
            y,
            glyph_rows(text.last()),
            s,
            c,
            35,
        )
    }
}

/// Draws a text.
pub fn draw_text(img: &mut Canvas, x: u64, y: u64, text: &str, s: u64, color: Pixel)
    requires
        old(img).wf(),
        x + 6 * s * text@.len() <= u64::MAX,
        y + 7 * s <= u64::MAX,
    ensures
        final(img).wf(),
        final(img).w() == old(img).w(),
        final(img).h() == old(img).h(),
        final(img)@ == text_drawn(
            old(img)@,
            old(img).w(),
            x as int,
            y as int,
            text@,
            s as int,
            color,
        ),
{
    let ghost start = img@;
    let ghost width = img.w();
    let chars: Vec<char> = to_chars(text);
    let mut cx: u64 = x;
    let mut i: usize = 0;
    assert(chars@.take(0).len() == 0);
    assert(6 * s * 0 == 0);
    while i < chars.len()
        invariant
            i <= chars@.len(),
            chars@ == text@,
            img.wf(),
            img.w() == width,
            img.h() == old(img).h(),
            x + 6 * s * text@.len() <= u64::MAX,
            y + 7 * s <= u64::MAX,
            cx == x + 6 * s * i,
            img@ == text_drawn(
                start,
                width,
                x as int,
                y as int,
                chars@.take(i as int),
                s as int,
                color,
            ),
        decreases chars@.len() - i,
    {
        proof {
            let t = chars@.take(i as int + 1);
            assert(t.drop_last() == chars@.take(i as int));
            assert(t.last() == chars@[i as int]);
            let n = text@.len();
            assert(6 * s * (i + 1) == 6 * s * i + 6 * s) by (nonlinear_arith);
            assert(6 * s * (i + 1) <= 6 * s * n) by (nonlinear_arith)
                requires
                    i + 1 <= n,
            ;
        }
        draw_glyph(img, cx, y, chars[i], s, color);
        cx += 6 * s;
        i += 1;
    }
    assert(chars@.take(i as int) == text@);
}

/// The width of a text in pixels: six cells to a character.
pub fn text_width(text: &str, s: u32) -> (r: u32)
    requires
        text@.len() * 6 <= u32::MAX,
        text@.len() * 6 * s <= u32::MAX,
    ensures
        r == text@.len() * 6 * s,
{
    let chars: Vec<char> = to_chars(text);
    chars.len() as u32 * 6 * s
}

} // verus!
