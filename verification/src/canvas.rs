use vstd::prelude::*;

use crate::color::Rgba;

verus! {

/// An RGBA image being drawn: the pixel buffer of the `image` crate, held so
/// that the drawing code speaks of it only through the contracts below.
#[verifier::external_body]
pub struct Canvas {
    img: image::RgbaImage,
}

/// The pixels of a canvas, by `(x, y)` position, as RGBA channel values.
pub uninterp spec fn canvas_pixels(c: Canvas) -> Map<(u32, u32), [u8; 4]>;

/// The width and height a canvas was made with.
pub uninterp spec fn canvas_dims(c: Canvas) -> (u32, u32);

/// Whether `p` is a pixel position of a `w` x `h` image.
pub open spec fn in_bounds(w: u32, h: u32, p: (u32, u32)) -> bool {
    p.0 < w && p.1 < h
}

/// The pixel positions of a `w` x `h` image.
pub open spec fn positions(w: u32, h: u32) -> Set<(u32, u32)> {
    Set::new(|p: (u32, u32)| in_bounds(w, h, p))
}

/// The image of size `w` x `h` whose pixel at `p` is `f(p)`.
pub open spec fn image_of(w: u32, h: u32, f: spec_fn((u32, u32)) -> [u8; 4]) -> Map<
    (u32, u32),
    [u8; 4],
> {
    Map::new(|p: (u32, u32)| in_bounds(w, h, p), f)
}

/// Whether a `w` x `h` RGBA buffer fits in a `Vec` (the `image` crate panics
/// otherwise).
pub open spec fn buffer_fits(w: u32, h: u32) -> bool {
    4 * w * h <= isize::MAX
}

impl Canvas {
    pub open spec fn pixels(self) -> Map<(u32, u32), [u8; 4]> {
        canvas_pixels(self)
    }

    pub open spec fn spec_width(self) -> u32 {
        canvas_dims(self).0
    }

    pub open spec fn spec_height(self) -> u32 {
        canvas_dims(self).1
    }

    /// There is a pixel at every position inside the size, and none outside.
    pub open spec fn wf(self) -> bool {
        self.pixels().dom() == positions(self.spec_width(), self.spec_height())
    }

    /// The pixel at `(x, y)`.
    pub open spec fn at(self, x: u32, y: u32) -> [u8; 4] {
        self.pixels()[(x, y)]
    }

    /// A `width` x `height` canvas with every pixel set to `color`.
    pub fn from_pixel(width: u32, height: u32, color: Rgba) -> (c: Canvas)
        requires
            buffer_fits(width, height),
        ensures
            c.wf(),
            c.spec_width() == width,
            c.spec_height() == height,
            c.pixels() == image_of(width, height, |p: (u32, u32)| color.0),
    {
        let c = buffer_from_pixel(width, height, color.0);
        assert(c.pixels() =~= image_of(width, height, |p: (u32, u32)| color.0));
        c
    }

    /// A `width` x `height` canvas with every channel of every pixel zero
    /// (transparent black).
    pub fn new(width: u32, height: u32) -> (c: Canvas)
        requires
            buffer_fits(width, height),
        ensures
            c.wf(),
            c.spec_width() == width,
            c.spec_height() == height,
            c.pixels() == image_of(width, height, |p: (u32, u32)| [0u8, 0, 0, 0]),
    {
        buffer_new(width, height)
    }

    /// The width of the canvas.
    pub fn width(&self) -> (w: u32)
        ensures
            w == self.spec_width(),
    {
        buffer_width(self)
    }

    /// The height of the canvas.
    pub fn height(&self) -> (h: u32)
        ensures
            h == self.spec_height(),
    {
        buffer_height(self)
    }

    /// The pixel at `(x, y)`, which must lie inside the canvas.
    pub fn get_pixel(&self, x: u32, y: u32) -> (color: Rgba)
        requires
            in_bounds(self.spec_width(), self.spec_height(), (x, y)),
        ensures
            color.0 == self.at(x, y),
    {
        Rgba(buffer_get(self, x, y))
    }

    /// Sets the pixel at `(x, y)`, which must lie inside the canvas.
    pub fn put_pixel(&mut self, x: u32, y: u32, color: Rgba)
        requires
            in_bounds(old(self).spec_width(), old(self).spec_height(), (x, y)),
        ensures
            canvas_dims(*final(self)) == canvas_dims(*old(self)),
            final(self).pixels() == old(self).pixels().insert((x, y), color.0),
    {
        buffer_put(self, x, y, color.0)
    }

    /// The raw RGBA bytes of the canvas, row after row, four bytes a pixel.
    pub fn into_raw(self) -> (bytes: Vec<u8>)
        requires
            self.wf(),
        ensures
            bytes@.len() == 4 * self.spec_width() * self.spec_height(),
            forall|x: u32, y: u32, k: int|
                #![trigger self.at(x, y), bytes@[4 * (y * self.spec_width() + x) + k]]
                in_bounds(self.spec_width(), self.spec_height(), (x, y)) && 0 <= k < 4
                    ==> bytes@[4 * (y * self.spec_width() + x) + k] == self.at(x, y)[k],
    {
        buffer_into_raw(self)
    }
}

/// `ImageBuffer::from_pixel`: a `w` x `h` image with every pixel set to `c`.
/// It panics when the `4 * w * h` bytes do not fit in a `Vec`.
#[verifier::external_body]
fn buffer_from_pixel(w: u32, h: u32, c: [u8; 4]) -> (img: Canvas)
    requires
        buffer_fits(w, h),
    ensures
        canvas_dims(img) == (w, h),
        canvas_pixels(img) == image_of(w, h, |p: (u32, u32)| c),
{
    Canvas { img: image::RgbaImage::from_pixel(w, h, image::Rgba(c)) }
}

/// `ImageBuffer::new`: a `w` x `h` image whose bytes are all zero. It panics
/// when the `4 * w * h` bytes do not fit in a `Vec`.
#[verifier::external_body]
fn buffer_new(w: u32, h: u32) -> (img: Canvas)
    requires
        buffer_fits(w, h),
    ensures
        canvas_dims(img) == (w, h),
        canvas_pixels(img) == image_of(w, h, |p: (u32, u32)| [0u8, 0, 0, 0]),
{
    Canvas { img: image::RgbaImage::new(w, h) }
}

/// `ImageBuffer::width`: the width the image was made with.
#[verifier::external_body]
fn buffer_width(img: &Canvas) -> (w: u32)
    ensures
        w == canvas_dims(*img).0,
{
    img.img.width()
}

/// `ImageBuffer::height`: the height the image was made with.
#[verifier::external_body]
fn buffer_height(img: &Canvas) -> (h: u32)
    ensures
        h == canvas_dims(*img).1,
{
    img.img.height()
}

/// `ImageBuffer::get_pixel`: the pixel at `(x, y)`; it panics outside the
/// image.
#[verifier::external_body]
fn buffer_get(img: &Canvas, x: u32, y: u32) -> (c: [u8; 4])
    requires
        in_bounds(canvas_dims(*img).0, canvas_dims(*img).1, (x, y)),
    ensures
        c == canvas_pixels(*img)[(x, y)],
{
    img.img.get_pixel(x, y).0
}

/// `ImageBuffer::put_pixel`: sets the pixel at `(x, y)` and nothing else; it
/// panics outside the image.
#[verifier::external_body]
fn buffer_put(img: &mut Canvas, x: u32, y: u32, c: [u8; 4])
    requires
        in_bounds(canvas_dims(*old(img)).0, canvas_dims(*old(img)).1, (x, y)),
    ensures
        canvas_dims(*final(img)) == canvas_dims(*old(img)),
        canvas_pixels(*final(img)) == canvas_pixels(*old(img)).insert((x, y), c),
{
    img.img.put_pixel(x, y, image::Rgba(c))
}

/// `ImageBuffer::into_raw`: the pixel bytes, row-major, four channels a
/// pixel, exactly `4 * w * h` of them for an image made by `new` or
/// `from_pixel`.
#[verifier::external_body]
fn buffer_into_raw(img: Canvas) -> (bytes: Vec<u8>)
    requires
        canvas_pixels(img).dom() == positions(canvas_dims(img).0, canvas_dims(img).1),
    ensures
        bytes@.len() == 4 * canvas_dims(img).0 * canvas_dims(img).1,
        forall|x: u32, y: u32, k: int|
            #![trigger canvas_pixels(img)[(x, y)], bytes@[4 * (y * canvas_dims(img).0 + x) + k]]
            in_bounds(canvas_dims(img).0, canvas_dims(img).1, (x, y)) && 0 <= k < 4
                ==> bytes@[4 * (y * canvas_dims(img).0 + x) + k] == canvas_pixels(img)[(x, y)][k],
{
    img.img.into_raw()
}

} // verus!
