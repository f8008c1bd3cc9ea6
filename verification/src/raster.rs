//! Gray and RGBA images. The pixels live in buffers of the `image` crate;
//! this module is the only place that touches them, and the rest of the crate
//! sees each image as a [`Grid`].

use vstd::prelude::*;
use crate::color::Color;
use crate::grid::Grid;
use crate::grid::flat;
use crate::grid::lemma_flat_in_range;
use crate::grid::lemma_flat_injective;
use crate::grid::lemma_flat_of_place;
use crate::grid::lemma_from_flat_update;
use crate::grid::lemma_put;

verus! {

/// An `image::GrayImage`, opaque to the verifier.
#[verifier::external_body]
pub struct GrayBuffer {
    inner: image::GrayImage,
}

/// What `ImageBuffer::dimensions` reports for the buffer: its width and its
/// height.
pub uninterp spec fn gray_buffer_dimensions(buf: GrayBuffer) -> (u32, u32);

/// The samples that the buffer holds, in row-major order.
pub uninterp spec fn gray_buffer_samples(buf: GrayBuffer) -> Seq<u8>;

/// `ImageBuffer::from_raw` for one-channel pixels: the container is accepted
/// exactly when it holds at least `width * height` samples, and it is then
/// kept as it is.
#[verifier::external_body]
fn gray_buffer_from_raw(width: u32, height: u32, data: Vec<u8>) -> (r: Option<GrayBuffer>)
    ensures
        r.is_some() == (width * height <= data@.len()),
        r matches Some(buf) ==> {
            &&& gray_buffer_dimensions(buf) == (width, height)
            &&& gray_buffer_samples(buf) == data@
        },
{
    match image::GrayImage::from_raw(width, height, data) {
        Some(inner) => Some(GrayBuffer { inner }),
        None => None,
    }
}

/// `ImageBuffer::new` for one-channel pixels: a buffer of `width * height`
/// zero samples. It panics when that count does not fit in `usize`.
#[verifier::external_body]
fn gray_buffer_new(width: u32, height: u32) -> (buf: GrayBuffer)
    requires
        width * height <= usize::MAX,
    ensures
        gray_buffer_dimensions(buf) == (width, height),
        gray_buffer_samples(buf).len() == width * height,
        forall|i: int| 0 <= i < width * height ==> gray_buffer_samples(buf)[i] == 0,
{
    GrayBuffer { inner: image::GrayImage::new(width, height) }
}

/// `ImageBuffer::dimensions`.
#[verifier::external_body]
fn gray_buffer_get_dimensions(buf: &GrayBuffer) -> (d: (u32, u32))
    ensures
        d == gray_buffer_dimensions(*buf),
{
    buf.inner.dimensions()
}

/// `ImageBuffer::get_pixel` for one-channel pixels: the sample at place
/// `y * width + x`. It panics outside the image.
#[verifier::external_body]
fn gray_buffer_get(buf: &GrayBuffer, x: u32, y: u32) -> (v: u8)
    requires
        x < gray_buffer_dimensions(*buf).0,
        y < gray_buffer_dimensions(*buf).1,
    ensures
        v == gray_buffer_samples(*buf)[flat(
            gray_buffer_dimensions(*buf).0 as int,
            x as int,
            y as int,
        )],
{
    buf.inner.get_pixel(x, y).data[0]
}

/// `ImageBuffer::put_pixel` for one-channel pixels: the sample at place
/// `y * width + x` is replaced and nothing else changes. It panics outside
/// the image.
#[verifier::external_body]
fn gray_buffer_put(buf: &mut GrayBuffer, x: u32, y: u32, v: u8)
    requires
        x < gray_buffer_dimensions(*old(buf)).0,
        y < gray_buffer_dimensions(*old(buf)).1,
    ensures
        gray_buffer_dimensions(*final(buf)) == gray_buffer_dimensions(*old(buf)),
        gray_buffer_samples(*final(buf)) == gray_buffer_samples(*old(buf)).update(
            flat(gray_buffer_dimensions(*old(buf)).0 as int, x as int, y as int),
            v,
        ),
    no_unwind
{
    buf.inner.put_pixel(x, y, image::Luma { data: [v] })
}

/// An 8-bit grayscale image. Its view is the grid of its samples.
pub struct GrayImage {
    buf: GrayBuffer,
}

impl View for GrayImage {
    type V = Grid<u8>;

    closed spec fn view(&self) -> Grid<u8> {
        Grid::from_flat(
            gray_buffer_dimensions(self.buf).0 as int,
            gray_buffer_dimensions(self.buf).1 as int,
            gray_buffer_samples(self.buf),
        )
    }
}

impl GrayImage {
    #[verifier::type_invariant]
    spec fn inv(self) -> bool {
        &&& gray_buffer_samples(self.buf).len() == gray_buffer_dimensions(self.buf).0
            * gray_buffer_dimensions(self.buf).1
        &&& gray_buffer_samples(self.buf).len() <= usize::MAX
    }

    /// Builds an image from its samples in row-major order; `None` unless
    /// there are exactly `width * height` of them.
    pub fn from_raw(width: u32, height: u32, data: Vec<u8>) -> (r: Option<GrayImage>)
        ensures
            r.is_some() == (data@.len() == width * height),
            r matches Some(img) ==> img@ == Grid::from_flat(width as int, height as int, data@),
    {
        assert(width * height <= 0xffff_ffff * 0xffff_ffff) by (nonlinear_arith)
            requires
                0 <= width <= 0xffff_ffff,
                0 <= height <= 0xffff_ffff,
        ;
        let need: u64 = (width as u64) * (height as u64);
        if data.len() as u64 != need {
            return None;
        }
        match gray_buffer_from_raw(width, height, data) {
            Some(buf) => Some(GrayImage { buf }),
            None => None,
        }
    }

    /// An image of `width * height` zero samples.
    pub fn new(width: u32, height: u32) -> (img: GrayImage)
        requires
            width * height <= usize::MAX,
        ensures
            img@ == Grid::build(width as int, height as int, |x: int, y: int| 0u8),
    {
        let img = GrayImage { buf: gray_buffer_new(width, height) };
        proof {
            let zero = Grid::build(width as int, height as int, |x: int, y: int| 0u8);
            assert forall|y: int| 0 <= y < height implies #[trigger] img@.rows[y] =~= zero.rows[y] by {
                assert forall|x: int| 0 <= x < width implies img@.rows[y][x] == 0u8 by {
                    lemma_flat_in_range(width as int, height as int, x, y);
                }
            }
            assert(img@ =~~= zero);
        }
        img
    }

    /// The number of columns.
    pub fn width(&self) -> (w: u32)
        ensures
            w == self@.width,
            self@.wf(),
            self@.width * self@.height <= usize::MAX,
    {
        proof {
            use_type_invariant(self);
        }
        gray_buffer_get_dimensions(&self.buf).0
    }

    /// The number of rows.
    pub fn height(&self) -> (h: u32)
        ensures
            h == self@.height,
            self@.wf(),
            self@.width * self@.height <= usize::MAX,
    {
        proof {
            use_type_invariant(self);
        }
        gray_buffer_get_dimensions(&self.buf).1
    }

    /// The sample at `(x, y)`.
    pub fn get_pixel(&self, x: u32, y: u32) -> (v: u8)
        requires
            self@.contains(x as int, y as int),
        ensures
            v == self@.at(x as int, y as int),
    {
        gray_buffer_get(&self.buf, x, y)
    }

    /// Replaces the sample at `(x, y)`.
    pub fn put_pixel(&mut self, x: u32, y: u32, v: u8)
        requires
            old(self)@.contains(x as int, y as int),
        ensures
            final(self)@ == old(self)@.put(x as int, y as int, v),
    {
        proof {
            use_type_invariant(&*self);
            lemma_flat_in_range(
                gray_buffer_dimensions(self.buf).0 as int,
                gray_buffer_dimensions(self.buf).1 as int,
                x as int,
                y as int,
            );
            lemma_from_flat_update(
                gray_buffer_dimensions(self.buf).0 as int,
                gray_buffer_dimensions(self.buf).1 as int,
                gray_buffer_samples(self.buf),
                x as int,
                y as int,
                v,
            );
        }
        gray_buffer_put(&mut self.buf, x, y, v);
    }
}

/// An `image::RgbaImage`, opaque to the verifier.
#[verifier::external_body]
pub struct RgbaBuffer {
    inner: image::RgbaImage,
}

/// What `ImageBuffer::dimensions` reports for the buffer: its width and its
/// height.
pub uninterp spec fn rgba_buffer_dimensions(buf: RgbaBuffer) -> (u32, u32);

/// The bytes that the buffer holds: four per pixel, pixels in row-major order.
pub uninterp spec fn rgba_buffer_samples(buf: RgbaBuffer) -> Seq<u8>;

/// The colour whose four channels start at place `i` of `bytes`.
pub open spec fn color_at(bytes: Seq<u8>, i: int) -> Color {
    Color { r: bytes[i], g: bytes[i + 1], b: bytes[i + 2], a: bytes[i + 3] }
}

/// `bytes` with the four channels of `c` written from place `i` on.
pub open spec fn store_color(bytes: Seq<u8>, i: int, c: Color) -> Seq<u8> {
    bytes.update(i, c.r).update(i + 1, c.g).update(i + 2, c.b).update(i + 3, c.a)
}

/// `ImageBuffer::from_raw` for four-channel pixels: the container is accepted
/// exactly when `4 * width` and `4 * width * height` fit in `usize` and it
/// holds at least that many bytes, and it is then kept as it is.
#[verifier::external_body]
fn rgba_buffer_from_raw(width: u32, height: u32, data: Vec<u8>) -> (r: Option<RgbaBuffer>)
    ensures
        r.is_some() == (4 * width <= usize::MAX && 4 * width * height <= data@.len()),
        r matches Some(buf) ==> {
            &&& rgba_buffer_dimensions(buf) == (width, height)
            &&& rgba_buffer_samples(buf) == data@
        },
{
    match image::RgbaImage::from_raw(width, height, data) {
        Some(inner) => Some(RgbaBuffer { inner }),
        None => None,
    }
}

/// `ImageBuffer::into_raw`: the container that the buffer holds.
#[verifier::external_body]
fn rgba_buffer_into_raw(buf: RgbaBuffer) -> (data: Vec<u8>)
    ensures
        data@ == rgba_buffer_samples(buf),
{
    buf.inner.into_raw()
}

/// `ImageBuffer::dimensions`.
#[verifier::external_body]
fn rgba_buffer_get_dimensions(buf: &RgbaBuffer) -> (d: (u32, u32))
    ensures
        d == rgba_buffer_dimensions(*buf),
{
    buf.inner.dimensions()
}

/// `ImageBuffer::get_pixel` for four-channel pixels: the four bytes from
/// place `4 * (y * width + x)` on. It panics outside the image.
#[verifier::external_body]
fn rgba_buffer_get(buf: &RgbaBuffer, x: u32, y: u32) -> (c: Color)
    requires
        x < rgba_buffer_dimensions(*buf).0,
        y < rgba_buffer_dimensions(*buf).1,
    ensures
        c == color_at(
            rgba_buffer_samples(*buf),
            4 * flat(rgba_buffer_dimensions(*buf).0 as int, x as int, y as int),
        ),
{
    let p = buf.inner.get_pixel(x, y);
    Color { r: p.data[0], g: p.data[1], b: p.data[2], a: p.data[3] }
}

/// `ImageBuffer::put_pixel` for four-channel pixels: the four bytes from
/// place `4 * (y * width + x)` on are replaced and nothing else changes. It
/// panics outside the image.
#[verifier::external_body]
fn rgba_buffer_put(buf: &mut RgbaBuffer, x: u32, y: u32, c: Color)
    requires
        x < rgba_buffer_dimensions(*old(buf)).0,
        y < rgba_buffer_dimensions(*old(buf)).1,
    ensures
        rgba_buffer_dimensions(*final(buf)) == rgba_buffer_dimensions(*old(buf)),
        rgba_buffer_samples(*final(buf)) == store_color(
            rgba_buffer_samples(*old(buf)),
            4 * flat(rgba_buffer_dimensions(*old(buf)).0 as int, x as int, y as int),
            c,
        ),
    no_unwind
{
    buf.inner.put_pixel(x, y, image::Rgba { data: [c.r, c.g, c.b, c.a] })
}

/// What `Pixel::to_luma` makes of the RGBA pixel `(r, g, b, a)`: its
/// brightness as one gray sample.
pub uninterp spec fn luma_of(r: u8, g: u8, b: u8, a: u8) -> u8;

/// `Pixel::to_luma` on an `Rgba<u8>` pixel.
#[verifier::external_body]
fn color_to_luma(c: Color) -> (l: u8)
    ensures
        l == luma_of(c.r, c.g, c.b, c.a),
{
    image::Pixel::to_luma(&image::Rgba { data: [c.r, c.g, c.b, c.a] }).data[0]
}

/// The grid of colours held by `bytes`, four bytes per pixel in row-major
/// order.
pub open spec fn unflatten(width: int, height: int, bytes: Seq<u8>) -> Grid<Color> {
    Grid::build(width, height, |x: int, y: int| color_at(bytes, 4 * flat(width, x, y)))
}

/// The bytes of a grid of colours, four per pixel in row-major order.
pub open spec fn flatten(g: Grid<Color>) -> Seq<u8> {
    Seq::new(
        (4 * g.width * g.height) as nat,
        |i: int| g.at((i / 4) % g.width, (i / 4) / g.width).channel(i % 4),
    )
}

/// The gray image of a grid of colours: each pixel by its brightness.
pub open spec fn gray_of(g: Grid<Color>) -> Grid<u8> {
    Grid::build(
        g.width,
        g.height,
        |x: int, y: int| luma_of(g.at(x, y).r, g.at(x, y).g, g.at(x, y).b, g.at(x, y).a),
    )
}

/// An RGBA image, one byte per channel. Its view is the grid of its colours.
pub struct RgbaImage {
    buf: RgbaBuffer,
}

impl View for RgbaImage {
    type V = Grid<Color>;

    closed spec fn view(&self) -> Grid<Color> {
        unflatten(
            rgba_buffer_dimensions(self.buf).0 as int,
            rgba_buffer_dimensions(self.buf).1 as int,
            rgba_buffer_samples(self.buf),
        )
    }
}

impl RgbaImage {
    #[verifier::type_invariant]
    spec fn inv(self) -> bool {
        &&& rgba_buffer_samples(self.buf).len() == 4 * rgba_buffer_dimensions(self.buf).0
            * rgba_buffer_dimensions(self.buf).1
        &&& rgba_buffer_samples(self.buf).len() <= usize::MAX
    }

    /// Builds an image from its bytes, four per pixel in row-major order;
    /// `None` unless there are exactly `4 * width * height` of them (and a
    /// row of `4 * width` bytes can be addressed at all).
    pub fn from_raw(width: u32, height: u32, data: Vec<u8>) -> (r: Option<RgbaImage>)
        ensures
            r.is_some() == (data@.len() == 4 * width * height && 4 * width <= usize::MAX),
            r matches Some(img) ==> img@ == unflatten(width as int, height as int, data@),
    {
        assert(4 * width * height <= 4 * 0xffff_ffff * 0xffff_ffff) by (nonlinear_arith)
            requires
                0 <= width <= 0xffff_ffff,
                0 <= height <= 0xffff_ffff,
        ;
        let need: u128 = 4 * (width as u128) * (height as u128);
        if data.len() as u128 != need {
            return None;
        }
        match rgba_buffer_from_raw(width, height, data) {
            Some(buf) => Some(RgbaImage { buf }),
            None => None,
        }
    }

    /// The bytes of the image, four per pixel in row-major order.
    pub fn into_raw(self) -> (data: Vec<u8>)
        ensures
            data@ == flatten(self@),
    {
        proof {
            use_type_invariant(&self);
            let w = rgba_buffer_dimensions(self.buf).0 as int;
            let h = rgba_buffer_dimensions(self.buf).1 as int;
            let bytes = rgba_buffer_samples(self.buf);
            assert(4 * w * h == 4 * (w * h)) by (nonlinear_arith);
            assert forall|i: int| 0 <= i < bytes.len() implies bytes[i] == flatten(self@)[i] by {
                lemma_flat_of_place(w, h, i / 4);
            }
            assert(bytes =~= flatten(self@));
        }
        rgba_buffer_into_raw(self.buf)
    }

    /// The number of columns.
    pub fn width(&self) -> (w: u32)
        ensures
            w == self@.width,
            self@.wf(),
            4 * self@.width * self@.height <= usize::MAX,
    {
        proof {
            use_type_invariant(self);
        }
        rgba_buffer_get_dimensions(&self.buf).0
    }

    /// The number of rows.
    pub fn height(&self) -> (h: u32)
        ensures
            h == self@.height,
            self@.wf(),
            4 * self@.width * self@.height <= usize::MAX,
    {
        proof {
            use_type_invariant(self);
        }
        rgba_buffer_get_dimensions(&self.buf).1
    }

    /// The colour at `(x, y)`.
    pub fn get_pixel(&self, x: u32, y: u32) -> (c: Color)
        requires
            self@.contains(x as int, y as int),
        ensures
            c == self@.at(x as int, y as int),
    {
        rgba_buffer_get(&self.buf, x, y)
    }

    /// Replaces the colour at `(x, y)`.
    pub fn put_pixel(&mut self, x: u32, y: u32, c: Color)
        requires
            old(self)@.contains(x as int, y as int),
        ensures
            final(self)@ == old(self)@.put(x as int, y as int, c),
    {
        let ghost before = *self;
        let ghost w = rgba_buffer_dimensions(self.buf).0 as int;
        let ghost h = rgba_buffer_dimensions(self.buf).1 as int;
        proof {
            use_type_invariant(&*self);
            lemma_flat_in_range(w, h, x as int, y as int);
            assert(4 * w * h == 4 * (w * h)) by (nonlinear_arith);
        }
        rgba_buffer_put(&mut self.buf, x, y, c);
        proof {
            let goal = before@.put(x as int, y as int, c);
            assert forall|j: int| 0 <= j < h implies #[trigger] self@.rows[j] =~= goal.rows[j] by {
                assert forall|i: int| 0 <= i < w implies self@.rows[j][i] == goal.rows[j][i] by {
                    lemma_flat_in_range(w, h, i, j);
                    if i != x || j != y {
                        if flat(w, i, j) == flat(w, x as int, y as int) {
                            lemma_flat_injective(w, i, j, x as int, y as int);
                        }
                    }
                }
            }
            assert(self@ =~~= goal);
        }
    }

    /// The gray image of this image: each pixel by its brightness.
    pub fn to_gray(&self) -> (gray: GrayImage)
        ensures
            gray@ == gray_of(self@),
    {
        let width: u32 = self.width();
        let height: u32 = self.height();
        assert(width * height <= 4 * width * height) by (nonlinear_arith)
            requires
                0 <= width,
                0 <= height,
        ;
        let mut gray = GrayImage::new(width, height);
        let ghost zero = gray@;
        let mut y: u32 = 0;
        while y < height
            invariant
                y <= height,
                width == self@.width,
                height == self@.height,
                self@.wf(),
                gray@.wf(),
                gray@.width == width,
                gray@.height == height,
                forall|i: int, j: int|
                    0 <= i < width && 0 <= j < y ==> gray@.at(i, j) == gray_of(self@).at(i, j),
            decreases height - y,
        {
            let mut x: u32 = 0;
            while x < width
                invariant
                    y < height,
                    x <= width,
                    width == self@.width,
                    height == self@.height,
                    self@.wf(),
                    gray@.wf(),
                    gray@.width == width,
                    gray@.height == height,
                    forall|i: int, j: int|
                        0 <= i < width && 0 <= j < y ==> gray@.at(i, j) == gray_of(self@).at(i, j),
                    forall|i: int|
                        0 <= i < x ==> gray@.at(i, y as int) == gray_of(self@).at(i, y as int),
                decreases width - x,
            {
                let c = self.get_pixel(x, y);
                let l: u8 = color_to_luma(c);
                proof {
                    lemma_put(gray@, x as int, y as int, l);
                }
                gray.put_pixel(x, y, l);
                x = x + 1;
            }
            y = y + 1;
        }
        proof {
            let goal = gray_of(self@);
            assert forall|j: int| 0 <= j < height implies #[trigger] gray@.rows[j] =~= goal.rows[j] by {
                assert forall|i: int| 0 <= i < width implies gray@.rows[j][i] == goal.rows[j][i] by {
                    assert(gray@.at(i, j) == goal.at(i, j));
                }
            }
            assert(gray@ =~~= gray_of(self@));
        }
        gray
    }
}

} // verus!
