//! Canny edge detection on RGBA frames: Sobel gradients, non-maximum
//! suppression and two-threshold hysteresis, painted onto the frame.
//!
//! [`detect`] takes a frame as bytes and returns the painted frame. The
//! stages behind it can be called one by one: [`gradient::filter`] builds the
//! gradient field of a gray image, [`suppress::non_maximum_suppression`]
//! thins it, [`link::link_edges`] finds the edges and [`paint::paint_edges`]
//! paints them; [`edge::canny`] runs all of them. Every stage is stated over
//! [`grid::Grid`], the mathematical model of an image.

use vstd::prelude::*;
use crate::color::hue_color;
use crate::edge::canny;
use crate::edge::canny_field;
use crate::edge::edges_painted;
use crate::edge::painted_pixels;
use crate::error::EdgeError;
use crate::grid::lemma_flat_of_place;
use crate::raster::RgbaImage;
use crate::raster::flatten;
use crate::raster::gray_of;
use crate::raster::unflatten;

pub mod color;
pub mod edge;
pub mod error;
pub mod gradient;
pub mod grid;
pub mod link;
pub mod paint;
pub mod plane;
pub mod raster;
pub mod suppress;

verus! {

/// The gradient length from which a pixel can continue an edge.
pub const LOW_THRESHOLD: u32 = 150;

/// The gradient length from which an interior pixel starts an edge.
pub const HIGH_THRESHOLD: u32 = 300;

/// Why `detect` refuses its input, if it does: a frame without pixels, or a
/// buffer that does not hold four bytes for each pixel.
pub open spec fn detect_error(len: int, width: int, height: int) -> Option<EdgeError> {
    if width == 0 || height == 0 {
        Some(EdgeError::InvalidDimensions)
    } else if len != 4 * width * height {
        Some(EdgeError::BufferSizeMismatch)
    } else {
        None
    }
}

/// The frame `buf` with its edges painted in the colour of `hue`.
pub open spec fn detected(buf: Seq<u8>, width: int, height: int, hue: u32, thick: bool) -> Seq<u8> {
    let frame = unflatten(width, height, buf);
    flatten(
        edges_painted(
            frame,
            canny_field(gray_of(frame)),
            LOW_THRESHOLD as int,
            HIGH_THRESHOLD as int,
            thick,
            hue_color(hue),
        ),
    )
}

/// Detects the edges of an RGBA frame of `width` by `height` pixels, given
/// as four bytes per pixel in row-major order, and returns the frame with
/// the edges painted in the colour of `hue`. Every other byte is returned as
/// it came.
pub fn detect(buf: Vec<u8>, width: u32, height: u32, hue: u32, use_thick: bool) -> (r: Result<
    Vec<u8>,
    EdgeError,
>)
    ensures
        match r {
            Ok(out) => {
                &&& detect_error(buf@.len() as int, width as int, height as int) is None
                &&& out@ == detected(buf@, width as int, height as int, hue, use_thick)
                &&& out@.len() == buf@.len()
            },
            Err(e) => detect_error(buf@.len() as int, width as int, height as int) == Some(e),
        },
{
    if width == 0 || height == 0 {
        return Err(EdgeError::InvalidDimensions);
    }
    assert(4 * width <= 4 * width * height <= 4 * 0xffff_ffff * 0xffff_ffff) by (nonlinear_arith)
        requires
            0 <= width <= 0xffff_ffff,
            1 <= height <= 0xffff_ffff,
    ;
    if buf.len() as u128 != 4 * (width as u128) * (height as u128) {
        return Err(EdgeError::BufferSizeMismatch);
    }
    match RgbaImage::from_raw(width, height, buf) {
        None => Err(EdgeError::BufferSizeMismatch),
        Some(mut frame) => {
            let gray = frame.to_gray();
            match canny(&gray, &mut frame, LOW_THRESHOLD, HIGH_THRESHOLD, hue, use_thick) {
                Ok(_) => Ok(frame.into_raw()),
                Err(e) => Err(e),
            }
        },
    }
}

/// The result byte by byte: a pixel that the detector paints holds the
/// colour of `hue`, and every byte of any other pixel is the byte that came.
pub proof fn lemma_detected_bytes(buf: Seq<u8>, width: int, height: int, hue: u32, thick: bool, i: int)
    requires
        0 < width,
        0 < height,
        buf.len() == 4 * width * height,
        0 <= i < buf.len(),
    ensures
        detected(buf, width, height, hue, thick).len() == buf.len(),
        detected(buf, width, height, hue, thick)[i] == (if painted_pixels(
            canny_field(gray_of(unflatten(width, height, buf))),
            LOW_THRESHOLD as int,
            HIGH_THRESHOLD as int,
            thick,
        ).contains(((i / 4) % width, (i / 4) / width)) {
            hue_color(hue).channel(i % 4)
        } else {
            buf[i]
        }),
{
    assert(4 * width * height == 4 * (width * height)) by (nonlinear_arith);
    lemma_flat_of_place(width, height, i / 4);
}

} // verus!
