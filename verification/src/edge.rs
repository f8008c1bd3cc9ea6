//! The detector: gradient field, suppression, linking and painting in turn.

use vstd::prelude::*;
use vstd::set_lib::lemma_len_subset;
use crate::color::Color;
use crate::color::hue_color;
use crate::color::hue_to_rgba;
use crate::error::EdgeError;
use crate::gradient::EdgeRecord;
use crate::gradient::GradientField;
use crate::gradient::HORIZONTAL_SOBEL;
use crate::gradient::VERTICAL_SOBEL;
use crate::gradient::filter;
use crate::gradient::clamp_coordinate;
use crate::gradient::convolve;
use crate::gradient::convolve_upto;
use crate::gradient::gradient_at;
use crate::gradient::gradient_field;
use crate::gradient::sample;
use crate::gradient::tap;
use crate::gradient::zero_record;
use crate::grid::Grid;
use crate::grid::lemma_positions_finite;
use crate::grid::positions;
use crate::link::accepted;
use crate::link::accepted_mask;
use crate::link::is_chain;
use crate::link::is_strong;
use crate::link::reaches;
use crate::link::lemma_accepted_monotone;
use crate::link::link_edges;
use crate::paint::marks;
use crate::paint::paint;
use crate::paint::paints;
use crate::paint::paint_edges;
use crate::raster::GrayImage;
use crate::raster::RgbaImage;
use crate::suppress::non_maximum_suppression;
use crate::suppress::suppressed;
use crate::suppress::suppressed_at;

verus! {

/// The image with the edges of a suppressed field painted in `color`: every
/// pixel that a chain of pixels reaching `low` joins to an interior pixel
/// reaching `high`, and for a thick stroke the two pixels across each edge.
pub open spec fn edges_painted(
    img: Grid<Color>,
    f: Grid<EdgeRecord>,
    low: int,
    high: int,
    thick: bool,
    color: Color,
) -> Grid<Color> {
    paint(img, accepted_mask(f, low, high), f, thick, color)
}

/// The pixels that painting the edges of `f` colours.
pub open spec fn painted_pixels(f: Grid<EdgeRecord>, low: int, high: int, thick: bool) -> Set<
    (int, int),
> {
    Set::new(
        |p: (int, int)|
            f.contains(p.0, p.1) && marks(accepted_mask(f, low, high), f, thick, p.0, p.1),
    )
}

/// Raising the low or the high threshold paints no pixel that was not
/// painted before, so the number of painted pixels never grows.
pub proof fn lemma_thresholds_monotone(
    f: Grid<EdgeRecord>,
    low: int,
    high: int,
    raised_low: int,
    raised_high: int,
    thick: bool,
)
    requires
        f.wf(),
        0 <= low <= raised_low,
        0 <= high <= raised_high,
    ensures
        painted_pixels(f, raised_low, raised_high, thick).subset_of(painted_pixels(f, low, high, thick)),
        painted_pixels(f, low, high, thick).finite(),
        painted_pixels(f, raised_low, raised_high, thick).len() <= painted_pixels(
            f,
            low,
            high,
            thick,
        ).len(),
{
    let fewer = painted_pixels(f, raised_low, raised_high, thick);
    let more = painted_pixels(f, low, high, thick);
    assert forall|p: (int, int)| fewer.contains(p) implies more.contains(p) by {
        let raised = accepted_mask(f, raised_low, raised_high);
        let (qx, qy) = choose|qx: int, qy: int|
            raised.contains(qx, qy) && raised.at(qx, qy) && #[trigger] paints(
                f,
                thick,
                qx,
                qy,
                p.0,
                p.1,
            );
        lemma_accepted_monotone(f, low, high, raised_low, raised_high, qx, qy);
        assert(accepted_mask(f, low, high).at(qx, qy));
    }
    lemma_positions_finite(f.width, f.height);
    assert(more.subset_of(positions(f.width, f.height)));
    lemma_len_subset(more, positions(f.width, f.height));
    lemma_len_subset(fewer, more);
}

/// Why linking refuses its input, if it does: the field and the image must
/// have the same shape, and the high threshold may not be below the low one.
pub open spec fn hysteresis_error(f: Grid<EdgeRecord>, img: Grid<Color>, low: int, high: int) -> Option<
    EdgeError,
> {
    if f.width != img.width || f.height != img.height {
        Some(EdgeError::BufferSizeMismatch)
    } else if high < low {
        Some(EdgeError::InvalidParameters)
    } else {
        None
    }
}

/// Links the edges of the suppressed field `input` under the two thresholds
/// and paints them onto `out` in the colour of `hue`. A refused call leaves
/// `out` as it is.
pub fn hysteresis(
    input: &GradientField,
    out: &mut RgbaImage,
    low_thresh: u32,
    high_thresh: u32,
    hue: u32,
    use_thick: bool,
) -> (r: Result<(), EdgeError>)
    ensures
        match r {
            Ok(_) => {
                &&& hysteresis_error(input@, old(out)@, low_thresh as int, high_thresh as int) is None
                &&& final(out)@ == edges_painted(
                    old(out)@,
                    input@,
                    low_thresh as int,
                    high_thresh as int,
                    use_thick,
                    hue_color(hue),
                )
            },
            Err(e) => {
                &&& hysteresis_error(input@, old(out)@, low_thresh as int, high_thresh as int) == Some(e)
                &&& final(out)@ == old(out)@
            },
        },
{
    if input.width() != out.width() || input.height() != out.height() {
        return Err(EdgeError::BufferSizeMismatch);
    }
    if high_thresh < low_thresh {
        return Err(EdgeError::InvalidParameters);
    }
    let color = hue_to_rgba(hue);
    let mask = link_edges(input, low_thresh, high_thresh);
    paint_edges(&mask, input, out, color, use_thick)
}

/// The suppressed Sobel gradient field of a gray image.
pub open spec fn canny_field(image: Grid<u8>) -> Grid<EdgeRecord> {
    suppressed(gradient_field(image, HORIZONTAL_SOBEL@, VERTICAL_SOBEL@))
}

/// Why the detector refuses its input, if it does. The first reason that
/// applies is the one reported: an image without pixels, a frame of another
/// shape than the image, a high threshold below the low one.
pub open spec fn canny_error(image: Grid<u8>, frame: Grid<Color>, low: int, high: int) -> Option<
    EdgeError,
> {
    if image.width == 0 || image.height == 0 {
        Some(EdgeError::InvalidDimensions)
    } else if image.width != frame.width || image.height != frame.height {
        Some(EdgeError::BufferSizeMismatch)
    } else if high < low {
        Some(EdgeError::InvalidParameters)
    } else {
        None
    }
}

/// Runs the Canny edge detector on the gray `image` and paints the edges
/// onto `src_buf` in the colour of `hue`.
///
/// The thresholds are lengths of the Sobel gradient: an edge starts at an
/// interior pixel whose gradient is at least `high_threshold` long and runs
/// on through neighbours whose gradient is at least `low_threshold` long.
/// The longest Sobel gradient is `2 * sqrt(5) * 255`, a little over 1140.
/// A refused call leaves `src_buf` as it is.
pub fn canny(
    image: &GrayImage,
    src_buf: &mut RgbaImage,
    low_threshold: u32,
    high_threshold: u32,
    hue: u32,
    use_thick: bool,
) -> (r: Result<(), EdgeError>)
    ensures
        match r {
            Ok(_) => {
                &&& canny_error(image@, old(src_buf)@, low_threshold as int, high_threshold as int)
                    is None
                &&& final(src_buf)@ == edges_painted(
                    old(src_buf)@,
                    canny_field(image@),
                    low_threshold as int,
                    high_threshold as int,
                    use_thick,
                    hue_color(hue),
                )
            },
            Err(e) => {
                &&& canny_error(image@, old(src_buf)@, low_threshold as int, high_threshold as int)
                    == Some(e)
                &&& final(src_buf)@ == old(src_buf)@
            },
        },
{
    if image.width() == 0 || image.height() == 0 {
        return Err(EdgeError::InvalidDimensions);
    }
    if image.width() != src_buf.width() || image.height() != src_buf.height() {
        return Err(EdgeError::BufferSizeMismatch);
    }
    if high_threshold < low_threshold {
        return Err(EdgeError::InvalidParameters);
    }
    match filter(image, HORIZONTAL_SOBEL, VERTICAL_SOBEL) {
        Ok(gradients) => {
            let thinned = non_maximum_suppression(&gradients);
            hysteresis(&thinned, src_buf, low_threshold, high_threshold, hue, use_thick)
        },
        Err(e) => Err(e),
    }
}

/// Where every sample of the image is the same, the gradient is zero
/// everywhere, and under a high threshold above zero nothing is painted.
pub proof fn lemma_uniform_image_has_no_edges(
    image: Grid<u8>,
    frame: Grid<Color>,
    low: int,
    high: int,
    thick: bool,
    color: Color,
)
    requires
        image.wf(),
        frame.wf(),
        frame.width == image.width,
        frame.height == image.height,
        forall|x: int, y: int| image.contains(x, y) ==> #[trigger] image.at(x, y) == image.at(0, 0),
        1 <= high,
    ensures
        forall|x: int, y: int|
            image.contains(x, y) ==> #[trigger] gradient_at(
                image,
                HORIZONTAL_SOBEL@,
                VERTICAL_SOBEL@,
                x,
                y,
            ) == zero_record(),
        edges_painted(frame, canny_field(image), low, high, thick, color) == frame,
{
    let field = gradient_field(image, HORIZONTAL_SOBEL@, VERTICAL_SOBEL@);
    let thinned = canny_field(image);
    assert forall|x: int, y: int| image.contains(x, y) implies #[trigger] gradient_at(
        image,
        HORIZONTAL_SOBEL@,
        VERTICAL_SOBEL@,
        x,
        y,
    ) == zero_record() by {
        lemma_uniform_gradient(image, x, y);
    }
    assert(1 <= high * high) by (nonlinear_arith)
        requires
            1 <= high,
    ;
    assert forall|x: int, y: int| !accepted(thinned, low, high, x, y) by {
        if accepted(thinned, low, high, x, y) {
            let path = choose|path: Seq<(int, int)>| #[trigger]
                is_chain(thinned, low, high, path) && path.last() == (x, y);
            let (sx, sy) = path[0];
            assert(is_strong(thinned, high, sx, sy));
            assert(thinned.at(sx, sy) == suppressed_at(field, sx, sy));
            assert(field.at(sx, sy) == gradient_at(image, HORIZONTAL_SOBEL@, VERTICAL_SOBEL@, sx, sy));
            assert(thinned.at(sx, sy) == zero_record());
            assert(!reaches(zero_record(), high));
        }
    }
    let painted = edges_painted(frame, thinned, low, high, thick, color);
    let mask = accepted_mask(thinned, low, high);
    assert forall|y: int| 0 <= y < frame.height implies #[trigger] painted.rows[y] =~= frame.rows[y] by {
        assert forall|x: int| 0 <= x < frame.width implies painted.rows[y][x] == frame.rows[y][x] by {
            if marks(mask, thinned, thick, x, y) {
                let (qx, qy) = choose|qx: int, qy: int|
                    mask.contains(qx, qy) && mask.at(qx, qy) && #[trigger] paints(
                        thinned,
                        thick,
                        qx,
                        qy,
                        x,
                        y,
                    );
                assert(!accepted(thinned, low, high, qx, qy));
            }
        }
    }
    assert(painted =~~= frame);
}

/// The Sobel gradient of a uniform image is zero.
proof fn lemma_uniform_gradient(image: Grid<u8>, x: int, y: int)
    requires
        image.wf(),
        image.contains(x, y),
        forall|i: int, j: int| image.contains(i, j) ==> #[trigger] image.at(i, j) == image.at(0, 0),
    ensures
        gradient_at(image, HORIZONTAL_SOBEL@, VERTICAL_SOBEL@, x, y) == zero_record(),
{
    reveal_with_fuel(convolve_upto, 10);
    let c = image.at(0, 0) as int;
    let hk = HORIZONTAL_SOBEL@;
    let vk = VERTICAL_SOBEL@;
    assert forall|i: int, j: int| sample(image, i, j) == c by {
        assert(image.contains(clamp_coordinate(i, image.width), clamp_coordinate(j, image.height)));
    }
    assert(hk[0] == -1 && hk[1] == 0 && hk[2] == 1 && hk[3] == -2 && hk[4] == 0 && hk[5] == 2
        && hk[6] == -1 && hk[7] == 0 && hk[8] == 1);
    assert(vk[0] == -1 && vk[1] == -2 && vk[2] == -1 && vk[3] == 0 && vk[4] == 0 && vk[5] == 0
        && vk[6] == 1 && vk[7] == 2 && vk[8] == 1);
    assert(tap(image, hk, x, y, 0) == -c && tap(image, vk, x, y, 0) == -c);
    assert(tap(image, hk, x, y, 1) == 0 && tap(image, vk, x, y, 1) == -2 * c);
    assert(tap(image, hk, x, y, 2) == c && tap(image, vk, x, y, 2) == -c);
    assert(tap(image, hk, x, y, 3) == -2 * c && tap(image, vk, x, y, 3) == 0);
    assert(tap(image, hk, x, y, 4) == 0 && tap(image, vk, x, y, 4) == 0);
    assert(tap(image, hk, x, y, 5) == 2 * c && tap(image, vk, x, y, 5) == 0);
    assert(tap(image, hk, x, y, 6) == -c && tap(image, vk, x, y, 6) == c);
    assert(tap(image, hk, x, y, 7) == 0 && tap(image, vk, x, y, 7) == 2 * c);
    assert(tap(image, hk, x, y, 8) == c && tap(image, vk, x, y, 8) == c);
    assert(convolve(image, hk, x, y) == 0);
    assert(convolve(image, vk, x, y) == 0);
}

} // verus!
