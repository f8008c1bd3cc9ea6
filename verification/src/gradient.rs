//! The gradient field of a gray image: a 3x3 convolution with a horizontal
//! and a vertical derivative kernel, sampled with replicated borders.

use vstd::prelude::*;
use crate::error::EdgeError;
use crate::grid::Grid;
use crate::grid::lemma_put;
use crate::plane::Plane;
use crate::raster::GrayImage;

verus! {

/// The gradient at one pixel: its horizontal and vertical component.
#[derive(Clone, Copy, Debug, PartialEq, Eq, Structural)]
pub struct EdgeRecord {
    pub gx: i16,
    pub gy: i16,
}

impl EdgeRecord {
    /// The squared length of the gradient. It is zero exactly for the zero
    /// gradient.
    pub open spec fn spec_squared_length(self) -> int {
        self.gx * self.gx + self.gy * self.gy
    }

    /// The squared length of the gradient.
    pub fn squared_length(self) -> (s: u32)
        ensures
            s == self.spec_squared_length(),
    {
        assert(0 <= self.gx * self.gx <= 0x4000_0000 && 0 <= self.gy * self.gy <= 0x4000_0000)
            by (nonlinear_arith)
            requires
                -0x8000 <= self.gx <= 0x8000,
                -0x8000 <= self.gy <= 0x8000,
        ;
        let gx: i64 = self.gx as i64;
        let gy: i64 = self.gy as i64;
        (gx * gx + gy * gy) as u32
    }
}

/// The record of a pixel without an edge.
pub open spec fn zero_record() -> EdgeRecord {
    EdgeRecord { gx: 0, gy: 0 }
}

/// A grid of gradients, one per pixel.
pub type GradientField = Plane<EdgeRecord>;

/// Sobel kernel for the horizontal derivative, row by row.
pub const HORIZONTAL_SOBEL: [i32; 9] = [-1, 0, 1, -2, 0, 2, -1, 0, 1];

/// Sobel kernel for the vertical derivative, row by row.
pub const VERTICAL_SOBEL: [i32; 9] = [-1, -2, -1, 0, 0, 0, 1, 2, 1];

/// `v` moved to the nearest value of `0 .. n`.
pub open spec fn clamp_coordinate(v: int, n: int) -> int {
    if v < 0 {
        0
    } else if v >= n {
        n - 1
    } else {
        v
    }
}

/// The sample at `(x, y)`, where a position outside the image stands for the
/// nearest position inside it.
pub open spec fn sample(img: Grid<u8>, x: int, y: int) -> int {
    img.at(clamp_coordinate(x, img.width), clamp_coordinate(y, img.height)) as int
}

/// The sampler reads inside the image, wherever the window lies.
pub proof fn lemma_sample_reads_inside(img: Grid<u8>, x: int, y: int)
    requires
        img.width > 0,
        img.height > 0,
    ensures
        img.contains(clamp_coordinate(x, img.width), clamp_coordinate(y, img.height)),
{
}

/// Entry `k` of the kernel times the sample that it weighs, for the window
/// centred at `(x, y)`.
pub open spec fn tap(img: Grid<u8>, kernel: Seq<i32>, x: int, y: int, k: int) -> int {
    sample(img, x + k % 3 - 1, y + k / 3 - 1) * kernel[k]
}

/// The sum of the first `n` taps of the window centred at `(x, y)`.
pub open spec fn convolve_upto(img: Grid<u8>, kernel: Seq<i32>, x: int, y: int, n: nat) -> int
    decreases n,
{
    if n == 0 {
        0
    } else {
        convolve_upto(img, kernel, x, y, (n - 1) as nat) + tap(img, kernel, x, y, n - 1)
    }
}

/// The response of the 3x3 kernel at `(x, y)`.
pub open spec fn convolve(img: Grid<u8>, kernel: Seq<i32>, x: int, y: int) -> int {
    convolve_upto(img, kernel, x, y, 9)
}

/// `v` moved to the nearest value that an `i16` holds.
pub open spec fn clamp_spec(v: int) -> int {
    if v < i16::MAX {
        if v > i16::MIN {
            v
        } else {
            i16::MIN as int
        }
    } else {
        i16::MAX as int
    }
}

/// The gradient at `(x, y)`: both kernel responses, each clamped to `i16`.
pub open spec fn gradient_at(img: Grid<u8>, hk: Seq<i32>, vk: Seq<i32>, x: int, y: int) -> EdgeRecord {
    EdgeRecord {
        gx: clamp_spec(convolve(img, hk, x, y)) as i16,
        gy: clamp_spec(convolve(img, vk, x, y)) as i16,
    }
}

/// The gradient field of an image.
pub open spec fn gradient_field(img: Grid<u8>, hk: Seq<i32>, vk: Seq<i32>) -> Grid<EdgeRecord> {
    Grid::build(img.width, img.height, |x: int, y: int| gradient_at(img, hk, vk, x, y))
}

/// Clamps a kernel response to the range of `i16`.
pub fn clamp(x: i32) -> (r: i16)
    ensures
        r == clamp_spec(x as int),
{
    if x < i16::MAX as i32 {
        if x > i16::MIN as i32 {
            x as i16
        } else {
            i16::MIN
        }
    } else {
        i16::MAX
    }
}

/// The largest size that one tap can have: a sample of 255 under a weight
/// of `i32::MIN`.
const TAP_LIMIT: i64 = 547_608_330_240;

/// Adds one weighted sample to a running kernel response.
fn accumulate(acc: i64, pixel: u8, weight: i32) -> (r: i64)
    requires
        -8 * TAP_LIMIT <= acc <= 8 * TAP_LIMIT,
    ensures
        r == acc + pixel * weight,
        -TAP_LIMIT <= pixel * weight <= TAP_LIMIT,
{
    assert(-255 * 0x8000_0000 <= pixel * weight <= 255 * 0x8000_0000) by (nonlinear_arith)
        requires
            0 <= pixel <= 255,
            -0x8000_0000 <= weight <= 0x8000_0000,
    ;
    acc + (pixel as i64) * (weight as i64)
}

/// Moves a kernel response to the nearest value that an `i32` holds. What
/// `clamp` makes of the result is what the response itself clamps to.
fn saturate(v: i64) -> (r: i32)
    ensures
        clamp_spec(r as int) == clamp_spec(v as int),
{
    if v > i32::MAX as i64 {
        i32::MAX
    } else if v < i32::MIN as i64 {
        i32::MIN
    } else {
        v as i32
    }
}

/// Moves a coordinate to the nearest value of `0 .. n`.
fn clamped_coordinate(v: i64, n: u32) -> (r: u32)
    requires
        0 < n,
    ensures
        r == clamp_coordinate(v as int, n as int),
        r < n,
{
    if v < 0 {
        0
    } else if v >= n as i64 {
        n - 1
    } else {
        v as u32
    }
}

/// Reads the sample at `(x, y)` of an image that has pixels; a position
/// outside the image stands for the nearest position inside it.
fn sample_inside(image: &GrayImage, x: i64, y: i64) -> (v: u8)
    requires
        image@.width > 0,
        image@.height > 0,
    ensures
        v == sample(image@, x as int, y as int),
{
    let x_p: u32 = clamped_coordinate(x, image.width());
    let y_p: u32 = clamped_coordinate(y, image.height());
    image.get_pixel(x_p, y_p)
}

/// Reads the sample at `(x, y)`, where a position outside the image stands
/// for the nearest position inside it. Every read of the gradient builder
/// goes through this sampler. An image without pixels has no samples.
pub fn sample_clamped(image: &GrayImage, x: i64, y: i64) -> (r: Option<u8>)
    ensures
        r.is_some() == (image@.width > 0 && image@.height > 0),
        r matches Some(v) ==> v == sample(image@, x as int, y as int),
{
    if image.width() == 0 || image.height() == 0 {
        None
    } else {
        Some(sample_inside(image, x, y))
    }
}

/// Computes the gradient field of `image` under the horizontal kernel `hdata`
/// and the vertical kernel `vdata`, both given row by row. An image without
/// pixels has no gradient field.
pub fn filter(image: &GrayImage, hdata: [i32; 9], vdata: [i32; 9]) -> (r: Result<
    GradientField,
    EdgeError,
>)
    ensures
        r.is_ok() == (image@.width > 0 && image@.height > 0),
        r matches Ok(field) ==> field@ == gradient_field(image@, hdata@, vdata@),
        r matches Err(e) ==> e == EdgeError::InvalidDimensions,
{
    let width: u32 = image.width();
    let height: u32 = image.height();
    if width == 0 || height == 0 {
        return Err(EdgeError::InvalidDimensions);
    }
    let mut field: GradientField = Plane::filled(width, height, EdgeRecord { gx: 0, gy: 0 });
    let ghost goal = gradient_field(image@, hdata@, vdata@);
    let mut y: u32 = 0;
    while y < height
        invariant
            y <= height,
            0 < width == image@.width,
            0 < height == image@.height,
            image@.wf(),
            field@.wf(),
            field@.width == width,
            field@.height == height,
            goal == gradient_field(image@, hdata@, vdata@),
            forall|i: int, j: int| 0 <= i < width && 0 <= j < y ==> field@.at(i, j) == goal.at(i, j),
        decreases height - y,
    {
        let mut x: u32 = 0;
        while x < width
            invariant
                y < height,
                x <= width,
                0 < width == image@.width,
                0 < height == image@.height,
                image@.wf(),
                field@.wf(),
                field@.width == width,
                field@.height == height,
                goal == gradient_field(image@, hdata@, vdata@),
                forall|i: int, j: int|
                    0 <= i < width && 0 <= j < y ==> field@.at(i, j) == goal.at(i, j),
                forall|i: int| 0 <= i < x ==> field@.at(i, y as int) == goal.at(i, y as int),
            decreases width - x,
        {
            let mut hacc: i64 = 0;
            let mut vacc: i64 = 0;
            let mut k_y: u32 = 0;
            while k_y < 3
                invariant
                    k_y <= 3,
                    x < width,
                    y < height,
                    width == image@.width,
                    height == image@.height,
                    hacc == convolve_upto(image@, hdata@, x as int, y as int, (3 * k_y) as nat),
                    vacc == convolve_upto(image@, vdata@, x as int, y as int, (3 * k_y) as nat),
                    -3 * k_y * TAP_LIMIT <= hacc <= 3 * k_y * TAP_LIMIT,
                    -3 * k_y * TAP_LIMIT <= vacc <= 3 * k_y * TAP_LIMIT,
                decreases 3 - k_y,
            {
                let mut k_x: u32 = 0;
                while k_x < 3
                    invariant
                        k_x <= 3,
                        k_y < 3,
                        x < width,
                        y < height,
                        0 < width == image@.width,
                        height == image@.height,
                        hacc == convolve_upto(
                            image@,
                            hdata@,
                            x as int,
                            y as int,
                            (3 * k_y + k_x) as nat,
                        ),
                        vacc == convolve_upto(
                            image@,
                            vdata@,
                            x as int,
                            y as int,
                            (3 * k_y + k_x) as nat,
                        ),
                        -(3 * k_y + k_x) * TAP_LIMIT <= hacc <= (3 * k_y + k_x) * TAP_LIMIT,
                        -(3 * k_y + k_x) * TAP_LIMIT <= vacc <= (3 * k_y + k_x) * TAP_LIMIT,
                    decreases 3 - k_x,
                {
                    let p: u8 = sample_inside(
                        image,
                        x as i64 + k_x as i64 - 1,
                        y as i64 + k_y as i64 - 1,
                    );
                    let k: usize = (k_y * 3 + k_x) as usize;
                    hacc = accumulate(hacc, p, hdata[k]);
                    vacc = accumulate(vacc, p, vdata[k]);
                    k_x = k_x + 1;
                }
                k_y = k_y + 1;
            }
            let h: i16 = clamp(saturate(hacc));
            let v: i16 = clamp(saturate(vacc));
            proof {
                lemma_put(field@, x as int, y as int, EdgeRecord { gx: h, gy: v });
            }
            field.set(x, y, EdgeRecord { gx: h, gy: v });
            x = x + 1;
        }
        y = y + 1;
    }
    proof {
        assert forall|j: int| 0 <= j < height implies #[trigger] field@.rows[j] =~= goal.rows[j] by {
            assert forall|i: int| 0 <= i < width implies field@.rows[j][i] == goal.rows[j][i] by {
                assert(field@.at(i, j) == goal.at(i, j));
            }
        }
        assert(field@ =~~= goal);
    }
    Ok(field)
}

/// For `u` between `-m` and `m`, the square of `u` is at most that of `m`.
proof fn lemma_square_le(u: int, m: int)
    requires
        -m <= u <= m,
    ensures
        u * u <= m * m,
{
    assert(u * u <= m * m) by (nonlinear_arith)
        requires
            -m <= u <= m,
    ;
}

/// The largest squared length of a Sobel gradient, as a bound on two linear
/// forms of four differences of samples.
proof fn lemma_sobel_square_bound(r: int, s: int, p: int, q: int)
    requires
        -255 <= r <= 255,
        -255 <= s <= 255,
        -255 <= p <= 255,
        -255 <= q <= 255,
    ensures
        (r + s + 2 * p) * (r + s + 2 * p) + (r - s + 2 * q) * (r - s + 2 * q) <= 1_300_500,
{
    let a = if r + s < 0 { -(r + s) } else { r + s };
    let b = if r - s < 0 { -(r - s) } else { r - s };
    assert(a + b <= 510);
    lemma_square_le(r + s + 2 * p, a + 510);
    lemma_square_le(r - s + 2 * q, b + 510);
    assert((a + 510) * (a + 510) + (b + 510) * (b + 510) <= 1_300_500) by (nonlinear_arith)
        requires
            0 <= a,
            0 <= b,
            a + b <= 510,
    ;
}

/// Under the Sobel kernels neither response leaves `-1020 ..= 1020`, so no
/// clamp truncates, and the squared length is at most `1_300_500`, the
/// square of `2 * sqrt(5) * 255`.
pub proof fn lemma_sobel_bounds(img: Grid<u8>, x: int, y: int)
    requires
        img.wf(),
        img.contains(x, y),
    ensures
        -1020 <= convolve(img, HORIZONTAL_SOBEL@, x, y) <= 1020,
        -1020 <= convolve(img, VERTICAL_SOBEL@, x, y) <= 1020,
        gradient_at(img, HORIZONTAL_SOBEL@, VERTICAL_SOBEL@, x, y).gx == convolve(
            img,
            HORIZONTAL_SOBEL@,
            x,
            y,
        ),
        gradient_at(img, HORIZONTAL_SOBEL@, VERTICAL_SOBEL@, x, y).gy == convolve(
            img,
            VERTICAL_SOBEL@,
            x,
            y,
        ),
        gradient_at(img, HORIZONTAL_SOBEL@, VERTICAL_SOBEL@, x, y).spec_squared_length() <= 1_300_500,
        gradient_field(img, HORIZONTAL_SOBEL@, VERTICAL_SOBEL@).at(x, y) == gradient_at(
            img,
            HORIZONTAL_SOBEL@,
            VERTICAL_SOBEL@,
            x,
            y,
        ),
{
    reveal_with_fuel(convolve_upto, 10);
    let s0 = sample(img, x - 1, y - 1);
    let s1 = sample(img, x, y - 1);
    let s2 = sample(img, x + 1, y - 1);
    let s3 = sample(img, x - 1, y);
    let s5 = sample(img, x + 1, y);
    let s6 = sample(img, x - 1, y + 1);
    let s7 = sample(img, x, y + 1);
    let s8 = sample(img, x + 1, y + 1);
    let gx = convolve(img, HORIZONTAL_SOBEL@, x, y);
    let gy = convolve(img, VERTICAL_SOBEL@, x, y);
    let hk = HORIZONTAL_SOBEL@;
    let vk = VERTICAL_SOBEL@;
    assert(hk[0] == -1 && hk[1] == 0 && hk[2] == 1 && hk[3] == -2 && hk[4] == 0 && hk[5] == 2
        && hk[6] == -1 && hk[7] == 0 && hk[8] == 1);
    assert(vk[0] == -1 && vk[1] == -2 && vk[2] == -1 && vk[3] == 0 && vk[4] == 0 && vk[5] == 0
        && vk[6] == 1 && vk[7] == 2 && vk[8] == 1);
    assert(tap(img, hk, x, y, 0) == -s0 && tap(img, vk, x, y, 0) == -s0);
    assert(tap(img, hk, x, y, 1) == 0 && tap(img, vk, x, y, 1) == -2 * s1);
    assert(tap(img, hk, x, y, 2) == s2 && tap(img, vk, x, y, 2) == -s2);
    assert(tap(img, hk, x, y, 3) == -2 * s3 && tap(img, vk, x, y, 3) == 0);
    assert(tap(img, hk, x, y, 4) == 0 && tap(img, vk, x, y, 4) == 0);
    assert(tap(img, hk, x, y, 5) == 2 * s5 && tap(img, vk, x, y, 5) == 0);
    assert(tap(img, hk, x, y, 6) == -s6 && tap(img, vk, x, y, 6) == s6);
    assert(tap(img, hk, x, y, 7) == 0 && tap(img, vk, x, y, 7) == 2 * s7);
    assert(tap(img, hk, x, y, 8) == s8 && tap(img, vk, x, y, 8) == s8);
    assert(gx == (s2 - s0) + 2 * (s5 - s3) + (s8 - s6));
    assert(gy == (s6 - s0) + 2 * (s7 - s1) + (s8 - s2));
    lemma_sobel_square_bound(s8 - s0, s2 - s6, s5 - s3, s7 - s1);
}

} // verus!
