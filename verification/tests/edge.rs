use edge_detection_wasm::color::Color;
use edge_detection_wasm::edge::canny;
use edge_detection_wasm::error::EdgeError;
use edge_detection_wasm::raster::{GrayImage, RgbaImage};

const ORANGE: u32 = 4288554239;

const ORANGE_COLOR: Color = Color { r: 255, g: 158, b: 36, a: 255 };

fn frame(width: u32, height: u32) -> Vec<u8> {
    (0..4 * width * height).map(|i| (i % 251) as u8).collect()
}

/// Runs the detector and returns, for each pixel, whether it was painted; every unpainted
/// pixel is checked to be unchanged.
fn run(width: u32, height: u32, gray: Vec<u8>, low: u32, high: u32, thick: bool) -> Vec<u8> {
    let image = GrayImage::from_raw(width, height, gray).unwrap();
    let before = frame(width, height);
    let mut buf = RgbaImage::from_raw(width, height, before.clone()).unwrap();
    assert_eq!(canny(&image, &mut buf, low, high, ORANGE, thick), Ok(()));
    assert_eq!(buf.width(), width);
    assert_eq!(buf.height(), height);
    let after = buf.into_raw();
    assert_eq!(after.len(), before.len());
    let mut painted = Vec::new();
    for i in 0..(width * height) as usize {
        if after[4 * i..4 * i + 4] == [255, 158, 36, 255] {
            painted.push(1);
        } else {
            assert_eq!(after[4 * i..4 * i + 4], before[4 * i..4 * i + 4]);
            painted.push(0);
        }
    }
    painted
}

#[test]
fn a_vertical_step_is_painted_where_it_is_steepest() {
    // columns 0 and 1 are dark, columns 2 to 4 are bright: the Sobel response is the same in
    // columns 1 and 2, which both survive suppression
    let gray = [0u8, 0, 255, 255, 255].repeat(5);
    let painted = run(5, 5, gray, 20, 100, false);
    for y in 0..5 {
        for x in 0..5 {
            let interior_row = (1..4).contains(&y);
            assert_eq!(painted[y * 5 + x], (interior_row && (x == 1 || x == 2)) as u8);
        }
    }
    for y in 1..4 {
        assert_eq!(painted[y * 5 + 2], 1);
    }
}

#[test]
fn a_vertical_ramp_is_painted_in_one_column() {
    let gray = [0u8, 0, 128, 255, 255].repeat(5);
    let painted = run(5, 5, gray, 20, 100, false);
    for y in 0..5 {
        for x in 0..5 {
            assert_eq!(painted[y * 5 + x], ((1..4).contains(&y) && x == 2) as u8);
        }
    }
}

#[test]
fn a_thick_stroke_widens_the_step() {
    let gray = [0u8, 0, 255, 255, 255].repeat(5);
    let painted = run(5, 5, gray, 20, 100, true);
    for y in 0..5 {
        for x in 0..5 {
            assert_eq!(painted[y * 5 + x], ((1..4).contains(&y) && x <= 3) as u8);
        }
    }
}

#[test]
fn a_uniform_image_has_no_edges() {
    for (low, high) in [(20u32, 100u32), (150, 300), (1, 1), (0, 1), (0, 1140), (1140, 1141)] {
        for thick in [false, true] {
            assert_eq!(run(5, 5, vec![128; 25], low, high, thick), vec![0; 25]);
        }
    }
}

#[test]
fn a_zero_high_threshold_makes_every_interior_pixel_a_seed() {
    let painted = run(4, 4, vec![128; 16], 0, 0, false);
    assert_eq!(painted, vec![1; 16]);
    let painted = run(2, 2, vec![128; 4], 0, 0, false);
    assert_eq!(painted, vec![0; 4]);
}

#[test]
fn a_high_threshold_below_the_low_one_is_refused() {
    let image = GrayImage::from_raw(5, 5, [0u8, 0, 255, 255, 255].repeat(5)).unwrap();
    let before = frame(5, 5);
    let mut buf = RgbaImage::from_raw(5, 5, before.clone()).unwrap();
    assert_eq!(canny(&image, &mut buf, 100, 20, ORANGE, false), Err(EdgeError::InvalidParameters));
    assert_eq!(buf.into_raw(), before);
    let mut buf = RgbaImage::from_raw(5, 5, before.clone()).unwrap();
    assert_eq!(canny(&image, &mut buf, 1, 0, ORANGE, true), Err(EdgeError::InvalidParameters));
    assert_eq!(buf.into_raw(), before);
}

#[test]
fn an_empty_image_is_refused() {
    let image = GrayImage::from_raw(0, 5, vec![]).unwrap();
    let mut buf = RgbaImage::from_raw(0, 5, vec![]).unwrap();
    assert_eq!(canny(&image, &mut buf, 20, 100, ORANGE, false), Err(EdgeError::InvalidDimensions));
    let image = GrayImage::from_raw(5, 0, vec![]).unwrap();
    let mut buf = RgbaImage::from_raw(5, 5, frame(5, 5)).unwrap();
    assert_eq!(canny(&image, &mut buf, 100, 20, ORANGE, false), Err(EdgeError::InvalidDimensions));
    assert_eq!(buf.into_raw(), frame(5, 5));
}

#[test]
fn a_frame_of_another_shape_is_refused() {
    let image = GrayImage::from_raw(5, 4, vec![0; 20]).unwrap();
    let before = frame(4, 5);
    let mut buf = RgbaImage::from_raw(4, 5, before.clone()).unwrap();
    assert_eq!(canny(&image, &mut buf, 20, 100, ORANGE, false), Err(EdgeError::BufferSizeMismatch));
    assert_eq!(buf.into_raw(), before);
    let mut buf = RgbaImage::from_raw(4, 5, before.clone()).unwrap();
    assert_eq!(canny(&image, &mut buf, 100, 20, ORANGE, false), Err(EdgeError::BufferSizeMismatch));
}

#[test]
fn small_images_are_left_alone() {
    for (w, h) in [(1u32, 1u32), (2, 2), (1, 4), (4, 1), (2, 3)] {
        let n = (w * h) as usize;
        let gray: Vec<u8> = (0..n).map(|i| if i % 2 == 0 { 0 } else { 255 }).collect();
        assert_eq!(run(w, h, gray, 20, 100, true), vec![0; n]);
    }
}

#[test]
fn three_by_three_has_one_interior_pixel() {
    let painted = run(3, 3, vec![0, 0, 255, 0, 0, 255, 0, 0, 255], 20, 100, false);
    assert_eq!(painted, vec![0, 0, 0, 0, 1, 0, 0, 0, 0]);
    let painted = run(3, 3, vec![0, 0, 255, 0, 0, 255, 0, 0, 255], 20, 100, true);
    assert_eq!(painted, vec![0, 0, 0, 1, 1, 1, 0, 0, 0]);
    let painted = run(3, 3, vec![0, 0, 255, 0, 0, 255, 0, 0, 255], 20, 1021, false);
    assert_eq!(painted, vec![0; 9]);
    let painted = run(3, 3, vec![0, 0, 255, 0, 0, 255, 0, 0, 255], 20, 1020, false);
    assert_eq!(painted, vec![0, 0, 0, 0, 1, 0, 0, 0, 0]);
}

#[test]
fn a_mixed_image_under_several_thresholds() {
    let img = vec![
        90, 30, 200, 128, 0, 0, 64, 255, 0, 90, 255, 0, 255, 30, 0, 0, 200, 200, 0, 30, 0, 255, 200, 0, 64,
        255, 0, 30, 128, 128,
    ];
    let thin = vec![0, 0, 0, 0, 0, 0, 0, 0, 0, 0, 0, 0, 0, 1, 0, 1, 0, 0, 0, 0, 0, 1, 0, 0, 0, 0, 0, 0, 0, 0];
    let thick = vec![0, 0, 0, 0, 0, 0, 1, 0, 0, 0, 0, 0, 0, 1, 1, 1, 1, 0, 0, 0, 1, 1, 1, 0, 0, 0, 0, 0, 0, 0];
    for (low, high) in [(150u32, 300u32), (300, 500), (600, 600)] {
        assert_eq!(run(6, 5, img.clone(), low, high, false), thin);
        assert_eq!(run(6, 5, img.clone(), low, high, true), thick);
    }
    assert_eq!(run(6, 5, img.clone(), 0, 600, false), vec![1; 30]);
    assert_eq!(run(6, 5, img.clone(), 100, 1000, true), vec![0; 30]);
}

#[test]
fn the_paint_colour_is_the_hue() {
    let image = GrayImage::from_raw(3, 3, vec![0, 0, 255, 0, 0, 255, 0, 0, 255]).unwrap();
    let mut buf = RgbaImage::from_raw(3, 3, vec![0; 36]).unwrap();
    assert_eq!(canny(&image, &mut buf, 20, 100, ORANGE, false), Ok(()));
    assert_eq!(buf.get_pixel(1, 1), ORANGE_COLOR);
    assert_eq!(buf.get_pixel(0, 0), Color { r: 0, g: 0, b: 0, a: 0 });
}
