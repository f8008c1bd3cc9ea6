use edge_detection_wasm::color::Color;
use edge_detection_wasm::edge::hysteresis;
use edge_detection_wasm::error::EdgeError;
use edge_detection_wasm::gradient::{EdgeRecord, GradientField};
use edge_detection_wasm::link::{link_edges, reaches_threshold};
use edge_detection_wasm::paint::paint_edges;
use edge_detection_wasm::plane::Plane;
use edge_detection_wasm::raster::RgbaImage;

const GX: [i16; 30] = [
    11, 266, 129, -345, -474, -255, 97, -273, -262, 510, -108, -510, -229, -574, 0, 855, 55, -455, 26, -319,
    195, 728, -212, -400, 603, -192, -450, 584, 39, -200,
];

const GY: [i16; 30] = [
    147, 224, -213, -21, 472, 255, 495, -35, -528, -256, 472, 800, -417, -514, -60, 275, 55, -55, -348, 259,
    255, -12, -186, -288, 417, 514, 0, -522, -241, 312,
];

fn field_of(width: u32, height: u32, gx: &[i16], gy: &[i16]) -> GradientField {
    let cells: Vec<EdgeRecord> = gx.iter().zip(gy.iter()).map(|(x, y)| EdgeRecord { gx: *x, gy: *y }).collect();
    Plane::from_cells(width, height, cells).unwrap()
}

fn lengths(width: u32, height: u32, gx: &[i16]) -> GradientField {
    field_of(width, height, gx, &vec![0; gx.len()])
}

fn bits(mask: &Plane<bool>) -> Vec<u8> {
    let mut out = Vec::new();
    for y in 0..mask.height() {
        for x in 0..mask.width() {
            out.push(mask.get(x, y) as u8);
        }
    }
    out
}

fn painted(img: &RgbaImage, color: Color) -> Vec<u8> {
    let mut out = Vec::new();
    for y in 0..img.height() {
        for x in 0..img.width() {
            out.push((img.get_pixel(x, y) == color) as u8);
        }
    }
    out
}

fn blank(width: u32, height: u32) -> RgbaImage {
    RgbaImage::from_raw(width, height, vec![7; (4 * width * height) as usize]).unwrap()
}

const RED: Color = Color { r: 255, g: 0, b: 0, a: 255 };

#[test]
fn threshold_is_compared_with_the_length() {
    let r = EdgeRecord { gx: 3, gy: 4 };
    assert!(reaches_threshold(r, 0));
    assert!(reaches_threshold(r, 5));
    assert!(!reaches_threshold(r, 6));
    assert!(!reaches_threshold(r, u32::MAX));
    assert!(reaches_threshold(EdgeRecord { gx: 0, gy: 0 }, 0));
    assert!(!reaches_threshold(EdgeRecord { gx: 0, gy: 0 }, 1));
    assert!(reaches_threshold(EdgeRecord { gx: -32768, gy: -32768 }, 46340));
    assert!(!reaches_threshold(EdgeRecord { gx: -32768, gy: -32768 }, 46341));
}

#[test]
fn a_seed_draws_its_weak_chain() {
    // a seed at (1, 1) with weak pixels around it, some of them on the border
    let f = lengths(
        5,
        4,
        &[
            0, 0, 0, 0, 0, //
            0, 9, 5, 0, 5, //
            5, 0, 0, 5, 0, //
            0, 0, 0, 0, 5,
        ],
    );
    assert_eq!(
        bits(&link_edges(&f, 5, 9)),
        vec![
            0, 0, 0, 0, 0, //
            0, 1, 1, 0, 1, //
            1, 0, 0, 1, 0, //
            0, 0, 0, 0, 1,
        ]
    );
    assert_eq!(
        bits(&link_edges(&f, 6, 9)),
        vec![
            0, 0, 0, 0, 0, //
            0, 1, 0, 0, 0, //
            0, 0, 0, 0, 0, //
            0, 0, 0, 0, 0,
        ]
    );
    assert_eq!(bits(&link_edges(&f, 5, 10)), vec![0; 20]);
}

#[test]
fn weak_pixels_without_a_seed_are_no_edges() {
    let f = lengths(4, 4, &[5; 16]);
    assert_eq!(bits(&link_edges(&f, 5, 6)), vec![0; 16]);
    assert_eq!(bits(&link_edges(&f, 5, 5)), vec![1; 16]);
}

#[test]
fn a_strong_border_pixel_is_no_seed() {
    let f = lengths(
        3,
        3,
        &[
            9, 9, 9, //
            9, 0, 9, //
            9, 9, 9,
        ],
    );
    assert_eq!(bits(&link_edges(&f, 1, 9)), vec![0; 9]);
    let g = lengths(
        3,
        3,
        &[
            9, 0, 0, //
            0, 9, 0, //
            0, 0, 1,
        ],
    );
    assert_eq!(bits(&link_edges(&g, 1, 9)), vec![1, 0, 0, 0, 1, 0, 0, 0, 1]);
}

#[test]
fn a_long_winding_chain_is_followed_to_its_end() {
    let f = lengths(
        7,
        5,
        &[
            0, 0, 0, 0, 0, 0, 0, //
            0, 9, 0, 3, 3, 3, 0, //
            0, 3, 0, 3, 0, 3, 0, //
            0, 3, 3, 3, 0, 3, 0, //
            0, 0, 0, 0, 0, 0, 3,
        ],
    );
    assert_eq!(
        bits(&link_edges(&f, 3, 9)),
        vec![
            0, 0, 0, 0, 0, 0, 0, //
            0, 1, 0, 1, 1, 1, 0, //
            0, 1, 0, 1, 0, 1, 0, //
            0, 1, 1, 1, 0, 1, 0, //
            0, 0, 0, 0, 0, 0, 1,
        ]
    );
}

#[test]
fn linking_a_mixed_field() {
    let f = field_of(6, 5, &GX, &GY);
    assert_eq!(
        bits(&link_edges(&f, 200, 400)),
        vec![0, 1, 1, 1, 1, 1, 1, 1, 1, 1, 1, 1, 1, 1, 0, 1, 0, 1, 1, 1, 1, 1, 1, 1, 1, 1, 1, 1, 1, 1]
    );
    assert_eq!(
        bits(&link_edges(&f, 500, 700)),
        vec![0, 0, 0, 0, 1, 0, 1, 0, 1, 1, 0, 1, 0, 1, 0, 1, 0, 0, 0, 0, 0, 1, 0, 0, 0, 0, 0, 1, 0, 0]
    );
}

#[test]
fn small_fields_have_no_edges() {
    for (w, h) in [(0u32, 0u32), (1, 1), (2, 2), (2, 7), (7, 2)] {
        let n = (w * h) as usize;
        let mask = link_edges(&lengths(w, h, &vec![1000; n]), 0, 0);
        assert_eq!(mask.width(), w);
        assert_eq!(mask.height(), h);
        assert_eq!(bits(&mask), vec![0; n]);
    }
}

#[test]
fn raising_a_threshold_never_adds_an_edge() {
    let f = field_of(6, 5, &GX, &GY);
    let thresholds = [0u32, 100, 200, 300, 400, 500, 600, 700, 900];
    for &weak in &thresholds {
        for &strong in &thresholds {
            let base: u32 = bits(&link_edges(&f, weak, strong)).iter().map(|b| *b as u32).sum();
            for &more in &thresholds {
                if more >= strong {
                    let n: u32 = bits(&link_edges(&f, weak, more)).iter().map(|b| *b as u32).sum();
                    assert!(n <= base);
                }
                if more >= weak {
                    let n: u32 = bits(&link_edges(&f, more, strong)).iter().map(|b| *b as u32).sum();
                    assert!(n <= base);
                }
            }
        }
    }
}

#[test]
fn painting_colours_the_marked_pixels_only() {
    let f = lengths(3, 3, &[0; 9]);
    let mask = Plane::from_cells(3, 3, vec![true, false, false, false, false, false, false, false, true]).unwrap();
    let mut img = blank(3, 3);
    assert_eq!(paint_edges(&mask, &f, &mut img, RED, false), Ok(()));
    assert_eq!(painted(&img, RED), vec![1, 0, 0, 0, 0, 0, 0, 0, 1]);
    let out = img.into_raw();
    assert_eq!(&out[0..4], &[255, 0, 0, 255]);
    assert_eq!(&out[4..32], &[7; 28]);
    assert_eq!(&out[32..36], &[255, 0, 0, 255]);
}

#[test]
fn a_thick_stroke_adds_the_pixels_across_the_edge() {
    // one marked pixel in the middle, under each of the four directions
    let mask = Plane::from_cells(3, 3, vec![false, false, false, false, true, false, false, false, false]).unwrap();
    let cases: [((i16, i16), [u8; 9]); 4] = [
        ((5, 0), [0, 0, 0, 1, 1, 1, 0, 0, 0]),
        ((0, 5), [0, 1, 0, 0, 1, 0, 0, 1, 0]),
        ((5, 5), [1, 0, 0, 0, 1, 0, 0, 0, 1]),
        ((-5, 5), [0, 0, 1, 0, 1, 0, 1, 0, 0]),
    ];
    for ((gx, gy), expected) in cases {
        let f = field_of(3, 3, &[gx; 9], &[gy; 9]);
        let mut img = blank(3, 3);
        assert_eq!(paint_edges(&mask, &f, &mut img, RED, true), Ok(()));
        assert_eq!(painted(&img, RED), expected.to_vec());
        let mut thin = blank(3, 3);
        assert_eq!(paint_edges(&mask, &f, &mut thin, RED, false), Ok(()));
        assert_eq!(painted(&thin, RED), vec![0, 0, 0, 0, 1, 0, 0, 0, 0]);
    }
}

#[test]
fn a_thick_stroke_stops_at_the_border() {
    let mask = Plane::from_cells(2, 2, vec![true, false, false, true]).unwrap();
    let f = field_of(2, 2, &[5; 4], &[5; 4]);
    let mut img = blank(2, 2);
    assert_eq!(paint_edges(&mask, &f, &mut img, RED, true), Ok(()));
    assert_eq!(painted(&img, RED), vec![1, 0, 0, 1]);
    let g = field_of(2, 2, &[5; 4], &[0; 4]);
    let mut img = blank(2, 2);
    assert_eq!(paint_edges(&mask, &g, &mut img, RED, true), Ok(()));
    assert_eq!(painted(&img, RED), vec![1, 1, 1, 1]);
}

#[test]
fn painting_refuses_parts_of_different_shapes() {
    let mask = Plane::from_cells(2, 2, vec![true; 4]).unwrap();
    let tall = Plane::from_cells(1, 4, vec![true; 4]).unwrap();
    let f = field_of(2, 2, &[5; 4], &[5; 4]);
    let mut img = blank(2, 2);
    assert_eq!(paint_edges(&tall, &f, &mut img, RED, true), Err(EdgeError::BufferSizeMismatch));
    assert_eq!(img.into_raw(), vec![7; 16]);
    let mut wide = blank(4, 1);
    assert_eq!(paint_edges(&mask, &f, &mut wide, RED, false), Err(EdgeError::BufferSizeMismatch));
    assert_eq!(wide.into_raw(), vec![7; 16]);
    let g = field_of(4, 1, &[5; 4], &[5; 4]);
    let mut img = blank(2, 2);
    assert_eq!(paint_edges(&mask, &g, &mut img, RED, false), Err(EdgeError::BufferSizeMismatch));
    assert_eq!(img.into_raw(), vec![7; 16]);
}

#[test]
fn hysteresis_paints_the_linked_edges() {
    let f = field_of(6, 5, &GX, &GY);
    let mut img = blank(6, 5);
    assert_eq!(hysteresis(&f, &mut img, 500, 700, 0xff0000ff, false), Ok(()));
    assert_eq!(
        painted(&img, RED),
        vec![0, 0, 0, 0, 1, 0, 1, 0, 1, 1, 0, 1, 0, 1, 0, 1, 0, 0, 0, 0, 0, 1, 0, 0, 0, 0, 0, 1, 0, 0]
    );
    let mut img = blank(6, 5);
    assert_eq!(hysteresis(&f, &mut img, 500, 700, 0xff0000ff, true), Ok(()));
    assert_eq!(
        painted(&img, RED),
        vec![1, 1, 0, 0, 1, 0, 1, 0, 1, 1, 0, 1, 1, 1, 1, 1, 1, 0, 0, 0, 1, 1, 1, 0, 0, 0, 0, 1, 0, 0]
    );
}

#[test]
fn hysteresis_refuses_a_high_threshold_below_the_low_one() {
    let f = field_of(6, 5, &GX, &GY);
    let mut img = blank(6, 5);
    assert_eq!(hysteresis(&f, &mut img, 301, 300, 0xff0000ff, true), Err(EdgeError::InvalidParameters));
    assert_eq!(img.into_raw(), vec![7; 120]);
    let mut img = blank(6, 5);
    assert_eq!(hysteresis(&f, &mut img, 300, 300, 0xff0000ff, false), Ok(()));
}

#[test]
fn hysteresis_refuses_an_image_of_another_shape() {
    let f = field_of(6, 5, &GX, &GY);
    let mut img = blank(5, 6);
    assert_eq!(hysteresis(&f, &mut img, 100, 300, 0xff0000ff, true), Err(EdgeError::BufferSizeMismatch));
    assert_eq!(img.into_raw(), vec![7; 120]);
    let mut img = blank(5, 6);
    assert_eq!(hysteresis(&f, &mut img, 300, 100, 0xff0000ff, true), Err(EdgeError::BufferSizeMismatch));
}
