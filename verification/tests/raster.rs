use edge_detection_wasm::color::{hue_to_rgba, Color};
use edge_detection_wasm::plane::Plane;
use edge_detection_wasm::raster::{GrayImage, RgbaImage};

#[test]
fn gray_from_raw_needs_exact_length() {
    assert!(GrayImage::from_raw(2, 2, vec![0, 1, 2]).is_none());
    assert!(GrayImage::from_raw(2, 2, vec![0, 1, 2, 3, 4]).is_none());
    let img = GrayImage::from_raw(2, 2, vec![10, 20, 30, 40]).unwrap();
    assert_eq!(img.width(), 2);
    assert_eq!(img.height(), 2);
    assert_eq!(img.get_pixel(0, 0), 10);
    assert_eq!(img.get_pixel(1, 0), 20);
    assert_eq!(img.get_pixel(0, 1), 30);
    assert_eq!(img.get_pixel(1, 1), 40);
}

#[test]
fn gray_from_raw_is_row_major() {
    let img = GrayImage::from_raw(3, 2, vec![1, 2, 3, 4, 5, 6]).unwrap();
    assert_eq!(img.width(), 3);
    assert_eq!(img.height(), 2);
    assert_eq!(img.get_pixel(2, 0), 3);
    assert_eq!(img.get_pixel(0, 1), 4);
    assert_eq!(img.get_pixel(2, 1), 6);
}

#[test]
fn gray_new_is_zero_and_put_changes_one_sample() {
    let mut img = GrayImage::new(3, 2);
    assert_eq!(img.width(), 3);
    assert_eq!(img.height(), 2);
    for y in 0..2 {
        for x in 0..3 {
            assert_eq!(img.get_pixel(x, y), 0);
        }
    }
    img.put_pixel(2, 1, 99);
    for y in 0..2 {
        for x in 0..3 {
            assert_eq!(img.get_pixel(x, y), if (x, y) == (2, 1) { 99 } else { 0 });
        }
    }
}

#[test]
fn gray_image_may_be_empty() {
    let img = GrayImage::from_raw(0, 7, vec![]).unwrap();
    assert_eq!(img.width(), 0);
    assert_eq!(img.height(), 7);
    assert!(GrayImage::from_raw(0, 7, vec![1]).is_none());
}

#[test]
fn rgba_from_raw_needs_exact_length() {
    assert!(RgbaImage::from_raw(1, 2, vec![0; 7]).is_none());
    assert!(RgbaImage::from_raw(1, 2, vec![0; 9]).is_none());
    assert!(RgbaImage::from_raw(1, 2, vec![0; 2]).is_none());
    let img = RgbaImage::from_raw(1, 2, vec![0; 8]).unwrap();
    assert_eq!(img.width(), 1);
    assert_eq!(img.height(), 2);
}

#[test]
fn rgba_round_trip() {
    let data: Vec<u8> = (0..24).collect();
    let img = RgbaImage::from_raw(3, 2, data.clone()).unwrap();
    assert_eq!(img.get_pixel(0, 0), Color { r: 0, g: 1, b: 2, a: 3 });
    assert_eq!(img.get_pixel(2, 1), Color { r: 20, g: 21, b: 22, a: 23 });
    assert_eq!(img.into_raw(), data);
}

#[test]
fn rgba_put_changes_four_bytes() {
    let data: Vec<u8> = (0..24).collect();
    let mut img = RgbaImage::from_raw(3, 2, data.clone()).unwrap();
    img.put_pixel(1, 0, hue_to_rgba(0x01020304));
    assert_eq!(img.get_pixel(1, 0), Color { r: 1, g: 2, b: 3, a: 4 });
    assert_eq!(img.get_pixel(0, 0), Color { r: 0, g: 1, b: 2, a: 3 });
    let out = img.into_raw();
    assert_eq!(&out[4..8], &[1, 2, 3, 4]);
    assert_eq!(&out[..4], &data[..4]);
    assert_eq!(&out[8..], &data[8..]);
}

#[test]
fn to_gray_takes_the_brightness_of_each_pixel() {
    let data: Vec<u8> = vec![
        255, 0, 0, 255, 0, 255, 0, 255, 0, 0, 255, 255, 255, 255, 255, 0, 128, 128, 128, 7, 10, 20, 30, 40,
        200, 100, 50, 1, 0, 0, 0, 255,
    ];
    let img = RgbaImage::from_raw(4, 2, data).unwrap();
    let gray = img.to_gray();
    assert_eq!(gray.width(), 4);
    assert_eq!(gray.height(), 2);
    let expected = [54u8, 182, 18, 255, 128, 18, 117, 0];
    for y in 0..2u32 {
        for x in 0..4u32 {
            assert_eq!(gray.get_pixel(x, y), expected[(y * 4 + x) as usize]);
        }
    }
}

#[test]
fn to_gray_ignores_alpha() {
    let one = RgbaImage::from_raw(1, 1, vec![200, 100, 50, 0]).unwrap();
    let two = RgbaImage::from_raw(1, 1, vec![200, 100, 50, 255]).unwrap();
    assert_eq!(one.to_gray().get_pixel(0, 0), 117);
    assert_eq!(two.to_gray().get_pixel(0, 0), 117);
}

#[test]
fn plane_filled_and_set() {
    let mut p: Plane<bool> = Plane::filled(3, 2, false);
    assert_eq!(p.width(), 3);
    assert_eq!(p.height(), 2);
    p.set(1, 1, true);
    for y in 0..2 {
        for x in 0..3 {
            assert_eq!(p.get(x, y), (x, y) == (1, 1));
        }
    }
}

#[test]
fn plane_from_cells_needs_exact_length() {
    assert!(Plane::from_cells(2, 3, vec![0u8; 5]).is_none());
    assert!(Plane::from_cells(2, 3, vec![0u8; 7]).is_none());
    let p = Plane::from_cells(2, 3, vec![1u8, 2, 3, 4, 5, 6]).unwrap();
    assert_eq!(p.get(1, 0), 2);
    assert_eq!(p.get(0, 1), 3);
    assert_eq!(p.get(1, 2), 6);
    let empty = Plane::from_cells(0, 0, Vec::<u8>::new()).unwrap();
    assert_eq!(empty.width(), 0);
}
