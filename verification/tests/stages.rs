use roundshadow::compose::compose;
use roundshadow::math::isqrt;
use roundshadow::raster::Raster;
use roundshadow::round::round;
use roundshadow::shadow::{box_blur_h, box_blur_v, cleanup, synthesize};

fn solid(w: usize, h: usize, rgba: [u8; 4]) -> Raster {
    let mut pixels = Vec::new();
    for _ in 0..w * h {
        pixels.extend_from_slice(&rgba);
    }
    Raster::from_pixels(w, h, pixels).unwrap()
}

#[test]
fn isqrt_exact_squares_and_between() {
    assert_eq!(isqrt(0), 0);
    assert_eq!(isqrt(1), 1);
    assert_eq!(isqrt(15), 3);
    assert_eq!(isqrt(16), 4);
    assert_eq!(isqrt(65025), 255);
    assert_eq!(isqrt(520200), 721);
    assert_eq!(isqrt(0xffff_ffff_ffff), 16777215);
}

#[test]
fn from_pixels_checks_length() {
    assert!(Raster::from_pixels(2, 2, vec![0u8; 16]).is_some());
    assert!(Raster::from_pixels(2, 2, vec![0u8; 15]).is_none());
    assert!(Raster::from_pixels(0, 0, Vec::new()).is_some());
}

#[test]
fn round_zero_radius_is_identity() {
    let mut pixels = Vec::new();
    for i in 0..4 * 4 * 4 {
        pixels.push((i * 37 % 256) as u8);
    }
    let src = Raster::from_pixels(4, 4, pixels.clone()).unwrap();
    let out = round(&src, 0);
    assert_eq!(out.into_pixels(), pixels);
}

#[test]
fn round_feathers_corners_and_keeps_interior() {
    let src = solid(8, 8, [10, 20, 30, 255]);
    let out = round(&src, 2);
    // (0, 0): squared corner distance 8 > 4; feather 765 - isqrt(520200) = 44.
    assert_eq!(out.get(0, 0, 3), 44);
    // (0, 1): squared corner distance 5 > 4; feather 765 - isqrt(325125) = 195.
    assert_eq!(out.get(0, 1, 3), 195);
    // (1, 1): squared corner distance 2 <= 4: kept.
    assert_eq!(out.get(1, 1, 3), 255);
    // Pixels outside the corner squares are untouched.
    assert_eq!(out.get(4, 4, 3), 255);
    assert_eq!(out.get(4, 0, 3), 255);
    // RGB channels are never modified.
    for x in 0..8 {
        for y in 0..8 {
            assert_eq!(out.get(x, y, 0), 10);
            assert_eq!(out.get(x, y, 1), 20);
            assert_eq!(out.get(x, y, 2), 30);
        }
    }
}

#[test]
fn round_caps_feather_with_original_alpha() {
    let src = solid(8, 8, [0, 0, 0, 100]);
    let out = round(&src, 2);
    // Feather at (0, 1) would be 195, but the original alpha is lower.
    assert_eq!(out.get(0, 1, 3), 100);
    // Fully outside the feather band the alpha is cleared.
    assert_eq!(out.get(0, 0, 3), 44);
}

#[test]
fn round_huge_radius_is_clamped() {
    let src = solid(20, 20, [255, 0, 0, 255]);
    let out = round(&src, 1000);
    // Clamped to radius 10: the extreme corners fall fully transparent.
    assert_eq!(out.get(0, 0, 3), 0);
    assert_eq!(out.get(19, 0, 3), 0);
    assert_eq!(out.get(0, 19, 3), 0);
    assert_eq!(out.get(19, 19, 3), 0);
    // The centre keeps its alpha.
    assert_eq!(out.get(10, 10, 3), 255);
}

#[test]
fn box_blur_averages_row_window() {
    let mut pixels = vec![0u8; 3 * 4];
    pixels[0] = 30; // red of pixel 0
    pixels[4] = 60; // red of pixel 1
    pixels[8] = 90; // red of pixel 2
    let src = Raster::from_pixels(3, 1, pixels).unwrap();
    let out = box_blur_h(&src, 1);
    assert_eq!(out.get(0, 0, 0), 30); // (0 + 30 + 60) / 3
    assert_eq!(out.get(1, 0, 0), 60); // (30 + 60 + 90) / 3
    assert_eq!(out.get(2, 0, 0), 50); // (60 + 90 + 0) / 3
}

#[test]
fn box_blur_averages_column_window() {
    let mut pixels = vec![0u8; 3 * 4];
    pixels[3] = 120; // alpha of row 0
    pixels[7] = 240; // alpha of row 1
    pixels[11] = 60; // alpha of row 2
    let src = Raster::from_pixels(1, 3, pixels).unwrap();
    let out = box_blur_v(&src, 1);
    assert_eq!(out.get(0, 0, 3), 120); // (0 + 120 + 240) / 3
    assert_eq!(out.get(0, 1, 3), 140); // (120 + 240 + 60) / 3
    assert_eq!(out.get(0, 2, 3), 100); // (240 + 60 + 0) / 3
}

#[test]
fn compose_blends_alpha_over() {
    let rounded = Raster::from_pixels(1, 1, vec![100, 40, 20, 128]).unwrap();
    let shadow = Raster::from_pixels(1, 1, vec![0, 0, 0, 75]).unwrap();
    let out = compose(&rounded, &shadow, 0, 0, 0);
    assert_eq!(out.width(), 1);
    assert_eq!(out.height(), 1);
    assert_eq!(out.get(0, 0, 0), 50); // (0 * 127 + 100 * 128) / 255
    assert_eq!(out.get(0, 0, 1), 20); // (0 * 127 + 40 * 128) / 255
    assert_eq!(out.get(0, 0, 2), 10); // (0 * 127 + 20 * 128) / 255
    assert_eq!(out.get(0, 0, 3), 165); // 128 + 75 * 127 / 255
}

#[test]
fn cleanup_scales_by_alpha_root() {
    let src = Raster::from_pixels(2, 1, vec![200, 100, 50, 100, 7, 7, 7, 0]).unwrap();
    let out = cleanup(&src);
    // isqrt(255 * 100) = 159; each channel becomes v * 159 / 255.
    assert_eq!(out.get(0, 0, 0), 124);
    assert_eq!(out.get(0, 0, 1), 62);
    assert_eq!(out.get(0, 0, 2), 31);
    assert_eq!(out.get(0, 0, 3), 62);
    // A pixel with zero alpha is cleared entirely.
    for c in 0..4 {
        assert_eq!(out.get(1, 0, c), 0);
    }
}

#[test]
fn synthesize_grows_canvas_when_blur_or_spread() {
    let src = solid(5, 5, [1, 2, 3, 200]);
    let blurred = synthesize(&src, 1, 0, 150);
    assert_eq!(blurred.width(), 9); // 5 + 2 * (0 + 2 * 1)
    assert_eq!(blurred.height(), 9);
    let spread_only = synthesize(&src, 0, 3, 150);
    assert_eq!(spread_only.width(), 11); // 5 + 2 * 3
    assert_eq!(spread_only.height(), 11);
    let plain = synthesize(&src, 0, 0, 150);
    assert_eq!(plain.width(), 5);
    assert_eq!(plain.height(), 5);
}

#[test]
fn synthesize_is_black_everywhere() {
    let src = solid(6, 4, [250, 120, 60, 180]);
    let out = synthesize(&src, 2, 3, 150);
    for y in 0..out.height() {
        for x in 0..out.width() {
            assert_eq!(out.get(x, y, 0), 0);
            assert_eq!(out.get(x, y, 1), 0);
            assert_eq!(out.get(x, y, 2), 0);
        }
    }
}

#[test]
fn synthesize_plain_silhouette_alpha() {
    let src = Raster::from_pixels(2, 1, vec![9, 9, 9, 255, 9, 9, 9, 128]).unwrap();
    let out = synthesize(&src, 0, 0, 150);
    assert_eq!(out.width(), 2);
    assert_eq!(out.height(), 1);
    assert_eq!(out.get(0, 0, 3), 150); // 255 * 150 / 255
    assert_eq!(out.get(1, 0, 3), 75); // 128 * 150 / 255
}

#[test]
fn compose_dimensions_hold_both_layers() {
    let rounded = solid(10, 10, [255, 0, 0, 255]);
    // A shadow canvas with padding 4 on every side.
    let shadow = synthesize(&rounded, 2, 0, 150);
    assert_eq!(shadow.width(), 18);
    let out = compose(&rounded, &shadow, 7, -3, 4);
    assert_eq!(out.width(), 10 + 7 + 8);
    assert_eq!(out.height(), 10 + 3 + 8);
}
