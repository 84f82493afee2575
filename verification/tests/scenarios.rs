use roundshadow::pipeline::{apply, ShadowError, ShadowParams, DEFAULT_BLUR_RADIUS};
use roundshadow::raster::Raster;

fn opaque_red(w: usize, h: usize) -> Raster {
    let mut pixels = Vec::new();
    for _ in 0..w * h {
        pixels.extend_from_slice(&[255, 0, 0, 255]);
    }
    Raster::from_pixels(w, h, pixels).unwrap()
}

fn params(
    corner_radius: u32,
    offset_x: i32,
    offset_y: i32,
    blur_radius: u32,
    spread: u32,
    alpha: u8,
) -> ShadowParams {
    ShadowParams { corner_radius, offset_x, offset_y, blur_radius, spread, alpha }
}

#[test]
fn canvas_fits_layers_for_any_offset_sign() {
    let src = opaque_red(12, 12);
    // Padding is 26 + 2 * 5 = 36 on every side.
    for &(ox, oy) in &[(0i32, 0i32), (-50, -50), (50, -50)] {
        let out = apply(&src, params(4, ox, oy, 5, 26, 150)).unwrap();
        assert_eq!(out.width(), 12 + ox.unsigned_abs() as usize + 72);
        assert_eq!(out.height(), 12 + oy.unsigned_abs() as usize + 72);
    }
}

#[test]
fn plain_parameters_reduce_to_rounded_source() {
    let src = opaque_red(6, 6);
    let out = apply(&src, params(0, 0, 0, 0, 0, 150)).unwrap();
    // No padding, no offset: the canvas is the source's own size, and the
    // fully opaque source hides the silhouette entirely.
    assert_eq!(out.width(), 6);
    assert_eq!(out.height(), 6);
    for y in 0..6 {
        for x in 0..6 {
            assert_eq!(out.get(x, y, 0), 255);
            assert_eq!(out.get(x, y, 1), 0);
            assert_eq!(out.get(x, y, 2), 0);
            assert_eq!(out.get(x, y, 3), 255);
        }
    }
}

#[test]
fn end_to_end_red_square() {
    let src = opaque_red(100, 100);
    let out = apply(&src, params(10, -20, -20, DEFAULT_BLUR_RADIUS, 26, 150)).unwrap();
    // Strictly wider and taller than 100 + 26 * 2 + 20.
    assert!(out.width() > 100 + 26 * 2 + 20);
    assert!(out.height() > 100 + 26 * 2 + 20);
    let w = out.width();
    let h = out.height();
    // All four extreme corners are fully transparent.
    assert_eq!(out.get(0, 0, 3), 0);
    assert_eq!(out.get(w - 1, 0, 3), 0);
    assert_eq!(out.get(0, h - 1, 3), 0);
    assert_eq!(out.get(w - 1, h - 1, 3), 0);
    // The source sits at padding + |offset| = 56 in from each origin edge;
    // its interior is solid red at full alpha.
    for &(x, y) in &[(100usize, 100usize), (60, 60), (151, 151), (56 + 50, 56 + 10)] {
        assert_eq!(out.get(x, y, 0), 255);
        assert_eq!(out.get(x, y, 1), 0);
        assert_eq!(out.get(x, y, 2), 0);
        assert_eq!(out.get(x, y, 3), 255);
    }
}

#[test]
fn oversized_radius_rounds_fully_without_failing() {
    let src = opaque_red(20, 20);
    let out = apply(&src, params(1000, -5, -5, 1, 2, 150)).unwrap();
    // Padding is 2 + 2 = 4; the source sits at 4 + 5 = 9 in from the origin.
    assert_eq!(out.width(), 20 + 5 + 8);
    // The source's own corners were rounded away: at the source corner the
    // canvas shows only shadow, which is black.
    assert_eq!(out.get(9, 9, 0), 0);
    // The source centre is untouched red.
    assert_eq!(out.get(19, 19, 0), 255);
    assert_eq!(out.get(19, 19, 3), 255);
}

#[test]
fn empty_raster_is_refused() {
    let none = Raster::from_pixels(0, 0, Vec::new()).unwrap();
    assert_eq!(
        apply(&none, params(8, -20, -20, 5, 26, 150)).unwrap_err(),
        ShadowError::InvalidDimensions
    );
    let flat = Raster::from_pixels(5, 0, Vec::new()).unwrap();
    assert_eq!(
        apply(&flat, params(8, -20, -20, 5, 26, 150)).unwrap_err(),
        ShadowError::InvalidDimensions
    );
}

#[test]
fn overflowing_canvas_is_refused() {
    let src = opaque_red(4, 4);
    // A spread this large would overflow the canvas size computation.
    let huge = params(0, 0, 0, 0, u32::MAX, 150);
    let r = apply(&src, huge);
    assert_eq!(r.unwrap_err(), ShadowError::InvalidDimensions);
}
