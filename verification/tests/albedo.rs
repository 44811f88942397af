//! Tests of the albedo pipeline: averaging, brightness tilting and the
//! corner rebalancing passes.

use normals_from_shading::albedo_utils::{
    average, brightness_tilt, corner_flatten, corner_weight_flatten, generate_albedo, RasterImage,
};
use normals_from_shading::arith::SCALE;

fn uniform(w: usize, h: usize, px: [u8; 4]) -> RasterImage {
    let mut rgba: Vec<u8> = Vec::new();
    for _ in 0..w * h {
        rgba.extend_from_slice(&px);
    }
    RasterImage { width: w, height: h, rgba }
}

#[test]
fn average_exact_channels() {
    let a = uniform(1, 1, [10, 20, 30, 255]);
    let b = uniform(1, 1, [20, 40, 50, 255]);
    let out = average(&vec![a, b]).expect("two images");
    assert_eq!(out.rgba, vec![15, 30, 40, 255]);
}

#[test]
fn average_empty_is_none() {
    let imgs: Vec<RasterImage> = Vec::new();
    assert!(average(&imgs).is_none());
}

#[test]
fn brightness_tilt_halves_at_factor_two() {
    let img = uniform(1, 1, [100, 200, 50, 7]);
    let f = 2 * SCALE;
    let out = brightness_tilt(&img, f, f, f, f);
    // Channels divide by the factor; alpha is kept.
    assert_eq!(out.rgba, vec![50, 100, 25, 7]);
}

#[test]
fn brightness_tilt_washes_out_at_zero() {
    let img = uniform(1, 1, [100, 0, 50, 9]);
    let out = brightness_tilt(&img, 0, 0, 0, 0);
    assert_eq!(out.rgba, vec![255, 0, 255, 9]);
}

#[test]
fn corner_flatten_keeps_uniform_image() {
    let img = uniform(4, 4, [100, 100, 100, 255]);
    let out = corner_flatten(&img);
    assert_eq!(out.rgba, img.rgba);
}

#[test]
fn corner_flatten_keeps_black_image() {
    let img = uniform(4, 4, [0, 0, 0, 255]);
    let out = corner_flatten(&img);
    assert_eq!(out.rgba, img.rgba);
}

#[test]
fn corner_weight_flatten_keeps_uniform_image() {
    let img = uniform(4, 4, [100, 100, 100, 255]);
    let out = corner_weight_flatten(&img);
    assert_eq!(out.rgba, img.rgba);
}

#[test]
fn corner_weight_flatten_brightens_dark_corner() {
    // A bright upper-left quadrant: its relative weight exceeds one, so its
    // own corner darkens and the opposite corner brightens.
    let mut img = uniform(4, 4, [100, 100, 100, 255]);
    for p in [0usize, 1, 4, 5] {
        img.rgba[4 * p] = 250;
        img.rgba[4 * p + 1] = 250;
        img.rgba[4 * p + 2] = 250;
    }
    let out = corner_weight_flatten(&img);
    // The lower-right pixel is divided by a factor below one.
    assert!(out.rgba[4 * 15] > 100);
    // The upper-left pixel is divided by a factor above one.
    assert!(out.rgba[0] < 250);
}

#[test]
fn albedo_generation() {
    let imgs = vec![
        uniform(4, 4, [90, 90, 90, 255]),
        uniform(4, 4, [110, 120, 100, 255]),
        uniform(4, 4, [100, 90, 110, 255]),
    ];
    let out = generate_albedo(&imgs, 10).expect("non-empty input");
    assert_eq!(out.width, 4);
    assert_eq!(out.height, 4);
    assert_eq!(out.rgba.len(), 4 * 16);
}

#[test]
fn albedo_generation_empty_is_none() {
    let imgs: Vec<RasterImage> = Vec::new();
    assert!(generate_albedo(&imgs, 10).is_none());
}
