//! Tests of the radiance-sample type: building samples from grayscale
//! rasters, exporting them, and balancing their brightness.

use normals_from_shading::arith::SCALE;
use normals_from_shading::radiance_map::{balance_radiances, RadianceMap};
use normals_from_shading::vec3::Vec3;

#[test]
fn from_luma_exact_fixed_point() {
    let luma: Vec<u8> = vec![0, 128, 255, 17, 200, 90];
    let m = RadianceMap::from_luma(3, 2, &luma).expect("valid dimensions");
    assert_eq!(m.width, 3);
    assert_eq!(m.height, 2);
    assert_eq!(m.lighting_direction, Vec3 { x: 0, y: 0, z: SCALE });
    // b * SCALE / 255, truncated.
    assert_eq!(m.radiance, vec![0, 32896, 65536, 4369, 51400, 23130]);
}

#[test]
fn from_luma_rejects_bad_shapes() {
    let luma: Vec<u8> = vec![1, 2, 3];
    assert!(RadianceMap::from_luma(2, 2, &luma).is_none());
    assert!(RadianceMap::from_luma(0, 3, &luma).is_none());
    assert!(RadianceMap::from_luma(3, 1, &luma).is_some());
}

#[test]
fn export_bytes_saturates() {
    let m = RadianceMap {
        lighting_direction: Vec3 { x: 0, y: 0, z: SCALE },
        width: 3,
        height: 1,
        radiance: vec![0, 65536, 51400],
    };
    let bytes = m.export_bytes();
    // v / 256, saturated at 255, one gray level over three channels.
    assert_eq!(bytes, vec![0, 0, 0, 255, 255, 255, 200, 200, 200]);
}

#[test]
fn balance_radiances_equalizes_averages() {
    let bright = RadianceMap {
        lighting_direction: Vec3 { x: 0, y: 0, z: SCALE },
        width: 1,
        height: 1,
        radiance: vec![65536],
    };
    let dim = RadianceMap {
        lighting_direction: Vec3 { x: 0, y: 0, z: SCALE },
        width: 1,
        height: 1,
        radiance: vec![32768],
    };
    let out = balance_radiances(&vec![bright, dim]);
    assert_eq!(out.len(), 2);
    // Both samples move to the common average brightness.
    assert_eq!(out[0].radiance, vec![49152]);
    assert_eq!(out[1].radiance, vec![49152]);
}

#[test]
fn balance_radiances_keeps_dark_sample() {
    let dark = RadianceMap {
        lighting_direction: Vec3 { x: 0, y: 0, z: SCALE },
        width: 2,
        height: 1,
        radiance: vec![0, 0],
    };
    let lit = RadianceMap {
        lighting_direction: Vec3 { x: 0, y: 0, z: SCALE },
        width: 2,
        height: 1,
        radiance: vec![100, 200],
    };
    let out = balance_radiances(&vec![dark, lit]);
    // A sample with no light at all has no average to scale by and is
    // returned unchanged.
    assert_eq!(out[0].radiance, vec![0, 0]);
}
