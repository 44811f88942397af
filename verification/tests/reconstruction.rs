//! End-to-end and per-stage tests of the photometric-stereo pipeline,
//! driven by synthetic data with known ground truth.

use normals_from_shading::arith::SCALE;
use normals_from_shading::normal_utils::{
    corner_flatten, edge_flatten, generate_lighting_direction, generate_normals, normal_tilt,
    reorient_normals, seed_normal_field, EstimateError, NormalField,
};
use normals_from_shading::radiance_map::RadianceMap;
use normals_from_shading::solver::least_squares;
use normals_from_shading::vec3::{normalize, Vec3, UNIT_TOL};
use normals_from_shading::{generate_normal_map, normal_map_bytes};

fn unit(x: i64, y: i64, z: i64) -> Vec3 {
    normalize(&Vec3 { x, y, z }).expect("non-zero vector")
}

fn mag_sq(v: &Vec3) -> i64 {
    v.x * v.x + v.y * v.y + v.z * v.z
}

fn assert_unit(v: &Vec3) {
    let m = mag_sq(v);
    assert!(SCALE * SCALE - UNIT_TOL <= m && m <= SCALE * SCALE, "magnitude off: {}", m);
}

/// Angle of `v` to the camera axis, in degrees.
fn angle_to_z(v: &Vec3) -> f64 {
    let x = v.x as f64;
    let y = v.y as f64;
    let z = v.z as f64;
    (z / (x * x + y * y + z * z).sqrt()).acos().to_degrees()
}

/// Angle between two vectors, in degrees.
fn angle_between(a: &Vec3, b: &Vec3) -> f64 {
    let dot = (a.x as f64) * (b.x as f64) + (a.y as f64) * (b.y as f64) + (a.z as f64) * (b.z
        as f64);
    let ma = ((a.x as f64).powi(2) + (a.y as f64).powi(2) + (a.z as f64).powi(2)).sqrt();
    let mb = ((b.x as f64).powi(2) + (b.y as f64).powi(2) + (b.z as f64).powi(2)).sqrt();
    (dot / (ma * mb)).clamp(-1.0, 1.0).acos().to_degrees()
}

/// A radiance sample of uniform dimensions whose luminance at every pixel
/// is `max(0, truth . light)`, for a flat camera-facing ground truth.
fn flat_truth_sample(w: usize, h: usize, light: Vec3) -> RadianceMap {
    let lum = if light.z > 0 { light.z } else { 0 };
    RadianceMap {
        lighting_direction: Vec3 { x: 0, y: 0, z: SCALE },
        width: w,
        height: h,
        radiance: vec![lum; w * h],
    }
}

#[test]
fn normalize_axis_exact() {
    let v = normalize(&Vec3 { x: 131072, y: 0, z: 0 }).unwrap();
    assert_eq!(v, Vec3 { x: SCALE, y: 0, z: 0 });
    let w = normalize(&Vec3 { x: 0, y: 0, z: -7 }).unwrap();
    assert_eq!(w, Vec3 { x: 0, y: 0, z: -SCALE });
}

#[test]
fn normalize_zero_is_none() {
    assert!(normalize(&Vec3 { x: 0, y: 0, z: 0 }).is_none());
}

#[test]
fn normalize_yields_unit_lengths() {
    for &(x, y, z) in &[
        (1i64, 2, 3),
        (-40000, 25, 7),
        (123456789, -987654321, 555),
        (1, 1, 1),
        (-1, 0, 1),
    ] {
        let v = unit(x, y, z);
        assert_unit(&v);
        // The direction is preserved: signs match the input.
        assert!(v.x as i128 * x as i128 >= 0);
        assert!(v.y as i128 * y as i128 >= 0);
        assert!(v.z as i128 * z as i128 >= 0);
    }
}

// A normal field keeps unit magnitudes through every stage.
#[test]
fn seed_field_is_unit() {
    let f = seed_normal_field(5, 7);
    assert_eq!(f.normals.len(), 35);
    for v in &f.normals {
        assert_unit(v);
    }
}

#[test]
fn reorientation_keeps_unit_magnitudes() {
    let f = reorient_normals(&seed_normal_field(6, 4));
    for v in &f.normals {
        assert_unit(v);
    }
}

#[test]
fn flattening_keeps_unit_magnitudes() {
    let f = seed_normal_field(8, 8);
    for v in &corner_flatten(&f).normals {
        assert_unit(v);
    }
    for v in &edge_flatten(&f).normals {
        assert_unit(v);
    }
    let tilt = normal_tilt(
        &f,
        &unit(1, 0, 4),
        &unit(-1, 0, 4),
        &unit(0, 1, 4),
        &unit(0, -1, 4),
    );
    for v in &tilt.normals {
        assert_unit(v);
    }
}

// Reorientation is idempotent up to tolerance: after two applications the
// mean normal lies on the camera axis and a further application changes
// nothing appreciable.
#[test]
fn reorientation_idempotent() {
    // A uniformly tilted field, clearly off the camera axis.
    let tilted = unit(3000, -2000, 60000);
    let f0 = NormalField { width: 6, height: 6, normals: vec![tilted; 36] };
    let f1 = reorient_normals(&f0);
    let f2 = reorient_normals(&f1);
    let mean = |f: &NormalField| {
        let mut s = Vec3 { x: 0, y: 0, z: 0 };
        for v in &f.normals {
            s.x += v.x;
            s.y += v.y;
            s.z += v.z;
        }
        s
    };
    assert!(angle_to_z(&mean(&f2)) < 0.5, "mean after two passes: {}", angle_to_z(&mean(&f2)));
    let f3 = reorient_normals(&f2);
    for (a, b) in f2.normals.iter().zip(f3.normals.iter()) {
        assert!(angle_between(a, b) < 0.5);
    }
}

#[test]
fn reorientation_antiparallel_unchanged() {
    // A field whose mean points exactly away from the camera: the rotation
    // is undefined and the field is returned unchanged.
    let down = Vec3 { x: 0, y: 0, z: -SCALE };
    let f = NormalField { width: 2, height: 2, normals: vec![down; 4] };
    let r = reorient_normals(&f);
    assert_eq!(r.normals, f.normals);
}

// The Normal Estimator recovers a known flat ground truth from three
// non-collinear lighting directions.
#[test]
fn normal_estimator_recovers_flat_truth() {
    let lights = [unit(16384, 0, 65536), unit(0, 16384, 65536), unit(-12000, -12000, 65536)];
    let maps: Vec<RadianceMap> = lights
        .iter()
        .map(|l| {
            let mut m = flat_truth_sample(4, 4, *l);
            m.lighting_direction = *l;
            m
        })
        .collect();
    let f = generate_normals(&maps).expect("well-posed system");
    for v in &f.normals {
        assert_unit(v);
        assert!(angle_to_z(v) < 1.0, "angle {}", angle_to_z(v));
    }
}

// The solver reports "no solution" for a rank-deficient system: two equal
// rows and an arbitrary third, whatever the right-hand side.
#[test]
fn least_squares_rank_deficient() {
    let r = unit(9000, -3000, 60000);
    let t = unit(-20000, 500, 50000);
    let rows = vec![r, r, t];
    for b in [vec![0i64, 0, 0], vec![100, -200, 65536], vec![65536, 65536, 65536]] {
        assert!(least_squares(&rows, &b).is_none());
    }
}

#[test]
fn least_squares_exactly_determined() {
    // The identity system recovers b itself (axis-aligned unit rows).
    let rows = vec![
        Vec3 { x: SCALE, y: 0, z: 0 },
        Vec3 { x: 0, y: SCALE, z: 0 },
        Vec3 { x: 0, y: 0, z: SCALE },
    ];
    let b = vec![120i64, -3400, 56000];
    let s = least_squares(&rows, &b).expect("non-singular");
    // x solves (K a) . x = K b, so x equals b exactly here.
    assert_eq!((s.x, s.y, s.z), (120, -3400, 56000));
}

#[test]
fn lighting_estimator_zero_luminance_is_zero_solution() {
    let field = seed_normal_field(4, 4);
    let dark = vec![0i64; 16];
    assert_eq!(generate_lighting_direction(&field, &dark), Err(EstimateError::ZeroSolution));
}

#[test]
fn normal_estimator_duplicate_directions_singular() {
    let l = unit(500, 300, 65000);
    let mut a = flat_truth_sample(3, 3, l);
    a.lighting_direction = l;
    let mut b = flat_truth_sample(3, 3, l);
    b.lighting_direction = l;
    let mut c = flat_truth_sample(3, 3, unit(-400, 100, 65000));
    c.lighting_direction = unit(-400, 100, 65000);
    let maps = vec![a, b, c];
    assert!(matches!(generate_normals(&maps), Err(EstimateError::SingularSystem)));
}

// One boundary-flattening pass reduces the average angular deviation of the
// edge pixels from the camera axis, for the synthetic dome seed.
#[test]
fn flattening_reduces_edge_deviation() {
    let f = seed_normal_field(8, 8);
    let edge_deviation = |f: &NormalField| {
        let (w, h) = (f.width, f.height);
        let mut total = 0.0f64;
        let mut count = 0usize;
        for y in 0..h {
            for x in 0..w {
                if x == 0 || y == 0 || x == w - 1 || y == h - 1 {
                    total += angle_to_z(&f.normals[y * w + x]);
                    count += 1;
                }
            }
        }
        total / count as f64
    };
    let before = edge_deviation(&f);
    let after_corner = edge_deviation(&corner_flatten(&f));
    assert!(after_corner < before, "corner: {} -> {}", before, after_corner);
    let after_edge = edge_deviation(&edge_flatten(&f));
    assert!(after_edge < before, "edge: {} -> {}", before, after_edge);
}

/// Synthetic radiance samples: the luminance every pixel of `truth` shows
/// under each light, `max(0, truth . light)`.
fn synthetic_samples(truth: &NormalField, lights: &[Vec3]) -> Vec<RadianceMap> {
    lights
        .iter()
        .map(|l| {
            let radiance: Vec<i64> = truth
                .normals
                .iter()
                .map(|n| {
                    let d = (n.x as i128 * l.x as i128 + n.y as i128 * l.y as i128 + n.z as i128
                        * l.z as i128) / (SCALE as i128);
                    if d > 0 { d as i64 } else { 0 }
                })
                .collect();
            RadianceMap {
                lighting_direction: Vec3 { x: 0, y: 0, z: SCALE },
                width: truth.width,
                height: truth.height,
                radiance,
            }
        })
        .collect()
}

// End to end: three synthetic 4 x 4 images under three known,
// non-collinear lighting directions; four refinement rounds and ten
// flattening passes recover a stable, camera-facing field.
//
// A strictly flat ground truth would make every image uniform, which
// collapses the three fitted lighting directions into one and leaves the
// per-pixel systems singular (exactly the rank-deficiency the solver
// detects), so the images are rendered from the non-flat dome instead.
#[test]
fn normal_map_generation() {
    let truth = seed_normal_field(4, 4);
    let lights = [unit(16384, 0, 65536), unit(0, 16384, 65536), unit(-12000, -12000, 65536)];
    let maps = synthetic_samples(&truth, &lights);
    match generate_normal_map(maps, 4, 10) {
        Ok((field, samples)) => {
            assert_eq!(field.width, 4);
            assert_eq!(field.height, 4);
            for v in &field.normals {
                assert_unit(v);
                assert!(angle_to_z(v) < 5.0, "normal angle {}", angle_to_z(v));
            }
            for (s, l) in samples.iter().zip(lights.iter()) {
                assert!(
                    angle_between(&s.lighting_direction, l) < 10.0,
                    "light angle {}",
                    angle_between(&s.lighting_direction, l)
                );
            }
            let bytes = normal_map_bytes(&field);
            assert_eq!(bytes.len(), 3 * 16);
        },
        Err(e) => panic!("pipeline failed: {:?}", e),
    }
}

// At 8 x 8 the dome is fine enough for the lighting estimates to land
// within five degrees of their ground truths, and the flattened normals
// within five degrees of the camera axis.
#[test]
fn end_to_end_recovery() {
    let truth = seed_normal_field(8, 8);
    let lights = [unit(16384, 0, 65536), unit(0, 16384, 65536), unit(-12000, -12000, 65536)];
    let maps = synthetic_samples(&truth, &lights);
    let (field, samples) = generate_normal_map(maps, 4, 10).expect("well-posed reconstruction");
    for (s, l) in samples.iter().zip(lights.iter()) {
        assert!(
            angle_between(&s.lighting_direction, l) < 5.0,
            "light angle {}",
            angle_between(&s.lighting_direction, l)
        );
    }
    for v in &field.normals {
        assert_unit(v);
        assert!(angle_to_z(v) < 5.0, "normal angle {}", angle_to_z(v));
    }
}

#[test]
fn normal_map_bytes_exact_values() {
    let f = NormalField {
        width: 3,
        height: 1,
        normals: vec![
            Vec3 { x: SCALE, y: 0, z: 0 },
            Vec3 { x: 0, y: -SCALE, z: 0 },
            Vec3 { x: 0, y: 0, z: SCALE },
        ],
    };
    let bytes = normal_map_bytes(&f);
    // round(c * 128 + 128), saturated at 255.
    assert_eq!(bytes, vec![255, 128, 128, 128, 0, 128, 128, 128, 255]);
}
