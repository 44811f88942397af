//! The normal-field pipeline: seeding, the two least-squares estimators,
//! camera-facing reorientation, and boundary flattening.

use vstd::prelude::*;

use crate::arith::{tdiv, SCALE};
use crate::radiance_map::{radiance_wf, samples_wf, RadianceMap, DIM_LIMIT};
use crate::rotation::{rot_matrix_s, rotate_to_unit, rotate_unit_s, rotation_between};
use crate::solver::{least_squares, ls_solution, sys_det};
use crate::vec3::{bounded, camera_axis, camera_axis_s, dot_s, is_unit, lemma_mul_abs_bound,
    lemma_unit_coords, normalize, normalized, Vec3, MAX_COORD};

verus! {

/// A dense field of unit normals, one per pixel, in the row-major layout of
/// the radiance samples.
pub struct NormalField {
    pub width: usize,
    pub height: usize,
    pub normals: Vec<Vec3>,
}

/// Well-formedness of a normal field: plausible dimensions, one normal per
/// pixel, every normal of unit length. This is the invariant every stage of
/// the pipeline preserves.
pub open spec fn field_wf(f: NormalField) -> bool {
    &&& 1 <= f.width <= DIM_LIMIT
    &&& 1 <= f.height <= DIM_LIMIT
    &&& f.normals@.len() == f.width * f.height
    &&& forall|i: int| 0 <= i < f.normals@.len() ==> is_unit(#[trigger] f.normals@[i])
}

/// Why an estimation step failed.
#[derive(Clone, Copy, PartialEq, Eq, Structural, Debug)]
pub enum EstimateError {
    /// The normal equations were singular: fewer than three independent
    /// observations (the underconstrained case).
    SingularSystem,
    /// The least-squares solution was the zero vector, which has no
    /// direction to normalize.
    ZeroSolution,
}

/// The direction a least-squares fit recovers from observation rows and
/// observed brightness: the solution of the system, normalized to unit
/// length; an error exactly when the system is singular or the solution has
/// no direction.
#[verifier::opaque]
pub open spec fn solve_direction_spec(rows: Seq<Vec3>, bs: Seq<i64>) -> Result<
    Vec3,
    EstimateError,
> {
    if sys_det(rows) == 0 {
        Err(EstimateError::SingularSystem)
    } else {
        let s = ls_solution(rows, bs);
        if s.x == 0 && s.y == 0 && s.z == 0 {
            Err(EstimateError::ZeroSolution)
        } else {
            let n = normalized(s);
            Ok(Vec3 { x: n.0 as i64, y: n.1 as i64, z: n.2 as i64 })
        }
    }
}

/// Solve one system and normalize the solution.
fn solve_direction(rows: &Vec<Vec3>, bs: &Vec<i64>) -> (r: Result<Vec3, EstimateError>)
    requires
        rows@.len() == bs@.len(),
        rows@.len() >= 1,
        forall|i: int| 0 <= i < rows@.len() ==> bounded(#[trigger] rows@[i], SCALE as int),
        forall|i: int| 0 <= i < bs@.len() ==> -SCALE <= #[trigger] bs@[i] && bs@[i] <= SCALE,
    ensures
        r == solve_direction_spec(rows@, bs@),
        r matches Ok(u) ==> is_unit(u),
{
    proof {
        reveal(solve_direction_spec);
    }
    match least_squares(rows, bs) {
        None => Err(EstimateError::SingularSystem),
        Some(s) => {
            if s.x == 0 && s.y == 0 && s.z == 0 {
                Err(EstimateError::ZeroSolution)
            } else {
                match normalize(&s) {
                    None => Err(EstimateError::ZeroSolution),
                    Some(u) => Ok(u),
                }
            }
        },
    }
}

/// Estimate the lighting direction of one radiance sample from the current
/// normal field: the least-squares solution of
/// `normals . light = luminance`, normalized.
///
/// Fails with `SingularSystem` exactly when the field's normal equations
/// are singular (e.g. an entirely uniform field), and with `ZeroSolution`
/// exactly when the fitted direction vanishes.
pub fn generate_lighting_direction(normals: &NormalField, radiance: &Vec<i64>) -> (r: Result<
    Vec3,
    EstimateError,
>)
    requires
        field_wf(*normals),
        radiance@.len() == normals.normals@.len(),
        forall|i: int| 0 <= i < radiance@.len() ==> 0 <= #[trigger] radiance@[i] <= SCALE,
    ensures
        r == solve_direction_spec(normals.normals@, radiance@),
        r matches Ok(u) ==> is_unit(u),
{
    proof {
        assert((normals.width as int) * (normals.height as int) >= 1) by (nonlinear_arith)
            requires
                normals.width >= 1,
                normals.height >= 1,
        ;
        assert forall|i: int| 0 <= i < normals.normals@.len() implies bounded(
            #[trigger] normals.normals@[i],
            SCALE as int,
        ) by {
            lemma_unit_coords(normals.normals@[i]);
        }
    }
    solve_direction(&normals.normals, radiance)
}

/// The lighting directions of a sample set, in order.
pub open spec fn dirs_of(maps: Seq<RadianceMap>) -> Seq<Vec3> {
    Seq::new(maps.len(), |k: int| maps[k].lighting_direction)
}

/// The luminance every sample observed at pixel `p`.
pub open spec fn lums_at(maps: Seq<RadianceMap>, p: int) -> Seq<i64> {
    Seq::new(maps.len(), |k: int| maps[k].radiance@[p])
}

/// Estimate a normal at every pixel from the samples' current lighting
/// directions: per pixel, the least-squares solution of
/// `light_directions . normal = luminances`, normalized.
///
/// One failing pixel fails the whole batch (a missing normal would corrupt
/// the output raster): the result is an error exactly when some pixel's
/// system is singular or yields the zero solution.
pub fn generate_normals(radiance_maps: &Vec<RadianceMap>) -> (r: Result<NormalField, EstimateError>)
    requires
        radiance_maps@.len() >= 1,
        samples_wf(
            radiance_maps@,
            radiance_maps@[0].width as int,
            radiance_maps@[0].height as int,
        ),
    ensures
        (r is Err) <==> exists|p: int|
            0 <= p < radiance_maps@[0].width * radiance_maps@[0].height && !(solve_direction_spec(
                dirs_of(radiance_maps@),
                lums_at(radiance_maps@, p),
            ) is Ok),
        r matches Err(e) ==> exists|p: int|
            0 <= p < radiance_maps@[0].width * radiance_maps@[0].height && solve_direction_spec(
                dirs_of(radiance_maps@),
                lums_at(radiance_maps@, p),
            ) == Err::<Vec3, EstimateError>(e),
        r matches Ok(f) ==> {
            &&& field_wf(f)
            &&& f.width == radiance_maps@[0].width
            &&& f.height == radiance_maps@[0].height
            &&& forall|p: int|
                0 <= p < f.normals@.len() ==> solve_direction_spec(
                    dirs_of(radiance_maps@),
                    lums_at(radiance_maps@, p),
                ) == Ok::<Vec3, EstimateError>(#[trigger] f.normals@[p])
        },
{
    let kk = radiance_maps.len();
    let w = radiance_maps[0].width;
    let h = radiance_maps[0].height;
    proof {
        lemma_mul_abs_bound(w as int, h as int, DIM_LIMIT as int, DIM_LIMIT as int);
    }
    let npix: usize = w * h;

    let mut dirs: Vec<Vec3> = Vec::new();
    let mut k: usize = 0;
    while k < kk
        invariant
            k <= kk,
            kk == radiance_maps@.len(),
            samples_wf(radiance_maps@, w as int, h as int),
            dirs@.len() == k,
            forall|j: int|
                0 <= j < k ==> #[trigger] dirs@[j] == radiance_maps@[j].lighting_direction,
        decreases kk - k,
    {
        dirs.push(radiance_maps[k].lighting_direction);
        k = k + 1;
    }
    proof {
        assert(dirs@ =~= dirs_of(radiance_maps@));
        assert forall|i: int| 0 <= i < dirs@.len() implies bounded(
            #[trigger] dirs@[i],
            SCALE as int,
        ) by {
            lemma_unit_coords(dirs@[i]);
        }
    }

    let mut normals: Vec<Vec3> = Vec::new();
    let mut p: usize = 0;
    while p < npix
        invariant
            p <= npix,
            npix == w * h,
            kk == radiance_maps@.len() >= 1,
            samples_wf(radiance_maps@, w as int, h as int),
            w == radiance_maps@[0].width,
            h == radiance_maps@[0].height,
            dirs@ == dirs_of(radiance_maps@),
            forall|i: int| 0 <= i < dirs@.len() ==> bounded(#[trigger] dirs@[i], SCALE as int),
            normals@.len() == p,
            forall|q: int|
                0 <= q < p ==> solve_direction_spec(dirs_of(radiance_maps@), lums_at(
                    radiance_maps@,
                    q,
                )) == Ok::<Vec3, EstimateError>(#[trigger] normals@[q]),
            forall|q: int| 0 <= q < p ==> is_unit(#[trigger] normals@[q]),
        decreases npix - p,
    {
        let mut bvec: Vec<i64> = Vec::new();
        let mut k: usize = 0;
        while k < kk
            invariant
                k <= kk,
                p < npix,
                npix == w * h,
                kk == radiance_maps@.len(),
                samples_wf(radiance_maps@, w as int, h as int),
                w == radiance_maps@[0].width,
                h == radiance_maps@[0].height,
                bvec@.len() == k,
                forall|j: int|
                    0 <= j < k ==> #[trigger] bvec@[j] == radiance_maps@[j].radiance@[p as int],
            decreases kk - k,
        {
            let m = &radiance_maps[k];
            bvec.push(m.radiance[p]);
            k = k + 1;
        }
        proof {
            assert(bvec@ =~= lums_at(radiance_maps@, p as int));
            assert forall|j: int| 0 <= j < bvec@.len() implies -SCALE <= #[trigger] bvec@[j]
                && bvec@[j] <= SCALE by {
                assert(0 <= radiance_maps@[j].radiance@[p as int] <= SCALE);
            }
        }
        match solve_direction(&dirs, &bvec) {
            Err(e) => {
                return Err(e);
            },
            Ok(u) => {
                normals.push(u);
            },
        }
        p = p + 1;
    }
    proof {
        assert forall|q: int| 0 <= q < (w as int) * (h as int) implies (solve_direction_spec(
            dirs_of(radiance_maps@),
            lums_at(radiance_maps@, q),
        ) is Ok) by {
            assert(solve_direction_spec(dirs_of(radiance_maps@), lums_at(radiance_maps@, q))
                == Ok::<Vec3, EstimateError>(normals@[q]));
        }
    }
    Ok(NormalField { width: w, height: h, normals })
}

/// The raw (unnormalized) seed direction of a pixel: from the image center
/// through the pixel, toward an apex above the plane.
pub open spec fn seed_dir(x: int, y: int, w: int, h: int) -> Vec3 {
    Vec3 {
        x: (2 * x - w) as i64,
        y: (2 * y - h) as i64,
        z: (2 * (if w >= h {
            w
        } else {
            h
        })) as i64,
    }
}

/// The seed normal of a pixel: the raw direction, normalized.
#[verifier::opaque]
pub open spec fn seed_normal(x: int, y: int, w: int, h: int) -> Vec3 {
    let n = normalized(seed_dir(x, y, w, h));
    Vec3 { x: n.0 as i64, y: n.1 as i64, z: n.2 as i64 }
}


/// The whole dome seed as a sequence.
pub open spec fn seed_field_s(w: int, h: int) -> Seq<Vec3> {
    Seq::new((w * h) as nat, |p: int| seed_normal(p % w, p / w, w, h))
}

/// Build the synthetic dome the refinement starts from: every pixel's
/// normal points from the image center through that pixel toward an apex
/// above the plane. The seed is deliberately non-flat, so the first
/// lighting estimate is well posed.
pub fn seed_normal_field(width: usize, height: usize) -> (f: NormalField)
    requires
        1 <= width <= DIM_LIMIT,
        1 <= height <= DIM_LIMIT,
    ensures
        field_wf(f),
        f.width == width,
        f.height == height,
        forall|p: int|
            0 <= p < f.normals@.len() ==> #[trigger] f.normals@[p] == seed_normal(
                p % (width as int),
                p / (width as int),
                width as int,
                height as int,
            ),
{
    proof {
        reveal(seed_normal);
        lemma_mul_abs_bound(width as int, height as int, DIM_LIMIT as int, DIM_LIMIT as int);
    }
    let npix: usize = width * height;
    let mx: i64 = if width >= height {
        width as i64
    } else {
        height as i64
    };
    let mut normals: Vec<Vec3> = Vec::new();
    let mut p: usize = 0;
    while p < npix
        invariant
            p <= npix,
            npix == width * height,
            1 <= width <= DIM_LIMIT,
            1 <= height <= DIM_LIMIT,
            mx as int == (if width as int >= height as int {
                width as int
            } else {
                height as int
            }),
            normals@.len() == p,
            forall|q: int|
                0 <= q < p ==> #[trigger] normals@[q] == seed_normal(
                    q % (width as int),
                    q / (width as int),
                    width as int,
                    height as int,
                ),
            forall|q: int| 0 <= q < p ==> is_unit(#[trigger] normals@[q]),
        decreases npix - p,
    {
        let x: usize = p % width;
        let y: usize = p / width;
        proof {
            reveal(seed_normal);
            assert((y as int) < (height as int)) by (nonlinear_arith)
                requires
                    y as int == (p as int) / (width as int),
                    (p as int) < (width as int) * (height as int),
                    width as int >= 1,
                    height as int >= 1,
            ;
        }
        let raw = Vec3 {
            x: 2 * (x as i64) - (width as i64),
            y: 2 * (y as i64) - (height as i64),
            z: 2 * mx,
        };
        let u: Vec3 = match normalize(&raw) {
            Some(u) => u,
            None => camera_axis(),
        };
        normals.push(u);
        p = p + 1;
    }
    NormalField { width, height, normals }
}


/// Componentwise sum of the first `n` normals.
pub open spec fn sum_vecs(s: Seq<Vec3>, n: int) -> (int, int, int)
    decreases n,
{
    if n <= 0 {
        (0, 0, 0)
    } else {
        let t = sum_vecs(s, n - 1);
        (t.0 + s[n - 1].x, t.1 + s[n - 1].y, t.2 + s[n - 1].z)
    }
}

/// What reorientation does to a field: rotate every normal by the rotation
/// that carries the field's mean normal onto the camera axis. The field is
/// returned unchanged when the mean vanishes or is antiparallel to the
/// camera axis (the degenerate cases with no defined rotation).
#[verifier::opaque]
pub open spec fn reorient_spec(s: Seq<Vec3>) -> Seq<Vec3> {
    let t = sum_vecs(s, s.len() as int);
    if t.0 == 0 && t.1 == 0 && t.2 == 0 {
        s
    } else {
        let n = normalized(Vec3 { x: t.0 as i64, y: t.1 as i64, z: t.2 as i64 });
        let avg = Vec3 { x: n.0 as i64, y: n.1 as i64, z: n.2 as i64 };
        if SCALE * SCALE + dot_s(avg, camera_axis_s()) <= 0 {
            s
        } else {
            let m = rot_matrix_s(avg, camera_axis_s());
            Seq::new(s.len(), |i: int| rotate_unit_s(m, s[i]))
        }
    }
}

/// Rotate a whole normal field so that its mean normal points toward the
/// camera axis; a single rigid rotation applied to every pixel.
pub fn reorient_normals(normals: &NormalField) -> (r: NormalField)
    requires
        field_wf(*normals),
    ensures
        field_wf(r),
        r.width == normals.width,
        r.height == normals.height,
        r.normals@ == reorient_spec(normals.normals@),
{
    proof {
        reveal(reorient_spec);
    }
    let n = normals.normals.len();
    let mut sx: i64 = 0;
    let mut sy: i64 = 0;
    let mut sz: i64 = 0;
    let mut i: usize = 0;
    while i < n
        invariant
            i <= n,
            n == normals.normals@.len(),
            field_wf(*normals),
            sx == sum_vecs(normals.normals@, i as int).0,
            sy == sum_vecs(normals.normals@, i as int).1,
            sz == sum_vecs(normals.normals@, i as int).2,
            -(i as int) * 0x1_0000 <= sx <= (i as int) * 0x1_0000,
            -(i as int) * 0x1_0000 <= sy <= (i as int) * 0x1_0000,
            -(i as int) * 0x1_0000 <= sz <= (i as int) * 0x1_0000,
        decreases n - i,
    {
        let v = normals.normals[i];
        proof {
            lemma_unit_coords(normals.normals@[i as int]);
            lemma_mul_abs_bound(normals.width as int, normals.height as int, DIM_LIMIT as int,
                DIM_LIMIT as int);
        }
        sx = sx + v.x;
        sy = sy + v.y;
        sz = sz + v.z;
        i = i + 1;
    }
    if sx == 0 && sy == 0 && sz == 0 {
        return copy_field(normals);
    }
    let sv = Vec3 { x: sx, y: sy, z: sz };
    proof {
        lemma_mul_abs_bound(normals.width as int, normals.height as int, DIM_LIMIT as int,
            DIM_LIMIT as int);
    }
    let avg: Vec3 = match normalize(&sv) {
        Some(a) => a,
        None => camera_axis(),
    };
    let axis = camera_axis();
    match rotation_between(&avg, &axis) {
        None => copy_field(normals),
        Some(m) => {
            let mut out: Vec<Vec3> = Vec::new();
            let mut i: usize = 0;
            while i < n
                invariant
                    i <= n,
                    n == normals.normals@.len(),
                    field_wf(*normals),
                    crate::rotation::mat_bounded(m, crate::rotation::MAT_BOUND as int),
                    out@.len() == i,
                    forall|q: int|
                        0 <= q < i ==> #[trigger] out@[q] == rotate_unit_s(
                            m,
                            normals.normals@[q],
                        ),
                    forall|q: int| 0 <= q < i ==> is_unit(#[trigger] out@[q]),
                decreases n - i,
            {
                let v = normals.normals[i];
                out.push(rotate_to_unit(&m, &v));
                i = i + 1;
            }
            proof {
                assert(out@ =~= Seq::new(
                    normals.normals@.len(),
                    |q: int| rotate_unit_s(m, normals.normals@[q]),
                ));
            }
            NormalField { width: normals.width, height: normals.height, normals: out }
        },
    }
}

/// An exact copy of a field, element by element.
fn copy_field(f: &NormalField) -> (r: NormalField)
    requires
        field_wf(*f),
    ensures
        field_wf(r),
        r.width == f.width,
        r.height == f.height,
        r.normals@ == f.normals@,
{
    let n = f.normals.len();
    let mut out: Vec<Vec3> = Vec::new();
    let mut i: usize = 0;
    while i < n
        invariant
            i <= n,
            n == f.normals@.len(),
            out@.len() == i,
            forall|q: int| 0 <= q < i ==> #[trigger] out@[q] == f.normals@[q],
        decreases n - i,
    {
        let v = f.normals[i];
        out.push(v);
        i = i + 1;
    }
    proof {
        assert(out@ =~= f.normals@);
    }
    NormalField { width: f.width, height: f.height, normals: out }
}

/// The bilinear blend of the four corner targets at fractional position
/// `(fx, fy)` (both `SCALE`-scaled).
pub open spec fn tilt_target(ul: Vec3, ur: Vec3, ll: Vec3, lr: Vec3, fx: int, fy: int) -> (
    int,
    int,
    int,
) {
    (
        (ul.x * (SCALE - fx) + ur.x * fx) * (SCALE - fy) + (ll.x * (SCALE - fx) + lr.x * fx) * fy,
        (ul.y * (SCALE - fx) + ur.y * fx) * (SCALE - fy) + (ll.y * (SCALE - fx) + lr.y * fx) * fy,
        (ul.z * (SCALE - fx) + ur.z * fx) * (SCALE - fy) + (ll.z * (SCALE - fx) + lr.z * fx) * fy,
    )
}

/// What tilting does to one pixel's normal: rotate it by the rotation that
/// carries the blended target at the pixel's position onto the camera axis;
/// the pixel is kept unchanged in the degenerate cases (vanishing target,
/// antiparallel target).
pub open spec fn tilt_pixel(
    ul: Vec3,
    ur: Vec3,
    ll: Vec3,
    lr: Vec3,
    n: Vec3,
    x: int,
    y: int,
    w: int,
    h: int,
) -> Vec3 {
    let fx = (x * SCALE) / w;
    let fy = (y * SCALE) / h;
    let t = tilt_target(ul, ur, ll, lr, fx, fy);
    if t.0 == 0 && t.1 == 0 && t.2 == 0 {
        n
    } else {
        let a0 = normalized(Vec3 { x: t.0 as i64, y: t.1 as i64, z: t.2 as i64 });
        let a = Vec3 { x: a0.0 as i64, y: a0.1 as i64, z: a0.2 as i64 };
        if SCALE * SCALE + dot_s(a, camera_axis_s()) <= 0 {
            n
        } else {
            rotate_unit_s(rot_matrix_s(a, camera_axis_s()), n)
        }
    }
}

/// `tilt_pixel` over a whole field.
pub open spec fn tilt_field(
    ul: Vec3,
    ur: Vec3,
    ll: Vec3,
    lr: Vec3,
    s: Seq<Vec3>,
    w: int,
    h: int,
) -> Seq<Vec3> {
    Seq::new(s.len(), |p: int| tilt_pixel(ul, ur, ll, lr, s[p], p % w, p / w, w, h))
}

/// Tilt every normal toward "flat": for each pixel, bilinearly interpolate
/// a target direction from the four given corner directions by the pixel's
/// fractional position, and rotate the pixel's normal by the rotation
/// carrying that target onto the camera axis.
pub fn normal_tilt(
    normals: &NormalField,
    upper_left: &Vec3,
    upper_right: &Vec3,
    lower_left: &Vec3,
    lower_right: &Vec3,
) -> (r: NormalField)
    requires
        field_wf(*normals),
        is_unit(*upper_left),
        is_unit(*upper_right),
        is_unit(*lower_left),
        is_unit(*lower_right),
    ensures
        field_wf(r),
        r.width == normals.width,
        r.height == normals.height,
        r.normals@ == tilt_field(
            *upper_left,
            *upper_right,
            *lower_left,
            *lower_right,
            normals.normals@,
            normals.width as int,
            normals.height as int,
        ),
{
    let w = normals.width;
    let h = normals.height;
    let n = normals.normals.len();
    proof {
        lemma_unit_coords(*upper_left);
        lemma_unit_coords(*upper_right);
        lemma_unit_coords(*lower_left);
        lemma_unit_coords(*lower_right);
    }
    let mut out: Vec<Vec3> = Vec::new();
    let mut p: usize = 0;
    while p < n
        invariant
            p <= n,
            n == normals.normals@.len(),
            w == normals.width,
            h == normals.height,
            field_wf(*normals),
            is_unit(*upper_left) && is_unit(*upper_right) && is_unit(*lower_left) && is_unit(
                *lower_right,
            ),
            bounded(*upper_left, SCALE as int) && bounded(*upper_right, SCALE as int) && bounded(
                *lower_left,
                SCALE as int,
            ) && bounded(*lower_right, SCALE as int),
            out@.len() == p,
            forall|q: int|
                0 <= q < p ==> #[trigger] out@[q] == tilt_pixel(
                    *upper_left,
                    *upper_right,
                    *lower_left,
                    *lower_right,
                    normals.normals@[q],
                    q % (w as int),
                    q / (w as int),
                    w as int,
                    h as int,
                ),
            forall|q: int| 0 <= q < p ==> is_unit(#[trigger] out@[q]),
        decreases n - p,
    {
        let x: usize = p % w;
        let y: usize = p / w;
        proof {
            lemma_mul_abs_bound(w as int, h as int, DIM_LIMIT as int, DIM_LIMIT as int);
            assert((y as int) < (h as int)) by (nonlinear_arith)
                requires
                    y as int == (p as int) / (w as int),
                    (p as int) < (w as int) * (h as int),
                    w as int >= 1,
                    h as int >= 1,
            ;
        }
        let fx: i64 = (((x as u64) * (SCALE as u64)) / (w as u64)) as i64;
        let fy: i64 = (((y as u64) * (SCALE as u64)) / (h as u64)) as i64;
        proof {
            assert(0 <= ((x as int) * SCALE) / (w as int) <= SCALE) by (nonlinear_arith)
                requires
                    0 <= x as int,
                    (x as int) < (w as int),
                    1 <= w as int,
                    SCALE == 65536,
            ;
            assert(0 <= ((y as int) * SCALE) / (h as int) <= SCALE) by (nonlinear_arith)
                requires
                    0 <= y as int,
                    (y as int) < (h as int),
                    1 <= h as int,
                    SCALE == 65536,
            ;
        }
        let tv = blend_corners(upper_left, upper_right, lower_left, lower_right, fx, fy);
        let cur = normals.normals[p];
        let next: Vec3 = match normalize(&tv) {
            None => cur,
            Some(a) => {
                let axis = camera_axis();
                match rotation_between(&a, &axis) {
                    None => cur,
                    Some(m) => rotate_to_unit(&m, &cur),
                }
            },
        };
        out.push(next);
        p = p + 1;
    }
    proof {
        assert(out@ =~= tilt_field(
            *upper_left,
            *upper_right,
            *lower_left,
            *lower_right,
            normals.normals@,
            w as int,
            h as int,
        ));
    }
    NormalField { width: w, height: h, normals: out }
}

/// The bilinear corner blend of `tilt_target`, evaluated exactly.
fn blend_corners(ul: &Vec3, ur: &Vec3, ll: &Vec3, lr: &Vec3, fx: i64, fy: i64) -> (t: Vec3)
    requires
        bounded(*ul, SCALE as int),
        bounded(*ur, SCALE as int),
        bounded(*ll, SCALE as int),
        bounded(*lr, SCALE as int),
        0 <= fx <= SCALE,
        0 <= fy <= SCALE,
    ensures
        t.x == tilt_target(*ul, *ur, *ll, *lr, fx as int, fy as int).0,
        t.y == tilt_target(*ul, *ur, *ll, *lr, fx as int, fy as int).1,
        t.z == tilt_target(*ul, *ur, *ll, *lr, fx as int, fy as int).2,
        bounded(t, MAX_COORD as int),
{
    proof {
        lemma_mul_abs_bound(ul.x as int, (SCALE - fx) as int, SCALE as int, SCALE as int);
        lemma_mul_abs_bound(ur.x as int, fx as int, SCALE as int, SCALE as int);
        lemma_mul_abs_bound(ll.x as int, (SCALE - fx) as int, SCALE as int, SCALE as int);
        lemma_mul_abs_bound(lr.x as int, fx as int, SCALE as int, SCALE as int);
        lemma_mul_abs_bound(ul.y as int, (SCALE - fx) as int, SCALE as int, SCALE as int);
        lemma_mul_abs_bound(ur.y as int, fx as int, SCALE as int, SCALE as int);
        lemma_mul_abs_bound(ll.y as int, (SCALE - fx) as int, SCALE as int, SCALE as int);
        lemma_mul_abs_bound(lr.y as int, fx as int, SCALE as int, SCALE as int);
        lemma_mul_abs_bound(ul.z as int, (SCALE - fx) as int, SCALE as int, SCALE as int);
        lemma_mul_abs_bound(ur.z as int, fx as int, SCALE as int, SCALE as int);
        lemma_mul_abs_bound(ll.z as int, (SCALE - fx) as int, SCALE as int, SCALE as int);
        lemma_mul_abs_bound(lr.z as int, fx as int, SCALE as int, SCALE as int);
    }
    let tx1: i64 = ul.x * (SCALE - fx) + ur.x * fx;
    let tx2: i64 = ll.x * (SCALE - fx) + lr.x * fx;
    let ty1: i64 = ul.y * (SCALE - fx) + ur.y * fx;
    let ty2: i64 = ll.y * (SCALE - fx) + lr.y * fx;
    let tz1: i64 = ul.z * (SCALE - fx) + ur.z * fx;
    let tz2: i64 = ll.z * (SCALE - fx) + lr.z * fx;
    proof {
        lemma_mul_abs_bound(tx1 as int, (SCALE - fy) as int, 0x2_0000_0000, SCALE as int);
        lemma_mul_abs_bound(tx2 as int, fy as int, 0x2_0000_0000, SCALE as int);
        lemma_mul_abs_bound(ty1 as int, (SCALE - fy) as int, 0x2_0000_0000, SCALE as int);
        lemma_mul_abs_bound(ty2 as int, fy as int, 0x2_0000_0000, SCALE as int);
        lemma_mul_abs_bound(tz1 as int, (SCALE - fy) as int, 0x2_0000_0000, SCALE as int);
        lemma_mul_abs_bound(tz2 as int, fy as int, 0x2_0000_0000, SCALE as int);
    }
    Vec3 {
        x: tx1 * (SCALE - fy) + tx2 * fy,
        y: ty1 * (SCALE - fy) + ty2 * fy,
        z: tz1 * (SCALE - fy) + tz2 * fy,
    }
}

/// Componentwise sum of `n` normals taken at `start`, `start + stride`,
/// `start + 2 * stride`, ...
pub open spec fn strided_sum(s: Seq<Vec3>, start: int, stride: int, n: int) -> (int, int, int)
    decreases n,
{
    if n <= 0 {
        (0, 0, 0)
    } else {
        let t = strided_sum(s, start, stride, n - 1);
        (
            t.0 + s[start + (n - 1) * stride].x,
            t.1 + s[start + (n - 1) * stride].y,
            t.2 + s[start + (n - 1) * stride].z,
        )
    }
}

/// Sum `count` normals along a stride; exact, with each coordinate bounded
/// by `count * SCALE`.
fn sum_strided(v: &Vec<Vec3>, start: usize, stride: usize, count: usize) -> (t: (i64, i64, i64))
    requires
        stride >= 1,
        count <= v@.len(),
        v@.len() <= 0x1000_0000,
        count >= 1 ==> start + (count - 1) * stride < v@.len(),
        forall|i: int| 0 <= i < v@.len() ==> is_unit(#[trigger] v@[i]),
    ensures
        t.0 == strided_sum(v@, start as int, stride as int, count as int).0,
        t.1 == strided_sum(v@, start as int, stride as int, count as int).1,
        t.2 == strided_sum(v@, start as int, stride as int, count as int).2,
        -(count as int) * 0x1_0000 <= t.0 <= (count as int) * 0x1_0000,
        -(count as int) * 0x1_0000 <= t.1 <= (count as int) * 0x1_0000,
        -(count as int) * 0x1_0000 <= t.2 <= (count as int) * 0x1_0000,
{
    let mut sx: i64 = 0;
    let mut sy: i64 = 0;
    let mut sz: i64 = 0;
    let mut j: usize = 0;
    while j < count
        invariant
            j <= count,
            stride >= 1,
            count <= v@.len() <= 0x1000_0000,
            count >= 1 ==> start + (count - 1) * stride < v@.len(),
            forall|i: int| 0 <= i < v@.len() ==> is_unit(#[trigger] v@[i]),
            sx == strided_sum(v@, start as int, stride as int, j as int).0,
            sy == strided_sum(v@, start as int, stride as int, j as int).1,
            sz == strided_sum(v@, start as int, stride as int, j as int).2,
            -(j as int) * 0x1_0000 <= sx <= (j as int) * 0x1_0000,
            -(j as int) * 0x1_0000 <= sy <= (j as int) * 0x1_0000,
            -(j as int) * 0x1_0000 <= sz <= (j as int) * 0x1_0000,
        decreases count - j,
    {
        proof {
            vstd::arithmetic::mul::lemma_mul_inequality(j as int, count as int - 1, stride as int);
        }
        let idx: usize = start + j * stride;
        let u = v[idx];
        proof {
            lemma_unit_coords(v@[idx as int]);
        }
        sx = sx + u.x;
        sy = sy + u.y;
        sz = sz + u.z;
        j = j + 1;
    }
    (sx, sy, sz)
}

/// Componentwise sum of two coordinate triples.
pub open spec fn add3(a: (int, int, int), b: (int, int, int)) -> (int, int, int) {
    (a.0 + b.0, a.1 + b.1, a.2 + b.2)
}

/// The four corner reference sums of corner flattening: each corner's sum
/// is the half-nearest segment of its two adjacent edges.
pub open spec fn corner_sums(s: Seq<Vec3>, w: int, h: int) -> (
    (int, int, int),
    (int, int, int),
    (int, int, int),
    (int, int, int),
) {
    let ul = add3(strided_sum(s, 0, 1, w / 2), strided_sum(s, 0, w, h / 2));
    let ur = add3(strided_sum(s, w / 2, 1, w - w / 2), strided_sum(s, w - 1, w, h / 2));
    let ll = add3(strided_sum(s, (h - 1) * w, 1, w / 2), strided_sum(s, (h / 2) * w, w, h - h / 2));
    let lr = add3(
        strided_sum(s, (h - 1) * w + w / 2, 1, w - w / 2),
        strided_sum(s, w - 1 + (h / 2) * w, w, h - h / 2),
    );
    (ul, ur, ll, lr)
}

/// Turn a raw sum into a unit direction (meaningful only when non-zero).
pub open spec fn unit_of_sum(t: (int, int, int)) -> Vec3 {
    let n = normalized(Vec3 { x: t.0 as i64, y: t.1 as i64, z: t.2 as i64 });
    Vec3 { x: n.0 as i64, y: n.1 as i64, z: n.2 as i64 }
}

pub open spec fn is_zero3(t: (int, int, int)) -> bool {
    t.0 == 0 && t.1 == 0 && t.2 == 0
}

/// What corner flattening does to a field: tilt every normal toward the
/// bilinear blend of the four normalized corner means. The field is
/// returned unchanged when some corner mean vanishes (no direction to
/// flatten toward).
#[verifier::opaque]
pub open spec fn corner_flatten_spec(s: Seq<Vec3>, w: int, h: int) -> Seq<Vec3> {
    let c = corner_sums(s, w, h);
    if is_zero3(c.0) || is_zero3(c.1) || is_zero3(c.2) || is_zero3(c.3) {
        s
    } else {
        tilt_field(unit_of_sum(c.0), unit_of_sum(c.1), unit_of_sum(c.2), unit_of_sum(c.3), s, w, h)
    }
}

/// Flatten toward the four corner means: each corner's reference direction
/// is the normalized sum of the half-nearest segments of its two adjacent
/// edges, and every pixel is tilted toward their bilinear blend.
#[verifier::rlimit(100)]
pub fn corner_flatten(normals: &NormalField) -> (r: NormalField)
    requires
        field_wf(*normals),
    ensures
        field_wf(r),
        r.width == normals.width,
        r.height == normals.height,
        r.normals@ == corner_flatten_spec(
            normals.normals@,
            normals.width as int,
            normals.height as int,
        ),
{
    proof {
        reveal(corner_flatten_spec);
    }
    let w = normals.width;
    let h = normals.height;
    let v = &normals.normals;
    proof {
        lemma_mul_abs_bound(w as int, h as int, DIM_LIMIT as int, DIM_LIMIT as int);
        assert((w as int) * 1 <= (w as int) * (h as int) && 1 * (w as int) <= (h as int) * (
        w as int) && (h as int) * (w as int) == (w as int) * (h as int)) by (nonlinear_arith)
            requires
                1 <= w as int,
                1 <= h as int,
        ;
        assert(((h as int) - 1) * (w as int) + (w as int) == (h as int) * (w as int))
            by (nonlinear_arith);
        assert(((h as int) / 2) * (w as int) + ((h as int) - (h as int) / 2 - 1) * (w as int) + (
        w as int) == (h as int) * (w as int)) by (nonlinear_arith);
        assert(((h as int) / 2 - 1) * (w as int) + (w as int) <= ((h as int)) * (w as int))
            by (nonlinear_arith)
            requires
                1 <= h as int,
                1 <= w as int,
        ;
    }
    proof {
        assert((h as int) <= (w as int) * (h as int) && (w as int) <= (w as int) * (h as int))
            by (nonlinear_arith)
            requires
                1 <= w as int,
                1 <= h as int,
        ;
    }
    let wl: usize = w / 2;
    let hl: usize = h / 2;
    let a1 = sum_strided(v, 0, 1, wl);
    let a2 = sum_strided(v, 0, w, hl);
    let b1 = sum_strided(v, wl, 1, w - wl);
    let b2 = sum_strided(v, w - 1, w, hl);
    let c1 = sum_strided(v, (h - 1) * w, 1, wl);
    let c2 = sum_strided(v, hl * w, w, h - hl);
    let d1 = sum_strided(v, (h - 1) * w + wl, 1, w - wl);
    let d2 = sum_strided(v, w - 1 + hl * w, w, h - hl);
    let uls = (a1.0 + a2.0, a1.1 + a2.1, a1.2 + a2.2);
    let urs = (b1.0 + b2.0, b1.1 + b2.1, b1.2 + b2.2);
    let lls = (c1.0 + c2.0, c1.1 + c2.1, c1.2 + c2.2);
    let lrs = (d1.0 + d2.0, d1.1 + d2.1, d1.2 + d2.2);
    let ulv = Vec3 { x: uls.0, y: uls.1, z: uls.2 };
    let urv = Vec3 { x: urs.0, y: urs.1, z: urs.2 };
    let llv = Vec3 { x: lls.0, y: lls.1, z: lls.2 };
    let lrv = Vec3 { x: lrs.0, y: lrs.1, z: lrs.2 };
    let r1 = normalize(&ulv);
    let r2 = normalize(&urv);
    let r3 = normalize(&llv);
    let r4 = normalize(&lrv);
    match (r1, r2, r3, r4) {
        (Some(ul), Some(ur), Some(ll), Some(lr)) => normal_tilt(normals, &ul, &ur, &ll, &lr),
        _ => copy_field(normals),
    }
}

/// The edge blend at fractional position `(fx, fy)`: the four normalized
/// edge means, weighted by the pixel's distance to each edge.
pub open spec fn edge_target(
    top: Vec3,
    bottom: Vec3,
    left: Vec3,
    right: Vec3,
    fx: int,
    fy: int,
) -> (int, int, int) {
    (
        left.x * (SCALE - fx) + right.x * fx + top.x * (SCALE - fy) + bottom.x * fy,
        left.y * (SCALE - fx) + right.y * fx + top.y * (SCALE - fy) + bottom.y * fy,
        left.z * (SCALE - fx) + right.z * fx + top.z * (SCALE - fy) + bottom.z * fy,
    )
}

/// What edge flattening does to one pixel's normal.
pub open spec fn edge_pixel(
    top: Vec3,
    bottom: Vec3,
    left: Vec3,
    right: Vec3,
    n: Vec3,
    x: int,
    y: int,
    w: int,
    h: int,
) -> Vec3 {
    let fx = (x * SCALE) / w;
    let fy = (y * SCALE) / h;
    let t = edge_target(top, bottom, left, right, fx, fy);
    if t.0 == 0 && t.1 == 0 && t.2 == 0 {
        n
    } else {
        let a0 = normalized(Vec3 { x: t.0 as i64, y: t.1 as i64, z: t.2 as i64 });
        let a = Vec3 { x: a0.0 as i64, y: a0.1 as i64, z: a0.2 as i64 };
        if SCALE * SCALE + dot_s(a, camera_axis_s()) <= 0 {
            n
        } else {
            rotate_unit_s(rot_matrix_s(a, camera_axis_s()), n)
        }
    }
}

/// The four edge sums: top row, bottom row, left column, right column.
pub open spec fn edge_sums(s: Seq<Vec3>, w: int, h: int) -> (
    (int, int, int),
    (int, int, int),
    (int, int, int),
    (int, int, int),
) {
    (
        strided_sum(s, 0, 1, w),
        strided_sum(s, (h - 1) * w, 1, w),
        strided_sum(s, 0, w, h),
        strided_sum(s, w - 1, w, h),
    )
}

/// What edge flattening does to a field: tilt every normal toward the
/// blend of the four normalized edge means, weighted by the pixel's
/// position. The field is returned unchanged when some edge mean vanishes.
#[verifier::opaque]
pub open spec fn edge_flatten_spec(s: Seq<Vec3>, w: int, h: int) -> Seq<Vec3> {
    let e = edge_sums(s, w, h);
    if is_zero3(e.0) || is_zero3(e.1) || is_zero3(e.2) || is_zero3(e.3) {
        s
    } else {
        let top = unit_of_sum(e.0);
        let bottom = unit_of_sum(e.1);
        let left = unit_of_sum(e.2);
        let right = unit_of_sum(e.3);
        Seq::new(
            s.len(),
            |p: int| edge_pixel(top, bottom, left, right, s[p], p % w, p / w, w, h),
        )
    }
}

/// Flatten toward the four edge means: the mean normal of each image edge
/// is normalized, and every pixel's normal is rotated toward the blend of
/// the four means at its position.
#[verifier::rlimit(100)]
pub fn edge_flatten(normals: &NormalField) -> (r: NormalField)
    requires
        field_wf(*normals),
    ensures
        field_wf(r),
        r.width == normals.width,
        r.height == normals.height,
        r.normals@ == edge_flatten_spec(
            normals.normals@,
            normals.width as int,
            normals.height as int,
        ),
{
    proof {
        reveal(edge_flatten_spec);
    }
    let w = normals.width;
    let h = normals.height;
    let v = &normals.normals;
    proof {
        lemma_mul_abs_bound(w as int, h as int, DIM_LIMIT as int, DIM_LIMIT as int);
        assert((h as int) <= (w as int) * (h as int) && (w as int) <= (w as int) * (h as int))
            by (nonlinear_arith)
            requires
                1 <= w as int,
                1 <= h as int,
        ;
        assert(((h as int) - 1) * (w as int) + (w as int) == (h as int) * (w as int) && (
        (h as int)) * (w as int) == (w as int) * (h as int)) by (nonlinear_arith);
    }
    let ts = sum_strided(v, 0, 1, w);
    let bs = sum_strided(v, (h - 1) * w, 1, w);
    let ls = sum_strided(v, 0, w, h);
    let rs = sum_strided(v, w - 1, w, h);
    let tv = Vec3 { x: ts.0, y: ts.1, z: ts.2 };
    let bv = Vec3 { x: bs.0, y: bs.1, z: bs.2 };
    let lv = Vec3 { x: ls.0, y: ls.1, z: ls.2 };
    let rv = Vec3 { x: rs.0, y: rs.1, z: rs.2 };
    let r1 = normalize(&tv);
    let r2 = normalize(&bv);
    let r3 = normalize(&lv);
    let r4 = normalize(&rv);
    let (top, bottom, left, right) = match (r1, r2, r3, r4) {
        (Some(t), Some(b), Some(l), Some(rr)) => (t, b, l, rr),
        _ => {
            return copy_field(normals);
        },
    };
    let n = normals.normals.len();
    let mut out: Vec<Vec3> = Vec::new();
    let mut p: usize = 0;
    while p < n
        invariant
            p <= n,
            n == normals.normals@.len(),
            w == normals.width,
            h == normals.height,
            field_wf(*normals),
            is_unit(top) && is_unit(bottom) && is_unit(left) && is_unit(right),
            top == unit_of_sum(edge_sums(normals.normals@, w as int, h as int).0),
            bottom == unit_of_sum(edge_sums(normals.normals@, w as int, h as int).1),
            left == unit_of_sum(edge_sums(normals.normals@, w as int, h as int).2),
            right == unit_of_sum(edge_sums(normals.normals@, w as int, h as int).3),
            !is_zero3(edge_sums(normals.normals@, w as int, h as int).0),
            !is_zero3(edge_sums(normals.normals@, w as int, h as int).1),
            !is_zero3(edge_sums(normals.normals@, w as int, h as int).2),
            !is_zero3(edge_sums(normals.normals@, w as int, h as int).3),
            out@.len() == p,
            forall|q: int|
                0 <= q < p ==> #[trigger] out@[q] == edge_pixel(
                    top,
                    bottom,
                    left,
                    right,
                    normals.normals@[q],
                    q % (w as int),
                    q / (w as int),
                    w as int,
                    h as int,
                ),
            forall|q: int| 0 <= q < p ==> is_unit(#[trigger] out@[q]),
        decreases n - p,
    {
        let x: usize = p % w;
        let y: usize = p / w;
        proof {
            lemma_mul_abs_bound(w as int, h as int, DIM_LIMIT as int, DIM_LIMIT as int);
            assert((y as int) < (h as int)) by (nonlinear_arith)
                requires
                    y as int == (p as int) / (w as int),
                    (p as int) < (w as int) * (h as int),
                    w as int >= 1,
                    h as int >= 1,
            ;
            lemma_unit_coords(top);
            lemma_unit_coords(bottom);
            lemma_unit_coords(left);
            lemma_unit_coords(right);
        }
        let fx: i64 = (((x as u64) * (SCALE as u64)) / (w as u64)) as i64;
        let fy: i64 = (((y as u64) * (SCALE as u64)) / (h as u64)) as i64;
        proof {
            assert(0 <= ((x as int) * SCALE) / (w as int) <= SCALE) by (nonlinear_arith)
                requires
                    0 <= x as int,
                    (x as int) < (w as int),
                    1 <= w as int,
                    SCALE == 65536,
            ;
            assert(0 <= ((y as int) * SCALE) / (h as int) <= SCALE) by (nonlinear_arith)
                requires
                    0 <= y as int,
                    (y as int) < (h as int),
                    1 <= h as int,
                    SCALE == 65536,
            ;
        }
        let bt = blend_edges(&top, &bottom, &left, &right, fx, fy);
        let cur = normals.normals[p];
        let next: Vec3 = match normalize(&bt) {
            None => cur,
            Some(a) => {
                let axis = camera_axis();
                match rotation_between(&a, &axis) {
                    None => cur,
                    Some(m) => rotate_to_unit(&m, &cur),
                }
            },
        };
        out.push(next);
        p = p + 1;
    }
    proof {
        assert(out@ =~= edge_flatten_spec(normals.normals@, w as int, h as int));
    }
    NormalField { width: w, height: h, normals: out }
}

/// The edge blend of `edge_target`, evaluated exactly.
fn blend_edges(top: &Vec3, bottom: &Vec3, left: &Vec3, right: &Vec3, fx: i64, fy: i64) -> (t: Vec3)
    requires
        bounded(*top, SCALE as int),
        bounded(*bottom, SCALE as int),
        bounded(*left, SCALE as int),
        bounded(*right, SCALE as int),
        0 <= fx <= SCALE,
        0 <= fy <= SCALE,
    ensures
        t.x == edge_target(*top, *bottom, *left, *right, fx as int, fy as int).0,
        t.y == edge_target(*top, *bottom, *left, *right, fx as int, fy as int).1,
        t.z == edge_target(*top, *bottom, *left, *right, fx as int, fy as int).2,
        bounded(t, MAX_COORD as int),
{
    proof {
        lemma_mul_abs_bound(left.x as int, (SCALE - fx) as int, SCALE as int, SCALE as int);
        lemma_mul_abs_bound(right.x as int, fx as int, SCALE as int, SCALE as int);
        lemma_mul_abs_bound(top.x as int, (SCALE - fy) as int, SCALE as int, SCALE as int);
        lemma_mul_abs_bound(bottom.x as int, fy as int, SCALE as int, SCALE as int);
        lemma_mul_abs_bound(left.y as int, (SCALE - fx) as int, SCALE as int, SCALE as int);
        lemma_mul_abs_bound(right.y as int, fy as int, SCALE as int, SCALE as int);
        lemma_mul_abs_bound(right.y as int, fx as int, SCALE as int, SCALE as int);
        lemma_mul_abs_bound(top.y as int, (SCALE - fy) as int, SCALE as int, SCALE as int);
        lemma_mul_abs_bound(bottom.y as int, fy as int, SCALE as int, SCALE as int);
        lemma_mul_abs_bound(left.z as int, (SCALE - fx) as int, SCALE as int, SCALE as int);
        lemma_mul_abs_bound(right.z as int, fx as int, SCALE as int, SCALE as int);
        lemma_mul_abs_bound(top.z as int, (SCALE - fy) as int, SCALE as int, SCALE as int);
        lemma_mul_abs_bound(bottom.z as int, fy as int, SCALE as int, SCALE as int);
    }
    Vec3 {
        x: left.x * (SCALE - fx) + right.x * fx + top.x * (SCALE - fy) + bottom.x * fy,
        y: left.y * (SCALE - fx) + right.y * fx + top.y * (SCALE - fy) + bottom.y * fy,
        z: left.z * (SCALE - fx) + right.z * fx + top.z * (SCALE - fy) + bottom.z * fy,
    }
}

} // verus!
