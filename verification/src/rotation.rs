//! The rotation that carries one unit vector onto another, in fixed-point
//! arithmetic, and its application to normals.
//!
//! For unit vectors `a`, `b` with cross product `w` and cosine `c = a . b`,
//! the rotation mapping `a` onto `b` is `I + [w] + [w]^2 / (1 + c)`, where
//! `[w]` is the skew matrix of `w`. It is undefined exactly when `a` and `b`
//! are antiparallel (`1 + c <= 0`), the degenerate case the callers fall
//! back from.

use vstd::prelude::*;

use crate::arith::{lemma_tdiv_bound, tdiv, tdiv_i128, SCALE};
use crate::vec3::{bounded, cross, cross_x, cross_y, cross_z, dot, dot_s, is_unit,
    lemma_mul_abs_bound, lemma_unit_coords, normalize, normalized, Vec3};

verus! {

/// Bound on the entries of every rotation matrix this module builds.
pub const MAT_BOUND: i64 = 0x20_0000_0000_0000;

/// A 3 x 3 matrix of fixed-point entries, row by row.
#[derive(Clone, Copy, PartialEq, Eq, Structural, Debug)]
pub struct Mat3 {
    pub xx: i64,
    pub xy: i64,
    pub xz: i64,
    pub yx: i64,
    pub yy: i64,
    pub yz: i64,
    pub zx: i64,
    pub zy: i64,
    pub zz: i64,
}

pub open spec fn mat_bounded(m: Mat3, b: int) -> bool {
    &&& -b <= m.xx <= b
    &&& -b <= m.xy <= b
    &&& -b <= m.xz <= b
    &&& -b <= m.yx <= b
    &&& -b <= m.yy <= b
    &&& -b <= m.yz <= b
    &&& -b <= m.zx <= b
    &&& -b <= m.zy <= b
    &&& -b <= m.zz <= b
}

/// The matrix `rotation_between` returns for `a`, `b`: entry by entry, the
/// fixed-point Rodrigues formula. `den` is `SCALE` times the fixed-point
/// value of `1 + a . b`.
pub open spec fn rot_ok(a: Vec3, b: Vec3, r: Mat3) -> bool {
    let wx = cross_x(a, b);
    let wy = cross_y(a, b);
    let wz = cross_z(a, b);
    let wsq = wx * wx + wy * wy + wz * wz;
    let den = SCALE * (SCALE * SCALE + dot_s(a, b));
    &&& r.xx == SCALE + tdiv(wx * wx - wsq, den)
    &&& r.xy == tdiv(-wz, SCALE as int) + tdiv(wx * wy, den)
    &&& r.xz == tdiv(wy, SCALE as int) + tdiv(wx * wz, den)
    &&& r.yx == tdiv(wz, SCALE as int) + tdiv(wx * wy, den)
    &&& r.yy == SCALE + tdiv(wy * wy - wsq, den)
    &&& r.yz == tdiv(-wx, SCALE as int) + tdiv(wy * wz, den)
    &&& r.zx == tdiv(-wy, SCALE as int) + tdiv(wx * wz, den)
    &&& r.zy == tdiv(wx, SCALE as int) + tdiv(wy * wz, den)
    &&& r.zz == SCALE + tdiv(wz * wz - wsq, den)
}

/// The matrix of `rot_ok`, as a function of the two unit vectors.
pub open spec fn rot_matrix_s(a: Vec3, b: Vec3) -> Mat3 {
    let wx = cross_x(a, b);
    let wy = cross_y(a, b);
    let wz = cross_z(a, b);
    let wsq = wx * wx + wy * wy + wz * wz;
    let den = SCALE * (SCALE * SCALE + dot_s(a, b));
    Mat3 {
        xx: (SCALE + tdiv(wx * wx - wsq, den)) as i64,
        xy: (tdiv(-wz, SCALE as int) + tdiv(wx * wy, den)) as i64,
        xz: (tdiv(wy, SCALE as int) + tdiv(wx * wz, den)) as i64,
        yx: (tdiv(wz, SCALE as int) + tdiv(wx * wy, den)) as i64,
        yy: (SCALE + tdiv(wy * wy - wsq, den)) as i64,
        yz: (tdiv(-wx, SCALE as int) + tdiv(wy * wz, den)) as i64,
        zx: (tdiv(-wy, SCALE as int) + tdiv(wx * wz, den)) as i64,
        zy: (tdiv(wx, SCALE as int) + tdiv(wy * wz, den)) as i64,
        zz: (SCALE + tdiv(wz * wz - wsq, den)) as i64,
    }
}

/// One entry of the quadratic Rodrigues term: `p / den`, truncated.
fn quad_term(p: i128, den: i128) -> (r: i64)
    requires
        -0x10_0000_0000_0000_0000 <= p <= 0x10_0000_0000_0000_0000,
        0x1_0000 <= den,
    ensures
        r == tdiv(p as int, den as int),
        -0x10_0000_0000_0000 <= r <= 0x10_0000_0000_0000,
{
    let q: i128 = tdiv_i128(p, den);
    proof {
        assert(0x10_0000_0000_0000 * den >= 0x10_0000_0000_0000_0000) by (nonlinear_arith)
            requires
                den >= 0x1_0000,
        ;
        lemma_tdiv_bound(p as int, den as int, 0x10_0000_0000_0000);
    }
    q as i64
}

/// One entry of the skew term: a cross-product coordinate divided by `SCALE`.
fn skew_term(w: i64) -> (r: i64)
    requires
        -0x2_0000_0000 <= w <= 0x2_0000_0000,
    ensures
        r == tdiv(w as int, SCALE as int),
        -0x2_0000 <= r <= 0x2_0000,
{
    let q: i128 = tdiv_i128(w as i128, SCALE as i128);
    proof {
        lemma_tdiv_bound(w as int, SCALE as int, 0x2_0000);
    }
    q as i64
}

/// The rotation carrying the unit vector `a` onto the unit vector `b`.
///
/// Returns `None` exactly when the fixed-point cosine makes `1 + a . b`
/// non-positive, i.e. when the two directions are (numerically)
/// antiparallel and no rotation between them is defined.
pub fn rotation_between(a: &Vec3, b: &Vec3) -> (r: Option<Mat3>)
    requires
        is_unit(*a),
        is_unit(*b),
    ensures
        (r is None) <==> SCALE * SCALE + dot_s(*a, *b) <= 0,
        r matches Some(m) ==> rot_ok(*a, *b, m) && mat_bounded(m, MAT_BOUND as int),
        r matches Some(m) ==> m == rot_matrix_s(*a, *b),
{
    proof {
        lemma_unit_coords(*a);
        lemma_unit_coords(*b);
        lemma_mul_abs_bound(a.x as int, b.x as int, SCALE as int, SCALE as int);
        lemma_mul_abs_bound(a.y as int, b.y as int, SCALE as int, SCALE as int);
        lemma_mul_abs_bound(a.z as int, b.z as int, SCALE as int, SCALE as int);
    }
    let d: i64 = dot(a, b);
    let den0: i64 = SCALE * SCALE + d;
    if den0 <= 0 {
        return None;
    }
    let w: Vec3 = cross(a, b);
    proof {
        lemma_mul_abs_bound(a.y as int, b.z as int, SCALE as int, SCALE as int);
        lemma_mul_abs_bound(a.z as int, b.y as int, SCALE as int, SCALE as int);
        lemma_mul_abs_bound(a.z as int, b.x as int, SCALE as int, SCALE as int);
        lemma_mul_abs_bound(a.x as int, b.z as int, SCALE as int, SCALE as int);
        lemma_mul_abs_bound(a.x as int, b.y as int, SCALE as int, SCALE as int);
        lemma_mul_abs_bound(a.y as int, b.x as int, SCALE as int, SCALE as int);
        lemma_mul_abs_bound(w.x as int, w.x as int, 0x2_0000_0000, 0x2_0000_0000);
        lemma_mul_abs_bound(w.y as int, w.y as int, 0x2_0000_0000, 0x2_0000_0000);
        lemma_mul_abs_bound(w.z as int, w.z as int, 0x2_0000_0000, 0x2_0000_0000);
        lemma_mul_abs_bound(w.x as int, w.y as int, 0x2_0000_0000, 0x2_0000_0000);
        lemma_mul_abs_bound(w.x as int, w.z as int, 0x2_0000_0000, 0x2_0000_0000);
        lemma_mul_abs_bound(w.y as int, w.z as int, 0x2_0000_0000, 0x2_0000_0000);
    }
    let wxi: i128 = w.x as i128;
    let wyi: i128 = w.y as i128;
    let wzi: i128 = w.z as i128;
    let wsq: i128 = wxi * wxi + wyi * wyi + wzi * wzi;
    let den: i128 = (SCALE as i128) * (den0 as i128);
    proof {
        assert((SCALE as int) * (den0 as int) >= SCALE as int) by (nonlinear_arith)
            requires
                den0 >= 1,
                SCALE == 65536,
        ;
    }
    let m = Mat3 {
        xx: SCALE + quad_term(wxi * wxi - wsq, den),
        xy: skew_term(-w.z) + quad_term(wxi * wyi, den),
        xz: skew_term(w.y) + quad_term(wxi * wzi, den),
        yx: skew_term(w.z) + quad_term(wxi * wyi, den),
        yy: SCALE + quad_term(wyi * wyi - wsq, den),
        yz: skew_term(-w.x) + quad_term(wyi * wzi, den),
        zx: skew_term(-w.y) + quad_term(wxi * wzi, den),
        zy: skew_term(w.x) + quad_term(wyi * wzi, den),
        zz: SCALE + quad_term(wzi * wzi - wsq, den),
    };
    Some(m)
}

/// The vector a matrix sends `v` to: each row's dot product with `v`,
/// scaled back down by `SCALE`.
pub open spec fn apply_s(m: Mat3, v: Vec3) -> (int, int, int) {
    (
        tdiv(m.xx * v.x + m.xy * v.y + m.xz * v.z, SCALE as int),
        tdiv(m.yx * v.x + m.yy * v.y + m.yz * v.z, SCALE as int),
        tdiv(m.zx * v.x + m.zy * v.y + m.zz * v.z, SCALE as int),
    )
}

/// Apply a rotation matrix to a bounded vector; exact.
pub fn apply(m: &Mat3, v: &Vec3) -> (r: Vec3)
    requires
        mat_bounded(*m, MAT_BOUND as int),
        bounded(*v, SCALE as int),
    ensures
        r.x == apply_s(*m, *v).0,
        r.y == apply_s(*m, *v).1,
        r.z == apply_s(*m, *v).2,
        bounded(r, 0x80_0000_0000_0000),
{
    proof {
        lemma_mul_abs_bound(m.xx as int, v.x as int, MAT_BOUND as int, SCALE as int);
        lemma_mul_abs_bound(m.xy as int, v.y as int, MAT_BOUND as int, SCALE as int);
        lemma_mul_abs_bound(m.xz as int, v.z as int, MAT_BOUND as int, SCALE as int);
        lemma_mul_abs_bound(m.yx as int, v.x as int, MAT_BOUND as int, SCALE as int);
        lemma_mul_abs_bound(m.yy as int, v.y as int, MAT_BOUND as int, SCALE as int);
        lemma_mul_abs_bound(m.yz as int, v.z as int, MAT_BOUND as int, SCALE as int);
        lemma_mul_abs_bound(m.zx as int, v.x as int, MAT_BOUND as int, SCALE as int);
        lemma_mul_abs_bound(m.zy as int, v.y as int, MAT_BOUND as int, SCALE as int);
        lemma_mul_abs_bound(m.zz as int, v.z as int, MAT_BOUND as int, SCALE as int);
    }
    let nx: i128 = (m.xx as i128) * (v.x as i128) + (m.xy as i128) * (v.y as i128) + (
    m.xz as i128) * (v.z as i128);
    let ny: i128 = (m.yx as i128) * (v.x as i128) + (m.yy as i128) * (v.y as i128) + (
    m.yz as i128) * (v.z as i128);
    let nz: i128 = (m.zx as i128) * (v.x as i128) + (m.zy as i128) * (v.y as i128) + (
    m.zz as i128) * (v.z as i128);
    let rx: i128 = tdiv_i128(nx, SCALE as i128);
    let ry: i128 = tdiv_i128(ny, SCALE as i128);
    let rz: i128 = tdiv_i128(nz, SCALE as i128);
    proof {
        assert(0x80_0000_0000_0000 * (SCALE as int) == 0x80_0000_0000_0000_0000)
            by (nonlinear_arith);
        lemma_tdiv_bound(nx as int, SCALE as int, 0x80_0000_0000_0000);
        lemma_tdiv_bound(ny as int, SCALE as int, 0x80_0000_0000_0000);
        lemma_tdiv_bound(nz as int, SCALE as int, 0x80_0000_0000_0000);
    }
    Vec3 { x: rx as i64, y: ry as i64, z: rz as i64 }
}

/// The unit normal that `rotate_to_unit` produces: apply the matrix, then
/// normalize; if the rotated vector vanishes, the normal is kept unchanged
/// (the identity fallback of the degenerate cases).
pub open spec fn rotate_unit_s(m: Mat3, n: Vec3) -> Vec3 {
    let (ax, ay, az) = apply_s(m, n);
    if ax == 0 && ay == 0 && az == 0 {
        n
    } else {
        let w = Vec3 { x: ax as i64, y: ay as i64, z: az as i64 };
        let (nx, ny, nz) = normalized(w);
        Vec3 { x: nx as i64, y: ny as i64, z: nz as i64 }
    }
}

/// Rotate a unit normal and renormalize it, keeping it unchanged if the
/// rotation degenerates to the zero vector.
pub fn rotate_to_unit(m: &Mat3, n: &Vec3) -> (r: Vec3)
    requires
        mat_bounded(*m, MAT_BOUND as int),
        is_unit(*n),
    ensures
        r == rotate_unit_s(*m, *n),
        is_unit(r),
{
    proof {
        lemma_unit_coords(*n);
    }
    let w: Vec3 = apply(m, n);
    match normalize(&w) {
        None => *n,
        Some(u) => u,
    }
}

} // verus!
