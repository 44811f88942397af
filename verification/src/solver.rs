//! Linear least squares for `A x = b` with `A` an `n x 3` matrix of
//! fixed-point rows, via the normal equations `(A^T A) x = A^T b`.
//!
//! The accumulated normal equations are scaled down by a power of two that
//! depends only on the row count, so that the explicit 3 x 3 determinant and
//! adjugate stay within machine range; the solver reports "no solution"
//! exactly when the scaled normal matrix is singular.

use vstd::arithmetic::div_mod::{lemma_div_denominator, lemma_div_is_ordered, lemma_div_pos_is_pos};
use vstd::arithmetic::power2::{lemma_pow2_pos, lemma_pow2_strictly_increases, lemma_pow2_unfold,
    pow2};
use vstd::prelude::*;

use crate::arith::{lemma_tdiv_bound, lemma_tdiv_shrinks, tdiv, tdiv_i128, SCALE};
use crate::vec3::{abs_i, bounded, lemma_mul_abs_bound, max3, max_abs3, Vec3};

verus! {

/// Bound on the coordinates of the solution the solver hands back; larger
/// solutions are scaled down by a power of two (they are normalized by the
/// callers anyway).
pub const OUT_BOUND: i64 = 0x100_0000_0000;

// --- the accumulated normal equations, entry by entry ---

pub open spec fn gram_xx(rows: Seq<Vec3>, n: int) -> int
    decreases n,
{
    if n <= 0 {
        0
    } else {
        gram_xx(rows, n - 1) + rows[n - 1].x * rows[n - 1].x
    }
}

pub open spec fn gram_xy(rows: Seq<Vec3>, n: int) -> int
    decreases n,
{
    if n <= 0 {
        0
    } else {
        gram_xy(rows, n - 1) + rows[n - 1].x * rows[n - 1].y
    }
}

pub open spec fn gram_xz(rows: Seq<Vec3>, n: int) -> int
    decreases n,
{
    if n <= 0 {
        0
    } else {
        gram_xz(rows, n - 1) + rows[n - 1].x * rows[n - 1].z
    }
}

pub open spec fn gram_yy(rows: Seq<Vec3>, n: int) -> int
    decreases n,
{
    if n <= 0 {
        0
    } else {
        gram_yy(rows, n - 1) + rows[n - 1].y * rows[n - 1].y
    }
}

pub open spec fn gram_yz(rows: Seq<Vec3>, n: int) -> int
    decreases n,
{
    if n <= 0 {
        0
    } else {
        gram_yz(rows, n - 1) + rows[n - 1].y * rows[n - 1].z
    }
}

pub open spec fn gram_zz(rows: Seq<Vec3>, n: int) -> int
    decreases n,
{
    if n <= 0 {
        0
    } else {
        gram_zz(rows, n - 1) + rows[n - 1].z * rows[n - 1].z
    }
}

pub open spec fn mom_x(rows: Seq<Vec3>, bs: Seq<i64>, n: int) -> int
    decreases n,
{
    if n <= 0 {
        0
    } else {
        mom_x(rows, bs, n - 1) + rows[n - 1].x * bs[n - 1]
    }
}

pub open spec fn mom_y(rows: Seq<Vec3>, bs: Seq<i64>, n: int) -> int
    decreases n,
{
    if n <= 0 {
        0
    } else {
        mom_y(rows, bs, n - 1) + rows[n - 1].y * bs[n - 1]
    }
}

pub open spec fn mom_z(rows: Seq<Vec3>, bs: Seq<i64>, n: int) -> int
    decreases n,
{
    if n <= 0 {
        0
    } else {
        mom_z(rows, bs, n - 1) + rows[n - 1].z * bs[n - 1]
    }
}

// --- scaling of the accumulated system ---

/// Number of halvings applied to the accumulated entries: enough to bring a
/// sum of `n` unit-scale products back into fixed range.
pub open spec fn shrink_len(n: int) -> nat
    decreases n
        when n >= 1
{
    if n <= 4 {
        0
    } else {
        shrink_len((n + 1) / 2) + 1
    }
}

/// An accumulated entry after the scaling for row count `n`.
pub open spec fn red(e: int, n: int) -> int {
    tdiv(e, pow2(shrink_len(n)) as int)
}

/// Determinant of the symmetric 3 x 3 matrix with upper triangle
/// `xx, xy, xz, yy, yz, zz`.
pub open spec fn det3(xx: int, xy: int, xz: int, yy: int, yz: int, zz: int) -> int {
    xx * (yy * zz - yz * yz) - xy * (xy * zz - yz * xz) + xz * (xy * yz - yy * xz)
}

/// Determinant of the scaled normal matrix of the system with rows `rows`.
pub open spec fn sys_det(rows: Seq<Vec3>) -> int {
    let n = rows.len() as int;
    det3(
        red(gram_xx(rows, n), n),
        red(gram_xy(rows, n), n),
        red(gram_xz(rows, n), n),
        red(gram_yy(rows, n), n),
        red(gram_yz(rows, n), n),
        red(gram_zz(rows, n), n),
    )
}

/// The three numerators of Cramer's rule (adjugate times right-hand side),
/// on the scaled system.
pub open spec fn sol_nums(rows: Seq<Vec3>, bs: Seq<i64>) -> (int, int, int) {
    let n = rows.len() as int;
    let xx = red(gram_xx(rows, n), n);
    let xy = red(gram_xy(rows, n), n);
    let xz = red(gram_xz(rows, n), n);
    let yy = red(gram_yy(rows, n), n);
    let yz = red(gram_yz(rows, n), n);
    let zz = red(gram_zz(rows, n), n);
    let bx = red(mom_x(rows, bs, n), n);
    let by = red(mom_y(rows, bs, n), n);
    let bz = red(mom_z(rows, bs, n), n);
    (
        (yy * zz - yz * yz) * bx + (xz * yz - xy * zz) * by + (xy * yz - xz * yy) * bz,
        (xz * yz - xy * zz) * bx + (xx * zz - xz * xz) * by + (xy * xz - xx * yz) * bz,
        (xy * yz - xz * yy) * bx + (xy * xz - xx * yz) * by + (xx * yy - xy * xy) * bz,
    )
}

/// Number of halvings that bring a solution magnitude back under `OUT_BOUND`.
pub open spec fn drop_exp(m: int) -> nat
    decreases m
        when m >= 0
{
    if m <= OUT_BOUND {
        0
    } else {
        drop_exp(tdiv(m, 2)) + 1
    }
}

/// The solution the solver returns for a non-singular system: Cramer's rule
/// times `SCALE`, truncated, then scaled down into `[-OUT_BOUND, OUT_BOUND]`.
pub open spec fn ls_solution(rows: Seq<Vec3>, bs: Seq<i64>) -> Vec3 {
    let det = sys_det(rows);
    let (nx, ny, nz) = sol_nums(rows, bs);
    let sx = if det < 0 {
        tdiv(-nx * SCALE, abs_i(det))
    } else {
        tdiv(nx * SCALE, abs_i(det))
    };
    let sy = if det < 0 {
        tdiv(-ny * SCALE, abs_i(det))
    } else {
        tdiv(ny * SCALE, abs_i(det))
    };
    let sz = if det < 0 {
        tdiv(-nz * SCALE, abs_i(det))
    } else {
        tdiv(nz * SCALE, abs_i(det))
    };
    let d = pow2(drop_exp(max_abs3(sx, sy, sz))) as int;
    Vec3 { x: tdiv(sx, d) as i64, y: tdiv(sy, d) as i64, z: tdiv(sz, d) as i64 }
}

// --- helper lemmas ---

/// `shrink_len` really compensates for the row count: `n` lies under
/// `4 * 2^shrink_len(n)`, and the scale never overshoots `n + 1`.
pub proof fn lemma_shrink_len(n: int)
    requires
        n >= 1,
    ensures
        n <= 4 * pow2(shrink_len(n)),
        n >= 2 ==> pow2(shrink_len(n)) <= n - 1,
        pow2(shrink_len(n)) <= n + 1,
    decreases n,
{
    if n <= 4 {
        assert(pow2(0) == 1) by {
            vstd::arithmetic::power2::lemma2_to64();
        }
    } else {
        let m = (n + 1) / 2;
        assert(shrink_len(n) == shrink_len(m) + 1);
        assert(3 <= m && 2 * m <= n + 1 && n <= 2 * m);
        lemma_shrink_len(m);
        lemma_pow2_unfold(shrink_len(n));
        assert(pow2(shrink_len(n)) == 2 * pow2(shrink_len(m)));
        assert(n <= 4 * pow2(shrink_len(n)));
        assert(pow2(shrink_len(n)) <= n - 1);
    }
}

/// Truncated divisions compose: dividing by `b` and then by `c` is dividing
/// by `b * c`.
pub proof fn lemma_tdiv_compose(a: int, b: int, c: int)
    requires
        b > 0,
        c > 0,
    ensures
        tdiv(tdiv(a, b), c) == tdiv(a, b * c),
{
    assert(b * c > 0) by (nonlinear_arith)
        requires
            b > 0,
            c > 0,
    ;
    if a >= 0 {
        lemma_div_pos_is_pos(a, b);
        lemma_div_denominator(a, b, c);
    } else {
        lemma_div_pos_is_pos(-a, b);
        lemma_div_denominator(-a, b, c);
    }
}

/// Truncation commutes with the absolute value.
pub proof fn lemma_tdiv_abs(e: int, d: int)
    requires
        d > 0,
    ensures
        abs_i(tdiv(e, d)) == tdiv(abs_i(e), d),
{
    if e >= 0 {
        lemma_div_pos_is_pos(e, d);
    } else {
        lemma_div_pos_is_pos(-e, d);
    }
}

/// Halving commutes with the maximum of three magnitudes.
pub proof fn lemma_half_max3(a: int, b: int, c: int)
    requires
        a >= 0,
        b >= 0,
        c >= 0,
    ensures
        max3(a / 2, b / 2, c / 2) == max3(a, b, c) / 2,
{
    lemma_div_is_ordered(a, max3(a, b, c), 2);
    lemma_div_is_ordered(b, max3(a, b, c), 2);
    lemma_div_is_ordered(c, max3(a, b, c), 2);
}

// --- the solver ---

/// Accumulated normal equations, before scaling.
struct Accum {
    xx: i128,
    xy: i128,
    xz: i128,
    yy: i128,
    yz: i128,
    zz: i128,
    bx: i128,
    by: i128,
    bz: i128,
}

/// Sum up `A^T A` and `A^T b` over all rows.
fn accumulate(rows: &Vec<Vec3>, bs: &Vec<i64>) -> (a: Accum)
    requires
        rows@.len() == bs@.len(),
        forall|i: int| 0 <= i < rows@.len() ==> bounded(#[trigger] rows@[i], SCALE as int),
        forall|i: int| 0 <= i < bs@.len() ==> -SCALE <= #[trigger] bs@[i] && bs@[i] <= SCALE,
    ensures
        a.xx == gram_xx(rows@, rows@.len() as int),
        a.xy == gram_xy(rows@, rows@.len() as int),
        a.xz == gram_xz(rows@, rows@.len() as int),
        a.yy == gram_yy(rows@, rows@.len() as int),
        a.yz == gram_yz(rows@, rows@.len() as int),
        a.zz == gram_zz(rows@, rows@.len() as int),
        a.bx == mom_x(rows@, bs@, rows@.len() as int),
        a.by == mom_y(rows@, bs@, rows@.len() as int),
        a.bz == mom_z(rows@, bs@, rows@.len() as int),
        -(rows@.len() as int) * 0x1_0000_0000 <= a.xx <= (rows@.len() as int) * 0x1_0000_0000,
        -(rows@.len() as int) * 0x1_0000_0000 <= a.xy <= (rows@.len() as int) * 0x1_0000_0000,
        -(rows@.len() as int) * 0x1_0000_0000 <= a.xz <= (rows@.len() as int) * 0x1_0000_0000,
        -(rows@.len() as int) * 0x1_0000_0000 <= a.yy <= (rows@.len() as int) * 0x1_0000_0000,
        -(rows@.len() as int) * 0x1_0000_0000 <= a.yz <= (rows@.len() as int) * 0x1_0000_0000,
        -(rows@.len() as int) * 0x1_0000_0000 <= a.zz <= (rows@.len() as int) * 0x1_0000_0000,
        -(rows@.len() as int) * 0x1_0000_0000 <= a.bx <= (rows@.len() as int) * 0x1_0000_0000,
        -(rows@.len() as int) * 0x1_0000_0000 <= a.by <= (rows@.len() as int) * 0x1_0000_0000,
        -(rows@.len() as int) * 0x1_0000_0000 <= a.bz <= (rows@.len() as int) * 0x1_0000_0000,
{
    let n = rows.len();
    let mut a = Accum { xx: 0, xy: 0, xz: 0, yy: 0, yz: 0, zz: 0, bx: 0, by: 0, bz: 0 };
    let mut i: usize = 0;
    while i < n
        invariant
            i <= n,
            n == rows@.len() == bs@.len(),
            forall|j: int| 0 <= j < rows@.len() ==> bounded(#[trigger] rows@[j], SCALE as int),
            forall|j: int| 0 <= j < bs@.len() ==> -SCALE <= #[trigger] bs@[j] && bs@[j] <= SCALE,
            a.xx == gram_xx(rows@, i as int),
            a.xy == gram_xy(rows@, i as int),
            a.xz == gram_xz(rows@, i as int),
            a.yy == gram_yy(rows@, i as int),
            a.yz == gram_yz(rows@, i as int),
            a.zz == gram_zz(rows@, i as int),
            a.bx == mom_x(rows@, bs@, i as int),
            a.by == mom_y(rows@, bs@, i as int),
            a.bz == mom_z(rows@, bs@, i as int),
            -(i as int) * 0x1_0000_0000 <= a.xx <= (i as int) * 0x1_0000_0000,
            -(i as int) * 0x1_0000_0000 <= a.xy <= (i as int) * 0x1_0000_0000,
            -(i as int) * 0x1_0000_0000 <= a.xz <= (i as int) * 0x1_0000_0000,
            -(i as int) * 0x1_0000_0000 <= a.yy <= (i as int) * 0x1_0000_0000,
            -(i as int) * 0x1_0000_0000 <= a.yz <= (i as int) * 0x1_0000_0000,
            -(i as int) * 0x1_0000_0000 <= a.zz <= (i as int) * 0x1_0000_0000,
            -(i as int) * 0x1_0000_0000 <= a.bx <= (i as int) * 0x1_0000_0000,
            -(i as int) * 0x1_0000_0000 <= a.by <= (i as int) * 0x1_0000_0000,
            -(i as int) * 0x1_0000_0000 <= a.bz <= (i as int) * 0x1_0000_0000,
        decreases n - i,
    {
        let row = rows[i];
        let b = bs[i];
        proof {
            lemma_mul_abs_bound(row.x as int, row.x as int, SCALE as int, SCALE as int);
            lemma_mul_abs_bound(row.x as int, row.y as int, SCALE as int, SCALE as int);
            lemma_mul_abs_bound(row.x as int, row.z as int, SCALE as int, SCALE as int);
            lemma_mul_abs_bound(row.y as int, row.y as int, SCALE as int, SCALE as int);
            lemma_mul_abs_bound(row.y as int, row.z as int, SCALE as int, SCALE as int);
            lemma_mul_abs_bound(row.z as int, row.z as int, SCALE as int, SCALE as int);
            lemma_mul_abs_bound(row.x as int, b as int, SCALE as int, SCALE as int);
            lemma_mul_abs_bound(row.y as int, b as int, SCALE as int, SCALE as int);
            lemma_mul_abs_bound(row.z as int, b as int, SCALE as int, SCALE as int);
        }
        let rx: i128 = row.x as i128;
        let ry: i128 = row.y as i128;
        let rz: i128 = row.z as i128;
        let bb: i128 = b as i128;
        a = Accum {
            xx: a.xx + rx * rx,
            xy: a.xy + rx * ry,
            xz: a.xz + rx * rz,
            yy: a.yy + ry * ry,
            yz: a.yz + ry * rz,
            zz: a.zz + rz * rz,
            bx: a.bx + rx * bb,
            by: a.by + ry * bb,
            bz: a.bz + rz * bb,
        };
        i = i + 1;
    }
    a
}

/// Least-squares solution of `rows . x = bs` via the normal equations.
///
/// Returns `None` exactly when the scaled normal matrix is singular (the
/// underconstrained case: fewer than three linearly independent rows);
/// otherwise the solution of [`ls_solution`], whose coordinates fit in
/// `[-OUT_BOUND, OUT_BOUND]`.
pub fn least_squares(rows: &Vec<Vec3>, bs: &Vec<i64>) -> (r: Option<Vec3>)
    requires
        rows@.len() == bs@.len(),
        rows@.len() >= 1,
        forall|i: int| 0 <= i < rows@.len() ==> bounded(#[trigger] rows@[i], SCALE as int),
        forall|i: int| 0 <= i < bs@.len() ==> -SCALE <= #[trigger] bs@[i] && bs@[i] <= SCALE,
    ensures
        (r is None) <==> sys_det(rows@) == 0,
        r matches Some(u) ==> u == ls_solution(rows@, bs@) && bounded(u, OUT_BOUND as int),
{
    let n = rows.len();
    let acc = accumulate(rows, bs);

    // Build the scale divisor 2^shrink_len(n).
    proof {
        lemma_shrink_len(n as int);
        assert(pow2(0) == 1) by {
            vstd::arithmetic::power2::lemma2_to64();
        }
    }
    let mut mm: usize = n;
    let mut dd: i128 = 1;
    let ghost mut e: nat = 0nat;
    while mm > 4
        invariant
            1 <= mm,
            n >= 1,
            shrink_len(n as int) == e + shrink_len(mm as int),
            dd == pow2(e),
            dd <= n as int + 1,
            pow2(shrink_len(n as int)) <= n as int + 1,
        decreases mm,
    {
        proof {
            assert(shrink_len(mm as int) == shrink_len((mm as int + 1) / 2) + 1);
            lemma_pow2_unfold(e + 1);
            if e + 1 < shrink_len(n as int) {
                lemma_pow2_strictly_increases(e + 1, shrink_len(n as int));
            }
        }
        mm = (mm - 1) / 2 + 1;
        dd = dd * 2;
        proof {
            e = e + 1;
        }
    }
    proof {
        assert(shrink_len(mm as int) == 0);
        assert(dd == pow2(shrink_len(n as int)));
        assert(n as int <= 4 * dd);
        assert((n as int) * 0x1_0000_0000 <= dd * 0x4_0000_0000) by (nonlinear_arith)
            requires
                n as int <= 4 * dd,
        ;
        lemma_tdiv_bound(acc.xx as int, dd as int, 0x4_0000_0000);
        lemma_tdiv_bound(acc.xy as int, dd as int, 0x4_0000_0000);
        lemma_tdiv_bound(acc.xz as int, dd as int, 0x4_0000_0000);
        lemma_tdiv_bound(acc.yy as int, dd as int, 0x4_0000_0000);
        lemma_tdiv_bound(acc.yz as int, dd as int, 0x4_0000_0000);
        lemma_tdiv_bound(acc.zz as int, dd as int, 0x4_0000_0000);
        lemma_tdiv_bound(acc.bx as int, dd as int, 0x4_0000_0000);
        lemma_tdiv_bound(acc.by as int, dd as int, 0x4_0000_0000);
        lemma_tdiv_bound(acc.bz as int, dd as int, 0x4_0000_0000);
    }
    let rxx: i128 = tdiv_i128(acc.xx, dd);
    let rxy: i128 = tdiv_i128(acc.xy, dd);
    let rxz: i128 = tdiv_i128(acc.xz, dd);
    let ryy: i128 = tdiv_i128(acc.yy, dd);
    let ryz: i128 = tdiv_i128(acc.yz, dd);
    let rzz: i128 = tdiv_i128(acc.zz, dd);
    let rbx: i128 = tdiv_i128(acc.bx, dd);
    let rby: i128 = tdiv_i128(acc.by, dd);
    let rbz: i128 = tdiv_i128(acc.bz, dd);

    // Determinant and adjugate of the scaled normal matrix.
    proof {
        lemma_mul_abs_bound(ryy as int, rzz as int, 0x4_0000_0000, 0x4_0000_0000);
        lemma_mul_abs_bound(ryz as int, ryz as int, 0x4_0000_0000, 0x4_0000_0000);
        lemma_mul_abs_bound(rxy as int, rzz as int, 0x4_0000_0000, 0x4_0000_0000);
        lemma_mul_abs_bound(ryz as int, rxz as int, 0x4_0000_0000, 0x4_0000_0000);
        lemma_mul_abs_bound(rxy as int, ryz as int, 0x4_0000_0000, 0x4_0000_0000);
        lemma_mul_abs_bound(ryy as int, rxz as int, 0x4_0000_0000, 0x4_0000_0000);
        lemma_mul_abs_bound(rxx as int, rzz as int, 0x4_0000_0000, 0x4_0000_0000);
        lemma_mul_abs_bound(rxz as int, rxz as int, 0x4_0000_0000, 0x4_0000_0000);
        lemma_mul_abs_bound(rxy as int, rxz as int, 0x4_0000_0000, 0x4_0000_0000);
        lemma_mul_abs_bound(rxx as int, ryz as int, 0x4_0000_0000, 0x4_0000_0000);
        lemma_mul_abs_bound(rxx as int, ryy as int, 0x4_0000_0000, 0x4_0000_0000);
        lemma_mul_abs_bound(rxy as int, rxy as int, 0x4_0000_0000, 0x4_0000_0000);
    }
    let a11: i128 = ryy * rzz - ryz * ryz;
    let a12: i128 = rxz * ryz - rxy * rzz;
    let a13: i128 = rxy * ryz - rxz * ryy;
    let a22: i128 = rxx * rzz - rxz * rxz;
    let a23: i128 = rxy * rxz - rxx * ryz;
    let a33: i128 = rxx * ryy - rxy * rxy;
    proof {
        lemma_mul_abs_bound(rxx as int, a11 as int, 0x4_0000_0000, 0x20_0000_0000_0000_0000);
        lemma_mul_abs_bound(rxy as int, a12 as int, 0x4_0000_0000, 0x20_0000_0000_0000_0000);
        lemma_mul_abs_bound(rxz as int, a13 as int, 0x4_0000_0000, 0x20_0000_0000_0000_0000);
    }
    let det: i128 = rxx * a11 + rxy * a12 + rxz * a13;
    proof {
        assert(det == sys_det(rows@)) by {
            assert(rxx * a11 + rxy * a12 + rxz * a13 == rxx * (ryy * rzz - ryz * ryz) - rxy * (
            rxy * rzz - ryz * rxz) + rxz * (rxy * ryz - ryy * rxz)) by (nonlinear_arith)
                requires
                    a11 == ryy * rzz - ryz * ryz,
                    a12 == rxz * ryz - rxy * rzz,
                    a13 == rxy * ryz - rxz * ryy,
            ;
        }
    }
    if det == 0 {
        return None;
    }
    proof {
        lemma_mul_abs_bound(a11 as int, rbx as int, 0x20_0000_0000_0000_0000, 0x4_0000_0000);
        lemma_mul_abs_bound(a12 as int, rby as int, 0x20_0000_0000_0000_0000, 0x4_0000_0000);
        lemma_mul_abs_bound(a13 as int, rbz as int, 0x20_0000_0000_0000_0000, 0x4_0000_0000);
        lemma_mul_abs_bound(a12 as int, rbx as int, 0x20_0000_0000_0000_0000, 0x4_0000_0000);
        lemma_mul_abs_bound(a22 as int, rby as int, 0x20_0000_0000_0000_0000, 0x4_0000_0000);
        lemma_mul_abs_bound(a23 as int, rbz as int, 0x20_0000_0000_0000_0000, 0x4_0000_0000);
        lemma_mul_abs_bound(a13 as int, rbx as int, 0x20_0000_0000_0000_0000, 0x4_0000_0000);
        lemma_mul_abs_bound(a23 as int, rby as int, 0x20_0000_0000_0000_0000, 0x4_0000_0000);
        lemma_mul_abs_bound(a33 as int, rbz as int, 0x20_0000_0000_0000_0000, 0x4_0000_0000);
    }
    let nx: i128 = a11 * rbx + a12 * rby + a13 * rbz;
    let ny: i128 = a12 * rbx + a22 * rby + a23 * rbz;
    let nz: i128 = a13 * rbx + a23 * rby + a33 * rbz;
    proof {
        assert(nx == sol_nums(rows@, bs@).0 && ny == sol_nums(rows@, bs@).1 && nz == sol_nums(
            rows@,
            bs@,
        ).2) by {
            assert(a12 == rxz * ryz - rxy * rzz && a13 == rxy * ryz - rxz * ryy);
        }
    }
    let neg = det < 0;
    let pdet: i128 = if neg {
        -det
    } else {
        det
    };
    let s1x: i128 = if neg {
        -nx
    } else {
        nx
    };
    let s1y: i128 = if neg {
        -ny
    } else {
        ny
    };
    let s1z: i128 = if neg {
        -nz
    } else {
        nz
    };
    let sx: i128 = tdiv_i128(s1x * (SCALE as i128), pdet);
    let sy: i128 = tdiv_i128(s1y * (SCALE as i128), pdet);
    let sz: i128 = tdiv_i128(s1z * (SCALE as i128), pdet);
    proof {
        lemma_tdiv_shrinks((s1x * SCALE) as int, pdet as int);
        lemma_tdiv_shrinks((s1y * SCALE) as int, pdet as int);
        lemma_tdiv_shrinks((s1z * SCALE) as int, pdet as int);
    }

    // Scale the solution into fixed range.
    let ghost sx0: int = sx as int;
    let ghost sy0: int = sy as int;
    let ghost sz0: int = sz as int;
    let mut cx: i128 = sx;
    let mut cy: i128 = sy;
    let mut cz: i128 = sz;
    let mut cm: i128 = abs_i128(cx);
    let acy: i128 = abs_i128(cy);
    if acy > cm {
        cm = acy;
    }
    let acz: i128 = abs_i128(cz);
    if acz > cm {
        cm = acz;
    }
    let ghost mut t2: nat = 0nat;
    while cm > OUT_BOUND as i128
        invariant
            cm >= 0,
            cm == max_abs3(cx as int, cy as int, cz as int),
            cx == tdiv(sx0, pow2(t2) as int),
            cy == tdiv(sy0, pow2(t2) as int),
            cz == tdiv(sz0, pow2(t2) as int),
            drop_exp(max_abs3(sx0, sy0, sz0)) == t2 + drop_exp(cm as int),
        decreases cm,
    {
        proof {
            assert(drop_exp(cm as int) == drop_exp(tdiv(cm as int, 2)) + 1);
            lemma_pow2_pos(t2);
            lemma_pow2_unfold(t2 + 1);
            lemma_tdiv_compose(sx0, pow2(t2) as int, 2);
            lemma_tdiv_compose(sy0, pow2(t2) as int, 2);
            lemma_tdiv_compose(sz0, pow2(t2) as int, 2);
            lemma_tdiv_abs(cx as int, 2);
            lemma_tdiv_abs(cy as int, 2);
            lemma_tdiv_abs(cz as int, 2);
            lemma_half_max3(abs_i(cx as int), abs_i(cy as int), abs_i(cz as int));
        }
        cx = tdiv_i128(cx, 2);
        cy = tdiv_i128(cy, 2);
        cz = tdiv_i128(cz, 2);
        cm = tdiv_i128(cm, 2);
        proof {
            t2 = t2 + 1;
        }
    }
    proof {
        assert(drop_exp(cm as int) == 0);
        assert(t2 == drop_exp(max_abs3(sx0, sy0, sz0)));
    }
    let u = Vec3 { x: cx as i64, y: cy as i64, z: cz as i64 };
    Some(u)
}

// --- singularity of rank-deficient systems ---

/// Multiplying a vanishing linear combination through by `k` distributes.
proof fn lemma_dist3(k: int, u1: int, u2: int, u3: int, v1: int, v2: int, v3: int)
    requires
        u1 * v1 + u2 * v2 + u3 * v3 == 0,
    ensures
        (k * u1) * v1 + (k * u2) * v2 + (k * u3) * v3 == 0,
{
    vstd::arithmetic::mul::lemma_mul_is_distributive_add(k, u1 * v1 + u2 * v2, u3 * v3);
    vstd::arithmetic::mul::lemma_mul_is_distributive_add(k, u1 * v1, u2 * v2);
    vstd::arithmetic::mul::lemma_mul_is_associative(k, u1, v1);
    vstd::arithmetic::mul::lemma_mul_is_associative(k, u2, v2);
    vstd::arithmetic::mul::lemma_mul_is_associative(k, u3, v3);
    vstd::arithmetic::mul::lemma_mul_basics(k);
}

/// Common factors of a sum pull out.
proof fn lemma_factor3(a1: int, a2: int, a3: int, v: int)
    ensures
        a1 * v + a2 * v + a3 * v == (a1 + a2 + a3) * v,
{
    vstd::arithmetic::mul::lemma_mul_is_distributive_add_other_way(v, a1 + a2, a3);
    vstd::arithmetic::mul::lemma_mul_is_distributive_add_other_way(v, a1, a2);
}

/// All reorderings of a product of three factors.
proof fn lemma_m3(a: int, b: int, c: int)
    by (nonlinear_arith)
    ensures
        (a * b) * c == a * (b * c),
        (a * b) * c == (b * a) * c,
        (a * b) * c == (c * b) * a,
        (a * b) * c == (a * c) * b,
        a * (b * c) == a * (c * b),
        a * (b * c) == b * (a * c),
        a * (b * c) == c * (b * a),
{
}

/// The first row of the adjugate against the three columns of the matrix:
/// the determinant on the diagonal, zero off it.
proof fn lemma_adj_row1(xx: int, xy: int, xz: int, yy: int, yz: int, zz: int)
    ensures
        (yy * zz - yz * yz) * xx + (xz * yz - xy * zz) * xy + (xy * yz - xz * yy) * xz == det3(
            xx, xy, xz, yy, yz, zz),
        (yy * zz - yz * yz) * xy + (xz * yz - xy * zz) * yy + (xy * yz - xz * yy) * yz == 0,
        (yy * zz - yz * yz) * xz + (xz * yz - xy * zz) * yz + (xy * yz - xz * yy) * zz == 0,
{
    vstd::arithmetic::mul::lemma_mul_is_distributive_sub_other_way(xx, yy * zz, yz * yz);
    vstd::arithmetic::mul::lemma_mul_is_distributive_sub_other_way(xy, xz * yz, xy * zz);
    vstd::arithmetic::mul::lemma_mul_is_distributive_sub_other_way(xz, xy * yz, xz * yy);
    vstd::arithmetic::mul::lemma_mul_is_distributive_sub_other_way(xy, yy * zz, yz * yz);
    vstd::arithmetic::mul::lemma_mul_is_distributive_sub_other_way(yy, xz * yz, xy * zz);
    vstd::arithmetic::mul::lemma_mul_is_distributive_sub_other_way(yz, xy * yz, xz * yy);
    vstd::arithmetic::mul::lemma_mul_is_distributive_sub_other_way(xz, yy * zz, yz * yz);
    vstd::arithmetic::mul::lemma_mul_is_distributive_sub_other_way(yz, xz * yz, xy * zz);
    vstd::arithmetic::mul::lemma_mul_is_distributive_sub_other_way(zz, xy * yz, xz * yy);
    vstd::arithmetic::mul::lemma_mul_is_distributive_sub(xx, yy * zz, yz * yz);
    vstd::arithmetic::mul::lemma_mul_is_distributive_sub(xy, xy * zz, yz * xz);
    vstd::arithmetic::mul::lemma_mul_is_distributive_sub(xz, xy * yz, yy * xz);
    lemma_m3(yy, zz, xx);
    lemma_m3(yz, yz, xx);
    lemma_m3(xz, yz, xy);
    lemma_m3(yz, xz, xy);
    lemma_m3(xy, zz, xy);
    lemma_m3(xy, yz, xz);
    lemma_m3(xz, yy, xz);
    lemma_m3(yy, xz, xz);
    lemma_m3(yy, zz, xy);
    lemma_m3(yz, yz, xy);
    lemma_m3(xz, yz, yy);
    lemma_m3(xy, zz, yy);
    lemma_m3(xy, yz, yz);
    lemma_m3(xz, yy, yz);
    lemma_m3(yy, zz, xz);
    lemma_m3(yz, yz, xz);
    lemma_m3(xz, yz, yz);
    lemma_m3(xy, zz, yz);
    lemma_m3(xy, yz, zz);
    lemma_m3(xz, yy, zz);
}

/// The second row of the adjugate against the three columns.
proof fn lemma_adj_row2(xx: int, xy: int, xz: int, yy: int, yz: int, zz: int)
    ensures
        (xz * yz - xy * zz) * xx + (xx * zz - xz * xz) * xy + (xy * xz - xx * yz) * xz == 0,
        (xz * yz - xy * zz) * xy + (xx * zz - xz * xz) * yy + (xy * xz - xx * yz) * yz == det3(
            xx, xy, xz, yy, yz, zz),
        (xz * yz - xy * zz) * xz + (xx * zz - xz * xz) * yz + (xy * xz - xx * yz) * zz == 0,
{
    vstd::arithmetic::mul::lemma_mul_is_distributive_sub_other_way(xx, xz * yz, xy * zz);
    vstd::arithmetic::mul::lemma_mul_is_distributive_sub_other_way(xy, xx * zz, xz * xz);
    vstd::arithmetic::mul::lemma_mul_is_distributive_sub_other_way(xz, xy * xz, xx * yz);
    vstd::arithmetic::mul::lemma_mul_is_distributive_sub_other_way(xy, xz * yz, xy * zz);
    vstd::arithmetic::mul::lemma_mul_is_distributive_sub_other_way(yy, xx * zz, xz * xz);
    vstd::arithmetic::mul::lemma_mul_is_distributive_sub_other_way(yz, xy * xz, xx * yz);
    vstd::arithmetic::mul::lemma_mul_is_distributive_sub_other_way(xz, xz * yz, xy * zz);
    vstd::arithmetic::mul::lemma_mul_is_distributive_sub_other_way(yz, xx * zz, xz * xz);
    vstd::arithmetic::mul::lemma_mul_is_distributive_sub_other_way(zz, xy * xz, xx * yz);
    vstd::arithmetic::mul::lemma_mul_is_distributive_sub(xx, yy * zz, yz * yz);
    vstd::arithmetic::mul::lemma_mul_is_distributive_sub(xy, xy * zz, yz * xz);
    vstd::arithmetic::mul::lemma_mul_is_distributive_sub(xz, xy * yz, yy * xz);
    lemma_m3(xz, yz, xx);
    lemma_m3(xy, zz, xx);
    lemma_m3(xx, zz, xy);
    lemma_m3(xz, xz, xy);
    lemma_m3(xy, xz, xz);
    lemma_m3(xx, yz, xz);
    lemma_m3(xz, yz, xy);
    lemma_m3(yz, xz, xy);
    lemma_m3(xy, zz, xy);
    lemma_m3(xx, zz, yy);
    lemma_m3(zz, yy, xx);
    lemma_m3(xz, xz, yy);
    lemma_m3(xz, yy, xz);
    lemma_m3(yy, xz, xz);
    lemma_m3(xy, xz, yz);
    lemma_m3(xx, yz, yz);
    lemma_m3(yz, yz, xx);
    lemma_m3(xz, yz, xz);
    lemma_m3(xx, zz, yz);
    lemma_m3(xy, xz, zz);
    lemma_m3(xx, yz, zz);
    lemma_m3(xy, zz, xz);
    lemma_m3(zz, xz, xy);
}

/// The third row of the adjugate against the three columns.
proof fn lemma_adj_row3(xx: int, xy: int, xz: int, yy: int, yz: int, zz: int)
    ensures
        (xy * yz - xz * yy) * xx + (xy * xz - xx * yz) * xy + (xx * yy - xy * xy) * xz == 0,
        (xy * yz - xz * yy) * xy + (xy * xz - xx * yz) * yy + (xx * yy - xy * xy) * yz == 0,
        (xy * yz - xz * yy) * xz + (xy * xz - xx * yz) * yz + (xx * yy - xy * xy) * zz == det3(
            xx, xy, xz, yy, yz, zz),
{
    vstd::arithmetic::mul::lemma_mul_is_distributive_sub_other_way(xx, xy * yz, xz * yy);
    vstd::arithmetic::mul::lemma_mul_is_distributive_sub_other_way(xy, xy * xz, xx * yz);
    vstd::arithmetic::mul::lemma_mul_is_distributive_sub_other_way(xz, xx * yy, xy * xy);
    vstd::arithmetic::mul::lemma_mul_is_distributive_sub_other_way(xy, xy * yz, xz * yy);
    vstd::arithmetic::mul::lemma_mul_is_distributive_sub_other_way(yy, xy * xz, xx * yz);
    vstd::arithmetic::mul::lemma_mul_is_distributive_sub_other_way(yz, xx * yy, xy * xy);
    vstd::arithmetic::mul::lemma_mul_is_distributive_sub_other_way(xz, xy * yz, xz * yy);
    vstd::arithmetic::mul::lemma_mul_is_distributive_sub_other_way(yz, xy * xz, xx * yz);
    vstd::arithmetic::mul::lemma_mul_is_distributive_sub_other_way(zz, xx * yy, xy * xy);
    vstd::arithmetic::mul::lemma_mul_is_distributive_sub(xx, yy * zz, yz * yz);
    vstd::arithmetic::mul::lemma_mul_is_distributive_sub(xy, xy * zz, yz * xz);
    vstd::arithmetic::mul::lemma_mul_is_distributive_sub(xz, xy * yz, yy * xz);
    lemma_m3(xy, yz, xx);
    lemma_m3(xz, yy, xx);
    lemma_m3(xy, xz, xy);
    lemma_m3(xx, yz, xy);
    lemma_m3(xx, yy, xz);
    lemma_m3(xy, xy, xz);
    lemma_m3(xy, yz, xy);
    lemma_m3(xz, yy, xy);
    lemma_m3(xy, xz, yy);
    lemma_m3(xx, yz, yy);
    lemma_m3(xx, yy, yz);
    lemma_m3(xy, xy, yz);
    lemma_m3(xy, yz, xz);
    lemma_m3(xz, yy, xz);
    lemma_m3(xx, yz, yz);
    lemma_m3(xy, xz, yz);
    lemma_m3(xx, yy, zz);
    lemma_m3(xy, xy, zz);
    lemma_m3(yy, xz, xz);
    lemma_m3(yz, yz, xx);
    lemma_m3(yz, xz, xy);
    lemma_m3(zz, xy, xy);
}

/// One coordinate of the adjugate identity: a row `(k1, k2, k3)` of the
/// adjugate of the symmetric matrix, combined with `M v == 0`, kills the
/// corresponding coordinate of `det * v`.
proof fn lemma_adj_row(
    k1: int,
    k2: int,
    k3: int,
    xx: int,
    xy: int,
    xz: int,
    yy: int,
    yz: int,
    zz: int,
    vx: int,
    vy: int,
    vz: int,
    d1: int,
    d2: int,
    d3: int,
)
    requires
        xx * vx + xy * vy + xz * vz == 0,
        xy * vx + yy * vy + yz * vz == 0,
        xz * vx + yz * vy + zz * vz == 0,
        k1 * xx + k2 * xy + k3 * xz == d1,
        k1 * xy + k2 * yy + k3 * yz == d2,
        k1 * xz + k2 * yz + k3 * zz == d3,
    ensures
        d1 * vx + d2 * vy + d3 * vz == 0,
{
    lemma_dist3(k1, xx, xy, xz, vx, vy, vz);
    lemma_dist3(k2, xy, yy, yz, vx, vy, vz);
    lemma_dist3(k3, xz, yz, zz, vx, vy, vz);
    lemma_factor3(k1 * xx, k2 * xy, k3 * xz, vx);
    lemma_factor3(k1 * xy, k2 * yy, k3 * yz, vy);
    lemma_factor3(k1 * xz, k2 * yz, k3 * zz, vz);
}

/// A symmetric 3 x 3 matrix with a non-zero kernel vector has determinant
/// zero: the adjugate identity `adj(M) * M == det(M) * I` turns `M v == 0`
/// into `det(M) * v == 0`.
pub proof fn lemma_det3_kernel(
    xx: int,
    xy: int,
    xz: int,
    yy: int,
    yz: int,
    zz: int,
    vx: int,
    vy: int,
    vz: int,
)
    requires
        xx * vx + xy * vy + xz * vz == 0,
        xy * vx + yy * vy + yz * vz == 0,
        xz * vx + yz * vy + zz * vz == 0,
        !(vx == 0 && vy == 0 && vz == 0),
    ensures
        det3(xx, xy, xz, yy, yz, zz) == 0,
{
    let det = det3(xx, xy, xz, yy, yz, zz);
    if vx != 0 {
        lemma_adj_row1(xx, xy, xz, yy, yz, zz);
        lemma_adj_row(
            yy * zz - yz * yz,
            xz * yz - xy * zz,
            xy * yz - xz * yy,
            xx,
            xy,
            xz,
            yy,
            yz,
            zz,
            vx,
            vy,
            vz,
            det,
            0,
            0,
        );
        assert(det * vx == 0);
        assert(det == 0) by (nonlinear_arith)
            requires
                det * vx == 0,
                vx != 0,
        ;
    } else if vy != 0 {
        lemma_adj_row2(xx, xy, xz, yy, yz, zz);
        lemma_adj_row(
            xz * yz - xy * zz,
            xx * zz - xz * xz,
            xy * xz - xx * yz,
            xx,
            xy,
            xz,
            yy,
            yz,
            zz,
            vx,
            vy,
            vz,
            0,
            det,
            0,
        );
        assert(det * vy == 0);
        assert(det == 0) by (nonlinear_arith)
            requires
                det * vy == 0,
                vy != 0,
        ;
    } else {
        lemma_adj_row3(xx, xy, xz, yy, yz, zz);
        lemma_adj_row(
            xy * yz - xz * yy,
            xy * xz - xx * yz,
            xx * yy - xy * xy,
            xx,
            xy,
            xz,
            yy,
            yz,
            zz,
            vx,
            vy,
            vz,
            0,
            0,
            det,
        );
        assert(det * vz == 0);
        assert(det == 0) by (nonlinear_arith)
            requires
                det * vz == 0,
                vz != 0,
        ;
    }
}

/// The kernel step for the normal matrix of the three rows `r`, `r`, `t`:
/// any vector orthogonal to both `r` and `t` is in its kernel.
proof fn lemma_two_dir_kernel(r: Vec3, t: Vec3, vx: int, vy: int, vz: int)
    requires
        r.x * vx + r.y * vy + r.z * vz == 0,
        t.x * vx + t.y * vy + t.z * vz == 0,
        !(vx == 0 && vy == 0 && vz == 0),
    ensures
        det3(
            2 * (r.x * r.x) + t.x * t.x,
            2 * (r.x * r.y) + t.x * t.y,
            2 * (r.x * r.z) + t.x * t.z,
            2 * (r.y * r.y) + t.y * t.y,
            2 * (r.y * r.z) + t.y * t.z,
            2 * (r.z * r.z) + t.z * t.z,
        ) == 0,
{
    let rx = r.x as int;
    let ry = r.y as int;
    let rz = r.z as int;
    let tx = t.x as int;
    let ty = t.y as int;
    let tz = t.z as int;
    assert((2 * rx) * rx == 2 * (rx * rx) && (2 * rx) * ry == 2 * (rx * ry) && (2 * rx) * rz == 2
        * (rx * rz)) by (nonlinear_arith);
    assert((2 * ry) * rx == 2 * (rx * ry) && (2 * ry) * ry == 2 * (ry * ry) && (2 * ry) * rz == 2
        * (ry * rz)) by (nonlinear_arith);
    assert((2 * rz) * rx == 2 * (rx * rz) && (2 * rz) * ry == 2 * (ry * rz) && (2 * rz) * rz == 2
        * (rz * rz)) by (nonlinear_arith);
    assert(ty * tx == tx * ty && tz * tx == tx * tz && tz * ty == ty * tz) by (nonlinear_arith);

    lemma_dist3(2 * rx, rx, ry, rz, vx, vy, vz);
    lemma_dist3(tx, tx, ty, tz, vx, vy, vz);
    lemma_factor3(2 * (rx * rx), tx * tx, 0, vx);
    lemma_factor3(2 * (rx * ry), tx * ty, 0, vy);
    lemma_factor3(2 * (rx * rz), tx * tz, 0, vz);
    assert((2 * (rx * rx) + tx * tx + 0) * vx + (2 * (rx * ry) + tx * ty + 0) * vy + (2 * (rx
        * rz) + tx * tz + 0) * vz == 0);

    lemma_dist3(2 * ry, rx, ry, rz, vx, vy, vz);
    lemma_dist3(ty, tx, ty, tz, vx, vy, vz);
    lemma_factor3(2 * (rx * ry), tx * ty, 0, vx);
    lemma_factor3(2 * (ry * ry), ty * ty, 0, vy);
    lemma_factor3(2 * (ry * rz), ty * tz, 0, vz);
    assert((2 * (rx * ry) + tx * ty + 0) * vx + (2 * (ry * ry) + ty * ty + 0) * vy + (2 * (ry
        * rz) + ty * tz + 0) * vz == 0);

    lemma_dist3(2 * rz, rx, ry, rz, vx, vy, vz);
    lemma_dist3(tz, tx, ty, tz, vx, vy, vz);
    lemma_factor3(2 * (rx * rz), tx * tz, 0, vx);
    lemma_factor3(2 * (ry * rz), ty * tz, 0, vy);
    lemma_factor3(2 * (rz * rz), tz * tz, 0, vz);
    assert((2 * (rx * rz) + tx * tz + 0) * vx + (2 * (ry * rz) + ty * tz + 0) * vy + (2 * (rz
        * rz) + tz * tz + 0) * vz == 0);

    lemma_det3_kernel(
        2 * (rx * rx) + tx * tx,
        2 * (rx * ry) + tx * ty,
        2 * (rx * rz) + tx * tz,
        2 * (ry * ry) + ty * ty,
        2 * (ry * rz) + ty * tz,
        2 * (rz * rz) + tz * tz,
        vx,
        vy,
        vz,
    );
}

/// Both `r` and `t` are orthogonal to their cross product.
proof fn lemma_triple_product(rx: int, ry: int, rz: int, tx: int, ty: int, tz: int)
    ensures
        rx * (ry * tz - rz * ty) + ry * (rz * tx - rx * tz) + rz * (rx * ty - ry * tx) == 0,
        tx * (ry * tz - rz * ty) + ty * (rz * tx - rx * tz) + tz * (rx * ty - ry * tx) == 0,
{
    vstd::arithmetic::mul::lemma_mul_is_distributive_sub(rx, ry * tz, rz * ty);
    vstd::arithmetic::mul::lemma_mul_is_distributive_sub(ry, rz * tx, rx * tz);
    vstd::arithmetic::mul::lemma_mul_is_distributive_sub(rz, rx * ty, ry * tx);
    vstd::arithmetic::mul::lemma_mul_is_distributive_sub(tx, ry * tz, rz * ty);
    vstd::arithmetic::mul::lemma_mul_is_distributive_sub(ty, rz * tx, rx * tz);
    vstd::arithmetic::mul::lemma_mul_is_distributive_sub(tz, rx * ty, ry * tx);
    lemma_m3(rx, ry, tz);
    lemma_m3(rx, rz, ty);
    lemma_m3(ry, rz, tx);
    lemma_m3(tx, ry, tz);
    lemma_m3(tx, rz, ty);
    lemma_m3(ty, rx, tz);
}

/// A system whose three rows are `r`, `r`, `t` (two equal observation
/// directions and one more) is rank deficient, so its normal matrix is
/// singular and `least_squares` reports "no solution" for every right-hand
/// side.
pub proof fn lemma_duplicate_row_singular(r: Vec3, t: Vec3)
    ensures
        sys_det(seq![r, r, t]) == 0,
{
    let rows = seq![r, r, t];
    let rx = r.x as int;
    let ry = r.y as int;
    let rz = r.z as int;
    let tx = t.x as int;
    let ty = t.y as int;
    let tz = t.z as int;

    // With three rows no scaling happens: the entries are the plain sums.
    assert(shrink_len(3) == 0);
    assert(pow2(0) == 1) by {
        vstd::arithmetic::power2::lemma2_to64();
    }
    assert(gram_xx(rows, 3) == 2 * (rx * rx) + tx * tx) by {
        assert(gram_xx(rows, 3) == gram_xx(rows, 2) + tx * tx);
        assert(gram_xx(rows, 2) == gram_xx(rows, 1) + rx * rx);
        assert(gram_xx(rows, 1) == gram_xx(rows, 0) + rx * rx);
    }
    assert(gram_xy(rows, 3) == 2 * (rx * ry) + tx * ty) by {
        assert(gram_xy(rows, 3) == gram_xy(rows, 2) + tx * ty);
        assert(gram_xy(rows, 2) == gram_xy(rows, 1) + rx * ry);
        assert(gram_xy(rows, 1) == gram_xy(rows, 0) + rx * ry);
    }
    assert(gram_xz(rows, 3) == 2 * (rx * rz) + tx * tz) by {
        assert(gram_xz(rows, 3) == gram_xz(rows, 2) + tx * tz);
        assert(gram_xz(rows, 2) == gram_xz(rows, 1) + rx * rz);
        assert(gram_xz(rows, 1) == gram_xz(rows, 0) + rx * rz);
    }
    assert(gram_yy(rows, 3) == 2 * (ry * ry) + ty * ty) by {
        assert(gram_yy(rows, 3) == gram_yy(rows, 2) + ty * ty);
        assert(gram_yy(rows, 2) == gram_yy(rows, 1) + ry * ry);
        assert(gram_yy(rows, 1) == gram_yy(rows, 0) + ry * ry);
    }
    assert(gram_yz(rows, 3) == 2 * (ry * rz) + ty * tz) by {
        assert(gram_yz(rows, 3) == gram_yz(rows, 2) + ty * tz);
        assert(gram_yz(rows, 2) == gram_yz(rows, 1) + ry * rz);
        assert(gram_yz(rows, 1) == gram_yz(rows, 0) + ry * rz);
    }
    assert(gram_zz(rows, 3) == 2 * (rz * rz) + tz * tz) by {
        assert(gram_zz(rows, 3) == gram_zz(rows, 2) + tz * tz);
        assert(gram_zz(rows, 2) == gram_zz(rows, 1) + rz * rz);
        assert(gram_zz(rows, 1) == gram_zz(rows, 0) + rz * rz);
    }
    crate::arith::lemma_tdiv_one(gram_xx(rows, 3));
    crate::arith::lemma_tdiv_one(gram_xy(rows, 3));
    crate::arith::lemma_tdiv_one(gram_xz(rows, 3));
    crate::arith::lemma_tdiv_one(gram_yy(rows, 3));
    crate::arith::lemma_tdiv_one(gram_yz(rows, 3));
    crate::arith::lemma_tdiv_one(gram_zz(rows, 3));

    // A kernel vector orthogonal to both r and t always exists.
    let cx = ry * tz - rz * ty;
    let cy = rz * tx - rx * tz;
    let cz = rx * ty - ry * tx;
    if cx != 0 || cy != 0 || cz != 0 {
        lemma_triple_product(rx, ry, rz, tx, ty, tz);
        lemma_two_dir_kernel(r, t, cx, cy, cz);
    } else if rx != 0 || ry != 0 {
        // r and t are parallel; a vector orthogonal to r in the xy plane
        // is orthogonal to t as well, because the cross product vanishes.
        assert(rx * (-ry) + ry * rx + rz * 0 == 0) by (nonlinear_arith);
        assert(tx * (-ry) + ty * rx + tz * 0 == 0) by (nonlinear_arith)
            requires
                rx * ty - ry * tx == 0,
        ;
        lemma_two_dir_kernel(r, t, -ry, rx, 0);
    } else if rz != 0 {
        // r is along z; t's x coordinate vanishes with the cross product.
        assert(tx == 0) by (nonlinear_arith)
            requires
                rz * tx - rx * tz == 0,
                rx == 0,
                rz != 0,
        ;
        lemma_two_dir_kernel(r, t, 1, 0, 0);
    } else if tx != 0 || ty != 0 {
        // r is zero; pick a vector orthogonal to t in the xy plane.
        assert(tx * (-ty) + ty * tx + tz * 0 == 0) by (nonlinear_arith);
        lemma_two_dir_kernel(r, t, -ty, tx, 0);
    } else {
        // r is zero and t lies along z.
        lemma_two_dir_kernel(r, t, 1, 0, 0);
    }
}

/// Absolute value of an `i128` above `i128::MIN`.
fn abs_i128(a: i128) -> (r: i128)
    requires
        a > i128::MIN,
    ensures
        r == abs_i(a as int),
{
    if a < 0 {
        -a
    } else {
        a
    }
}

} // verus!
