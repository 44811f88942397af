//! Fixed-point 3-vectors: the carrier of normals and lighting directions.
//!
//! A vector stores `SCALE`-scaled coordinates. `normalize` rescales any
//! non-zero vector to (approximate) unit length; `is_unit` is the invariant
//! that every normal and every lighting direction of the library satisfies.

use vstd::arithmetic::div_mod::{lemma_fundamental_div_mod, lemma_mod_division_less_than_divisor};
use vstd::arithmetic::power2::{lemma_pow2_pos, lemma_pow2_unfold, pow2};
use vstd::prelude::*;

use crate::arith::{lemma_sqrt_floor_unique, lemma_tdiv_bound, isqrt_u128, sqrt_floor, tdiv,
    tdiv_i128, SCALE};

verus! {

/// How far the squared length of a normalized vector may fall below
/// `SCALE * SCALE` (it never exceeds it): a relative length error
/// below `0.0001`.
pub const UNIT_TOL: i64 = 393220;

/// Largest coordinate magnitude `normalize` accepts.
pub const MAX_COORD: i64 = 0x2000_0000_0000_0000;

/// Vectors are scaled up until their largest coordinate reaches this bound
/// before dividing by their length, which keeps the rounding error of the
/// division small.
pub const LIFT_BOUND: i64 = 0x100_0000_0000;

/// A 3-vector of fixed-point coordinates.
#[derive(Clone, Copy, PartialEq, Eq, Structural, Debug)]
pub struct Vec3 {
    pub x: i64,
    pub y: i64,
    pub z: i64,
}

/// Absolute value.
pub open spec fn abs_i(a: int) -> int {
    if a < 0 {
        -a
    } else {
        a
    }
}

/// The largest of three values.
pub open spec fn max3(a: int, b: int, c: int) -> int {
    if a >= b && a >= c {
        a
    } else if b >= c {
        b
    } else {
        c
    }
}

/// The largest coordinate magnitude.
pub open spec fn max_abs3(x: int, y: int, z: int) -> int {
    max3(abs_i(x), abs_i(y), abs_i(z))
}

/// Squared length.
pub open spec fn norm_sq(v: Vec3) -> int {
    v.x * v.x + v.y * v.y + v.z * v.z
}

/// Dot product.
pub open spec fn dot_s(a: Vec3, b: Vec3) -> int {
    a.x * b.x + a.y * b.y + a.z * b.z
}

/// First coordinate of the cross product.
pub open spec fn cross_x(a: Vec3, b: Vec3) -> int {
    a.y * b.z - a.z * b.y
}

/// Second coordinate of the cross product.
pub open spec fn cross_y(a: Vec3, b: Vec3) -> int {
    a.z * b.x - a.x * b.z
}

/// Third coordinate of the cross product.
pub open spec fn cross_z(a: Vec3, b: Vec3) -> int {
    a.x * b.y - a.y * b.x
}

/// All coordinates of `v` lie in `[-b, b]`.
pub open spec fn bounded(v: Vec3, b: int) -> bool {
    &&& -b <= v.x <= b
    &&& -b <= v.y <= b
    &&& -b <= v.z <= b
}

/// Unit length up to the fixed-point tolerance: the squared length of `v`
/// lies within `UNIT_TOL` of `SCALE * SCALE` (about `1e-4` relative error),
/// and never above it.
pub open spec fn is_unit(v: Vec3) -> bool {
    SCALE * SCALE - UNIT_TOL <= norm_sq(v) && norm_sq(v) <= SCALE * SCALE
}

/// The camera axis `(0, 0, 1)` in fixed-point coordinates.
pub open spec fn camera_axis_s() -> Vec3 {
    Vec3 { x: 0, y: 0, z: SCALE }
}

pub fn camera_axis() -> (r: Vec3)
    ensures
        r == camera_axis_s(),
        is_unit(r),
{
    Vec3 { x: 0, y: 0, z: SCALE }
}

/// A unit vector has all coordinates in `[-SCALE, SCALE]`.
pub proof fn lemma_unit_coords(v: Vec3)
    requires
        is_unit(v),
    ensures
        bounded(v, SCALE as int),
{
    assert(v.x * v.x >= 0 && v.y * v.y >= 0 && v.z * v.z >= 0) by (nonlinear_arith);
    assert(forall|c: int| #[trigger] (c * c) <= 65536 * 65536 ==> -65536 <= c <= 65536)
        by (nonlinear_arith);
}

/// `|a * b| <= bound_a * bound_b` whenever `|a| <= bound_a` and `|b| <= bound_b`.
pub proof fn lemma_mul_abs_bound(a: int, b: int, ba: int, bb: int)
    by (nonlinear_arith)
    requires
        -ba <= a <= ba,
        -bb <= b <= bb,
    ensures
        -(ba * bb) <= a * b <= ba * bb,
{
}

/// Dot product of two bounded vectors; exact.
pub fn dot(a: &Vec3, b: &Vec3) -> (r: i64)
    requires
        bounded(*a, 0x4000_0000),
        bounded(*b, 0x4000_0000),
    ensures
        r == dot_s(*a, *b),
{
    proof {
        lemma_mul_abs_bound(a.x as int, b.x as int, 0x4000_0000, 0x4000_0000);
        lemma_mul_abs_bound(a.y as int, b.y as int, 0x4000_0000, 0x4000_0000);
        lemma_mul_abs_bound(a.z as int, b.z as int, 0x4000_0000, 0x4000_0000);
    }
    a.x * b.x + a.y * b.y + a.z * b.z
}

/// Cross product of two bounded vectors; exact.
pub fn cross(a: &Vec3, b: &Vec3) -> (r: Vec3)
    requires
        bounded(*a, 0x4000_0000),
        bounded(*b, 0x4000_0000),
    ensures
        r.x == cross_x(*a, *b),
        r.y == cross_y(*a, *b),
        r.z == cross_z(*a, *b),
        bounded(r, 0x2000_0000_0000_0000),
{
    proof {
        lemma_mul_abs_bound(a.y as int, b.z as int, 0x4000_0000, 0x4000_0000);
        lemma_mul_abs_bound(a.z as int, b.y as int, 0x4000_0000, 0x4000_0000);
        lemma_mul_abs_bound(a.z as int, b.x as int, 0x4000_0000, 0x4000_0000);
        lemma_mul_abs_bound(a.x as int, b.z as int, 0x4000_0000, 0x4000_0000);
        lemma_mul_abs_bound(a.x as int, b.y as int, 0x4000_0000, 0x4000_0000);
        lemma_mul_abs_bound(a.y as int, b.x as int, 0x4000_0000, 0x4000_0000);
    }
    Vec3 {
        x: a.y * b.z - a.z * b.y,
        y: a.z * b.x - a.x * b.z,
        z: a.x * b.y - a.y * b.x,
    }
}

/// Number of doublings that bring a magnitude `m >= 1` up to `LIFT_BOUND`.
pub open spec fn lift_measure(m: int) -> int {
    if m >= LIFT_BOUND {
        0
    } else {
        LIFT_BOUND - m
    }
}

pub open spec fn lift_exp(m: int) -> nat
    decreases lift_measure(m)
        when m >= 1
{
    if m >= LIFT_BOUND {
        0
    } else {
        lift_exp(2 * m) + 1
    }
}

/// The value `normalize` computes for a non-zero vector: scale the vector up
/// by the power of two that brings its largest coordinate to `LIFT_BOUND`,
/// then divide each coordinate, times `SCALE`, by the floor square root of
/// the squared length.
pub open spec fn normalized(v: Vec3) -> (int, int, int) {
    let f = pow2(lift_exp(max_abs3(v.x as int, v.y as int, v.z as int))) as int;
    let m = sqrt_floor(f * f * norm_sq(v));
    (tdiv(v.x * f * SCALE, m), tdiv(v.y * f * SCALE, m), tdiv(v.z * f * SCALE, m))
}

/// Core error bound of the normalization: dividing coordinates `c_i` (whose
/// squares sum to `s`, with `m = sqrt_floor(s)` large) by `m` yields a vector
/// whose squared length lies in `(SCALE^2 - UNIT_TOL, SCALE^2]`.
proof fn lemma_unit_norm(
    c1: int,
    c2: int,
    c3: int,
    m: int,
    s: int,
    q1: int,
    q2: int,
    q3: int,
)
    requires
        s == c1 * c1 + c2 * c2 + c3 * c3,
        m * m <= s,
        s < (m + 1) * (m + 1),
        m >= LIFT_BOUND,
        abs_i(c1) <= m,
        abs_i(c2) <= m,
        abs_i(c3) <= m,
        q1 == tdiv(c1 * SCALE, m),
        q2 == tdiv(c2 * SCALE, m),
        q3 == tdiv(c3 * SCALE, m),
    ensures
        SCALE * SCALE - UNIT_TOL <= q1 * q1 + q2 * q2 + q3 * q3,
        q1 * q1 + q2 * q2 + q3 * q3 <= SCALE * SCALE,
{
    let k = SCALE as int;
    let a1 = abs_i(c1);
    let a2 = abs_i(c2);
    let a3 = abs_i(c3);
    let p1 = (a1 * k) / m;
    let p2 = (a2 * k) / m;
    let p3 = (a3 * k) / m;

    // The quotients of the magnitudes square to the squares of the signed
    // quotients.
    assert(c1 * k >= 0 <==> c1 >= 0) by (nonlinear_arith)
        requires
            k > 0,
    ;
    assert(c2 * k >= 0 <==> c2 >= 0) by (nonlinear_arith)
        requires
            k > 0,
    ;
    assert(c3 * k >= 0 <==> c3 >= 0) by (nonlinear_arith)
        requires
            k > 0,
    ;
    assert((-c1) * k == -(c1 * k) && (-c2) * k == -(c2 * k) && (-c3) * k == -(c3 * k))
        by (nonlinear_arith);
    assert(a1 * k == abs_i(c1 * k) && a2 * k == abs_i(c2 * k) && a3 * k == abs_i(c3 * k));
    assert(q1 == p1 || q1 == -p1);
    assert(q2 == p2 || q2 == -p2);
    assert(q3 == p3 || q3 == -p3);
    assert(q1 * q1 == p1 * p1 && q2 * q2 == p2 * p2 && q3 * q3 == p3 * p3) by (nonlinear_arith)
        requires
            (q1 == p1 || q1 == -p1) && (q2 == p2 || q2 == -p2) && (q3 == p3 || q3 == -p3),
    ;

    // Division bounds: p_i * m <= a_i * k < (p_i + 1) * m.
    lemma_fundamental_div_mod(a1 * k, m);
    lemma_fundamental_div_mod(a2 * k, m);
    lemma_fundamental_div_mod(a3 * k, m);
    lemma_mod_division_less_than_divisor(a1 * k, m);
    lemma_mod_division_less_than_divisor(a2 * k, m);
    lemma_mod_division_less_than_divisor(a3 * k, m);
    assert(p1 * m <= a1 * k < (p1 + 1) * m) by (nonlinear_arith)
        requires
            a1 * k == m * p1 + (a1 * k) % m,
            0 <= (a1 * k) % m < m,
    ;
    assert(p2 * m <= a2 * k < (p2 + 1) * m) by (nonlinear_arith)
        requires
            a2 * k == m * p2 + (a2 * k) % m,
            0 <= (a2 * k) % m < m,
    ;
    assert(p3 * m <= a3 * k < (p3 + 1) * m) by (nonlinear_arith)
        requires
            a3 * k == m * p3 + (a3 * k) % m,
            0 <= (a3 * k) % m < m,
    ;

    // p_i within [0, k].
    assert(0 <= p1 <= k && 0 <= p2 <= k && 0 <= p3 <= k) by (nonlinear_arith)
        requires
            m > 0,
            k > 0,
            0 <= a1 <= m,
            0 <= a2 <= m,
            0 <= a3 <= m,
            p1 * m <= a1 * k < (p1 + 1) * m,
            p2 * m <= a2 * k < (p2 + 1) * m,
            p3 * m <= a3 * k < (p3 + 1) * m,
    ;

    let sum_p = p1 * p1 + p2 * p2 + p3 * p3;

    // Squares of the coordinates and of their magnitudes agree.
    assert((-c1) * (-c1) == c1 * c1 && (-c2) * (-c2) == c2 * c2 && (-c3) * (-c3) == c3 * c3)
        by (nonlinear_arith);
    assert(a1 * a1 == c1 * c1 && a2 * a2 == c2 * c2 && a3 * a3 == c3 * c3);

    // Upper bound: sum_p <= k * k.
    assert((p1 * p1) * (m * m) <= (a1 * a1) * (k * k)) by (nonlinear_arith)
        requires
            0 <= p1,
            0 <= m,
            p1 * m <= a1 * k,
    ;
    assert((p2 * p2) * (m * m) <= (a2 * a2) * (k * k)) by (nonlinear_arith)
        requires
            0 <= p2,
            0 <= m,
            p2 * m <= a2 * k,
    ;
    assert((p3 * p3) * (m * m) <= (a3 * a3) * (k * k)) by (nonlinear_arith)
        requires
            0 <= p3,
            0 <= m,
            p3 * m <= a3 * k,
    ;
    assert(sum_p * (m * m) <= s * (k * k)) by (nonlinear_arith)
        requires
            s == a1 * a1 + a2 * a2 + a3 * a3,
            sum_p == p1 * p1 + p2 * p2 + p3 * p3,
            (p1 * p1) * (m * m) <= (a1 * a1) * (k * k),
            (p2 * p2) * (m * m) <= (a2 * a2) * (k * k),
            (p3 * p3) * (m * m) <= (a3 * a3) * (k * k),
    ;
    assert(sum_p <= k * k) by (nonlinear_arith)
        requires
            sum_p * (m * m) <= s * (k * k),
            s < (m + 1) * (m + 1),
            m >= 1099511627776,
            k == 65536,
            sum_p >= 0,
    ;

    // Lower bound: sum_p > k * k - UNIT_TOL.
    let sum_q1 = (p1 + 1) * (p1 + 1) + (p2 + 1) * (p2 + 1) + (p3 + 1) * (p3 + 1);
    assert((a1 * a1) * (k * k) < ((p1 + 1) * (p1 + 1)) * (m * m)) by (nonlinear_arith)
        requires
            0 <= a1,
            0 <= k,
            a1 * k < (p1 + 1) * m,
    ;
    assert((a2 * a2) * (k * k) < ((p2 + 1) * (p2 + 1)) * (m * m)) by (nonlinear_arith)
        requires
            0 <= a2,
            0 <= k,
            a2 * k < (p2 + 1) * m,
    ;
    assert((a3 * a3) * (k * k) < ((p3 + 1) * (p3 + 1)) * (m * m)) by (nonlinear_arith)
        requires
            0 <= a3,
            0 <= k,
            a3 * k < (p3 + 1) * m,
    ;
    assert(s * (k * k) < sum_q1 * (m * m)) by (nonlinear_arith)
        requires
            s == a1 * a1 + a2 * a2 + a3 * a3,
            sum_q1 == (p1 + 1) * (p1 + 1) + (p2 + 1) * (p2 + 1) + (p3 + 1) * (p3 + 1),
            (a1 * a1) * (k * k) < ((p1 + 1) * (p1 + 1)) * (m * m),
            (a2 * a2) * (k * k) < ((p2 + 1) * (p2 + 1)) * (m * m),
            (a3 * a3) * (k * k) < ((p3 + 1) * (p3 + 1)) * (m * m),
    ;
    assert(k * k < sum_q1) by (nonlinear_arith)
        requires
            s * (k * k) < sum_q1 * (m * m),
            m * m <= s,
            m > 0,
            k > 0,
    ;
    assert(sum_q1 == sum_p + 2 * (p1 + p2 + p3) + 3) by (nonlinear_arith)
        requires
            sum_p == p1 * p1 + p2 * p2 + p3 * p3,
            sum_q1 == (p1 + 1) * (p1 + 1) + (p2 + 1) * (p2 + 1) + (p3 + 1) * (p3 + 1),
    ;
    assert(sum_p >= k * k - (6 * k + 2));
}

/// Normalize a vector to (approximate) unit length.
///
/// Returns `None` exactly on the zero vector, the one input that has no
/// direction; any other vector yields the value of [`normalized`], which is
/// unit length up to `UNIT_TOL`.
pub fn normalize(v: &Vec3) -> (r: Option<Vec3>)
    requires
        bounded(*v, MAX_COORD as int),
    ensures
        (r is None) <==> (v.x == 0 && v.y == 0 && v.z == 0),
        r matches Some(u) ==> u.x == normalized(*v).0 && u.y == normalized(*v).1 && u.z
            == normalized(*v).2,
        r matches Some(u) ==> is_unit(u),
{
    if v.x == 0 && v.y == 0 && v.z == 0 {
        return None;
    }
    let mut x: i64 = v.x;
    let mut y: i64 = v.y;
    let mut z: i64 = v.z;
    let mut mx: i64 = abs_i64(x);
    let ay: i64 = abs_i64(y);
    if ay > mx {
        mx = ay;
    }
    let az: i64 = abs_i64(z);
    if az > mx {
        mx = az;
    }
    let ghost mut e: nat = 0nat;
    proof {
        assert(pow2(0) == 1) by {
            vstd::arithmetic::power2::lemma2_to64();
        }
    }
    while mx < LIFT_BOUND
        invariant
            1 <= mx <= 0x4000_0000_0000_0000,
            mx == max_abs3(x as int, y as int, z as int),
            x == v.x * pow2(e),
            y == v.y * pow2(e),
            z == v.z * pow2(e),
            bounded(*v, MAX_COORD as int),
            !(v.x == 0 && v.y == 0 && v.z == 0),
            lift_exp(max_abs3(v.x as int, v.y as int, v.z as int)) == e + lift_exp(mx as int),
        decreases lift_measure(mx as int),
    {
        proof {
            lemma_pow2_unfold(e + 1);
            assert(lift_exp(mx as int) == lift_exp(2 * (mx as int)) + 1);
            assert(v.x * pow2(e + 1) == 2 * (v.x * pow2(e))) by (nonlinear_arith)
                requires
                    pow2(e + 1) == 2 * pow2(e),
            ;
            assert(v.y * pow2(e + 1) == 2 * (v.y * pow2(e))) by (nonlinear_arith)
                requires
                    pow2(e + 1) == 2 * pow2(e),
            ;
            assert(v.z * pow2(e + 1) == 2 * (v.z * pow2(e))) by (nonlinear_arith)
                requires
                    pow2(e + 1) == 2 * pow2(e),
            ;
        }
        x = x * 2;
        y = y * 2;
        z = z * 2;
        mx = mx * 2;
        proof {
            e = e + 1;
        }
    }
    proof {
        assert(lift_exp(mx as int) == 0);
        assert(e == lift_exp(max_abs3(v.x as int, v.y as int, v.z as int)));
    }
    let xi: i128 = x as i128;
    let yi: i128 = y as i128;
    let zi: i128 = z as i128;
    proof {
        lemma_mul_abs_bound(xi as int, xi as int, 0x4000_0000_0000_0000, 0x4000_0000_0000_0000);
        lemma_mul_abs_bound(yi as int, yi as int, 0x4000_0000_0000_0000, 0x4000_0000_0000_0000);
        lemma_mul_abs_bound(zi as int, zi as int, 0x4000_0000_0000_0000, 0x4000_0000_0000_0000);
        assert(xi * xi >= 0 && yi * yi >= 0 && zi * zi >= 0) by (nonlinear_arith);
    }
    let s128: i128 = xi * xi + yi * yi + zi * zi;
    let s: u128 = s128 as u128;
    proof {
        let f = pow2(e) as int;
        assert((v.x * f) * (v.x * f) + (v.y * f) * (v.y * f) + (v.z * f) * (v.z * f) == f * f * (
        v.x * v.x + v.y * v.y + v.z * v.z)) by (nonlinear_arith);
        assert(s == pow2(e) * pow2(e) * norm_sq(*v));
    }
    let m: u64 = isqrt_u128(s);
    proof {
        assert((mx as int) * (mx as int) <= s as int) by (nonlinear_arith)
            requires
                mx == max_abs3(x as int, y as int, z as int),
                s as int == (x as int) * (x as int) + (y as int) * (y as int) + (z as int) * (
                z as int),
        ;
        assert(m >= mx) by (nonlinear_arith)
            requires
                (m as int) * (m as int) <= s as int,
                (s as int) < (m as int + 1) * (m as int + 1),
                (mx as int) * (mx as int) <= s as int,
                m >= 0,
                mx >= 0,
        ;
    }
    let md: i128 = m as i128;
    proof {
        lemma_mul_abs_bound(xi as int, SCALE as int, 0x4000_0000_0000_0000, SCALE as int);
        lemma_mul_abs_bound(yi as int, SCALE as int, 0x4000_0000_0000_0000, SCALE as int);
        lemma_mul_abs_bound(zi as int, SCALE as int, 0x4000_0000_0000_0000, SCALE as int);
    }
    let nx128: i128 = tdiv_i128(xi * (SCALE as i128), md);
    let ny128: i128 = tdiv_i128(yi * (SCALE as i128), md);
    let nz128: i128 = tdiv_i128(zi * (SCALE as i128), md);
    proof {
        assert((xi as int) * (SCALE as int) <= (m as int) * (SCALE as int) && -((m as int) * (
        SCALE as int)) <= (xi as int) * (SCALE as int)) by (nonlinear_arith)
            requires
                -(m as int) <= xi as int <= m as int,
                SCALE > 0,
        ;
        assert((yi as int) * (SCALE as int) <= (m as int) * (SCALE as int) && -((m as int) * (
        SCALE as int)) <= (yi as int) * (SCALE as int)) by (nonlinear_arith)
            requires
                -(m as int) <= yi as int <= m as int,
                SCALE > 0,
        ;
        assert((zi as int) * (SCALE as int) <= (m as int) * (SCALE as int) && -((m as int) * (
        SCALE as int)) <= (zi as int) * (SCALE as int)) by (nonlinear_arith)
            requires
                -(m as int) <= zi as int <= m as int,
                SCALE > 0,
        ;
        lemma_tdiv_bound((xi as int) * (SCALE as int), m as int, SCALE as int);
        lemma_tdiv_bound((yi as int) * (SCALE as int), m as int, SCALE as int);
        lemma_tdiv_bound((zi as int) * (SCALE as int), m as int, SCALE as int);
    }
    let u = Vec3 { x: nx128 as i64, y: ny128 as i64, z: nz128 as i64 };
    proof {
        lemma_unit_norm(
            xi as int,
            yi as int,
            zi as int,
            m as int,
            s as int,
            u.x as int,
            u.y as int,
            u.z as int,
        );
        let f = pow2(e) as int;
        assert(v.x * f * SCALE == xi * SCALE && v.y * f * SCALE == yi * SCALE && v.z * f * SCALE
            == zi * SCALE) by (nonlinear_arith)
            requires
                xi == v.x * f,
                yi == v.y * f,
                zi == v.z * f,
        ;
        assert(m == sqrt_floor(f * f * norm_sq(*v)));
    }
    Some(u)
}

/// Absolute value of an `i64` that is not `i64::MIN`.
pub fn abs_i64(a: i64) -> (r: i64)
    requires
        a > i64::MIN,
    ensures
        r == abs_i(a as int),
{
    if a < 0 {
        -a
    } else {
        a
    }
}

} // verus!
