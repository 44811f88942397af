//! Fixed-point scalar arithmetic: the global scale, truncated division and
//! an integer square root, with the facts about them that the geometry needs.

use vstd::prelude::*;

verus! {

/// Fixed-point scale: the real value `r` is stored as the integer `r * SCALE`.
pub const SCALE: i64 = 65536;

/// Truncated (round-toward-zero) division, the semantics of every division
/// performed by this crate. For a non-negative dividend it agrees with the
/// Euclidean `/` of specifications.
pub open spec fn tdiv(a: int, d: int) -> int {
    if a >= 0 {
        a / d
    } else {
        -((-a) / d)
    }
}

/// Truncated division of an `i128` by a positive divisor.
pub fn tdiv_i128(a: i128, d: i128) -> (r: i128)
    requires
        d > 0,
        a > i128::MIN,
    ensures
        r == tdiv(a as int, d as int),
{
    if a >= 0 {
        let q: u128 = (a as u128) / (d as u128);
        q as i128
    } else {
        let q: u128 = ((-a) as u128) / (d as u128);
        -(q as i128)
    }
}

/// The magnitude of a truncated quotient never exceeds the magnitude of the
/// corresponding real quotient: `|a| <= b * d` gives `|tdiv(a, d)| <= b`.
pub proof fn lemma_tdiv_bound(a: int, d: int, b: int)
    requires
        d > 0,
        b >= 0,
        -(b * d) <= a <= b * d,
    ensures
        -b <= tdiv(a, d) <= b,
{
    if a >= 0 {
        assert(a / d <= b) by (nonlinear_arith)
            requires
                d > 0,
                b >= 0,
                0 <= a <= b * d,
        ;
        assert(a / d >= 0) by (nonlinear_arith)
            requires
                d > 0,
                a >= 0,
        ;
    } else {
        assert((-a) / d <= b) by (nonlinear_arith)
            requires
                d > 0,
                b >= 0,
                0 <= -a <= b * d,
        ;
        assert((-a) / d >= 0) by (nonlinear_arith)
            requires
                d > 0,
                -a >= 0,
        ;
    }
}

/// Dividing by one changes nothing.
pub proof fn lemma_tdiv_one(a: int)
    ensures
        tdiv(a, 1) == a,
{
}

/// A truncated quotient never exceeds the dividend in magnitude.
pub proof fn lemma_tdiv_shrinks(a: int, d: int)
    requires
        d >= 1,
    ensures
        a >= 0 ==> 0 <= tdiv(a, d) <= a,
        a < 0 ==> a <= tdiv(a, d) <= 0,
{
    if a >= 0 {
        assert(0 <= a / d <= a) by (nonlinear_arith)
            requires
                a >= 0,
                d >= 1,
        ;
    } else {
        assert(0 <= (-a) / d <= -a) by (nonlinear_arith)
            requires
                -a >= 0,
                d >= 1,
        ;
    }
}

/// Truncation changes nothing about the sign: the quotient has the sign of
/// the dividend (or is zero).
pub proof fn lemma_tdiv_sign(a: int, d: int)
    requires
        d > 0,
    ensures
        a >= 0 ==> tdiv(a, d) >= 0,
        a <= 0 ==> tdiv(a, d) <= 0,
        tdiv(-a, d) == -tdiv(a, d),
{
    assert(forall|x: int| x >= 0 && d > 0 ==> #[trigger] (x / d) >= 0) by (nonlinear_arith);
}

/// The floor square root: the unique `r >= 0` with `r * r <= n < (r+1) * (r+1)`.
pub open spec fn sqrt_floor(n: int) -> int {
    choose|r: int| 0 <= r && #[trigger] (r * r) <= n && n < (r + 1) * (r + 1)
}

/// Any two floor square roots of the same number coincide, so `sqrt_floor`
/// denotes the witness computed by `isqrt_u128`.
pub proof fn lemma_sqrt_floor_unique(n: int, r1: int, r2: int)
    requires
        0 <= r1,
        r1 * r1 <= n && n < (r1 + 1) * (r1 + 1),
        0 <= r2,
        r2 * r2 <= n && n < (r2 + 1) * (r2 + 1),
    ensures
        r1 == r2,
{
    if r1 < r2 {
        assert(r2 * r2 <= n && n < (r1 + 1) * (r1 + 1) && r1 + 1 <= r2 ==> false) by (nonlinear_arith)
            requires
                0 <= r1,
                0 <= r2,
        ;
    }
    if r2 < r1 {
        assert(r1 * r1 <= n && n < (r2 + 1) * (r2 + 1) && r2 + 1 <= r1 ==> false) by (nonlinear_arith)
            requires
                0 <= r1,
                0 <= r2,
        ;
    }
}

/// Integer square root by bisection.
pub fn isqrt_u128(n: u128) -> (r: u64)
    ensures
        r * r <= n && n < (r + 1) * (r + 1),
        r == sqrt_floor(n as int),
{
    let mut lo: u128 = 0;
    let mut hi: u128 = 0x1_0000_0000_0000_0000;
    proof {
        assert((0x1_0000_0000_0000_0000 as int) * (0x1_0000_0000_0000_0000 as int)
            == 0x1_0000_0000_0000_0000_0000_0000_0000_0000 as int) by (nonlinear_arith);
    }
    while hi - lo > 1
        invariant
            lo < hi <= 0x1_0000_0000_0000_0000,
            lo * lo <= n,
            n < hi * hi,
        decreases hi - lo,
    {
        let mid: u128 = lo + (hi - lo) / 2;
        proof {
            assert(mid * mid <= u128::MAX) by (nonlinear_arith)
                requires
                    mid <= 0xffff_ffff_ffff_ffff,
            ;
        }
        if mid * mid <= n {
            lo = mid;
        } else {
            hi = mid;
        }
    }
    let r: u64 = lo as u64;
    proof {
        let ri = r as int;
        assert(ri * ri <= n as int && (n as int) < (ri + 1) * (ri + 1));
        assert(exists|x: int| 0 <= x && #[trigger] (x * x) <= n as int && (n as int) < (x + 1) * (x + 1)) by {
            assert(0 <= ri && ri * ri <= n as int && (n as int) < (ri + 1) * (ri + 1));
        }
        let w = sqrt_floor(n as int);
        lemma_sqrt_floor_unique(n as int, ri, w);
    }
    r
}

} // verus!
