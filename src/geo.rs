//! Flat-earth tolerance test between two fixed-point coordinates.
//!
//! Coordinates are decimicro degrees (degrees scaled by 10^7). The cosine
//! of the first point's latitude, which corrects longitudes for the
//! narrowing of meridians, is supplied by the caller as an integer in
//! units of `1 / COS_SCALE`.
use vstd::prelude::*;

verus! {

/// Meters in one degree of latitude.
pub const METERS_PER_DEGREE: u64 = 111_111;

/// Decimicro degrees in one degree.
pub const DECIMICRO_PER_DEGREE: u64 = 10_000_000;

/// A longitude correction factor of 1 is this many units.
pub const COS_SCALE: u32 = 10_000;

/// Tolerances of at least this many meters accept every pair of
/// coordinates (no two points are that far apart in this model).
pub const TOLERANCE_CAP: u64 = 70_000_000;

/// Latitude difference, in meters scaled by `DECIMICRO_PER_DEGREE * COS_SCALE`.
pub open spec fn lat_offset(a: (i32, i32), b: (i32, i32)) -> int {
    (a.0 - b.0) * METERS_PER_DEGREE * COS_SCALE
}

/// Longitude difference, corrected by `lon_factor`, in the same unit.
pub open spec fn lon_offset(a: (i32, i32), b: (i32, i32), lon_factor: int) -> int {
    (a.1 - b.1) * METERS_PER_DEGREE * lon_factor
}

/// The tolerance in the same unit.
pub open spec fn tolerance_offset(tolerance_meters: i32) -> int {
    tolerance_meters * DECIMICRO_PER_DEGREE * COS_SCALE
}

/// Whether `b` lies strictly within `tolerance_meters` of `a` on the local
/// plane: `lat_m^2 + lon_m^2 < tolerance^2`, evaluated exactly in integers.
pub open spec fn within_tolerance(a: (i32, i32), b: (i32, i32), tolerance_meters: i32, lon_factor: int) -> bool {
    let x = lat_offset(a, b);
    let y = lon_offset(a, b, lon_factor);
    let t = tolerance_offset(tolerance_meters);
    x * x + y * y < t * t
}

fn abs_diff(x: i32, y: i32) -> (r: u128)
    ensures
        r == if x >= y { x - y } else { y - x },
        r < 0x1_0000_0000,
{
    if x >= y {
        (x as i64 - y as i64) as u128
    } else {
        (y as i64 - x as i64) as u128
    }
}

proof fn lemma_square_abs(v: int, k: int)
    requires
        k >= 0,
    ensures
        (v * k) * (v * k) == ((if v >= 0 { v } else { -v }) * k) * ((if v >= 0 { v } else { -v }) * k),
{
    if v < 0 {
        assert((v * k) * (v * k) == ((-v) * k) * ((-v) * k)) by (nonlinear_arith);
    }
}

proof fn lemma_mul_bound(a: int, b: int, am: int, bm: int)
    requires
        0 <= a <= am,
        0 <= b <= bm,
    ensures
        0 <= a * b <= am * bm,
{
    assert(0 <= a * b <= am * bm) by (nonlinear_arith)
        requires 0 <= a <= am, 0 <= b <= bm;
}

/// Whether `latlon_b` is strictly within `tolerance_meters` of `latlon_a`,
/// with longitudes corrected by `lon_factor_a`, the cosine of `latlon_a`'s
/// latitude in units of `1 / COS_SCALE`.
pub fn almost_same_position(
    latlon_a: (i32, i32),
    latlon_b: (i32, i32),
    tolerance_meters: i32,
    lon_factor_a: u32,
) -> (r: bool)
    requires
        lon_factor_a <= COS_SCALE,
    ensures
        r == within_tolerance(latlon_a, latlon_b, tolerance_meters, lon_factor_a as int),
{
    let lat_diff = abs_diff(latlon_a.0, latlon_b.0);
    let lon_diff = abs_diff(latlon_a.1, latlon_b.1);
    let tol: u128 = if tolerance_meters >= 0 {
        tolerance_meters as u128
    } else {
        (-(tolerance_meters as i64)) as u128
    };
    let ghost bound: int = 0xFFFF_FFFF * (METERS_PER_DEGREE * COS_SCALE);
    proof {
        lemma_mul_bound(lat_diff as int, METERS_PER_DEGREE * COS_SCALE, 0xFFFF_FFFF, METERS_PER_DEGREE * COS_SCALE);
        lemma_mul_bound(lon_diff as int, METERS_PER_DEGREE * lon_factor_a, 0xFFFF_FFFF, METERS_PER_DEGREE * COS_SCALE);
        lemma_square_abs(latlon_a.0 - latlon_b.0, METERS_PER_DEGREE * COS_SCALE);
        lemma_square_abs(latlon_a.1 - latlon_b.1, METERS_PER_DEGREE * lon_factor_a);
        lemma_square_abs(tolerance_meters as int, DECIMICRO_PER_DEGREE * COS_SCALE);
        assert((latlon_a.0 - latlon_b.0) * METERS_PER_DEGREE * COS_SCALE
            == (latlon_a.0 - latlon_b.0) * (METERS_PER_DEGREE * COS_SCALE)) by (nonlinear_arith);
        assert((latlon_a.1 - latlon_b.1) * METERS_PER_DEGREE * lon_factor_a
            == (latlon_a.1 - latlon_b.1) * (METERS_PER_DEGREE * lon_factor_a)) by (nonlinear_arith);
        assert(tolerance_meters * DECIMICRO_PER_DEGREE * COS_SCALE
            == tolerance_meters * (DECIMICRO_PER_DEGREE * COS_SCALE)) by (nonlinear_arith);
    }
    let x: u128 = lat_diff * (METERS_PER_DEGREE as u128 * COS_SCALE as u128);
    let y: u128 = lon_diff * (METERS_PER_DEGREE as u128 * lon_factor_a as u128);
    proof {
        lemma_mul_bound(x as int, x as int, bound, bound);
        lemma_mul_bound(y as int, y as int, bound, bound);
    }
    if tol >= TOLERANCE_CAP as u128 {
        proof {
            let t = tol * (DECIMICRO_PER_DEGREE * COS_SCALE);
            lemma_mul_bound(TOLERANCE_CAP as int, DECIMICRO_PER_DEGREE * COS_SCALE, tol as int, DECIMICRO_PER_DEGREE * COS_SCALE);
            lemma_mul_bound(TOLERANCE_CAP * (DECIMICRO_PER_DEGREE * COS_SCALE), TOLERANCE_CAP * (DECIMICRO_PER_DEGREE * COS_SCALE), t, t);
        }
        return true;
    }
    let t: u128 = tol * (DECIMICRO_PER_DEGREE as u128 * COS_SCALE as u128);
    proof {
        lemma_mul_bound(t as int, t as int, TOLERANCE_CAP * (DECIMICRO_PER_DEGREE * COS_SCALE), TOLERANCE_CAP * (DECIMICRO_PER_DEGREE * COS_SCALE));
    }
    x * x + y * y < t * t
}

/// With both points on one latitude, the test does not depend on which
/// point comes first.
pub proof fn lemma_within_tolerance_same_latitude(
    a: (i32, i32),
    b: (i32, i32),
    tolerance_meters: i32,
    lon_factor: int,
)
    requires
        a.0 == b.0,
    ensures
        within_tolerance(a, b, tolerance_meters, lon_factor) == within_tolerance(
            b,
            a,
            tolerance_meters,
            lon_factor,
        ),
{
    let y1 = lon_offset(a, b, lon_factor);
    let y2 = lon_offset(b, a, lon_factor);
    assert(y2 == -y1) by (nonlinear_arith)
        requires
            y1 == (a.1 - b.1) * METERS_PER_DEGREE * lon_factor,
            y2 == (b.1 - a.1) * METERS_PER_DEGREE * lon_factor,
    ;
    assert(y1 * y1 == y2 * y2) by (nonlinear_arith)
        requires y2 == -y1;
}

/// A point is within any non-zero tolerance of itself.
pub proof fn lemma_within_tolerance_same_point(a: (i32, i32), tolerance_meters: i32, lon_factor: int)
    requires
        tolerance_meters != 0,
    ensures
        within_tolerance(a, a, tolerance_meters, lon_factor),
{
    let t = tolerance_offset(tolerance_meters);
    assert(t != 0) by (nonlinear_arith)
        requires
            t == tolerance_meters * DECIMICRO_PER_DEGREE * COS_SCALE,
            tolerance_meters != 0,
    ;
    assert(t * t > 0) by (nonlinear_arith)
        requires t != 0;
    assert(lat_offset(a, a) == 0);
    assert((a.1 - a.1) * METERS_PER_DEGREE * lon_factor == 0) by (nonlinear_arith);
}

/// Raising a non-negative tolerance keeps every accepted pair accepted.
pub proof fn lemma_within_tolerance_monotone(
    a: (i32, i32),
    b: (i32, i32),
    t1: i32,
    t2: i32,
    lon_factor: int,
)
    requires
        0 <= t1 < t2,
        within_tolerance(a, b, t1, lon_factor),
    ensures
        within_tolerance(a, b, t2, lon_factor),
{
    let u1 = tolerance_offset(t1);
    let u2 = tolerance_offset(t2);
    assert(0 <= u1 <= u2) by (nonlinear_arith)
        requires
            u1 == t1 * DECIMICRO_PER_DEGREE * COS_SCALE,
            u2 == t2 * DECIMICRO_PER_DEGREE * COS_SCALE,
            0 <= t1 < t2,
    ;
    assert(u1 * u1 <= u2 * u2) by (nonlinear_arith)
        requires 0 <= u1 <= u2;
}

} // verus!
