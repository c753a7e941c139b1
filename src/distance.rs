//! Great-circle (haversine) distance between coordinates in micro-degrees.
use vstd::prelude::*;
use vstd::arithmetic::div_mod::{lemma_div_by_multiple, lemma_div_is_ordered, lemma_div_pos_is_pos};
use vstd::arithmetic::mul::{lemma_mul_inequality, lemma_mul_upper_bound};
use crate::location::{valid_coord, MAX_LAT, MAX_LNG};
use crate::trig::{
    arc_exec,
    arc_fx,
    lemma_arc_of_zero,
    lemma_arc_search_range,
    lemma_sin_bounds,
    sin_exec,
    sin_fx,
    sin_sq_exec,
    sin_sq_fx,
    HALF_PI,
    ONE,
    PI,
};

verus! {

/// Distances are reported in thousandths of the chosen unit
/// (metres for kilometres, thousandths of a mile for miles).
pub const DISTANCE_SCALE: u128 = 1000;

/// The unit of a distance, fixed per call of the distance function.
#[derive(Clone, Copy, Debug, PartialEq, Eq, Structural)]
pub enum Units {
    Miles,
    Kilometers,
}

/// The radius of the sphere in the given unit.
pub open spec fn radius(units: Units) -> int {
    match units {
        Units::Miles => 3960,
        Units::Kilometers => 6371,
    }
}

pub open spec fn abs_int(a: int) -> int {
    if a >= 0 {
        a
    } else {
        -a
    }
}

pub open spec fn abs_diff(a: int, b: int) -> int {
    abs_int(a - b)
}

/// Half of an angle of `delta` micro-degrees, in radians at scale `ONE`,
/// folded into `[0, pi/2]` by `h -> pi - h`, which keeps its squared sine.
pub open spec fn half_angle(delta: int) -> int {
    let h = delta * PI / 360_000_000;
    if h > HALF_PI {
        PI - h
    } else {
        h
    }
}

/// The cosine of a latitude of `lat` micro-degrees, taken as the sine of its
/// complement.
pub open spec fn cos_lat(lat: int) -> int {
    sin_fx(HALF_PI - abs_int(lat) * PI / 180_000_000)
}

/// The haversine term `a = sin²(Δlat/2) + cos(lat1) cos(lat2) sin²(Δlng/2)`
/// at scale `ONE`, clamped to at most `1`.
pub open spec fn hav(p: (i64, i64), q: (i64, i64)) -> int {
    let s_lat = sin_sq_fx(half_angle(abs_diff(p.0 as int, q.0 as int)));
    let s_lng = sin_sq_fx(half_angle(abs_diff(p.1 as int, q.1 as int)));
    let cc = cos_lat(p.0 as int) * cos_lat(q.0 as int) / (ONE as int);
    let a = s_lat + cc * s_lng / (ONE as int);
    if a > ONE {
        ONE as int
    } else {
        a
    }
}

/// The haversine distance `2 asin(sqrt(a)) R` between `p` and `q`, in
/// thousandths of `units`.
pub open spec fn haversine_spec(p: (i64, i64), q: (i64, i64), units: Units) -> int {
    2 * arc_fx(hav(p, q)) * radius(units) * DISTANCE_SCALE / (ONE as int)
}

/// An upper bound of every distance: half the circumference of the larger
/// sphere, in thousandths of a kilometre, rounded up.
pub const MAX_DISTANCE: u64 = 20_015_087;

proof fn lemma_half_angle_bound(delta: int)
    requires
        0 <= delta <= 2 * MAX_LNG,
    ensures
        0 <= delta * PI <= 2 * MAX_LNG * PI,
        0 <= half_angle(delta) <= HALF_PI,
{
    lemma_mul_inequality(delta, 2 * MAX_LNG, PI as int);
    lemma_mul_inequality(0, delta, PI as int);
    lemma_div_pos_is_pos(delta * PI, 360_000_000);
    lemma_div_is_ordered(delta * PI, PI * 360_000_000, 360_000_000);
    lemma_div_by_multiple(PI as int, 360_000_000);
}

fn half_angle_exec(delta: u128) -> (r: u128)
    requires
        delta <= 2 * MAX_LNG,
    ensures
        r == half_angle(delta as int),
        r <= HALF_PI,
{
    proof {
        lemma_half_angle_bound(delta as int);
    }
    let h = delta * PI / 360_000_000;
    if h > HALF_PI {
        PI - h
    } else {
        h
    }
}

proof fn lemma_cos_lat_bound(lat: int)
    requires
        -MAX_LAT <= lat <= MAX_LAT,
    ensures
        0 <= abs_int(lat) * PI <= MAX_LAT * PI,
        0 <= abs_int(lat) * PI / 180_000_000 <= HALF_PI,
        0 <= cos_lat(lat) <= HALF_PI,
{
    let l = abs_int(lat);
    lemma_mul_inequality(l, MAX_LAT as int, PI as int);
    lemma_mul_inequality(0, l, PI as int);
    lemma_div_pos_is_pos(l * PI, 180_000_000);
    assert(MAX_LAT * PI == HALF_PI * 180_000_000) by (nonlinear_arith)
        requires
            MAX_LAT == 90_000_000,
            PI == 3_141_592_653_589_793_238u128,
            HALF_PI == 1_570_796_326_794_896_619u128,
    ;
    lemma_div_is_ordered(l * PI, HALF_PI * 180_000_000, 180_000_000);
    lemma_div_by_multiple(HALF_PI as int, 180_000_000);
    lemma_sin_bounds(HALF_PI - l * PI / 180_000_000);
}

fn abs_exec(a: i64) -> (r: u128)
    requires
        a > i64::MIN,
    ensures
        r == abs_int(a as int),
{
    if a >= 0 {
        a as u128
    } else {
        (-a) as u128
    }
}

fn abs_diff_exec(a: i64, b: i64) -> (r: u128)
    requires
        -MAX_LNG <= a <= MAX_LNG,
        -MAX_LNG <= b <= MAX_LNG,
    ensures
        r == abs_diff(a as int, b as int),
        r <= 2 * MAX_LNG,
{
    if a >= b {
        (a - b) as u128
    } else {
        (b - a) as u128
    }
}

fn cos_lat_exec(lat: i64) -> (r: u128)
    requires
        -MAX_LAT <= lat <= MAX_LAT,
    ensures
        r == cos_lat(lat as int),
        r <= HALF_PI,
{
    proof {
        lemma_cos_lat_bound(lat as int);
    }
    let l = abs_exec(lat);
    sin_exec(HALF_PI - l * PI / 180_000_000)
}

/// The clamped haversine term of two valid coordinates.
fn hav_exec(p: &(i64, i64), q: &(i64, i64)) -> (r: u128)
    requires
        valid_coord(*p),
        valid_coord(*q),
    ensures
        r == hav(*p, *q),
        r <= ONE,
{
    let d_lat = abs_diff_exec(p.0, q.0);
    let d_lng = abs_diff_exec(p.1, q.1);
    let h_lat = half_angle_exec(d_lat);
    let h_lng = half_angle_exec(d_lng);
    let s_lat = sin_sq_exec(h_lat);
    let s_lng = sin_sq_exec(h_lng);
    let c1 = cos_lat_exec(p.0);
    let c2 = cos_lat_exec(q.0);
    proof {
        lemma_mul_upper_bound(c1 as int, HALF_PI as int, c2 as int, HALF_PI as int);
        assert(HALF_PI * HALF_PI / (ONE as int) <= 3 * ONE);
        lemma_div_is_ordered((c1 * c2) as int, HALF_PI * HALF_PI, ONE as int);
    }
    let cc = c1 * c2 / ONE;
    proof {
        lemma_mul_upper_bound(cc as int, 3 * ONE, s_lng as int, 3 * ONE);
        assert((3 * ONE) * (3 * ONE) <= 9 * ONE * ONE) by (nonlinear_arith);
        lemma_div_is_ordered((cc * s_lng) as int, 9 * ONE * ONE, ONE as int);
        lemma_div_by_multiple(9 * ONE, ONE as int);
        assert((9 * ONE) * ONE == 9 * ONE * ONE) by (nonlinear_arith);
    }
    let a = s_lat + cc * s_lng / ONE;
    if a > ONE {
        ONE
    } else {
        a
    }
}

/// The haversine distance from `start` to `end`, in thousandths of `units`.
pub fn haversine(start: &(i64, i64), end: &(i64, i64), units: Units) -> (r: u64)
    requires
        valid_coord(*start),
        valid_coord(*end),
    ensures
        r == haversine_spec(*start, *end, units),
        r <= MAX_DISTANCE,
{
    let a = hav_exec(start, end);
    let c = arc_exec(a);
    let radius: u128 = match units {
        Units::Miles => 3960,
        Units::Kilometers => 6371,
    };
    proof {
        lemma_haversine_bound(*start, *end, units);
        lemma_mul_upper_bound(2 * c, 2 * HALF_PI, radius as int, 6371);
        lemma_mul_upper_bound(2 * c * radius, 2 * HALF_PI * 6371, DISTANCE_SCALE as int, DISTANCE_SCALE as int);
    }
    (2 * c * radius * DISTANCE_SCALE / ONE) as u64
}

/// Every distance is between zero and `MAX_DISTANCE`.
pub proof fn lemma_haversine_bound(p: (i64, i64), q: (i64, i64), units: Units)
    ensures
        0 <= haversine_spec(p, q, units) <= MAX_DISTANCE,
{
    let c = arc_fx(hav(p, q));
    lemma_arc_search_range(hav(p, q), 0, HALF_PI as int);
    let radius = radius(units);
    lemma_mul_upper_bound(2 * c, 2 * HALF_PI, radius, 6371);
    lemma_mul_upper_bound(2 * c * radius, 2 * HALF_PI * 6371, DISTANCE_SCALE as int, DISTANCE_SCALE as int);
    assert(0 <= 2 * c * radius * DISTANCE_SCALE) by (nonlinear_arith)
        requires
            0 <= c,
            0 <= radius,
    ;
    lemma_div_pos_is_pos(2 * c * radius * DISTANCE_SCALE, ONE as int);
    lemma_div_is_ordered(
        2 * c * radius * DISTANCE_SCALE,
        2 * HALF_PI * 6371 * DISTANCE_SCALE,
        ONE as int,
    );
    assert(2 * HALF_PI * 6371 * DISTANCE_SCALE / (ONE as int) <= MAX_DISTANCE);
}

/// The haversine distance in thousandths of a mile.
pub fn haversine_miles(start: &(i64, i64), end: &(i64, i64)) -> (r: u64)
    requires
        valid_coord(*start),
        valid_coord(*end),
    ensures
        r == haversine_spec(*start, *end, Units::Miles),
{
    haversine(start, end, Units::Miles)
}

/// The haversine distance in metres.
pub fn haversine_km(start: &(i64, i64), end: &(i64, i64)) -> (r: u64)
    requires
        valid_coord(*start),
        valid_coord(*end),
    ensures
        r == haversine_spec(*start, *end, Units::Kilometers),
{
    haversine(start, end, Units::Kilometers)
}

/// The distance is symmetric, and zero from a point to itself.
pub proof fn lemma_haversine_symmetric(p: (i64, i64), q: (i64, i64), units: Units)
    ensures
        haversine_spec(p, q, units) == haversine_spec(q, p, units),
        haversine_spec(p, p, units) == 0,
{
    assert(cos_lat(p.0 as int) * cos_lat(q.0 as int) == cos_lat(q.0 as int) * cos_lat(p.0 as int))
        by (nonlinear_arith);
    assert(hav(p, q) == hav(q, p));
    assert(sin_fx(0) == 0);
    assert(sin_sq_fx(0) == 0);
    let cc = cos_lat(p.0 as int) * cos_lat(p.0 as int) / (ONE as int);
    assert(cc * 0 == 0) by (nonlinear_arith);
    assert(hav(p, p) == 0);
    lemma_arc_of_zero(0, HALF_PI as int);
}

} // verus!
