use std::collections::BTreeMap;
use subway_dedup::geo::{almost_same_position, COS_SCALE};
use subway_dedup::route::{same_route, Stop};

const TOKYO_LAT: i32 = 356_000_000;
const TOKYO_LON: i32 = 1_397_000_000;
const TOKYO_FACTOR: u32 = 8_131;

fn stop(id: i64, lat: i32, lon: i32) -> Stop {
    Stop { id, name: format!("Stop {}", id), lat, lon, lon_factor: TOKYO_FACTOR }
}

fn stops_along(first_id: i64, count: i64) -> BTreeMap<i64, Stop> {
    let mut m = BTreeMap::new();
    for k in 0..count {
        let id = first_id + k;
        m.insert(id, stop(id, TOKYO_LAT + (k as i32) * 100_000, TOKYO_LON));
    }
    m
}

#[test]
fn same_point_is_within_positive_tolerance() {
    let p = (TOKYO_LAT, TOKYO_LON);
    assert!(almost_same_position(p, p, 100, TOKYO_FACTOR));
    assert!(almost_same_position(p, p, 1, TOKYO_FACTOR));
}

#[test]
fn same_point_is_not_within_zero_tolerance() {
    let p = (TOKYO_LAT, TOKYO_LON);
    assert!(!almost_same_position(p, p, 0, TOKYO_FACTOR));
}

#[test]
fn latitude_offsets_against_tolerance() {
    let a = (TOKYO_LAT, TOKYO_LON);
    // 4_500 decimicro degrees of latitude are 50 m, 45_000 are 500 m.
    assert!(almost_same_position(a, (TOKYO_LAT + 4_500, TOKYO_LON), 100, TOKYO_FACTOR));
    assert!(!almost_same_position(a, (TOKYO_LAT + 45_000, TOKYO_LON), 100, TOKYO_FACTOR));
    assert!(almost_same_position(a, (TOKYO_LAT + 45_000, TOKYO_LON), 501, TOKYO_FACTOR));
}

#[test]
fn exact_boundary_is_excluded() {
    // 9_000 decimicro degrees are 99.9999 m; 100 m would need 9_000.009.
    let a = (0, 0);
    assert!(almost_same_position(a, (9_000, 0), 100, COS_SCALE));
    assert!(!almost_same_position(a, (9_001, 0), 100, COS_SCALE));
}

#[test]
fn longitude_is_corrected_by_factor() {
    let a = (TOKYO_LAT, TOKYO_LON);
    // 11_000 decimicro degrees of longitude are 122.2 m at the equator and
    // 99.4 m at a factor of 0.8131.
    let b = (TOKYO_LAT, TOKYO_LON + 11_000);
    assert!(almost_same_position(a, b, 100, TOKYO_FACTOR));
    assert!(!almost_same_position(a, b, 100, COS_SCALE));
}

#[test]
fn negative_tolerance_acts_as_its_magnitude() {
    let a = (TOKYO_LAT, TOKYO_LON);
    let b = (TOKYO_LAT + 4_500, TOKYO_LON);
    assert_eq!(almost_same_position(a, b, -100, TOKYO_FACTOR), almost_same_position(a, b, 100, TOKYO_FACTOR));
}

#[test]
fn huge_tolerance_accepts_far_points() {
    let a = (-900_000_000, -1_800_000_000);
    let b = (900_000_000, 1_800_000_000);
    assert!(almost_same_position(a, b, i32::MAX, COS_SCALE));
    assert!(almost_same_position(a, b, i32::MIN, COS_SCALE));
    assert!(!almost_same_position(a, b, 1_000_000, COS_SCALE));
}

#[test]
fn symmetric_on_one_latitude() {
    let a = (TOKYO_LAT, TOKYO_LON);
    let b = (TOKYO_LAT, TOKYO_LON + 10_000);
    for t in [50, 90, 91, 100, 200] {
        assert_eq!(
            almost_same_position(a, b, t, TOKYO_FACTOR),
            almost_same_position(b, a, t, TOKYO_FACTOR)
        );
    }
}

#[test]
fn different_lengths_are_not_the_same_route() {
    let stops = stops_along(1, 6);
    assert!(!same_route(&[1, 2, 3], &[1, 2], 100, &stops));
    // Unresolved identifiers are never looked up when the lengths differ.
    assert!(!same_route(&[1, 2, 3], &[99, 98], 100, &stops));
}

#[test]
fn forward_and_reverse_routes_match() {
    let stops = stops_along(1, 6);
    let fwd = [1, 2, 3, 4, 5, 6];
    let rev = [6, 5, 4, 3, 2, 1];
    assert!(same_route(&fwd, &fwd, 100, &stops));
    assert!(same_route(&fwd, &rev, 100, &stops));
    assert!(same_route(&rev, &fwd, 1, &stops));
}

#[test]
fn shuffled_route_does_not_match() {
    let stops = stops_along(1, 6);
    assert!(!same_route(&[1, 2, 3, 4, 5, 6], &[2, 1, 3, 4, 5, 6], 100, &stops));
}

#[test]
fn one_far_stop_breaks_the_match() {
    let mut stops = stops_along(1, 6);
    for k in 0..6i64 {
        let id = 11 + k;
        let extra = if k == 3 { 45_000 } else { 0 };
        stops.insert(id, stop(id, TOKYO_LAT + (k as i32) * 100_000 + extra, TOKYO_LON));
    }
    let a = [1, 2, 3, 4, 5, 6];
    let b = [11, 12, 13, 14, 15, 16];
    assert!(!same_route(&a, &b, 100, &stops));
    // A larger tolerance keeps every match and may add some.
    assert!(same_route(&a, &b, 600, &stops));
    assert!(same_route(&a, &b, 1_000, &stops));
}
