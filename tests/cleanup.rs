use std::collections::BTreeMap;
use subway_dedup::cleanup::{
    all_lines_resolved, clean, drop_unresolved_stops, exclude_lines, is_excluded, retain_qualifying,
    CleanupConfig, Dataset,
};
use subway_dedup::duplicates::{bucket_by_count, find_duplicate_pairs, remove_duplicates, resolve};
use subway_dedup::filter::distinct_ids;
use subway_dedup::line::{fallback_name, matches_keyword, Line, Member};
use subway_dedup::projection::{find_line, line_stop_entries, list_lines, summarize};
use subway_dedup::route::Stop;

const BASE_LAT: i32 = 356_000_000;
const BASE_LON: i32 = 1_397_000_000;
const FACTOR: u32 = 8_131;

fn add_stops(stops: &mut BTreeMap<i64, Stop>, first_id: i64, count: i64, shift_at: Option<i64>, shift: i32) {
    for k in 0..count {
        let id = first_id + k;
        let extra = if shift_at == Some(k) { shift } else { 0 };
        stops.insert(
            id,
            Stop {
                id,
                name: format!("Stop {}", id),
                lat: BASE_LAT + (k as i32) * 100_000 + extra,
                lon: BASE_LON,
                lon_factor: FACTOR,
            },
        );
    }
}

fn line(id: i64, name_en: &str, stop_ids: &[i64]) -> Line {
    Line {
        id,
        name_en: Some(name_en.to_string()),
        name: None,
        colour: None,
        color: None,
        members: stop_ids.iter().map(|&s| Member::Stop(s)).collect(),
    }
}

fn ids(lines: &[Line]) -> Vec<i64> {
    lines.iter().map(|l| l.id).collect()
}

fn keywords() -> Vec<String> {
    vec!["bypass".to_string()]
}

fn scenario_a() -> Dataset {
    let mut stops = BTreeMap::new();
    add_stops(&mut stops, 1, 6, None, 0);
    let lines = vec![
        line(10, "Yamanote Line", &[1, 2, 3, 4, 5, 6]),
        line(20, "Yamanote Line (bypass)", &[6, 5, 4, 3, 2, 1]),
    ];
    Dataset { stops, lines }
}

fn scenario_b() -> Dataset {
    let mut stops = BTreeMap::new();
    add_stops(&mut stops, 1, 6, None, 0);
    add_stops(&mut stops, 11, 6, Some(2), 45_000);
    let lines = vec![
        line(10, "Ginza Line", &[1, 2, 3, 4, 5, 6]),
        line(20, "Ginza Line Branch", &[11, 12, 13, 14, 15, 16]),
    ];
    Dataset { stops, lines }
}

#[test]
fn standard_config_values() {
    let c = CleanupConfig::standard();
    assert_eq!(c.min_stop_count, 5);
    assert_eq!(c.tolerance_meters, 100);
    assert_eq!(c.demote_keywords, keywords());
    assert_eq!(c.exclude_keywords, keywords());
}

#[test]
fn reversed_duplicate_detected_and_bypass_removed() {
    let mut data = scenario_a();
    let pairs = find_duplicate_pairs(&data.lines, &data.stops, 100);
    assert_eq!(pairs, vec![(0, 1)]);
    assert_eq!(resolve(&data.lines[0], &data.lines[1], &keywords()), (10, 20));
    remove_duplicates(&mut data.lines, &data.stops, 100, &keywords());
    assert_eq!(ids(&data.lines), vec![10]);
}

#[test]
fn end_to_end_reversed_duplicate() {
    let mut data = scenario_a();
    clean(&mut data, &CleanupConfig::standard());
    assert_eq!(ids(&data.lines), vec![10]);
    assert_eq!(data.stops.len(), 6);
}

#[test]
fn end_to_end_far_stop_keeps_both() {
    let mut data = scenario_b();
    assert!(find_duplicate_pairs(&data.lines, &data.stops, 100).is_empty());
    clean(&mut data, &CleanupConfig::standard());
    assert_eq!(ids(&data.lines), vec![10, 20]);
}

#[test]
fn end_to_end_five_stops_do_not_qualify() {
    let mut stops = BTreeMap::new();
    add_stops(&mut stops, 1, 6, None, 0);
    let mut lines = vec![
        line(10, "Short Line", &[1, 2, 3, 4, 5]),
        line(20, "Long Line", &[1, 2, 3, 4, 5, 6]),
    ];
    retain_qualifying(&mut lines, 5);
    assert_eq!(ids(&lines), vec![20]);

    let mut data = Dataset {
        stops,
        lines: vec![line(10, "Short Line", &[1, 2, 3, 4, 5])],
    };
    clean(&mut data, &CleanupConfig::standard());
    assert!(data.lines.is_empty());
}

#[test]
fn non_stop_members_do_not_count() {
    let mut l = line(10, "Mixed Line", &[1, 2, 3, 4, 5]);
    l.members.push(Member::Way(7));
    l.members.push(Member::Relation(8));
    assert_eq!(l.stop_count(), 5);
    assert_eq!(l.stop_ids(), vec![1, 2, 3, 4, 5]);
    let mut lines = vec![l];
    retain_qualifying(&mut lines, 5);
    assert!(lines.is_empty());
}

#[test]
fn end_to_end_bypass_without_duplicate_is_excluded() {
    let mut stops = BTreeMap::new();
    add_stops(&mut stops, 1, 6, None, 0);
    add_stops(&mut stops, 21, 6, None, 0);
    for id in 21..27i64 {
        stops.get_mut(&id).unwrap().lon += 900_000;
    }
    let keiyo = line(30, "Keiyo Bypass Route", &[21, 22, 23, 24, 25, 26]);
    let other = line(40, "Tozai Line", &[1, 2, 3, 4, 5, 6]);
    let mut after_dedup = vec![keiyo, other];
    remove_duplicates(&mut after_dedup, &stops, 100, &keywords());
    assert_eq!(ids(&after_dedup), vec![30, 40]);

    let mut data = Dataset { stops, lines: after_dedup };
    clean(&mut data, &CleanupConfig::standard());
    assert_eq!(ids(&data.lines), vec![40]);
}

#[test]
fn exclusion_twice_removes_nothing_more() {
    let mut lines = vec![
        line(1, "Keiyo Bypass Route", &[1]),
        line(2, "Tozai Line", &[2]),
        line(3, "BYPASS", &[3]),
    ];
    exclude_lines(&mut lines, &keywords());
    assert_eq!(ids(&lines), vec![2]);
    exclude_lines(&mut lines, &keywords());
    assert_eq!(ids(&lines), vec![2]);
}

#[test]
fn exclusion_matches_case_insensitively() {
    assert!(is_excluded(&line(1, "Keiyo Bypass Route", &[]), &keywords()));
    assert!(is_excluded(&line(1, "BYPASS", &[]), &keywords()));
    assert!(!is_excluded(&line(1, "Tozai Line", &[]), &keywords()));
    assert!(!is_excluded(&line(1, "Keiyo Bypass Route", &[]), &Vec::new()));
}

#[test]
fn exclusion_falls_back_to_default_name() {
    let mut l = line(1, "", &[]);
    l.name_en = None;
    l.name = Some("Bypass Loop".to_string());
    assert!(is_excluded(&l, &keywords()));
    l.name_en = Some("Loop".to_string());
    assert!(!is_excluded(&l, &keywords()));
}

#[test]
fn matches_keyword_on_folded_text() {
    assert!(matches_keyword("yamanote line (bypass)", &keywords()));
    assert!(!matches_keyword("yamanote line", &keywords()));
    assert!(!matches_keyword("bypas", &keywords()));
    assert!(!matches_keyword("", &keywords()));
    assert!(matches_keyword("x", &vec!["y".to_string(), "x".to_string()]));
}

#[test]
fn matches_keyword_edge_cases() {
    assert!(matches_keyword("abc", &vec!["".to_string()]));
    assert!(matches_keyword("", &vec!["".to_string()]));
    assert!(matches_keyword("abc", &vec!["abc".to_string()]));
    assert!(!matches_keyword("ab", &vec!["abc".to_string()]));
    assert!(matches_keyword("東京 bypass 線", &keywords()));
    assert!(matches_keyword("xxbypass", &keywords()));
    assert!(!matches_keyword("bypas s", &keywords()));
}

#[test]
fn resolution_keeps_first_without_keyword() {
    let a = line(1, "Ginza Line", &[]);
    let b = line(2, "Ginza Line Again", &[]);
    assert_eq!(resolve(&a, &b, &keywords()), (1, 2));
    assert_eq!(resolve(&a, &b, &keywords()), resolve(&a, &b, &keywords()));
    let c = line(3, "Ginza Bypass", &[]);
    assert_eq!(resolve(&c, &a, &keywords()), (1, 3));
    assert_eq!(resolve(&a, &c, &keywords()), (1, 3));
}

#[test]
fn resolution_keeps_first_when_both_names_match() {
    let c = line(3, "Ginza Bypass", &[]);
    let d = line(4, "Ginza Bypass Two", &[]);
    assert_eq!(resolve(&c, &d, &keywords()), (3, 4));
    assert_eq!(resolve(&d, &c, &keywords()), (4, 3));
}

#[test]
fn duplicate_pair_of_two_bypass_lines_keeps_first() {
    let mut stops = BTreeMap::new();
    add_stops(&mut stops, 1, 6, None, 0);
    let mut lines = vec![
        line(1, "East Bypass", &[1, 2, 3, 4, 5, 6]),
        line(2, "West Bypass", &[6, 5, 4, 3, 2, 1]),
    ];
    remove_duplicates(&mut lines, &stops, 100, &keywords());
    assert_eq!(ids(&lines), vec![1]);
}

#[test]
fn distinct_identifiers_are_detected() {
    assert!(distinct_ids(&vec![line(1, "A", &[]), line(2, "B", &[]), line(3, "C", &[])]));
    assert!(!distinct_ids(&vec![line(1, "A", &[]), line(2, "B", &[]), line(1, "C", &[])]));
    assert!(distinct_ids(&Vec::new()));
}

#[test]
fn duplicates_only_within_equal_stop_counts() {
    let mut stops = BTreeMap::new();
    add_stops(&mut stops, 1, 7, None, 0);
    let lines = vec![
        line(1, "A", &[1, 2, 3, 4, 5, 6]),
        line(2, "B", &[1, 2, 3, 4, 5, 6, 7]),
        line(3, "C", &[6, 5, 4, 3, 2, 1]),
        line(4, "D", &[1, 2, 3, 4, 5, 6, 7]),
    ];
    let pairs = find_duplicate_pairs(&lines, &stops, 100);
    assert_eq!(pairs, vec![(0, 2), (1, 3)]);
}

#[test]
fn chain_of_three_resolved_pairwise() {
    let mut stops = BTreeMap::new();
    add_stops(&mut stops, 1, 6, None, 0);
    let mut lines = vec![
        line(1, "A", &[1, 2, 3, 4, 5, 6]),
        line(2, "B", &[1, 2, 3, 4, 5, 6]),
        line(3, "C", &[6, 5, 4, 3, 2, 1]),
    ];
    assert_eq!(find_duplicate_pairs(&lines, &stops, 100).len(), 3);
    remove_duplicates(&mut lines, &stops, 100, &keywords());
    assert_eq!(ids(&lines), vec![1]);
}

#[test]
fn unresolved_stops_are_dropped() {
    let mut stops = BTreeMap::new();
    add_stops(&mut stops, 1, 3, None, 0);
    let members = vec![Member::Stop(1), Member::Way(5), Member::Stop(9), Member::Stop(3)];
    let kept = drop_unresolved_stops(&members, &stops);
    assert_eq!(kept, vec![Member::Stop(1), Member::Way(5), Member::Stop(3)]);
    let bad = vec![line(1, "A", &[1, 9])];
    assert!(!all_lines_resolved(&bad, &stops));
    let good = vec![line(1, "A", &[1, 3])];
    assert!(all_lines_resolved(&good, &stops));
}

#[test]
fn fallback_name_order() {
    assert_eq!(fallback_name(&Some("en".to_string()), &Some("ja".to_string())), "en");
    assert_eq!(fallback_name(&None, &Some("ja".to_string())), "ja");
    assert_eq!(fallback_name(&None, &None), "");
}

#[test]
fn listing_is_ordered_by_stop_count() {
    let mut l1 = line(1, "Short", &[1, 2]);
    l1.colour = Some("#ff0000".to_string());
    let mut l2 = line(2, "Long", &[1, 2, 3, 4]);
    l2.color = Some("green".to_string());
    let l3 = line(3, "Middle", &[1, 2, 3]);
    let list = list_lines(&vec![l1, l2, l3]);
    let got: Vec<(i64, String, String, usize)> =
        list.iter().map(|s| (s.id, s.name.clone(), s.color.clone(), s.len)).collect();
    assert_eq!(
        got,
        vec![
            (2, "Long".to_string(), "green".to_string(), 4),
            (3, "Middle".to_string(), "".to_string(), 3),
            (1, "Short".to_string(), "#ff0000".to_string(), 2),
        ]
    );
    let s = summarize(&line(5, "X", &[]));
    assert_eq!((s.id, s.len), (5, 0));
}

#[test]
fn stop_entries_skip_unresolved() {
    let mut stops = BTreeMap::new();
    add_stops(&mut stops, 1, 3, None, 0);
    let l = line(1, "A", &[3, 42, 1]);
    let entries = line_stop_entries(&l, &stops);
    let got: Vec<(i64, String, i32)> = entries.iter().map(|e| (e.id, e.name.clone(), e.lat)).collect();
    assert_eq!(
        got,
        vec![(3, "Stop 3".to_string(), BASE_LAT + 200_000), (1, "Stop 1".to_string(), BASE_LAT)]
    );
}

#[test]
fn buckets_group_positions_by_count() {
    let (keys, buckets) = bucket_by_count(&vec![6, 7, 6, 5, 7]);
    assert_eq!(keys, vec![6, 7, 5]);
    assert_eq!(buckets, vec![vec![0, 2], vec![1, 4], vec![3]]);
    let (keys, buckets) = bucket_by_count(&Vec::new());
    assert!(keys.is_empty());
    assert!(buckets.is_empty());
}

#[test]
fn find_line_by_identifier() {
    let lines = vec![line(7, "A", &[]), line(9, "B", &[]), line(9, "C", &[])];
    assert_eq!(find_line(&lines, 9), Some(1));
    assert_eq!(find_line(&lines, 7), Some(0));
    assert_eq!(find_line(&lines, 8), None);
}
