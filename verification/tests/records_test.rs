use std::collections::{HashMap, HashSet};
use vrp::records::{
    build_connections_and_distances, build_train_info, calculate_positions, create_delivery_status,
    create_timeline, extract_train_names, get_diff, get_pkg_detail, get_train_for_weight,
    get_train_remaining_capacity, load_package, parse_count, split_record, unload_package, Status,
};
use vrp::TextMap;

fn as_hash<V: Clone>(m: &TextMap<V>) -> HashMap<String, V> {
    m.keys().iter().cloned().zip(m.values().iter().cloned()).collect()
}

fn texts(v: &[&str]) -> Vec<String> {
    v.iter().map(|s| s.to_string()).collect()
}

#[test]
fn test_calculate_positions() {
    let stations = vec!["X", "Y", "Z"];
    let expected: HashMap<String, usize> =
        HashMap::from([("X".to_string(), 0), ("Y".to_string(), 1), ("Z".to_string(), 2)]);
    assert_eq!(as_hash(&calculate_positions(&stations)), expected);
}

#[test]
fn test_build_connections_and_distances() {
    let edges = vec!["E1,X,Y,5", "E2,Y,Z,10"];
    let (connections, distances) = build_connections_and_distances(&edges);

    let got_connections: HashMap<String, HashSet<String>> = as_hash(&connections)
        .into_iter()
        .map(|(k, v)| (k, v.into_iter().collect()))
        .collect();
    let expected_connections: HashMap<String, HashSet<String>> = HashMap::from([
        ("X".to_string(), HashSet::from(["Y".to_string()])),
        ("Y".to_string(), HashSet::from(["X".to_string(), "Z".to_string()])),
        ("Z".to_string(), HashSet::from(["Y".to_string()])),
    ]);

    let mut got_distances: HashMap<(String, String), usize> = HashMap::new();
    for a in distances.first_keys() {
        let row = distances.row(a).unwrap();
        for (b, d) in row.keys().iter().zip(row.values().iter()) {
            got_distances.insert((a.clone(), b.clone()), *d);
        }
    }
    let expected_distances: HashMap<(String, String), usize> = HashMap::from([
        (("X".to_string(), "Y".to_string()), 5),
        (("Y".to_string(), "X".to_string()), 5),
        (("Y".to_string(), "Z".to_string()), 10),
        (("Z".to_string(), "Y".to_string()), 10),
    ]);

    assert_eq!(got_connections, expected_connections);
    assert_eq!(got_distances, expected_distances);
}

#[test]
fn test_extract_train_names() {
    let trains = vec!["Q1,A,LEFT", "Q2,B,RIGHT", "Q3,C,LEFT"];
    let expected = texts(&["Q1", "Q2", "Q3"]);
    assert_eq!(extract_train_names(&trains), expected);
}

#[test]
fn test_create_delivery_status() {
    let deliveries = vec!["P1", "P2", "P3"];
    let expected: HashMap<String, Status> = HashMap::from([
        ("P1".to_string(), Status::AtPickup),
        ("P2".to_string(), Status::AtPickup),
        ("P3".to_string(), Status::AtPickup),
    ]);
    assert_eq!(as_hash(&create_delivery_status(&deliveries)), expected);
}

#[test]
fn test_build_train_info() {
    let trains = vec!["T1,3,A", "T2,2,B"];
    let (stations, capacities, loads) = build_train_info(&trains);

    let expected_stations: HashMap<String, String> =
        HashMap::from([("T1".to_string(), "A".to_string()), ("T2".to_string(), "B".to_string())]);
    let expected_capacities: HashMap<String, usize> =
        HashMap::from([("T1".to_string(), 3), ("T2".to_string(), 2)]);
    let expected_loads: HashMap<String, Vec<String>> =
        HashMap::from([("T1".to_string(), Vec::new()), ("T2".to_string(), Vec::new())]);

    assert_eq!(as_hash(&stations), expected_stations);
    assert_eq!(as_hash(&capacities), expected_capacities);
    assert_eq!(as_hash(&loads), expected_loads);
}

#[test]
fn test_create_timeline() {
    let train_names = vec!["T1", "T2", "T3"];
    let expected: HashMap<String, usize> =
        HashMap::from([("T1".to_string(), 0), ("T2".to_string(), 0), ("T3".to_string(), 0)]);
    assert_eq!(as_hash(&create_timeline(&train_names)), expected);
}

#[test]
fn test_empty_inputs() {
    let empty_vec: Vec<&str> = Vec::new();
    assert!(create_delivery_status(&empty_vec).is_empty());
    assert!(build_train_info(&empty_vec).0.is_empty());
    assert!(create_timeline(&empty_vec).is_empty());
}

#[test]
fn test_load_package() {
    let mut train_loads: TextMap<Vec<String>> = TextMap::new();
    let mut delivery_status: TextMap<Status> = TextMap::new();
    train_loads.insert("T1".to_string(), vec![]);

    load_package("T1", "P1", &mut train_loads, &mut delivery_status);
    assert_eq!(train_loads.get("T1").unwrap(), &texts(&["P1"]));
    assert_eq!(*delivery_status.get("P1").unwrap(), Status::InFlight);

    load_package("T1", "P1", &mut train_loads, &mut delivery_status);
    assert_eq!(train_loads.get("T1").unwrap(), &texts(&["P1"]));
}

#[test]
fn test_unload_package() {
    let mut train_loads: TextMap<Vec<String>> = TextMap::new();
    let mut deliveries: Vec<&str> = vec!["P1,2,A,B"];
    let mut delivery_status: TextMap<Status> = TextMap::new();
    train_loads.insert("T1".to_string(), texts(&["P1"]));

    unload_package("T1", "P1", &mut train_loads, &mut deliveries, &mut delivery_status);
    assert!(train_loads.get("T1").unwrap().is_empty());
    assert!(deliveries.is_empty());
    assert_eq!(*delivery_status.get("P1").unwrap(), Status::Delivered);

    unload_package("T1", "P2", &mut train_loads, &mut deliveries, &mut delivery_status);
}

#[test]
fn test_get_pkg_detail() {
    let deliveries = vec!["P1,3,A,C", "P2,5,B,D"];
    let details = get_pkg_detail("P1", &deliveries);
    assert_eq!(details.get("name").unwrap(), "P1");
    assert_eq!(details.get("weight").unwrap(), "3");
    assert_eq!(details.get("from").unwrap(), "A");
    assert_eq!(details.get("to").unwrap(), "C");

    let details = get_pkg_detail("P3", &deliveries);
    assert_eq!(details.get("weight").unwrap(), "0");
}

#[test]
fn test_get_train_remaining_capacity() {
    let mut train_capacities: TextMap<usize> = TextMap::new();
    train_capacities.insert("T1".to_string(), 10);
    let mut train_loads: TextMap<Vec<String>> = TextMap::new();
    train_loads.insert("T1".to_string(), texts(&["P1", "P2"]));
    let deliveries = vec!["P1,2,A,B", "P2,3,C,D"];
    assert_eq!(get_train_remaining_capacity("T1", &train_capacities, &train_loads, &deliveries), 5);

    assert_eq!(get_train_remaining_capacity("T2", &train_capacities, &train_loads, &deliveries), 0);
}

#[test]
fn test_get_diff() {
    assert_eq!(get_diff(5, 2), 3);
    assert_eq!(get_diff(1, 1), 0);
    assert_eq!(get_diff(2, 5), 3);
}

#[test]
fn split_record_keeps_empty_fields() {
    assert_eq!(split_record("a,,b,"), texts(&["a", "", "b", ""]));
    assert_eq!(split_record(""), texts(&[""]));
    assert_eq!(split_record("K1"), texts(&["K1"]));
}

#[test]
fn parse_count_follows_str_parse() {
    assert_eq!(parse_count("42"), Some(42));
    assert_eq!(parse_count("+7"), Some(7));
    assert_eq!(parse_count("007"), Some(7));
    assert_eq!(parse_count(""), None);
    assert_eq!(parse_count("+"), None);
    assert_eq!(parse_count("X"), None);
    assert_eq!(parse_count("-1"), None);
    assert_eq!(parse_count("18446744073709551616"), "18446744073709551616".parse::<usize>().ok());
    assert_eq!(parse_count(&usize::MAX.to_string()), Some(usize::MAX));
}

#[test]
fn later_record_wins_in_positions_and_train_info() {
    let stations = vec!["A", "B", "A"];
    let positions = calculate_positions(&stations);
    assert_eq!(positions.get("A"), Some(&2));
    assert_eq!(positions.get("B"), Some(&1));

    let trains = vec!["T1,3,A", "T1,5,C"];
    let (stations, capacities, _) = build_train_info(&trains);
    assert_eq!(stations.get("T1").unwrap(), "C");
    assert_eq!(capacities.get("T1"), Some(&5));
}

#[test]
fn duplicate_edges_are_linked_once() {
    let edges = vec!["E1,X,Y,5", "E2,X,Y,7"];
    let (connections, distances) = build_connections_and_distances(&edges);
    assert_eq!(connections.get("X").unwrap(), &texts(&["Y"]));
    assert_eq!(distances.get("Y", "X"), Some(&7));
}

#[test]
fn load_on_unknown_train_creates_its_list() {
    let mut train_loads: TextMap<Vec<String>> = TextMap::new();
    let mut delivery_status: TextMap<Status> = TextMap::new();
    load_package("T9", "P1", &mut train_loads, &mut delivery_status);
    load_package("T9", "P2", &mut train_loads, &mut delivery_status);
    assert_eq!(train_loads.get("T9").unwrap(), &texts(&["P1", "P2"]));
    assert_eq!(*delivery_status.get("P2").unwrap(), Status::InFlight);
}

#[test]
fn unload_undoes_load_on_concrete_values() {
    let mut train_loads: TextMap<Vec<String>> = TextMap::new();
    train_loads.insert("T1".to_string(), texts(&["P0"]));
    let mut delivery_status: TextMap<Status> = TextMap::new();
    let mut deliveries: Vec<&str> = vec!["P0,1,A,B", "P1,2,A,C", "P1,9,X,Y"];
    load_package("T1", "P1", &mut train_loads, &mut delivery_status);
    unload_package("T1", "P1", &mut train_loads, &mut deliveries, &mut delivery_status);
    assert_eq!(train_loads.get("T1").unwrap(), &texts(&["P0"]));
    assert_eq!(deliveries, vec!["P0,1,A,B", "P1,9,X,Y"]);
    assert_eq!(*delivery_status.get("P1").unwrap(), Status::Delivered);
}

#[test]
fn first_record_gives_the_details() {
    let deliveries = vec!["P1,3,A,C", "P1,8,X,Y"];
    let details = get_pkg_detail("P1", &deliveries);
    assert_eq!(details.get("weight").unwrap(), "3");
    assert_eq!(details.len(), 4);
    assert_eq!(get_pkg_detail("Q", &deliveries).len(), 1);
}

#[test]
fn remaining_capacity_saturates_and_skips_bad_weights() {
    let mut train_capacities: TextMap<usize> = TextMap::new();
    train_capacities.insert("T1".to_string(), 4);
    let mut train_loads: TextMap<Vec<String>> = TextMap::new();
    train_loads.insert("T1".to_string(), texts(&["P1", "P2", "P3"]));
    let deliveries = vec!["P1,3,A,B", "P2,x,C,D", "P3,2,C,D"];
    assert_eq!(get_train_remaining_capacity("T1", &train_capacities, &train_loads, &deliveries), 0);
    train_capacities.insert("T1".to_string(), 9);
    assert_eq!(get_train_remaining_capacity("T1", &train_capacities, &train_loads, &deliveries), 4);
}

#[test]
fn train_for_weight_prefers_fitting_then_largest_then_last() {
    let mut caps: TextMap<usize> = TextMap::new();
    caps.insert("T1".to_string(), 5);
    caps.insert("T2".to_string(), 10);
    caps.insert("T3".to_string(), 8);
    let names = vec!["T1", "T2", "T3"];
    assert_eq!(get_train_for_weight(3, &names, &caps), Some("T2"));
    assert_eq!(get_train_for_weight(9, &names, &caps), Some("T2"));
    assert_eq!(get_train_for_weight(11, &names, &caps), Some("T2"));
    let same = vec!["T2", "T4", "T2b"];
    caps.insert("T2b".to_string(), 10);
    assert_eq!(get_train_for_weight(3, &same, &caps), Some("T2b"));
    assert_eq!(get_train_for_weight(1, &["T4", "T5"], &caps), Some("T5"));
    assert_eq!(get_train_for_weight(1, &Vec::<&str>::new(), &caps), None);
}
