use vrp::{
    advance_train, find_best_train, find_nearest_trains, start_searching, which_direction, DistanceMap, EdgeStorage, Graph,
    Logger, Package, PackageCollection, PackageStatus, PackageTracker, RouteError, StationCollection, Timeline,
    Train, TrainCollection, TrainMovement,
};

struct World {
    stations: StationCollection,
    edges: EdgeStorage,
    packages: PackageCollection,
    trains: TrainCollection,
}

fn world(stations: &[&str], edges: &[(&str, &str, &str, u32)], packages: &[(&str, u32, &str, &str)], trains: &[(&str, u32, &str)]) -> World {
    let mut st = StationCollection::new();
    for s in stations {
        st.add_station(s.to_string());
    }
    let mut es = EdgeStorage::new();
    for (n, a, b, t) in edges {
        es.push(n.to_string(), a.to_string(), b.to_string(), *t);
    }
    let mut pc = PackageCollection::new();
    for (n, w, a, b) in packages {
        pc.add_package(n.to_string(), *w, a.to_string(), b.to_string(), PackageStatus::AwaitingPickup);
    }
    let mut tc = TrainCollection::new();
    for (n, c, s) in trains {
        tc.add_train(n.to_string(), *c, *c, s.to_string(), s.to_string(), Vec::new(), 0);
    }
    World { stations: st, edges: es, packages: pc, trains: tc }
}

fn run(w: &mut World, track: bool) -> Result<Vec<String>, RouteError> {
    run_with(w, if track { Some(PackageStatus::AwaitingPickup) } else { None }, true)
}

fn run_with(w: &mut World, status: Option<PackageStatus>, every_station: bool) -> Result<Vec<String>, RouteError> {
    let mut graph = Graph::new();
    if every_station {
        graph.init_key(&w.stations);
    }
    graph.init_value(&w.edges);
    let mut distance_map = DistanceMap::new();
    distance_map.init_key_value(graph.clone(), w.edges.clone());
    let mut timeline = Timeline::new();
    for tr in w.trains.iter_mut() {
        timeline.insert(tr.name().to_string(), 0);
    }
    let mut movement = TrainMovement::new();
    let mut tracker = PackageTracker::new();
    if let Some(st) = status {
        for pkg in w.packages.iter() {
            tracker.add_package(pkg.clone(), st);
        }
    }
    let mut logger = Logger::new();
    start_searching(
        &mut w.packages,
        &mut w.trains,
        &w.stations,
        graph,
        &mut movement,
        &mut distance_map,
        &mut timeline,
        tracker,
        &mut logger,
    )
}

fn pkg(name: &str, weight: u32, from: &str, to: &str) -> Package {
    Package::new(name.to_string(), weight, from.to_string(), to.to_string(), PackageStatus::AwaitingPickup)
}

#[test]
fn search_delivers_every_package_of_the_small_line() {
    let mut w = world(&["A", "B", "C"], &[("E1", "A", "B", 30), ("E2", "B", "C", 10)], &[("K1", 5, "A", "C")], &[("Q1", 6, "B")]);
    let lines = run(&mut w, true).unwrap();
    assert!(w.packages.is_empty());
    assert_eq!(
        lines,
        vec![
            "W=0, T=Q1, N1=B, P1=[], N2=A, P2=[]".to_string(),
            "W=30, T=Q1, N1=A, P1=[K1], N2=B, P2=[]".to_string(),
            "W=60, T=Q1, N1=B, P1=[], N2=C, P2=[K1]".to_string(),
        ]
    );
}

fn strip_load(lines: &[&str]) -> Vec<String> {
    lines.iter().map(|l| l.split(", L=").next().unwrap().to_string()).collect()
}

#[test]
fn search_gives_the_documented_moves_on_the_seven_station_line() {
    let mut w = world(
        &["A", "B", "C", "D", "E", "F", "G"],
        &[("E1", "A", "B", 14), ("E2", "B", "C", 35), ("E3", "C", "D", 48), ("E4", "D", "E", 32), ("E5", "E", "F", 63), ("E6", "F", "G", 41)],
        &[("K1", 48, "D", "A"), ("K2", 38, "E", "F")],
        &[("Q1", 65, "E"), ("Q2", 57, "G"), ("Q3", 46, "F")],
    );
    let lines = run(&mut w, true).unwrap();
    assert!(w.packages.is_empty());
    assert_eq!(
        lines,
        strip_load(&[
            "W=0, T=Q1, N1=E, P1=[], N2=D, P2=[], L=[]",
            "W=32, T=Q1, N1=D, P1=[K1], N2=C, P2=[], L=[K1]",
            "W=80, T=Q1, N1=C, P1=[], N2=B, P2=[], L=[K1]",
            "W=115, T=Q1, N1=B, P1=[], N2=A, P2=[K1], L=[]",
            "W=0, T=Q3, N1=F, P1=[], N2=E, P2=[], L=[]",
            "W=63, T=Q3, N1=E, P1=[K2], N2=F, P2=[K2], L=[]",
        ])
    );
}

#[test]
fn search_with_unknown_pickup_station_fails() {
    let mut w = world(&["A", "B"], &[("E1", "A", "B", 5)], &[("K1", 1, "Z", "A")], &[("Q1", 6, "B")]);
    assert_eq!(run(&mut w, true), Err(RouteError::UnknownStation));
}

#[test]
fn search_without_a_train_that_can_take_the_package_fails() {
    let mut w = world(&["A", "B"], &[("E1", "A", "B", 5)], &[("K1", 9, "A", "B")], &[("Q1", 6, "B")]);
    assert_eq!(run(&mut w, true), Err(RouteError::NoTrain));
}

#[test]
fn search_with_untracked_package_fails() {
    let mut w = world(&["A", "B"], &[("E1", "A", "B", 5)], &[("K1", 1, "A", "B")], &[("Q1", 6, "B")]);
    assert_eq!(run(&mut w, false), Err(RouteError::Untracked));
}

#[test]
fn search_with_nothing_to_deliver_moves_nothing() {
    let mut w = world(&["A", "B"], &[("E1", "A", "B", 5)], &[], &[("Q1", 6, "B")]);
    assert_eq!(run(&mut w, true), Ok(Vec::new()));
}

#[test]
fn movement_line_lists_packages_in_name_order() {
    let mut m = TrainMovement::new();
    m.with_time(1234);
    m.with_train("Q1".to_string());
    m.with_from("A".to_string());
    m.with_to("B".to_string());
    m.with_picked_pkgs(vec![pkg("K2", 1, "A", "B"), pkg("K1", 1, "A", "B")]);
    assert_eq!(m.to_string(), "W=1234, T=Q1, N1=A, P1=[K1, K2], N2=B, P2=[]");
    m.plus_time(4294966061);
    assert_eq!(m.to_string(), "W=4294967295, T=Q1, N1=A, P1=[K1, K2], N2=B, P2=[]");
}

#[test]
fn distance_is_read_both_ways_as_text() {
    let w = world(&["A", "B", "C"], &[("E1", "A", "B", 30), ("E2", "B", "C", 10)], &[], &[]);
    let mut graph = Graph::new();
    graph.init_key(&w.stations);
    graph.init_value(&w.edges);
    let mut dm = DistanceMap::new();
    dm.init_key_value(graph.clone(), w.edges.clone());
    assert_eq!(dm.get_distance("A".to_string(), "B".to_string()), "30");
    assert_eq!(dm.get_distance("B".to_string(), "A".to_string()), "30");
    assert_eq!(dm.get_distance("C".to_string(), "B".to_string()), "10");
    assert_eq!(dm.get_distance("A".to_string(), "C".to_string()), "0");
}

#[test]
fn tracker_reads_back_what_was_written() {
    let p = pkg("K1", 3, "A", "B");
    let q = pkg("K2", 3, "A", "B");
    let mut t = PackageTracker::new();
    assert_eq!(t.get_status(&p), None);
    t.add_package(p.clone(), PackageStatus::AwaitingPickup);
    assert_eq!(t.get_status(&p), Some(PackageStatus::AwaitingPickup));
    assert_eq!(t.update_status(&p, PackageStatus::InTransit), Ok(()));
    assert_eq!(t.get_status(&p), Some(PackageStatus::InTransit));
    assert_eq!(t.update_status(&q, PackageStatus::Delivered), Err("Package not found"));
    assert_eq!(t.remove_package(&p), Ok(()));
    assert_eq!(t.get_status(&p), None);
    assert_eq!(t.remove_package(&p), Err("Package not found"));
}

#[test]
fn stations_are_found_and_removed() {
    let mut s = StationCollection::new();
    s.add_station("A".to_string());
    s.add_station("B".to_string());
    s.add_station("A".to_string());
    assert_eq!(s.get_station_index("A"), Some(0));
    assert_eq!(s.get_station_index("B"), Some(1));
    assert_eq!(s.get_station_index("C"), None);
    s.add_station("C".to_string());
    assert_eq!(s.get_station_index("C"), Some(3));
    s.remove_station("C");
    assert_eq!(s.get_station_index("C"), None);
    s.remove_station("A");
    assert_eq!(s.get_station_index("A"), Some(1));
    assert_eq!(s.get_station_name(0).unwrap(), "B");
}

#[test]
fn timeline_accumulates_and_finds_least() {
    let mut tl = Timeline::new();
    tl.insert("Q2".to_string(), 5);
    tl.insert("Q1".to_string(), 5);
    tl.insert("Q3".to_string(), 9);
    tl.accumulate_time("Q3", 1);
    assert_eq!(tl.get_time("Q3"), 10);
    tl.accumulate_time("Q9", 4);
    assert_eq!(tl.get_time("Q9"), 4);
    let (name, time) = tl.find_least_timeline().unwrap();
    assert_eq!((name.as_str(), *time), ("Q9", 4));
    assert_eq!(tl.trains_with_less_time("Q3"), vec!["Q1".to_string(), "Q2".to_string(), "Q9".to_string()]);
    assert!(Timeline::new().find_least_timeline().is_none());
}

#[test]
fn loading_stops_at_remaining_capacity() {
    let mut t = Train::new("Q1".to_string(), 10, 10, "A".to_string(), "A".to_string(), Vec::new(), 0);
    t.load_packages(vec![pkg("K1", 6, "A", "B"), pkg("K2", 5, "A", "B"), pkg("K3", 4, "A", "B")]);
    assert!(t.already_loaded_package(&pkg("K1", 6, "A", "B")));
    assert!(!t.already_loaded_package(&pkg("K2", 5, "A", "B")));
    assert!(t.already_loaded_package(&pkg("K3", 4, "A", "B")));
    assert_eq!(t.remain_capacity(), 0);
    t.remove_package(&pkg("K1", 6, "A", "B"));
    assert!(!t.already_loaded_package(&pkg("K1", 6, "A", "B")));
}

#[test]
fn best_train_is_the_nearest_that_can_take_the_package() {
    let mut st = StationCollection::new();
    for s in ["A", "B", "C", "D", "E"] {
        st.add_station(s.to_string());
    }
    let mut tc = TrainCollection::new();
    tc.add_train("Q1".to_string(), 10, 2, "A".to_string(), "D".to_string(), Vec::new(), 0);
    tc.add_train("Q2".to_string(), 10, 10, "A".to_string(), "A".to_string(), Vec::new(), 0);
    tc.add_train("Q3".to_string(), 10, 10, "E".to_string(), "E".to_string(), Vec::new(), 0);
    assert_eq!(find_best_train(&mut tc, &pkg("K1", 5, "D", "A"), &st), Some(2));
    assert_eq!(find_best_train(&mut tc, &pkg("K1", 1, "D", "A"), &st), Some(0));
    assert_eq!(find_best_train(&mut tc, &pkg("K1", 11, "D", "A"), &st), None);
}

#[test]
fn nearest_trains_keep_every_tie_in_order() {
    assert_eq!(find_nearest_trains(5, &[9, 1, 3, 7, 5, 5]), vec![5, 5]);
    assert_eq!(find_nearest_trains(5, &[9, 1, 3, 7]), vec![3, 7]);
}

#[test]
fn direction_follows_station_order() {
    let w = world(&["A", "B", "C"], &[("E1", "A", "B", 30), ("E2", "B", "C", 10)], &[], &[]);
    let mut graph = Graph::new();
    graph.init_key(&w.stations);
    graph.init_value(&w.edges);
    assert_eq!(which_direction(graph.clone(), &1, &w.stations, "C".to_string()), "C");
    assert_eq!(which_direction(graph.clone(), &1, &w.stations, "A".to_string()), "A");
    assert_eq!(which_direction(graph.clone(), &0, &w.stations, "C".to_string()), "B");
}

#[test]
fn collection_gives_the_least_name_first() {
    let mut pc = PackageCollection::new();
    pc.add_package("K2".to_string(), 1, "A".to_string(), "B".to_string(), PackageStatus::AwaitingPickup);
    pc.add_package("K10".to_string(), 1, "A".to_string(), "B".to_string(), PackageStatus::AwaitingPickup);
    pc.add_package("K1".to_string(), 1, "A".to_string(), "B".to_string(), PackageStatus::AwaitingPickup);
    let (k, _) = pc.pick_first().unwrap();
    assert_eq!(k, "K1");
    assert_eq!(pc.first().unwrap().0, "K10");
    assert_eq!(pc.len(), 2);
}

#[test]
fn search_gives_the_documented_moves_on_the_four_station_line() {
    let mut w = world(
        &["A", "B", "C", "D"],
        &[("E1", "A", "B", 48), ("E2", "B", "C", 88), ("E3", "C", "D", 3)],
        &[("K1", 7, "B", "D"), ("K2", 20, "B", "A"), ("K3", 49, "A", "B"), ("K4", 7, "B", "C"), ("K5", 25, "D", "A")],
        &[("Q1", 59, "C"), ("Q2", 21, "B"), ("Q3", 81, "A")],
    );
    let lines = run(&mut w, true).unwrap();
    assert!(w.packages.is_empty());
    assert_eq!(
        lines,
        strip_load(&[
            "W=0, T=Q2, N1=B, P1=[K1, K4], N2=C, P2=[K4], L=[K1]",
            "W=88, T=Q2, N1=C, P1=[], N2=D, P2=[K1], L=[]",
            "W=0, T=Q1, N1=C, P1=[], N2=B, P2=[], L=[]",
            "W=88, T=Q1, N1=B, P1=[K2], N2=A, P2=[K2], L=[]",
            "W=0, T=Q3, N1=A, P1=[K3], N2=B, P2=[K3], L=[]",
            "W=48, T=Q3, N1=B, P1=[], N2=C, P2=[], L=[]",
            "W=136, T=Q3, N1=C, P1=[], N2=D, P2=[], L=[]",
            "W=139, T=Q3, N1=D, P1=[K5], N2=C, P2=[], L=[K5]",
            "W=142, T=Q3, N1=C, P1=[], N2=B, P2=[], L=[K5]",
            "W=230, T=Q3, N1=B, P1=[], N2=A, P2=[K5], L=[]",
        ])
    );
}

#[test]
fn search_drops_each_package_once_on_the_six_station_line() {
    let mut w = world(
        &["A", "B", "C", "D", "E", "F"],
        &[("E1", "A", "B", 45), ("E2", "B", "C", 29), ("E3", "C", "D", 88), ("E4", "D", "E", 89), ("E5", "E", "F", 50)],
        &[("K1", 60, "B", "E"), ("K2", 25, "B", "D"), ("K3", 9, "F", "C")],
        &[("Q1", 68, "C"), ("Q2", 69, "B"), ("Q3", 79, "C")],
    );
    let lines = run(&mut w, true).unwrap();
    assert!(w.packages.is_empty());
    for k in ["K1", "K2", "K3"] {
        let dropped = lines.iter().filter(|l| l.ends_with(&format!("P2=[{}]", k))).count();
        assert_eq!(dropped, 1, "{} in {:?}", k, lines);
    }
    assert_eq!(lines.last().unwrap(), "W=395, T=Q2, N1=D, P1=[], N2=C, P2=[K3]");
}

#[test]
fn search_stops_where_the_way_leaves_the_station_list() {
    let mut w = world(&["A", "B"], &[("E1", "A", "Z", 5)], &[("K1", 1, "A", "B")], &[("Q1", 6, "B")]);
    assert_eq!(run(&mut w, true), Err(RouteError::UnknownStation));
}

#[test]
fn search_stops_when_the_way_comes_round_again() {
    let mut w = world(&["A", "B", "C"], &[("E1", "A", "B", 5), ("E2", "B", "C", 5)], &[("K1", 1, "B", "Z")], &[("Q1", 6, "B")]);
    assert_eq!(run(&mut w, true), Err(RouteError::Cycle));
}

#[test]
fn search_stops_when_time_runs_past_the_largest_u32() {
    let mut w = world(
        &["A", "B", "C"],
        &[("E1", "A", "B", u32::MAX), ("E2", "B", "C", 1)],
        &[("K1", 1, "A", "C")],
        &[("Q1", 6, "A")],
    );
    assert_eq!(run(&mut w, true), Err(RouteError::TimeOverflow));
}

#[test]
fn search_stops_at_a_station_without_neighbour_list() {
    let mut w = world(&["A", "B", "C"], &[("E1", "A", "B", 5)], &[("K1", 1, "A", "B")], &[("Q1", 6, "C")]);
    assert_eq!(run_with(&mut w, Some(PackageStatus::AwaitingPickup), false), Err(RouteError::NoNeighbours));
}

#[test]
fn search_stalls_on_a_package_already_delivered() {
    let mut w = world(&["A", "B"], &[("E1", "A", "B", 5)], &[("K1", 1, "A", "B")], &[("Q1", 6, "A")]);
    assert_eq!(run_with(&mut w, Some(PackageStatus::Delivered), true), Err(RouteError::Stalled));
}

#[test]
fn search_fails_for_a_package_in_transit_that_no_train_holds() {
    let mut w = world(&["A", "B"], &[("E1", "A", "B", 5)], &[("K1", 1, "A", "B")], &[("Q1", 6, "A")]);
    assert_eq!(run_with(&mut w, Some(PackageStatus::InTransit), true), Err(RouteError::NotOnBoard));
}

#[test]
fn packages_compare_by_name_alone() {
    assert!(pkg("K1", 9, "A", "B") < pkg("K2", 1, "A", "B"));
    assert_eq!(pkg("K1", 9, "A", "B").partial_cmp(&pkg("K1", 1, "C", "D")), Some(std::cmp::Ordering::Equal));
    assert!(pkg("K10", 1, "A", "B") < pkg("K2", 1, "A", "B"));
    assert_eq!(Package::default().name(), "Unknown");
}

#[test]
fn distance_entries_list_each_pair_once_in_pair_order() {
    let w = world(&["A", "B", "C"], &[("E1", "A", "B", 30), ("E2", "B", "C", 10)], &[], &[]);
    let mut graph = Graph::new();
    graph.init_key(&w.stations);
    graph.init_value(&w.edges);
    let mut dm = DistanceMap::new();
    dm.init_key_value(graph.clone(), w.edges.clone());
    let pair = |a: &str, b: &str, d: u32| ((a.to_string(), b.to_string()), d);
    assert_eq!(
        dm.sorted_entries(),
        vec![pair("A", "B", 30), pair("B", "A", 30), pair("B", "C", 10), pair("C", "B", 10)]
    );
    assert!(DistanceMap::new().sorted_entries().is_empty());
}

#[test]
fn best_train_tie_goes_to_a_later_train_only_when_faster_than_all_before() {
    let mut st = StationCollection::new();
    for s in ["A", "B", "C", "D", "E"] {
        st.add_station(s.to_string());
    }
    let mut tc = TrainCollection::new();
    tc.add_train("Q1".to_string(), 10, 10, "A".to_string(), "C".to_string(), Vec::new(), 10);
    tc.add_train("Q2".to_string(), 10, 10, "A".to_string(), "E".to_string(), Vec::new(), 5);
    assert_eq!(find_best_train(&mut tc, &pkg("K1", 1, "D", "A"), &st), Some(1));
    let mut tc = TrainCollection::new();
    tc.add_train("Q1".to_string(), 10, 10, "A".to_string(), "A".to_string(), Vec::new(), 1);
    tc.add_train("Q2".to_string(), 10, 10, "A".to_string(), "C".to_string(), Vec::new(), 10);
    tc.add_train("Q3".to_string(), 10, 10, "A".to_string(), "E".to_string(), Vec::new(), 5);
    assert_eq!(find_best_train(&mut tc, &pkg("K1", 1, "D", "A"), &st), Some(1));
}

#[test]
fn sent_train_ends_at_the_target_with_the_hop_distances_added() {
    let mut w = world(&["A", "B", "C"], &[("E1", "A", "B", 30), ("E2", "B", "C", 10)], &[("K1", 5, "A", "C")], &[("Q1", 10, "A")]);
    let mut graph = Graph::new();
    graph.init_key(&w.stations);
    graph.init_value(&w.edges);
    let mut dm = DistanceMap::new();
    dm.init_key_value(graph.clone(), w.edges.clone());
    let mut timeline = Timeline::new();
    timeline.insert("Q1".to_string(), 0);
    let mut movement = TrainMovement::new();
    let mut tracker = PackageTracker::new();
    let mut package = pkg("K1", 5, "A", "C");
    tracker.add_package(package.clone(), PackageStatus::AwaitingPickup);
    let mut logger = Logger::new();
    let candidate = w.trains.get_train(0).unwrap().clone();
    let lines = advance_train(
        &w.stations,
        &mut w.trains,
        &mut package,
        graph,
        &w.packages,
        tracker,
        &mut movement,
        &mut timeline,
        &mut dm,
        &"C".to_string(),
        &mut logger,
        &candidate,
    )
    .unwrap();
    assert_eq!(lines.len(), 2);
    let q1 = w.trains.get_train(0).unwrap();
    assert_eq!(q1.current_index(), "C");
    assert_eq!(q1.time(), 40);
    assert_eq!(timeline.get_time("Q1"), 40);
}
