use find_path::graph::{Coordinate, Edge, Floor, Graph, PathPreference, PathingOptions};
use find_path::search::{find_path, PathError};
use find_path::weather::WeatherInfo;

fn floor(building: &str, level: &str) -> Floor {
    Floor { building_code: building.to_string(), level: level.to_string() }
}

fn node(g: &mut Graph, id: &str, room: &str, f: Floor, lat: i64) -> usize {
    g.add_node(id.to_string(), room.to_string(), f, Coordinate { latitude_e6: lat, longitude_e6: 0 }).unwrap()
}

fn link(g: &mut Graph, from: usize, to: usize, dist: u32, outdoor: bool) {
    g.add_edge(from, Edge { to, dist, outdoor, to_floor_info: None });
}

/// A - B - C, distance 100 each way; B is outside, so its edges are outdoor.
fn chain_graph() -> Graph {
    let mut g = Graph::new();
    let a = node(&mut g, "A", "room1", floor("building", "1"), 0);
    let b = node(&mut g, "B", "outside1", floor("outside", "ground"), 1_000_000);
    let c = node(&mut g, "C", "room2", floor("building", "1"), 2_000_000);
    link(&mut g, a, b, 100, true);
    link(&mut g, b, a, 100, true);
    link(&mut g, b, c, 100, true);
    link(&mut g, c, b, 100, true);
    g
}

fn balanced() -> PathingOptions {
    PathingOptions { preference: PathPreference::Balanced, weather_info: None }
}

fn with_weather(feels_like: i64, condition: &str) -> PathingOptions {
    PathingOptions {
        preference: PathPreference::Weather,
        weather_info: Some(WeatherInfo {
            temperature: feels_like,
            feels_like,
            condition: condition.to_string(),
        }),
    }
}

#[test]
fn test_basic_path_finding() {
    let graph = chain_graph();
    let route = find_path(&vec![0], &vec![2], &graph, &balanced()).unwrap();
    assert_eq!(graph.path_ids(&route.path), vec!["A", "B", "C"]);
}

#[test]
fn test_weather_aware_path_finding() {
    let graph = chain_graph();
    let options = with_weather(25_000, "Snow");
    let route = find_path(&vec![0], &vec![2], &graph, &options).unwrap();
    assert_eq!(graph.path_ids(&route.path), vec!["A", "B", "C"]);
}

#[test]
fn chain_balanced_cost() {
    let graph = chain_graph();
    let route = find_path(&vec![0], &vec![2], &graph, &balanced()).unwrap();
    assert_eq!(route.path, vec![0, 1, 2]);
    // Costs are in thousandths: 200 distance units.
    assert_eq!(route.cost, 200_000);
}

#[test]
fn chain_bad_weather_inflates_outdoor_cost() {
    let graph = chain_graph();
    let route = find_path(&vec![0], &vec![2], &graph, &with_weather(25_000, "Snow")).unwrap();
    assert_eq!(route.path, vec![0, 1, 2]);
    assert_eq!(route.cost, 200_000_000);
}

#[test]
fn chain_good_weather_cheapens_outdoor_cost() {
    let graph = chain_graph();
    let route = find_path(&vec![0], &vec![2], &graph, &with_weather(290_000, "Clear")).unwrap();
    assert_eq!(route.path, vec![0, 1, 2]);
    assert_eq!(route.cost, 200);
}

#[test]
fn start_equals_end() {
    let graph = chain_graph();
    let route = find_path(&vec![1], &vec![1], &graph, &balanced()).unwrap();
    assert_eq!(route.path, vec![1]);
    assert_eq!(route.cost, 0);
}

#[test]
fn disconnected_endpoints() {
    let mut graph = chain_graph();
    let d = node(&mut graph, "D", "room3", floor("building", "2"), 0);
    let e = node(&mut graph, "E", "room4", floor("building", "2"), 0);
    link(&mut graph, d, e, 5, false);
    assert_eq!(find_path(&vec![0], &vec![d], &graph, &balanced()).err(), Some(PathError::NoPathFound));
    // Edges are directed: E has no way back to D.
    assert_eq!(find_path(&vec![e], &vec![d], &graph, &balanced()).err(), Some(PathError::NoPathFound));
    assert_eq!(find_path(&vec![d], &vec![e], &graph, &balanced()).unwrap().path, vec![d, e]);
}

#[test]
fn invalid_inputs() {
    let graph = chain_graph();
    assert_eq!(find_path(&vec![], &vec![2], &graph, &balanced()).err(), Some(PathError::InvalidInput));
    assert_eq!(find_path(&vec![0], &vec![], &graph, &balanced()).err(), Some(PathError::InvalidInput));
    assert_eq!(find_path(&vec![0], &vec![7], &graph, &balanced()).err(), Some(PathError::InvalidInput));
    assert_eq!(find_path(&vec![9], &vec![2], &graph, &balanced()).err(), Some(PathError::InvalidInput));
}

#[test]
fn weather_preference_without_weather() {
    let graph = chain_graph();
    let options = PathingOptions { preference: PathPreference::Weather, weather_info: None };
    assert_eq!(find_path(&vec![0], &vec![2], &graph, &options).err(), Some(PathError::MissingWeatherData));
}

/// A diamond: A-B-D is short in hops but long; A-C-E-D is longer in hops but shorter.
fn diamond() -> Graph {
    let mut g = Graph::new();
    for id in ["A", "B", "C", "D", "E"] {
        node(&mut g, id, id, floor("building", "1"), 0);
    }
    link(&mut g, 0, 1, 10, false);
    link(&mut g, 1, 3, 10, false);
    link(&mut g, 0, 2, 3, false);
    link(&mut g, 2, 4, 3, false);
    link(&mut g, 4, 3, 3, false);
    g
}

#[test]
fn shortest_path_matches_brute_force() {
    let g = diamond();
    let route = find_path(&vec![0], &vec![3], &g, &balanced()).unwrap();
    assert_eq!(route.path, vec![0, 2, 4, 3]);
    // The two simple paths cost 20 and 9 units: the minimum is 9.
    assert_eq!(route.cost, 9_000);
}

#[test]
fn multiple_sources_and_targets() {
    let g = diamond();
    let route = find_path(&vec![0, 2], &vec![3, 4], &g, &balanced()).unwrap();
    assert_eq!(route.path, vec![2, 4]);
    assert_eq!(route.cost, 3_000);
}

#[test]
fn weather_steers_between_indoor_and_outdoor() {
    // Indoor A-B-C costs 300; outdoor shortcut A-C costs 150.
    let mut g = Graph::new();
    let a = node(&mut g, "A", "r1", floor("b", "1"), 0);
    let b = node(&mut g, "B", "r2", floor("b", "1"), 0);
    let c = node(&mut g, "C", "r3", floor("b", "1"), 0);
    link(&mut g, a, b, 150, false);
    link(&mut g, b, c, 150, false);
    link(&mut g, a, c, 150, true);
    let good = find_path(&vec![a], &vec![c], &g, &with_weather(295_000, "Clear")).unwrap();
    assert_eq!(good.path, vec![a, c]);
    assert_eq!(good.cost, 150);
    let bad = find_path(&vec![a], &vec![c], &g, &with_weather(295_000, "Rain")).unwrap();
    assert_eq!(bad.path, vec![a, b, c]);
    assert_eq!(bad.cost, 300_000);
    let plain = find_path(&vec![a], &vec![c], &g, &balanced()).unwrap();
    assert_eq!(plain.path, vec![a, c]);
    assert_eq!(plain.cost, 150_000);
}

#[test]
fn ties_break_by_node_index_and_repeat() {
    // Two paths of equal cost: A-B-D and A-C-D.
    let mut g = Graph::new();
    for id in ["A", "B", "C", "D"] {
        node(&mut g, id, id, floor("b", "1"), 0);
    }
    link(&mut g, 0, 2, 5, false);
    link(&mut g, 0, 1, 5, false);
    link(&mut g, 1, 3, 5, false);
    link(&mut g, 2, 3, 5, false);
    let first = find_path(&vec![0], &vec![3], &g, &balanced()).unwrap();
    assert_eq!(first.path, vec![0, 1, 3]);
    for _ in 0..5 {
        let again = find_path(&vec![0], &vec![3], &g, &balanced()).unwrap();
        assert_eq!(again.path, first.path);
        assert_eq!(again.cost, first.cost);
    }
}

#[test]
fn add_edge_replaces_existing_edge() {
    let mut g = chain_graph();
    link(&mut g, 0, 1, 7, false);
    let route = find_path(&vec![0], &vec![1], &g, &balanced()).unwrap();
    assert_eq!(route.cost, 7_000);
    assert_eq!(g.nodes[0].neighbors.len(), 1);
}

#[test]
fn zero_distance_edges() {
    let mut g = Graph::new();
    for id in ["A", "B", "C"] {
        node(&mut g, id, id, floor("b", "1"), 0);
    }
    link(&mut g, 0, 1, 0, false);
    link(&mut g, 1, 2, 0, false);
    let route = find_path(&vec![0], &vec![2], &g, &balanced()).unwrap();
    assert_eq!(route.path, vec![0, 1, 2]);
    assert_eq!(route.cost, 0);
}

#[test]
fn largest_distance_does_not_overflow() {
    let mut g = Graph::new();
    for id in ["A", "B", "C"] {
        node(&mut g, id, id, floor("b", "1"), 0);
    }
    link(&mut g, 0, 1, u32::MAX, true);
    link(&mut g, 1, 2, u32::MAX, true);
    let route = find_path(&vec![0], &vec![2], &g, &with_weather(0, "Snow")).unwrap();
    assert_eq!(route.cost, 2 * (u32::MAX as u128) * 1_000_000);
}

#[test]
fn well_formedness_check() {
    let mut g = chain_graph();
    assert!(g.is_well_formed());
    assert!(Graph::new().is_well_formed());
    g.nodes[0].neighbors.push(Edge { to: 1, dist: 3, outdoor: false, to_floor_info: None });
    assert!(!g.is_well_formed());
    let mut h = chain_graph();
    h.nodes[2].neighbors.push(Edge { to: 5, dist: 3, outdoor: false, to_floor_info: None });
    assert!(!h.is_well_formed());
}

#[test]
fn duplicate_node_id_is_refused() {
    let mut g = chain_graph();
    let again = g.add_node("B".to_string(), "x".to_string(), floor("b", "1"), Coordinate { latitude_e6: 0, longitude_e6: 0 });
    assert_eq!(again, None);
    assert_eq!(g.nodes.len(), 3);
    assert!(g.is_well_formed());
    g.nodes[2].id = "A".to_string();
    assert!(!g.is_well_formed());
}
