use find_path::fixtures::{create_test_buildings, create_test_graph};
use find_path::graph::{Coordinate, Edge, Floor, Graph, PathPreference, PathingOptions};
use find_path::route::{resolve, route, Buildings, RoomEntry, Waypoint};
use find_path::search::{find_path, PathError};
use find_path::route::RouteError;

fn floor() -> Floor {
    Floor { building_code: "building".to_string(), level: "1".to_string() }
}

fn chain_graph() -> Graph {
    let mut g = Graph::new();
    for (i, (id, room)) in [("A", "room1"), ("B", "outside1"), ("C", "room2")].iter().enumerate() {
        g.add_node(id.to_string(), room.to_string(), floor(), Coordinate { latitude_e6: i as i64, longitude_e6: 0 }).unwrap();
    }
    for (from, to) in [(0, 1), (1, 0), (1, 2), (2, 1)] {
        g.add_edge(from, Edge { to, dist: 100, outdoor: true, to_floor_info: None });
    }
    g
}

fn chain_buildings() -> Buildings {
    Buildings {
        rooms: vec![
            RoomEntry { room_id: "room1".to_string(), nodes: vec![0] },
            RoomEntry { room_id: "room2".to_string(), nodes: vec![2] },
        ],
    }
}

fn balanced() -> PathingOptions {
    PathingOptions { preference: PathPreference::Balanced, weather_info: None }
}

fn room(r: &str) -> Waypoint {
    Waypoint::Room(r.to_string())
}

#[test]
fn room_waypoints_match_direct_search() {
    let g = chain_graph();
    let b = chain_buildings();
    let routed = route(&vec![room("room1"), room("room2")], &g, &b, &balanced()).ok().unwrap();
    let direct = find_path(&vec![0], &vec![2], &g, &balanced()).unwrap();
    assert_eq!(routed.path, direct.path);
    assert_eq!(routed.cost, direct.cost);
    assert_eq!(routed.path, vec![0, 1, 2]);
    assert_eq!(routed.cost, 200_000);
}

#[test]
fn three_waypoints_join_at_shared_node() {
    let g = chain_graph();
    let b = chain_buildings();
    let ws = vec![room("room1"), Waypoint::Node("C".to_string()), Waypoint::Node("A".to_string())];
    let r = route(&ws, &g, &b, &balanced()).ok().unwrap();
    assert_eq!(r.path, vec![0, 1, 2, 1, 0]);
    assert_eq!(r.cost, 400_000);
}

#[test]
fn resolve_waypoints() {
    let g = chain_graph();
    let b = chain_buildings();
    assert_eq!(resolve(&room("room2"), &b, &g).unwrap(), vec![2]);
    assert_eq!(resolve(&Waypoint::Node("B".to_string()), &b, &g).unwrap(), vec![1]);
    assert_eq!(resolve(&room("lobby"), &b, &g).err(), Some(PathError::UnknownRoom));
    assert_eq!(resolve(&Waypoint::Node("Z".to_string()), &b, &g).err(), Some(PathError::UnknownNode));
}

#[test]
fn route_errors_name_the_waypoint() {
    let g = chain_graph();
    let b = chain_buildings();
    let e = route(&vec![room("room1")], &g, &b, &balanced()).err().unwrap();
    assert_eq!(e.error, PathError::InvalidInput);
    let e = route(&vec![room("room1"), room("room2"), room("attic")], &g, &b, &balanced()).err().unwrap();
    assert_eq!(e.error, PathError::UnknownRoom);
    assert_eq!(e.waypoint, 2);
    let e = route(&vec![Waypoint::Node("Q".to_string()), room("room2")], &g, &b, &balanced()).err().unwrap();
    assert_eq!(e.error, PathError::UnknownNode);
    assert_eq!(e.waypoint, 0);
    let weather = PathingOptions { preference: PathPreference::Weather, weather_info: None };
    let e = route(&vec![room("room1"), room("room2")], &g, &b, &weather).err().unwrap();
    assert_eq!(e.error, PathError::MissingWeatherData);
}

#[test]
fn route_with_unreachable_leg() {
    let mut g = chain_graph();
    let d = g.add_node("D".to_string(), "island".to_string(), floor(), Coordinate { latitude_e6: 0, longitude_e6: 0 }).unwrap();
    let mut b = chain_buildings();
    b.rooms.push(RoomEntry { room_id: "island".to_string(), nodes: vec![d] });
    b.rooms.push(RoomEntry { room_id: "empty".to_string(), nodes: vec![] });
    let e = route(&vec![room("room1"), room("room2"), room("island")], &g, &b, &balanced()).err().unwrap();
    assert_eq!(e.error, PathError::NoPathFound);
    assert_eq!(e.waypoint, 1);
    let e = route(&vec![room("room1"), room("empty")], &g, &b, &balanced()).err().unwrap();
    assert_eq!(e.error, PathError::InvalidInput);
    assert_eq!(e.waypoint, 0);
}

#[test]
fn room_with_several_entrances_takes_the_nearest() {
    let g = chain_graph();
    let b = Buildings {
        rooms: vec![
            RoomEntry { room_id: "hall".to_string(), nodes: vec![0, 1] },
            RoomEntry { room_id: "room2".to_string(), nodes: vec![2] },
        ],
    };
    let r = route(&vec![room("hall"), room("room2")], &g, &b, &balanced()).ok().unwrap();
    assert_eq!(r.path, vec![1, 2]);
    assert_eq!(r.cost, 100_000);
}

#[test]
fn fixture_rooms_route() {
    let g = create_test_graph();
    let b = create_test_buildings();
    let r = route(&vec![room("room1"), room("room2")], &g, &b, &balanced()).ok().unwrap();
    assert_eq!(g.path_ids(&r.path), vec!["A", "B"]);
    assert_eq!(r.cost, 100_000);
}

fn fixture_route(ws: Vec<Waypoint>) -> Result<find_path::search::RouteResult, RouteError> {
    route(&ws, &create_test_graph(), &create_test_buildings(), &balanced())
}

#[test]
fn fixture_room_route_equals_direct_search() {
    let g = create_test_graph();
    let r = fixture_route(vec![room("room1"), room("room2")]).ok().unwrap();
    let d = find_path(&vec![0], &vec![1], &g, &balanced()).unwrap();
    assert_eq!(r.path, d.path);
    assert_eq!(r.cost, d.cost);
    assert_eq!(r.cost, 100_000);
}

#[test]
fn fixture_there_and_back() {
    let g = create_test_graph();
    let r = fixture_route(vec![room("room1"), room("room2"), room("room1")]).ok().unwrap();
    assert_eq!(g.path_ids(&r.path), vec!["A", "B", "A"]);
    assert_eq!(r.cost, 200_000);
}

#[test]
fn fixture_unknown_room_names_its_waypoint() {
    let e = fixture_route(vec![room("room1"), room("room3")]).err().unwrap();
    assert_eq!(e.error, PathError::UnknownRoom);
    assert_eq!(e.waypoint, 1);
    let e = fixture_route(vec![room("room1")]).err().unwrap();
    assert_eq!(e.error, PathError::InvalidInput);
}

#[test]
fn single_node_room_acts_like_its_node() {
    let by_room = fixture_route(vec![room("room1"), room("room2")]).ok().unwrap();
    let by_node = fixture_route(vec![Waypoint::Node("A".to_string()), Waypoint::Node("B".to_string())]).ok().unwrap();
    assert_eq!(by_room.path, by_node.path);
    assert_eq!(by_room.cost, by_node.cost);
}

#[test]
fn buildings_well_formedness() {
    assert!(create_test_buildings().is_well_formed());
    let mut b = create_test_buildings();
    b.rooms.push(RoomEntry { room_id: "room1".to_string(), nodes: vec![1] });
    assert!(!b.is_well_formed());
}
