use vstd::prelude::*;
use crate::graph::{Coordinate, Edge, Floor, Graph};
use crate::route::{Buildings, RoomEntry};

verus! {

fn test_floor() -> (f: Floor)
    ensures
        f.building_code@ == "test"@,
        f.level@ == "1"@,
{
    Floor { building_code: String::from_str("test"), level: String::from_str("1") }
}

/// A two-node graph: `A` (room1) and `B` (room2) on floor "1" of building
/// "test", at latitudes 0 and 1, joined in both directions by indoor edges of
/// distance 100 that change no floor.
pub fn create_test_graph() -> (g: Graph)
    ensures
        g.wf(),
        g.len() == 2,
        g.nodes@[0].id@ == "A"@,
        g.nodes@[1].id@ == "B"@,
        g.nodes@[0].room_id@ == "room1"@,
        g.nodes@[1].room_id@ == "room2"@,
        forall|u: int| 0 <= u < 2 ==> (#[trigger] g.nodes@[u]).floor.building_code@ == "test"@
            && g.nodes@[u].floor.level@ == "1"@,
        g.nodes@[0].coordinate == (Coordinate { latitude_e6: 0, longitude_e6: 0 }),
        g.nodes@[1].coordinate == (Coordinate { latitude_e6: 1_000_000, longitude_e6: 0 }),
        g.linked(0, 1),
        g.link(0, 1) == (Edge { to: 1, dist: 100, outdoor: false, to_floor_info: None }),
        g.linked(1, 0),
        g.link(1, 0) == (Edge { to: 0, dist: 100, outdoor: false, to_floor_info: None }),
        forall|v: int| v != 1 ==> !#[trigger] g.linked(0, v),
        forall|v: int| v != 0 ==> !#[trigger] g.linked(1, v),
{
    proof {
        reveal_strlit("A");
        reveal_strlit("B");
    }
    let mut g = Graph::new();
    let a = g.add_node(
        String::from_str("A"),
        String::from_str("room1"),
        test_floor(),
        Coordinate { latitude_e6: 0, longitude_e6: 0 },
    ).unwrap();
    assert(g.nodes@[0].id@ == "A"@);
    assert("A"@[0] != "B"@[0]);
    let b = g.add_node(
        String::from_str("B"),
        String::from_str("room2"),
        test_floor(),
        Coordinate { latitude_e6: 1_000_000, longitude_e6: 0 },
    ).unwrap();
    let ghost g0 = g;
    assert(g0.adj(0).len() == 0 && g0.adj(1).len() == 0);
    g.add_edge(a, Edge { to: b, dist: 100, outdoor: false, to_floor_info: None });
    let ghost g1 = g;
    g.add_edge(b, Edge { to: a, dist: 100, outdoor: false, to_floor_info: None });
    assert forall|v: int| v != 1 implies !#[trigger] g.linked(0, v) by {
        assert(g.adj(0) == g1.adj(0));
        assert(g1.linked(0, v) == g0.linked(0, v));
    }
    assert forall|v: int| v != 0 implies !#[trigger] g.linked(1, v) by {
        assert(g1.adj(1) == g0.adj(1));
        assert(g.linked(1, v) == g1.linked(1, v));
    }
    g
}

/// The index of the test graph: room1 is reached at `A`, room2 at `B`.
pub fn create_test_buildings() -> (b: Buildings)
    ensures
        b.wf(),
        b.rooms@.len() == 2,
        b.rooms@[0].room_id@ == "room1"@,
        b.rooms@[0].nodes@ == seq![0usize],
        b.rooms@[1].room_id@ == "room2"@,
        b.rooms@[1].nodes@ == seq![1usize],
{
    proof {
        reveal_strlit("room1");
        reveal_strlit("room2");
        assert("room1"@[4] != "room2"@[4]);
    }
    let mut room1: Vec<usize> = Vec::new();
    room1.push(0);
    let mut room2: Vec<usize> = Vec::new();
    room2.push(1);
    let mut rooms: Vec<RoomEntry> = Vec::new();
    rooms.push(RoomEntry { room_id: String::from_str("room1"), nodes: room1 });
    rooms.push(RoomEntry { room_id: String::from_str("room2"), nodes: room2 });
    Buildings { rooms }
}

} // verus!
