use vstd::prelude::*;
use crate::graph::{Graph, PathingOptions, lemma_path_concat, max_edge_cost};
use crate::search::{PathError, RouteResult, find_path, valid_ids, lacks_weather, is_route, is_shortest};

verus! {

/// A room and its access nodes, in order.
pub struct RoomEntry {
    pub room_id: String,
    pub nodes: Vec<usize>,
}

/// The building index: which nodes give access to each room.
pub struct Buildings {
    pub rooms: Vec<RoomEntry>,
}

impl Buildings {
    /// Each room appears once in the index.
    pub open spec fn wf(&self) -> bool {
        forall|i: int, j: int|
            0 <= i < self.rooms@.len() && 0 <= j < self.rooms@.len() && (#[trigger] self.rooms@[i]).room_id@
                == (#[trigger] self.rooms@[j]).room_id@ ==> i == j
    }

    /// Checks that each room appears once in the index.
    pub fn is_well_formed(&self) -> (r: bool)
        ensures
            r == self.wf(),
    {
        let n = self.rooms.len();
        let mut a: usize = 0;
        while a < n
            invariant
                n == self.rooms@.len(),
                a <= n,
                forall|i: int, j: int|
                    0 <= i < a && 0 <= j < a && (#[trigger] self.rooms@[i]).room_id@ == (
                    #[trigger] self.rooms@[j]).room_id@ ==> i == j,
            decreases n - a,
        {
            let mut c: usize = 0;
            while c < a
                invariant
                    n == self.rooms@.len(),
                    a < n,
                    c <= a,
                    forall|j: int| 0 <= j < c ==> (#[trigger] self.rooms@[j]).room_id@ != self.rooms@[a as int].room_id@,
                decreases a - c,
            {
                if self.rooms[c].room_id == self.rooms[a].room_id {
                    assert(self.rooms@[c as int].room_id@ == self.rooms@[a as int].room_id@);
                    return false;
                }
                c = c + 1;
            }
            a = a + 1;
        }
        true
    }
}

/// A stop of a route, given by room id or by node id.
pub enum Waypoint {
    Room(String),
    Node(String),
}

/// A failure of a route, with the index of the waypoint it concerns.
pub struct RouteError {
    pub error: PathError,
    pub waypoint: usize,
}

/// `i` is the first entry of the index for room `r`.
pub open spec fn is_first_room(b: Buildings, r: Seq<char>, i: int) -> bool {
    &&& 0 <= i < b.rooms@.len()
    &&& b.rooms@[i].room_id@ == r
    &&& forall|j: int| 0 <= j < i ==> (#[trigger] b.rooms@[j]).room_id@ != r
}

/// `i` is the first node of the graph with id `id`.
pub open spec fn is_first_node(g: Graph, id: Seq<char>, i: int) -> bool {
    &&& 0 <= i < g.len()
    &&& g.nodes@[i].id@ == id
    &&& forall|j: int| 0 <= j < i ==> (#[trigger] g.nodes@[j]).id@ != id
}

/// The candidate nodes of a waypoint: the access nodes of its room, or its node.
pub open spec fn candidates(g: Graph, b: Buildings, w: Waypoint) -> Option<Seq<usize>> {
    match w {
        Waypoint::Room(r) => if exists|i: int| 0 <= i < b.rooms@.len() && (#[trigger] b.rooms@[i]).room_id@ == r@ {
            Some(b.rooms@[choose|i: int| is_first_room(b, r@, i)].nodes@)
        } else {
            None
        },
        Waypoint::Node(id) => if exists|i: int| 0 <= i < g.len() && (#[trigger] g.nodes@[i]).id@ == id@ {
            Some(seq![(choose|i: int| is_first_node(g, id@, i)) as usize])
        } else {
            None
        },
    }
}

/// The error that resolving a waypoint without candidates gives.
pub open spec fn unknown_error(w: Waypoint) -> PathError {
    match w {
        Waypoint::Room(_) => PathError::UnknownRoom,
        Waypoint::Node(_) => PathError::UnknownNode,
    }
}

/// Maps a waypoint to its candidate nodes: the room's access nodes, in order,
/// or the single node with the given id.
pub fn resolve(waypoint: &Waypoint, buildings: &Buildings, graph: &Graph) -> (r: Result<Vec<usize>, PathError>)
    ensures
        match r {
            Ok(ids) => candidates(*graph, *buildings, *waypoint) == Some(ids@),
            Err(e) => candidates(*graph, *buildings, *waypoint) is None && e == unknown_error(*waypoint),
        },
{
    match waypoint {
        Waypoint::Room(room) => {
            let mut i: usize = 0;
            while i < buildings.rooms.len()
                invariant
                    i <= buildings.rooms@.len(),
                    *waypoint == Waypoint::Room(*room),
                    forall|j: int| 0 <= j < i ==> (#[trigger] buildings.rooms@[j]).room_id@ != room@,
                decreases buildings.rooms@.len() - i,
            {
                if buildings.rooms[i].room_id == *room {
                    proof {
                        assert(is_first_room(*buildings, room@, i as int));
                        assert(0 <= i < buildings.rooms@.len() && buildings.rooms@[i as int].room_id@ == room@);
                        let c = choose|c: int| is_first_room(*buildings, room@, c);
                        if c < i {
                            assert(buildings.rooms@[c].room_id@ != room@);
                        } else if c > i {
                            assert(buildings.rooms@[i as int].room_id@ != room@);
                        }
                    }
                    let ids = buildings.rooms[i].nodes.clone();
                    assert(ids@ =~= buildings.rooms@[i as int].nodes@);
                    return Ok(ids);
                }
                i = i + 1;
            }
            Err(PathError::UnknownRoom)
        },
        Waypoint::Node(id) => {
            let mut i: usize = 0;
            while i < graph.nodes.len()
                invariant
                    i <= graph.nodes@.len(),
                    *waypoint == Waypoint::Node(*id),
                    forall|j: int| 0 <= j < i ==> (#[trigger] graph.nodes@[j]).id@ != id@,
                decreases graph.nodes@.len() - i,
            {
                if graph.nodes[i].id == *id {
                    proof {
                        assert(is_first_node(*graph, id@, i as int));
                        assert(0 <= i < graph.nodes@.len() && graph.nodes@[i as int].id@ == id@);
                        let c = choose|c: int| is_first_node(*graph, id@, c);
                        if c < i {
                            assert(graph.nodes@[c].id@ != id@);
                        } else if c > i {
                            assert(graph.nodes@[i as int].id@ != id@);
                        }
                    }
                    let mut ids: Vec<usize> = Vec::new();
                    ids.push(i);
                    assert(ids@ =~= seq![i]);
                    return Ok(ids);
                }
                i = i + 1;
            }
            Err(PathError::UnknownNode)
        },
    }
}


/// Every waypoint has candidates, all of them nodes of the graph, the weather
/// needed is there, the first waypoint's candidates reach the second's, and
/// every candidate of each later waypoint reaches the next waypoint's.
pub open spec fn routable(g: Graph, b: Buildings, opts: PathingOptions, ws: Seq<Waypoint>) -> bool {
    &&& ws.len() >= 2
    &&& !lacks_weather(opts)
    &&& forall|k: int| 0 <= k < ws.len() ==> #[trigger] candidates(g, b, ws[k]) is Some
        && valid_ids(g, candidates(g, b, ws[k])->0)
    &&& g.reachable(candidates(g, b, ws[0])->0, candidates(g, b, ws[1])->0)
    &&& forall|k: int, x: usize|
        1 <= k < ws.len() - 1 && #[trigger] candidates(g, b, ws[k])->0.contains(x) ==> g.reachable(
            seq![x],
            candidates(g, b, ws[k + 1])->0,
        )
}

/// The first `m` waypoints are met along `path` at the positions `pos`, in order,
/// and the stretch between two consecutive positions is a least-cost path from
/// where the leg began (any candidate of the first waypoint, for the first leg)
/// to a candidate of the next waypoint.
#[verifier::opaque]
pub open spec fn visits_in_order(
    g: Graph,
    b: Buildings,
    opts: PathingOptions,
    ws: Seq<Waypoint>,
    m: int,
    path: Seq<usize>,
    pos: Seq<int>,
) -> bool {
    &&& pos.len() == m
    &&& m >= 2
    &&& pos[0] == 0
    &&& pos[m - 1] == path.len() - 1
    &&& forall|k: int| 0 <= k < m ==> 0 <= #[trigger] pos[k] < path.len() && candidates(g, b, ws[k])->0.contains(path[pos[k]])
    &&& forall|k: int|
        0 < k < m ==> pos[k - 1] <= #[trigger] pos[k] && is_shortest(
            g,
            opts,
            if k == 1 {
                candidates(g, b, ws[0])->0
            } else {
                seq![path[pos[k - 1]]]
            },
            candidates(g, b, ws[k])->0,
            g.path_cost(path.subrange(pos[k - 1], pos[k] + 1), opts),
        )
}

proof fn lemma_visits_first(g: Graph, b: Buildings, opts: PathingOptions, ws: Seq<Waypoint>, path: Seq<usize>)
    requires
        path.len() >= 1,
        candidates(g, b, ws[0])->0.contains(path[0]),
        candidates(g, b, ws[1])->0.contains(path.last()),
        is_shortest(g, opts, candidates(g, b, ws[0])->0, candidates(g, b, ws[1])->0, g.path_cost(path, opts)),
    ensures
        visits_in_order(g, b, opts, ws, 2, path, seq![0int, path.len() - 1]),
{
    reveal(visits_in_order);
    assert(path.subrange(0, path.len() as int) =~= path);
}

proof fn lemma_visits_extend(
    g: Graph,
    b: Buildings,
    opts: PathingOptions,
    ws: Seq<Waypoint>,
    k: int,
    old_path: Seq<usize>,
    leg: Seq<usize>,
    pos: Seq<int>,
)
    requires
        k >= 2,
        visits_in_order(g, b, opts, ws, k, old_path, pos),
        leg.len() >= 1,
        old_path.last() == leg[0],
        candidates(g, b, ws[k])->0.contains(leg.last()),
        is_shortest(g, opts, seq![leg[0]], candidates(g, b, ws[k])->0, g.path_cost(leg, opts)),
    ensures
        visits_in_order(g, b, opts, ws, k + 1, old_path + leg.drop_first(), pos.push(
            (old_path + leg.drop_first()).len() - 1,
        )),
{
    reveal(visits_in_order);
    let path = old_path + leg.drop_first();
    let npos = pos.push(path.len() - 1);
    let o = old_path.len() as int;
    assert(path.subrange(o - 1, path.len() as int) =~= leg);
    assert(path.last() == leg.last());
    assert forall|kk: int| 0 <= kk < k + 1 implies 0 <= #[trigger] npos[kk] < path.len()
        && candidates(g, b, ws[kk])->0.contains(path[npos[kk]]) by {
        if kk < k {
            assert(pos[kk] == npos[kk]);
            assert(path[pos[kk]] == old_path[pos[kk]]);
        }
    }
    assert forall|kk: int|
        0 < kk < k + 1 implies npos[kk - 1] <= #[trigger] npos[kk] && is_shortest(
            g,
            opts,
            if kk == 1 {
                candidates(g, b, ws[0])->0
            } else {
                seq![path[npos[kk - 1]]]
            },
            candidates(g, b, ws[kk])->0,
            g.path_cost(path.subrange(npos[kk - 1], npos[kk] + 1), opts),
        ) by {
        if kk < k {
            assert(pos[kk] == npos[kk] && pos[kk - 1] == npos[kk - 1]);
            assert(path.subrange(npos[kk - 1], npos[kk] + 1) =~= old_path.subrange(pos[kk - 1], pos[kk] + 1));
            assert(path[npos[kk - 1]] == old_path[pos[kk - 1]]);
        } else {
            assert(npos[kk - 1] == o - 1);
            assert(path[o - 1] == leg[0]);
        }
    }
}

/// The first `m` waypoints all have candidates.
pub open spec fn resolved_upto(g: Graph, b: Buildings, ws: Seq<Waypoint>, m: int) -> bool {
    forall|j: int| 0 <= j < m ==> #[trigger] candidates(g, b, ws[j]) is Some
}

/// The candidates of the first `m` waypoints are non-empty lists of nodes of the graph.
pub open spec fn valid_upto(g: Graph, b: Buildings, ws: Seq<Waypoint>, m: int) -> bool {
    forall|j: int| 0 <= j < m ==> valid_ids(g, #[trigger] candidates(g, b, ws[j])->0)
}

/// A bound under which the summed cost of the legs cannot overflow: each leg
/// costs at most `(g.len() - 1) * max_edge_cost()`.
pub open spec fn cost_fits(g: Graph, ws: Seq<Waypoint>) -> bool {
    (ws.len() - 1) * g.len() * max_edge_cost() <= u128::MAX
}

/// What a route error says of the waypoints: the waypoint it names is the first
/// at which the route fails, all waypoints before it having resolved.
pub open spec fn explains(g: Graph, b: Buildings, opts: PathingOptions, ws: Seq<Waypoint>, e: RouteError) -> bool {
    let k = e.waypoint as int;
    match e.error {
        PathError::UnknownRoom | PathError::UnknownNode => {
            &&& ws.len() >= 2
            &&& k < ws.len()
            &&& resolved_upto(g, b, ws, k)
            &&& candidates(g, b, ws[k]) is None
            &&& e.error == unknown_error(ws[k])
            &&& k >= 2 ==> valid_upto(g, b, ws, k) && !lacks_weather(opts) && g.reachable(candidates(g, b, ws[0])->0, candidates(g, b, ws[1])->0)
        },
        PathError::InvalidInput => (ws.len() < 2 && k == 0) || {
            &&& ws.len() >= 2
            &&& k + 1 < ws.len()
            &&& resolved_upto(g, b, ws, k + 2)
            &&& if k == 0 {
                !valid_ids(g, candidates(g, b, ws[0])->0) || !valid_ids(g, candidates(g, b, ws[1])->0)
            } else {
                valid_upto(g, b, ws, k + 1) && !valid_ids(g, candidates(g, b, ws[k + 1])->0) && !lacks_weather(opts)
                    && g.reachable(candidates(g, b, ws[0])->0, candidates(g, b, ws[1])->0)
            }
        },
        PathError::MissingWeatherData => {
            &&& ws.len() >= 2
            &&& k == 0
            &&& resolved_upto(g, b, ws, 2)
            &&& valid_upto(g, b, ws, 2)
            &&& lacks_weather(opts)
        },
        PathError::NoPathFound => {
            &&& k + 1 < ws.len()
            &&& resolved_upto(g, b, ws, k + 2)
            &&& valid_upto(g, b, ws, k + 2)
            &&& !lacks_weather(opts)
            &&& if k == 0 {
                !g.reachable(candidates(g, b, ws[0])->0, candidates(g, b, ws[1])->0)
            } else {
                &&& g.reachable(candidates(g, b, ws[0])->0, candidates(g, b, ws[1])->0)
                &&& exists|x: usize| candidates(g, b, ws[k])->0.contains(x) && !#[trigger] g.reachable(seq![x], candidates(g, b, ws[k + 1])->0)
            }
        },
        PathError::InternalError => !cost_fits(g, ws),
    }
}

/// Chains shortest-path searches between consecutive waypoints into one route.
/// The first leg runs from all candidates of the first waypoint; each later leg
/// runs from the node the route has reached, so that legs join at a shared node,
/// which appears once. Costs are summed; the first failing leg or waypoint
/// aborts the route. The accumulated cost overflowing is an internal error.
pub fn route(
    waypoints: &Vec<Waypoint>,
    graph: &Graph,
    buildings: &Buildings,
    options: &PathingOptions,
) -> (r: Result<RouteResult, RouteError>)
    requires
        graph.wf(),
    ensures
        waypoints@.len() < 2 ==> r is Err && r->Err_0.error == PathError::InvalidInput,
        match r {
            Ok(res) => {
                &&& waypoints@.len() >= 2
                &&& graph.is_path(res.path@)
                &&& res.cost == graph.path_cost(res.path@, *options)
                &&& candidates(*graph, *buildings, waypoints@[0])->0.contains(res.path@[0])
                &&& candidates(*graph, *buildings, waypoints@.last())->0.contains(res.path@.last())
                &&& exists|pos: Seq<int>| visits_in_order(
                    *graph,
                    *buildings,
                    *options,
                    waypoints@,
                    waypoints@.len() as int,
                    res.path@,
                    pos,
                )
                &&& waypoints@.len() == 2 ==> is_shortest(
                    *graph,
                    *options,
                    candidates(*graph, *buildings, waypoints@[0])->0,
                    candidates(*graph, *buildings, waypoints@[1])->0,
                    res.cost as int,
                )
            },
            Err(e) => explains(*graph, *buildings, *options, waypoints@, e),
        },
        routable(*graph, *buildings, *options, waypoints@) && cost_fits(*graph, waypoints@) ==> r is Ok,
{
    let len = waypoints.len();
    if len < 2 {
        return Err(RouteError { error: PathError::InvalidInput, waypoint: 0 });
    }
    let ghost g = *graph;
    let ghost b = *buildings;
    let ghost ws = waypoints@;
    let first = match resolve(&waypoints[0], buildings, graph) {
        Ok(ids) => ids,
        Err(e) => {
            return Err(RouteError { error: e, waypoint: 0 });
        },
    };
    let mut path: Vec<usize> = Vec::new();
    let mut cost: u128 = 0;
    let mut k: usize = 1;
    let ghost mut pos: Seq<int> = Seq::empty();
    while k < len
        invariant
            graph.wf(),
            g == *graph,
            b == *buildings,
            ws == waypoints@,
            len == ws.len(),
            1 <= k <= len,
            candidates(g, b, ws[0]) == Some(first@),
            k >= 2 ==> {
                &&& g.is_path(path@)
                &&& cost == g.path_cost(path@, *options)
                &&& first@.contains(path@[0])
                &&& candidates(g, b, ws[k - 1]) is Some
                &&& candidates(g, b, ws[k - 1])->0.contains(path@.last())
            },
            k == 2 ==> is_shortest(g, *options, first@, candidates(g, b, ws[1])->0, cost as int),
            k >= 2 ==> visits_in_order(g, b, *options, ws, k as int, path@, pos),
            resolved_upto(g, b, ws, k as int),
            k >= 2 ==> valid_upto(g, b, ws, k as int) && !lacks_weather(*options) && g.reachable(
                first@,
                candidates(g, b, ws[1])->0,
            ),
            cost <= (k - 1) * (g.len() - 1) * max_edge_cost(),
        decreases len - k,
    {
        let next = match resolve(&waypoints[k], buildings, graph) {
            Ok(ids) => ids,
            Err(e) => {
                return Err(RouteError { error: e, waypoint: k });
            },
        };
        proof {
            assert forall|j: int| 0 <= j < k + 1 implies #[trigger] candidates(g, b, ws[j]) is Some by {
                if j < k {
                    assert(resolved_upto(g, b, ws, k as int));
                }
            }
        }
        let mut from: Vec<usize> = Vec::new();
        if k == 1 {
            from = first.clone();
            assert(from@ =~= first@);
        } else {
            from.push(path[path.len() - 1]);
            assert(from@ =~= seq![path@.last()]);
            assert(path@[path@.len() - 1] < g.len());
            assert(valid_ids(g, from@));
        }
        let leg = match find_path(&from, &next, graph, options) {
            Ok(leg) => leg,
            Err(e) => {
                proof {
                    if routable(g, b, *options, ws) {
                        assert(candidates(g, b, ws[k as int]) is Some && valid_ids(g, candidates(g, b, ws[k as int])->0));
                        if k > 1 {
                            assert(candidates(g, b, ws[k - 1])->0.contains(path@.last()));
                        }
                    }
                    if k > 1 {
                        assert(valid_ids(g, from@));
                    }
                    if e != PathError::InvalidInput {
                        assert forall|j: int| 0 <= j < k + 1 implies valid_ids(g, #[trigger] candidates(g, b, ws[j])->0) by {
                            if j < k && k >= 2 {
                                assert(valid_upto(g, b, ws, k as int));
                            }
                        }
                    }
                    if k > 1 && e == PathError::NoPathFound {
                        assert(candidates(g, b, ws[k - 1])->0.contains(path@.last()));
                        assert(!g.reachable(seq![path@.last()], candidates(g, b, ws[k - 1 + 1])->0));
                    }
                    let kk = (k - 1) as int;
                    assert(resolved_upto(g, b, ws, kk + 2));
                    if e == PathError::InvalidInput {
                        if k == 1 {
                            assert(!valid_ids(g, candidates(g, b, ws[0])->0) || !valid_ids(g, candidates(g, b, ws[1])->0));
                        } else {
                            assert(valid_upto(g, b, ws, kk + 1));
                            assert(!valid_ids(g, candidates(g, b, ws[kk + 1])->0));
                        }
                    } else {
                        assert(valid_upto(g, b, ws, kk + 2));
                        if e == PathError::MissingWeatherData {
                            assert(kk == 0);
                        }
                    }
                    assert(explains(g, b, *options, ws, RouteError { error: e, waypoint: (k - 1) as usize }));
                }
                return Err(RouteError { error: e, waypoint: k - 1 });
            },
        };
        if k == 1 {
            path = leg.path;
            cost = leg.cost;
            proof {
                pos = seq![0int, path@.len() - 1];
                lemma_visits_first(g, b, *options, ws, path@);
            }
        } else {
            let ghost old_path = path@;
            let mut j: usize = 1;
            while j < leg.path.len()
                invariant
                    1 <= j <= leg.path@.len(),
                    path@ == old_path + leg.path@.subrange(1, j as int),
                decreases leg.path@.len() - j,
            {
                path.push(leg.path[j]);
                j = j + 1;
                assert(path@ =~= old_path + leg.path@.subrange(1, j as int));
            }
            proof {
                assert(leg.path@.subrange(1, leg.path@.len() as int) =~= leg.path@.drop_first());
                assert(from@.contains(leg.path@[0]));
                lemma_path_concat(g, old_path, leg.path@, *options);
                assert(path@[0] == old_path[0]);
                lemma_visits_extend(g, b, *options, ws, k as int, old_path, leg.path@, pos);
                pos = pos.push(path@.len() - 1);
            }
            let ghost old_cost = cost;
            match cost.checked_add(leg.cost) {
                Some(c) => {
                    cost = c;
                },
                None => {
                    proof {
                        let n = g.len() as int;
                        let m = max_edge_cost();
                        assert(n >= 1);
                        assert((len - 1) * n * m > u128::MAX) by (nonlinear_arith)
                            requires
                                cost + leg.cost > u128::MAX,
                                cost <= (k - 1) * (n - 1) * m,
                                leg.cost <= (n - 1) * m,
                                1 <= k <= len - 1,
                                n >= 1,
                                m >= 0;
                    }
                    return Err(RouteError { error: PathError::InternalError, waypoint: k - 1 });
                },
            }
        }
        proof {
            let n = g.len() as int;
            let m = max_edge_cost();
            assert(cost <= k * (n - 1) * m) by (nonlinear_arith)
                requires
                    k == 1 ==> cost <= (n - 1) * m,
                    k >= 2 ==> cost <= (k - 1) * (n - 1) * m + (n - 1) * m,
                    k >= 1,
                    n >= 1,
                    m >= 0;
            assert forall|j: int| 0 <= j < k + 1 implies valid_ids(g, #[trigger] candidates(g, b, ws[j])->0) by {
                if j < k && k >= 2 {
                    assert(valid_upto(g, b, ws, k as int));
                }
            }
        }
        k = k + 1;
    }
    Ok(RouteResult { path, cost })
}


/// Two results that are each a least-cost path from `starts` to `ends` cost the
/// same: a route between two waypoints costs what a direct search between their
/// candidate nodes costs.
pub proof fn lemma_shortest_cost_unique(
    g: Graph,
    opts: PathingOptions,
    starts: Seq<usize>,
    ends: Seq<usize>,
    a: RouteResult,
    b: RouteResult,
)
    requires
        is_route(g, opts, starts, ends, a),
        is_shortest(g, opts, starts, ends, a.cost as int),
        is_route(g, opts, starts, ends, b),
        is_shortest(g, opts, starts, ends, b.cost as int),
    ensures
        a.cost == b.cost,
{
    assert(g.is_path(b.path@));
    assert(g.is_path(a.path@));
}

} // verus!
