use vstd::prelude::*;
use crate::weather::{
    WeatherInfo, weather_multiplier, get_weather_multiplier, MULTIPLIER_SCALE, UNFAVORABLE_MULTIPLIER,
};

verus! {

/// A horizontal plane: building code and level, both opaque strings.
pub struct Floor {
    pub building_code: String,
    pub level: String,
}

/// A position in millionths of a degree.
pub struct Coordinate {
    pub latitude_e6: i64,
    pub longitude_e6: i64,
}

/// A directed link to the node at index `to`.
pub struct Edge {
    pub to: usize,
    pub dist: u32,
    /// Whether the link is classified as outdoor, which weather may bias.
    pub outdoor: bool,
    /// Set when the link changes floor; it adds no cost by itself.
    pub to_floor_info: Option<Floor>,
}

pub struct Node {
    pub id: String,
    pub room_id: String,
    pub floor: Floor,
    pub coordinate: Coordinate,
    pub neighbors: Vec<Edge>,
}

/// Nodes are addressed by their index in `nodes`.
pub struct Graph {
    pub nodes: Vec<Node>,
}

pub enum PathPreference {
    Balanced,
    Weather,
}

pub struct PathingOptions {
    pub preference: PathPreference,
    pub weather_info: Option<WeatherInfo>,
}

/// The largest effective cost of one edge: the largest distance times the
/// largest multiplier.
pub open spec fn max_edge_cost() -> int {
    0xffff_ffff * 1_000_000int
}

impl Graph {
    pub open spec fn len(&self) -> nat {
        self.nodes@.len()
    }

    pub open spec fn adj(&self, u: int) -> Seq<Edge> {
        self.nodes@[u].neighbors@
    }

    /// Node ids are unique, every edge leads to a node of the graph, and each
    /// node has at most one edge to any other node: the adjacency of a node is a map.
    pub open spec fn wf(&self) -> bool {
        &&& forall|u: int, v: int|
            0 <= u < self.len() && 0 <= v < self.len() && (#[trigger] self.nodes@[u]).id@ == (
            #[trigger] self.nodes@[v]).id@ ==> u == v
        &&& forall|u: int, i: int|
            0 <= u < self.len() && 0 <= i < self.adj(u).len() ==> (#[trigger] self.adj(u)[i]).to
                < self.len()
        &&& forall|u: int, i: int, j: int|
            0 <= u < self.len() && 0 <= i < self.adj(u).len() && 0 <= j < self.adj(u).len()
                && (#[trigger] self.adj(u)[i]).to == (#[trigger] self.adj(u)[j]).to ==> i == j
    }

    /// There is an edge from `u` to `v`.
    pub open spec fn linked(&self, u: int, v: int) -> bool {
        0 <= u < self.len() && exists|i: int|
            0 <= i < self.adj(u).len() && (#[trigger] self.adj(u)[i]).to == v
    }

    /// The edge from `u` to `v`, where `linked(u, v)`.
    pub open spec fn link(&self, u: int, v: int) -> Edge {
        self.adj(u)[choose|i: int| 0 <= i < self.adj(u).len() && (#[trigger] self.adj(u)[i]).to == v]
    }

    /// A non-empty sequence of nodes of the graph, each linked to the next.
    pub open spec fn is_path(&self, p: Seq<usize>) -> bool {
        &&& p.len() >= 1
        &&& forall|k: int| 0 <= k < p.len() ==> (#[trigger] p[k]) < self.len()
        &&& forall|k: int| 0 <= k < p.len() - 1 ==> self.linked(#[trigger] p[k] as int, p[k + 1] as int)
    }

    /// The sum of the effective costs of the edges along `p`.
    pub open spec fn path_cost(&self, p: Seq<usize>, opts: PathingOptions) -> int
        decreases p.len(),
    {
        if p.len() <= 1 {
            0
        } else {
            edge_cost(self.link(p[0] as int, p[1] as int), opts) + self.path_cost(p.drop_first(), opts)
        }
    }

    /// Some path leads from a node of `starts` to a node of `ends`.
    pub open spec fn reachable(&self, starts: Seq<usize>, ends: Seq<usize>) -> bool {
        exists|p: Seq<usize>|
            #[trigger] self.is_path(p) && starts.contains(p[0]) && ends.contains(p.last())
    }

    pub fn new() -> (g: Graph)
        ensures
            g.wf(),
            g.len() == 0,
    {
        Graph { nodes: Vec::new() }
    }

    /// Some node of the graph has the id `id`.
    pub open spec fn has_id(&self, id: Seq<char>) -> bool {
        exists|u: int| 0 <= u < self.len() && (#[trigger] self.nodes@[u]).id@ == id
    }

    /// Adds a node without edges and returns its index, or returns `None`
    /// and leaves the graph unchanged where a node already has that id.
    pub fn add_node(&mut self, id: String, room_id: String, floor: Floor, coordinate: Coordinate) -> (r: Option<usize>)
        requires
            old(self).wf(),
            old(self).len() < usize::MAX,
        ensures
            final(self).wf(),
            r is None <==> old(self).has_id(id@),
            r is None ==> *final(self) == *old(self),
            r matches Some(i) ==> {
                &&& i == old(self).len()
                &&& final(self).nodes@ == old(self).nodes@.push(
                    Node { id, room_id, floor, coordinate, neighbors: final(self).nodes@[i as int].neighbors },
                )
                &&& final(self).adj(i as int).len() == 0
            },
    {
        let r = self.nodes.len();
        let mut u: usize = 0;
        while u < r
            invariant
                *self == *old(self),
                self.wf(),
                r == self.nodes@.len(),
                u <= r,
                forall|v: int| 0 <= v < u ==> (#[trigger] self.nodes@[v]).id@ != id@,
            decreases r - u,
        {
            if self.nodes[u].id == id {
                assert(self.nodes@[u as int].id@ == id@);
                return None;
            }
            u = u + 1;
        }
        self.nodes.push(Node { id, room_id, floor, coordinate, neighbors: Vec::new() });
        proof {
            assert(self.adj(r as int).len() == 0);
            assert forall|u: int| 0 <= u < r implies self.adj(u) == old(self).adj(u) by {}
            assert forall|u: int, v: int|
                0 <= u < self.len() && 0 <= v < self.len() && (#[trigger] self.nodes@[u]).id@ == (
                #[trigger] self.nodes@[v]).id@ implies u == v by {
                if u < r && v < r {
                    assert(old(self).nodes@[u] == self.nodes@[u] && old(self).nodes@[v] == self.nodes@[v]);
                }
            }
        }
        Some(r)
    }

    /// Sets the edge from `from` to `edge.to`, replacing any edge between the two.
    pub fn add_edge(&mut self, from: usize, edge: Edge)
        requires
            old(self).wf(),
            from < old(self).len(),
            edge.to < old(self).len(),
        ensures
            final(self).wf(),
            final(self).len() == old(self).len(),
            forall|u: int| 0 <= u < old(self).len() ==> {
                &&& (#[trigger] final(self).nodes@[u]).id == old(self).nodes@[u].id
                &&& final(self).nodes@[u].room_id == old(self).nodes@[u].room_id
                &&& final(self).nodes@[u].floor == old(self).nodes@[u].floor
                &&& final(self).nodes@[u].coordinate == old(self).nodes@[u].coordinate
            },
            forall|u: int| 0 <= u < old(self).len() && u != from ==> #[trigger] final(self).adj(u)
                == old(self).adj(u),
            final(self).linked(from as int, edge.to as int),
            final(self).link(from as int, edge.to as int) == edge,
            forall|v: int| v != edge.to ==> (#[trigger] final(self).linked(from as int, v)
                <==> old(self).linked(from as int, v)),
    {
        let ghost g0 = *self;
        let mut node = self.nodes.remove(from);
        let n = node.neighbors.len();
        let mut i: usize = 0;
        while i < n
            invariant
                n == node.neighbors.len(),
                node.neighbors@ == g0.adj(from as int),
                i <= n,
                forall|j: int| 0 <= j < i ==> (#[trigger] node.neighbors@[j]).to != edge.to,
            ensures
                i <= n,
                i < n ==> node.neighbors@[i as int].to == edge.to,
                forall|j: int| 0 <= j < i ==> (#[trigger] node.neighbors@[j]).to != edge.to,
            decreases n - i,
        {
            if node.neighbors[i].to == edge.to {
                break;
            }
            i = i + 1;
        }
        let ghost a0 = node.neighbors@;
        if i < n {
            node.neighbors.set(i, edge);
        } else {
            node.neighbors.push(edge);
        }
        let ghost a1 = node.neighbors@;
        self.nodes.insert(from, node);
        proof {
            assert(self.nodes@ =~= g0.nodes@.update(from as int, node));
            assert(self.adj(from as int) == a1);
            let k = if i < n { i as int } else { n as int };
            assert(a1[k] == edge);
            assert(forall|j: int| 0 <= j < a1.len() && j != k ==> a1[j] == a0[j]);
            assert forall|v: int| v != edge.to implies (#[trigger] self.linked(from as int, v)
                <==> g0.linked(from as int, v)) by {
                if self.linked(from as int, v) {
                    let j = choose|j: int| 0 <= j < a1.len() && (#[trigger] a1[j]).to == v;
                    assert(a0[j].to == v);
                }
                if g0.linked(from as int, v) {
                    let j = choose|j: int| 0 <= j < a0.len() && (#[trigger] a0[j]).to == v;
                    assert(a1[j].to == v);
                }
            }
            assert(a1[k].to == edge.to);
            assert forall|u: int| 0 <= u < self.len() && u != from implies #[trigger] self.adj(u)
                == g0.adj(u) by {}
            assert forall|x: int, y: int|
                0 <= x < a1.len() && 0 <= y < a1.len() && (#[trigger] a1[x]).to == (#[trigger] a1[y]).to
                implies x == y by {
                if x != k && y != k {
                    assert(g0.adj(from as int)[x].to == g0.adj(from as int)[y].to);
                } else if x != k {
                    assert(a0[x].to == edge.to);
                    assert(g0.adj(from as int)[x].to == g0.adj(from as int)[k].to);
                } else if y != k {
                    assert(a0[y].to == edge.to);
                    assert(g0.adj(from as int)[y].to == g0.adj(from as int)[k].to);
                }
            }
            assert forall|u: int| 0 <= u < self.len() implies (#[trigger] self.nodes@[u]).id == g0.nodes@[u].id by {}
            assert(self.wf());
            assert(self.linked(from as int, edge.to as int));
            let c = choose|j: int| 0 <= j < a1.len() && (#[trigger] a1[j]).to == edge.to;
            if c != k {
                assert(a0[c].to == edge.to);
                if i < n {
                    assert(a0[k].to == edge.to);
                    assert(g0.adj(from as int)[k].to == g0.adj(from as int)[c].to);
                }
            }
        }
    }

    /// Checks that every edge leads to a node of the graph and that no node has
    /// two edges to the same node.
    pub fn is_well_formed(&self) -> (r: bool)
        ensures
            r == self.wf(),
    {
        let n = self.nodes.len();
        let mut a: usize = 0;
        while a < n
            invariant
                n == self.len(),
                a <= n,
                forall|u: int, v: int|
                    0 <= u < a && 0 <= v < a && (#[trigger] self.nodes@[u]).id@ == (#[trigger] self.nodes@[v]).id@
                        ==> u == v,
            decreases n - a,
        {
            let mut c: usize = 0;
            while c < a
                invariant
                    n == self.len(),
                    a < n,
                    c <= a,
                    forall|v: int| 0 <= v < c ==> (#[trigger] self.nodes@[v]).id@ != self.nodes@[a as int].id@,
                decreases a - c,
            {
                if self.nodes[c].id == self.nodes[a].id {
                    assert(self.nodes@[c as int].id@ == self.nodes@[a as int].id@);
                    return false;
                }
                c = c + 1;
            }
            a = a + 1;
        }
        let mut u: usize = 0;
        while u < n
            invariant
                n == self.len(),
                u <= n,
                forall|u: int, v: int|
                    0 <= u < n && 0 <= v < n && (#[trigger] self.nodes@[u]).id@ == (#[trigger] self.nodes@[v]).id@
                        ==> u == v,
                forall|w: int, i: int|
                    0 <= w < u && 0 <= i < self.adj(w).len() ==> (#[trigger] self.adj(w)[i]).to < n,
                forall|w: int, i: int, j: int|
                    0 <= w < u && 0 <= i < self.adj(w).len() && 0 <= j < self.adj(w).len()
                        && (#[trigger] self.adj(w)[i]).to == (#[trigger] self.adj(w)[j]).to ==> i == j,
            decreases n - u,
        {
            let adj = &self.nodes[u].neighbors;
            assert(adj@ == self.adj(u as int));
            let mut i: usize = 0;
            while i < adj.len()
                invariant
                    adj@ == self.adj(u as int),
                    n == self.len(),
                    u < n,
                    i <= adj@.len(),
                    forall|a: int| 0 <= a < i ==> (#[trigger] adj@[a]).to < n,
                    forall|a: int, c: int|
                        0 <= a < i && 0 <= c < i && (#[trigger] adj@[a]).to == (#[trigger] adj@[c]).to ==> a == c,
                decreases adj@.len() - i,
            {
                if adj[i].to >= n {
                    assert(self.adj(u as int)[i as int].to >= n);
                    return false;
                }
                let mut j: usize = 0;
                while j < i
                    invariant
                        adj@ == self.adj(u as int),
                        n == self.len(),
                        u < n,
                        i < adj@.len(),
                        j <= i,
                        forall|c: int| 0 <= c < j ==> (#[trigger] adj@[c]).to != adj@[i as int].to,
                    decreases i - j,
                {
                    if adj[j].to == adj[i].to {
                        assert(self.adj(u as int)[j as int].to == self.adj(u as int)[i as int].to);
                        return false;
                    }
                    j = j + 1;
                }
                i = i + 1;
            }
            u = u + 1;
        }
        true
    }

    /// The ids of the nodes along a path.
    pub fn path_ids(&self, path: &Vec<usize>) -> (r: Vec<String>)
        requires
            forall|k: int| 0 <= k < path@.len() ==> (#[trigger] path@[k]) < self.len(),
        ensures
            r@.len() == path@.len(),
            forall|k: int| 0 <= k < path@.len() ==> (#[trigger] r@[k])@ == self.nodes@[path@[k] as int].id@,
    {
        let mut r: Vec<String> = Vec::new();
        let mut k: usize = 0;
        while k < path.len()
            invariant
                k <= path@.len(),
                r@.len() == k,
                forall|k: int| 0 <= k < path@.len() ==> (#[trigger] path@[k]) < self.len(),
                forall|j: int| 0 <= j < k ==> (#[trigger] r@[j])@ == self.nodes@[path@[j] as int].id@,
            decreases path@.len() - k,
        {
            r.push(self.nodes[path[k]].id.clone());
            k = k + 1;
        }
        r
    }
}

/// Dropping the first node of a path of two or more nodes leaves a path.
pub proof fn lemma_path_drop_first(g: Graph, p: Seq<usize>)
    requires
        g.is_path(p),
        p.len() > 1,
    ensures
        g.is_path(p.drop_first()),
{
    let q = p.drop_first();
    assert forall|k: int| 0 <= k < q.len() - 1 implies g.linked(#[trigger] q[k] as int, q[k + 1] as int) by {
        assert(q[k] == p[k + 1]);
    }
    assert forall|k: int| 0 <= k < q.len() implies (#[trigger] q[k]) < g.len() by {
        assert(q[k] == p[k + 1]);
    }
}

/// Joining a path that ends where a second one starts gives a path whose cost
/// is the sum of the two costs.
pub proof fn lemma_path_concat(g: Graph, p: Seq<usize>, q: Seq<usize>, opts: PathingOptions)
    requires
        g.is_path(p),
        g.is_path(q),
        p.last() == q[0],
    ensures
        g.is_path(p + q.drop_first()),
        (p + q.drop_first()).last() == q.last(),
        g.path_cost(p + q.drop_first(), opts) == g.path_cost(p, opts) + g.path_cost(q, opts),
    decreases p.len(),
{
    let j = p + q.drop_first();
    if p.len() == 1 {
        assert(j =~= q);
    } else {
        lemma_path_drop_first(g, p);
        lemma_path_concat(g, p.drop_first(), q, opts);
        assert(j.drop_first() =~= p.drop_first() + q.drop_first());
        assert(j[0] == p[0] && j[1] == p[1]);
        assert forall|k: int| 0 <= k < j.len() - 1 implies g.linked(#[trigger] j[k] as int, j[k + 1] as int) by {
            if k > 0 {
                assert(j[k] == j.drop_first()[k - 1]);
                assert(j[k + 1] == j.drop_first()[k]);
            }
        }
        assert forall|k: int| 0 <= k < j.len() implies (#[trigger] j[k]) < g.len() by {
            if k > 0 {
                assert(j[k] == j.drop_first()[k - 1]);
            }
        }
        if q.len() > 1 {
            assert(j.last() == q.drop_first().last());
        }
    }
}

/// No path has negative cost.
pub proof fn lemma_path_cost_nonneg(g: Graph, p: Seq<usize>, opts: PathingOptions)
    ensures
        g.path_cost(p, opts) >= 0,
    decreases p.len(),
{
    if p.len() > 1 {
        lemma_edge_cost_nonneg(g.link(p[0] as int, p[1] as int), opts);
        lemma_path_cost_nonneg(g, p.drop_first(), opts);
    }
}

pub proof fn lemma_edge_cost_nonneg(e: Edge, opts: PathingOptions)
    ensures
        edge_cost(e, opts) >= 0,
{
    let d = e.dist as int;
    let f = edge_factor(e, opts);
    assert(f >= 0);
    assert(d * f >= 0) by (nonlinear_arith)
        requires d >= 0, f >= 0;
}

/// Extending a path by one node adds the cost of the last edge.
pub proof fn lemma_path_push(g: Graph, p: Seq<usize>, x: usize, opts: PathingOptions)
    requires
        p.len() >= 1,
    ensures
        g.path_cost(p.push(x), opts) == g.path_cost(p, opts) + edge_cost(g.link(p.last() as int, x as int), opts),
    decreases p.len(),
{
    let q = p.push(x);
    if p.len() == 1 {
        assert(q.drop_first() =~= seq![x]);
        assert(q[0] == p[0] && q[1] == x);
        assert(g.path_cost(seq![x], opts) == 0);
    } else {
        assert(q.drop_first() =~= p.drop_first().push(x));
        assert(q[0] == p[0] && q[1] == p[1]);
        assert(p.drop_first().last() == p.last());
        lemma_path_push(g, p.drop_first(), x, opts);
    }
}

/// A non-empty prefix of a path is a path that costs no more than the whole.
pub proof fn lemma_path_prefix(g: Graph, p: Seq<usize>, k: int, opts: PathingOptions)
    requires
        g.is_path(p),
        1 <= k <= p.len(),
    ensures
        g.is_path(p.subrange(0, k)),
        g.path_cost(p.subrange(0, k), opts) <= g.path_cost(p, opts),
    decreases p.len() - k,
{
    let q = p.subrange(0, k);
    assert forall|i: int| 0 <= i < q.len() - 1 implies g.linked(#[trigger] q[i] as int, q[i + 1] as int) by {
        assert(q[i] == p[i] && q[i + 1] == p[i + 1]);
    }
    assert forall|i: int| 0 <= i < q.len() implies (#[trigger] q[i]) < g.len() by {
        assert(q[i] == p[i]);
    }
    if k == p.len() {
        assert(q =~= p);
    } else {
        lemma_path_prefix(g, p, k + 1, opts);
        assert(p.subrange(0, k + 1) =~= q.push(p[k]));
        lemma_path_push(g, q, p[k], opts);
        lemma_edge_cost_nonneg(g.link(q.last() as int, p[k] as int), opts);
    }
}

/// Some edge along `p` is outdoor and of positive distance.
pub open spec fn has_outdoor_leg(g: Graph, p: Seq<usize>) -> bool {
    exists|k: int|
        0 <= k < p.len() - 1 && #[trigger] g.link(p[k] as int, p[k + 1] as int).outdoor && g.link(
            p[k] as int,
            p[k + 1] as int,
        ).dist > 0
}

/// Under unfavorable weather no path costs less than under the balanced
/// preference, and a path with an outdoor edge of positive distance costs more.
pub proof fn lemma_unfavorable_weather_cost(g: Graph, p: Seq<usize>, balanced: PathingOptions, weather: PathingOptions)
    requires
        balanced.preference is Balanced,
        weather.preference is Weather,
        weather.weather_info is Some,
        weather_multiplier(weather.weather_info->0) == UNFAVORABLE_MULTIPLIER,
    ensures
        g.path_cost(p, weather) >= g.path_cost(p, balanced),
        has_outdoor_leg(g, p) ==> g.path_cost(p, weather) > g.path_cost(p, balanced),
    decreases p.len(),
{
    if p.len() > 1 {
        let e = g.link(p[0] as int, p[1] as int);
        let d = e.dist as int;
        assert(d * 1_000_000 >= d * 1000) by (nonlinear_arith)
            requires d >= 0;
        assert(d > 0 ==> d * 1_000_000 > d * 1000) by (nonlinear_arith);
        assert(edge_cost(e, weather) >= edge_cost(e, balanced));
        assert(e.outdoor && d > 0 ==> edge_cost(e, weather) > edge_cost(e, balanced));
        let q = p.drop_first();
        lemma_unfavorable_weather_cost(g, q, balanced, weather);
        if has_outdoor_leg(g, p) {
            let k = choose|k: int|
                0 <= k < p.len() - 1 && #[trigger] g.link(p[k] as int, p[k + 1] as int).outdoor && g.link(
                    p[k] as int,
                    p[k + 1] as int,
                ).dist > 0;
            if k > 0 {
                assert(q[k - 1] == p[k] && q[k] == p[k + 1]);
                assert(g.link(q[k - 1] as int, q[k - 1 + 1] as int).outdoor);
                assert(has_outdoor_leg(g, q));
            }
        }
    }
}

/// The multiplier, in thousandths, that the options give an edge.
pub open spec fn edge_factor(e: Edge, opts: PathingOptions) -> int {
    match (opts.preference, opts.weather_info) {
        (PathPreference::Weather, Some(w)) => if e.outdoor {
            weather_multiplier(w)
        } else {
            MULTIPLIER_SCALE as int
        },
        _ => MULTIPLIER_SCALE as int,
    }
}

/// The effective cost of an edge, in thousandths of a distance unit.
pub open spec fn edge_cost(e: Edge, opts: PathingOptions) -> int {
    e.dist * edge_factor(e, opts)
}

pub fn effective_cost(e: &Edge, opts: &PathingOptions) -> (c: u64)
    ensures
        c == edge_cost(*e, *opts),
        c <= max_edge_cost(),
{
    let factor: u64 = match (&opts.preference, &opts.weather_info) {
        (PathPreference::Weather, Some(w)) => if e.outdoor {
            get_weather_multiplier(w)
        } else {
            MULTIPLIER_SCALE
        },
        _ => MULTIPLIER_SCALE,
    };
    assert(factor <= 1_000_000);
    let d = e.dist as u64;
    assert(d * factor <= 0xffff_ffff * 1_000_000) by (nonlinear_arith)
        requires d <= 0xffff_ffff, factor <= 1_000_000;
    d * factor
}

} // verus!
