use vstd::prelude::*;
use crate::frontier::{Frontier, entry_le};
use crate::graph::{
    Graph, PathingOptions, PathPreference, edge_cost, effective_cost, max_edge_cost,
    lemma_path_prefix, lemma_path_push, lemma_path_cost_nonneg,
};

verus! {

/// The kinds of failure of a search or a route.
#[derive(PartialEq, Eq, Structural, Clone, Copy, Debug)]
pub enum PathError {
    InvalidInput,
    UnknownRoom,
    UnknownNode,
    MissingWeatherData,
    NoPathFound,
    InternalError,
}

/// A route: node indices in visiting order, and their accumulated effective cost
/// in thousandths of a distance unit.
pub struct RouteResult {
    pub path: Vec<usize>,
    pub cost: u128,
}

/// A non-empty list of node indices, all of them in the graph.
pub open spec fn valid_ids(g: Graph, ids: Seq<usize>) -> bool {
    ids.len() > 0 && forall|k: int| 0 <= k < ids.len() ==> (#[trigger] ids[k]) < g.len()
}

/// The weather preference is asked for without a weather observation.
pub open spec fn lacks_weather(opts: PathingOptions) -> bool {
    opts.preference is Weather && opts.weather_info is None
}

/// No path from one of `starts` to one of `ends` costs less than `cost`.
pub open spec fn is_shortest(g: Graph, opts: PathingOptions, starts: Seq<usize>, ends: Seq<usize>, cost: int) -> bool {
    forall|p: Seq<usize>|
        #[trigger] g.is_path(p) && starts.contains(p[0]) && ends.contains(p.last()) ==> cost <= g.path_cost(p, opts)
}

/// `r` is a path of the graph from one of `starts` to one of `ends`, and `cost` is its cost.
pub open spec fn is_route(g: Graph, opts: PathingOptions, starts: Seq<usize>, ends: Seq<usize>, r: RouteResult) -> bool {
    &&& g.is_path(r.path@)
    &&& starts.contains(r.path@[0])
    &&& ends.contains(r.path@.last())
    &&& r.cost == g.path_cost(r.path@, opts)
}

spec fn count_true(s: Seq<bool>) -> nat
    decreases s.len(),
{
    if s.len() == 0 {
        0
    } else {
        count_true(s.drop_last()) + if s.last() { 1nat } else { 0nat }
    }
}

proof fn lemma_count_none(s: Seq<bool>)
    requires
        forall|k: int| 0 <= k < s.len() ==> !s[k],
    ensures
        count_true(s) == 0,
    decreases s.len(),
{
    if s.len() > 0 {
        lemma_count_none(s.drop_last());
    }
}

proof fn lemma_count_le(s: Seq<bool>)
    ensures
        count_true(s) <= s.len(),
    decreases s.len(),
{
    if s.len() > 0 {
        lemma_count_le(s.drop_last());
    }
}

proof fn lemma_count_set(s: Seq<bool>, i: int)
    requires
        0 <= i < s.len(),
        !s[i],
    ensures
        count_true(s.update(i, true)) == count_true(s) + 1,
    decreases s.len(),
{
    let t = s.update(i, true);
    if i == s.len() - 1 {
        assert(t.drop_last() =~= s.drop_last());
    } else {
        assert(t.drop_last() =~= s.drop_last().update(i, true));
        lemma_count_set(s.drop_last(), i);
    }
}

/// What the search keeps of every node it has reached: where it came from and
/// at what cost, with settled nodes ordered by when they were settled.
spec fn chain_inv(
    g: Graph,
    opts: PathingOptions,
    starts: Seq<usize>,
    dist: Seq<u128>,
    reached: Seq<bool>,
    settled: Seq<bool>,
    pred: Seq<Option<usize>>,
    order: Seq<nat>,
) -> bool {
    let n = g.len() as int;
    &&& dist.len() == n && reached.len() == n && settled.len() == n && pred.len() == n
        && order.len() == n
    &&& forall|v: int| 0 <= v < n && #[trigger] reached[v] && pred[v] is None ==> starts.contains(
        v as usize,
    ) && dist[v] == 0
    &&& forall|v: int|
        0 <= v < n && #[trigger] reached[v] && pred[v] is Some ==> {
            let u = pred[v]->0 as int;
            &&& 0 <= u < n
            &&& settled[u]
            &&& reached[u]
            &&& g.linked(u, v)
            &&& dist[v] == dist[u] + edge_cost(g.link(u, v), opts)
            &&& settled[v] ==> order[u] < order[v]
        }
    &&& forall|v: int| 0 <= v < n && #[trigger] settled[v] ==> reached[v]
}

/// Follows the predecessors back from a settled node to a start.
fn trace_back(
    g: &Graph,
    opts: &PathingOptions,
    Ghost(starts): Ghost<Seq<usize>>,
    dist: &Vec<u128>,
    Ghost(reached): Ghost<Seq<bool>>,
    Ghost(settled): Ghost<Seq<bool>>,
    pred: &Vec<Option<usize>>,
    Ghost(order): Ghost<Seq<nat>>,
    end: usize,
) -> (path: Vec<usize>)
    requires
        chain_inv(*g, *opts, starts, dist@, reached, settled, pred@, order),
        end < g.len(),
        settled[end as int],
    ensures
        g.is_path(path@),
        starts.contains(path@[0]),
        path@.last() == end,
        g.path_cost(path@, *opts) == dist@[end as int],
        pred@[end as int] is None ==> path@ == seq![end],
{
    let mut rev: Vec<usize> = Vec::new();
    rev.push(end);
    let mut cur = end;
    let ghost mut suffix: Seq<usize> = seq![end];
    while pred[cur].is_some()
        invariant
            chain_inv(*g, *opts, starts, dist@, reached, settled, pred@, order),
            cur < g.len(),
            settled[cur as int],
            g.is_path(suffix),
            suffix[0] == cur,
            suffix.last() == end,
            g.path_cost(suffix, *opts) + dist@[cur as int] == dist@[end as int],
            rev@.len() == suffix.len(),
            forall|k: int| 0 <= k < suffix.len() ==> #[trigger] suffix[k] == rev@[rev@.len() - 1 - k],
            pred@[end as int] is None ==> suffix == seq![end],
        decreases order[cur as int],
    {
        let u = pred[cur].unwrap();
        let ghost next = seq![u].add(suffix);
        proof {
            assert(next.drop_first() =~= suffix);
            assert(g.is_path(next)) by {
                assert forall|k: int| 0 <= k < next.len() - 1 implies g.linked(
                    #[trigger] next[k] as int,
                    next[k + 1] as int,
                ) by {
                    if k > 0 {
                        assert(next[k] == suffix[k - 1]);
                    }
                }
                assert forall|k: int| 0 <= k < next.len() implies (#[trigger] next[k]) < g.len() by {
                    if k > 0 {
                        assert(next[k] == suffix[k - 1]);
                    }
                }
            }
        }
        rev.push(u);
        cur = u;
        proof {
            suffix = next;
            assert forall|k: int| 0 <= k < suffix.len() implies #[trigger] suffix[k] == rev@[rev@.len() - 1 - k] by {
                if k > 0 {
                    assert(suffix[k] == next.drop_first()[k - 1]);
                }
            }
        }
    }
    let len = rev.len();
    let mut path: Vec<usize> = Vec::new();
    let mut k: usize = 0;
    while k < len
        invariant
            len == rev@.len(),
            len == suffix.len(),
            k <= len,
            path@ == suffix.subrange(0, k as int),
            forall|k: int| 0 <= k < suffix.len() ==> #[trigger] suffix[k] == rev@[rev@.len() - 1 - k],
        decreases len - k,
    {
        path.push(rev[len - 1 - k]);
        k = k + 1;
        assert(path@ =~= suffix.subrange(0, k as int));
    }
    assert(path@ =~= suffix);
    path
}


/// Every edge out of a settled node has been relaxed: it leads to a reached
/// node, which if unsettled is no farther than over that edge. The edges of
/// `x` from index `upto` on are left out.
spec fn closed_except(
    g: Graph,
    opts: PathingOptions,
    dist: Seq<u128>,
    reached: Seq<bool>,
    settled: Seq<bool>,
    x: int,
    upto: int,
) -> bool {
    forall|w: int, i: int|
        0 <= w < g.len() && settled[w] && 0 <= i < g.adj(w).len() && (w != x || i < upto) ==> {
            let y = (#[trigger] g.adj(w)[i]).to as int;
            &&& reached[y]
            &&& !settled[y] ==> dist[y] <= dist[w] + edge_cost(g.adj(w)[i], opts)
        }
}

/// Every settled node's distance is no more than the cost of any path to it.
spec fn settled_optimal(g: Graph, opts: PathingOptions, starts: Seq<usize>, dist: Seq<u128>, settled: Seq<bool>) -> bool {
    forall|p: Seq<usize>|
        #[trigger] g.is_path(p) && starts.contains(p[0]) && settled[p.last() as int] ==> dist[p.last() as int]
            <= g.path_cost(p, opts)
}

proof fn first_unsettled(settled: Seq<bool>, p: Seq<usize>, k: int) -> (j: int)
    requires
        0 <= k < p.len(),
        !settled[p.last() as int],
        forall|i: int| 0 <= i < k ==> settled[#[trigger] p[i] as int],
    ensures
        k <= j < p.len(),
        !settled[p[j] as int],
        forall|i: int| 0 <= i < j ==> settled[#[trigger] p[i] as int],
    decreases p.len() - k,
{
    if !settled[p[k] as int] {
        k
    } else {
        first_unsettled(settled, p, k + 1)
    }
}

/// A path from a start to an unsettled node meets the frontier at a node whose
/// distance is no more than the path's cost.
proof fn lemma_frontier(
    g: Graph,
    opts: PathingOptions,
    starts: Seq<usize>,
    dist: Seq<u128>,
    reached: Seq<bool>,
    settled: Seq<bool>,
    p: Seq<usize>,
) -> (j: int)
    requires
        g.wf(),
        dist.len() == g.len() && reached.len() == g.len() && settled.len() == g.len(),
        closed_except(g, opts, dist, reached, settled, -1, 0),
        settled_optimal(g, opts, starts, dist, settled),
        forall|k: int| 0 <= k < starts.len() ==> reached[#[trigger] starts[k] as int] && dist[starts[k] as int] == 0,
        g.is_path(p),
        starts.contains(p[0]),
        !settled[p.last() as int],
    ensures
        0 <= j < p.len(),
        reached[p[j] as int],
        !settled[p[j] as int],
        dist[p[j] as int] <= g.path_cost(p, opts),
{
    let j = first_unsettled(settled, p, 0);
    lemma_path_prefix(g, p, j + 1, opts);
    let pre1 = p.subrange(0, j + 1);
    if j == 0 {
        let k0 = choose|k0: int| 0 <= k0 < starts.len() && starts[k0] == p[0];
        assert(reached[starts[k0] as int]);
        lemma_path_cost_nonneg(g, p, opts);
    } else {
        let pre = p.subrange(0, j);
        lemma_path_prefix(g, p, j, opts);
        assert(pre[0] == p[0] && pre.last() == p[j - 1]);
        assert(settled[p[j - 1] as int]);
        assert(dist[p[j - 1] as int] <= g.path_cost(pre, opts));
        let a = p[j - 1] as int;
        assert(g.linked(a, p[j] as int));
        let i = choose|i: int| 0 <= i < g.adj(a).len() && (#[trigger] g.adj(a)[i]).to == p[j];
        let c = choose|c: int| 0 <= c < g.adj(a).len() && (#[trigger] g.adj(a)[c]).to == p[j];
        assert(g.adj(a)[i].to == g.adj(a)[c].to);
        assert(g.link(a, p[j] as int) == g.adj(a)[i]);
        assert(pre1 =~= pre.push(p[j]));
        lemma_path_push(g, pre, p[j], opts);
    }
    j
}

/// The state of the search between two steps, `count` nodes being settled.
spec fn search_inv(
    g: Graph,
    opts: PathingOptions,
    starts: Seq<usize>,
    ends: Seq<usize>,
    dist: Seq<u128>,
    reached: Seq<bool>,
    settled: Seq<bool>,
    pred: Seq<Option<usize>>,
    order: Seq<nat>,
    count: nat,
) -> bool {
    let n = g.len() as int;
    &&& chain_inv(g, opts, starts, dist, reached, settled, pred, order)
    &&& forall|v: int| 0 <= v < n && #[trigger] settled[v] ==> !ends.contains(v as usize) && order[v] < count
    &&& forall|k: int| 0 <= k < starts.len() ==> reached[#[trigger] starts[k] as int] && dist[starts[k] as int] == 0
    &&& settled_optimal(g, opts, starts, dist, settled)
    &&& forall|v: int| 0 <= v < n && #[trigger] reached[v] ==> dist[v] <= count * max_edge_cost()
    &&& count == count_true(settled)
    &&& count == 0 ==> forall|v: int| 0 <= v < n ==> !#[trigger] settled[v]
}

proof fn lemma_closed_path(g: Graph, opts: PathingOptions, dist: Seq<u128>, settled: Seq<bool>, p: Seq<usize>)
    requires
        settled.len() == g.len(),
        closed_except(g, opts, dist, settled, settled, -1, 0),
        g.is_path(p),
        settled[p[0] as int],
    ensures
        settled[p.last() as int],
    decreases p.len(),
{
    if p.len() > 1 {
        assert(g.linked(p[0] as int, p[1] as int));
        let i = choose|i: int| 0 <= i < g.adj(p[0] as int).len() && (#[trigger] g.adj(p[0] as int)[i]).to == p[1];
        let q = p.drop_first();
        assert(settled[q[0] as int]);
        assert forall|k: int| 0 <= k < q.len() - 1 implies g.linked(#[trigger] q[k] as int, q[k + 1] as int) by {
            assert(q[k] == p[k + 1]);
        }
        assert forall|k: int| 0 <= k < q.len() implies (#[trigger] q[k]) < g.len() by {
            assert(q[k] == p[k + 1]);
        }
        lemma_closed_path(g, opts, dist, settled, q);
    }
}

fn all_in_range(ids: &Vec<usize>, n: usize) -> (r: bool)
    ensures
        r == forall|k: int| 0 <= k < ids@.len() ==> (#[trigger] ids@[k]) < n,
{
    let mut k: usize = 0;
    while k < ids.len()
        invariant
            k <= ids@.len(),
            forall|j: int| 0 <= j < k ==> (#[trigger] ids@[j]) < n,
        decreases ids@.len() - k,
    {
        if ids[k] >= n {
            return false;
        }
        k = k + 1;
    }
    true
}

/// Multi-source, multi-target shortest path search over non-negative effective
/// edge costs. Nodes leave a heap-ordered frontier in order of (distance, index),
/// and the search stops at the first node of `end_nodes` to leave it; outdated
/// frontier entries are skipped as they come out.
pub fn find_path(
    start_nodes: &Vec<usize>,
    end_nodes: &Vec<usize>,
    graph: &Graph,
    options: &PathingOptions,
) -> (r: Result<RouteResult, PathError>)
    requires
        graph.wf(),
    ensures
        !valid_ids(*graph, start_nodes@) || !valid_ids(*graph, end_nodes@) <==> r == Err::<
            RouteResult,
            PathError,
        >(PathError::InvalidInput),
        valid_ids(*graph, start_nodes@) && valid_ids(*graph, end_nodes@) ==> (lacks_weather(*options)
            <==> r == Err::<RouteResult, PathError>(PathError::MissingWeatherData)),
        valid_ids(*graph, start_nodes@) && valid_ids(*graph, end_nodes@) && !lacks_weather(*options)
            ==> match r {
            Ok(res) => is_route(*graph, *options, start_nodes@, end_nodes@, res) && is_shortest(
                *graph,
                *options,
                start_nodes@,
                end_nodes@,
                res.cost as int,
            ),
            Err(e) => e == PathError::NoPathFound && !graph.reachable(start_nodes@, end_nodes@),
        },
        r matches Ok(res) ==> res.cost <= (graph.len() - 1) * max_edge_cost(),
        r is Ok <==> valid_ids(*graph, start_nodes@) && valid_ids(*graph, end_nodes@)
            && !lacks_weather(*options) && graph.reachable(start_nodes@, end_nodes@),
        valid_ids(*graph, start_nodes@) && valid_ids(*graph, end_nodes@) && !lacks_weather(*options)
            && start_nodes@.len() == 1 && end_nodes@.contains(start_nodes@[0]) ==> r is Ok
            && r->Ok_0.path@ == seq![start_nodes@[0]] && r->Ok_0.cost == 0,
{
    let n = graph.nodes.len();
    if start_nodes.len() == 0 || end_nodes.len() == 0 || !all_in_range(start_nodes, n)
        || !all_in_range(end_nodes, n) {
        return Err(PathError::InvalidInput);
    }
    if matches!(options.preference, PathPreference::Weather) && options.weather_info.is_none() {
        return Err(PathError::MissingWeatherData);
    }
    let ghost g = *graph;
    let ghost starts = start_nodes@;
    let ghost ends = end_nodes@;
    let mut dist: Vec<u128> = Vec::new();
    let mut reached: Vec<bool> = Vec::new();
    let mut settled: Vec<bool> = Vec::new();
    let mut pred: Vec<Option<usize>> = Vec::new();
    let mut is_end: Vec<bool> = Vec::new();
    let mut v: usize = 0;
    while v < n
        invariant
            v <= n,
            dist@.len() == v && reached@.len() == v && settled@.len() == v && pred@.len() == v
                && is_end@.len() == v,
            forall|w: int| 0 <= w < v ==> !#[trigger] reached@[w],
            forall|w: int| 0 <= w < v ==> !#[trigger] settled@[w],
            forall|w: int| 0 <= w < v ==> !#[trigger] is_end@[w],
            forall|w: int| 0 <= w < v ==> #[trigger] pred@[w] is None,
            forall|w: int| 0 <= w < v ==> #[trigger] dist@[w] == 0,
        decreases n - v,
    {
        dist.push(0);
        reached.push(false);
        settled.push(false);
        pred.push(None);
        is_end.push(false);
        v = v + 1;
    }
    let mut k: usize = 0;
    while k < start_nodes.len()
        invariant
            valid_ids(g, starts),
            starts == start_nodes@,
            n == g.len(),
            k <= starts.len(),
            dist@.len() == n && reached@.len() == n && settled@.len() == n && pred@.len() == n,
            forall|w: int| 0 <= w < n ==> !#[trigger] settled@[w],
            forall|w: int| 0 <= w < n ==> #[trigger] pred@[w] is None,
            forall|w: int| 0 <= w < n ==> #[trigger] dist@[w] == 0,
            forall|w: int| 0 <= w < n && #[trigger] reached@[w] ==> starts.contains(w as usize),
            forall|j: int| 0 <= j < k ==> reached@[#[trigger] starts[j] as int],
        decreases starts.len() - k,
    {
        let s = start_nodes[k];
        assert(starts[k as int] == s);
        reached.set(s, true);
        k = k + 1;
    }
    k = 0;
    while k < end_nodes.len()
        invariant
            valid_ids(g, ends),
            ends == end_nodes@,
            n == g.len(),
            k <= ends.len(),
            is_end@.len() == n,
            forall|w: int| 0 <= w < n && #[trigger] is_end@[w] ==> ends.contains(w as usize),
            forall|j: int| 0 <= j < k ==> is_end@[#[trigger] ends[j] as int],
        decreases ends.len() - k,
    {
        let e = end_nodes[k];
        assert(ends[k as int] == e);
        is_end.set(e, true);
        k = k + 1;
    }
    assert forall|w: int| 0 <= w < n && ends.contains(w as usize) implies #[trigger] is_end@[w] by {
        let j = choose|j: int| 0 <= j < ends.len() && ends[j] == w as usize;
        assert(is_end@[ends[j] as int]);
    }
    let ghost mut order: Seq<nat> = Seq::new(n as nat, |i: int| 0nat);
    let mut count: usize = 0;
    proof {
        assert(settled@ =~= Seq::new(n as nat, |i: int| false));
        lemma_count_none(settled@);
    }
    let mut frontier = Frontier::new();
    k = 0;
    while k < start_nodes.len()
        invariant
            valid_ids(g, starts),
            starts == start_nodes@,
            n == g.len(),
            k <= starts.len(),
            reached@.len() == n,
            forall|j: int| 0 <= j < starts.len() ==> reached@[#[trigger] starts[j] as int],
            frontier.wf(),
            forall|j: int| 0 <= j < k ==> frontier@.contains((0u128, #[trigger] starts[j])),
            forall|y: (u128, usize)| #[trigger] frontier@.contains(y) ==> y.1 < n && reached@[y.1 as int],
        decreases starts.len() - k,
    {
        let ghost fr0 = frontier@;
        frontier.push((0, start_nodes[k]));
        proof {
            assert forall|j: int| 0 <= j < k + 1 implies frontier@.contains((0u128, #[trigger] starts[j])) by {
                if j < k {
                    assert(fr0.contains((0u128, starts[j])));
                }
            }
            assert forall|y: (u128, usize)| #[trigger] frontier@.contains(y) implies y.1 < n && reached@[y.1 as int] by {
                if y != (0u128, starts[k as int]) {
                    assert(fr0.contains(y));
                }
            }
        }
        k = k + 1;
    }
    assert forall|w: int| 0 <= w < n && #[trigger] reached@[w] && !settled@[w] implies frontier@.contains(
        (dist@[w], w as usize),
    ) by {
        let j = choose|j: int| 0 <= j < starts.len() && starts[j] == w as usize;
        assert(frontier@.contains((0u128, starts[j])));
    }
    loop
        invariant
            graph.wf(),
            g == *graph,
            n == g.len(),
            valid_ids(g, starts),
            valid_ids(g, ends),
            starts == start_nodes@,
            ends == end_nodes@,
            is_end@.len() == n,
            forall|w: int| 0 <= w < n ==> (#[trigger] is_end@[w] <==> ends.contains(w as usize)),
            search_inv(g, *options, starts, ends, dist@, reached@, settled@, pred@, order, count as nat),
            closed_except(g, *options, dist@, reached@, settled@, -1, 0),
            count <= n,
            starts.len() == 1 && ends.contains(starts[0]) ==> count == 0,
            !lacks_weather(*options),
            frontier.wf(),
            forall|w: int| 0 <= w < n && #[trigger] reached@[w] && !settled@[w] ==> frontier@.contains(
                (dist@[w], w as usize),
            ),
            forall|y: (u128, usize)| #[trigger] frontier@.contains(y) ==> y.1 < n && reached@[y.1 as int],
        decreases n - count, frontier@.len(),
    {
        let ghost f0 = frontier@;
        let top = frontier.pop();
        let (d, u) = match top {
            None => {
                proof {
                    assert forall|w: int| 0 <= w < n && #[trigger] reached@[w] implies settled@[w] by {
                        if !settled@[w] {
                            assert(f0.contains((dist@[w], w as usize)));
                        }
                    }
                    assert forall|p: Seq<usize>|
                        #[trigger] g.is_path(p) && starts.contains(p[0]) implies !ends.contains(p.last()) by {
                        let k0 = choose|k0: int| 0 <= k0 < starts.len() && starts[k0] == p[0];
                        assert(reached@[starts[k0] as int]);
                        assert(closed_except(g, *options, dist@, settled@, settled@, -1, 0));
                        lemma_closed_path(g, *options, dist@, settled@, p);
                    }
                }
                return Err(PathError::NoPathFound);
            },
            Some(entry) => entry,
        };
        proof {
            assert forall|w: int| 0 <= w < n && #[trigger] reached@[w] && !settled@[w] && (w != u || dist@[w] != d)
                implies frontier@.contains((dist@[w], w as usize)) by {
                assert(f0.contains((dist@[w], w as usize)));
            }
        }
        if settled[u] || d != dist[u] {
            continue;
        }
        proof {
            assert forall|w: int| 0 <= w < n && #[trigger] reached@[w] && !settled@[w] implies d <= dist@[w] by {
                assert(f0.contains((dist@[w], w as usize)));
                assert(entry_le((d, u), (dist@[w], w as usize)));
            }
        }
        proof {
            assert forall|p: Seq<usize>|
                #[trigger] g.is_path(p) && starts.contains(p[0]) && !settled@[p.last() as int] implies dist@[u as int]
                <= g.path_cost(p, *options) by {
                let j = lemma_frontier(g, *options, starts, dist@, reached@, settled@, p);
                assert(reached@[p[j] as int] && !settled@[p[j] as int]);
                assert(d <= dist@[p[j] as int]);
            }
        }
        let ghost old_settled = settled@;
        proof {
            lemma_count_set(settled@, u as int);
            lemma_count_le(settled@.update(u as int, true));
        }
        settled.set(u, true);
        proof {
            order = order.update(u as int, count as nat);
        }
        count = count + 1;
        assert(chain_inv(g, *options, starts, dist@, reached@, settled@, pred@, order)) by {
            assert forall|w: int|
                0 <= w < n && #[trigger] reached@[w] && pred@[w] is Some && settled@[w] implies
                order[pred@[w]->0 as int] < order[w] by {
                if w != u {
                    assert(pred@[w]->0 != u);
                }
            }
        }
        proof {
            assert forall|p: Seq<usize>|
                #[trigger] g.is_path(p) && starts.contains(p[0]) && settled@[p.last() as int] implies dist@[p.last() as int]
                <= g.path_cost(p, *options) by {
                if p.last() != u {
                    assert(old_settled[p.last() as int]);
                }
            }
        }
        if is_end[u] {
            let path = trace_back(graph, options, Ghost(starts), &dist, Ghost(reached@),
                Ghost(settled@), &pred, Ghost(order), u);
            let res = RouteResult { path, cost: dist[u] };
            assert(res.cost <= (n - 1) * max_edge_cost()) by (nonlinear_arith)
                requires res.cost <= (count - 1) * max_edge_cost(), count <= n, max_edge_cost() >= 0;
            assert(g.is_path(res.path@) && starts.contains(res.path@[0]) && ends.contains(res.path@.last()));
            assert(g.reachable(starts, ends));
            assert(is_shortest(g, *options, starts, ends, res.cost as int)) by {
                assert forall|p: Seq<usize>|
                    #[trigger] g.is_path(p) && starts.contains(p[0]) && ends.contains(p.last()) implies res.cost
                    <= g.path_cost(p, *options) by {
                    assert(!old_settled[p.last() as int]);
                }
            }
            return Ok(res);
        }
        proof {
            assert forall|w: int| 0 <= w < n && #[trigger] settled@[w] implies !ends.contains(w as usize)
                && order[w] < count by {
                if w != u {
                    assert(old_settled[w]);
                }
            }
            assert forall|w: int| 0 <= w < n && #[trigger] reached@[w] implies dist@[w]
                <= count * max_edge_cost() by {
                assert((count - 1) * max_edge_cost() <= count * max_edge_cost()) by (nonlinear_arith)
                    requires count >= 1;
            }
            assert(closed_except(g, *options, dist@, reached@, settled@, u as int, 0)) by {
                assert forall|w: int, ii: int|
                    0 <= w < g.len() && settled@[w] && 0 <= ii < g.adj(w).len() && (w != u || ii < 0)
                    implies {
                        let y = (#[trigger] g.adj(w)[ii]).to as int;
                        &&& reached@[y]
                        &&& !settled@[y] ==> dist@[y] <= dist@[w] + edge_cost(g.adj(w)[ii], *options)
                    } by {
                    assert(old_settled[w]);
                }
            }
        }
        let du = dist[u];
        let m = graph.nodes[u].neighbors.len();
        let mut i: usize = 0;
        while i < m
            invariant
                graph.wf(),
                g == *graph,
                n == g.len(),
                u < n,
                m == g.adj(u as int).len(),
                i <= m,
                settled@[u as int],
                reached@[u as int],
                du == dist@[u as int],
                1 <= count <= n,
                du <= (count - 1) * max_edge_cost(),
                valid_ids(g, starts),
                search_inv(g, *options, starts, ends, dist@, reached@, settled@, pred@, order, count as nat),
                closed_except(g, *options, dist@, reached@, settled@, u as int, i as int),
                frontier.wf(),
                forall|w: int| 0 <= w < n && #[trigger] reached@[w] && !settled@[w] ==> frontier@.contains(
                    (dist@[w], w as usize),
                ),
                forall|y: (u128, usize)| #[trigger] frontier@.contains(y) ==> y.1 < n && reached@[y.1 as int],
            decreases m - i,
        {
            let e = &graph.nodes[u].neighbors[i];
            let v = e.to;
            assert(g.adj(u as int)[i as int] == *e);
            if !settled[v] {
                let c = effective_cost(e, options);
                assert(du + c <= count * max_edge_cost() <= 0xffff_ffff_ffff_ffff * max_edge_cost()) by (nonlinear_arith)
                    requires du <= (count - 1) * max_edge_cost(), c <= max_edge_cost(), 1 <= count <= 0xffff_ffff_ffff_ffff;
                let nd = du + c as u128;
                if !reached[v] || nd < dist[v] {
                    let ghost d0 = dist@;
                    let ghost r0 = reached@;
                    let ghost p0 = pred@;
                    dist.set(v, nd);
                    reached.set(v, true);
                    pred.set(v, Some(u));
                    let ghost fr0 = frontier@;
                    frontier.push((nd, v));
                    proof {
                        assert forall|w: int| 0 <= w < n && #[trigger] reached@[w] && !settled@[w] implies frontier@.contains(
                            (dist@[w], w as usize),
                        ) by {
                            if w != v {
                                assert(r0[w] && fr0.contains((d0[w], w as usize)));
                            }
                        }
                        assert forall|y: (u128, usize)| #[trigger] frontier@.contains(y) implies y.1 < n && reached@[y.1 as int] by {
                            if y != (nd, v) {
                                assert(fr0.contains(y));
                            }
                        }
                        assert(g.linked(u as int, v as int));
                        let ci = choose|ci: int| 0 <= ci < g.adj(u as int).len() && (#[trigger] g.adj(u as int)[ci]).to == v;
                        assert(g.adj(u as int)[ci].to == g.adj(u as int)[i as int].to);
                        assert(g.link(u as int, v as int) == *e);
                        assert forall|w: int| 0 <= w < n && #[trigger] reached@[w] && pred@[w] is Some implies {
                            let x = pred@[w]->0 as int;
                            &&& 0 <= x < n
                            &&& settled@[x]
                            &&& reached@[x]
                            &&& g.linked(x, w)
                            &&& dist@[w] == dist@[x] + edge_cost(g.link(x, w), *options)
                            &&& settled@[w] ==> order[x] < order[w]
                        } by {
                            if w != v {
                                assert(r0[w] && p0[w] is Some);
                                assert(pred@[w]->0 != v);
                            }
                        }
                        assert forall|w: int| 0 <= w < n && #[trigger] reached@[w] implies dist@[w]
                            <= count * max_edge_cost() by {
                            if w != v {
                                assert(r0[w]);
                                assert((count - 1) * max_edge_cost() <= count * max_edge_cost()) by (nonlinear_arith)
                                    requires count >= 1;
                            }
                        }
                        assert forall|k: int| 0 <= k < starts.len() implies reached@[#[trigger] starts[k] as int]
                            && dist@[starts[k] as int] == 0 by {
                            assert(r0[starts[k] as int] && d0[starts[k] as int] == 0);
                        }
                        assert forall|p: Seq<usize>|
                            #[trigger] g.is_path(p) && starts.contains(p[0]) && settled@[p.last() as int] implies dist@[p.last() as int]
                            <= g.path_cost(p, *options) by {
                            assert(d0[p.last() as int] <= g.path_cost(p, *options));
                        }
                        assert(closed_except(g, *options, dist@, reached@, settled@, u as int, i as int + 1)) by {
                            assert forall|w: int, ii: int|
                                0 <= w < g.len() && settled@[w] && 0 <= ii < g.adj(w).len() && (w != u || ii < i + 1)
                                implies {
                                    let y = (#[trigger] g.adj(w)[ii]).to as int;
                                    &&& reached@[y]
                                    &&& !settled@[y] ==> dist@[y] <= dist@[w] + edge_cost(g.adj(w)[ii], *options)
                                } by {
                                assert(dist@[w] == d0[w]);
                                if w != u || ii < i {
                                    assert(r0[g.adj(w)[ii].to as int]);
                                }
                            }
                        }
                    }
                } else {
                    proof {
                        assert(closed_except(g, *options, dist@, reached@, settled@, u as int, i as int + 1)) by {
                            assert forall|w: int, ii: int|
                                0 <= w < g.len() && settled@[w] && 0 <= ii < g.adj(w).len() && (w != u || ii < i + 1)
                                implies {
                                    let y = (#[trigger] g.adj(w)[ii]).to as int;
                                    &&& reached@[y]
                                    &&& !settled@[y] ==> dist@[y] <= dist@[w] + edge_cost(g.adj(w)[ii], *options)
                                } by {
                                if w == u && ii == i {
                                    assert(g.adj(w)[ii] == *e);
                                }
                            }
                        }
                    }
                }
            } else {
                proof {
                    assert(closed_except(g, *options, dist@, reached@, settled@, u as int, i as int + 1)) by {
                        assert forall|w: int, ii: int|
                            0 <= w < g.len() && settled@[w] && 0 <= ii < g.adj(w).len() && (w != u || ii < i + 1)
                            implies {
                                let y = (#[trigger] g.adj(w)[ii]).to as int;
                                &&& reached@[y]
                                &&& !settled@[y] ==> dist@[y] <= dist@[w] + edge_cost(g.adj(w)[ii], *options)
                            } by {
                            if w == u && ii == i {
                                assert(g.adj(w)[ii] == *e);
                            }
                        }
                    }
                }
            }
            i = i + 1;
        }
        proof {
            assert forall|w: int| 0 <= w < n && #[trigger] reached@[w] implies dist@[w]
                <= count * max_edge_cost() by {
                assert((count - 1) * max_edge_cost() <= count * max_edge_cost()) by (nonlinear_arith)
                    requires count >= 1;
            }
        }
    }
}

} // verus!
