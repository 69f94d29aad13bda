//! The weighted graph shared by every navigable representation: nodes are
//! numbered densely from zero, edges are directed and kept in insertion order.
use petgraph::algo::{astar, kosaraju_scc};
use petgraph::graph::NodeIndex;
use petgraph::visit::EdgeRef;
use petgraph::{Directed, Graph};
use vstd::prelude::*;

verus! {

#[verifier::external_type_specification]
#[verifier::external_body]
#[verifier::reject_recursive_types(N)]
#[verifier::reject_recursive_types(E)]
#[verifier::reject_recursive_types(Ty)]
#[verifier::reject_recursive_types(Ix)]
pub struct ExGraph<N, E, Ty, Ix>(Graph<N, E, Ty, Ix>);

#[verifier::external_type_specification]
#[verifier::external_body]
pub struct ExDirected(Directed);

/// The edges of a petgraph graph, as (source, target) node indices, in the
/// order of their insertion (which is also their edge index).
pub uninterp spec fn petgraph_edges(g: Graph<(), (), Directed>) -> Seq<(nat, nat)>;

/// The number of nodes of a petgraph graph.
pub uninterp spec fn petgraph_node_count(g: Graph<(), (), Directed>) -> nat;

/// The largest weight an edge may carry; search costs stay below 2^128.
pub const MAX_EDGE_WEIGHT: u128 = 0x1_0000_0000_0000_0000_0000_0000;

/// A walk given by edge indices: `w` leads from node `s` to node `t`
/// (the empty walk stays at `s`).
pub open spec fn is_walk(edges: Seq<(nat, nat)>, w: Seq<nat>, s: nat, t: nat) -> bool {
    if w.len() == 0 {
        s == t
    } else {
        &&& forall|i: int| 0 <= i < w.len() ==> #[trigger] w[i] < edges.len()
        &&& edges[w[0] as int].0 == s
        &&& edges[w[w.len() - 1] as int].1 == t
        &&& forall|i: int|
            0 <= i < w.len() - 1 ==> edges[#[trigger] w[i] as int].1 == edges[w[i + 1] as int].0
    }
}

/// Node `t` can be reached from node `s` along the edges.
pub open spec fn reachable(edges: Seq<(nat, nat)>, s: nat, t: nat) -> bool {
    exists|w: Seq<nat>| #[trigger] is_walk(edges, w, s, t)
}

/// The sum of the weights of the edges a walk takes.
pub open spec fn walk_cost(weights: Seq<u128>, w: Seq<nat>) -> int
    decreases w.len(),
{
    if w.len() == 0 {
        0
    } else {
        walk_cost(weights, w.drop_last()) + weights[w[w.len() - 1] as int]
    }
}

/// The nodes a walk from `s` visits, `s` first.
pub open spec fn walk_nodes(edges: Seq<(nat, nat)>, s: nat, w: Seq<nat>) -> Seq<nat> {
    seq![s] + w.map_values(|e: nat| edges[e as int].1)
}

/// `path` lists the nodes of a walk from `s` to `t` whose cost `c` no other
/// walk from `s` to `t` undercuts.
pub open spec fn is_cheapest_path(
    edges: Seq<(nat, nat)>,
    weights: Seq<u128>,
    s: nat,
    t: nat,
    c: int,
    path: Seq<nat>,
) -> bool {
    &&& exists|w: Seq<nat>|
        #[trigger] is_walk(edges, w, s, t) && walk_cost(weights, w) == c && path == walk_nodes(
            edges,
            s,
            w,
        )
    &&& forall|w: Seq<nat>| #[trigger] is_walk(edges, w, s, t) ==> c <= walk_cost(weights, w)
}

/// The targets of the edges leaving `a`, the most recently added first.
pub open spec fn out_targets(edges: Seq<(nat, nat)>, a: nat) -> Seq<nat>
    decreases edges.len(),
{
    if edges.len() == 0 {
        seq![]
    } else {
        let rest = out_targets(edges.drop_last(), a);
        if edges.last().0 == a {
            seq![edges.last().1] + rest
        } else {
            rest
        }
    }
}

proof fn lemma_out_targets_bound(edges: Seq<(nat, nat)>, a: nat, n: nat)
    requires
        forall|e: int| 0 <= e < edges.len() ==> (#[trigger] edges[e]).1 < n,
    ensures
        forall|k: int|
            0 <= k < out_targets(edges, a).len() ==> #[trigger] out_targets(edges, a)[k] < n,
    decreases edges.len(),
{
    if edges.len() > 0 {
        let rest = edges.drop_last();
        assert forall|e: int| 0 <= e < rest.len() implies (#[trigger] rest[e]).1 < n by {
            assert(rest[e] == edges[e]);
        }
        lemma_out_targets_bound(rest, a, n);
        assert(edges.last() == edges[edges.len() - 1]);
        let t = out_targets(edges, a);
        let rt = out_targets(rest, a);
        assert forall|k: int| 0 <= k < t.len() implies #[trigger] t[k] < n by {
            if edges.last().0 == a {
                assert(t == seq![edges.last().1] + rt);
                if k > 0 {
                    assert(t[k] == rt[k - 1]);
                }
            } else {
                assert(t == rt);
            }
        }
    }
}

/// Node indices as mathematical integers.
pub open spec fn nat_seq(v: Seq<usize>) -> Seq<nat> {
    v.map_values(|x: usize| x as nat)
}

/// Node `v` stands in one of the components.
pub open spec fn in_some_component(comps: Seq<Seq<usize>>, v: nat) -> bool {
    exists|i: int, j: int|
        0 <= i < comps.len() && 0 <= j < comps[i].len() && #[trigger] comps[i][j] == v
}

/// `comps` splits the nodes `0..n` into the strongly connected components of
/// the edges: each node stands exactly once, and two nodes share a component
/// exactly when each can reach the other.
pub open spec fn is_scc_split(edges: Seq<(nat, nat)>, n: nat, comps: Seq<Seq<usize>>) -> bool {
    &&& forall|i: int| 0 <= i < comps.len() ==> #[trigger] comps[i].len() > 0
    &&& forall|i: int, j: int|
        0 <= i < comps.len() && 0 <= j < comps[i].len() ==> #[trigger] comps[i][j] < n
    &&& forall|v: nat| v < n ==> #[trigger] in_some_component(comps, v)
    &&& forall|i1: int, j1: int, i2: int, j2: int|
        0 <= i1 < comps.len() && 0 <= j1 < comps[i1].len() && 0 <= i2 < comps.len() && 0 <= j2
            < comps[i2].len() && #[trigger] comps[i1][j1] == #[trigger] comps[i2][j2] ==> i1 == i2
            && j1 == j2
    &&& forall|i1: int, j1: int, i2: int, j2: int|
        0 <= i1 < comps.len() && 0 <= j1 < comps[i1].len() && 0 <= i2 < comps.len() && 0 <= j2
            < comps[i2].len() ==> (i1 == i2 <==> (reachable(
            edges,
            #[trigger] comps[i1][j1] as nat,
            #[trigger] comps[i2][j2] as nat,
        ) && reachable(edges, comps[i2][j2] as nat, comps[i1][j1] as nat)))
}

/// Relies on petgraph's `Graph::with_capacity`: a graph with no nodes and no
/// edges (the reserved room stays far below what makes `Vec` panic).
#[verifier::external_body]
fn petgraph_with_capacity(nodes: usize, edges: usize) -> (g: Graph<(), (), Directed>)
    requires
        nodes <= u32::MAX,
        edges <= u32::MAX,
    ensures
        petgraph_node_count(g) == 0,
        petgraph_edges(g) == Seq::<(nat, nat)>::empty(),
{
    Graph::with_capacity(nodes, edges)
}

/// Relies on petgraph's `Graph::add_node`: the new node takes the next index;
/// it panics once the `u32` index space is full.
#[verifier::external_body]
fn petgraph_add_node(g: &mut Graph<(), (), Directed>) -> (r: usize)
    requires
        petgraph_node_count(*old(g)) < u32::MAX,
    ensures
        r == petgraph_node_count(*old(g)),
        petgraph_node_count(*final(g)) == petgraph_node_count(*old(g)) + 1,
        petgraph_edges(*final(g)) == petgraph_edges(*old(g)),
{
    g.add_node(()).index()
}

/// Relies on petgraph's `Graph::add_edge`: the edge `a -> b` is appended; it
/// panics on an unknown node or once the `u32` edge index space is full.
#[verifier::external_body]
fn petgraph_add_edge(g: &mut Graph<(), (), Directed>, a: usize, b: usize)
    requires
        a < petgraph_node_count(*old(g)),
        b < petgraph_node_count(*old(g)),
        petgraph_edges(*old(g)).len() < u32::MAX,
    ensures
        petgraph_node_count(*final(g)) == petgraph_node_count(*old(g)),
        petgraph_edges(*final(g)) == petgraph_edges(*old(g)).push((a as nat, b as nat)),
{
    g.add_edge(NodeIndex::new(a), NodeIndex::new(b), ());
}

/// Relies on petgraph's `Graph::neighbors` on a directed graph: the targets of
/// the edges leaving `a`, the most recently added edge first.
#[verifier::external_body]
fn petgraph_neighbors(g: &Graph<(), (), Directed>, a: usize) -> (r: Vec<usize>)
    requires
        a < petgraph_node_count(*g),
    ensures
        nat_seq(r@) == out_targets(petgraph_edges(*g), a as nat),
{
    g.neighbors(NodeIndex::new(a)).map(|n| n.index()).collect()
}

/// A path's cost and its node indices.
pub type CostedPath = (u128, Vec<usize>);

/// Relies on petgraph's `astar` with the zero estimate, that is Dijkstra's
/// search: the cheapest walk from `start` to `goal` under the edge weights
/// (indexed like the edges), or `None` when `goal` cannot be reached; from
/// `start` to itself, `[start]` at no cost. The path repeats no node, since
/// it is read back along a tree of predecessors. Costs are summed as `u128`.
#[verifier::external_body]
fn petgraph_astar(
    g: &Graph<(), (), Directed>,
    start: usize,
    goal: usize,
    weights: &Vec<u128>,
) -> (r: Option<CostedPath>)
    requires
        start < petgraph_node_count(*g),
        goal < petgraph_node_count(*g),
        petgraph_node_count(*g) < u32::MAX,
        weights@.len() == petgraph_edges(*g).len(),
        forall|i: int| 0 <= i < weights@.len() ==> #[trigger] weights@[i] <= MAX_EDGE_WEIGHT,
    ensures
        start == goal ==> r is Some && r.unwrap().0 == 0 && r.unwrap().1@ == seq![start],
        r is None ==> !reachable(petgraph_edges(*g), start as nat, goal as nat),
        r matches Some((c, path)) ==> is_cheapest_path(
            petgraph_edges(*g),
            weights@,
            start as nat,
            goal as nat,
            c as int,
            nat_seq(path@),
        ),
        r matches Some((c, path)) ==> nat_seq(path@).no_duplicates(),
{
    let goal_node = NodeIndex::<u32>::new(goal);
    astar(g, NodeIndex::new(start), |n| n == goal_node, |e| weights[e.id().index()], |_| 0u128).map(
        |(c, path)| (c, path.into_iter().map(|n| n.index()).collect()),
    )
}

/// Relies on petgraph's `kosaraju_scc`, which works without recursion: the
/// strongly connected components, every node in exactly one of them.
#[verifier::external_body]
fn petgraph_kosaraju_scc(g: &Graph<(), (), Directed>) -> (r: Vec<Vec<usize>>)
    ensures
        is_scc_split(petgraph_edges(*g), petgraph_node_count(*g), r@.map_values(|c: Vec<usize>| c@)),
{
    kosaraju_scc(g).into_iter().map(|c| c.into_iter().map(|n| n.index()).collect()).collect()
}

/// Every edge has a reverse edge of the same weight.
pub open spec fn is_symmetric(edges: Seq<(nat, nat)>, weights: Seq<u128>) -> bool {
    forall|k: int| 0 <= k < edges.len() ==> #[trigger] has_reverse(edges, weights, k)
}

/// Edge `k` has a reverse edge of the same weight.
pub open spec fn has_reverse(edges: Seq<(nat, nat)>, weights: Seq<u128>, k: int) -> bool {
    exists|k2: int|
        0 <= k2 < edges.len() && #[trigger] edges[k2] == (edges[k].1, edges[k].0) && weights[k2]
            == weights[k]
}

proof fn lemma_walk_cost_prepend(weights: Seq<u128>, x: nat, w: Seq<nat>)
    ensures
        walk_cost(weights, seq![x] + w) == weights[x as int] + walk_cost(weights, w),
    decreases w.len(),
{
    let v = seq![x] + w;
    if w.len() == 0 {
        assert(v.drop_last() =~= Seq::<nat>::empty());
        assert(v[v.len() - 1] == x);
        assert(walk_cost(weights, v) == walk_cost(weights, v.drop_last()) + weights[x as int]);
    } else {
        assert(v.drop_last() =~= seq![x] + w.drop_last());
        assert(v[v.len() - 1] == w[w.len() - 1]);
        lemma_walk_cost_prepend(weights, x, w.drop_last());
        assert(walk_cost(weights, v) == walk_cost(weights, v.drop_last()) + weights[w[w.len() - 1] as int]);
    }
}

/// Over symmetric edges, reversing a walk gives a walk back of the same cost.
proof fn lemma_reverse_walk(
    edges: Seq<(nat, nat)>,
    weights: Seq<u128>,
    w: Seq<nat>,
    s: nat,
    t: nat,
) -> (r: Seq<nat>)
    requires
        is_symmetric(edges, weights),
        weights.len() == edges.len(),
        is_walk(edges, w, s, t),
    ensures
        is_walk(edges, r, t, s),
        walk_cost(weights, r) == walk_cost(weights, w),
    decreases w.len(),
{
    if w.len() == 0 {
        w
    } else {
        let e = w[w.len() - 1];
        let rest = w.drop_last();
        let mid = edges[e as int].0;
        assert(e < edges.len());
        if rest.len() > 0 {
            assert(edges[rest[rest.len() - 1] as int].1 == mid);
        }
        assert(is_walk(edges, rest, s, mid));
        let back = lemma_reverse_walk(edges, weights, rest, s, mid);
        assert(has_reverse(edges, weights, e as int));
        let k2 = choose|k2: int|
            0 <= k2 < edges.len() && #[trigger] edges[k2] == (edges[e as int].1, edges[e as int].0)
                && weights[k2] == weights[e as int];
        let r = seq![k2 as nat] + back;
        lemma_walk_cost_prepend(weights, k2 as nat, back);
        assert(r[0] == k2 as nat);
        if back.len() > 0 {
            assert(r[r.len() - 1] == back[back.len() - 1]);
        }
        assert forall|i: int| 0 <= i < r.len() implies #[trigger] r[i] < edges.len() by {
            if i > 0 {
                assert(r[i] == back[i - 1]);
            }
        }
        assert forall|i: int| 0 <= i < r.len() - 1 implies edges[#[trigger] r[i] as int].1 == edges[r[i + 1] as int].0 by {
            if i > 0 {
                assert(r[i] == back[i - 1]);
                assert(r[i + 1] == back[i]);
            } else {
                assert(r[1] == back[0]);
            }
        }
        r
    }
}

/// Over edges that all have a reverse of the same weight, `b` can be reached
/// from `a` exactly when `a` can be reached from `b`, and the cheapest paths
/// both ways cost the same.
pub proof fn lemma_symmetric_paths(
    edges: Seq<(nat, nat)>,
    weights: Seq<u128>,
    a: nat,
    b: nat,
    c1: int,
    p1: Seq<nat>,
    c2: int,
    p2: Seq<nat>,
)
    requires
        is_symmetric(edges, weights),
        weights.len() == edges.len(),
    ensures
        reachable(edges, a, b) <==> reachable(edges, b, a),
        is_cheapest_path(edges, weights, a, b, c1, p1) && is_cheapest_path(edges, weights, b, a, c2, p2)
            ==> c1 == c2,
{
    if reachable(edges, a, b) {
        let w = choose|w: Seq<nat>| #[trigger] is_walk(edges, w, a, b);
        let r = lemma_reverse_walk(edges, weights, w, a, b);
    }
    if reachable(edges, b, a) {
        let w = choose|w: Seq<nat>| #[trigger] is_walk(edges, w, b, a);
        let r = lemma_reverse_walk(edges, weights, w, b, a);
    }
    if is_cheapest_path(edges, weights, a, b, c1, p1) && is_cheapest_path(edges, weights, b, a, c2, p2) {
        let w1 = choose|w: Seq<nat>|
            #[trigger] is_walk(edges, w, a, b) && walk_cost(weights, w) == c1 && p1 == walk_nodes(edges, a, w);
        let w2 = choose|w: Seq<nat>|
            #[trigger] is_walk(edges, w, b, a) && walk_cost(weights, w) == c2 && p2 == walk_nodes(edges, b, w);
        let r1 = lemma_reverse_walk(edges, weights, w1, a, b);
        let r2 = lemma_reverse_walk(edges, weights, w2, b, a);
        assert(c2 <= walk_cost(weights, r1));
        assert(c1 <= walk_cost(weights, r2));
    }
}

/// Some edge leads from `a` to `b`.
pub open spec fn has_edge(edges: Seq<(nat, nat)>, a: nat, b: nat) -> bool {
    exists|k: int| 0 <= k < edges.len() && #[trigger] edges[k] == (a, b)
}

/// An edge stays after another is appended.
pub proof fn lemma_has_edge_push(edges: Seq<(nat, nat)>, e: (nat, nat), a: nat, b: nat)
    requires
        has_edge(edges, a, b),
    ensures
        has_edge(edges.push(e), a, b),
{
    let k = choose|k: int| 0 <= k < edges.len() && #[trigger] edges[k] == (a, b);
    assert(edges.push(e)[k] == (a, b));
}

/// The weight of each edge: the product of its end nodes' costs where the edge
/// is allowed, else the blocking weight.
pub open spec fn cost_weights(edges: Seq<(nat, nat)>, costs: Seq<u32>, allowed: Seq<bool>) -> Seq<
    u128,
> {
    Seq::new(
        edges.len(),
        |e: int|
            if allowed[e] {
                (costs[edges[e].0 as int] * costs[edges[e].1 as int]) as u128
            } else {
                MAX_EDGE_WEIGHT
            },
    )
}

/// Each of `a` and `b` can reach the other.
pub open spec fn mutually_reachable(edges: Seq<(nat, nat)>, a: nat, b: nat) -> bool {
    reachable(edges, a, b) && reachable(edges, b, a)
}

/// A directed graph over the nodes `0..node_count()`, searched with
/// per-edge weights.
pub struct NavGraph {
    graph: Graph<(), (), Directed>,
    nodes: usize,
    ends: Vec<(usize, usize)>,
}

impl NavGraph {
    /// The edges, as (source, target), in insertion order.
    pub closed spec fn edges(&self) -> Seq<(nat, nat)> {
        petgraph_edges(self.graph)
    }

    pub closed spec fn node_count(&self) -> nat {
        self.nodes as nat
    }

    /// The graph's bookkeeping agrees with the underlying petgraph graph.
    pub closed spec fn wf(&self) -> bool {
        &&& petgraph_node_count(self.graph) == self.nodes
        &&& self.nodes < u32::MAX
        &&& self.ends@.len() == petgraph_edges(self.graph).len()
        &&& self.ends@.len() <= u32::MAX
        &&& forall|e: int|
            0 <= e < self.ends@.len() ==> (#[trigger] self.ends@[e]).0 as nat
                == petgraph_edges(self.graph)[e].0 && self.ends@[e].1 as nat == petgraph_edges(
                self.graph,
            )[e].1 && self.ends@[e].0 < self.nodes && self.ends@[e].1 < self.nodes
    }

    /// Every edge joins two nodes of the graph.
    pub proof fn lemma_edges_in_range(&self)
        requires
            self.wf(),
        ensures
            forall|e: int|
                0 <= e < self.edges().len() ==> (#[trigger] self.edges()[e]).0 < self.node_count()
                    && self.edges()[e].1 < self.node_count(),
    {
        assert forall|e: int| 0 <= e < self.edges().len() implies (#[trigger] self.edges()[e]).0
            < self.node_count() && self.edges()[e].1 < self.node_count() by {
            assert(self.ends@[e].0 < self.nodes);
        }
    }

    /// A graph of `nodes` nodes and no edges.
    pub fn new(nodes: usize, edges_capacity: usize) -> (r: NavGraph)
        requires
            nodes < u32::MAX,
            edges_capacity <= u32::MAX,
        ensures
            r.wf(),
            r.node_count() == nodes,
            r.edges() == Seq::<(nat, nat)>::empty(),
    {
        let mut graph = petgraph_with_capacity(nodes, edges_capacity);
        let mut i: usize = 0;
        while i < nodes
            invariant
                i <= nodes,
                nodes < u32::MAX,
                petgraph_node_count(graph) == i,
                petgraph_edges(graph) == Seq::<(nat, nat)>::empty(),
            decreases nodes - i,
        {
            petgraph_add_node(&mut graph);
            i = i + 1;
        }
        NavGraph { graph, nodes, ends: Vec::new() }
    }

    pub fn num_nodes(&self) -> (r: usize)
        requires
            self.wf(),
        ensures
            r == self.node_count(),
    {
        self.nodes
    }

    pub fn edge_count(&self) -> (r: usize)
        requires
            self.wf(),
        ensures
            r == self.edges().len(),
            r <= u32::MAX,
    {
        self.ends.len()
    }

    /// The endpoints of edge `e`.
    pub fn edge(&self, e: usize) -> (r: (usize, usize))
        requires
            self.wf(),
            e < self.edges().len(),
        ensures
            r.0 as nat == self.edges()[e as int].0,
            r.1 as nat == self.edges()[e as int].1,
            r.0 < self.node_count(),
            r.1 < self.node_count(),
    {
        self.ends[e]
    }

    /// Appends a node, with the next index.
    pub fn add_node(&mut self) -> (r: usize)
        requires
            old(self).wf(),
            old(self).node_count() + 1 < u32::MAX,
        ensures
            final(self).wf(),
            r == old(self).node_count(),
            final(self).node_count() == old(self).node_count() + 1,
            final(self).edges() == old(self).edges(),
    {
        let r = petgraph_add_node(&mut self.graph);
        self.nodes = self.nodes + 1;
        r
    }

    /// Appends the edge `a -> b`.
    pub fn add_edge(&mut self, a: usize, b: usize)
        requires
            old(self).wf(),
            a < old(self).node_count(),
            b < old(self).node_count(),
            old(self).edges().len() < u32::MAX,
        ensures
            final(self).wf(),
            final(self).node_count() == old(self).node_count(),
            final(self).edges() == old(self).edges().push((a as nat, b as nat)),
    {
        petgraph_add_edge(&mut self.graph, a, b);
        self.ends.push((a, b));
    }

    /// The targets of the edges leaving `a`, the most recently added first.
    pub fn neighbors(&self, a: usize) -> (r: Vec<usize>)
        requires
            self.wf(),
            a < self.node_count(),
        ensures
            nat_seq(r@) == out_targets(self.edges(), a as nat),
            forall|k: int| 0 <= k < r@.len() ==> #[trigger] r@[k] < self.node_count(),
    {
        let r = petgraph_neighbors(&self.graph, a);
        proof {
            self.lemma_edges_in_range();
            lemma_out_targets_bound(self.edges(), a as nat, self.node_count());
            assert forall|k: int| 0 <= k < r@.len() implies #[trigger] r@[k] < self.node_count() by {
                assert(nat_seq(r@)[k] == r@[k] as nat);
            }
        }
        r
    }

    /// The cheapest walk from `start` to `goal` under `weights` (one weight per
    /// edge), with its cost; `None` when `goal` cannot be reached.
    pub fn find_path(&self, start: usize, goal: usize, weights: &Vec<u128>) -> (r: Option<CostedPath>)
        requires
            self.wf(),
            start < self.node_count(),
            goal < self.node_count(),
            weights@.len() == self.edges().len(),
            forall|i: int| 0 <= i < weights@.len() ==> #[trigger] weights@[i] <= MAX_EDGE_WEIGHT,
        ensures
            start == goal ==> r is Some && r.unwrap().0 == 0 && r.unwrap().1@ == seq![start],
            r is None ==> !reachable(self.edges(), start as nat, goal as nat),
            r matches Some((c, path)) ==> is_cheapest_path(
                self.edges(),
                weights@,
                start as nat,
                goal as nat,
                c as int,
                nat_seq(path@),
            ),
            r matches Some((c, path)) ==> forall|k: int|
                0 <= k < path@.len() ==> #[trigger] path@[k] < self.node_count(),
            r matches Some((c, path)) ==> nat_seq(path@).no_duplicates(),
    {
        let r = petgraph_astar(&self.graph, start, goal, weights);
        proof {
            if r is Some {
                let path = r.unwrap().1;
                let c = r.unwrap().0;
                let w = choose|w: Seq<nat>|
                    #[trigger] is_walk(self.edges(), w, start as nat, goal as nat) && walk_cost(weights@, w)
                        == c && nat_seq(path@) == walk_nodes(self.edges(), start as nat, w);
                self.lemma_edges_in_range();
                assert(nat_seq(path@).len() == path@.len());
                assert(walk_nodes(self.edges(), start as nat, w).len() == w.len() + 1);
                assert forall|k: int| 0 <= k < path@.len() implies #[trigger] path@[k] < self.node_count() by {
                    assert(nat_seq(path@)[k] == path@[k] as nat);
                    if k > 0 {
                        assert(0 <= k - 1 < w.len());
                        assert(walk_nodes(self.edges(), start as nat, w)[k] == self.edges()[w[k - 1] as int].1);
                        assert(w[k - 1] < self.edges().len());
                    }
                }
            }
        }
        r
    }

    /// The strongly connected components, each node in exactly one.
    pub fn find_islands(&self) -> (r: Vec<Vec<usize>>)
        requires
            self.wf(),
        ensures
            is_scc_split(self.edges(), self.node_count(), r@.map_values(|c: Vec<usize>| c@)),
    {
        petgraph_kosaraju_scc(&self.graph)
    }
}

} // verus!
