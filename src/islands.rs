//! A graph of islands and the portals between them, with explicit distances.
use crate::graph::{
    has_reverse, is_cheapest_path, is_scc_split, nat_seq, out_targets, reachable,
    NavGraph, MAX_EDGE_WEIGHT,
};
use crate::new_id;
use typid::ID;
use vstd::laws_eq::obeys_concrete_eq;
use vstd::prelude::*;
use vstd::std_specs::cmp::PartialEqSpec;

verus! {

/// A node of the portal graph: an island, and one of its portals or, with
/// `None`, the island's interior.
#[derive(Debug, Clone, Eq, Hash)]
pub struct NavIslandPortal<Island, Portal> {
    pub island: Island,
    pub portal: Option<Portal>,
}

impl<Island: PartialEq, Portal: PartialEq> PartialEq for NavIslandPortal<Island, Portal> {
    fn eq(&self, other: &Self) -> (r: bool) {
        self.island == other.island && self.portal == other.portal
    }
}

impl<Island: PartialEq, Portal: PartialEq> vstd::std_specs::cmp::PartialEqSpecImpl for NavIslandPortal<Island, Portal> {
    open spec fn obeys_eq_spec() -> bool {
        Island::obeys_eq_spec() && Portal::obeys_eq_spec()
    }

    open spec fn eq_spec(&self, other: &Self) -> bool {
        self.island.eq_spec(&other.island) && PartialEqSpec::eq_spec(&self.portal, &other.portal)
    }
}

/// `==` on islands and on portals is plain equality.
pub open spec fn lawful_eq<Island: PartialEq, Portal: PartialEq>() -> bool {
    obeys_concrete_eq::<Island>() && obeys_concrete_eq::<Portal>()
}

proof fn lemma_portal_eq<Island: PartialEq, Portal: PartialEq>(
    a: NavIslandPortal<Island, Portal>,
    b: NavIslandPortal<Island, Portal>,
)
    requires
        lawful_eq::<Island, Portal>(),
    ensures
        NavIslandPortal::<Island, Portal>::obeys_eq_spec(),
        a.eq_spec(&b) <==> a == b,
{
    reveal(obeys_concrete_eq);
    match (a.portal, b.portal) {
        (Some(x), Some(y)) => {
            assert(x.eq_spec(&y) <==> x == y);
        },
        _ => {},
    }
}

/// A directed link between two portal-graph nodes, with its distance.
#[derive(Debug, Clone)]
pub struct NavIslandsConnection<Island, Portal> {
    pub from: NavIslandPortal<Island, Portal>,
    pub to: NavIslandPortal<Island, Portal>,
    pub distance: u32,
}

/// The weight of each edge: its distance times the product of its end nodes'
/// costs where the edge is allowed, else the blocking weight.
pub open spec fn distance_weights(
    edges: Seq<(nat, nat)>,
    distances: Seq<u32>,
    costs: Seq<u32>,
    allowed: Seq<bool>,
) -> Seq<u128> {
    Seq::new(
        edges.len(),
        |e: int|
            if allowed[e] {
                (distances[e] * costs[edges[e].0 as int] * costs[edges[e].1 as int]) as u128
            } else {
                MAX_EDGE_WEIGHT
            },
    )
}

/// Tags the identifiers of portal graphs.
pub struct IslandsTag;

/// Identifier of a portal graph.
pub type NavIslandsID = ID<IslandsTag>;

/// A graph whose nodes are (island, portal) pairs, each with a cost
/// multiplier, linked by connections of given distances.
///
/// Nodes are told apart with `==`; what the contracts say of which nodes the
/// graph holds and finds is stated where `==` on the island and portal types
/// is plain equality (`lawful_eq`).
pub struct NavIslands<Island, Portal> {
    id: NavIslandsID,
    costs: Vec<u32>,
    portals: Vec<NavIslandPortal<Island, Portal>>,
    distances: Vec<u32>,
    graph: NavGraph,
}


/// The index of `p` in `portals`, appending it when absent.
fn find_or_push<Island: PartialEq, Portal: PartialEq>(
    portals: &mut Vec<NavIslandPortal<Island, Portal>>,
    p: NavIslandPortal<Island, Portal>,
) -> (r: usize)
    requires
        old(portals)@.len() + 1 < usize::MAX,
    ensures
        r < final(portals)@.len(),
        old(portals)@.len() <= final(portals)@.len() <= old(portals)@.len() + 1,
        forall|k: int| 0 <= k < old(portals)@.len() ==> #[trigger] final(portals)@[k] == old(portals)@[k],
        lawful_eq::<Island, Portal>() ==> {
            &&& final(portals)@[r as int] == p
            &&& old(portals)@.contains(p) ==> final(portals)@ == old(portals)@
            &&& !old(portals)@.contains(p) ==> final(portals)@ == old(portals)@.push(p)
        },
{
    let mut k: usize = 0;
    while k < portals.len()
        invariant
            k <= portals@.len(),
            portals@ == old(portals)@,
            lawful_eq::<Island, Portal>() ==> forall|j: int| 0 <= j < k ==> portals@[j] != p,
        decreases portals@.len() - k,
    {
        if portals[k] == p {
            proof {
                if lawful_eq::<Island, Portal>() {
                    lemma_portal_eq(portals@[k as int], p);
                }
            }
            return k;
        }
        proof {
            if lawful_eq::<Island, Portal>() {
                lemma_portal_eq(portals@[k as int], p);
            }
        }
        k = k + 1;
    }
    portals.push(p);
    k
}

/// The index of `p` in `portals`, if any.
fn find<Island: PartialEq, Portal: PartialEq>(
    portals: &Vec<NavIslandPortal<Island, Portal>>,
    p: &NavIslandPortal<Island, Portal>,
) -> (r: Option<usize>)
    ensures
        r matches Some(i) ==> i < portals@.len(),
        lawful_eq::<Island, Portal>() ==> (r matches Some(i) ==> portals@[i as int] == *p),
        lawful_eq::<Island, Portal>() ==> (r is None ==> !portals@.contains(*p)),
{
    let mut k: usize = 0;
    while k < portals.len()
        invariant
            k <= portals@.len(),
            lawful_eq::<Island, Portal>() ==> forall|j: int| 0 <= j < k ==> portals@[j] != *p,
        decreases portals@.len() - k,
    {
        if portals[k] == *p {
            proof {
                if lawful_eq::<Island, Portal>() {
                    lemma_portal_eq(portals@[k as int], *p);
                }
            }
            return Some(k);
        }
        proof {
            if lawful_eq::<Island, Portal>() {
                lemma_portal_eq(portals@[k as int], *p);
            }
        }
        k = k + 1;
    }
    None
}

/// Where connection `i` of `conns` left its edges: at `i`, or at `2 * i`
/// and `2 * i + 1` when connections run both ways.
pub open spec fn first_edge(i: int, both_ways: bool) -> int {
    if both_ways {
        2 * i
    } else {
        i
    }
}

/// The edges at `first_edge(i)` are those connection `c` gives.
pub open spec fn edges_of_connection<Island, Portal>(
    portals: Seq<NavIslandPortal<Island, Portal>>,
    edges: Seq<(nat, nat)>,
    distances: Seq<u32>,
    c: NavIslandsConnection<Island, Portal>,
    f: int,
    both_ways: bool,
) -> bool {
    &&& portals[edges[f].0 as int] == c.from
    &&& portals[edges[f].1 as int] == c.to
    &&& distances[f] == c.distance
    &&& both_ways ==> portals[edges[f + 1].0 as int] == c.to && portals[edges[f + 1].1 as int]
        == c.from && distances[f + 1] == c.distance
}

/// The nodes of a sequence of node indices.
pub open spec fn portals_path<Island, Portal>(
    portals: Seq<NavIslandPortal<Island, Portal>>,
    nodes: Seq<nat>,
) -> Seq<NavIslandPortal<Island, Portal>> {
    nodes.map_values(|n: nat| portals[n as int])
}

/// The values behind a sequence of references.
pub open spec fn derefs<Island, Portal>(v: Seq<&NavIslandPortal<Island, Portal>>) -> Seq<
    NavIslandPortal<Island, Portal>,
> {
    v.map_values(|x: &NavIslandPortal<Island, Portal>| *x)
}

/// Edge `k` has a reverse edge of the same distance.
pub open spec fn has_reverse_edge(edges: Seq<(nat, nat)>, distances: Seq<u32>, k: int) -> bool {
    exists|k2: int|
        0 <= k2 < edges.len() && #[trigger] edges[k2] == (edges[k].1, edges[k].0) && distances[k2]
            == distances[k]
}

/// Portal `p` is an end of one of the connections.
pub open spec fn mentioned<Island, Portal>(
    conns: Seq<NavIslandsConnection<Island, Portal>>,
    p: NavIslandPortal<Island, Portal>,
) -> bool {
    exists|i: int| 0 <= i < conns.len() && (#[trigger] conns[i].from == p || conns[i].to == p)
}

impl<Island: PartialEq, Portal: PartialEq> NavIslands<Island, Portal> {
    /// The nodes, one per (island, portal) pair.
    pub closed spec fn spec_portals(&self) -> Seq<NavIslandPortal<Island, Portal>> {
        self.portals@
    }

    /// The cost multiplier of each node.
    pub closed spec fn spec_costs(&self) -> Seq<u32> {
        self.costs@
    }

    /// The directed edges between node indices.
    pub closed spec fn spec_edges(&self) -> Seq<(nat, nat)> {
        self.graph.edges()
    }

    /// The distance of each edge.
    pub closed spec fn spec_distances(&self) -> Seq<u32> {
        self.distances@
    }

    pub closed spec fn wf(&self) -> bool {
        &&& self.graph.wf()
        &&& self.costs@.len() == self.portals@.len()
        &&& self.graph.node_count() == self.portals@.len()
        &&& self.distances@.len() == self.graph.edges().len()
        &&& lawful_eq::<Island, Portal>() ==> self.portals@.no_duplicates()
    }

    /// The shape a well-formed portal graph keeps: one cost per node, one
    /// distance per edge, and distinct nodes where `==` is plain equality.
    pub proof fn lemma_shape(&self)
        requires
            self.wf(),
        ensures
            self.spec_costs().len() == self.spec_portals().len(),
            self.spec_distances().len() == self.spec_edges().len(),
            lawful_eq::<Island, Portal>() ==> self.spec_portals().no_duplicates(),
    {
    }

    /// Builds the graph over every (island, portal) pair the connections
    /// mention, each once, with one edge per connection, and a reverse one too
    /// where `both_ways` holds; every cost is 1.
    pub fn new(connections: Vec<NavIslandsConnection<Island, Portal>>, both_ways: bool) -> (r: Self)
        requires
            connections@.len() <= crate::grid::MAX_CELLS,
        ensures
            r.wf(),
            r.spec_costs() == Seq::new(r.spec_portals().len(), |i: int| 1u32),
            r.spec_edges().len() == first_edge(connections@.len() as int, both_ways),
            both_ways ==> r.is_two_way(),
            lawful_eq::<Island, Portal>() ==> {
                &&& r.spec_portals().no_duplicates()
                &&& forall|p: NavIslandPortal<Island, Portal>|
                    #[trigger] r.spec_portals().contains(p) <==> mentioned(connections@, p)
                &&& forall|i: int|
                    0 <= i < connections@.len() ==> edges_of_connection(
                        r.spec_portals(),
                        r.spec_edges(),
                        r.spec_distances(),
                        #[trigger] connections@[i],
                        first_edge(i, both_ways),
                        both_ways,
                    )
            },
    {
        let ghost orig = connections@;
        let n = connections.len();
        let mut conns = connections;
        let mut portals: Vec<NavIslandPortal<Island, Portal>> = Vec::new();
        let mut distances: Vec<u32> = Vec::new();
        let mut graph = NavGraph::new(0, n);
        let mut t: usize = 0;
        while t < n
            invariant
                n == orig.len(),
                n <= crate::grid::MAX_CELLS,
                t <= n,
                conns@ == orig.skip(t as int),
                graph.wf(),
                graph.node_count() == portals@.len(),
                portals@.len() <= 2 * t,
                distances@.len() == graph.edges().len(),
                graph.edges().len() == first_edge(t as int, both_ways),
                both_ways ==> forall|i: int|
                    0 <= i < t ==> #[trigger] graph.edges()[2 * i + 1] == (
                        graph.edges()[2 * i].1,
                        graph.edges()[2 * i].0,
                    ) && distances@[2 * i + 1] == distances@[2 * i],
                lawful_eq::<Island, Portal>() ==> {
                    &&& portals@.no_duplicates()
                    &&& forall|p: NavIslandPortal<Island, Portal>|
                        #[trigger] portals@.contains(p) <==> mentioned(orig.take(t as int), p)
                    &&& forall|i: int|
                        0 <= i < t ==> edges_of_connection(
                            portals@,
                            graph.edges(),
                            distances@,
                            #[trigger] orig[i],
                            first_edge(i, both_ways),
                            both_ways,
                        )
                },
            decreases n - t,
        {
            assert(conns@[0] == orig[t as int]);
            let c = conns.remove(0);
            assert(conns@ =~= orig.skip(t as int + 1));
            let NavIslandsConnection { from, to, distance } = c;
            let ghost p0 = portals@;
            let ghost g0 = graph.edges();
            let ghost d0 = distances@;
            let ghost gr0 = graph;
            let ia = find_or_push(&mut portals, from);
            if portals.len() > graph.num_nodes() {
                graph.add_node();
            }
            let ghost p1 = portals@;
            let ib = find_or_push(&mut portals, to);
            if portals.len() > graph.num_nodes() {
                graph.add_node();
            }
            graph.add_edge(ia, ib);
            distances.push(distance);
            if both_ways {
                graph.add_edge(ib, ia);
                distances.push(distance);
            }
            proof {
                let p2 = portals@;
                let g2 = graph.edges();
                let d2 = distances@;
                assert(forall|k: int| 0 <= k < g0.len() ==> #[trigger] g2[k] == g0[k]);
                assert(forall|k: int| 0 <= k < d0.len() ==> #[trigger] d2[k] == d0[k]);
                if both_ways {
                    assert forall|i: int| 0 <= i < t + 1 implies #[trigger] g2[2 * i + 1] == (g2[2 * i].1, g2[2 * i].0)
                        && d2[2 * i + 1] == d2[2 * i] by {
                        if i < t {
                            assert(g0[2 * i + 1] == (g0[2 * i].1, g0[2 * i].0));
                            assert(g2[2 * i + 1] == g0[2 * i + 1]);
                            assert(g2[2 * i] == g0[2 * i]);
                            assert(d2[2 * i + 1] == d0[2 * i + 1]);
                            assert(d2[2 * i] == d0[2 * i]);
                        }
                    }
                }
                assert(forall|k: int| 0 <= k < p0.len() ==> #[trigger] p2[k] == p0[k]);
                if lawful_eq::<Island, Portal>() {
                    assert(orig.take(t as int + 1) == orig.take(t as int).push(c));
                    assert forall|q: NavIslandPortal<Island, Portal>|
                        #[trigger] p2.contains(q) <==> mentioned(orig.take(t as int + 1), q) by {
                        if p2.contains(q) && q != c.from && q != c.to {
                            let x = choose|x: int| 0 <= x < p2.len() && #[trigger] p2[x] == q;
                            assert(p0[x] == q);
                            assert(p0.contains(q));
                            let y = choose|y: int|
                                0 <= y < t && (#[trigger] orig.take(t as int)[y].from == q || orig.take(t as int)[y].to == q);
                            assert(orig.take(t as int + 1)[y] == orig.take(t as int)[y]);
                        }
                        if mentioned(orig.take(t as int + 1), q) && q != c.from && q != c.to {
                            let y = choose|y: int|
                                0 <= y < t + 1 && (#[trigger] orig.take(t as int + 1)[y].from == q || orig.take(t as int + 1)[y].to == q);
                            assert(y != t);
                            assert(orig.take(t as int)[y] == orig.take(t as int + 1)[y]);
                            assert(p0.contains(q));
                            let x = choose|x: int| 0 <= x < p0.len() && #[trigger] p0[x] == q;
                            assert(p2[x] == q);
                        }
                        if q == c.from {
                            assert(p2[ia as int] == q);
                            assert(orig.take(t as int + 1)[t as int].from == q);
                        }
                        if q == c.to {
                            assert(p2[ib as int] == q);
                            assert(orig.take(t as int + 1)[t as int].to == q);
                        }
                    }
                    assert forall|i: int|
                        0 <= i < t + 1 implies edges_of_connection(
                            p2,
                            g2,
                            d2,
                            #[trigger] orig[i],
                            first_edge(i, both_ways),
                            both_ways,
                        ) by {
                        if i < t {
                            assert(edges_of_connection(p0, g0, d0, orig[i], first_edge(i, both_ways), both_ways));
                            let f = first_edge(i, both_ways);
                            gr0.lemma_edges_in_range();
                            assert(p2[g0[f].0 as int] == p0[g0[f].0 as int]);
                            assert(p2[g0[f].1 as int] == p0[g0[f].1 as int]);
                            if both_ways {
                                assert(p2[g0[f + 1].0 as int] == p0[g0[f + 1].0 as int]);
                                assert(p2[g0[f + 1].1 as int] == p0[g0[f + 1].1 as int]);
                            }
                            assert(g2[f] == g0[f]);
                            assert(d2[f] == d0[f]);
                            if both_ways {
                                assert(g2[f + 1] == g0[f + 1]);
                                assert(d2[f + 1] == d0[f + 1]);
                            }
                        } else {
                            let f = first_edge(i, both_ways);
                            assert(f == g0.len());
                            assert(c == orig[i]);
                            assert(d2[f] == distance);
                            assert(g2[f] == (ia as nat, ib as nat));
                            assert(p2[ib as int] == c.to);
                            assert(p1[ia as int] == c.from);
                            assert(p2[ia as int] == c.from);
                            if both_ways {
                                assert(g2[f + 1] == (ib as nat, ia as nat));
                                assert(d2[f + 1] == distance);
                            }
                        }
                    }
                }
            }
            t = t + 1;
        }
        proof {
            assert(orig.take(n as int) == orig);
        }
        let costs: Vec<u32> = vec![1u32; portals.len()];
        let r = NavIslands { id: new_id(), costs, portals, distances, graph };
        proof {
            if both_ways {
                assert forall|k: int| 0 <= k < r.spec_edges().len() implies #[trigger] has_reverse_edge(
                    r.spec_edges(),
                    r.spec_distances(),
                    k,
                ) by {
                    let i = k / 2;
                    if k % 2 == 0 {
                        assert(k == 2 * i);
                        assert(r.spec_edges()[2 * i + 1] == (r.spec_edges()[2 * i].1, r.spec_edges()[2 * i].0));
                        assert(r.spec_edges()[k + 1] == (r.spec_edges()[k].1, r.spec_edges()[k].0));
                    } else {
                        assert(k == 2 * i + 1);
                        assert(r.spec_edges()[2 * i + 1] == (r.spec_edges()[2 * i].1, r.spec_edges()[2 * i].0));
                        assert(r.spec_edges()[k - 1] == (r.spec_edges()[k].1, r.spec_edges()[k].0));
                    }
                }
            }
        }
        r
    }

    /// `p` is the cheapest path, of cost `c`, from `from` to `to` under `weights`.
    pub open spec fn is_found_path(
        &self,
        from: NavIslandPortal<Island, Portal>,
        to: NavIslandPortal<Island, Portal>,
        weights: Seq<u128>,
        c: int,
        p: Seq<NavIslandPortal<Island, Portal>>,
    ) -> bool {
        exists|i: nat, j: nat, nodes: Seq<nat>|
            #[trigger] is_cheapest_path(self.spec_edges(), weights, i, j, c, nodes) && i
                < self.spec_portals().len() && j < self.spec_portals().len()
                && self.spec_portals()[i as int] == from && self.spec_portals()[j as int] == to
                && nodes.no_duplicates() && p == portals_path(self.spec_portals(), nodes)
    }

    /// `p` is a cheapest path, of cost `c`, between two nodes of the graph,
    /// visiting no node twice.
    pub open spec fn is_path_between_nodes(&self, weights: Seq<u128>, c: int, p: Seq<
        NavIslandPortal<Island, Portal>,
    >) -> bool {
        exists|i: nat, j: nat, nodes: Seq<nat>|
            #[trigger] is_cheapest_path(self.spec_edges(), weights, i, j, c, nodes) && i
                < self.spec_portals().len() && j < self.spec_portals().len()
                && nodes.no_duplicates() && p == portals_path(self.spec_portals(), nodes)
    }

    /// `to` cannot be reached from `from` (or either is no node of the graph).
    pub open spec fn is_unreachable(
        &self,
        from: NavIslandPortal<Island, Portal>,
        to: NavIslandPortal<Island, Portal>,
    ) -> bool {
        forall|i: nat, j: nat|
            i < self.spec_portals().len() && j < self.spec_portals().len()
                && self.spec_portals()[i as int] == from && self.spec_portals()[j as int] == to
                ==> !#[trigger] reachable(self.spec_edges(), i, j)
    }

    /// The graph's identifier.
    pub fn id(&self) -> (r: NavIslandsID) {
        self.id
    }

    /// The nodes, one per (island, portal) pair.
    pub fn portals(&self) -> (r: &[NavIslandPortal<Island, Portal>])
        ensures
            r@ == self.spec_portals(),
    {
        self.portals.as_slice()
    }

    /// The cost multiplier of each node.
    pub fn portals_costs(&self) -> (r: &[u32])
        ensures
            r@ == self.spec_costs(),
    {
        self.costs.as_slice()
    }

    /// The index of node `portal`, if the graph has it.
    pub fn index(&self, portal: &NavIslandPortal<Island, Portal>) -> (r: Option<usize>)
        ensures
            r matches Some(i) ==> i < self.spec_portals().len(),
            lawful_eq::<Island, Portal>() ==> (r matches Some(i) ==> self.spec_portals()[i as int]
                == *portal),
            lawful_eq::<Island, Portal>() ==> (r is None ==> !self.spec_portals().contains(*portal)),
    {
        find(&self.portals, portal)
    }

    /// The node at `index`, or `None` past the end.
    pub fn portal(&self, index: usize) -> (r: Option<&NavIslandPortal<Island, Portal>>)
        ensures
            index < self.spec_portals().len() ==> r == Some(&self.spec_portals()[index as int]),
            index >= self.spec_portals().len() ==> r is None,
    {
        if index < self.portals.len() {
            Some(&self.portals[index])
        } else {
            None
        }
    }

    /// Sets the cost of node `portal` and returns the former cost; `None`
    /// (and no change) when the graph lacks it.
    pub fn set_portal_cost(&mut self, portal: &NavIslandPortal<Island, Portal>, cost: u32) -> (r:
        Option<u32>)
        requires
            old(self).wf(),
        ensures
            final(self).wf(),
            final(self).spec_portals() == old(self).spec_portals(),
            final(self).spec_edges() == old(self).spec_edges(),
            final(self).spec_distances() == old(self).spec_distances(),
            r is None ==> final(self).spec_costs() == old(self).spec_costs(),
            r matches Some(c) ==> exists|i: int|
                0 <= i < old(self).spec_costs().len() && c == #[trigger] old(self).spec_costs()[i]
                    && final(self).spec_costs() == old(self).spec_costs().update(i, cost)
                    && (lawful_eq::<Island, Portal>() ==> old(self).spec_portals()[i] == *portal),
            lawful_eq::<Island, Portal>() ==> (r is None <==> !old(self).spec_portals().contains(
                *portal,
            )),
    {
        match find(&self.portals, portal) {
            None => None,
            Some(i) => {
                let old_cost = self.costs[i];
                let ghost before = self.costs@;
                self.costs.set(i, cost);
                proof {
                    let gi = i as int;
                    assert(before == old(self).spec_costs());
                    assert(self.portals@ == old(self).spec_portals());
                    assert(0 <= gi < before.len() && old_cost == before[gi] && self.costs@
                        == before.update(gi, cost) && (lawful_eq::<Island, Portal>()
                        ==> self.portals@[gi] == *portal));
                }
                Some(old_cost)
            },
        }
    }

    /// The nodes at the given indices.
    fn to_portals(&self, nodes: &Vec<usize>) -> (r: Vec<&NavIslandPortal<Island, Portal>>)
        requires
            self.wf(),
            forall|k: int| 0 <= k < nodes@.len() ==> #[trigger] nodes@[k] < self.spec_portals().len(),
        ensures
            derefs(r@) == portals_path(self.spec_portals(), nat_seq(nodes@)),
    {
        let mut out: Vec<&NavIslandPortal<Island, Portal>> = Vec::new();
        let mut k: usize = 0;
        while k < nodes.len()
            invariant
                self.wf(),
                k <= nodes@.len(),
                forall|x: int| 0 <= x < nodes@.len() ==> #[trigger] nodes@[x] < self.spec_portals().len(),
                derefs(out@) == portals_path(self.spec_portals(), nat_seq(nodes@).take(k as int)),
            decreases nodes@.len() - k,
        {
            let t = nodes[k];
            let ghost before = out@;
            out.push(&self.portals[t]);
            proof {
                assert(out@ == before.push(&self.portals@[t as int]));
                assert(derefs(out@) =~= derefs(before).push(self.portals@[t as int]));
                assert(nat_seq(nodes@).take(k as int + 1) == nat_seq(nodes@).take(k as int).push(t as nat));
                assert(portals_path(self.spec_portals(), nat_seq(nodes@).take(k as int + 1)) =~= portals_path(self.spec_portals(), nat_seq(nodes@).take(k as int)).push(self.spec_portals()[t as int]));
            }
            k = k + 1;
        }
        proof {
            assert(nat_seq(nodes@).take(nodes@.len() as int) == nat_seq(nodes@));
        }
        out
    }

    /// The nodes that `portal` links to, the most recently linked first;
    /// `None` when the graph lacks `portal`.
    pub fn neighbors(&self, portal: &NavIslandPortal<Island, Portal>) -> (r: Option<
        Vec<&NavIslandPortal<Island, Portal>>,
    >)
        requires
            self.wf(),
        ensures
            lawful_eq::<Island, Portal>() ==> (r is Some <==> self.spec_portals().contains(*portal)),
            r matches Some(v) ==> exists|i: int|
                0 <= i < self.spec_portals().len() && (lawful_eq::<Island, Portal>()
                    ==> self.spec_portals()[i] == *portal) && derefs(v@) == #[trigger] portals_path(
                    self.spec_portals(),
                    out_targets(self.spec_edges(), i as nat),
                ),
    {
        let i = match find(&self.portals, portal) {
            None => return None,
            Some(i) => i,
        };
        let targets = self.graph.neighbors(i);
        let out = self.to_portals(&targets);
        let ghost gi = i as int;
        assert(derefs(out@) == portals_path(self.spec_portals(), out_targets(self.spec_edges(), gi as nat)));
        Some(out)
    }

    /// The search shared by the public queries: `allowed` says, per edge,
    /// whether it weighs its distance times its nodes' costs, or the blocking
    /// weight.
    fn search(
        &self,
        from: &NavIslandPortal<Island, Portal>,
        to: &NavIslandPortal<Island, Portal>,
        allowed: &Vec<bool>,
    ) -> (r: Option<(u128, Vec<&NavIslandPortal<Island, Portal>>)>)
        requires
            self.wf(),
            allowed@.len() == self.spec_edges().len(),
        ensures
            lawful_eq::<Island, Portal>() ==> (r is Some ==> self.spec_portals().contains(*from)
                && self.spec_portals().contains(*to)),
            lawful_eq::<Island, Portal>() ==> (r is None ==> self.is_unreachable(*from, *to)),
            r matches Some((c, p)) ==> self.is_path_between_nodes(
                distance_weights(self.spec_edges(), self.spec_distances(), self.spec_costs(), allowed@),
                c as int,
                derefs(p@),
            ),
            lawful_eq::<Island, Portal>() ==> (r matches Some((c, p)) ==> self.is_found_path(
                *from,
                *to,
                distance_weights(self.spec_edges(), self.spec_distances(), self.spec_costs(), allowed@),
                c as int,
                derefs(p@),
            )),
            lawful_eq::<Island, Portal>() ==> (self.spec_portals().contains(*from) && *from == *to
                ==> r is Some && r.unwrap().0 == 0 && derefs(r.unwrap().1@) == seq![*from]),
    {
        let start = match find(&self.portals, from) {
            None => return None,
            Some(i) => i,
        };
        let goal = match find(&self.portals, to) {
            None => return None,
            Some(i) => i,
        };
        let ghost edges = self.spec_edges();
        let ghost want = distance_weights(edges, self.distances@, self.costs@, allowed@);
        let n = self.graph.edge_count();
        let mut weights: Vec<u128> = Vec::new();
        let mut e: usize = 0;
        while e < n
            invariant
                self.wf(),
                edges == self.spec_edges(),
                n == edges.len(),
                allowed@.len() == n,
                want == distance_weights(edges, self.distances@, self.costs@, allowed@),
                e <= n,
                weights@ == want.take(e as int),
                forall|k: int| 0 <= k < weights@.len() ==> #[trigger] weights@[k] <= MAX_EDGE_WEIGHT,
            decreases n - e,
        {
            let (a, b) = self.graph.edge(e);
            let w = if allowed[e] {
                let d = self.distances[e];
                let ca = self.costs[a];
                let cb = self.costs[b];
                proof {
                    assert((d as int) * (ca as int) <= 0xFFFF_FFFF * 0xFFFF_FFFF) by (nonlinear_arith)
                        requires d <= 0xFFFF_FFFFu32, ca <= 0xFFFF_FFFFu32;
                    assert(0 <= (d as int) * (ca as int)) by (nonlinear_arith);
                    assert((d as int) * (ca as int) * (cb as int) <= 0xFFFF_FFFF * 0xFFFF_FFFF * 0xFFFF_FFFF) by (nonlinear_arith)
                        requires d <= 0xFFFF_FFFFu32, ca <= 0xFFFF_FFFFu32, cb <= 0xFFFF_FFFFu32;
                    assert(0 <= (d as int) * (ca as int) * (cb as int)) by (nonlinear_arith);
                }
                d as u128 * ca as u128 * cb as u128
            } else {
                MAX_EDGE_WEIGHT
            };
            weights.push(w);
            proof {
                assert(want.take(e as int + 1) == want.take(e as int).push(want[e as int]));
            }
            e = e + 1;
        }
        proof {
            assert(want.take(n as int) == want);
        }
        match self.graph.find_path(start, goal, &weights) {
            None => None,
            Some((cost, nodes)) => {
                let out = self.to_portals(&nodes);
                proof {
                    assert(is_cheapest_path(edges, want, start as nat, goal as nat, cost as int, nat_seq(nodes@)));
                    assert(self.is_path_between_nodes(want, cost as int, derefs(out@)));
                    if lawful_eq::<Island, Portal>() {
                        assert(self.is_found_path(*from, *to, want, cost as int, derefs(out@)));
                        if *from == *to {
                            assert(start == goal);
                            assert(nat_seq(nodes@) =~= seq![start as nat]);
                            assert(derefs(out@) =~= seq![*from]);
                        }
                    }
                }
                Some((cost, out))
            },
        }
    }

    /// Every edge has a reverse edge of the same distance.
    pub open spec fn is_two_way(&self) -> bool {
        forall|k: int|
            0 <= k < self.spec_edges().len() ==> #[trigger] has_reverse_edge(
                self.spec_edges(),
                self.spec_distances(),
                k,
            )
    }

    /// The cheapest path from `from` to `to` and its total weight, where each
    /// step weighs its distance times the product of its two nodes' costs;
    /// `None` when the graph lacks either node or `to` cannot be reached.
    pub fn find_path(
        &self,
        from: &NavIslandPortal<Island, Portal>,
        to: &NavIslandPortal<Island, Portal>,
    ) -> (r: Option<(u128, Vec<&NavIslandPortal<Island, Portal>>)>)
        requires
            self.wf(),
        ensures
            lawful_eq::<Island, Portal>() ==> (r is Some ==> self.spec_portals().contains(*from)
                && self.spec_portals().contains(*to)),
            lawful_eq::<Island, Portal>() ==> (r is None ==> self.is_unreachable(*from, *to)),
            r matches Some((c, p)) ==> self.is_path_between_nodes(
                distance_weights(
                    self.spec_edges(),
                    self.spec_distances(),
                    self.spec_costs(),
                    Seq::new(self.spec_edges().len(), |e: int| true),
                ),
                c as int,
                derefs(p@),
            ),
            lawful_eq::<Island, Portal>() ==> (r matches Some((c, p)) ==> self.is_found_path(
                *from,
                *to,
                distance_weights(
                    self.spec_edges(),
                    self.spec_distances(),
                    self.spec_costs(),
                    Seq::new(self.spec_edges().len(), |e: int| true),
                ),
                c as int,
                derefs(p@),
            )),
            lawful_eq::<Island, Portal>() ==> (self.spec_portals().contains(*from) && *from == *to
                ==> r is Some && r.unwrap().0 == 0 && derefs(r.unwrap().1@) == seq![*from]),
    {
        let n = self.graph.edge_count();
        let allowed: Vec<bool> = vec![true; n];
        proof {
            assert(allowed@ =~= Seq::new(self.spec_edges().len(), |e: int| true));
        }
        self.search(from, to, &allowed)
    }

    /// Like `find_path`, but a step from `a` to `b` for which `filter(a, b)`
    /// is false weighs the blocking weight, so that it is taken only where no
    /// other way exists.
    pub fn find_path_custom<F: Fn(&NavIslandPortal<Island, Portal>, &NavIslandPortal<Island, Portal>) -> bool>(
        &self,
        from: &NavIslandPortal<Island, Portal>,
        to: &NavIslandPortal<Island, Portal>,
        filter: F,
    ) -> (r: Option<(u128, Vec<&NavIslandPortal<Island, Portal>>)>)
        requires
            self.wf(),
            forall|a: &NavIslandPortal<Island, Portal>, b: &NavIslandPortal<Island, Portal>|
                #[trigger] filter.requires((a, b)),
        ensures
            lawful_eq::<Island, Portal>() ==> (r is Some ==> self.spec_portals().contains(*from)
                && self.spec_portals().contains(*to)),
            lawful_eq::<Island, Portal>() ==> (r is None ==> self.is_unreachable(*from, *to)),
            r matches Some((c, p)) ==> exists|allowed: Seq<bool>|
                {
                    &&& allowed.len() == self.spec_edges().len()
                    &&& forall|e: int|
                        0 <= e < allowed.len() ==> filter.ensures(
                            (
                                &self.spec_portals()[self.spec_edges()[e].0 as int],
                                &self.spec_portals()[self.spec_edges()[e].1 as int],
                            ),
                            #[trigger] allowed[e],
                        )
                    &&& self.is_path_between_nodes(
                        distance_weights(
                            self.spec_edges(),
                            self.spec_distances(),
                            self.spec_costs(),
                            allowed,
                        ),
                        c as int,
                        derefs(p@),
                    )
                },
            lawful_eq::<Island, Portal>() ==> (r matches Some((c, p)) ==> exists|allowed: Seq<bool>|
                {
                    &&& allowed.len() == self.spec_edges().len()
                    &&& forall|e: int|
                        0 <= e < allowed.len() ==> filter.ensures(
                            (
                                &self.spec_portals()[self.spec_edges()[e].0 as int],
                                &self.spec_portals()[self.spec_edges()[e].1 as int],
                            ),
                            #[trigger] allowed[e],
                        )
                    &&& self.is_found_path(
                        *from,
                        *to,
                        distance_weights(
                            self.spec_edges(),
                            self.spec_distances(),
                            self.spec_costs(),
                            allowed,
                        ),
                        c as int,
                        derefs(p@),
                    )
                }),
            lawful_eq::<Island, Portal>() ==> (self.spec_portals().contains(*from) && *from == *to
                ==> r is Some && r.unwrap().0 == 0 && derefs(r.unwrap().1@) == seq![*from]),
    {
        let n = self.graph.edge_count();
        let mut allowed: Vec<bool> = Vec::new();
        let mut e: usize = 0;
        while e < n
            invariant
                self.wf(),
                n == self.spec_edges().len(),
                e <= n,
                allowed@.len() == e,
                forall|a: &NavIslandPortal<Island, Portal>, b: &NavIslandPortal<Island, Portal>|
                    #[trigger] filter.requires((a, b)),
                forall|k: int|
                    0 <= k < e ==> filter.ensures(
                        (
                            &self.spec_portals()[self.spec_edges()[k].0 as int],
                            &self.spec_portals()[self.spec_edges()[k].1 as int],
                        ),
                        #[trigger] allowed@[k],
                    ),
            decreases n - e,
        {
            let (a, b) = self.graph.edge(e);
            let ok = filter(&self.portals[a], &self.portals[b]);
            allowed.push(ok);
            e = e + 1;
        }
        self.search(from, to, &allowed)
    }

    /// The islands of the graph: its nodes grouped into strongly connected
    /// components.
    pub fn find_islands(&self) -> (r: Vec<Vec<&NavIslandPortal<Island, Portal>>>)
        requires
            self.wf(),
        ensures
            exists|comps: Seq<Seq<usize>>|
                #[trigger] is_scc_split(self.spec_edges(), self.spec_portals().len(), comps)
                    && r@.map_values(|v: Vec<&NavIslandPortal<Island, Portal>>| derefs(v@))
                    == comps.map_values(
                    |c: Seq<usize>| portals_path(self.spec_portals(), nat_seq(c)),
                ),
    {
        let comps = self.graph.find_islands();
        let ghost cv = comps@.map_values(|c: Vec<usize>| c@);
        let mut out: Vec<Vec<&NavIslandPortal<Island, Portal>>> = Vec::new();
        let mut i: usize = 0;
        while i < comps.len()
            invariant
                self.wf(),
                cv == comps@.map_values(|c: Vec<usize>| c@),
                is_scc_split(self.spec_edges(), self.spec_portals().len(), cv),
                i <= comps@.len(),
                out@.len() == i,
                forall|k: int|
                    0 <= k < i ==> derefs((#[trigger] out@[k])@) == portals_path(
                        self.spec_portals(),
                        nat_seq(cv[k]),
                    ),
            decreases comps@.len() - i,
        {
            let comp = &comps[i];
            assert(comp@ == cv[i as int]);
            let island = self.to_portals(comp);
            out.push(island);
            i = i + 1;
        }
        assert(out@.map_values(|v: Vec<&NavIslandPortal<Island, Portal>>| derefs(v@)) =~= cv.map_values(
            |c: Seq<usize>| portals_path(self.spec_portals(), nat_seq(c)),
        ));
        out
    }

    /// Over a two-way graph, a node reaches another exactly when the other
    /// reaches it, and the cheapest paths both ways cost the same.
    pub proof fn lemma_find_path_symmetric(&self, a: nat, b: nat, c1: int, p1: Seq<nat>, c2: int, p2: Seq<nat>)
        requires
            self.wf(),
            self.is_two_way(),
        ensures
            reachable(self.spec_edges(), a, b) <==> reachable(self.spec_edges(), b, a),
            ({
                let w = distance_weights(
                    self.spec_edges(),
                    self.spec_distances(),
                    self.spec_costs(),
                    Seq::new(self.spec_edges().len(), |e: int| true),
                );
                is_cheapest_path(self.spec_edges(), w, a, b, c1, p1) && is_cheapest_path(
                    self.spec_edges(),
                    w,
                    b,
                    a,
                    c2,
                    p2,
                ) ==> c1 == c2
            }),
    {
        let edges = self.spec_edges();
        let dist = self.spec_distances();
        let w = distance_weights(edges, dist, self.spec_costs(), Seq::new(edges.len(), |e: int| true));
        self.graph.lemma_edges_in_range();
        assert forall|k: int| 0 <= k < edges.len() implies #[trigger] has_reverse(edges, w, k) by {
            assert(has_reverse_edge(edges, dist, k));
            let k2 = choose|k2: int|
                0 <= k2 < edges.len() && #[trigger] edges[k2] == (edges[k].1, edges[k].0) && dist[k2] == dist[k];
            let d = dist[k];
            let x = self.spec_costs()[edges[k].0 as int];
            let y = self.spec_costs()[edges[k].1 as int];
            assert(d * x * y == d * y * x) by (nonlinear_arith);
            assert(w[k2] == w[k]);
        }
        crate::graph::lemma_symmetric_paths(edges, w, a, b, c1, p1, c2, p2);
    }
}

} // verus!
