//! Graphs over free integer coordinates, given by their connections.
use crate::graph::{
    cost_weights, has_edge, has_reverse, is_cheapest_path, is_scc_split, lemma_has_edge_push,
    nat_seq, out_targets, reachable, NavGraph, MAX_EDGE_WEIGHT,
};
use crate::grid::MAX_CELLS;
use crate::new_id;
use typid::ID;
use vstd::prelude::*;

verus! {

/// An undirected link between two free coordinates.
#[derive(Debug, Default, Copy, Clone, PartialEq, Eq, Hash)]
pub struct NavFreeGridConnection {
    pub from: (isize, isize),
    pub to: (isize, isize),
}

/// Connection `c` joins `x` and `y`, in either direction.
pub open spec fn connects(c: NavFreeGridConnection, x: (isize, isize), y: (isize, isize)) -> bool {
    (c.from == x && c.to == y) || (c.from == y && c.to == x)
}

/// Every coordinate the connections mention: all `from`s, then all `to`s.
pub open spec fn endpoints(conns: Seq<NavFreeGridConnection>) -> Seq<(isize, isize)> {
    conns.map_values(|c: NavFreeGridConnection| c.from) + conns.map_values(
        |c: NavFreeGridConnection| c.to,
    )
}

/// Cells `a` and `b` are joined by one of the connections.
pub open spec fn free_link(
    cells: Seq<(isize, isize)>,
    conns: Seq<NavFreeGridConnection>,
    a: nat,
    b: nat,
) -> bool {
    a < cells.len() && b < cells.len() && exists|i: int|
        0 <= i < conns.len() && connects(#[trigger] conns[i], cells[a as int], cells[b as int])
}

/// The coordinates of a sequence of cell indices.
pub open spec fn cells_path(cells: Seq<(isize, isize)>, nodes: Seq<nat>) -> Seq<(isize, isize)> {
    nodes.map_values(|n: nat| cells[n as int])
}

/// The position of `p` in `cells`, if any.
fn position(cells: &Vec<(isize, isize)>, p: (isize, isize)) -> (r: Option<usize>)
    ensures
        r matches Some(i) ==> i < cells@.len() && cells@[i as int] == p,
        r is None ==> !cells@.contains(p),
{
    let mut i: usize = 0;
    while i < cells.len()
        invariant
            i <= cells@.len(),
            forall|j: int| 0 <= j < i ==> cells@[j] != p,
        decreases cells@.len() - i,
    {
        if cells[i].0 == p.0 && cells[i].1 == p.1 {
            return Some(i);
        }
        i = i + 1;
    }
    None
}

/// The position of `p`, which `cells` holds.
fn position_of(cells: &Vec<(isize, isize)>, p: (isize, isize)) -> (r: usize)
    requires
        cells@.contains(p),
    ensures
        r < cells@.len(),
        cells@[r as int] == p,
{
    let n = cells.len();
    let mut i: usize = 0;
    while cells[i].0 != p.0 || cells[i].1 != p.1
        invariant
            n == cells@.len(),
            i < cells@.len(),
            exists|j: int| i <= j < cells@.len() && #[trigger] cells@[j] == p,
        decreases cells@.len() - i,
    {
        proof {
            let j = choose|j: int| i <= j < cells@.len() && #[trigger] cells@[j] == p;
            assert(cells@[i as int] != p);
            assert(i < j);
        }
        i = i + 1;
    }
    i
}

/// Tags the identifiers of free grids.
pub struct FreeGridTag;

/// Identifier of a free grid.
pub type NavFreeGridID = ID<FreeGridTag>;

/// A graph over the free coordinates that its connections mention, each with
/// a cost multiplier; connections run both ways.
pub struct NavFreeGrid {
    id: NavFreeGridID,
    cells: Vec<(isize, isize)>,
    costs: Vec<u32>,
    graph: NavGraph,
}

impl NavFreeGrid {
    /// The coordinates, one per node, without repeats.
    pub closed spec fn spec_cells(&self) -> Seq<(isize, isize)> {
        self.cells@
    }

    /// The cost multiplier of each coordinate.
    pub closed spec fn spec_costs(&self) -> Seq<u32> {
        self.costs@
    }

    /// The directed edges between coordinate indices.
    pub closed spec fn spec_edges(&self) -> Seq<(nat, nat)> {
        self.graph.edges()
    }

    pub closed spec fn wf(&self) -> bool {
        &&& self.graph.wf()
        &&& self.cells@.no_duplicates()
        &&& self.cells@.len() <= 2 * MAX_CELLS
        &&& self.costs@.len() == self.cells@.len()
        &&& self.graph.node_count() == self.cells@.len()
    }

    /// The shape a well-formed free grid keeps: distinct coordinates, one cost
    /// each.
    pub proof fn lemma_shape(&self)
        requires
            self.wf(),
        ensures
            self.spec_cells().no_duplicates(),
            self.spec_costs().len() == self.spec_cells().len(),
    {
    }

    /// `p` is the cheapest path from `from` to `to` under `weights`, by coordinates.
    pub open spec fn is_found_path(
        &self,
        from: (isize, isize),
        to: (isize, isize),
        weights: Seq<u128>,
        p: Seq<(isize, isize)>,
    ) -> bool {
        exists|c: int, i: nat, j: nat, nodes: Seq<nat>|
            #[trigger] is_cheapest_path(self.spec_edges(), weights, i, j, c, nodes) && i
                < self.spec_cells().len() && j < self.spec_cells().len() && self.spec_cells()[i as int]
                == from && self.spec_cells()[j as int] == to && nodes.no_duplicates() && p == cells_path(
                self.spec_cells(),
                nodes,
            )
    }

    /// `to` cannot be reached from `from` (or either is no coordinate of the graph).
    pub open spec fn is_unreachable(&self, from: (isize, isize), to: (isize, isize)) -> bool {
        forall|i: nat, j: nat|
            i < self.spec_cells().len() && j < self.spec_cells().len() && self.spec_cells()[i as int]
                == from && self.spec_cells()[j as int] == to ==> !#[trigger] reachable(
                self.spec_edges(),
                i,
                j,
            )
    }

    /// Builds the graph over every coordinate the connections mention, each
    /// once, linking the two ends of each connection both ways; every cost is 1.
    pub fn new(connections: Vec<NavFreeGridConnection>) -> (r: NavFreeGrid)
        requires
            connections@.len() <= MAX_CELLS,
        ensures
            r.wf(),
            r.spec_cells().no_duplicates(),
            forall|p: (isize, isize)|
                #[trigger] r.spec_cells().contains(p) <==> endpoints(connections@).contains(p),
            r.spec_costs() == Seq::new(r.spec_cells().len(), |i: int| 1u32),
            forall|a: nat, b: nat|
                #[trigger] has_edge(r.spec_edges(), a, b) <==> free_link(
                    r.spec_cells(),
                    connections@,
                    a,
                    b,
                ),
            r.is_two_way(),
    {
        let n = connections.len();
        let ghost ends = endpoints(connections@);
        let mut cells: Vec<(isize, isize)> = Vec::new();
        let mut k: usize = 0;
        while k < 2 * n
            invariant
                n == connections@.len(),
                n <= MAX_CELLS,
                ends == endpoints(connections@),
                ends.len() == 2 * n,
                k <= 2 * n,
                cells@.len() <= k,
                cells@.no_duplicates(),
                forall|p: (isize, isize)| #[trigger] cells@.contains(p) <==> ends.take(k as int).contains(p),
            decreases 2 * n - k,
        {
            let p = if k < n {
                connections[k].from
            } else {
                connections[k - n].to
            };
            assert(p == ends[k as int]);
            assert(ends.take(k as int + 1) == ends.take(k as int).push(p));
            let ghost old_cells = cells@;
            match position(&cells, p) {
                Some(_) => {},
                None => {
                    cells.push(p);
                },
            }
            assert forall|q: (isize, isize)| #[trigger] cells@.contains(q) <==> ends.take(k as int + 1).contains(q) by {
                if cells@.contains(q) && q != p {
                    let x = choose|x: int| 0 <= x < cells@.len() && #[trigger] cells@[x] == q;
                    if x < old_cells.len() {
                        assert(old_cells[x] == q);
                    }
                    assert(old_cells.contains(q));
                    let y = choose|y: int| 0 <= y < k && #[trigger] ends.take(k as int)[y] == q;
                    assert(ends.take(k as int + 1)[y] == q);
                }
                if ends.take(k as int + 1).contains(q) && q != p {
                    let y = choose|y: int| 0 <= y < k + 1 && #[trigger] ends.take(k as int + 1)[y] == q;
                    assert(ends.take(k as int)[y] == q);
                    assert(old_cells.contains(q));
                    let x = choose|x: int| 0 <= x < old_cells.len() && #[trigger] old_cells[x] == q;
                    assert(cells@[x] == q);
                }
                if q == p {
                    assert(ends.take(k as int + 1)[k as int] == p);
                    if old_cells.contains(p) {
                        let x = choose|x: int| 0 <= x < old_cells.len() && #[trigger] old_cells[x] == p;
                        assert(cells@[x] == p);
                    } else {
                        assert(cells@[cells@.len() - 1] == p);
                    }
                }
            }
            k = k + 1;
        }
        assert(ends.take(2 * n as int) == ends);
        let count = cells.len();
        let costs: Vec<u32> = vec![1u32; count];
        let mut graph = NavGraph::new(count, 2 * n);
        let mut i: usize = 0;
        while i < n
            invariant
                n == connections@.len(),
                n <= MAX_CELLS,
                ends == endpoints(connections@),
                count == cells@.len(),
                count <= 2 * n,
                cells@.no_duplicates(),
                forall|p: (isize, isize)| #[trigger] cells@.contains(p) <==> ends.contains(p),
                i <= n,
                graph.wf(),
                graph.node_count() == count,
                graph.edges().len() <= 2 * i,
                forall|a: nat, b: nat|
                    #[trigger] has_edge(graph.edges(), a, b) <==> (a < count && b < count && exists|j: int|
                        0 <= j < i && connects(#[trigger] connections@[j], cells@[a as int], cells@[b as int])),
            decreases n - i,
        {
            let c = connections[i];
            assert(ends[i as int] == c.from);
            assert(ends[n + i] == c.to);
            assert(ends.contains(c.from));
            assert(ends.contains(c.to));
            let ia = position_of(&cells, c.from);
            let ib = position_of(&cells, c.to);
            let ghost e0 = graph.edges();
            graph.add_edge(ia, ib);
            if ia != ib {
                graph.add_edge(ib, ia);
            }
            let ghost e2 = graph.edges();
            assert forall|a: nat, b: nat|
                #[trigger] has_edge(e2, a, b) <==> (a < count && b < count && exists|j: int|
                    0 <= j < i + 1 && connects(#[trigger] connections@[j], cells@[a as int], cells@[b as int])) by {
                if ia != ib {
                    assert(e2 == e0.push((ia as nat, ib as nat)).push((ib as nat, ia as nat)));
                } else {
                    assert(e2 == e0.push((ia as nat, ib as nat)));
                }
                if has_edge(e2, a, b) {
                    let k = choose|k: int| 0 <= k < e2.len() && #[trigger] e2[k] == (a, b);
                    if k < e0.len() {
                        assert(has_edge(e0, a, b));
                    } else {
                        assert(connects(connections@[i as int], cells@[a as int], cells@[b as int]));
                    }
                }
                if a < count && b < count && exists|j: int|
                    0 <= j < i + 1 && connects(#[trigger] connections@[j], cells@[a as int], cells@[b as int]) {
                    let j = choose|j: int|
                        0 <= j < i + 1 && connects(#[trigger] connections@[j], cells@[a as int], cells@[b as int]);
                    if j < i {
                        assert(has_edge(e0, a, b));
                        lemma_has_edge_push(e0, (ia as nat, ib as nat), a, b);
                        if ia != ib {
                            lemma_has_edge_push(e0.push((ia as nat, ib as nat)), (ib as nat, ia as nat), a, b);
                        }
                    } else {
                        if cells@[a as int] == c.from && cells@[b as int] == c.to {
                            assert(a == ia && b == ib);
                            assert(e2[e0.len() as int] == (a, b));
                        } else {
                            assert(a == ib && b == ia);
                            if ia != ib {
                                assert(e2[e0.len() as int + 1] == (a, b));
                            } else {
                                assert(e2[e0.len() as int] == (a, b));
                            }
                        }
                    }
                }
            }
            i = i + 1;
        }
        let r = NavFreeGrid { id: new_id(), cells, costs, graph };
        assert forall|a: nat, b: nat| has_edge(r.spec_edges(), a, b) implies #[trigger] has_edge(r.spec_edges(), b, a) by {
            let j = choose|j: int|
                0 <= j < n && connects(#[trigger] connections@[j], r.cells@[a as int], r.cells@[b as int]);
            assert(connects(connections@[j], r.cells@[b as int], r.cells@[a as int]));
        }
        r
    }

    /// The graph's identifier.
    pub fn id(&self) -> (r: NavFreeGridID) {
        self.id
    }

    /// The coordinates, one per node.
    pub fn cells(&self) -> (r: &[(isize, isize)])
        ensures
            r@ == self.spec_cells(),
    {
        self.cells.as_slice()
    }

    /// The cost multiplier of each coordinate.
    pub fn cells_costs(&self) -> (r: &[u32])
        ensures
            r@ == self.spec_costs(),
    {
        self.costs.as_slice()
    }

    /// The index of coordinate (col, row), or `None` when the graph lacks it.
    pub fn index(&self, col: isize, row: isize) -> (r: Option<usize>)
        ensures
            r matches Some(i) ==> i < self.spec_cells().len() && self.spec_cells()[i as int] == (
                col,
                row,
            ),
            r is None ==> !self.spec_cells().contains((col, row)),
    {
        position(&self.cells, (col, row))
    }

    /// The coordinate at `index`, or `None` past the end.
    pub fn coord(&self, index: usize) -> (r: Option<(isize, isize)>)
        ensures
            index < self.spec_cells().len() ==> r == Some(self.spec_cells()[index as int]),
            index >= self.spec_cells().len() ==> r is None,
    {
        if index < self.cells.len() {
            Some(self.cells[index])
        } else {
            None
        }
    }

    /// Sets the cost of coordinate (col, row) and returns the former cost;
    /// `None` (and no change) when the graph lacks it.
    pub fn set_cell_cost(&mut self, col: isize, row: isize, cost: u32) -> (r: Option<u32>)
        requires
            old(self).wf(),
        ensures
            final(self).wf(),
            final(self).spec_cells() == old(self).spec_cells(),
            final(self).spec_edges() == old(self).spec_edges(),
            r matches Some(c) ==> exists|i: int|
                0 <= i < old(self).spec_cells().len() && old(self).spec_cells()[i] == (col, row)
                    && c == old(self).spec_costs()[i] && #[trigger] final(self).spec_costs()
                    == old(self).spec_costs().update(i, cost),
            r is None ==> !old(self).spec_cells().contains((col, row)) && final(self).spec_costs()
                == old(self).spec_costs(),
    {
        match self.index(col, row) {
            None => None,
            Some(i) => {
                let old_cost = self.costs[i];
                self.costs.set(i, cost);
                Some(old_cost)
            },
        }
    }

    /// The coordinates that (col, row) links to, the most recently linked
    /// first; `None` when the graph lacks (col, row).
    pub fn neighbors(&self, col: isize, row: isize) -> (r: Option<Vec<(isize, isize)>>)
        requires
            self.wf(),
        ensures
            r is Some <==> self.spec_cells().contains((col, row)),
            r matches Some(v) ==> exists|i: int|
                0 <= i < self.spec_cells().len() && self.spec_cells()[i] == (col, row) && v@
                    == #[trigger] cells_path(self.spec_cells(), out_targets(self.spec_edges(), i as nat)),
    {
        let i = match self.index(col, row) {
            None => return None,
            Some(i) => i,
        };
        let targets = self.graph.neighbors(i);
        proof {
            self.graph.lemma_edges_in_range();
        }
        let out = self.to_cells(&targets);
        let ghost gi = i as int;
        assert(0 <= gi < self.spec_cells().len() && self.spec_cells()[gi] == (col, row) && out@
            == cells_path(self.spec_cells(), out_targets(self.spec_edges(), gi as nat)));
        Some(out)
    }

    /// The coordinates of node indices.
    fn to_cells(&self, nodes: &Vec<usize>) -> (r: Vec<(isize, isize)>)
        requires
            self.wf(),
            forall|k: int| 0 <= k < nodes@.len() ==> #[trigger] nodes@[k] < self.spec_cells().len(),
        ensures
            r@ == cells_path(self.spec_cells(), nat_seq(nodes@)),
    {
        let mut out: Vec<(isize, isize)> = Vec::new();
        let mut k: usize = 0;
        while k < nodes.len()
            invariant
                self.wf(),
                k <= nodes@.len(),
                forall|x: int| 0 <= x < nodes@.len() ==> #[trigger] nodes@[x] < self.spec_cells().len(),
                out@ == cells_path(self.spec_cells(), nat_seq(nodes@).take(k as int)),
            decreases nodes@.len() - k,
        {
            let t = nodes[k];
            out.push(self.cells[t]);
            proof {
                assert(nat_seq(nodes@).take(k as int + 1) == nat_seq(nodes@).take(k as int).push(t as nat));
                assert(cells_path(self.spec_cells(), nat_seq(nodes@).take(k as int + 1)) =~= cells_path(self.spec_cells(), nat_seq(nodes@).take(k as int)).push(self.spec_cells()[t as int]));
            }
            k = k + 1;
        }
        proof {
            assert(nat_seq(nodes@).take(nodes@.len() as int) == nat_seq(nodes@));
        }
        out
    }

    /// The links run both ways.
    pub open spec fn is_two_way(&self) -> bool {
        forall|a: nat, b: nat| has_edge(self.spec_edges(), a, b) ==> #[trigger] has_edge(self.spec_edges(), b, a)
    }

    /// The search shared by the public queries: `allowed` says, per edge,
    /// whether it weighs its cells' cost product or the blocking weight.
    fn search(&self, from: (isize, isize), to: (isize, isize), allowed: &Vec<bool>) -> (r: Option<
        Vec<(isize, isize)>,
    >)
        requires
            self.wf(),
            allowed@.len() == self.spec_edges().len(),
        ensures
            r is Some ==> self.spec_cells().contains(from) && self.spec_cells().contains(to),
            r is None ==> self.is_unreachable(from, to),
            r matches Some(p) ==> self.is_found_path(
                from,
                to,
                cost_weights(self.spec_edges(), self.spec_costs(), allowed@),
                p@,
            ),
            self.spec_cells().contains(from) && from == to ==> r is Some && r.unwrap()@ == seq![from],
    {
        let start = match position(&self.cells, from) {
            None => return None,
            Some(i) => i,
        };
        let goal = match position(&self.cells, to) {
            None => return None,
            Some(i) => i,
        };
        let ghost edges = self.spec_edges();
        let ghost want = cost_weights(edges, self.costs@, allowed@);
        let n = self.graph.edge_count();
        let mut weights: Vec<u128> = Vec::new();
        let mut e: usize = 0;
        while e < n
            invariant
                self.wf(),
                edges == self.spec_edges(),
                n == edges.len(),
                allowed@.len() == n,
                want == cost_weights(edges, self.costs@, allowed@),
                e <= n,
                weights@ == want.take(e as int),
                forall|k: int| 0 <= k < weights@.len() ==> #[trigger] weights@[k] <= MAX_EDGE_WEIGHT,
            decreases n - e,
        {
            let (a, b) = self.graph.edge(e);
            let w = if allowed[e] {
                let ca = self.costs[a];
                let cb = self.costs[b];
                proof {
                    assert((ca as int) * (cb as int) <= 0xFFFF_FFFF * 0xFFFF_FFFF) by (nonlinear_arith)
                        requires ca <= 0xFFFF_FFFFu32, cb <= 0xFFFF_FFFFu32;
                    assert(0 <= (ca as int) * (cb as int)) by (nonlinear_arith);
                }
                ca as u128 * cb as u128
            } else {
                MAX_EDGE_WEIGHT
            };
            weights.push(w);
            proof {
                assert(want.take(e as int + 1) == want.take(e as int).push(want[e as int]));
            }
            e = e + 1;
        }
        proof {
            assert(want.take(n as int) == want);
            self.lemma_positions_unique(start as nat, goal as nat, from, to);
        }
        match self.graph.find_path(start, goal, &weights) {
            None => None,
            Some((cost, nodes)) => {
                let out = self.to_cells(&nodes);
                proof {
                    assert(is_cheapest_path(edges, want, start as nat, goal as nat, cost as int, nat_seq(nodes@)));
                    assert(self.is_found_path(from, to, want, out@));
                    if from == to {
                        assert(nat_seq(nodes@) =~= seq![start as nat]);
                        assert(out@ =~= seq![from]);
                    }
                }
                Some(out)
            },
        }
    }

    proof fn lemma_positions_unique(&self, s: nat, t: nat, from: (isize, isize), to: (isize, isize))
        requires
            self.wf(),
            s < self.spec_cells().len(),
            t < self.spec_cells().len(),
            self.spec_cells()[s as int] == from,
            self.spec_cells()[t as int] == to,
        ensures
            forall|i: nat, j: nat|
                i < self.spec_cells().len() && j < self.spec_cells().len() && self.spec_cells()[i as int]
                    == from && self.spec_cells()[j as int] == to ==> i == s && j == t,
            from == to ==> s == t,
    {
    }

    /// The cheapest path from `from` to `to`, where each step weighs the
    /// product of its two coordinates' costs; `None` when the graph lacks
    /// either coordinate or `to` cannot be reached.
    pub fn find_path(&self, from: (isize, isize), to: (isize, isize)) -> (r: Option<
        Vec<(isize, isize)>,
    >)
        requires
            self.wf(),
        ensures
            r is Some ==> self.spec_cells().contains(from) && self.spec_cells().contains(to),
            r is None ==> self.is_unreachable(from, to),
            r matches Some(p) ==> self.is_found_path(
                from,
                to,
                cost_weights(
                    self.spec_edges(),
                    self.spec_costs(),
                    Seq::new(self.spec_edges().len(), |e: int| true),
                ),
                p@,
            ),
            self.spec_cells().contains(from) && from == to ==> r is Some && r.unwrap()@ == seq![from],
    {
        let n = self.graph.edge_count();
        let allowed: Vec<bool> = vec![true; n];
        proof {
            assert(allowed@ =~= Seq::new(self.spec_edges().len(), |e: int| true));
        }
        self.search(from, to, &allowed)
    }

    /// Like `find_path`, but a step from `a` to `b` for which `filter(a, b)`
    /// is false weighs the blocking weight, so that it is taken only where no
    /// other way exists.
    pub fn find_path_custom<F: Fn((isize, isize), (isize, isize)) -> bool>(
        &self,
        from: (isize, isize),
        to: (isize, isize),
        filter: F,
    ) -> (r: Option<Vec<(isize, isize)>>)
        requires
            self.wf(),
            forall|a: (isize, isize), b: (isize, isize)| #[trigger] filter.requires((a, b)),
        ensures
            r is Some ==> self.spec_cells().contains(from) && self.spec_cells().contains(to),
            r is None ==> self.is_unreachable(from, to),
            r matches Some(p) ==> exists|allowed: Seq<bool>|
                {
                    &&& allowed.len() == self.spec_edges().len()
                    &&& forall|e: int|
                        0 <= e < allowed.len() ==> filter.ensures(
                            (
                                self.spec_cells()[self.spec_edges()[e].0 as int],
                                self.spec_cells()[self.spec_edges()[e].1 as int],
                            ),
                            #[trigger] allowed[e],
                        )
                    &&& self.is_found_path(
                        from,
                        to,
                        cost_weights(self.spec_edges(), self.spec_costs(), allowed),
                        p@,
                    )
                },
            self.spec_cells().contains(from) && from == to ==> r is Some && r.unwrap()@ == seq![from],
    {
        let n = self.graph.edge_count();
        let mut allowed: Vec<bool> = Vec::new();
        let mut e: usize = 0;
        while e < n
            invariant
                self.wf(),
                n == self.spec_edges().len(),
                e <= n,
                allowed@.len() == e,
                forall|a: (isize, isize), b: (isize, isize)| #[trigger] filter.requires((a, b)),
                forall|k: int|
                    0 <= k < e ==> filter.ensures(
                        (
                            self.spec_cells()[self.spec_edges()[k].0 as int],
                            self.spec_cells()[self.spec_edges()[k].1 as int],
                        ),
                        #[trigger] allowed@[k],
                    ),
            decreases n - e,
        {
            let (a, b) = self.graph.edge(e);
            let ok = filter(self.cells[a], self.cells[b]);
            allowed.push(ok);
            e = e + 1;
        }
        self.search(from, to, &allowed)
    }

    /// The islands of the graph: its coordinates grouped into strongly
    /// connected components.
    pub fn find_islands(&self) -> (r: Vec<Vec<(isize, isize)>>)
        requires
            self.wf(),
        ensures
            exists|comps: Seq<Seq<usize>>|
                #[trigger] is_scc_split(self.spec_edges(), self.spec_cells().len(), comps)
                    && r@.map_values(|v: Vec<(isize, isize)>| v@) == comps.map_values(
                    |c: Seq<usize>| cells_path(self.spec_cells(), nat_seq(c)),
                ),
    {
        let comps = self.graph.find_islands();
        let ghost cv = comps@.map_values(|c: Vec<usize>| c@);
        let mut out: Vec<Vec<(isize, isize)>> = Vec::new();
        let mut i: usize = 0;
        while i < comps.len()
            invariant
                self.wf(),
                cv == comps@.map_values(|c: Vec<usize>| c@),
                is_scc_split(self.spec_edges(), self.spec_cells().len(), cv),
                i <= comps@.len(),
                out@.len() == i,
                forall|k: int| 0 <= k < i ==> (#[trigger] out@[k])@ == cells_path(self.spec_cells(), nat_seq(cv[k])),
            decreases comps@.len() - i,
        {
            let comp = &comps[i];
            assert(comp@ == cv[i as int]);
            let island = self.to_cells(comp);
            out.push(island);
            i = i + 1;
        }
        assert(out@.map_values(|v: Vec<(isize, isize)>| v@) =~= cv.map_values(
            |c: Seq<usize>| cells_path(self.spec_cells(), nat_seq(c)),
        ));
        out
    }

    /// Over a two-way graph, a coordinate reaches another exactly when the
    /// other reaches it, and the cheapest paths both ways cost the same.
    pub proof fn lemma_find_path_symmetric(&self, a: nat, b: nat, c1: int, p1: Seq<nat>, c2: int, p2: Seq<nat>)
        requires
            self.wf(),
            self.is_two_way(),
        ensures
            reachable(self.spec_edges(), a, b) <==> reachable(self.spec_edges(), b, a),
            ({
                let w = cost_weights(
                    self.spec_edges(),
                    self.spec_costs(),
                    Seq::new(self.spec_edges().len(), |e: int| true),
                );
                is_cheapest_path(self.spec_edges(), w, a, b, c1, p1) && is_cheapest_path(
                    self.spec_edges(),
                    w,
                    b,
                    a,
                    c2,
                    p2,
                ) ==> c1 == c2
            }),
    {
        let edges = self.spec_edges();
        let w = cost_weights(edges, self.spec_costs(), Seq::new(edges.len(), |e: int| true));
        self.graph.lemma_edges_in_range();
        assert forall|k: int| 0 <= k < edges.len() implies #[trigger] has_reverse(edges, w, k) by {
            let e = edges[k];
            assert(has_edge(edges, e.0, e.1));
            assert(has_edge(edges, e.1, e.0));
            let k2 = choose|k2: int| 0 <= k2 < edges.len() && #[trigger] edges[k2] == (e.1, e.0);
            let x = self.spec_costs()[e.0 as int];
            let y = self.spec_costs()[e.1 as int];
            assert(x * y == y * x) by (nonlinear_arith);
            assert(w[k2] == w[k]);
        }
        crate::graph::lemma_symmetric_paths(edges, w, a, b, c1, p1, c2, p2);
    }
}

} // verus!
