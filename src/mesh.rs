//! The topology of triangle meshes: which triangles share an edge, and paths
//! across them.
use crate::graph::{
    cost_weights, has_edge, has_reverse, is_cheapest_path, is_scc_split, lemma_has_edge_push,
    nat_seq, out_targets, reachable, NavGraph, MAX_EDGE_WEIGHT,
};
use crate::{Error, NavResult};
use vstd::prelude::*;

verus! {

/// A triangle, by the indices of its three vertices; the winding gives the
/// outward side.
#[derive(Debug, Default, Copy, Clone, PartialEq, Eq, Hash)]
pub struct NavTriangle {
    pub first: u32,
    pub second: u32,
    pub third: u32,
}


/// An undirected edge, smaller vertex first.
pub open spec fn edge_key(a: u32, b: u32) -> (u32, u32) {
    if a <= b {
        (a, b)
    } else {
        (b, a)
    }
}

/// Undirected edge `e` is one of the sides of `t`.
pub open spec fn is_side(t: NavTriangle, e: (u32, u32)) -> bool {
    e == edge_key(t.first, t.second) || e == edge_key(t.second, t.third) || e == edge_key(
        t.third,
        t.first,
    )
}

/// How many sides of `t` are sides of `u` too.
pub open spec fn shared_sides(t: NavTriangle, u: NavTriangle) -> nat {
    (if is_side(u, edge_key(t.first, t.second)) {
        1nat
    } else {
        0nat
    }) + (if is_side(u, edge_key(t.second, t.third)) {
        1nat
    } else {
        0nat
    }) + (if is_side(u, edge_key(t.third, t.first)) {
        1nat
    } else {
        0nat
    })
}

/// Triangles `t` and `u` share exactly one side, counted from either one
/// (the two counts differ only where a triangle repeats a corner).
pub open spec fn share_one_side(t: NavTriangle, u: NavTriangle) -> bool {
    shared_sides(t, u) == 1 && shared_sides(u, t) == 1
}

/// Triangles `a` and `b` are distinct and share exactly one side.
pub open spec fn is_adjacent(triangles: Seq<NavTriangle>, a: nat, b: nat) -> bool {
    a < triangles.len() && b < triangles.len() && a != b && share_one_side(
        triangles[a as int],
        triangles[b as int],
    )
}

/// How many triangles after `a` and before `b` share exactly one side with
/// triangle `a`.
pub open spec fn links_of(triangles: Seq<NavTriangle>, a: nat, b: nat) -> nat
    decreases b,
{
    if b <= a + 1 {
        0
    } else {
        links_of(triangles, a, (b - 1) as nat) + if share_one_side(
            triangles[a as int],
            triangles[b - 1],
        ) {
            1nat
        } else {
            0nat
        }
    }
}

/// How many pairs of adjacent triangles have their lower index below `a`.
pub open spec fn links_before(triangles: Seq<NavTriangle>, a: nat) -> nat
    decreases a,
{
    if a == 0 {
        0
    } else {
        links_before(triangles, (a - 1) as nat) + links_of(triangles, (a - 1) as nat, triangles.len())
    }
}

/// How many unordered pairs of triangles are adjacent.
pub open spec fn adjacent_pairs(triangles: Seq<NavTriangle>) -> nat {
    links_before(triangles, triangles.len())
}

proof fn lemma_links_of_grows(triangles: Seq<NavTriangle>, a: nat, b: nat, b2: nat)
    requires
        b <= b2,
    ensures
        links_of(triangles, a, b) <= links_of(triangles, a, b2),
    decreases b2,
{
    if b < b2 {
        lemma_links_of_grows(triangles, a, b, (b2 - 1) as nat);
    }
}

proof fn lemma_links_before_grows(triangles: Seq<NavTriangle>, a: nat, a2: nat)
    requires
        a <= a2,
    ensures
        links_before(triangles, a) <= links_before(triangles, a2),
    decreases a2,
{
    if a < a2 {
        lemma_links_before_grows(triangles, a, (a2 - 1) as nat);
    }
}

/// Triangle `t` names only vertices below `n`.
pub open spec fn triangle_in_range(n: nat, t: NavTriangle) -> bool {
    t.first < n && t.second < n && t.third < n
}

/// The error for triangle `i`, `t`, which names a vertex at or above `n`: its
/// first such corner.
pub open spec fn triangle_error(i: int, t: NavTriangle, n: nat) -> Error {
    if t.first >= n {
        Error::TriangleVerticeIndexOutOfBounds(i as u32, 0, t.first)
    } else if t.second >= n {
        Error::TriangleVerticeIndexOutOfBounds(i as u32, 1, t.second)
    } else {
        Error::TriangleVerticeIndexOutOfBounds(i as u32, 2, t.third)
    }
}

fn key(a: u32, b: u32) -> (r: (u32, u32))
    ensures
        r == edge_key(a, b),
{
    if a <= b {
        (a, b)
    } else {
        (b, a)
    }
}

fn side_of(t: &NavTriangle, e: (u32, u32)) -> (r: bool)
    ensures
        r == is_side(*t, e),
{
    let a = key(t.first, t.second);
    let b = key(t.second, t.third);
    let c = key(t.third, t.first);
    (a.0 == e.0 && a.1 == e.1) || (b.0 == e.0 && b.1 == e.1) || (c.0 == e.0 && c.1 == e.1)
}

/// How many sides of `t` are sides of `u` too.
pub fn count_shared_sides(t: &NavTriangle, u: &NavTriangle) -> (r: u8)
    ensures
        r == shared_sides(*t, *u),
{
    let mut n: u8 = 0;
    if side_of(u, key(t.first, t.second)) {
        n = n + 1;
    }
    if side_of(u, key(t.second, t.third)) {
        n = n + 1;
    }
    if side_of(u, key(t.third, t.first)) {
        n = n + 1;
    }
    n
}

/// The triangles of a mesh as a graph: two triangles are linked, both ways,
/// when they share exactly one side. Each triangle has a cost multiplier.
pub struct NavTriangleGraph {
    triangles: Vec<NavTriangle>,
    costs: Vec<u32>,
    graph: NavGraph,
}

impl NavTriangleGraph {
    pub closed spec fn spec_triangles(&self) -> Seq<NavTriangle> {
        self.triangles@
    }

    /// The cost multiplier of each triangle.
    pub closed spec fn spec_costs(&self) -> Seq<u32> {
        self.costs@
    }

    /// The directed edges between triangle indices.
    pub closed spec fn spec_edges(&self) -> Seq<(nat, nat)> {
        self.graph.edges()
    }

    pub closed spec fn wf(&self) -> bool {
        &&& self.graph.wf()
        &&& self.triangles@.len() < u32::MAX
        &&& self.costs@.len() == self.triangles@.len()
        &&& self.graph.node_count() == self.triangles@.len()
    }

    /// The shape a well-formed topology keeps: one cost per triangle.
    pub proof fn lemma_shape(&self)
        requires
            self.wf(),
        ensures
            self.spec_costs().len() == self.spec_triangles().len(),
    {
    }

    /// The links run both ways.
    pub open spec fn is_two_way(&self) -> bool {
        forall|a: nat, b: nat| has_edge(self.spec_edges(), a, b) ==> #[trigger] has_edge(self.spec_edges(), b, a)
    }

    /// Checks that every triangle names vertices below `vertices_count`, and
    /// links the triangles that share exactly one side; every cost is 1.
    pub fn new(vertices_count: usize, triangles: Vec<NavTriangle>) -> (r: NavResult<Self>)
        requires
            triangles@.len() < u32::MAX,
            2 * adjacent_pairs(triangles@) < u32::MAX,
        ensures
            r is Ok <==> forall|i: int|
                0 <= i < triangles@.len() ==> triangle_in_range(
                    vertices_count as nat,
                    #[trigger] triangles@[i],
                ),
            r is Err ==> exists|i: int|
                0 <= i < triangles@.len() && !triangle_in_range(
                    vertices_count as nat,
                    #[trigger] triangles@[i],
                ) && (forall|j: int|
                    0 <= j < i ==> triangle_in_range(vertices_count as nat, triangles@[j])) && r
                    == Err::<Self, Error>(triangle_error(i, triangles@[i], vertices_count as nat)),
            r matches Ok(g) ==> {
                &&& g.wf()
                &&& g.spec_triangles() == triangles@
                &&& g.spec_costs() == Seq::new(triangles@.len(), |i: int| 1u32)
                &&& g.is_two_way()
                &&& forall|a: nat, b: nat|
                    #[trigger] has_edge(g.spec_edges(), a, b) <==> is_adjacent(triangles@, a, b)
            },
    {
        let n = triangles.len();
        let mut i: usize = 0;
        while i < n
            invariant
                n == triangles@.len(),
                n < u32::MAX,
                i <= n,
                forall|j: int|
                    0 <= j < i ==> triangle_in_range(vertices_count as nat, #[trigger] triangles@[j]),
            decreases n - i,
        {
            let t = triangles[i];
            if t.first as usize >= vertices_count {
                return Err(Error::TriangleVerticeIndexOutOfBounds(i as u32, 0, t.first));
            }
            if t.second as usize >= vertices_count {
                return Err(Error::TriangleVerticeIndexOutOfBounds(i as u32, 1, t.second));
            }
            if t.third as usize >= vertices_count {
                return Err(Error::TriangleVerticeIndexOutOfBounds(i as u32, 2, t.third));
            }
            i = i + 1;
        }
        let mut graph = NavGraph::new(n, n);
        let ghost tl = triangles@;
        let mut a: usize = 0;
        while a < n
            invariant
                n == triangles@.len(),
                n < u32::MAX,
                tl == triangles@,
                a <= n,
                graph.wf(),
                graph.node_count() == n,
                2 * adjacent_pairs(tl) < u32::MAX,
                graph.edges().len() == 2 * links_before(tl, a as nat),
                forall|x: nat, y: nat|
                    #[trigger] has_edge(graph.edges(), x, y) <==> (is_adjacent(tl, x, y) && (x < a
                        || y < a)),
            decreases n - a,
        {
            let mut b: usize = a + 1;
            while b < n
                invariant
                    n == triangles@.len(),
                    n < u32::MAX,
                    tl == triangles@,
                    a < n,
                    a + 1 <= b <= n,
                    graph.wf(),
                    graph.node_count() == n,
                    2 * adjacent_pairs(tl) < u32::MAX,
                    graph.edges().len() == 2 * (links_before(tl, a as nat) + links_of(tl, a as nat, b as nat)),
                    forall|x: nat, y: nat|
                        #[trigger] has_edge(graph.edges(), x, y) <==> (is_adjacent(tl, x, y) && (x
                            < a || y < a || (x == a && y < b) || (y == a && x < b))),
                decreases n - b,
            {
                proof {
                    assert(links_of(tl, a as nat, (b + 1) as nat) == links_of(tl, a as nat, b as nat)
                        + if share_one_side(tl[a as int], tl[b as int]) { 1nat } else { 0nat });
                    lemma_links_of_grows(tl, a as nat, (b + 1) as nat, n as nat);
                    assert(links_before(tl, (a + 1) as nat) == links_before(tl, a as nat) + links_of(tl, a as nat, n as nat));
                    lemma_links_before_grows(tl, (a + 1) as nat, n as nat);
                }
                if count_shared_sides(&triangles[a], &triangles[b]) == 1 && count_shared_sides(
                    &triangles[b],
                    &triangles[a],
                ) == 1 {
                    let ghost e0 = graph.edges();
                    graph.add_edge(a, b);
                    graph.add_edge(b, a);
                    let ghost e1 = e0.push((a as nat, b as nat));
                    let ghost e2 = graph.edges();
                    assert(e2 == e1.push((b as nat, a as nat)));
                    assert forall|x: nat, y: nat|
                        #[trigger] has_edge(e2, x, y) <==> (is_adjacent(tl, x, y) && (x < a || y < a
                            || (x == a && y < b + 1) || (y == a && x < b + 1))) by {
                        if has_edge(e2, x, y) {
                            let k = choose|k: int| 0 <= k < e2.len() && #[trigger] e2[k] == (x, y);
                            if k < e0.len() {
                                assert(e0[k] == (x, y));
                                assert(has_edge(e0, x, y));
                            }
                        }
                        if is_adjacent(tl, x, y) && (x < a || y < a || (x == a && y < b + 1) || (y
                            == a && x < b + 1)) {
                            if (x == a && y == b) {
                                assert(e2[e0.len() as int] == (x, y));
                            } else if (y == a && x == b) {
                                assert(e2[e0.len() as int + 1] == (x, y));
                            } else {
                                assert(has_edge(e0, x, y));
                                lemma_has_edge_push(e0, (a as nat, b as nat), x, y);
                                lemma_has_edge_push(e1, (b as nat, a as nat), x, y);
                            }
                        }
                    }
                }
                b = b + 1;
            }
            proof {
                assert(links_before(tl, (a + 1) as nat) == links_before(tl, a as nat) + links_of(tl, a as nat, n as nat));
                assert forall|x: nat, y: nat|
                    #[trigger] has_edge(graph.edges(), x, y) <==> (is_adjacent(tl, x, y) && (x < a + 1
                        || y < a + 1)) by {
                    if is_adjacent(tl, x, y) && (x < a + 1 || y < a + 1) {
                        if x == a && y > a {
                            assert(y < n);
                        }
                    }
                }
            }
            a = a + 1;
        }
        let costs: Vec<u32> = vec![1u32; n];
        let r = NavTriangleGraph { triangles, costs, graph };
        proof {
            assert forall|x: nat, y: nat| has_edge(r.spec_edges(), x, y) implies #[trigger] has_edge(
                r.spec_edges(),
                y,
                x,
            ) by {
                assert(is_adjacent(tl, x, y));
            }
        }
        Ok(r)
    }

    /// The weight of each link: the product of its two triangles' costs.
    pub open spec fn path_weights(&self) -> Seq<u128> {
        cost_weights(
            self.spec_edges(),
            self.spec_costs(),
            Seq::new(self.spec_edges().len(), |e: int| true),
        )
    }

    /// `p` is a cheapest corridor of triangles from `from` to `to`, visiting
    /// no triangle twice.
    pub open spec fn is_corridor(&self, from: nat, to: nat, p: Seq<nat>) -> bool {
        p.no_duplicates() && exists|c: int|
            #[trigger] is_cheapest_path(self.spec_edges(), self.path_weights(), from, to, c, p)
    }

    /// The triangles, in the order given.
    pub fn triangles(&self) -> (r: &[NavTriangle])
        ensures
            r@ == self.spec_triangles(),
    {
        self.triangles.as_slice()
    }

    /// The cost multiplier of each triangle.
    pub fn triangles_costs(&self) -> (r: &[u32])
        ensures
            r@ == self.spec_costs(),
    {
        self.costs.as_slice()
    }

    /// Sets the cost of triangle `index` and returns the former cost; `None`
    /// (and no change) past the last triangle.
    pub fn set_triangle_cost(&mut self, index: usize, cost: u32) -> (r: Option<u32>)
        requires
            old(self).wf(),
        ensures
            final(self).wf(),
            final(self).spec_triangles() == old(self).spec_triangles(),
            final(self).spec_edges() == old(self).spec_edges(),
            index < old(self).spec_costs().len() ==> r == Some(old(self).spec_costs()[index as int])
                && final(self).spec_costs() == old(self).spec_costs().update(index as int, cost),
            index >= old(self).spec_costs().len() ==> r is None && final(self).spec_costs() == old(
                self,
            ).spec_costs(),
    {
        if index < self.costs.len() {
            let old_cost = self.costs[index];
            self.costs.set(index, cost);
            Some(old_cost)
        } else {
            None
        }
    }

    /// The triangles that triangle `index` shares a side with, the most
    /// recently linked first; `None` past the last triangle.
    pub fn neighbors(&self, index: usize) -> (r: Option<Vec<usize>>)
        requires
            self.wf(),
        ensures
            r is Some <==> index < self.spec_triangles().len(),
            r matches Some(v) ==> nat_seq(v@) == out_targets(self.spec_edges(), index as nat),
    {
        if index < self.triangles.len() {
            Some(self.graph.neighbors(index))
        } else {
            None
        }
    }

    /// The cheapest corridor of triangles from `from` to `to`, where each step
    /// weighs the product of its two triangles' costs; `None` when either
    /// index is past the last triangle or `to` cannot be reached.
    pub fn find_path_triangles(&self, from: usize, to: usize) -> (r: Option<Vec<usize>>)
        requires
            self.wf(),
        ensures
            r is Some ==> from < self.spec_triangles().len() && to < self.spec_triangles().len(),
            r is None ==> !(from < self.spec_triangles().len() && to < self.spec_triangles().len()
                && reachable(self.spec_edges(), from as nat, to as nat)),
            r matches Some(p) ==> self.is_corridor(from as nat, to as nat, nat_seq(p@)),
            from < self.spec_triangles().len() && from == to ==> r is Some && r.unwrap()@ == seq![
                from,
            ],
    {
        if from >= self.triangles.len() || to >= self.triangles.len() {
            return None;
        }
        let ghost edges = self.spec_edges();
        let ghost want = self.path_weights();
        let n = self.graph.edge_count();
        let mut weights: Vec<u128> = Vec::new();
        let mut e: usize = 0;
        while e < n
            invariant
                self.wf(),
                edges == self.spec_edges(),
                n == edges.len(),
                want == self.path_weights(),
                e <= n,
                weights@ == want.take(e as int),
                forall|k: int| 0 <= k < weights@.len() ==> #[trigger] weights@[k] <= MAX_EDGE_WEIGHT,
            decreases n - e,
        {
            let (a, b) = self.graph.edge(e);
            let ca = self.costs[a];
            let cb = self.costs[b];
            proof {
                assert((ca as int) * (cb as int) <= 0xFFFF_FFFF * 0xFFFF_FFFF) by (nonlinear_arith)
                    requires ca <= 0xFFFF_FFFFu32, cb <= 0xFFFF_FFFFu32;
                assert(0 <= (ca as int) * (cb as int)) by (nonlinear_arith);
            }
            weights.push(ca as u128 * cb as u128);
            proof {
                assert(want.take(e as int + 1) == want.take(e as int).push(want[e as int]));
            }
            e = e + 1;
        }
        proof {
            assert(want.take(n as int) == want);
        }
        match self.graph.find_path(from, to, &weights) {
            None => None,
            Some((cost, nodes)) => {
                proof {
                    assert(is_cheapest_path(
                        self.spec_edges(),
                        self.path_weights(),
                        from as nat,
                        to as nat,
                        cost as int,
                        nat_seq(nodes@),
                    ));
                    assert(self.is_corridor(from as nat, to as nat, nat_seq(nodes@)));
                }
                Some(nodes)
            },
        }
    }

    /// The islands of the mesh: its triangles grouped into strongly connected
    /// components.
    pub fn find_islands(&self) -> (r: Vec<Vec<usize>>)
        requires
            self.wf(),
        ensures
            is_scc_split(
                self.spec_edges(),
                self.spec_triangles().len(),
                r@.map_values(|c: Vec<usize>| c@),
            ),
    {
        self.graph.find_islands()
    }

    /// Over the mesh's two-way links, a triangle reaches another exactly when
    /// the other reaches it, and the cheapest corridors both ways cost the
    /// same.
    pub proof fn lemma_find_path_symmetric(&self, a: nat, b: nat, c1: int, p1: Seq<nat>, c2: int, p2: Seq<nat>)
        requires
            self.wf(),
            self.is_two_way(),
        ensures
            reachable(self.spec_edges(), a, b) <==> reachable(self.spec_edges(), b, a),
            ({
                let w = cost_weights(
                    self.spec_edges(),
                    self.spec_costs(),
                    Seq::new(self.spec_edges().len(), |e: int| true),
                );
                is_cheapest_path(self.spec_edges(), w, a, b, c1, p1) && is_cheapest_path(
                    self.spec_edges(),
                    w,
                    b,
                    a,
                    c2,
                    p2,
                ) ==> c1 == c2
            }),
    {
        let edges = self.spec_edges();
        let w = cost_weights(edges, self.spec_costs(), Seq::new(edges.len(), |e: int| true));
        self.graph.lemma_edges_in_range();
        assert forall|k: int| 0 <= k < edges.len() implies #[trigger] has_reverse(edges, w, k) by {
            let e = edges[k];
            assert(has_edge(edges, e.0, e.1));
            assert(has_edge(edges, e.1, e.0));
            let k2 = choose|k2: int| 0 <= k2 < edges.len() && #[trigger] edges[k2] == (e.1, e.0);
            let x = self.spec_costs()[e.0 as int];
            let y = self.spec_costs()[e.1 as int];
            assert(x * y == y * x) by (nonlinear_arith);
            assert(w[k2] == w[k]);
        }
        crate::graph::lemma_symmetric_paths(edges, w, a, b, c1, p1, c2, p2);
    }
}

} // verus!
