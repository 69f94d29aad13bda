//! Rectangular grids of walkable and free cells.
use crate::graph::{
    cost_weights, has_edge, has_reverse, in_some_component, is_cheapest_path, is_scc_split,
    lemma_has_edge_push, mutually_reachable, nat_seq, out_targets, reachable, NavGraph,
    MAX_EDGE_WEIGHT,
};
use crate::{new_id, Error, NavResult};
use typid::ID;
use vstd::prelude::*;

verus! {

/// The largest number of cells a grid may have: every cell is a node and
/// each has at most four edges, all indexed by `u32`.
pub const MAX_CELLS: usize = 0x3FFF_FFFF;

/// The index of cell (col, row) in row-major order.
pub open spec fn cell_index(cols: nat, col: nat, row: nat) -> nat {
    row * cols + col
}

/// Cells (c1, r1) and (c2, r2) are both occupied and share a side.
pub open spec fn linked_cells(
    cols: nat,
    rows: nat,
    cells: Seq<bool>,
    c1: nat,
    r1: nat,
    c2: nat,
    r2: nat,
) -> bool {
    &&& c1 < cols && r1 < rows && c2 < cols && r2 < rows
    &&& cells[cell_index(cols, c1, r1) as int] && cells[cell_index(cols, c2, r2) as int]
    &&& ((r1 == r2 && (c1 + 1 == c2 || c2 + 1 == c1)) || (c1 == c2 && (r1 + 1 == r2 || r2 + 1
        == r1)))
}

/// Cell indices `a` and `b` belong to occupied cells that share a side.
pub open spec fn is_grid_link(cols: nat, rows: nat, cells: Seq<bool>, a: nat, b: nat) -> bool {
    exists|c1: nat, r1: nat, c2: nat, r2: nat|
        #[trigger] linked_cells(cols, rows, cells, c1, r1, c2, r2) && a == cell_index(cols, c1, r1)
            && b == cell_index(cols, c2, r2)
}


proof fn lemma_cell_index_inj(cols: nat, c1: nat, r1: nat, c2: nat, r2: nat)
    requires
        c1 < cols,
        c2 < cols,
        cell_index(cols, c1, r1) == cell_index(cols, c2, r2),
    ensures
        c1 == c2 && r1 == r2,
{
    let x = cell_index(cols, c1, r1) as int;
    vstd::arithmetic::div_mod::lemma_fundamental_div_mod_converse_mod(x, cols as int, r1 as int, c1 as int);
    vstd::arithmetic::div_mod::lemma_fundamental_div_mod_converse_div(x, cols as int, r1 as int, c1 as int);
    vstd::arithmetic::div_mod::lemma_fundamental_div_mod_converse_mod(x, cols as int, r2 as int, c2 as int);
    vstd::arithmetic::div_mod::lemma_fundamental_div_mod_converse_div(x, cols as int, r2 as int, c2 as int);
}

/// Edge `e` joins cells (c, r) and (c + 1, r), either way.
pub open spec fn is_h_edge(cols: nat, c: nat, r: nat, e: (nat, nat)) -> bool {
    e == (cell_index(cols, c, r), cell_index(cols, c + 1, r)) || e == (
        cell_index(cols, c + 1, r),
        cell_index(cols, c, r),
    )
}

/// Edge `e` joins cells (c, r) and (c, r + 1), either way.
pub open spec fn is_v_edge(cols: nat, c: nat, r: nat, e: (nat, nat)) -> bool {
    e == (cell_index(cols, c, r), cell_index(cols, c, r + 1)) || e == (
        cell_index(cols, c, r + 1),
        cell_index(cols, c, r),
    )
}

/// Edge `e` is a side link from a column before `ca`, or from column `ca` on
/// a row before `r`.
pub open spec fn h_edge_before(cols: nat, rows: nat, ca: nat, r: nat, e: (nat, nat)) -> bool {
    exists|x: nat, y: nat|
        (x < ca || (x == ca && y < r)) && y < rows && #[trigger] is_h_edge(cols, x, y, e)
}

/// Edge `e` is an up-down link from a column before `c`, or from column `c`
/// on a row before `ra`.
pub open spec fn v_edge_before(cols: nat, rows: nat, c: nat, ra: nat, e: (nat, nat)) -> bool {
    exists|x: nat, y: nat|
        (x < c || (x == c && y < ra)) && y + 1 < rows && #[trigger] is_v_edge(cols, x, y, e)
}

proof fn lemma_h_before_grows(cols: nat, rows: nat, ca: nat, r: nat, ca2: nat, r2: nat, e: (nat, nat))
    requires
        h_edge_before(cols, rows, ca, r, e),
        ca < ca2 || (ca == ca2 && r <= r2),
    ensures
        h_edge_before(cols, rows, ca2, r2, e),
{
    let (x, y) = choose|x: nat, y: nat|
        (x < ca || (x == ca && y < r)) && y < rows && #[trigger] is_h_edge(cols, x, y, e);
    assert(is_h_edge(cols, x, y, e));
}

proof fn lemma_v_before_grows(cols: nat, rows: nat, c: nat, ra: nat, c2: nat, ra2: nat, e: (nat, nat))
    requires
        v_edge_before(cols, rows, c, ra, e),
        c < c2 || (c == c2 && ra <= ra2),
    ensures
        v_edge_before(cols, rows, c2, ra2, e),
{
    let (x, y) = choose|x: nat, y: nat|
        (x < c || (x == c && y < ra)) && y + 1 < rows && #[trigger] is_v_edge(cols, x, y, e);
    assert(is_v_edge(cols, x, y, e));
}

/// Side links of two different places are different edges.
proof fn lemma_h_edges_differ(cols: nat, c: nat, r: nat, x: nat, y: nat, e: (nat, nat))
    requires
        c + 1 < cols,
        x + 1 < cols,
        is_h_edge(cols, c, r, e),
        is_h_edge(cols, x, y, e),
    ensures
        c == x && r == y,
{
    if e == (cell_index(cols, c, r), cell_index(cols, c + 1, r)) {
        if e == (cell_index(cols, x, y), cell_index(cols, x + 1, y)) {
            lemma_cell_index_inj(cols, c, r, x, y);
        } else {
            lemma_cell_index_inj(cols, c, r, x + 1, y);
            lemma_cell_index_inj(cols, c + 1, r, x, y);
        }
    } else {
        if e == (cell_index(cols, x, y), cell_index(cols, x + 1, y)) {
            lemma_cell_index_inj(cols, c + 1, r, x, y);
            lemma_cell_index_inj(cols, c, r, x + 1, y);
        } else {
            lemma_cell_index_inj(cols, c, r, x, y);
        }
    }
}

proof fn lemma_v_edges_differ(cols: nat, c: nat, r: nat, x: nat, y: nat, e: (nat, nat))
    requires
        c < cols,
        x < cols,
        is_v_edge(cols, c, r, e),
        is_v_edge(cols, x, y, e),
    ensures
        c == x && r == y,
{
    if e == (cell_index(cols, c, r), cell_index(cols, c, r + 1)) {
        if e == (cell_index(cols, x, y), cell_index(cols, x, y + 1)) {
            lemma_cell_index_inj(cols, c, r, x, y);
        } else {
            lemma_cell_index_inj(cols, c, r, x, y + 1);
            lemma_cell_index_inj(cols, c, r + 1, x, y);
        }
    } else {
        if e == (cell_index(cols, x, y), cell_index(cols, x, y + 1)) {
            lemma_cell_index_inj(cols, c, r + 1, x, y);
            lemma_cell_index_inj(cols, c, r, x, y + 1);
        } else {
            lemma_cell_index_inj(cols, c, r, x, y);
        }
    }
}

proof fn lemma_hv_edges_differ(cols: nat, c: nat, r: nat, x: nat, y: nat, e: (nat, nat))
    requires
        c + 1 < cols,
        x < cols,
        is_h_edge(cols, c, r, e),
    ensures
        !is_v_edge(cols, x, y, e),
{
    if is_v_edge(cols, x, y, e) {
        if e == (cell_index(cols, c, r), cell_index(cols, c + 1, r)) {
            if e == (cell_index(cols, x, y), cell_index(cols, x, y + 1)) {
                lemma_cell_index_inj(cols, c, r, x, y);
                lemma_cell_index_inj(cols, c + 1, r, x, y + 1);
            } else {
                lemma_cell_index_inj(cols, c, r, x, y + 1);
                lemma_cell_index_inj(cols, c + 1, r, x, y);
            }
        } else {
            if e == (cell_index(cols, x, y), cell_index(cols, x, y + 1)) {
                lemma_cell_index_inj(cols, c + 1, r, x, y);
                lemma_cell_index_inj(cols, c, r, x, y + 1);
            } else {
                lemma_cell_index_inj(cols, c + 1, r, x, y + 1);
                lemma_cell_index_inj(cols, c, r, x, y);
            }
        }
    }
}

proof fn lemma_cell_index_bound(cols: nat, rows: nat, col: nat, row: nat)
    requires
        col < cols,
        row < rows,
    ensures
        cell_index(cols, col, row) < cols * rows,
{
    assert((row + 1) * cols <= rows * cols) by (nonlinear_arith)
        requires
            row + 1 <= rows,
    ;
    assert(row * cols + cols == (row + 1) * cols) by (nonlinear_arith);
    assert(cols * rows == rows * cols) by (nonlinear_arith);
}

/// The coordinate (col, row) of cell index `i`.
pub open spec fn coord_of(cols: nat, i: nat) -> (usize, usize) {
    ((i % cols) as usize, (i / cols) as usize)
}

/// The coordinates of a sequence of cell indices.
pub open spec fn coord_path(cols: nat, nodes: Seq<nat>) -> Seq<(usize, usize)> {
    nodes.map_values(|i: nat| coord_of(cols, i))
}

/// A grid connection lies inside a `cols` x `rows` grid.
pub open spec fn grid_connection_valid(cols: nat, rows: nat, c: NavGridConnection) -> bool {
    c.from.0 < cols && c.from.1 < rows && c.to.0 < cols && c.to.1 < rows
}

/// The error for the invalid connection `c`: its first coordinate outside the grid.
pub open spec fn grid_connection_error(cols: usize, rows: usize, c: NavGridConnection) -> Error {
    if c.from.0 >= cols || c.from.1 >= rows {
        Error::InvalidCellCoordinate(c.from.0, c.from.1, cols, rows)
    } else {
        Error::InvalidCellCoordinate(c.to.0, c.to.1, cols, rows)
    }
}

proof fn lemma_coord_of(cols: nat, rows: nat, col: nat, row: nat)
    requires
        col < cols,
        row < rows,
    ensures
        coord_of(cols, cell_index(cols, col, row)) == (col as usize, row as usize),
        cell_index(cols, col, row) < cols * rows,
{
    lemma_cell_index_bound(cols, rows, col, row);
    vstd::arithmetic::div_mod::lemma_fundamental_div_mod_converse_mod(
        cell_index(cols, col, row) as int,
        cols as int,
        row as int,
        col as int,
    );
    vstd::arithmetic::div_mod::lemma_fundamental_div_mod_converse_div(
        cell_index(cols, col, row) as int,
        cols as int,
        row as int,
        col as int,
    );
}

proof fn lemma_index_of(cols: nat, rows: nat, i: nat)
    requires
        cols > 0,
        i < cols * rows,
    ensures
        (i % cols) < cols,
        (i / cols) < rows,
        cell_index(cols, i % cols, i / cols) == i,
{
    vstd::arithmetic::div_mod::lemma_fundamental_div_mod(i as int, cols as int);
    vstd::arithmetic::div_mod::lemma_div_pos_is_pos(i as int, cols as int);
    vstd::arithmetic::div_mod::lemma_mod_pos_bound(i as int, cols as int);
    let q = i / cols;
    let m = i % cols;
    assert(cols * q == q * cols) by (nonlinear_arith);
    if q >= rows {
        assert(q * cols + m >= rows * cols) by (nonlinear_arith)
            requires q >= rows, m >= 0, cols > 0;
        assert(rows * cols == cols * rows) by (nonlinear_arith);
    }
}

/// Coordinate `c` stands in one of the islands.
pub open spec fn in_some_island(islands: Seq<Seq<(usize, usize)>>, c: (usize, usize)) -> bool {
    exists|i: int, j: int|
        0 <= i < islands.len() && 0 <= j < islands[i].len() && #[trigger] islands[i][j] == c
}

/// A walk between two distinct nodes starts and ends on edges, so where every
/// edge joins two walkable cells, both ends are walkable.
proof fn lemma_walk_ends_walkable(edges: Seq<(nat, nat)>, cells: Seq<bool>, a: nat, b: nat)
    requires
        reachable(edges, a, b),
        a != b,
        forall|k: int|
            0 <= k < edges.len() ==> {
                let e = #[trigger] edges[k];
                cells[e.0 as int] && cells[e.1 as int]
            },
    ensures
        cells[a as int],
        cells[b as int],
{
    let w = choose|w: Seq<nat>| #[trigger] crate::graph::is_walk(edges, w, a, b);
    assert(w[0] < edges.len());
    assert(w[w.len() - 1] < edges.len());
    let e0 = edges[w[0] as int];
    let e1 = edges[w[w.len() - 1] as int];
}

/// A directed link between two cells of a grid, by (col, row).
#[derive(Debug, Default, Copy, Clone, PartialEq, Eq, Hash)]
pub struct NavGridConnection {
    pub from: (usize, usize),
    pub to: (usize, usize),
}

/// Tags the identifiers of grids.
pub struct GridTag;

/// Identifier of a grid.
pub type NavGridID = ID<GridTag>;

/// A rectangular grid of cells; occupied cells are walkable, each with a
/// cost multiplier.
///
/// Every cell has a graph node at its own index; free cells have no edges and
/// are never reported.
pub struct NavGrid {
    id: NavGridID,
    cols: usize,
    rows: usize,
    cells: Vec<bool>,
    costs: Vec<u32>,
    graph: NavGraph,
}

impl NavGrid {
    pub closed spec fn spec_cols(&self) -> nat {
        self.cols as nat
    }

    pub closed spec fn spec_rows(&self) -> nat {
        self.rows as nat
    }

    /// Which cells are walkable, in row-major order.
    pub closed spec fn spec_cells(&self) -> Seq<bool> {
        self.cells@
    }

    /// The cost multiplier of each cell, in row-major order.
    pub closed spec fn spec_costs(&self) -> Seq<u32> {
        self.costs@
    }

    /// The directed edges between cell indices.
    pub closed spec fn spec_edges(&self) -> Seq<(nat, nat)> {
        self.graph.edges()
    }

    pub closed spec fn wf(&self) -> bool {
        &&& self.graph.wf()
        &&& self.cols > 0 && self.rows > 0
        &&& self.cells@.len() == self.cols * self.rows
        &&& self.cells@.len() <= MAX_CELLS
        &&& self.costs@.len() == self.cells@.len()
        &&& self.graph.node_count() == self.cells@.len()
        &&& forall|k: int|
            0 <= k < self.graph.edges().len() ==> {
                let e = #[trigger] self.graph.edges()[k];
                self.cells@[e.0 as int] && self.cells@[e.1 as int]
            }
    }

    /// The shape a well-formed grid keeps: `cols * rows` cells, one cost each.
    pub proof fn lemma_shape(&self)
        requires
            self.wf(),
        ensures
            self.spec_cols() > 0 && self.spec_rows() > 0,
            self.spec_cells().len() == self.spec_cols() * self.spec_rows(),
            self.spec_costs().len() == self.spec_cells().len(),
            self.spec_cells().len() <= MAX_CELLS,
    {
    }

    /// Builds a grid of `cols` x `rows` cells whose occupied cells are linked
    /// to their occupied side neighbours, both ways; every cost is 1.
    pub fn new(cols: usize, rows: usize, cells: Vec<bool>) -> (r: NavResult<NavGrid>)
        requires
            cells@.len() <= MAX_CELLS,
        ensures
            cols == 0 || rows == 0 ==> r == Err::<NavGrid, Error>(Error::EmptyCells(cols, rows)),
            cols > 0 && rows > 0 && cols * rows != cells@.len() ==> r == Err::<NavGrid, Error>(
                Error::CellsCountDoesNotMatchColsRows(cells@.len() as usize, cols, rows),
            ),
            cols > 0 && rows > 0 && cols * rows == cells@.len() ==> r is Ok,
            r matches Ok(g) ==> {
                &&& g.wf()
                &&& g.spec_cols() == cols && g.spec_rows() == rows
                &&& g.spec_cells() == cells@
                &&& g.spec_costs() == Seq::new(cells@.len(), |i: int| 1u32)
                &&& g.is_two_way()
                &&& g.spec_edges().no_duplicates()
                &&& forall|a: nat, b: nat|
                    has_edge(g.spec_edges(), a, b) <==> #[trigger] is_grid_link(
                        cols as nat,
                        rows as nat,
                        cells@,
                        a,
                        b,
                    )
            },
    {
        if cols == 0 || rows == 0 {
            return Err(Error::EmptyCells(cols, rows));
        }
        let count = cols.checked_mul(rows);
        if count.is_none() || count.unwrap() != cells.len() {
            return Err(Error::CellsCountDoesNotMatchColsRows(cells.len(), cols, rows));
        }
        let n = cells.len();
        let costs: Vec<u32> = vec![1u32; n];
        let mut graph = NavGraph::new(n, 2 * n);
        let ghost cl = cells@;
        let mut ca: usize = 0;
        while ca + 1 < cols
            invariant
                cols > 0,
                rows > 0,
                n == cells@.len(),
                cols * rows == n,
                n <= MAX_CELLS,
                cl == cells@,
                ca + 1 <= cols,
                graph.wf(),
                graph.node_count() == n,
                graph.edges().len() <= 2 * ca * rows,
                graph.edges().no_duplicates(),
                forall|k: int|
                    0 <= k < graph.edges().len() ==> #[trigger] h_edge_before(cols as nat, rows as nat, ca as nat, 0, graph.edges()[k]),
                forall|k: int|
                    0 <= k < graph.edges().len() ==> is_grid_link(
                        cols as nat,
                        rows as nat,
                        cl,
                        #[trigger] graph.edges()[k].0,
                        graph.edges()[k].1,
                    ),
                forall|c: nat, rr: nat|
                    c < ca && rr < rows && #[trigger] linked_cells(
                        cols as nat,
                        rows as nat,
                        cl,
                        c,
                        rr,
                        c + 1,
                        rr,
                    ) ==> has_edge(graph.edges(), cell_index(cols as nat, c, rr), cell_index(cols as nat, c + 1, rr))
                        && has_edge(graph.edges(), cell_index(cols as nat, c + 1, rr), cell_index(cols as nat, c, rr)),
            decreases cols - ca,
        {
            let mut r: usize = 0;
            while r < rows
                invariant
                    cols > 0,
                    rows > 0,
                    n == cells@.len(),
                    cols * rows == n,
                    n <= MAX_CELLS,
                    cl == cells@,
                    ca + 1 < cols,
                    r <= rows,
                    graph.wf(),
                    graph.node_count() == n,
                    graph.edges().len() <= 2 * ca * rows + 2 * r,
                    graph.edges().no_duplicates(),
                    forall|k: int|
                        0 <= k < graph.edges().len() ==> #[trigger] h_edge_before(cols as nat, rows as nat, ca as nat, r as nat, graph.edges()[k]),
                    forall|k: int|
                        0 <= k < graph.edges().len() ==> is_grid_link(
                            cols as nat,
                            rows as nat,
                            cl,
                            #[trigger] graph.edges()[k].0,
                            graph.edges()[k].1,
                        ),
                    forall|c: nat, rr: nat|
                        (c < ca || (c == ca && rr < r)) && rr < rows && #[trigger] linked_cells(
                            cols as nat,
                            rows as nat,
                            cl,
                            c,
                            rr,
                            c + 1,
                            rr,
                        ) ==> has_edge(graph.edges(), cell_index(cols as nat, c, rr), cell_index(cols as nat, c + 1, rr))
                            && has_edge(graph.edges(), cell_index(cols as nat, c + 1, rr), cell_index(cols as nat, c, rr)),
                decreases rows - r,
            {
                proof {
                    lemma_cell_index_bound(cols as nat, rows as nat, (ca + 1) as nat, r as nat);
                    assert(2 * ca * rows + 2 * r + 2 <= 2 * n) by (nonlinear_arith)
                        requires ca + 1 < cols, r < rows, n == cols * rows;
                }
                let ia = r * cols + ca;
                let ib = ia + 1;
                if cells[ia] && cells[ib] {
                    let ghost e0 = graph.edges();
                    assert(linked_cells(cols as nat, rows as nat, cl, ca as nat, r as nat, (ca + 1) as nat, r as nat));
                    assert(linked_cells(cols as nat, rows as nat, cl, (ca + 1) as nat, r as nat, ca as nat, r as nat));
                    graph.add_edge(ia, ib);
                    graph.add_edge(ib, ia);
                    let ghost e2 = graph.edges();
                    assert(e2 == e0.push((ia as nat, ib as nat)).push((ib as nat, ia as nat)));
                    let ghost x0 = (ia as nat, ib as nat);
                    let ghost y0 = (ib as nat, ia as nat);
                    assert(is_h_edge(cols as nat, ca as nat, r as nat, x0));
                    assert(is_h_edge(cols as nat, ca as nat, r as nat, y0));
                    assert forall|k: int| 0 <= k < e0.len() implies e0[k] != x0 && e0[k] != y0 by {
                        assert(h_edge_before(cols as nat, rows as nat, ca as nat, r as nat, e0[k]));
                        let (x, y) = choose|x: nat, y: nat|
                            (x < ca || (x == ca && y < r)) && y < rows && #[trigger] is_h_edge(
                                cols as nat,
                                x,
                                y,
                                e0[k],
                            );
                        if e0[k] == x0 || e0[k] == y0 {
                            lemma_h_edges_differ(cols as nat, ca as nat, r as nat, x, y, e0[k]);
                        }
                    }
                    assert forall|i: int, j: int|
                        0 <= i < e2.len() && 0 <= j < e2.len() && i != j implies e2[i] != e2[j] by {
                        if i < e0.len() {
                            assert(e2[i] == e0[i]);
                        }
                        if j < e0.len() {
                            assert(e2[j] == e0[j]);
                        }
                    }
                    assert forall|k: int| 0 <= k < e2.len() implies #[trigger] h_edge_before(cols as nat, rows as nat, ca as nat, (r + 1) as nat, e2[k]) by {
                        if k < e0.len() {
                            assert(h_edge_before(cols as nat, rows as nat, ca as nat, r as nat, e0[k]));
                            let (x, y) = choose|x: nat, y: nat|
                                (x < ca || (x == ca && y < r)) && y < rows && #[trigger] is_h_edge(
                                    cols as nat,
                                    x,
                                    y,
                                    e0[k],
                                );
                            assert(e2[k] == e0[k]);
                            assert(is_h_edge(cols as nat, x, y, e2[k]));
                        } else {
                            assert(is_h_edge(cols as nat, ca as nat, r as nat, e2[k]));
                        }
                    }
                    assert forall|c: nat, rr: nat|
                        (c < ca || (c == ca && rr < r + 1)) && rr < rows && #[trigger] linked_cells(
                            cols as nat,
                            rows as nat,
                            cl,
                            c,
                            rr,
                            c + 1,
                            rr,
                        ) implies has_edge(e2, cell_index(cols as nat, c, rr), cell_index(cols as nat, c + 1, rr))
                            && has_edge(e2, cell_index(cols as nat, c + 1, rr), cell_index(cols as nat, c, rr)) by {
                        let x = cell_index(cols as nat, c, rr);
                        let y = cell_index(cols as nat, c + 1, rr);
                        if c == ca && rr == r {
                            assert(e2[e0.len() as int] == (x, y));
                            assert(e2[e0.len() as int + 1] == (y, x));
                        } else {
                            lemma_has_edge_push(e0, (ia as nat, ib as nat), x, y);
                            lemma_has_edge_push(e0.push((ia as nat, ib as nat)), (ib as nat, ia as nat), x, y);
                            lemma_has_edge_push(e0, (ia as nat, ib as nat), y, x);
                            lemma_has_edge_push(e0.push((ia as nat, ib as nat)), (ib as nat, ia as nat), y, x);
                        }
                    }
                } else {
                    assert(!linked_cells(cols as nat, rows as nat, cl, ca as nat, r as nat, (ca + 1) as nat, r as nat));
                    proof {
                        let ed = graph.edges();
                        assert forall|k: int| 0 <= k < ed.len() implies #[trigger] h_edge_before(
                            cols as nat,
                            rows as nat,
                            ca as nat,
                            (r + 1) as nat,
                            ed[k],
                        ) by {
                            if !h_edge_before(cols as nat, rows as nat, ca as nat, (r + 1) as nat, ed[k]) {
                                lemma_h_before_grows(cols as nat, rows as nat, ca as nat, r as nat, ca as nat, (r + 1) as nat, ed[k]);
                            }
                        }
                    }
                }
                r = r + 1;
            }
            proof {
                assert(2 * ca * rows + 2 * rows == 2 * (ca + 1) * rows) by (nonlinear_arith);
            }
            let ghost ca0 = ca;
            let ghost r0 = r;
            ca = ca + 1;
            proof {
                let ed = graph.edges();
                assert forall|k: int| 0 <= k < ed.len() implies #[trigger] h_edge_before(
                    cols as nat,
                    rows as nat,
                    ca as nat,
                    0,
                    ed[k],
                ) by {
                    assert(h_edge_before(cols as nat, rows as nat, ca0 as nat, r0 as nat, ed[k]));
                    lemma_h_before_grows(cols as nat, rows as nat, ca0 as nat, r0 as nat, ca as nat, 0, ed[k]);
                }
            }
        }
        proof {
            assert(2 * ca * rows <= 2 * n) by (nonlinear_arith)
                requires ca + 1 <= cols, n == cols * rows;
        }
        let mut c: usize = 0;
        while c < cols
            invariant
                cols > 0,
                rows > 0,
                n == cells@.len(),
                cols * rows == n,
                n <= MAX_CELLS,
                cl == cells@,
                c <= cols,
                graph.wf(),
                graph.node_count() == n,
                graph.edges().len() <= 2 * n + 2 * c * rows,
                graph.edges().no_duplicates(),
                forall|k: int|
                    0 <= k < graph.edges().len() ==> #[trigger] h_edge_before(cols as nat, rows as nat, (cols - 1) as nat, 0, graph.edges()[k])
                        || v_edge_before(cols as nat, rows as nat, c as nat, 0, graph.edges()[k]),
                forall|k: int|
                    0 <= k < graph.edges().len() ==> is_grid_link(
                        cols as nat,
                        rows as nat,
                        cl,
                        #[trigger] graph.edges()[k].0,
                        graph.edges()[k].1,
                    ),
                forall|x: nat, rr: nat|
                    x + 1 < cols && rr < rows && #[trigger] linked_cells(
                        cols as nat,
                        rows as nat,
                        cl,
                        x,
                        rr,
                        x + 1,
                        rr,
                    ) ==> has_edge(graph.edges(), cell_index(cols as nat, x, rr), cell_index(cols as nat, x + 1, rr))
                        && has_edge(graph.edges(), cell_index(cols as nat, x + 1, rr), cell_index(cols as nat, x, rr)),
                forall|x: nat, rr: nat|
                    x < c && rr + 1 < rows && #[trigger] linked_cells(
                        cols as nat,
                        rows as nat,
                        cl,
                        x,
                        rr,
                        x,
                        rr + 1,
                    ) ==> has_edge(graph.edges(), cell_index(cols as nat, x, rr), cell_index(cols as nat, x, rr + 1))
                        && has_edge(graph.edges(), cell_index(cols as nat, x, rr + 1), cell_index(cols as nat, x, rr)),
            decreases cols - c,
        {
            let mut ra: usize = 0;
            while ra + 1 < rows
                invariant
                    cols > 0,
                    rows > 0,
                    n == cells@.len(),
                    cols * rows == n,
                    n <= MAX_CELLS,
                    cl == cells@,
                    c < cols,
                    ra + 1 <= rows,
                    graph.wf(),
                    graph.node_count() == n,
                    graph.edges().len() <= 2 * n + 2 * c * rows + 2 * ra,
                    graph.edges().no_duplicates(),
                    forall|k: int|
                        0 <= k < graph.edges().len() ==> #[trigger] h_edge_before(cols as nat, rows as nat, (cols - 1) as nat, 0, graph.edges()[k])
                            || v_edge_before(cols as nat, rows as nat, c as nat, ra as nat, graph.edges()[k]),
                    forall|k: int|
                        0 <= k < graph.edges().len() ==> is_grid_link(
                            cols as nat,
                            rows as nat,
                            cl,
                            #[trigger] graph.edges()[k].0,
                            graph.edges()[k].1,
                        ),
                    forall|x: nat, rr: nat|
                        x + 1 < cols && rr < rows && #[trigger] linked_cells(
                            cols as nat,
                            rows as nat,
                            cl,
                            x,
                            rr,
                            x + 1,
                            rr,
                        ) ==> has_edge(graph.edges(), cell_index(cols as nat, x, rr), cell_index(cols as nat, x + 1, rr))
                            && has_edge(graph.edges(), cell_index(cols as nat, x + 1, rr), cell_index(cols as nat, x, rr)),
                    forall|x: nat, rr: nat|
                        (x < c || (x == c && rr < ra)) && rr + 1 < rows && #[trigger] linked_cells(
                            cols as nat,
                            rows as nat,
                            cl,
                            x,
                            rr,
                            x,
                            rr + 1,
                        ) ==> has_edge(graph.edges(), cell_index(cols as nat, x, rr), cell_index(cols as nat, x, rr + 1))
                            && has_edge(graph.edges(), cell_index(cols as nat, x, rr + 1), cell_index(cols as nat, x, rr)),
                decreases rows - ra,
            {
                proof {
                    lemma_cell_index_bound(cols as nat, rows as nat, c as nat, (ra + 1) as nat);
                    assert(cell_index(cols as nat, c as nat, (ra + 1) as nat) == ra * cols + c + cols) by (nonlinear_arith);
                    assert(2 * n + 2 * c * rows + 2 * ra + 2 <= 4 * n) by (nonlinear_arith)
                        requires c < cols, ra + 1 < rows, n == cols * rows;
                }
                let ia = ra * cols + c;
                let ib = ia + cols;
                if cells[ia] && cells[ib] {
                    let ghost e0 = graph.edges();
                    assert(linked_cells(cols as nat, rows as nat, cl, c as nat, ra as nat, c as nat, (ra + 1) as nat));
                    assert(linked_cells(cols as nat, rows as nat, cl, c as nat, (ra + 1) as nat, c as nat, ra as nat));
                    graph.add_edge(ia, ib);
                    graph.add_edge(ib, ia);
                    let ghost e1 = e0.push((ia as nat, ib as nat));
                    let ghost e2 = graph.edges();
                    assert(e2 == e1.push((ib as nat, ia as nat)));
                    let ghost x0 = (ia as nat, ib as nat);
                    let ghost y0 = (ib as nat, ia as nat);
                    assert(is_v_edge(cols as nat, c as nat, ra as nat, x0));
                    assert(is_v_edge(cols as nat, c as nat, ra as nat, y0));
                    assert forall|k: int| 0 <= k < e0.len() implies e0[k] != x0 && e0[k] != y0 by {
                        assert(h_edge_before(cols as nat, rows as nat, (cols - 1) as nat, 0, e0[k]) || v_edge_before(cols as nat, rows as nat, c as nat, ra as nat, e0[k]));
                        if h_edge_before(cols as nat, rows as nat, (cols - 1) as nat, 0, e0[k]) {
                            let (x, y) = choose|x: nat, y: nat|
                                (x < cols - 1 || (x == cols - 1 && y < 0)) && y < rows && #[trigger] is_h_edge(cols as nat, x, y, e0[k]);
                            lemma_hv_edges_differ(cols as nat, x, y, c as nat, ra as nat, e0[k]);
                        } else {
                            let (x, y) = choose|x: nat, y: nat|
                                (x < c || (x == c && y < ra)) && y + 1 < rows && #[trigger] is_v_edge(
                                    cols as nat,
                                    x,
                                    y,
                                    e0[k],
                                );
                            if e0[k] == x0 || e0[k] == y0 {
                                lemma_v_edges_differ(cols as nat, c as nat, ra as nat, x, y, e0[k]);
                            }
                        }
                    }
                    assert forall|i: int, j: int|
                        0 <= i < e2.len() && 0 <= j < e2.len() && i != j implies e2[i] != e2[j] by {
                        if i < e0.len() {
                            assert(e2[i] == e0[i]);
                        }
                        if j < e0.len() {
                            assert(e2[j] == e0[j]);
                        }
                    }
                    assert forall|k: int| 0 <= k < e2.len() implies #[trigger] h_edge_before(cols as nat, rows as nat, (cols - 1) as nat, 0, e2[k])
                        || v_edge_before(cols as nat, rows as nat, c as nat, (ra + 1) as nat, e2[k]) by {
                        if k < e0.len() {
                            assert(e2[k] == e0[k]);
                            assert(h_edge_before(cols as nat, rows as nat, (cols - 1) as nat, 0, e0[k]) || v_edge_before(cols as nat, rows as nat, c as nat, ra as nat, e0[k]));
                            if h_edge_before(cols as nat, rows as nat, (cols - 1) as nat, 0, e0[k]) {
                            } else {
                                let (x, y) = choose|x: nat, y: nat|
                                    (x < c || (x == c && y < ra)) && y + 1 < rows && #[trigger] is_v_edge(
                                        cols as nat,
                                        x,
                                        y,
                                        e0[k],
                                    );
                                assert(is_v_edge(cols as nat, x, y, e2[k]));
                            }
                        } else {
                            assert(is_v_edge(cols as nat, c as nat, ra as nat, e2[k]));
                        }
                    }
                    assert forall|x: nat, rr: nat|
                        x + 1 < cols && rr < rows && #[trigger] linked_cells(
                            cols as nat,
                            rows as nat,
                            cl,
                            x,
                            rr,
                            x + 1,
                            rr,
                        ) implies has_edge(e2, cell_index(cols as nat, x, rr), cell_index(cols as nat, x + 1, rr))
                            && has_edge(e2, cell_index(cols as nat, x + 1, rr), cell_index(cols as nat, x, rr)) by {
                        let p = cell_index(cols as nat, x, rr);
                        let q = cell_index(cols as nat, x + 1, rr);
                        lemma_has_edge_push(e0, (ia as nat, ib as nat), p, q);
                        lemma_has_edge_push(e1, (ib as nat, ia as nat), p, q);
                        lemma_has_edge_push(e0, (ia as nat, ib as nat), q, p);
                        lemma_has_edge_push(e1, (ib as nat, ia as nat), q, p);
                    }
                    assert forall|x: nat, rr: nat|
                        (x < c || (x == c && rr < ra + 1)) && rr + 1 < rows && #[trigger] linked_cells(
                            cols as nat,
                            rows as nat,
                            cl,
                            x,
                            rr,
                            x,
                            rr + 1,
                        ) implies has_edge(e2, cell_index(cols as nat, x, rr), cell_index(cols as nat, x, rr + 1))
                            && has_edge(e2, cell_index(cols as nat, x, rr + 1), cell_index(cols as nat, x, rr)) by {
                        let p = cell_index(cols as nat, x, rr);
                        let q = cell_index(cols as nat, x, rr + 1);
                        if x == c && rr == ra {
                            assert(e2[e0.len() as int] == (p, q));
                            assert(e2[e0.len() as int + 1] == (q, p));
                        } else {
                            lemma_has_edge_push(e0, (ia as nat, ib as nat), p, q);
                            lemma_has_edge_push(e1, (ib as nat, ia as nat), p, q);
                            lemma_has_edge_push(e0, (ia as nat, ib as nat), q, p);
                            lemma_has_edge_push(e1, (ib as nat, ia as nat), q, p);
                        }
                    }
                } else {
                    assert(!linked_cells(cols as nat, rows as nat, cl, c as nat, ra as nat, c as nat, (ra + 1) as nat));
                    proof {
                        let ed = graph.edges();
                        assert forall|k: int| 0 <= k < ed.len() implies #[trigger] h_edge_before(
                            cols as nat,
                            rows as nat,
                            (cols - 1) as nat,
                            0,
                            ed[k],
                        ) || v_edge_before(cols as nat, rows as nat, c as nat, (ra + 1) as nat, ed[k]) by {
                            assert(h_edge_before(cols as nat, rows as nat, (cols - 1) as nat, 0, ed[k])
                                || v_edge_before(cols as nat, rows as nat, c as nat, ra as nat, ed[k]));
                            if !h_edge_before(cols as nat, rows as nat, (cols - 1) as nat, 0, ed[k]) {
                                lemma_v_before_grows(cols as nat, rows as nat, c as nat, ra as nat, c as nat, (ra + 1) as nat, ed[k]);
                            }
                        }
                    }
                }
                ra = ra + 1;
            }
            proof {
                assert(2 * n + 2 * c * rows + 2 * ra <= 2 * n + 2 * (c + 1) * rows) by (nonlinear_arith)
                    requires ra + 1 <= rows;
            }
            let ghost c0 = c;
            let ghost ra0 = ra;
            c = c + 1;
            proof {
                let ed = graph.edges();
                assert forall|k: int| 0 <= k < ed.len() implies #[trigger] h_edge_before(
                    cols as nat,
                    rows as nat,
                    (cols - 1) as nat,
                    0,
                    ed[k],
                ) || v_edge_before(cols as nat, rows as nat, c as nat, 0, ed[k]) by {
                    assert(h_edge_before(cols as nat, rows as nat, (cols - 1) as nat, 0, ed[k])
                        || v_edge_before(cols as nat, rows as nat, c0 as nat, ra0 as nat, ed[k]));
                    if !h_edge_before(cols as nat, rows as nat, (cols - 1) as nat, 0, ed[k]) {
                        lemma_v_before_grows(cols as nat, rows as nat, c0 as nat, ra0 as nat, c as nat, 0, ed[k]);
                    }
                }
            }
        }
        let ghost edges = graph.edges();
        assert forall|a: nat, b: nat|
            has_edge(edges, a, b) <==> #[trigger] is_grid_link(cols as nat, rows as nat, cl, a, b) by {
            if has_edge(edges, a, b) {
                let k = choose|k: int| 0 <= k < edges.len() && #[trigger] edges[k] == (a, b);
                assert(is_grid_link(cols as nat, rows as nat, cl, edges[k].0, edges[k].1));
            }
            if is_grid_link(cols as nat, rows as nat, cl, a, b) {
                let (c1, r1, c2, r2) = choose|c1: nat, r1: nat, c2: nat, r2: nat|
                    #[trigger] linked_cells(cols as nat, rows as nat, cl, c1, r1, c2, r2)
                        && a == cell_index(cols as nat, c1, r1) && b == cell_index(cols as nat, c2, r2);
                if r1 == r2 && c1 + 1 == c2 {
                    assert(linked_cells(cols as nat, rows as nat, cl, c1, r1, c1 + 1, r1));
                } else if r1 == r2 {
                    assert(linked_cells(cols as nat, rows as nat, cl, c2, r1, c2 + 1, r1));
                } else if r1 + 1 == r2 {
                    assert(linked_cells(cols as nat, rows as nat, cl, c1, r1, c1, r1 + 1));
                } else {
                    assert(linked_cells(cols as nat, rows as nat, cl, c1, r2, c1, r2 + 1));
                }
            }
        }
        assert forall|a: nat, b: nat| has_edge(edges, a, b) implies #[trigger] has_edge(edges, b, a) by {
            assert(is_grid_link(cols as nat, rows as nat, cl, a, b));
            let (c1, r1, c2, r2) = choose|c1: nat, r1: nat, c2: nat, r2: nat|
                #[trigger] linked_cells(cols as nat, rows as nat, cl, c1, r1, c2, r2)
                    && a == cell_index(cols as nat, c1, r1) && b == cell_index(cols as nat, c2, r2);
            assert(linked_cells(cols as nat, rows as nat, cl, c2, r2, c1, r1));
            assert(is_grid_link(cols as nat, rows as nat, cl, b, a));
        }
        assert forall|k: int| 0 <= k < edges.len() implies {
            let e = #[trigger] edges[k];
            cl[e.0 as int] && cl[e.1 as int]
        } by {
            assert(is_grid_link(cols as nat, rows as nat, cl, edges[k].0, edges[k].1));
        }
        Ok(NavGrid { id: new_id(), cols, rows, cells, costs, graph })
    }

    /// Cell (col, row) lies inside the grid and is walkable.
    pub open spec fn walkable(&self, c: (usize, usize)) -> bool {
        c.0 < self.spec_cols() && c.1 < self.spec_rows() && self.spec_cells()[cell_index(
            self.spec_cols(),
            c.0 as nat,
            c.1 as nat,
        ) as int]
    }

    /// The row-major index of a coordinate.
    pub open spec fn index_of(&self, c: (usize, usize)) -> nat {
        cell_index(self.spec_cols(), c.0 as nat, c.1 as nat)
    }

    /// `p` is the cheapest path from `from` to `to` under `weights`, by coordinates.
    pub open spec fn is_found_path(
        &self,
        from: (usize, usize),
        to: (usize, usize),
        weights: Seq<u128>,
        p: Seq<(usize, usize)>,
    ) -> bool {
        exists|c: int, nodes: Seq<nat>|
            #[trigger] is_cheapest_path(
                self.spec_edges(),
                weights,
                self.index_of(from),
                self.index_of(to),
                c,
                nodes,
            ) && nodes.no_duplicates() && p == coord_path(self.spec_cols(), nodes)
    }

    /// Builds a grid of `cols` x `rows` cells, all walkable, linked only by the
    /// given directed connections; every cost is 1.
    pub fn with_connections(cols: usize, rows: usize, connections: Vec<NavGridConnection>) -> (r:
        NavResult<NavGrid>)
        requires
            cols * rows <= MAX_CELLS,
            connections@.len() < u32::MAX,
        ensures
            cols == 0 || rows == 0 ==> r == Err::<NavGrid, Error>(Error::EmptyCells(cols, rows)),
            cols > 0 && rows > 0 ==> (r is Err <==> exists|i: int|
                0 <= i < connections@.len() && !grid_connection_valid(
                    cols as nat,
                    rows as nat,
                    #[trigger] connections@[i],
                )),
            cols > 0 && rows > 0 && r is Err ==> exists|i: int|
                0 <= i < connections@.len() && !grid_connection_valid(
                    cols as nat,
                    rows as nat,
                    #[trigger] connections@[i],
                ) && (forall|j: int|
                    0 <= j < i ==> grid_connection_valid(cols as nat, rows as nat, connections@[j]))
                    && r == Err::<NavGrid, Error>(grid_connection_error(cols, rows, connections@[i])),
            r matches Ok(g) ==> {
                &&& g.wf()
                &&& g.spec_cols() == cols && g.spec_rows() == rows
                &&& g.spec_cells() == Seq::new((cols * rows) as nat, |i: int| true)
                &&& g.spec_costs() == Seq::new((cols * rows) as nat, |i: int| 1u32)
                &&& g.spec_edges() == connections@.map_values(
                    |c: NavGridConnection|
                        (
                            cell_index(cols as nat, c.from.0 as nat, c.from.1 as nat),
                            cell_index(cols as nat, c.to.0 as nat, c.to.1 as nat),
                        ),
                )
            },
    {
        if cols == 0 || rows == 0 {
            return Err(Error::EmptyCells(cols, rows));
        }
        let mut i: usize = 0;
        while i < connections.len()
            invariant
                cols > 0,
                rows > 0,
                i <= connections@.len(),
                forall|j: int|
                    0 <= j < i ==> grid_connection_valid(
                        cols as nat,
                        rows as nat,
                        #[trigger] connections@[j],
                    ),
            decreases connections@.len() - i,
        {
            let c = connections[i];
            if c.from.0 >= cols || c.from.1 >= rows {
                return Err(Error::InvalidCellCoordinate(c.from.0, c.from.1, cols, rows));
            }
            if c.to.0 >= cols || c.to.1 >= rows {
                return Err(Error::InvalidCellCoordinate(c.to.0, c.to.1, cols, rows));
            }
            i = i + 1;
        }
        let count = cols * rows;
        let cells: Vec<bool> = vec![true; count];
        let costs: Vec<u32> = vec![1u32; count];
        let mut graph = NavGraph::new(count, connections.len());
        let ghost want = connections@.map_values(
            |c: NavGridConnection|
                (
                    cell_index(cols as nat, c.from.0 as nat, c.from.1 as nat),
                    cell_index(cols as nat, c.to.0 as nat, c.to.1 as nat),
                ),
        );
        let mut k: usize = 0;
        while k < connections.len()
            invariant
                k <= connections@.len(),
                connections@.len() < u32::MAX,
                cols > 0,
                rows > 0,
                count == cols * rows,
                count <= MAX_CELLS,
                forall|j: int|
                    0 <= j < connections@.len() ==> grid_connection_valid(
                        cols as nat,
                        rows as nat,
                        #[trigger] connections@[j],
                    ),
                want == connections@.map_values(
                    |c: NavGridConnection|
                        (
                            cell_index(cols as nat, c.from.0 as nat, c.from.1 as nat),
                            cell_index(cols as nat, c.to.0 as nat, c.to.1 as nat),
                        ),
                ),
                graph.wf(),
                graph.node_count() == count,
                graph.edges() == want.take(k as int),
            decreases connections@.len() - k,
        {
            let c = connections[k];
            proof {
                assert(grid_connection_valid(cols as nat, rows as nat, connections@[k as int]));
                lemma_cell_index_bound(cols as nat, rows as nat, c.from.0 as nat, c.from.1 as nat);
                lemma_cell_index_bound(cols as nat, rows as nat, c.to.0 as nat, c.to.1 as nat);
            }
            let ia = c.from.1 * cols + c.from.0;
            let ib = c.to.1 * cols + c.to.0;
            graph.add_edge(ia, ib);
            proof {
                assert(want.take(k as int + 1) == want.take(k as int).push(want[k as int]));
            }
            k = k + 1;
        }
        proof {
            assert(want.take(connections@.len() as int) == want);
            graph.lemma_edges_in_range();
        }
        Ok(NavGrid { id: new_id(), cols, rows, cells, costs, graph })
    }

    /// The grid's identifier.
    pub fn id(&self) -> (r: NavGridID) {
        self.id
    }

    /// Which cells are walkable, in row-major order.
    pub fn cells(&self) -> (r: &[bool])
        ensures
            r@ == self.spec_cells(),
    {
        self.cells.as_slice()
    }

    /// The cost multiplier of each cell, in row-major order.
    pub fn cells_costs(&self) -> (r: &[u32])
        ensures
            r@ == self.spec_costs(),
    {
        self.costs.as_slice()
    }

    /// Sets the cost of walkable cell (col, row) and returns the former cost;
    /// `None` (and no change) when the cell is outside the grid or free, since
    /// a free cell is no node of the graph.
    pub fn set_cell_cost(&mut self, col: usize, row: usize, cost: u32) -> (r: Option<u32>)
        requires
            old(self).wf(),
        ensures
            final(self).wf(),
            final(self).spec_cols() == old(self).spec_cols(),
            final(self).spec_rows() == old(self).spec_rows(),
            final(self).spec_cells() == old(self).spec_cells(),
            final(self).spec_edges() == old(self).spec_edges(),
            old(self).walkable((col, row)) ==> {
                let i = cell_index(old(self).spec_cols(), col as nat, row as nat);
                &&& r == Some(old(self).spec_costs()[i as int])
                &&& final(self).spec_costs() == old(self).spec_costs().update(i as int, cost)
            },
            !old(self).walkable((col, row)) ==> r is None && final(self).spec_costs() == old(
                self,
            ).spec_costs(),
    {
        match self.index(col, row) {
            None => None,
            Some(i) => {
                if !self.cells[i] {
                    return None;
                }
                let old_cost = self.costs[i];
                self.costs.set(i, cost);
                Some(old_cost)
            },
        }
    }

    /// The row-major index of cell (col, row), or `None` outside the grid.
    pub fn index(&self, col: usize, row: usize) -> (r: Option<usize>)
        requires
            self.wf(),
        ensures
            col < self.spec_cols() && row < self.spec_rows() ==> r == Some(
                cell_index(self.spec_cols(), col as nat, row as nat) as usize,
            ) && cell_index(self.spec_cols(), col as nat, row as nat) < self.spec_cells().len(),
            !(col < self.spec_cols() && row < self.spec_rows()) ==> r is None,
    {
        if col < self.cols && row < self.rows {
            proof {
                lemma_cell_index_bound(self.cols as nat, self.rows as nat, col as nat, row as nat);
            }
            Some(row * self.cols + col)
        } else {
            None
        }
    }

    /// The coordinate (col, row) of a row-major index, or `None` outside the grid.
    pub fn coord(&self, index: usize) -> (r: Option<(usize, usize)>)
        requires
            self.wf(),
        ensures
            index < self.spec_cells().len() ==> r == Some(coord_of(self.spec_cols(), index as nat)),
            index >= self.spec_cells().len() ==> r is None,
    {
        let col = index % self.cols;
        let row = index / self.cols;
        proof {
            if index < self.cells@.len() {
                lemma_index_of(self.cols as nat, self.rows as nat, index as nat);
            } else if row < self.rows {
                lemma_cell_index_bound(self.cols as nat, self.rows as nat, col as nat, row as nat);
                vstd::arithmetic::div_mod::lemma_fundamental_div_mod(index as int, self.cols as int);
                assert(self.cols * row == row * self.cols) by (nonlinear_arith);
            }
        }
        if col < self.cols && row < self.rows {
            Some((col, row))
        } else {
            None
        }
    }

    /// The cells that walkable cell (col, row) links to, the most recently
    /// linked first; `None` when the cell is outside the grid or not walkable.
    pub fn neighbors(&self, col: usize, row: usize) -> (r: Option<Vec<(usize, usize)>>)
        requires
            self.wf(),
        ensures
            r is Some <==> self.walkable((col, row)),
            r matches Some(v) ==> v@ == coord_path(
                self.spec_cols(),
                out_targets(self.spec_edges(), self.index_of((col, row))),
            ),
    {
        let i = match self.index(col, row) {
            None => return None,
            Some(i) => i,
        };
        if !self.cells[i] {
            return None;
        }
        let targets = self.graph.neighbors(i);
        let mut out: Vec<(usize, usize)> = Vec::new();
        let mut k: usize = 0;
        while k < targets.len()
            invariant
                self.wf(),
                k <= targets@.len(),
                nat_seq(targets@) == out_targets(self.spec_edges(), i as nat),
                out@ == coord_path(self.spec_cols(), nat_seq(targets@).take(k as int)),
            decreases targets@.len() - k,
        {
            let t = targets[k];
            out.push((t % self.cols, t / self.cols));
            proof {
                assert(nat_seq(targets@).take(k as int + 1) == nat_seq(targets@).take(k as int).push(t as nat));
                assert(coord_path(self.spec_cols(), nat_seq(targets@).take(k as int + 1)) =~= coord_path(self.spec_cols(), nat_seq(targets@).take(k as int)).push(coord_of(self.spec_cols(), t as nat)));
            }
            k = k + 1;
        }
        proof {
            assert(nat_seq(targets@).take(targets@.len() as int) == nat_seq(targets@));
        }
        Some(out)
    }

    /// The search shared by the public queries: `allowed` says, per edge,
    /// whether it weighs its cells' cost product or the blocking weight.
    fn search(&self, from: (usize, usize), to: (usize, usize), allowed: &Vec<bool>) -> (r: Option<
        Vec<(usize, usize)>,
    >)
        requires
            self.wf(),
            allowed@.len() == self.spec_edges().len(),
        ensures
            r is Some ==> self.walkable(from) && self.walkable(to),
            r is None ==> !(self.walkable(from) && self.walkable(to) && reachable(
                self.spec_edges(),
                self.index_of(from),
                self.index_of(to),
            )),
            r matches Some(p) ==> self.is_found_path(
                from,
                to,
                cost_weights(self.spec_edges(), self.spec_costs(), allowed@),
                p@,
            ),
            self.walkable(from) && from == to ==> r is Some && r.unwrap()@ == seq![from],
    {
        let start = match self.index(from.0, from.1) {
            None => return None,
            Some(i) => i,
        };
        let goal = match self.index(to.0, to.1) {
            None => return None,
            Some(i) => i,
        };
        if !self.cells[start] || !self.cells[goal] {
            return None;
        }
        let ghost edges = self.spec_edges();
        let ghost want = cost_weights(edges, self.costs@, allowed@);
        let n = self.graph.edge_count();
        let mut weights: Vec<u128> = Vec::new();
        let mut e: usize = 0;
        while e < n
            invariant
                self.wf(),
                edges == self.spec_edges(),
                n == edges.len(),
                allowed@.len() == n,
                want == cost_weights(edges, self.costs@, allowed@),
                e <= n,
                weights@ == want.take(e as int),
                forall|k: int| 0 <= k < weights@.len() ==> #[trigger] weights@[k] <= MAX_EDGE_WEIGHT,
            decreases n - e,
        {
            let (a, b) = self.graph.edge(e);
            let w = if allowed[e] {
                let ca = self.costs[a];
                let cb = self.costs[b];
                proof {
                    assert((ca as int) * (cb as int) <= 0xFFFF_FFFF * 0xFFFF_FFFF) by (nonlinear_arith)
                        requires ca <= 0xFFFF_FFFFu32, cb <= 0xFFFF_FFFFu32;
                    assert(0 <= (ca as int) * (cb as int)) by (nonlinear_arith);
                }
                ca as u128 * cb as u128
            } else {
                MAX_EDGE_WEIGHT
            };
            weights.push(w);
            proof {
                assert(want.take(e as int + 1) == want.take(e as int).push(want[e as int]));
            }
            e = e + 1;
        }
        proof {
            assert(want.take(n as int) == want);
        }
        match self.graph.find_path(start, goal, &weights) {
            None => None,
            Some((cost, nodes)) => {
                proof {
                    self.graph.lemma_edges_in_range();
                }
                let mut out: Vec<(usize, usize)> = Vec::new();
                let mut k: usize = 0;
                while k < nodes.len()
                    invariant
                        self.wf(),
                        k <= nodes@.len(),
                        out@ == coord_path(self.spec_cols(), nat_seq(nodes@).take(k as int)),
                    decreases nodes@.len() - k,
                {
                    let t = nodes[k];
                    out.push((t % self.cols, t / self.cols));
                    proof {
                        assert(nat_seq(nodes@).take(k as int + 1) == nat_seq(nodes@).take(k as int).push(t as nat));
                        assert(coord_path(self.spec_cols(), nat_seq(nodes@).take(k as int + 1)) =~= coord_path(self.spec_cols(), nat_seq(nodes@).take(k as int)).push(coord_of(self.spec_cols(), t as nat)));
                    }
                    k = k + 1;
                }
                proof {
                    assert(nat_seq(nodes@).take(nodes@.len() as int) == nat_seq(nodes@));
                    assert(is_cheapest_path(edges, want, start as nat, goal as nat, cost as int, nat_seq(nodes@)));
                    assert(self.index_of(from) == start as nat);
                    assert(self.index_of(to) == goal as nat);
                    assert(out@ == coord_path(self.spec_cols(), nat_seq(nodes@)));
                    assert(is_cheapest_path(self.spec_edges(), want, self.index_of(from), self.index_of(to), cost as int, nat_seq(nodes@)));
                    assert(self.is_found_path(from, to, want, out@));
                    if from == to {
                        lemma_coord_of(self.cols as nat, self.rows as nat, from.0 as nat, from.1 as nat);
                        assert(nat_seq(nodes@) =~= seq![start as nat]);
                        assert(coord_path(self.spec_cols(), nat_seq(nodes@)) =~= seq![from]);
                    }
                }
                Some(out)
            },
        }
    }

    /// The cheapest path from cell `from` to cell `to`, where each step weighs
    /// the product of its two cells' costs; `None` when either cell is outside
    /// the grid or not walkable, or `to` cannot be reached.
    pub fn find_path(&self, from: (usize, usize), to: (usize, usize)) -> (r: Option<
        Vec<(usize, usize)>,
    >)
        requires
            self.wf(),
        ensures
            r is Some ==> self.walkable(from) && self.walkable(to),
            r is None ==> !(self.walkable(from) && self.walkable(to) && reachable(
                self.spec_edges(),
                self.index_of(from),
                self.index_of(to),
            )),
            r matches Some(p) ==> self.is_found_path(
                from,
                to,
                cost_weights(
                    self.spec_edges(),
                    self.spec_costs(),
                    Seq::new(self.spec_edges().len(), |e: int| true),
                ),
                p@,
            ),
            self.walkable(from) && from == to ==> r is Some && r.unwrap()@ == seq![from],
    {
        let n = self.graph.edge_count();
        let allowed: Vec<bool> = vec![true; n];
        proof {
            assert(allowed@ =~= Seq::new(self.spec_edges().len(), |e: int| true));
        }
        self.search(from, to, &allowed)
    }

    /// Like `find_path`, but a step from cell `a` to cell `b` for which
    /// `filter(a, b)` is false weighs the blocking weight, so that it is taken
    /// only where no other way exists.
    pub fn find_path_custom<F: Fn((usize, usize), (usize, usize)) -> bool>(
        &self,
        from: (usize, usize),
        to: (usize, usize),
        filter: F,
    ) -> (r: Option<Vec<(usize, usize)>>)
        requires
            self.wf(),
            forall|a: (usize, usize), b: (usize, usize)| #[trigger] filter.requires((a, b)),
        ensures
            r is Some ==> self.walkable(from) && self.walkable(to),
            r is None ==> !(self.walkable(from) && self.walkable(to) && reachable(
                self.spec_edges(),
                self.index_of(from),
                self.index_of(to),
            )),
            r matches Some(p) ==> exists|allowed: Seq<bool>|
                {
                    &&& allowed.len() == self.spec_edges().len()
                    &&& forall|e: int|
                        0 <= e < allowed.len() ==> filter.ensures(
                            (
                                coord_of(self.spec_cols(), self.spec_edges()[e].0),
                                coord_of(self.spec_cols(), self.spec_edges()[e].1),
                            ),
                            #[trigger] allowed[e],
                        )
                    &&& self.is_found_path(
                        from,
                        to,
                        cost_weights(self.spec_edges(), self.spec_costs(), allowed),
                        p@,
                    )
                },
            self.walkable(from) && from == to ==> r is Some && r.unwrap()@ == seq![from],
    {
        let n = self.graph.edge_count();
        let mut allowed: Vec<bool> = Vec::new();
        let mut e: usize = 0;
        while e < n
            invariant
                self.wf(),
                n == self.spec_edges().len(),
                e <= n,
                allowed@.len() == e,
                forall|a: (usize, usize), b: (usize, usize)| #[trigger] filter.requires((a, b)),
                forall|k: int|
                    0 <= k < e ==> filter.ensures(
                        (
                            coord_of(self.spec_cols(), self.spec_edges()[k].0),
                            coord_of(self.spec_cols(), self.spec_edges()[k].1),
                        ),
                        #[trigger] allowed@[k],
                    ),
            decreases n - e,
        {
            let (a, b) = self.graph.edge(e);
            let ok = filter((a % self.cols, a / self.cols), (b % self.cols, b / self.cols));
            allowed.push(ok);
            e = e + 1;
        }
        self.search(from, to, &allowed)
    }

    /// `islands` splits the walkable cells into strongly connected groups:
    /// each walkable cell stands exactly once, and two cells share a group
    /// exactly when each can reach the other.
    pub open spec fn is_island_split(&self, islands: Seq<Seq<(usize, usize)>>) -> bool {
        &&& forall|i: int| 0 <= i < islands.len() ==> #[trigger] islands[i].len() > 0
        &&& forall|i: int, j: int|
            0 <= i < islands.len() && 0 <= j < islands[i].len() ==> self.walkable(
                #[trigger] islands[i][j],
            )
        &&& forall|c: (usize, usize)| self.walkable(c) ==> #[trigger] in_some_island(islands, c)
        &&& forall|i1: int, j1: int, i2: int, j2: int|
            0 <= i1 < islands.len() && 0 <= j1 < islands[i1].len() && 0 <= i2 < islands.len() && 0
                <= j2 < islands[i2].len() && #[trigger] islands[i1][j1] == #[trigger] islands[i2][j2]
                ==> i1 == i2 && j1 == j2
        &&& forall|i1: int, j1: int, i2: int, j2: int|
            0 <= i1 < islands.len() && 0 <= j1 < islands[i1].len() && 0 <= i2 < islands.len() && 0
                <= j2 < islands[i2].len() ==> (i1 == i2 <==> mutually_reachable(
                self.spec_edges(),
                self.index_of(#[trigger] islands[i1][j1]),
                self.index_of(#[trigger] islands[i2][j2]),
            ))
    }

    /// The islands of the grid: its walkable cells grouped into strongly
    /// connected components.
    pub fn find_islands(&self) -> (r: Vec<Vec<(usize, usize)>>)
        requires
            self.wf(),
        ensures
            self.is_island_split(r@.map_values(|v: Vec<(usize, usize)>| v@)),
    {
        let comps = self.graph.find_islands();
        let ghost cv = comps@.map_values(|c: Vec<usize>| c@);
        let ghost edges = self.spec_edges();
        let ghost cols = self.spec_cols();
        let mut out: Vec<Vec<(usize, usize)>> = Vec::new();
        let ghost mut src: Seq<int> = seq![];
        let mut i: usize = 0;
        while i < comps.len()
            invariant
                self.wf(),
                cv == comps@.map_values(|c: Vec<usize>| c@),
                is_scc_split(edges, self.graph.node_count(), cv),
                edges == self.spec_edges(),
                cols == self.spec_cols(),
                i <= comps@.len(),
                out@.len() == src.len(),
                forall|k: int| 0 <= k < src.len() ==> 0 <= #[trigger] src[k] < i,
                forall|k1: int, k2: int|
                    0 <= k1 < k2 < src.len() ==> #[trigger] src[k1] < #[trigger] src[k2],
                forall|k: int|
                    0 <= k < src.len() ==> (#[trigger] out@[k])@ == coord_path(
                        cols,
                        nat_seq(cv[src[k]]),
                    ) && self.cells@[cv[src[k]][0] as int],
                forall|i0: int|
                    0 <= i0 < i && self.cells@[cv[i0][0] as int] ==> exists|k: int|
                        0 <= k < src.len() && #[trigger] src[k] == i0,
            decreases comps@.len() - i,
        {
            let comp = &comps[i];
            assert(comp@ == cv[i as int]);
            assert(comp@.len() > 0);
            if self.cells[comp[0]] {
                let mut island: Vec<(usize, usize)> = Vec::new();
                let mut j: usize = 0;
                while j < comp.len()
                    invariant
                        self.wf(),
                        cols == self.spec_cols(),
                        j <= comp@.len(),
                        island@ == coord_path(cols, nat_seq(comp@).take(j as int)),
                    decreases comp@.len() - j,
                {
                    let t = comp[j];
                    island.push((t % self.cols, t / self.cols));
                    proof {
                        assert(nat_seq(comp@).take(j as int + 1) == nat_seq(comp@).take(j as int).push(t as nat));
                        assert(coord_path(cols, nat_seq(comp@).take(j as int + 1)) =~= coord_path(cols, nat_seq(comp@).take(j as int)).push(coord_of(cols, t as nat)));
                    }
                    j = j + 1;
                }
                proof {
                    assert(nat_seq(comp@).take(comp@.len() as int) == nat_seq(comp@));
                }
                let ghost old_src = src;
                out.push(island);
                proof {
                    src = src.push(i as int);
                    assert forall|i0: int|
                        0 <= i0 < i + 1 && self.cells@[cv[i0][0] as int] implies exists|k: int|
                            0 <= k < src.len() && #[trigger] src[k] == i0 by {
                        if i0 == i {
                            assert(src[src.len() - 1] == i0);
                        } else {
                            let k = choose|k: int| 0 <= k < old_src.len() && #[trigger] old_src[k] == i0;
                            assert(src[k] == i0);
                        }
                    }
                }
            }
            i = i + 1;
        }
        let ghost islands = out@.map_values(|v: Vec<(usize, usize)>| v@);
        proof {
            self.lemma_islands(cv, src, islands);
        }
        out
    }

    proof fn lemma_islands(&self, cv: Seq<Seq<usize>>, src: Seq<int>, islands: Seq<Seq<(usize, usize)>>)
        requires
            self.wf(),
            is_scc_split(self.spec_edges(), self.graph.node_count(), cv),
            islands.len() == src.len(),
            forall|k: int| 0 <= k < src.len() ==> 0 <= #[trigger] src[k] < cv.len(),
            forall|k1: int, k2: int|
                0 <= k1 < k2 < src.len() ==> #[trigger] src[k1] < #[trigger] src[k2],
            forall|k: int|
                0 <= k < src.len() ==> #[trigger] islands[k] == coord_path(
                    self.spec_cols(),
                    nat_seq(cv[src[k]]),
                ) && self.cells@[cv[src[k]][0] as int],
            forall|i0: int|
                0 <= i0 < cv.len() && self.cells@[cv[i0][0] as int] ==> exists|k: int|
                    0 <= k < src.len() && #[trigger] src[k] == i0,
        ensures
            self.is_island_split(islands),
    {
        let edges = self.spec_edges();
        let cols = self.spec_cols();
        let rows = self.spec_rows();
        self.graph.lemma_edges_in_range();
        // Every node of a kept component is walkable.
        assert forall|k: int, j: int|
            0 <= k < src.len() && 0 <= j < cv[src[k]].len() implies self.cells@[#[trigger] cv[src[k]][j] as int] by {
            let i0 = src[k];
            assert(islands[k] == coord_path(cols, nat_seq(cv[src[k]])));
            if j != 0 {
                assert(cv[i0][j] != cv[i0][0]);
                assert(reachable(edges, cv[i0][j] as nat, cv[i0][0] as nat));
                lemma_walk_ends_walkable(edges, self.cells@, cv[i0][j] as nat, cv[i0][0] as nat);
            }
        }
        assert forall|k: int, j: int|
            0 <= k < islands.len() && 0 <= j < islands[k].len() implies islands[k][j] == coord_of(cols, #[trigger] cv[src[k]][j] as nat)
                && self.walkable(islands[k][j]) && self.index_of(islands[k][j]) == cv[src[k]][j] as nat by {
            let n = cv[src[k]][j] as nat;
            assert(self.cells@[n as int]);
            lemma_index_of(cols, rows, n);
        }
        assert forall|i: int| 0 <= i < islands.len() implies #[trigger] islands[i].len() > 0 by {
            assert(cv[src[i]].len() > 0);
        }
        assert forall|i: int, j: int|
            0 <= i < islands.len() && 0 <= j < islands[i].len() implies self.walkable(#[trigger] islands[i][j]) by {
            assert(islands[i][j] == coord_of(cols, cv[src[i]][j] as nat));
        }
        assert forall|c: (usize, usize)| self.walkable(c) implies #[trigger] in_some_island(islands, c) by {
            let n = self.index_of(c);
            lemma_coord_of(cols, rows, c.0 as nat, c.1 as nat);
            assert(crate::graph::in_some_component(cv, n));
            let (i0, j) = choose|i0: int, j: int| 0 <= i0 < cv.len() && 0 <= j < cv[i0].len() && #[trigger] cv[i0][j] == n;
            if j != 0 {
                assert(cv[i0][j] != cv[i0][0]);
                assert(reachable(edges, cv[i0][j] as nat, cv[i0][0] as nat));
                lemma_walk_ends_walkable(edges, self.cells@, cv[i0][j] as nat, cv[i0][0] as nat);
            }
            let k = choose|k: int| 0 <= k < src.len() && #[trigger] src[k] == i0;
            assert(islands[k] == coord_path(cols, nat_seq(cv[src[k]])));
            assert(islands[k][j] == coord_of(cols, cv[src[k]][j] as nat));
        }
        assert forall|i1: int, j1: int, i2: int, j2: int|
            0 <= i1 < islands.len() && 0 <= j1 < islands[i1].len() && 0 <= i2 < islands.len() && 0
                <= j2 < islands[i2].len() && #[trigger] islands[i1][j1] == #[trigger] islands[i2][j2]
                implies i1 == i2 && j1 == j2 by {
            assert(self.index_of(islands[i1][j1]) == cv[src[i1]][j1] as nat);
            assert(self.index_of(islands[i2][j2]) == cv[src[i2]][j2] as nat);
            assert(cv[src[i1]][j1] == cv[src[i2]][j2]);
            if i1 < i2 {
                assert(src[i1] < src[i2]);
            } else if i2 < i1 {
                assert(src[i2] < src[i1]);
            }
        }
        assert forall|i1: int, j1: int, i2: int, j2: int|
            0 <= i1 < islands.len() && 0 <= j1 < islands[i1].len() && 0 <= i2 < islands.len() && 0
                <= j2 < islands[i2].len() implies (i1 == i2 <==> mutually_reachable(
                edges,
                self.index_of(#[trigger] islands[i1][j1]),
                self.index_of(#[trigger] islands[i2][j2]),
            )) by {
            assert(self.index_of(islands[i1][j1]) == cv[src[i1]][j1] as nat);
            assert(self.index_of(islands[i2][j2]) == cv[src[i2]][j2] as nat);
            assert(src[i1] == src[i2] <==> mutually_reachable(edges, cv[src[i1]][j1] as nat, cv[src[i2]][j2] as nat));
            if i1 < i2 {
                assert(src[i1] < src[i2]);
            } else if i2 < i1 {
                assert(src[i2] < src[i1]);
            }
        }
    }

    /// Where two walkable cells cannot both reach each other, any island split
    /// of the grid has at least two islands, and holds every walkable cell
    /// exactly once.
    pub proof fn lemma_islands_of_cut_grid(
        &self,
        islands: Seq<Seq<(usize, usize)>>,
        a: (usize, usize),
        b: (usize, usize),
    )
        requires
            self.wf(),
            self.is_island_split(islands),
            self.walkable(a),
            self.walkable(b),
            !mutually_reachable(self.spec_edges(), self.index_of(a), self.index_of(b)),
        ensures
            islands.len() >= 2,
            forall|c: (usize, usize)| self.walkable(c) <==> #[trigger] in_some_island(islands, c),
    {
        assert(in_some_island(islands, a));
        assert(in_some_island(islands, b));
        let (i1, j1) = choose|i: int, j: int|
            0 <= i < islands.len() && 0 <= j < islands[i].len() && #[trigger] islands[i][j] == a;
        let (i2, j2) = choose|i: int, j: int|
            0 <= i < islands.len() && 0 <= j < islands[i].len() && #[trigger] islands[i][j] == b;
        assert(i1 != i2);
        assert forall|c: (usize, usize)| #[trigger] in_some_island(islands, c) implies self.walkable(c) by {
            let (i, j) = choose|i: int, j: int|
                0 <= i < islands.len() && 0 <= j < islands[i].len() && #[trigger] islands[i][j] == c;
        }
    }

    /// The grid's links run both ways.
    pub open spec fn is_two_way(&self) -> bool {
        forall|a: nat, b: nat| has_edge(self.spec_edges(), a, b) ==> #[trigger] has_edge(self.spec_edges(), b, a)
    }

    /// On a two-way grid, a cell reaches another exactly when the other
    /// reaches it, and the cheapest paths both ways cost the same.
    pub proof fn lemma_find_path_symmetric(
        &self,
        a: (usize, usize),
        b: (usize, usize),
        c1: int,
        p1: Seq<nat>,
        c2: int,
        p2: Seq<nat>,
    )
        requires
            self.wf(),
            self.is_two_way(),
        ensures
            reachable(self.spec_edges(), self.index_of(a), self.index_of(b)) <==> reachable(
                self.spec_edges(),
                self.index_of(b),
                self.index_of(a),
            ),
            ({
                let w = cost_weights(
                    self.spec_edges(),
                    self.spec_costs(),
                    Seq::new(self.spec_edges().len(), |e: int| true),
                );
                is_cheapest_path(self.spec_edges(), w, self.index_of(a), self.index_of(b), c1, p1)
                    && is_cheapest_path(self.spec_edges(), w, self.index_of(b), self.index_of(a), c2, p2)
                    ==> c1 == c2
            }),
    {
        let edges = self.spec_edges();
        let w = cost_weights(edges, self.spec_costs(), Seq::new(edges.len(), |e: int| true));
        self.graph.lemma_edges_in_range();
        assert forall|k: int| 0 <= k < edges.len() implies #[trigger] has_reverse(edges, w, k) by {
            let e = edges[k];
            assert(has_edge(edges, e.0, e.1));
            assert(has_edge(edges, e.1, e.0));
            let k2 = choose|k2: int| 0 <= k2 < edges.len() && #[trigger] edges[k2] == (e.1, e.0);
            let x = self.spec_costs()[e.0 as int];
            let y = self.spec_costs()[e.1 as int];
            assert(x * y == y * x) by (nonlinear_arith);
            assert(w[k2] == w[k]);
        }
        crate::graph::lemma_symmetric_paths(edges, w, self.index_of(a), self.index_of(b), c1, p1, c2, p2);
    }
}

} // verus!
