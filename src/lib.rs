//! Pathfinding over navigable grids and portal graphs, on a verified
//! weighted-graph core.
use vstd::prelude::*;
use vstd::std_specs::cmp::PartialEqSpec;

pub mod graph;
pub mod grid;
pub mod free_grid;
pub mod islands;
pub mod mesh;
pub mod net;

pub use crate::free_grid::{NavFreeGrid, NavFreeGridConnection, NavFreeGridID};
pub use crate::graph::NavGraph;
pub use crate::grid::{NavGrid, NavGridConnection, NavGridID};
pub use crate::islands::{NavIslandPortal, NavIslands, NavIslandsConnection, NavIslandsID};
use typid::ID;

verus! {

#[verifier::external_type_specification]
#[verifier::external_body]
#[verifier::reject_recursive_types(T)]
pub struct ExID<T>(ID<T>);

/// Relies on typid's `ID::new`: a fresh random identifier, of which nothing
/// is claimed.
#[verifier::external_body]
pub(crate) fn new_id<T>() -> ID<T> {
    ID::new()
}

/// Errors reported while building a navigable representation.
#[derive(Debug, Clone, PartialEq, Eq)]
pub enum Error {
    /// A triangle names a vertex index outside the vertex list.
    /// (triangle index, local vertex index, global vertex index)
    TriangleVerticeIndexOutOfBounds(u32, u8, u32),
    /// A connection names a vertex index outside the vertex list.
    /// (connection index, local vertex index, global vertex index)
    ConnectionVerticeIndexOutOfBounds(u32, u8, u32),
    /// Encoding failed; holds the encoder's message.
    CouldNotSerializeNavMesh(String),
    /// Decoding failed; holds the decoder's message.
    CouldNotDeserializeNavMesh(String),
    /// The cell list does not hold cols * rows cells.
    /// (cells count, cols count, rows count)
    CellsCountDoesNotMatchColsRows(usize, usize, usize),
    /// Either cols or rows count is zero.
    /// (cols count, rows count)
    EmptyCells(usize, usize),
    /// A cell coordinate lies outside the grid.
    /// (col, row, cols count, rows count)
    InvalidCellCoordinate(usize, usize, usize, usize),
}

/// Result of the fallible constructors.
pub type NavResult<T> = Result<T, Error>;

/// An undirected connection between two vertex indices: `(a, b)` and `(b, a)`
/// are the same connection.
#[derive(Debug, Default, Copy, Clone, Eq)]
pub struct NavConnection(pub u32, pub u32);

/// The endpoints of a connection, smaller first.
pub open spec fn connection_key(c: NavConnection) -> (u32, u32) {
    if c.0 <= c.1 {
        (c.0, c.1)
    } else {
        (c.1, c.0)
    }
}

impl NavConnection {
    /// The endpoints, smaller first; equal connections have equal keys.
    pub fn key(&self) -> (r: (u32, u32))
        ensures
            r == connection_key(*self),
    {
        if self.0 <= self.1 {
            (self.0, self.1)
        } else {
            (self.1, self.0)
        }
    }
}

impl PartialEq for NavConnection {
    fn eq(&self, other: &NavConnection) -> (r: bool)
        ensures
            r == (connection_key(*self) == connection_key(*other)),
    {
        let a = self.key();
        let b = other.key();
        a.0 == b.0 && a.1 == b.1
    }
}

impl vstd::std_specs::cmp::PartialEqSpecImpl for NavConnection {
    open spec fn obeys_eq_spec() -> bool {
        true
    }

    open spec fn eq_spec(&self, other: &NavConnection) -> bool {
        connection_key(*self) == connection_key(*other)
    }
}

impl core::hash::Hash for NavConnection {
    fn hash<H: core::hash::Hasher>(&self, state: &mut H) {
        let k = self.key();
        k.0.hash(state);
        k.1.hash(state);
    }
}

/// Relies on std's `Hash` for `u32`, which feeds the integer to the hasher;
/// nothing is claimed of the state it leaves.
pub assume_specification<H: core::hash::Hasher>[ <u32 as core::hash::Hash>::hash::<H> ](
    v: &u32,
    state: &mut H,
);

/// A connection equals its reverse, and both hash through the same key.
pub proof fn lemma_connection_symmetric(a: u32, b: u32)
    ensures
        connection_key(NavConnection(a, b)) == connection_key(NavConnection(b, a)),
        NavConnection(a, b).eq_spec(&NavConnection(b, a)),
{
}

} // verus!
