//! A generic state-space search engine: a domain supplies states and their successors, a
//! frontier strategy decides the order of expansion, and a solver finds paths from a start
//! state to a goal state.

use vstd::prelude::*;

pub mod boxes;
pub mod distances;
pub mod hanoi;
pub mod machine;
pub mod sharedlist;
pub mod tileboard;
pub mod traits;

verus! {

/// A position: a column and a row.
#[derive(PartialEq, Eq, Clone, Copy, Debug, Structural)]
pub struct Coord {
    pub column: usize,
    pub row: usize,
}

impl Coord {
    pub open spec fn spec_column(&self) -> usize {
        self.column
    }

    pub open spec fn spec_row(&self) -> usize {
        self.row
    }

    pub open spec fn spec_new(column: usize, row: usize) -> Self {
        Coord { column, row }
    }

    pub fn new(column: usize, row: usize) -> (r: Self)
        ensures
            r == Self::spec_new(column, row),
            r.spec_column() == column,
            r.spec_row() == row,
    {
        Self { column, row }
    }

    pub fn column(&self) -> (r: usize)
        ensures
            r == self.spec_column(),
    {
        self.column
    }

    pub fn row(&self) -> (r: usize)
        ensures
            r == self.spec_row(),
    {
        self.row
    }
}

} // verus!
