//! The two-valued state of one grid position.

use vstd::prelude::*;

verus! {

/// One cell of the grid: dead or alive. A cell has no identity beyond its
/// grid position.
#[derive(Clone, Copy, Debug, PartialEq, Eq, Structural)]
pub enum Cell {
    Dead,
    Alive,
}

/// The opposite state of a cell.
pub open spec fn flipped(c: Cell) -> Cell {
    match c {
        Cell::Alive => Cell::Dead,
        Cell::Dead => Cell::Alive,
    }
}

/// Contribution of a cell to a neighbor count: an alive cell counts as one.
pub open spec fn occupancy(c: Cell) -> int {
    match c {
        Cell::Alive => 1,
        Cell::Dead => 0,
    }
}

impl Cell {
    /// Flips the cell between dead and alive.
    pub fn toggle(&mut self)
        ensures
            *final(self) == flipped(*old(self)),
    {
        *self = match *self {
            Cell::Alive => Cell::Dead,
            Cell::Dead => Cell::Alive,
        };
    }

    /// The cell's contribution to a neighbor count, as a machine integer.
    pub fn as_u8(self) -> (n: u8)
        ensures
            n as int == occupancy(self),
    {
        match self {
            Cell::Alive => 1,
            Cell::Dead => 0,
        }
    }
}

} // verus!
