//! The terminal grid: its dimensions and the cells it holds.

use vstd::prelude::*;

verus! {

/// The size of a terminal as reported once at start-up.
///
/// The screen proper has the columns `0..columns` and the rows `0..rows`. The
/// grid is the screen with one more column and one more row past the far
/// edges, `0..=columns` by `0..=rows`: a wipe and a dissolve go over both
/// edges, the spiral keeps to the screen.
#[derive(Clone, Copy, Debug, PartialEq, Eq, Structural)]
pub struct TerminalDimensions {
    pub columns: u16,
    pub rows: u16,
}

/// One cell of the terminal, column first.
#[derive(Clone, Copy, Debug, PartialEq, Eq, Structural)]
pub struct Coordinate {
    pub column: u16,
    pub row: u16,
}

impl TerminalDimensions {
    /// Whether the cell at (`column`, `row`) belongs to the grid.
    pub open spec fn contains(self, column: int, row: int) -> bool {
        0 <= column <= self.columns && 0 <= row <= self.rows
    }

    /// Whether `cell` belongs to the grid.
    pub open spec fn holds(self, cell: Coordinate) -> bool {
        self.contains(cell.column as int, cell.row as int)
    }

    /// Every cell of the grid.
    pub open spec fn cells(self) -> Set<Coordinate> {
        Set::new(|cell: Coordinate| self.holds(cell))
    }

    /// Whether `cell` is a cell of the screen proper.
    pub open spec fn shows(self, cell: Coordinate) -> bool {
        cell.column < self.columns && cell.row < self.rows
    }

    /// Every cell of the screen proper.
    pub open spec fn screen(self) -> Set<Coordinate> {
        Set::new(|cell: Coordinate| self.shows(cell))
    }

    /// The number of cells in the grid.
    pub open spec fn cell_count(self) -> nat {
        ((self.columns + 1) * (self.rows + 1)) as nat
    }

    pub fn new(columns: u16, rows: u16) -> (dims: Self)
        ensures
            dims.columns == columns,
            dims.rows == rows,
    {
        TerminalDimensions { columns, rows }
    }

    /// Tells whether `cell` lies inside the grid.
    pub fn includes(&self, cell: Coordinate) -> (inside: bool)
        ensures
            inside == self.holds(cell),
    {
        cell.column <= self.columns && cell.row <= self.rows
    }
}

/// How often `path` comes by `cell`.
pub open spec fn visits(path: Seq<Coordinate>, cell: Coordinate) -> nat {
    path.to_multiset().count(cell)
}

} // verus!
