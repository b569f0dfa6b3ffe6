//! Coordinates, directions and the structural adjacency of a rectangular grid.

use vstd::prelude::*;

verus! {

/// The coordinates of a cell: the universal cell identifier.
#[derive(Debug, PartialEq, Eq, Clone, Copy, Hash, Structural)]
pub struct Location {
    pub row: usize,
    pub column: usize,
}

impl Default for Location {
    fn default() -> (origin: Location)
        ensures
            origin == (Location { row: 0, column: 0 }),
    {
        Location { row: 0, column: 0 }
    }
}

/// One of the four sides of a cell.
#[derive(Debug, PartialEq, Eq, Clone, Copy, Structural)]
pub enum Direction {
    North,
    East,
    South,
    West,
}

/// A passage leading from `source` to `target`.
#[derive(Debug, PartialEq, Eq, Clone, Copy, Structural)]
pub struct Link {
    pub source: Location,
    pub target: Location,
}

/// Whether two locations lie side by side: one step apart along one axis.
pub open spec fn adjacent(a: Location, b: Location) -> bool {
    ||| a.column == b.column && (a.row + 1 == b.row || b.row + 1 == a.row)
    ||| a.row == b.row && (a.column + 1 == b.column || b.column + 1 == a.column)
}

/// The number of steps, each along one axis, that lead from `a` to `b`.
pub open spec fn steps_between(a: Location, b: Location) -> nat {
    let rows = if a.row < b.row {
        b.row - a.row
    } else {
        a.row - b.row
    };
    let columns = if a.column < b.column {
        b.column - a.column
    } else {
        a.column - b.column
    };
    (rows + columns) as nat
}

/// The location one step from `at` in `direction`, if that step stays inside a
/// grid of `rows` by `columns` cells.
pub open spec fn neighbour_of(
    rows: usize,
    columns: usize,
    at: Location,
    direction: Direction,
) -> Option<Location> {
    match direction {
        Direction::North => if 1 <= at.row <= rows {
            Some(Location { row: (at.row - 1) as usize, column: at.column })
        } else {
            None
        },
        Direction::East => if at.column + 1 < columns {
            Some(Location { row: at.row, column: (at.column + 1) as usize })
        } else {
            None
        },
        Direction::South => if at.row + 1 < rows {
            Some(Location { row: (at.row + 1) as usize, column: at.column })
        } else {
            None
        },
        Direction::West => if 1 <= at.column <= columns {
            Some(Location { row: at.row, column: (at.column - 1) as usize })
        } else {
            None
        },
    }
}

/// A neighbour of a location inside the grid is adjacent to it and lies inside
/// the grid too.
pub proof fn lemma_neighbour_adjacent(
    rows: usize,
    columns: usize,
    at: Location,
    direction: Direction,
)
    requires
        at.row < rows,
        at.column < columns,
    ensures
        neighbour_of(rows, columns, at, direction) matches Some(n) ==> adjacent(at, n) && n.row
            < rows && n.column < columns,
{
}

/// Every location adjacent to `at` inside the grid is its neighbour in one of
/// the four directions.
pub proof fn lemma_adjacent_is_neighbour(
    rows: usize,
    columns: usize,
    at: Location,
    other: Location,
)
    requires
        adjacent(at, other),
        at.row < rows,
        at.column < columns,
        other.row < rows,
        other.column < columns,
    ensures
        neighbour_of(rows, columns, at, Direction::North) == Some(other) || neighbour_of(
            rows,
            columns,
            at,
            Direction::East,
        ) == Some(other) || neighbour_of(rows, columns, at, Direction::South) == Some(other)
            || neighbour_of(rows, columns, at, Direction::West) == Some(other),
{
}

} // verus!
