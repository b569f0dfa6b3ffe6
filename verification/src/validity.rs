//! Telling at run time whether a grid is valid. The fields of a grid are open
//! to anyone, so a caller from outside that cannot show a grid to be valid can
//! ask.

use vstd::prelude::*;
use crate::cell::MazeCell;
use crate::grid::{configure_cell, GridView, SmartGrid};
use crate::location::{adjacent, Direction, Location};

verus! {

/// Whether the cell at `place` is as a valid grid has it: it knows its
/// location, its neighbours are those that the bounds of the grid give it,
/// every link leads to a cell beside it inside the grid, and no link is listed
/// twice.
pub open spec fn cell_valid(g: GridView, place: Location) -> bool {
    let cell = g.cell(place);
    &&& cell.location == place
    &&& cell == configure_cell(cell, g.rows, g.columns)
    &&& forall|i: int|
        0 <= i < cell.links.len() ==> adjacent(place, #[trigger] cell.links[i]) && g.in_bounds(
            cell.links[i],
        )
    &&& cell.links.no_duplicates()
}

/// A grid of the right size is valid exactly if every cell of it is.
pub proof fn lemma_valid_by_cells(g: GridView)
    requires
        g.has_dimensions(),
        g.rows >= 1,
        g.columns >= 1,
        g.rows * g.columns <= usize::MAX,
    ensures
        g.wf() <==> forall|place: Location| g.in_bounds(place) ==> cell_valid(g, place),
{
    if g.wf() {
        assert forall|place: Location| g.in_bounds(place) implies cell_valid(g, place) by {
            let cell = g.cell(place);
            assert(cell.location == place);
            assert(cell.links.no_duplicates());
            assert forall|i: int| 0 <= i < cell.links.len() implies adjacent(
                place,
                #[trigger] cell.links[i],
            ) && g.in_bounds(cell.links[i]) by {
                assert(g.linked(place, cell.links[i]));
            }
        }
    }
    if forall|place: Location| g.in_bounds(place) ==> cell_valid(g, place) {
        assert forall|place: Location| g.in_bounds(place) implies (#[trigger] g.cell(place)).location
            == place && g.cell(place) == configure_cell(g.cell(place), g.rows, g.columns) && g.cell(
            place,
        ).links.no_duplicates() by {
            assert(cell_valid(g, place));
        }
        assert forall|a: Location, b: Location| #[trigger] g.linked(a, b) implies adjacent(a, b)
            && g.in_bounds(b) by {
            assert(cell_valid(g, a));
            let links = g.cell(a).links;
            let i = choose|i: int| 0 <= i < links.len() && links[i] == b;
            assert(adjacent(a, links[i]));
        }
    }
}

/// Whether `a` and `b` lie side by side.
fn is_beside(a: Location, b: Location) -> (beside: bool)
    ensures
        beside == adjacent(a, b),
{
    if a.column == b.column {
        (b.row > 0 && b.row - 1 == a.row) || (a.row > 0 && a.row - 1 == b.row)
    } else if a.row == b.row {
        (b.column > 0 && b.column - 1 == a.column) || (a.column > 0 && a.column - 1 == b.column)
    } else {
        false
    }
}

/// Whether two sides of a cell hold the same.
fn same_side(a: Option<Location>, b: Option<Location>) -> (same: bool)
    ensures
        same == (a == b),
{
    match (a, b) {
        (None, None) => true,
        (Some(x), Some(y)) => x == y,
        _ => false,
    }
}

/// Whether no link of the cell is listed twice.
fn links_are_distinct(cell: &MazeCell) -> (distinct: bool)
    ensures
        distinct == cell@.links.no_duplicates(),
{
    let mut i: usize = 0;
    while i < cell.links.len()
        invariant
            i <= cell.links@.len(),
            forall|a: int, b: int| 0 <= a < b < i ==> cell.links@[a] != cell.links@[b],
        decreases cell.links@.len() - i,
    {
        let mut j: usize = 0;
        while j < i
            invariant
                j <= i < cell.links@.len(),
                forall|a: int| 0 <= a < j ==> cell.links@[a] != cell.links@[i as int],
            decreases i - j,
        {
            if cell.links[j] == cell.links[i] {
                return false;
            }
            j += 1;
        }
        i += 1;
    }
    true
}

/// Whether every link of the cell leads to a cell beside `place` inside a grid
/// of `rows` by `columns` cells.
fn links_lead_beside(cell: &MazeCell, place: Location, rows: usize, columns: usize) -> (beside: bool)
    ensures
        beside == forall|i: int|
            0 <= i < cell@.links.len() ==> adjacent(place, #[trigger] cell@.links[i])
                && cell@.links[i].row < rows && cell@.links[i].column < columns,
{
    let mut i: usize = 0;
    while i < cell.links.len()
        invariant
            i <= cell.links@.len(),
            forall|k: int|
                0 <= k < i ==> adjacent(place, #[trigger] cell@.links[k]) && cell@.links[k].row
                    < rows && cell@.links[k].column < columns,
        decreases cell.links@.len() - i,
    {
        let link = cell.links[i];
        if !(is_beside(place, link) && link.row < rows && link.column < columns) {
            assert(cell@.links[i as int] == link);
            return false;
        }
        i += 1;
    }
    true
}

/// Whether the cell at `row`, `column` is as a valid grid has it.
fn cell_is_valid(grid: &SmartGrid, row: usize, column: usize) -> (valid: bool)
    requires
        grid@.has_dimensions(),
        row < grid.rows,
        column < grid.columns,
    ensures
        valid == cell_valid(grid@, Location { row, column }),
{
    let place = Location { row, column };
    assert(grid@.cells[row as int].len() == grid@.columns);
    let cell = &grid.cells[row][column];
    assert(cell@ == grid@.cell(place));
    let rows = grid.rows;
    let columns = grid.columns;
    cell.location == place && same_side(
        cell.north,
        SmartGrid::set_neighbour(rows, columns, &cell.location, Direction::North),
    ) && same_side(cell.east, SmartGrid::set_neighbour(rows, columns, &cell.location, Direction::East))
        && same_side(
        cell.south,
        SmartGrid::set_neighbour(rows, columns, &cell.location, Direction::South),
    ) && same_side(cell.west, SmartGrid::set_neighbour(rows, columns, &cell.location, Direction::West))
        && links_lead_beside(cell, place, rows, columns) && links_are_distinct(cell)
}

impl SmartGrid {
    /// Whether the matrix of cells has `rows` rows of `columns` cells each.
    pub fn has_its_cells(&self) -> (whole: bool)
        ensures
            whole == self@.has_dimensions(),
    {
        if self.cells.len() != self.rows {
            return false;
        }
        let mut r: usize = 0;
        while r < self.rows
            invariant
                r <= self.rows,
                self.cells@.len() == self.rows,
                forall|i: int| 0 <= i < r ==> (#[trigger] self@.cells[i]).len() == self.columns,
            decreases self.rows - r,
        {
            if self.cells[r].len() != self.columns {
                assert(self@.cells[r as int].len() != self.columns);
                return false;
            }
            r += 1;
        }
        true
    }

    /// Whether the grid is valid: whether it has its cells, at least one and no
    /// more than can be counted, and every cell holds its location, its
    /// neighbours, and links to cells beside it only, each once.
    pub fn is_valid(&self) -> (valid: bool)
        ensures
            valid == self@.wf(),
    {
        if self.rows == 0 || self.columns == 0 {
            return false;
        }
        if self.rows.checked_mul(self.columns).is_none() {
            return false;
        }
        if !self.has_its_cells() {
            return false;
        }
        let mut r: usize = 0;
        while r < self.rows
            invariant
                r <= self.rows,
                self.columns >= 1,
                self.rows * self.columns <= usize::MAX,
                self@.has_dimensions(),
                forall|place: Location|
                    self@.in_bounds(place) && place.row < r ==> cell_valid(self@, place),
            decreases self.rows - r,
        {
            let mut c: usize = 0;
            while c < self.columns
                invariant
                    r < self.rows,
                    c <= self.columns,
                    self.columns >= 1,
                    self.rows * self.columns <= usize::MAX,
                    self@.has_dimensions(),
                    forall|place: Location|
                        self@.in_bounds(place) && (place.row < r || (place.row == r && place.column
                            < c)) ==> cell_valid(self@, place),
                decreases self.columns - c,
            {
                if !cell_is_valid(self, r, c) {
                    proof {
                        lemma_valid_by_cells(self@);
                        assert(self@.in_bounds(Location { row: r, column: c }));
                    }
                    return false;
                }
                c += 1;
            }
            r += 1;
        }
        proof {
            lemma_valid_by_cells(self@);
        }
        true
    }

    /// Whether no cell of the grid has a passage.
    pub fn has_no_passages(&self) -> (bare: bool)
        requires
            self@.has_dimensions(),
        ensures
            bare == self@.unlinked(),
    {
        let mut r: usize = 0;
        while r < self.rows
            invariant
                r <= self.rows,
                self@.has_dimensions(),
                forall|place: Location|
                    self@.in_bounds(place) && place.row < r ==> (#[trigger] self@.cell(
                        place,
                    )).links.len() == 0,
            decreases self.rows - r,
        {
            let mut c: usize = 0;
            while c < self.columns
                invariant
                    r < self.rows,
                    c <= self.columns,
                    self@.has_dimensions(),
                    forall|place: Location|
                        self@.in_bounds(place) && (place.row < r || (place.row == r && place.column
                            < c)) ==> (#[trigger] self@.cell(place)).links.len() == 0,
                decreases self.columns - c,
            {
                let ghost place = Location { row: r, column: c };
                assert(self@.cells[r as int].len() == self@.columns);
                if self.cells[r][c].is_linked() {
                    assert(self@.cell(place).links.len() > 0);
                    return false;
                }
                c += 1;
            }
            r += 1;
        }
        true
    }
}

} // verus!
