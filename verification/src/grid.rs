//! The grid: a matrix of cells addressed by location, with the structural
//! adjacency computed from the grid's bounds and the link relation that the
//! generators build.

use vstd::prelude::*;
use crate::cell::{CellView, MazeCell};
use crate::location::{
    adjacent, lemma_adjacent_is_neighbour, lemma_neighbour_adjacent, neighbour_of, Direction,
    Location,
};

verus! {

/// What a caller can get wrong.
#[derive(Debug, PartialEq, Eq, Clone, Copy, Structural)]
pub enum MazeError {
    /// A grid was asked for with no rows or no columns.
    InvalidDimensions,
    /// The name given for a generator is not one of the four known names.
    UnknownAlgorithm,
    /// The solver was given an origin outside the grid.
    InvalidOrigin,
}

/// A `rows` by `columns` matrix of cells, each addressed by its [`Location`].
#[derive(Debug)]
pub struct SmartGrid {
    pub rows: usize,
    pub columns: usize,
    pub cells: Vec<Vec<MazeCell>>,
    pub max_distance: usize,
}

/// The mathematical value of a [`SmartGrid`].
pub struct GridView {
    pub rows: usize,
    pub columns: usize,
    pub cells: Seq<Seq<CellView>>,
    pub max_distance: usize,
}

/// The values of the cells of one row.
pub open spec fn row_view(row: Vec<MazeCell>) -> Seq<CellView> {
    Seq::new(row@.len(), |c: int| row@[c]@)
}

/// The values of the cells of a matrix.
pub open spec fn matrix_view(cells: Vec<Vec<MazeCell>>) -> Seq<Seq<CellView>> {
    Seq::new(cells@.len(), |r: int| row_view(cells@[r]))
}

/// The location with the given coordinates.
pub open spec fn at(row: int, column: int) -> Location {
    Location { row: row as usize, column: column as usize }
}

/// The cell with the structural neighbours that its location has in a grid of
/// the given size; everything else is kept.
pub open spec fn configure_cell(cell: CellView, rows: usize, columns: usize) -> CellView {
    CellView {
        north: neighbour_of(rows, columns, cell.location, Direction::North),
        east: neighbour_of(rows, columns, cell.location, Direction::East),
        south: neighbour_of(rows, columns, cell.location, Direction::South),
        west: neighbour_of(rows, columns, cell.location, Direction::West),
        ..cell
    }
}

impl GridView {
    /// Whether `place` names a cell of this grid.
    pub open spec fn in_bounds(self, place: Location) -> bool {
        place.row < self.rows && place.column < self.columns
    }

    /// The cell at `place`.
    pub open spec fn cell(self, place: Location) -> CellView {
        self.cells[place.row as int][place.column as int]
    }

    /// The matrix has `rows` rows of `columns` cells each.
    pub open spec fn has_dimensions(self) -> bool {
        &&& self.cells.len() == self.rows
        &&& forall|r: int| 0 <= r < self.rows ==> (#[trigger] self.cells[r]).len() == self.columns
    }

    /// The grid is not empty, its cells can be counted in a `usize`, and every
    /// cell knows its own location.
    pub open spec fn shaped(self) -> bool {
        &&& self.has_dimensions()
        &&& self.rows >= 1
        &&& self.columns >= 1
        &&& self.rows * self.columns <= usize::MAX
        &&& forall|place: Location|
            self.in_bounds(place) ==> (#[trigger] self.cell(place)).location == place
    }

    /// Every cell holds the structural neighbours that the grid's bounds give
    /// it: a side is `None` exactly on that boundary of the grid.
    pub open spec fn configured(self) -> bool {
        forall|place: Location|
            self.in_bounds(place) ==> #[trigger] self.cell(place) == configure_cell(
                self.cell(place),
                self.rows,
                self.columns,
            )
    }

    /// Whether a passage leads from `a` to `b`.
    pub open spec fn linked(self, a: Location, b: Location) -> bool {
        self.in_bounds(a) && self.cell(a).links.contains(b)
    }

    /// Every passage leads to a structural neighbour inside the grid.
    pub open spec fn links_adjacent(self) -> bool {
        forall|a: Location, b: Location| #[trigger]
            self.linked(a, b) ==> adjacent(a, b) && self.in_bounds(b)
    }

    /// Every passage can be walked both ways.
    pub open spec fn symmetric(self) -> bool {
        forall|a: Location, b: Location| #[trigger] self.linked(a, b) ==> self.linked(b, a)
    }

    /// No cell lists the same passage twice.
    pub open spec fn links_distinct(self) -> bool {
        forall|place: Location|
            self.in_bounds(place) ==> (#[trigger] self.cell(place)).links.no_duplicates()
    }

    /// No cell has any passage.
    pub open spec fn unlinked(self) -> bool {
        forall|place: Location|
            self.in_bounds(place) ==> (#[trigger] self.cell(place)).links.len() == 0
    }

    /// The validity of a grid: its shape, its adjacency, passages between
    /// neighbours only, and every passage listed once.
    pub open spec fn wf(self) -> bool {
        &&& self.shaped()
        &&& self.configured()
        &&& self.links_adjacent()
        &&& self.links_distinct()
    }

    /// The grid of the given size as it is constructed: every cell with its
    /// location and neighbours, no passages, all distances zero.
    pub open spec fn blank(rows: usize, columns: usize) -> GridView {
        GridView {
            rows,
            columns,
            cells: Seq::new(
                rows as nat,
                |r: int|
                    Seq::new(
                        columns as nat,
                        |c: int| configure_cell(CellView::empty(at(r, c)), rows, columns),
                    ),
            ),
            max_distance: 0,
        }
    }

    /// Whether `other` differs from this grid in the links of its cells at most.
    pub open spec fn same_but_links(self, other: GridView) -> bool {
        &&& other.rows == self.rows
        &&& other.columns == self.columns
        &&& other.max_distance == self.max_distance
        &&& forall|place: Location|
            self.in_bounds(place) ==> (#[trigger] other.cell(place)) == (CellView {
                links: other.cell(place).links,
                ..self.cell(place)
            })
    }

    /// The grid with the cell at `place` replaced.
    pub open spec fn with_cell(self, place: Location, cell: CellView) -> GridView {
        GridView {
            cells: self.cells.update(
                place.row as int,
                self.cells[place.row as int].update(place.column as int, cell),
            ),
            ..self
        }
    }

    /// The grid with a one-way passage from `source` to `target`: the grid as
    /// it is if that passage is there already.
    pub open spec fn with_link(self, source: Location, target: Location) -> GridView {
        self.with_cell(source, self.cell(source).with_link(target))
    }

    /// The grid with a passage between `source` and `target`, open both ways:
    /// each of the two links is added only where it is not there already.
    pub open spec fn with_passage(self, source: Location, target: Location) -> GridView {
        self.with_link(source, target).with_link(target, source)
    }

    /// The grid with the neighbours of every cell computed from its location.
    pub open spec fn configure(self) -> GridView {
        GridView {
            cells: Seq::new(
                self.cells.len(),
                |r: int|
                    Seq::new(
                        self.cells[r].len(),
                        |c: int| configure_cell(self.cells[r][c], self.rows, self.columns),
                    ),
            ),
            ..self
        }
    }
}

impl View for SmartGrid {
    type V = GridView;

    open spec fn view(&self) -> GridView {
        GridView {
            rows: self.rows,
            columns: self.columns,
            cells: matrix_view(self.cells),
            max_distance: self.max_distance,
        }
    }
}

/// A blank grid is valid and has no passages.
pub proof fn lemma_blank_wf(rows: usize, columns: usize)
    requires
        rows >= 1,
        columns >= 1,
        rows * columns <= usize::MAX,
    ensures
        GridView::blank(rows, columns).wf(),
        GridView::blank(rows, columns).unlinked(),
        GridView::blank(rows, columns).symmetric(),
{
}

/// The neighbours of a cell of a valid grid lie inside the grid, next to the
/// cell, and every cell next to it is among them.
pub proof fn lemma_neighbours(g: GridView, place: Location)
    requires
        g.wf(),
        g.in_bounds(place),
    ensures
        forall|i: int|
            0 <= i < g.cell(place).neighbours().len() ==> g.in_bounds(
                #[trigger] g.cell(place).neighbours()[i],
            ) && adjacent(place, g.cell(place).neighbours()[i]),
        forall|other: Location|
            g.in_bounds(other) && adjacent(place, other) ==> #[trigger] g.cell(
                place,
            ).neighbours().contains(other),
{
    let cell = g.cell(place);
    lemma_neighbour_adjacent(g.rows, g.columns, place, Direction::North);
    lemma_neighbour_adjacent(g.rows, g.columns, place, Direction::East);
    lemma_neighbour_adjacent(g.rows, g.columns, place, Direction::South);
    lemma_neighbour_adjacent(g.rows, g.columns, place, Direction::West);
    let all = cell.neighbours();
    assert forall|other: Location| g.in_bounds(other) && adjacent(place, other) implies all.contains(
        other,
    ) by {
        lemma_adjacent_is_neighbour(g.rows, g.columns, place, other);
        let n = crate::cell::present(cell.north);
        let e = crate::cell::present(cell.east);
        let s = crate::cell::present(cell.south);
        if cell.north == Some(other) {
            assert(all[0] == other);
        } else if cell.east == Some(other) {
            assert(all[n.len() as int] == other);
        } else if cell.south == Some(other) {
            assert(all[(n.len() + e.len()) as int] == other);
        } else {
            assert(all[(n.len() + e.len() + s.len()) as int] == other);
        }
    }
}

impl Clone for SmartGrid {
    fn clone(&self) -> (copy: SmartGrid)
        ensures
            copy@ == self@,
    {
        let mut cells: Vec<Vec<MazeCell>> = Vec::new();
        let mut r: usize = 0;
        while r < self.cells.len()
            invariant
                r <= self.cells.len(),
                cells@.len() == r,
                forall|i: int| 0 <= i < r ==> row_view(#[trigger] cells@[i]) == row_view(self.cells@[i]),
            decreases self.cells.len() - r,
        {
            let mut row: Vec<MazeCell> = Vec::new();
            let mut c: usize = 0;
            while c < self.cells[r].len()
                invariant
                    r < self.cells.len(),
                    c <= self.cells@[r as int]@.len(),
                    row@.len() == c,
                    forall|j: int| 0 <= j < c ==> (#[trigger] row@[j])@ == self.cells@[r as int]@[j]@,
                decreases self.cells@[r as int]@.len() - c,
            {
                row.push(self.cells[r][c].clone());
                c += 1;
            }
            cells.push(row);
            r += 1;
        }
        assert(matrix_view(cells) =~= matrix_view(self.cells));
        SmartGrid { rows: self.rows, columns: self.columns, cells, max_distance: self.max_distance }
    }
}

impl SmartGrid {
    /// A grid of `rows` by `columns` cells with their neighbours computed and no
    /// passages; `InvalidDimensions` if either is zero.
    pub fn new(rows: usize, columns: usize) -> (made: Result<SmartGrid, MazeError>)
        requires
            rows * columns <= usize::MAX,
        ensures
            (rows == 0 || columns == 0) <==> made == Err::<SmartGrid, MazeError>(
                MazeError::InvalidDimensions,
            ),
            rows >= 1 && columns >= 1 ==> made is Ok,
            made matches Ok(grid) ==> grid@ == GridView::blank(rows, columns) && grid@.wf(),
    {
        if rows == 0 || columns == 0 {
            return Err(MazeError::InvalidDimensions);
        }
        let mut grid = SmartGrid { rows, columns, cells: Vec::new(), max_distance: 0 };
        let cells = grid.prepare_grid();
        grid.cells = cells;
        grid.configure_cells();
        proof {
            assert(grid@.cells =~~= GridView::blank(rows, columns).cells);
            lemma_blank_wf(rows, columns);
        }
        Ok(grid)
    }

    /// A fresh matrix of `rows` by `columns` empty cells, each holding its own
    /// location. The grid itself is left as it is.
    pub fn prepare_grid(&mut self) -> (cells: Vec<Vec<MazeCell>>)
        ensures
            *final(self) == *old(self),
            matrix_view(cells) == Seq::new(
                old(self).rows as nat,
                |r: int| Seq::new(old(self).columns as nat, |c: int| CellView::empty(at(r, c))),
            ),
    {
        let mut cells: Vec<Vec<MazeCell>> = Vec::new();
        let mut r: usize = 0;
        while r < self.rows
            invariant
                r <= self.rows,
                cells@.len() == r,
                forall|i: int|
                    0 <= i < r ==> row_view(#[trigger] cells@[i]) == Seq::new(
                        self.columns as nat,
                        |c: int| CellView::empty(at(i, c)),
                    ),
            decreases self.rows - r,
        {
            let mut row: Vec<MazeCell> = Vec::new();
            let mut c: usize = 0;
            while c < self.columns
                invariant
                    c <= self.columns,
                    row@.len() == c,
                    forall|j: int| 0 <= j < c ==> (#[trigger] row@[j])@ == CellView::empty(at(r as int, j)),
                decreases self.columns - c,
            {
                row.push(MazeCell::empty(r, c));
                c += 1;
            }
            cells.push(row);
            r += 1;
        }
        cells
    }

    /// The structural neighbour of `current_location` on the given side in a
    /// grid of `rows` by `columns` cells: `None` at that boundary.
    pub fn set_neighbour(
        rows: usize,
        columns: usize,
        current_location: &Location,
        direction: Direction,
    ) -> (neighbour: Option<Location>)
        ensures
            neighbour == neighbour_of(rows, columns, *current_location, direction),
    {
        match direction {
            Direction::North => {
                if 1 <= current_location.row && current_location.row <= rows {
                    Some(
                        Location { row: current_location.row - 1, column: current_location.column },
                    )
                } else {
                    None
                }
            },
            Direction::East => {
                if current_location.column < columns && current_location.column + 1 < columns {
                    Some(
                        Location { row: current_location.row, column: current_location.column + 1 },
                    )
                } else {
                    None
                }
            },
            Direction::South => {
                if current_location.row < rows && current_location.row + 1 < rows {
                    Some(
                        Location { row: current_location.row + 1, column: current_location.column },
                    )
                } else {
                    None
                }
            },
            Direction::West => {
                if 1 <= current_location.column && current_location.column <= columns {
                    Some(
                        Location { row: current_location.row, column: current_location.column - 1 },
                    )
                } else {
                    None
                }
            },
        }
    }

    /// Records a passage from `source` to `target` and, if `is_bidirectional`,
    /// the passage back as well. The links of a cell are a set: a link that is
    /// there already is not added again, so that linking twice is linking once.
    /// No other cell changes. A valid grid stays valid, no passage comes to be
    /// listed twice, and a grid whose passages are open both ways stays so if
    /// the new passage is.
    pub fn link_cells(&mut self, source: Location, target: Location, is_bidirectional: bool)
        requires
            old(self)@.has_dimensions(),
            old(self)@.in_bounds(source),
            old(self)@.in_bounds(target),
            adjacent(source, target),
        ensures
            is_bidirectional ==> final(self)@ == old(self)@.with_passage(source, target),
            !is_bidirectional ==> final(self)@ == old(self)@.with_link(source, target),
            old(self)@.links_distinct() ==> final(self)@.links_distinct(),
            old(self)@.wf() ==> final(self)@.wf(),
            is_bidirectional && old(self)@.wf() && old(self)@.symmetric()
                ==> final(self)@.symmetric(),
    {
        proof {
            crate::graph::lemma_with_link_distinct(self@, source, target);
            crate::graph::lemma_with_link_distinct(self@.with_link(source, target), target, source);
            if self@.wf() {
                crate::graph::lemma_with_link(self@, source, target);
                crate::graph::lemma_with_passage(self@, source, target);
            }
        }
        assert(self@.cells[source.row as int].len() == self.columns);
        assert(self@.cells[target.row as int].len() == self.columns);
        self.cells[source.row][source.column].add_link(target);
        assert(self@.cells =~~= old(self)@.with_link(source, target).cells);
        if is_bidirectional {
            let ghost middle = self@;
            self.cells[target.row][target.column].add_link(source);
            assert(self@.cells =~~= middle.with_link(target, source).cells);
        }
    }

    /// Writes `distance` into the cell at `place`. Nothing else changes.
    pub fn set_distance(&mut self, place: Location, distance: usize)
        requires
            old(self)@.has_dimensions(),
            old(self)@.in_bounds(place),
        ensures
            final(self)@ == old(self)@.with_cell(
                place,
                old(self)@.cell(place).with_distance(distance),
            ),
    {
        self.cells[place.row][place.column].distance = distance;
        assert(self@.cells =~~= old(self)@.with_cell(
            place,
            old(self)@.cell(place).with_distance(distance),
        ).cells);
    }

    /// Computes the four structural neighbours of every cell from the cell's
    /// location and the grid's bounds. Links and distances are left alone.
    pub fn configure_cells(&mut self)
        requires
            old(self)@.has_dimensions(),
        ensures
            final(self)@ == old(self)@.configure(),
    {
        let ghost before = self@;
        let mut r: usize = 0;
        while r < self.rows
            invariant
                r <= self.rows,
                before.has_dimensions(),
                self@.has_dimensions(),
                self.rows == before.rows,
                self.columns == before.columns,
                self.max_distance == before.max_distance,
                forall|i: int, j: int|
                    0 <= i < r && 0 <= j < self.columns ==> #[trigger] self@.cells[i][j]
                        == configure_cell(before.cells[i][j], before.rows, before.columns),
                forall|i: int, j: int|
                    r <= i < self.rows && 0 <= j < self.columns ==> #[trigger] self@.cells[i][j]
                        == before.cells[i][j],
            decreases self.rows - r,
        {
            let mut c: usize = 0;
            while c < self.columns
                invariant
                    r < self.rows,
                    c <= self.columns,
                    before.has_dimensions(),
                    self@.has_dimensions(),
                    self.rows == before.rows,
                    self.columns == before.columns,
                    self.max_distance == before.max_distance,
                    forall|i: int, j: int|
                        0 <= i < r && 0 <= j < self.columns ==> #[trigger] self@.cells[i][j]
                            == configure_cell(before.cells[i][j], before.rows, before.columns),
                    forall|i: int, j: int|
                        r < i < self.rows && 0 <= j < self.columns ==> #[trigger] self@.cells[i][j]
                            == before.cells[i][j],
                    forall|j: int|
                        0 <= j < c ==> #[trigger] self@.cells[r as int][j] == configure_cell(
                            before.cells[r as int][j],
                            before.rows,
                            before.columns,
                        ),
                    forall|j: int|
                        c <= j < self.columns ==> #[trigger] self@.cells[r as int][j]
                            == before.cells[r as int][j],
                decreases self.columns - c,
            {
                let ghost step_before = self@;
                assert(step_before.cells[r as int][c as int] == before.cells[r as int][c as int]);
                let place = self.cells[r][c].location;
                let rows = self.rows;
                let columns = self.columns;
                let north = SmartGrid::set_neighbour(rows, columns, &place, Direction::North);
                let east = SmartGrid::set_neighbour(rows, columns, &place, Direction::East);
                let south = SmartGrid::set_neighbour(rows, columns, &place, Direction::South);
                let west = SmartGrid::set_neighbour(rows, columns, &place, Direction::West);
                self.cells[r][c].north = north;
                self.cells[r][c].east = east;
                self.cells[r][c].south = south;
                self.cells[r][c].west = west;
                assert(self@.cells =~~= step_before.with_cell(
                    Location { row: r, column: c },
                    configure_cell(before.cells[r as int][c as int], before.rows, before.columns),
                ).cells);
                c += 1;
            }
            r += 1;
        }
        assert(self@.cells =~~= before.configure().cells);
    }
}

} // verus!
