//! What a renderer needs of a grid: for every cell which of its four sides are
//! open, and the grid as a plain-text picture.

use vstd::prelude::*;
use vstd::arithmetic::div_mod::lemma_fundamental_div_mod_converse;
use crate::cell::{CellView, MazeCell};
use crate::grid::{GridView, SmartGrid};
use crate::location::{Direction, Location};

verus! {

/// How a renderer colours the walls: every wall in a colour drawn at random,
/// in the colours that go with the four sides, or in colours of the user's own.
#[derive(Debug, PartialEq, Eq, Clone, Copy, Structural)]
pub enum ColourType {
    Party,
    Default,
    Custom,
}

impl Default for ColourType {
    fn default() -> (colours: ColourType)
        ensures
            colours == ColourType::Default,
    {
        ColourType::Default
    }
}

/// The state of one side of a cell.
#[derive(Debug, PartialEq, Eq, Clone, Copy, Structural)]
pub enum Side {
    /// A passage leads to the neighbour on this side.
    Open,
    /// There is a neighbour on this side, but no passage to it.
    Walled,
    /// The grid ends on this side.
    Boundary,
}

/// What a renderer needs of one cell.
#[derive(Debug, PartialEq, Eq, Clone, Copy, Structural)]
pub struct CellSnapshot {
    pub location: Location,
    pub north: Side,
    pub east: Side,
    pub south: Side,
    pub west: Side,
    pub distance: usize,
}

/// The state of the given side of a cell.
pub open spec fn side_of(cell: CellView, direction: Direction) -> Side {
    match cell.neighbour(direction) {
        None => Side::Boundary,
        Some(n) => if cell.links.contains(n) {
            Side::Open
        } else {
            Side::Walled
        },
    }
}

/// The snapshot of a cell.
pub open spec fn snapshot_of(cell: CellView) -> CellSnapshot {
    CellSnapshot {
        location: cell.location,
        north: side_of(cell, Direction::North),
        east: side_of(cell, Direction::East),
        south: side_of(cell, Direction::South),
        west: side_of(cell, Direction::West),
        distance: cell.distance,
    }
}

/// The state of the given side of `cell`.
pub fn side(cell: &MazeCell, direction: Direction) -> (state: Side)
    ensures
        state == side_of(cell@, direction),
{
    let neighbour = match direction {
        Direction::North => cell.north,
        Direction::East => cell.east,
        Direction::South => cell.south,
        Direction::West => cell.west,
    };
    match neighbour {
        None => Side::Boundary,
        Some(n) => if cell.has_link(n) {
            Side::Open
        } else {
            Side::Walled
        },
    }
}

/// Whether a renderer that draws every wall once draws the wall on the given
/// side of the cell: to the north and west only where the grid ends, to the
/// east and south wherever no passage leads.
pub fn draws_wall(cell: &CellSnapshot, direction: Direction) -> (drawn: bool)
    ensures
        drawn == match direction {
            Direction::North => cell.north == Side::Boundary,
            Direction::East => cell.east != Side::Open,
            Direction::South => cell.south != Side::Open,
            Direction::West => cell.west == Side::Boundary,
        },
{
    match direction {
        Direction::North => cell.north == Side::Boundary,
        Direction::East => cell.east != Side::Open,
        Direction::South => cell.south != Side::Open,
        Direction::West => cell.west == Side::Boundary,
    }
}

/// The snapshot of `cell`.
pub fn cell_snapshot(cell: &MazeCell) -> (taken: CellSnapshot)
    ensures
        taken == snapshot_of(cell@),
{
    CellSnapshot {
        location: cell.location,
        north: side(cell, Direction::North),
        east: side(cell, Direction::East),
        south: side(cell, Direction::South),
        west: side(cell, Direction::West),
        distance: cell.distance,
    }
}

/// The snapshots of all cells, row by row.
pub fn grid_snapshot(grid: &SmartGrid) -> (taken: Vec<Vec<CellSnapshot>>)
    requires
        grid@.has_dimensions(),
    ensures
        taken@.len() == grid@.rows,
        forall|r: int| 0 <= r < grid@.rows ==> (#[trigger] taken@[r])@.len() == grid@.columns,
        forall|r: int, c: int|
            0 <= r < grid@.rows && 0 <= c < grid@.columns ==> #[trigger] taken@[r]@[c]
                == snapshot_of(grid@.cells[r][c]),
{
    let mut taken: Vec<Vec<CellSnapshot>> = Vec::new();
    let mut r: usize = 0;
    while r < grid.rows
        invariant
            r <= grid.rows,
            grid@.has_dimensions(),
            taken@.len() == r,
            forall|i: int| 0 <= i < r ==> (#[trigger] taken@[i])@.len() == grid@.columns,
            forall|i: int, c: int|
                0 <= i < r && 0 <= c < grid@.columns ==> #[trigger] taken@[i]@[c] == snapshot_of(
                    grid@.cells[i][c],
                ),
        decreases grid.rows - r,
    {
        let mut row: Vec<CellSnapshot> = Vec::new();
        let mut c: usize = 0;
        while c < grid.columns
            invariant
                r < grid.rows,
                c <= grid.columns,
                grid@.has_dimensions(),
                grid@.cells[r as int].len() == grid@.columns,
                row@.len() == c,
                forall|j: int| 0 <= j < c ==> #[trigger] row@[j] == snapshot_of(grid@.cells[r as int][j]),
            decreases grid.columns - c,
        {
            row.push(cell_snapshot(&grid.cells[r][c]));
            c += 1;
        }
        taken.push(row);
        r += 1;
    }
    taken
}

/// The number of characters in one line of the picture of a grid with the
/// given number of columns, the line break included.
pub open spec fn line_width(columns: int) -> int {
    4 * columns + 2
}

/// The character at place `j` of the border line: a corner before every cell
/// and after the last, dashes between.
pub open spec fn border_char(j: int) -> char {
    if j % 4 == 0 {
        '+'
    } else {
        '-'
    }
}

/// The character at place `j` of the line that shows the bodies of the cells
/// of `row`: a bar at the left edge, three blanks for every cell, and after
/// every cell a blank where a passage leads east and a bar where none does.
pub open spec fn wall_char(row: Seq<CellView>, j: int) -> char {
    if j == 0 {
        '|'
    } else if j % 4 == 0 {
        if row[j / 4 - 1].linked_towards(Direction::East) {
            ' '
        } else {
            '|'
        }
    } else {
        ' '
    }
}

/// The character at place `j` of the line that shows the floors of the cells
/// of `row`: corners between the cells, and under every cell three blanks
/// where a passage leads south and three dashes where none does.
pub open spec fn floor_char(row: Seq<CellView>, j: int) -> char {
    if j % 4 == 0 {
        '+'
    } else if row[j / 4].linked_towards(Direction::South) {
        ' '
    } else {
        '-'
    }
}

/// The character at place `j` of line `k` of the picture: line 0 is the top
/// border, and every row of the grid gives a line of bodies and a line of
/// floors. Every line ends with a line break.
pub open spec fn picture_char(g: GridView, k: int, j: int) -> char {
    if j == line_width(g.columns as int) - 1 {
        '\n'
    } else if k == 0 {
        border_char(j)
    } else if k % 2 == 1 {
        wall_char(g.cells[(k - 1) / 2], j)
    } else {
        floor_char(g.cells[(k - 2) / 2], j)
    }
}

/// The picture of the grid as text.
pub open spec fn picture(g: GridView) -> Seq<char> {
    Seq::new(
        ((2 * g.rows + 1) * line_width(g.columns as int)) as nat,
        |i: int|
            picture_char(g, i / line_width(g.columns as int), i % line_width(g.columns as int)),
    )
}

/// Where place `j` of line `k` stands in the picture, and what stands there.
pub proof fn lemma_picture_at(g: GridView, k: int, j: int)
    requires
        0 <= k < 2 * g.rows + 1,
        0 <= j < line_width(g.columns as int),
    ensures
        0 <= k * line_width(g.columns as int) + j < picture(g).len(),
        picture(g)[k * line_width(g.columns as int) + j] == picture_char(g, k, j),
{
    let width = line_width(g.columns as int);
    let i = k * width + j;
    lemma_fundamental_div_mod_converse(i, width, k, j);
    assert(0 <= k * width && (k + 1) * width <= (2 * g.rows + 1) * width) by (nonlinear_arith)
        requires
            0 <= k < 2 * g.rows + 1,
            width > 0,
    ;
    assert((k + 1) * width == k * width + width) by (nonlinear_arith);
}

/// The picture shows the passages of every cell: in the line of bodies of its
/// row, the place after the cell is blank exactly if a passage leads east; in
/// the line of floors, the three places under the cell are blank exactly if a
/// passage leads south. So the open and closed sides of every cell can be read
/// back from the picture.
pub proof fn lemma_picture_shows_passages(g: GridView, place: Location)
    requires
        g.has_dimensions(),
        g.in_bounds(place),
    ensures
        (picture(g)[(2 * place.row + 1) * line_width(g.columns as int) + 4 * place.column + 4]
            == ' ') == g.cell(place).linked_towards(Direction::East),
        forall|t: int|
            1 <= t <= 3 ==> (#[trigger] picture(g)[(2 * place.row + 2) * line_width(
                g.columns as int,
            ) + 4 * place.column + t] == ' ') == g.cell(place).linked_towards(Direction::South),
        g.cell(place).linked_towards(Direction::East) == (snapshot_of(g.cell(place)).east
            == Side::Open),
        g.cell(place).linked_towards(Direction::South) == (snapshot_of(g.cell(place)).south
            == Side::Open),
{
    lemma_picture_at(g, 2 * place.row + 1, 4 * place.column + 4);
    assert forall|t: int| 1 <= t <= 3 implies (#[trigger] picture(g)[(2 * place.row + 2)
        * line_width(g.columns as int) + 4 * place.column + t] == ' ') == g.cell(
        place,
    ).linked_towards(Direction::South) by {
        lemma_picture_at(g, 2 * place.row + 2, 4 * place.column + t);
    }
}

/// Appends `ch` to `text`, as `String::push` is documented to do.
pub assume_specification[ String::push ](text: &mut String, ch: char)
    ensures
        final(text)@ == old(text)@.push(ch),
;

/// Appends the character at place `j` of line `k` of the picture.
fn push_picture_char(
    text: &mut String,
    ch: char,
    Ghost(g): Ghost<GridView>,
    Ghost(k): Ghost<int>,
    Ghost(j): Ghost<int>,
)
    requires
        0 <= k < 2 * g.rows + 1,
        0 <= j < line_width(g.columns as int),
        old(text)@ == picture(g).take(k * line_width(g.columns as int) + j),
        ch == picture_char(g, k, j),
    ensures
        final(text)@ == picture(g).take(k * line_width(g.columns as int) + j + 1),
{
    proof {
        lemma_picture_at(g, k, j);
    }
    text.push(ch);
}

/// The picture of the grid as text: a top border, then for every row a line of
/// cell bodies, with a bar wherever no passage leads east, and a line of
/// floors, with dashes wherever no passage leads south.
pub fn ascii_picture(grid: &SmartGrid) -> (text: String)
    requires
        grid@.has_dimensions(),
    ensures
        text@ == picture(grid@),
{
    let ghost g = grid@;
    let ghost width = line_width(g.columns as int);
    let mut output = String::new();
    assert(output@ =~= picture(g).take(0 * width + 0));
    push_picture_char(&mut output, '+', Ghost(g), Ghost(0), Ghost(0));
    let mut c: usize = 0;
    while c < grid.columns
        invariant
            c <= grid.columns,
            g == grid@,
            width == line_width(g.columns as int),
            output@ == picture(g).take(0 * width + 4 * c + 1),
        decreases grid.columns - c,
    {
        push_picture_char(&mut output, '-', Ghost(g), Ghost(0), Ghost(4 * c + 1));
        push_picture_char(&mut output, '-', Ghost(g), Ghost(0), Ghost(4 * c + 2));
        push_picture_char(&mut output, '-', Ghost(g), Ghost(0), Ghost(4 * c + 3));
        push_picture_char(&mut output, '+', Ghost(g), Ghost(0), Ghost(4 * c + 4));
        c += 1;
    }
    push_picture_char(&mut output, '\n', Ghost(g), Ghost(0), Ghost(width - 1));
    let mut r: usize = 0;
    while r < grid.rows
        invariant
            r <= grid.rows,
            g == grid@,
            g.has_dimensions(),
            width == line_width(g.columns as int),
            output@ == picture(g).take((2 * r + 1) * width),
        decreases grid.rows - r,
    {
        let ghost top = 2 * r + 1;
        let ghost bottom = 2 * r + 2;
        push_picture_char(&mut output, '|', Ghost(g), Ghost(top), Ghost(0));
        let mut c: usize = 0;
        while c < grid.columns
            invariant
                r < grid.rows,
                c <= grid.columns,
                g == grid@,
                g.has_dimensions(),
                width == line_width(g.columns as int),
                top == 2 * r + 1,
                output@ == picture(g).take(top * width + 4 * c + 1),
            decreases grid.columns - c,
        {
            assert(g.cells[r as int].len() == g.columns);
            let wall = if grid.cells[r][c].is_linked_to(Direction::East) {
                ' '
            } else {
                '|'
            };
            push_picture_char(&mut output, ' ', Ghost(g), Ghost(top), Ghost(4 * c + 1));
            push_picture_char(&mut output, ' ', Ghost(g), Ghost(top), Ghost(4 * c + 2));
            push_picture_char(&mut output, ' ', Ghost(g), Ghost(top), Ghost(4 * c + 3));
            push_picture_char(&mut output, wall, Ghost(g), Ghost(top), Ghost(4 * c + 4));
            c += 1;
        }
        push_picture_char(&mut output, '\n', Ghost(g), Ghost(top), Ghost(width - 1));
        assert(top * width + (width - 1) + 1 == bottom * width + 0) by (nonlinear_arith)
            requires
                bottom == top + 1,
        ;
        push_picture_char(&mut output, '+', Ghost(g), Ghost(bottom), Ghost(0));
        let mut c: usize = 0;
        while c < grid.columns
            invariant
                r < grid.rows,
                c <= grid.columns,
                g == grid@,
                g.has_dimensions(),
                width == line_width(g.columns as int),
                bottom == 2 * r + 2,
                output@ == picture(g).take(bottom * width + 4 * c + 1),
            decreases grid.columns - c,
        {
            assert(g.cells[r as int].len() == g.columns);
            let floor = if grid.cells[r][c].is_linked_to(Direction::South) {
                ' '
            } else {
                '-'
            };
            push_picture_char(&mut output, floor, Ghost(g), Ghost(bottom), Ghost(4 * c + 1));
            push_picture_char(&mut output, floor, Ghost(g), Ghost(bottom), Ghost(4 * c + 2));
            push_picture_char(&mut output, floor, Ghost(g), Ghost(bottom), Ghost(4 * c + 3));
            push_picture_char(&mut output, '+', Ghost(g), Ghost(bottom), Ghost(4 * c + 4));
            c += 1;
        }
        push_picture_char(&mut output, '\n', Ghost(g), Ghost(bottom), Ghost(width - 1));
        assert(bottom * width + (width - 1) + 1 == (2 * (r + 1) + 1) * width) by (nonlinear_arith)
            requires
                bottom == 2 * r + 2,
        ;
        r += 1;
    }
    output
}

} // verus!
