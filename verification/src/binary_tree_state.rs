//! What the binary tree generator leaves behind, and why it is a perfect maze:
//! every cell but the north-east corner leads north or east, so every path
//! climbs towards that corner. Also what the generator makes of a script, cell
//! by cell.

use vstd::prelude::*;
use crate::graph::{is_perfect_maze, lemma_with_passage, link_entries};
use crate::grid::GridView;
use crate::location::{Direction, Location};
use crate::random::{scaled, Carved};
use crate::orientation::{lemma_passage_oriented, lemma_spanning_tree, oriented, parent_edge};

verus! {

/// Every cell but the north-east corner is linked to its northern or to its
/// eastern neighbour, and not to both: the mark of a binary tree maze.
pub open spec fn carved_north_or_east(g: GridView) -> bool {
    forall|place: Location|
        g.in_bounds(place) && ((#[trigger] g.cell(place)).north is Some || g.cell(place).east is Some)
            ==> g.cell(place).linked_towards(Direction::North) != g.cell(place).linked_towards(
            Direction::East,
        )
}

/// Whether `place` comes before the cell at `row`, `column` in row-major order.
pub open spec fn done_before(place: Location, row: usize, column: usize) -> bool {
    place.row < row || (place.row == row && place.column < column)
}

/// Whether `elder` is the northern or the eastern neighbour of `child`.
pub open spec fn north_or_east(child: Location, elder: Location) -> bool {
    (elder.row + 1 == child.row && elder.column == child.column) || (elder.row == child.row
        && elder.column == child.column + 1)
}

/// The rank that falls towards the north-east corner.
pub open spec fn corner_rank(columns: usize) -> spec_fn(Location) -> nat {
    |place: Location| (place.row + columns - place.column) as nat
}

/// The state of the binary tree generator before it visits the cell at `row`,
/// `column`: every cell visited so far, but the north-east corner, has its
/// northern or eastern neighbour as its parent.
pub open spec fn binary_tree_upto(
    g: GridView,
    parent: Map<Location, Location>,
    row: usize,
    column: usize,
) -> bool {
    let root = Location { row: 0, column: (g.columns - 1) as usize };
    &&& g.wf()
    &&& oriented(g, parent, corner_rank(g.columns))
    &&& parent.dom().finite()
    &&& link_entries(g) == 2 * parent.dom().len()
    &&& forall|place: Location| #[trigger]
        parent.dom().contains(place) <==> g.in_bounds(place) && done_before(place, row, column)
            && place != root
    &&& forall|place: Location| #[trigger]
        parent.dom().contains(place) ==> north_or_east(place, parent[place])
}

/// Carving the passage from the cell at `row`, `column` to its northern or
/// eastern neighbour takes the generator one cell further.
pub proof fn lemma_binary_tree_carves(
    g: GridView,
    parent: Map<Location, Location>,
    place: Location,
    target: Location,
)
    requires
        binary_tree_upto(g, parent, place.row, place.column),
        g.in_bounds(place),
        g.in_bounds(target),
        north_or_east(place, target),
    ensures
        binary_tree_upto(
            g.with_passage(place, target),
            parent.insert(place, target),
            place.row,
            (place.column + 1) as usize,
        ),
        g.same_but_links(g.with_passage(place, target)),
{
    let rank = corner_rank(g.columns);
    lemma_with_passage(g, place, target);
    lemma_passage_oriented(g, parent, rank, place, target, place, target, rank);
}

/// Once every cell has been visited, the binary tree maze is perfect and shows
/// its mark.
pub proof fn lemma_binary_tree_done(g: GridView, parent: Map<Location, Location>)
    requires
        binary_tree_upto(g, parent, g.rows, 0),
    ensures
        is_perfect_maze(g),
        carved_north_or_east(g),
{
    let root = Location { row: 0, column: (g.columns - 1) as usize };
    let rank = corner_rank(g.columns);
    lemma_spanning_tree(g, parent, rank, root);
    assert forall|place: Location|
        g.in_bounds(place) && ((#[trigger] g.cell(place)).north is Some || g.cell(place).east
            is Some) implies g.cell(place).linked_towards(Direction::North) != g.cell(
        place,
    ).linked_towards(Direction::East) by {
        let cell = g.cell(place);
        assert(parent.dom().contains(place));
        if cell.north is Some {
            let n = cell.north->0;
            assert(g.linked(place, n) <==> parent_edge(parent, place, n));
        }
        if cell.east is Some {
            let e = cell.east->0;
            assert(g.linked(place, e) <==> parent_edge(parent, place, e));
        }
    }
}

/// The binary tree generator's visit to one cell: the north-east corner carves
/// nothing, a cell of the top row carves east, a cell of the last column carves
/// north, and every other cell takes a number from the script and carves east
/// for an even one and north for an odd one.
pub open spec fn binary_tree_visit(led: Option<Carved>, place: Location) -> Option<Carved> {
    match led {
        None => None,
        Some(before) => {
            let cell = before.grid.cell(place);
            match (cell.north, cell.east) {
                (None, None) => led,
                (None, Some(east)) => Some(
                    Carved { grid: before.grid.with_passage(place, east), script: before.script },
                ),
                (Some(north), None) => Some(
                    Carved { grid: before.grid.with_passage(place, north), script: before.script },
                ),
                (Some(north), Some(east)) => if before.script.len() == 0 {
                    None
                } else if scaled(before.script[0], 0, 1) == 0 {
                    Some(
                        Carved {
                            grid: before.grid.with_passage(place, east),
                            script: before.script.drop_first(),
                        },
                    )
                } else {
                    Some(
                        Carved {
                            grid: before.grid.with_passage(place, north),
                            script: before.script.drop_first(),
                        },
                    )
                },
            }
        },
    }
}

/// The visits to the first `upto` cells of `row`, from west to east.
pub open spec fn binary_tree_row(led: Option<Carved>, row: usize, upto: nat) -> Option<Carved>
    decreases upto,
{
    if upto == 0 {
        led
    } else {
        binary_tree_visit(
            binary_tree_row(led, row, (upto - 1) as nat),
            Location { row, column: (upto - 1) as usize },
        )
    }
}

/// The visits to the first `upto` rows of `columns` cells each, from north to
/// south.
pub open spec fn binary_tree_rows(led: Option<Carved>, upto: nat, columns: usize) -> Option<Carved>
    decreases upto,
{
    if upto == 0 {
        led
    } else {
        binary_tree_row(
            binary_tree_rows(led, (upto - 1) as nat, columns),
            (upto - 1) as usize,
            columns as nat,
        )
    }
}

/// What the binary tree generator makes of `g` by following `script`: the maze
/// and what is left of the script, or `None` if the script runs out.
pub open spec fn binary_tree_following(g: GridView, script: Seq<usize>) -> Option<Carved> {
    binary_tree_rows(Some(Carved { grid: g, script }), g.rows as nat, g.columns)
}

} // verus!
