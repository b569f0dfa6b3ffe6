//! A fixed maze of four by four cells, carved as the sidewinder carves, for
//! examples and for trying out the solver.

use vstd::prelude::*;
use crate::graph::is_perfect_maze;
use crate::grid::{at, GridView, SmartGrid};
use crate::location::Location;
use crate::binary_tree_state::corner_rank;
use crate::growth::raised;
use crate::maze_makers::BIDI;
use crate::sidewinder_state::{
    closed_parents, closed_ranks, lemma_sidewinder_begins, lemma_sidewinder_closes,
    lemma_sidewinder_done, lemma_sidewinder_extends, lemma_sidewinder_next_row,
    lemma_sidewinder_top, top_row_open,
};

verus! {

/// The fixed maze: the blank grid of four by four cells with fifteen passages,
/// in the order in which they were carved.
pub open spec fn static_maze() -> GridView {
    GridView::blank(4, 4).with_passage(at(0, 0), at(0, 1)).with_passage(
        at(0, 1),
        at(0, 2),
    ).with_passage(at(0, 2), at(0, 3)).with_passage(at(1, 0), at(1, 1)).with_passage(
        at(1, 1),
        at(1, 2),
    ).with_passage(at(1, 2), at(1, 3)).with_passage(at(1, 3), at(0, 3)).with_passage(
        at(2, 0),
        at(2, 1),
    ).with_passage(at(2, 0), at(1, 0)).with_passage(at(2, 2), at(1, 2)).with_passage(
        at(2, 3),
        at(1, 3),
    ).with_passage(at(3, 0), at(2, 0)).with_passage(at(3, 1), at(3, 2)).with_passage(
        at(3, 2),
        at(3, 3),
    ).with_passage(at(3, 1), at(2, 1))
}

/// The location with the given coordinates.
fn cell_at(row: usize, column: usize) -> (place: Location)
    ensures
        place == at(row as int, column as int),
{
    Location { row, column }
}

/// The fixed maze of four by four cells. It is a perfect maze, and its top row
/// is one corridor.
pub fn static_sidewinder() -> (grid: SmartGrid)
    ensures
        grid@ == static_maze(),
        is_perfect_maze(grid@),
        top_row_open(grid@),
{
    let mut grid = SmartGrid::new(4, 4).unwrap();
    let ghost mut parent = Map::<Location, Location>::empty();
    let ghost mut rank = corner_rank(4);
    let ghost mut base = 9nat;
    proof {
        lemma_sidewinder_begins(grid@);
    }
    // The top row: one run from end to end.
    proof {
        lemma_sidewinder_top(grid@, parent, rank, base, 0);
        parent = parent.insert(at(0, 0), at(0, 1));
    }
    grid.link_cells(cell_at(0, 0), cell_at(0, 1), BIDI);
    proof {
        lemma_sidewinder_top(grid@, parent, rank, base, 1);
        parent = parent.insert(at(0, 1), at(0, 2));
    }
    grid.link_cells(cell_at(0, 1), cell_at(0, 2), BIDI);
    proof {
        lemma_sidewinder_top(grid@, parent, rank, base, 2);
        parent = parent.insert(at(0, 2), at(0, 3));
    }
    grid.link_cells(cell_at(0, 2), cell_at(0, 3), BIDI);
    proof {
        lemma_sidewinder_next_row(grid@, parent, rank, base, 0, 0);
    }
    // The second row: one run, closed from its last cell.
    proof {
        lemma_sidewinder_extends(grid@, parent, rank, base, 1, 0, 0);
        rank = raised(rank, at(1, 1), at(1, 0));
        parent = parent.insert(at(1, 1), at(1, 0));
    }
    grid.link_cells(cell_at(1, 0), cell_at(1, 1), BIDI);
    proof {
        lemma_sidewinder_extends(grid@, parent, rank, base, 1, 1, 0);
        rank = raised(rank, at(1, 2), at(1, 1));
        parent = parent.insert(at(1, 2), at(1, 1));
    }
    grid.link_cells(cell_at(1, 1), cell_at(1, 2), BIDI);
    proof {
        lemma_sidewinder_extends(grid@, parent, rank, base, 1, 2, 0);
        rank = raised(rank, at(1, 3), at(1, 2));
        parent = parent.insert(at(1, 3), at(1, 2));
    }
    grid.link_cells(cell_at(1, 2), cell_at(1, 3), BIDI);
    proof {
        lemma_sidewinder_closes(grid@, parent, rank, base, 1, 3, 0, 3);
        rank = closed_ranks(rank, base, 1, 0, 3, 3);
        parent = closed_parents(parent, 1, 0, 3);
        base = base + 5;
    }
    grid.link_cells(cell_at(1, 3), cell_at(0, 3), BIDI);
    proof {
        lemma_sidewinder_next_row(grid@, parent, rank, base, 1, 4);
    }
    // The third row: a run of two, closed from its first cell, and two runs of
    // one.
    proof {
        lemma_sidewinder_extends(grid@, parent, rank, base, 2, 0, 0);
        rank = raised(rank, at(2, 1), at(2, 0));
        parent = parent.insert(at(2, 1), at(2, 0));
    }
    grid.link_cells(cell_at(2, 0), cell_at(2, 1), BIDI);
    proof {
        lemma_sidewinder_closes(grid@, parent, rank, base, 2, 1, 0, 0);
        rank = closed_ranks(rank, base, 2, 0, 1, 0);
        parent = closed_parents(parent, 2, 0, 0);
        base = base + 5;
    }
    grid.link_cells(cell_at(2, 0), cell_at(1, 0), BIDI);
    proof {
        lemma_sidewinder_closes(grid@, parent, rank, base, 2, 2, 2, 2);
        rank = closed_ranks(rank, base, 2, 2, 2, 2);
        parent = closed_parents(parent, 2, 2, 2);
        base = base + 5;
    }
    grid.link_cells(cell_at(2, 2), cell_at(1, 2), BIDI);
    proof {
        lemma_sidewinder_closes(grid@, parent, rank, base, 2, 3, 3, 3);
        rank = closed_ranks(rank, base, 2, 3, 3, 3);
        parent = closed_parents(parent, 2, 3, 3);
        base = base + 5;
    }
    grid.link_cells(cell_at(2, 3), cell_at(1, 3), BIDI);
    proof {
        lemma_sidewinder_next_row(grid@, parent, rank, base, 2, 4);
    }
    // The last row: a run of one, and a run of three closed from its first
    // cell.
    proof {
        lemma_sidewinder_closes(grid@, parent, rank, base, 3, 0, 0, 0);
        rank = closed_ranks(rank, base, 3, 0, 0, 0);
        parent = closed_parents(parent, 3, 0, 0);
        base = base + 5;
    }
    grid.link_cells(cell_at(3, 0), cell_at(2, 0), BIDI);
    proof {
        lemma_sidewinder_extends(grid@, parent, rank, base, 3, 1, 1);
        rank = raised(rank, at(3, 2), at(3, 1));
        parent = parent.insert(at(3, 2), at(3, 1));
    }
    grid.link_cells(cell_at(3, 1), cell_at(3, 2), BIDI);
    proof {
        lemma_sidewinder_extends(grid@, parent, rank, base, 3, 2, 1);
        rank = raised(rank, at(3, 3), at(3, 2));
        parent = parent.insert(at(3, 3), at(3, 2));
    }
    grid.link_cells(cell_at(3, 2), cell_at(3, 3), BIDI);
    proof {
        lemma_sidewinder_closes(grid@, parent, rank, base, 3, 3, 1, 1);
        rank = closed_ranks(rank, base, 3, 1, 3, 1);
        parent = closed_parents(parent, 3, 1, 1);
        base = base + 5;
    }
    grid.link_cells(cell_at(3, 1), cell_at(2, 1), BIDI);
    proof {
        lemma_sidewinder_next_row(grid@, parent, rank, base, 3, 4);
        lemma_sidewinder_done(grid@, parent, rank, base);
    }
    grid
}

} // verus!
