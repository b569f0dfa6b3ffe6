//! The four generators. Each takes a freshly constructed grid without passages
//! and carves passages into it until they form a spanning tree.
//!
//! Every generator comes in two forms: one that draws its random choices from
//! the thread's random number generator, and one, named `_with`, that takes
//! them from the source of [`Draws`] it is handed. Whatever the choices, the
//! result is a perfect maze; and as long as the choices come from a script,
//! the result is the maze that the script stands for.

use vstd::prelude::*;
use crate::binary_tree_state::{
    binary_tree_following, binary_tree_row, binary_tree_rows, binary_tree_upto,
    carved_north_or_east, corner_rank, lemma_binary_tree_carves, lemma_binary_tree_done,
};
use crate::cell::MazeCell;
use crate::graph::is_perfect_maze;
use crate::grid::{configure_cell, lemma_neighbours, SmartGrid};
use crate::growth::{
    aldous_broder_following, ended, get_unvisited_neighbours, get_visited_neighbours, growing,
    grown, hunt, hunt_and_kill_following, in_tree, is_unvisited, is_visited, lemma_grown,
    lemma_grows, lemma_has_neighbour, lemma_seed, lemma_tree_size, raised, setting_out, started,
    wandered, Walk, Wander,
};
use crate::location::{adjacent, Location};
use crate::orientation::lemma_spanning_tree;
use crate::random::{follows, scaled, Carved, Draws};
use crate::sidewinder_state::{
    at_row_start, carved_in_runs, closed_parents, closed_ranks, lemma_runs_closed,
    lemma_runs_done, lemma_runs_kept, lemma_runs_next_row, lemma_sidewinder_begins,
    lemma_sidewinder_closes, lemma_sidewinder_done, lemma_sidewinder_extends,
    lemma_sidewinder_next_row, lemma_sidewinder_top, runs_recorded, sidewinder_following,
    sidewinder_row, sidewinder_rows, sidewinder_upto, top_row_open, winds, with_run, Run,
    Winding,
};

verus! {

/// Passages are always carved both ways.
pub const BIDI: bool = true;

/// The number of steps after which a random walk that has not yet covered the
/// grid is given up and the maze is finished by hunting.
pub const WALK_LIMIT: u64 = u64::MAX;

/// A cell of the grid drawn at random: first its row, then its column.
pub fn random_cell_location(grid: &SmartGrid, draws: &mut Draws) -> (place: Location)
    requires
        grid.rows >= 1,
        grid.columns >= 1,
    ensures
        grid@.in_bounds(place),
        started(grid@, old(draws)@) matches Some(walk) ==> walk.current == place && walk.script
            == final(draws)@,
{
    let row = draws.between(0, grid.rows - 1);
    let column = draws.between(0, grid.columns - 1);
    Location { row, column }
}

/// 1 while the hunt is on, 0 once it is over.
spec fn pending(hunting: bool) -> nat {
    if hunting {
        1
    } else {
        0
    }
}

/// Finishes a maze that grows from a root, with the walk standing at `start`:
/// walk to a random unvisited neighbour while there is one; otherwise hunt for
/// the first unvisited cell beside the maze, link it to a random visited
/// neighbour and walk on from there; stop when the hunt finds nothing.
fn grow(
    grid: SmartGrid,
    start: Location,
    draws: &mut Draws,
    Ghost(parent): Ghost<Map<Location, Location>>,
    Ghost(rank): Ghost<spec_fn(Location) -> nat>,
    Ghost(root): Ghost<Location>,
) -> (maze: SmartGrid)
    requires
        growing(grid@, parent, rank, root),
        grid@.in_bounds(start),
        in_tree(parent, root, start),
    ensures
        is_perfect_maze(maze@),
        grid@.same_but_links(maze@),
        follows(
            ended(
                grown(
                    Some(Walk { grid: grid@, script: old(draws)@, current: start }),
                    (grid@.rows * grid@.columns) as nat,
                ),
            ),
            maze@,
            final(draws)@,
        ),
{
    let ghost before = grid@;
    let ghost cells = (grid@.rows * grid@.columns) as nat;
    let ghost goal = grown(Some(Walk { grid: grid@, script: draws@, current: start }), cells);
    let ghost mut carved: nat = 0;
    let ghost mut parent = parent;
    let ghost mut rank = rank;
    let mut grid = grid;
    let mut current = start;
    let mut hunting = true;
    while hunting
        invariant
            growing(grid@, parent, rank, root),
            grid@.in_bounds(current),
            in_tree(parent, root, current),
            before.same_but_links(grid@),
            !hunting ==> is_perfect_maze(grid@),
            cells == grid@.rows * grid@.columns,
            carved <= parent.dom().len(),
            hunting && goal is Some ==> goal == grown(
                Some(Walk { grid: grid@, script: draws@, current }),
                (cells - carved) as nat,
            ),
            !hunting ==> follows(ended(goal), grid@, draws@),
        decreases 2 * (grid@.rows * grid@.columns - parent.dom().len()) + pending(hunting),
    {
        let ghost g = grid@;
        proof {
            lemma_tree_size(g, parent, rank, root);
            lemma_neighbours(g, current);
        }
        let around = grid.cells[current.row][current.column].get_neighbours();
        let unvisited = get_unvisited_neighbours(around, &grid);
        if unvisited.len() > 0 {
            let next = draws.member(&unvisited).unwrap();
            proof {
                let all = g.cell(current).neighbours();
                all.lemma_filter_contains_rev(is_unvisited(g), next);
                let i = choose|i: int| 0 <= i < unvisited@.len() && unvisited@[i] == next;
                all.lemma_filter_pred(is_unvisited(g), i);
                lemma_grows(g, parent, rank, root, current, next, next, current);
                rank = raised(rank, next, current);
                parent = parent.insert(next, current);
                carved = carved + 1;
            }
            grid.link_cells(current, next, BIDI);
            current = next;
        } else {
            match hunt(&grid) {
                Some(found) => {
                    proof {
                        lemma_neighbours(g, found);
                    }
                    let beside = grid.cells[found.row][found.column].get_neighbours();
                    let visited = get_visited_neighbours(beside, &grid);
                    let elder = draws.member(&visited).unwrap();
                    proof {
                        let all = g.cell(found).neighbours();
                        all.lemma_filter_contains_rev(is_visited(g), elder);
                        let i = choose|i: int| 0 <= i < visited@.len() && visited@[i] == elder;
                        all.lemma_filter_pred(is_visited(g), i);
                        lemma_grows(g, parent, rank, root, found, elder, found, elder);
                        rank = raised(rank, found, elder);
                        parent = parent.insert(found, elder);
                        carved = carved + 1;
                    }
                    grid.link_cells(found, elder, BIDI);
                    current = found;
                },
                None => {
                    hunting = false;
                    proof {
                        lemma_grown(g, parent, rank, root, current);
                    }
                },
            }
        }
    }
    grid
}

/// Hunt-and-kill: from a random cell, walk into unvisited cells for as long as
/// the walk can go on, then hunt, row by row, for the first unvisited cell
/// beside the maze and walk on from there, until the hunt finds nothing.
pub fn hunt_and_kill(grid: SmartGrid) -> (maze: SmartGrid)
    requires
        grid@.wf(),
        grid@.unlinked(),
    ensures
        is_perfect_maze(maze@),
        grid@.same_but_links(maze@),
{
    let mut draws = Draws::ambient();
    hunt_and_kill_with(grid, &mut draws)
}

/// Hunt-and-kill with the random choices taken from `draws`: the cell to start
/// from, then at every step of the walk one of the unvisited neighbours, and
/// after every hunt one of the visited neighbours of the cell that was found.
/// As long as the script of `draws` lasts, the maze is the one that following
/// the script gives.
pub fn hunt_and_kill_with(grid: SmartGrid, draws: &mut Draws) -> (maze: SmartGrid)
    requires
        grid@.wf(),
        grid@.unlinked(),
    ensures
        is_perfect_maze(maze@),
        grid@.same_but_links(maze@),
        follows(hunt_and_kill_following(grid@, old(draws)@), maze@, final(draws)@),
{
    let location = random_cell_location(&grid, draws);
    proof {
        lemma_seed(grid@, location);
    }
    grow(grid, location, draws, Ghost(Map::empty()), Ghost(|place: Location| 0nat), Ghost(location))
}

/// One step of the random walk from `current` to `neighbour`: a passage is
/// carved if `neighbour` was unvisited, and not otherwise. Returns whether it
/// was carved.
pub fn aldous_broder_step(grid: &mut SmartGrid, current: Location, neighbour: Location) -> (carved:
    bool)
    requires
        old(grid)@.has_dimensions(),
        old(grid)@.in_bounds(current),
        old(grid)@.in_bounds(neighbour),
        adjacent(current, neighbour),
    ensures
        carved == (old(grid)@.cell(neighbour).links.len() == 0),
        carved ==> final(grid)@ == old(grid)@.with_passage(current, neighbour),
        !carved ==> final(grid)@ == old(grid)@,
{
    let carved = grid.cells[neighbour.row][neighbour.column].is_unlinked();
    if carved {
        grid.link_cells(current, neighbour, BIDI);
    }
    carved
}

/// Aldous-Broder: a random walk from a random cell that carves a passage
/// whenever it steps into an unvisited cell, until no cell is unvisited.
///
/// A random walk has no bound on its length. This one counts its steps, and
/// if it has made `WALK_LIMIT` of them without covering the grid, the cells
/// that are left are attached as hunt-and-kill attaches them.
pub fn aldous_broder(grid: SmartGrid) -> (maze: SmartGrid)
    requires
        grid@.wf(),
        grid@.unlinked(),
    ensures
        is_perfect_maze(maze@),
        grid@.same_but_links(maze@),
{
    let mut draws = Draws::ambient();
    aldous_broder_with(grid, &mut draws, WALK_LIMIT)
}

/// Aldous-Broder with the random choices taken from `draws`: the cell to start
/// from, then at every step one of the neighbours of the cell the walk stands
/// on. After `walk_limit` steps the walk is given up, and the cells that are
/// left are attached as hunt-and-kill attaches them, from where the walk
/// stands. As long as the script of `draws` lasts, the maze is the one that
/// following the script gives.
pub fn aldous_broder_with(grid: SmartGrid, draws: &mut Draws, walk_limit: u64) -> (maze: SmartGrid)
    requires
        grid@.wf(),
        grid@.unlinked(),
    ensures
        is_perfect_maze(maze@),
        grid@.same_but_links(maze@),
        follows(
            aldous_broder_following(grid@, old(draws)@, walk_limit as nat),
            maze@,
            final(draws)@,
        ),
{
    let ghost before = grid@;
    let ghost goal = wandered(setting_out(started(grid@, draws@)), walk_limit as nat);
    let mut grid = grid;
    assert(grid.rows * grid.columns >= 1) by (nonlinear_arith)
        requires
            grid.rows >= 1,
            grid.columns >= 1,
    ;
    let mut unvisited_count: usize = grid.rows * grid.columns - 1;
    let location = random_cell_location(&grid, draws);
    let ghost mut parent = Map::<Location, Location>::empty();
    let ghost mut rank = |place: Location| 0nat;
    proof {
        lemma_seed(grid@, location);
    }
    let mut current = location;
    let mut steps_left: u64 = walk_limit;
    while unvisited_count > 0 && steps_left > 0
        invariant
            growing(grid@, parent, rank, location),
            grid@.in_bounds(current),
            in_tree(parent, location, current),
            before.same_but_links(grid@),
            unvisited_count + parent.dom().len() + 1 == grid@.rows * grid@.columns,
            goal is Some ==> goal == wandered(
                Some(
                    Wander {
                        walk: Walk { grid: grid@, script: draws@, current },
                        unvisited: unvisited_count as nat,
                    },
                ),
                steps_left as nat,
            ),
        decreases steps_left,
    {
        steps_left -= 1;
        let ghost g = grid@;
        proof {
            lemma_neighbours(g, current);
            lemma_has_neighbour(g, current);
        }
        let neighbours = grid.cells[current.row][current.column].get_neighbours();
        let random_neighbour = draws.member(&neighbours).unwrap();
        proof {
            if g.cell(random_neighbour).links.len() == 0 {
                lemma_grows(
                    g,
                    parent,
                    rank,
                    location,
                    current,
                    random_neighbour,
                    random_neighbour,
                    current,
                );
                rank = raised(rank, random_neighbour, current);
                parent = parent.insert(random_neighbour, current);
            }
        }
        if aldous_broder_step(&mut grid, current, random_neighbour) {
            unvisited_count -= 1;
        }
        current = random_neighbour;
    }
    if unvisited_count > 0 {
        grow(grid, current, draws, Ghost(parent), Ghost(rank), Ghost(location))
    } else {
        proof {
            lemma_tree_size(grid@, parent, rank, location);
            lemma_spanning_tree(grid@, parent, rank, location);
        }
        grid
    }
}

/// The neighbour that a draw of 0 or 1 picks: the eastern one for 0, the
/// northern one for 1.
pub fn pick_neighbour(eastern: Location, northern: Location, draw: usize) -> (chosen: Location)
    requires
        draw <= 1,
    ensures
        draw == 0 ==> chosen == eastern,
        draw == 1 ==> chosen == northern,
{
    if draw == 0 {
        eastern
    } else {
        northern
    }
}

/// One of the two neighbours, drawn at random: the eastern one for an even
/// number of the script, the northern one for an odd one.
fn binary_tree_random_neighbour(eastern: Location, northern: Location, draws: &mut Draws) -> (chosen:
    Location)
    ensures
        chosen == eastern || chosen == northern,
        old(draws)@.len() > 0 ==> final(draws)@ == old(draws)@.drop_first(),
        old(draws)@.len() > 0 && scaled(old(draws)@[0], 0, 1) == 0 ==> chosen == eastern,
        old(draws)@.len() > 0 && scaled(old(draws)@[0], 0, 1) != 0 ==> chosen == northern,
{
    let linked_location = draws.between(0, 1);
    pick_neighbour(eastern, northern, linked_location)
}

/// Binary tree: visit the cells row by row. The north-east corner carves
/// nothing; a cell of the top row carves east; a cell of the last column carves
/// north; every other cell carves east or north, drawn at random.
pub fn binary_tree(grid: SmartGrid) -> (maze: SmartGrid)
    requires
        grid@.wf(),
        grid@.unlinked(),
    ensures
        is_perfect_maze(maze@),
        carved_north_or_east(maze@),
        grid@.same_but_links(maze@),
{
    let mut draws = Draws::ambient();
    binary_tree_with(grid, &mut draws)
}

/// Binary tree with the random choices taken from `draws`: one number for every
/// cell that has both a northern and an eastern neighbour, in the order of the
/// visits. As long as the script of `draws` lasts, the maze is the one that
/// following the script gives.
pub fn binary_tree_with(grid: SmartGrid, draws: &mut Draws) -> (maze: SmartGrid)
    requires
        grid@.wf(),
        grid@.unlinked(),
    ensures
        is_perfect_maze(maze@),
        carved_north_or_east(maze@),
        grid@.same_but_links(maze@),
        follows(binary_tree_following(grid@, old(draws)@), maze@, final(draws)@),
{
    let ghost before = grid@;
    let ghost start = Some(Carved { grid: grid@, script: draws@ });
    let ghost mut parent = Map::<Location, Location>::empty();
    let mut grid = grid;
    proof {
        lemma_seed(grid@, Location { row: 0, column: 0 });
    }
    let mut r: usize = 0;
    while r < grid.rows
        invariant
            r <= grid.rows,
            binary_tree_upto(grid@, parent, r, 0),
            before.same_but_links(grid@),
            follows(binary_tree_rows(start, r as nat, grid.columns), grid@, draws@),
        decreases grid.rows - r,
    {
        let ghost row_start = binary_tree_rows(start, r as nat, grid.columns);
        let mut c: usize = 0;
        while c < grid.columns
            invariant
                r < grid.rows,
                c <= grid.columns,
                binary_tree_upto(grid@, parent, r, c),
                before.same_but_links(grid@),
                follows(binary_tree_row(row_start, r, c as nat), grid@, draws@),
            decreases grid.columns - c,
        {
            let ghost g = grid@;
            let place = Location { row: r, column: c };
            let north = grid.cells[r][c].north;
            let east = grid.cells[r][c].east;
            proof {
                assert(g.cell(place) == configure_cell(g.cell(place), g.rows, g.columns));
            }
            let is_northmost_cell = north.is_none();
            let is_eastmost_cell = east.is_none();
            let is_north_eastern_cell = is_northmost_cell && is_eastmost_cell;
            // The north-east corner carves nothing: every path ends there.
            if !is_north_eastern_cell {
                let target = if is_northmost_cell {
                    east.unwrap()
                } else if is_eastmost_cell {
                    north.unwrap()
                } else {
                    binary_tree_random_neighbour(east.unwrap(), north.unwrap(), draws)
                };
                proof {
                    lemma_binary_tree_carves(g, parent, place, target);
                    parent = parent.insert(place, target);
                }
                grid.link_cells(place, target, BIDI);
            }
            c += 1;
        }
        r += 1;
    }
    proof {
        lemma_binary_tree_done(grid@, parent);
    }
    grid
}

/// Whether the run ends at this cell: always in the last column, never
/// elsewhere in the top row, and elsewhere when the draw is 0.
pub fn should_close_run(cell: &MazeCell, draw: usize) -> (close: bool)
    ensures
        close == (cell@.east is None || (cell@.north is Some && draw == 0)),
{
    let is_northmost_cell = cell.north.is_none();
    let is_eastmost_cell = cell.east.is_none();
    is_eastmost_cell || (!is_northmost_cell && draw == 0)
}

/// Sidewinder: visit the cells row by row, gathering them into runs. A cell
/// that does not end its run carves east. A cell that ends its run picks a
/// random member of the run, which carves north, unless the run lies in the top
/// row, which has no north.
pub fn sidewinder(grid: SmartGrid) -> (maze: SmartGrid)
    requires
        grid@.wf(),
        grid@.unlinked(),
    ensures
        is_perfect_maze(maze@),
        top_row_open(maze@),
        carved_in_runs(maze@),
        grid@.same_but_links(maze@),
{
    let mut draws = Draws::ambient();
    sidewinder_with(grid, &mut draws)
}

/// Sidewinder with the random choices taken from `draws`: for every cell a
/// number, and for every run that ends the member that carves north. As long
/// as the script of `draws` lasts, the maze is the one that following the
/// script gives.
pub fn sidewinder_with(grid: SmartGrid, draws: &mut Draws) -> (maze: SmartGrid)
    requires
        grid@.wf(),
        grid@.unlinked(),
    ensures
        is_perfect_maze(maze@),
        top_row_open(maze@),
        carved_in_runs(maze@),
        grid@.same_but_links(maze@),
        follows(sidewinder_following(grid@, old(draws)@), maze@, final(draws)@),
{
    let ghost begun = Some(Winding { grid: grid@, script: draws@, run: Seq::empty() });
    let ghost before = grid@;
    let ghost mut parent = Map::<Location, Location>::empty();
    let ghost mut rank = corner_rank(grid.columns);
    let ghost mut base = (grid.rows + grid.columns + 1) as nat;
    let ghost mut runs = |place: Location| Run { first: 0, last: 0, member: 0 };
    let mut grid = grid;
    proof {
        lemma_sidewinder_begins(grid@);
    }
    let mut r: usize = 0;
    while r < grid.rows
        invariant
            r <= grid.rows,
            sidewinder_upto(grid@, parent, rank, base, r, 0, 0),
            runs_recorded(grid@, runs, r, 0),
            before.same_but_links(grid@),
            sidewinder_rows(begun, r as nat, grid.columns) matches Some(winding)
                ==> winding.grid == grid@ && winding.script == draws@,
        decreases grid.rows - r,
    {
        let ghost row_begun = at_row_start(sidewinder_rows(begun, r as nat, grid.columns));
        let mut run: Vec<Location> = Vec::new();
        let ghost mut start: usize = 0;
        let mut c: usize = 0;
        while c < grid.columns
            invariant
                r < grid.rows,
                c <= grid.columns,
                sidewinder_upto(grid@, parent, rank, base, r, c, start),
                runs_recorded(grid@, runs, r, start),
                before.same_but_links(grid@),
                winds(sidewinder_row(row_begun, r, c as nat), grid@, draws@, run@),
                run@.len() == c - start,
                forall|k: int|
                    0 <= k < run@.len() ==> #[trigger] run@[k] == (Location {
                        row: r,
                        column: (start + k) as usize,
                    }),
                r >= 1 && c == grid.columns ==> start == c,
            decreases grid.columns - c,
        {
            let ghost g = grid@;
            let place = Location { row: r, column: c };
            proof {
                assert(g.cell(place) == configure_cell(g.cell(place), g.rows, g.columns));
            }
            let is_northmost_cell = grid.cells[r][c].north.is_none();
            let zero_or_one = draws.between(0, 1);
            let should_close = should_close_run(&grid.cells[r][c], zero_or_one);
            run.push(place);
            if should_close {
                let member_location = draws.member(&run).unwrap();
                if !is_northmost_cell {
                    proof {
                        assert(g.cell(member_location) == configure_cell(
                            g.cell(member_location),
                            g.rows,
                            g.columns,
                        ));
                    }
                    let northern_location =
                        grid.cells[member_location.row][member_location.column].north.unwrap();
                    proof {
                        lemma_runs_closed(
                            g,
                            parent,
                            rank,
                            base,
                            runs,
                            r,
                            c,
                            start,
                            member_location.column,
                        );
                        runs = with_run(runs, r, start, c, member_location.column);
                        lemma_sidewinder_closes(
                            g,
                            parent,
                            rank,
                            base,
                            r,
                            c,
                            start,
                            member_location.column,
                        );
                        rank = closed_ranks(rank, base, r, start, c, member_location.column);
                        parent = closed_parents(parent, r, start, member_location.column);
                        base = (base + g.columns + 1) as nat;
                    }
                    grid.link_cells(member_location, northern_location, BIDI);
                    run.clear();
                    proof {
                        start = (c + 1) as usize;
                    }
                }
            } else {
                let eastern_location = grid.cells[r][c].east.unwrap();
                proof {
                    lemma_runs_kept(g, runs, r, start, place, eastern_location);
                    if r == 0 {
                        lemma_sidewinder_top(g, parent, rank, base, c);
                        parent = parent.insert(place, eastern_location);
                    } else {
                        lemma_sidewinder_extends(g, parent, rank, base, r, c, start);
                        rank = raised(rank, eastern_location, place);
                        parent = parent.insert(eastern_location, place);
                    }
                }
                grid.link_cells(place, eastern_location, BIDI);
            }
            c += 1;
        }
        proof {
            lemma_sidewinder_next_row(grid@, parent, rank, base, r, start);
            lemma_runs_next_row(grid@, runs, r, start);
        }
        r += 1;
    }
    proof {
        lemma_sidewinder_done(grid@, parent, rank, base);
        lemma_runs_done(grid@, runs);
    }
    grid
}

} // verus!
