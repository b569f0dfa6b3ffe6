//! What the two walking generators share: telling visited from unvisited
//! cells, the hunt for an unvisited cell next to the maze, the tree that grows
//! from the cell the walk started at, and where a walk leads that follows a
//! script.

use vstd::prelude::*;
use crate::graph::{
    cells_of, is_perfect_maze, lemma_cells_counted, lemma_unlinked_entries, lemma_with_passage,
    link_entries,
};
use crate::grid::{lemma_neighbours, GridView, SmartGrid};
use crate::location::{adjacent, steps_between, Location};
use crate::orientation::{
    lemma_passage_oriented, lemma_spanning_tree, oriented, parent_edge, spans,
};
use crate::random::{picked, scaled, Carved};

verus! {

/// The test for a cell that no passage has reached yet.
pub open spec fn is_unvisited(g: GridView) -> spec_fn(Location) -> bool {
    |place: Location| g.cell(place).links.len() == 0
}

/// The test for a cell that some passage has reached.
pub open spec fn is_visited(g: GridView) -> spec_fn(Location) -> bool {
    |place: Location| g.cell(place).links.len() > 0
}

/// An unvisited cell with a visited neighbour: what the hunt looks for.
pub open spec fn huntable(g: GridView, place: Location) -> bool {
    g.cell(place).links.len() == 0 && g.cell(place).neighbours().filter(is_visited(g)).len() > 0
}

/// Whether `a` comes before `b` when the grid is read row by row.
pub open spec fn precedes(a: Location, b: Location) -> bool {
    a.row < b.row || (a.row == b.row && a.column < b.column)
}

/// Whether `place` is the first cell, reading the grid row by row, that is
/// unvisited and has a visited neighbour.
pub open spec fn is_first_huntable(g: GridView, place: Location) -> bool {
    &&& g.in_bounds(place)
    &&& huntable(g, place)
    &&& forall|other: Location| g.in_bounds(other) && precedes(other, place) ==> !huntable(g, other)
}

/// The cell that the hunt finds: the first that is unvisited and has a visited
/// neighbour, if there is one.
pub open spec fn hunted(g: GridView) -> Option<Location> {
    if exists|place: Location| is_first_huntable(g, place) {
        Some(choose|place: Location| is_first_huntable(g, place))
    } else {
        None
    }
}

/// There is at most one first cell for the hunt to find.
pub proof fn lemma_first_huntable_unique(g: GridView, a: Location, b: Location)
    requires
        is_first_huntable(g, a),
        is_first_huntable(g, b),
    ensures
        a == b,
{
    if a != b {
        assert(precedes(a, b) || precedes(b, a));
    }
}

/// Those of `neighbours` that no passage has reached yet, in the same order.
pub fn get_unvisited_neighbours(neighbours: Vec<Location>, grid: &SmartGrid) -> (unvisited: Vec<
    Location,
>)
    requires
        grid@.has_dimensions(),
        forall|i: int| 0 <= i < neighbours@.len() ==> grid@.in_bounds(#[trigger] neighbours@[i]),
    ensures
        unvisited@ == neighbours@.filter(is_unvisited(grid@)),
{
    let mut unvisited: Vec<Location> = Vec::new();
    let mut i: usize = 0;
    proof {
        reveal(Seq::filter);
    }
    while i < neighbours.len()
        invariant
            i <= neighbours@.len(),
            grid@.has_dimensions(),
            forall|k: int| 0 <= k < neighbours@.len() ==> grid@.in_bounds(#[trigger] neighbours@[k]),
            unvisited@ == neighbours@.take(i as int).filter(is_unvisited(grid@)),
        decreases neighbours@.len() - i,
    {
        let place = neighbours[i];
        assert(grid@.cells[place.row as int].len() == grid@.columns);
        proof {
            reveal(Seq::filter);
            assert(neighbours@.take(i + 1).drop_last() == neighbours@.take(i as int));
        }
        if grid.cells[place.row][place.column].is_unlinked() {
            unvisited.push(place);
        }
        i += 1;
    }
    assert(neighbours@.take(neighbours@.len() as int) == neighbours@);
    unvisited
}

/// Those of `neighbours` that some passage has reached, in the same order.
pub fn get_visited_neighbours(neighbours: Vec<Location>, grid: &SmartGrid) -> (visited: Vec<
    Location,
>)
    requires
        grid@.has_dimensions(),
        forall|i: int| 0 <= i < neighbours@.len() ==> grid@.in_bounds(#[trigger] neighbours@[i]),
    ensures
        visited@ == neighbours@.filter(is_visited(grid@)),
{
    let mut visited: Vec<Location> = Vec::new();
    let mut i: usize = 0;
    proof {
        reveal(Seq::filter);
    }
    while i < neighbours.len()
        invariant
            i <= neighbours@.len(),
            grid@.has_dimensions(),
            forall|k: int| 0 <= k < neighbours@.len() ==> grid@.in_bounds(#[trigger] neighbours@[k]),
            visited@ == neighbours@.take(i as int).filter(is_visited(grid@)),
        decreases neighbours@.len() - i,
    {
        let place = neighbours[i];
        assert(grid@.cells[place.row as int].len() == grid@.columns);
        proof {
            reveal(Seq::filter);
            assert(neighbours@.take(i + 1).drop_last() == neighbours@.take(i as int));
        }
        if grid.cells[place.row][place.column].is_linked() {
            visited.push(place);
        }
        i += 1;
    }
    assert(neighbours@.take(neighbours@.len() as int) == neighbours@);
    visited
}

/// The first cell, reading the grid row by row, that is unvisited and has a
/// visited neighbour; `None` if there is no such cell.
pub fn hunt(grid: &SmartGrid) -> (found: Option<Location>)
    requires
        grid@.wf(),
    ensures
        found == hunted(grid@),
        found matches Some(place) ==> is_first_huntable(grid@, place),
        found is None ==> forall|other: Location| grid@.in_bounds(other) ==> !huntable(grid@, other),
{
    let mut r: usize = 0;
    while r < grid.rows
        invariant
            r <= grid.rows,
            grid@.wf(),
            forall|other: Location|
                grid@.in_bounds(other) && other.row < r ==> !huntable(grid@, other),
        decreases grid.rows - r,
    {
        let mut c: usize = 0;
        while c < grid.columns
            invariant
                r < grid.rows,
                c <= grid.columns,
                grid@.wf(),
                forall|other: Location|
                    grid@.in_bounds(other) && (other.row < r || (other.row == r && other.column < c))
                        ==> !huntable(grid@, other),
            decreases grid.columns - c,
        {
            let place = Location { row: r, column: c };
            proof {
                lemma_neighbours(grid@, place);
            }
            let cell = &grid.cells[r][c];
            if cell.is_unlinked() {
                let visited = get_visited_neighbours(cell.get_neighbours(), grid);
                if visited.len() > 0 {
                    proof {
                        assert(is_first_huntable(grid@, place));
                        lemma_first_huntable_unique(grid@, place, hunted(grid@)->0);
                    }
                    return Some(place);
                }
            }
            c += 1;
        }
        r += 1;
    }
    None
}

/// Whether `place` belongs to the tree: the root, or a cell with a parent.
pub open spec fn in_tree(parent: Map<Location, Location>, root: Location, place: Location) -> bool {
    place == root || parent.dom().contains(place)
}

/// The state of a maze that grows as one tree from `root`: the grid is valid
/// and oriented, two link entries stand for each parent edge, the visited
/// cells are the cells of the tree, and the root is visited as soon as any
/// cell is.
pub open spec fn growing(
    g: GridView,
    parent: Map<Location, Location>,
    rank: spec_fn(Location) -> nat,
    root: Location,
) -> bool {
    &&& g.wf()
    &&& oriented(g, parent, rank)
    &&& g.in_bounds(root)
    &&& !parent.dom().contains(root)
    &&& parent.dom().finite()
    &&& link_entries(g) == 2 * parent.dom().len()
    &&& forall|a: Location|
        g.in_bounds(a) && a != root && (#[trigger] g.cell(a)).links.len() > 0
            ==> parent.dom().contains(a)
    &&& g.cell(root).links.len() > 0 || forall|a: Location| !parent.dom().contains(a)
}

/// The rank that puts `child` one step above `elder` and leaves the others.
pub open spec fn raised(
    rank: spec_fn(Location) -> nat,
    child: Location,
    elder: Location,
) -> spec_fn(Location) -> nat {
    |place: Location|
        if place == child {
            rank(elder) + 1
        } else {
            rank(place)
        }
}

/// A passage between a cell of the tree and an unvisited neighbour makes the
/// tree grow by that neighbour.
pub proof fn lemma_grows(
    g: GridView,
    parent: Map<Location, Location>,
    rank: spec_fn(Location) -> nat,
    root: Location,
    source: Location,
    target: Location,
    child: Location,
    elder: Location,
)
    requires
        growing(g, parent, rank, root),
        g.in_bounds(source),
        g.in_bounds(target),
        adjacent(source, target),
        (child == source && elder == target) || (child == target && elder == source),
        g.cell(child).links.len() == 0,
        in_tree(parent, root, elder),
    ensures
        growing(
            g.with_passage(source, target),
            parent.insert(child, elder),
            raised(rank, child, elder),
            root,
        ),
        !parent.dom().contains(child),
        child != root,
        g.same_but_links(g.with_passage(source, target)),
{
    let new_rank = raised(rank, child, elder);
    lemma_with_passage(g, source, target);
    assert(!parent.dom().contains(child)) by {
        if parent.dom().contains(child) {
            assert(parent_edge(parent, child, parent[child]));
        }
    }
    assert forall|a: Location| #[trigger] parent.dom().contains(a) implies new_rank(parent[a])
        < new_rank(a) by {
        if parent[a] == child {
            assert(parent_edge(parent, child, a));
        }
    }
    lemma_passage_oriented(g, parent, rank, source, target, child, elder, new_rank);
}

/// Between a visited cell and an unvisited one, somewhere two cells lie side by
/// side of which the first is visited and the second is not.
pub proof fn lemma_frontier(g: GridView, a: Location, b: Location) -> (pair: (Location, Location))
    requires
        g.in_bounds(a),
        g.in_bounds(b),
        g.cell(a).links.len() > 0,
        g.cell(b).links.len() == 0,
    ensures
        g.in_bounds(pair.0),
        g.in_bounds(pair.1),
        adjacent(pair.0, pair.1),
        g.cell(pair.0).links.len() > 0,
        g.cell(pair.1).links.len() == 0,
    decreases steps_between(a, b),
{
    let step = if a.row < b.row {
        Location { row: (a.row + 1) as usize, column: a.column }
    } else if a.row > b.row {
        Location { row: (a.row - 1) as usize, column: a.column }
    } else if a.column < b.column {
        Location { row: a.row, column: (a.column + 1) as usize }
    } else {
        Location { row: a.row, column: (a.column - 1) as usize }
    };
    if g.cell(step).links.len() == 0 {
        (a, step)
    } else {
        lemma_frontier(g, step, b)
    }
}

/// A growing maze in which the walk is stuck and the hunt finds nothing spans
/// the whole grid, and so is a perfect maze.
pub proof fn lemma_grown(
    g: GridView,
    parent: Map<Location, Location>,
    rank: spec_fn(Location) -> nat,
    root: Location,
    current: Location,
)
    requires
        growing(g, parent, rank, root),
        g.in_bounds(current),
        in_tree(parent, root, current),
        g.cell(current).neighbours().filter(is_unvisited(g)).len() == 0,
        forall|other: Location| g.in_bounds(other) ==> !huntable(g, other),
    ensures
        spans(g, parent, root),
        is_perfect_maze(g),
{
    assert forall|u: Location| g.in_bounds(u) && u != root implies #[trigger] parent.dom().contains(
        u,
    ) by {
        if !parent.dom().contains(u) {
            if g.cell(root).links.len() > 0 {
                let (t, x) = lemma_frontier(g, root, u);
                lemma_neighbours(g, x);
                let around = g.cell(x).neighbours();
                assert(around.contains(t));
                let i = choose|i: int| 0 <= i < around.len() && around[i] == t;
                around.lemma_filter_contains(is_visited(g), i);
            } else {
                let nb = if root.row != u.row {
                    if root.row < u.row {
                        Location { row: (root.row + 1) as usize, column: root.column }
                    } else {
                        Location { row: (root.row - 1) as usize, column: root.column }
                    }
                } else if root.column < u.column {
                    Location { row: root.row, column: (root.column + 1) as usize }
                } else {
                    Location { row: root.row, column: (root.column - 1) as usize }
                };
                lemma_neighbours(g, root);
                let around = g.cell(root).neighbours();
                assert(around.contains(nb));
                let i = choose|i: int| 0 <= i < around.len() && around[i] == nb;
                around.lemma_filter_contains(is_unvisited(g), i);
            }
        }
    }
    lemma_spanning_tree(g, parent, rank, root);
}

/// A tree that is still growing has fewer parent edges than the grid has cells.
pub proof fn lemma_tree_size(
    g: GridView,
    parent: Map<Location, Location>,
    rank: spec_fn(Location) -> nat,
    root: Location,
)
    requires
        growing(g, parent, rank, root),
    ensures
        parent.dom().len() + 1 <= g.rows * g.columns,
        parent.dom().len() + 1 == g.rows * g.columns ==> spans(g, parent, root),
{
    lemma_cells_counted(g);
    let others = cells_of(g).remove(root);
    vstd::set_lib::lemma_len_subset(parent.dom(), others);
    if parent.dom().len() + 1 == g.rows * g.columns {
        vstd::set_lib::lemma_subset_equality(parent.dom(), others);
    }
}

/// A grid without passages, seen as a tree that has not begun to grow.
pub proof fn lemma_seed(g: GridView, root: Location)
    requires
        g.wf(),
        g.unlinked(),
        g.in_bounds(root),
    ensures
        growing(g, Map::empty(), |place: Location| 0nat, root),
{
    lemma_unlinked_entries(g);
}

/// In a grid of two cells or more, every cell has a neighbour.
pub proof fn lemma_has_neighbour(g: GridView, place: Location)
    requires
        g.wf(),
        g.in_bounds(place),
        g.rows * g.columns >= 2,
    ensures
        g.cell(place).neighbours().len() > 0,
{
    assert(g.rows >= 2 || g.columns >= 2) by (nonlinear_arith)
        requires
            g.rows * g.columns >= 2,
            g.rows >= 1,
            g.columns >= 1,
    ;
    let other = if g.rows >= 2 {
        if place.row > 0 {
            Location { row: (place.row - 1) as usize, column: place.column }
        } else {
            Location { row: (place.row + 1) as usize, column: place.column }
        }
    } else if place.column > 0 {
        Location { row: place.row, column: (place.column - 1) as usize }
    } else {
        Location { row: place.row, column: (place.column + 1) as usize }
    };
    lemma_neighbours(g, place);
    assert(g.cell(place).neighbours().contains(other));
}

/// How far a walk has come by following a script: the grid as it has been
/// carved, what is left of the script, and the cell the walk stands on.
pub struct Walk {
    pub grid: GridView,
    pub script: Seq<usize>,
    pub current: Location,
}

/// The cell that the first two numbers of the script pick to start from, a row
/// and a column, and what is left of the script; `None` if the script is too
/// short.
pub open spec fn started(g: GridView, script: Seq<usize>) -> Option<Walk> {
    if script.len() < 2 {
        None
    } else {
        Some(
            Walk {
                grid: g,
                script: script.skip(2),
                current: Location {
                    row: scaled(script[0], 0, (g.rows - 1) as usize),
                    column: scaled(script[1], 0, (g.columns - 1) as usize),
                },
            },
        )
    }
}

/// Where walking and hunting lead from a state, each passage carved as the
/// next number of the script has it: while the cell the walk stands on has
/// unvisited neighbours, the number picks one, a passage is carved to it, and
/// the walk moves there; otherwise the hunt finds a cell, the number picks one
/// of its visited neighbours, a passage is carved between them, and the walk
/// goes on from the cell that was found; where the hunt finds nothing, the
/// maze is done. `None` if the script runs out, or if more than `fuel`
/// passages would have to be carved.
pub open spec fn grown(led: Option<Walk>, fuel: nat) -> Option<Walk>
    decreases fuel,
{
    match led {
        None => None,
        Some(walk) => {
            let unvisited = walk.grid.cell(walk.current).neighbours().filter(
                is_unvisited(walk.grid),
            );
            if unvisited.len() > 0 {
                if fuel == 0 || walk.script.len() == 0 {
                    None
                } else {
                    let next = picked(unvisited, walk.script[0]);
                    grown(
                        Some(
                            Walk {
                                grid: walk.grid.with_passage(walk.current, next),
                                script: walk.script.drop_first(),
                                current: next,
                            },
                        ),
                        (fuel - 1) as nat,
                    )
                }
            } else {
                match hunted(walk.grid) {
                    None => led,
                    Some(found) => if fuel == 0 || walk.script.len() == 0 {
                        None
                    } else {
                        let visited = walk.grid.cell(found).neighbours().filter(
                            is_visited(walk.grid),
                        );
                        let elder = picked(visited, walk.script[0]);
                        grown(
                            Some(
                                Walk {
                                    grid: walk.grid.with_passage(found, elder),
                                    script: walk.script.drop_first(),
                                    current: found,
                                },
                            ),
                            (fuel - 1) as nat,
                        )
                    },
                }
            }
        },
    }
}

/// The maze and the script that a walk has ended with.
pub open spec fn ended(led: Option<Walk>) -> Option<Carved> {
    match led {
        None => None,
        Some(walk) => Some(Carved { grid: walk.grid, script: walk.script }),
    }
}

/// What hunt-and-kill makes of `g` by following `script`: the maze and what is
/// left of the script, or `None` if the script runs out.
pub open spec fn hunt_and_kill_following(g: GridView, script: Seq<usize>) -> Option<Carved> {
    ended(grown(started(g, script), (g.rows * g.columns) as nat))
}

/// How far a random walk has come: the walk, and the number of cells that it
/// has not visited yet.
pub struct Wander {
    pub walk: Walk,
    pub unvisited: nat,
}

/// Where a random walk of at most `steps` steps leads from a state, each step
/// taken as the next number of the script has it: the number picks a neighbour
/// of the cell the walk stands on; if that neighbour is unvisited, a passage is
/// carved to it; the walk moves there either way. The walk ends when no cell
/// is left unvisited. `None` if the script runs out.
pub open spec fn wandered(led: Option<Wander>, steps: nat) -> Option<Wander>
    decreases steps,
{
    match led {
        None => None,
        Some(wander) => if wander.unvisited == 0 || steps == 0 {
            led
        } else if wander.walk.script.len() == 0 {
            None
        } else {
            let walk = wander.walk;
            let next = picked(walk.grid.cell(walk.current).neighbours(), walk.script[0]);
            if walk.grid.cell(next).links.len() == 0 {
                wandered(
                    Some(
                        Wander {
                            walk: Walk {
                                grid: walk.grid.with_passage(walk.current, next),
                                script: walk.script.drop_first(),
                                current: next,
                            },
                            unvisited: (wander.unvisited - 1) as nat,
                        },
                    ),
                    (steps - 1) as nat,
                )
            } else {
                wandered(
                    Some(
                        Wander {
                            walk: Walk {
                                grid: walk.grid,
                                script: walk.script.drop_first(),
                                current: next,
                            },
                            unvisited: wander.unvisited,
                        },
                    ),
                    (steps - 1) as nat,
                )
            }
        },
    }
}

/// A walk that is about to begin, with every cell but the one it stands on
/// unvisited.
pub open spec fn setting_out(led: Option<Walk>) -> Option<Wander> {
    match led {
        None => None,
        Some(walk) => Some(
            Wander { walk, unvisited: (walk.grid.rows * walk.grid.columns - 1) as nat },
        ),
    }
}

/// What Aldous-Broder makes of `g` by following `script`, the walk given up
/// after `walk_limit` steps and the maze then finished by walking and hunting:
/// the maze and what is left of the script, or `None` if the script runs out.
pub open spec fn aldous_broder_following(
    g: GridView,
    script: Seq<usize>,
    walk_limit: nat,
) -> Option<Carved> {
    match wandered(setting_out(started(g, script)), walk_limit) {
        None => None,
        Some(wander) => if wander.unvisited > 0 {
            ended(grown(Some(wander.walk), (g.rows * g.columns) as nat))
        } else {
            ended(Some(wander.walk))
        },
    }
}

} // verus!
