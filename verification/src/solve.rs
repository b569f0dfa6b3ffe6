//! The solver: a breadth-first sweep over the passages that writes into every
//! cell it reaches the least number of passages that lead to it from the
//! origin.

use vstd::prelude::*;
use crate::distance::{
    hops_from, lemma_hops_unique, lemma_joined_within, lemma_sweep_complete,
    lemma_walk_ends_inside, lemma_within_back, lemma_within_more, lemma_within_step,
    lemma_within_zero, within,
};
use crate::graph::{
    cells_of, is_cycle, is_perfect_maze, joined, lemma_cells_counted,
    lemma_same_links_same_entries, walk_between,
};
use crate::grid::{GridView, MazeError, SmartGrid};
use crate::location::Location;

verus! {

/// Whether `solved` differs from `g` in the distances of its cells at most.
pub open spec fn relabelled(g: GridView, solved: GridView) -> bool {
    &&& solved.rows == g.rows
    &&& solved.columns == g.columns
    &&& solved.max_distance == g.max_distance
    &&& solved.has_dimensions()
    &&& forall|place: Location|
        g.in_bounds(place) ==> (#[trigger] solved.cell(place)) == g.cell(place).with_distance(
            solved.cell(place).distance,
        )
}

/// What solving `g` from `origin` gives: every cell that can be reached holds
/// the least number of passages that lead to it, every other cell holds the
/// distance it held before, and nothing else has changed.
pub open spec fn is_solution(g: GridView, origin: Location, solved: GridView) -> bool {
    &&& relabelled(g, solved)
    &&& forall|place: Location|
        g.in_bounds(place) && joined(g, origin, place) ==> hops_from(
            g,
            origin,
            place,
            (#[trigger] solved.cell(place)).distance as nat,
        )
    &&& forall|place: Location|
        g.in_bounds(place) && !joined(g, origin, place) ==> (#[trigger] solved.cell(
            place,
        )).distance == g.cell(place).distance
}

/// A grid whose distances were rewritten has the passages it had: what was
/// valid is valid, and a perfect maze is a perfect maze still.
pub proof fn lemma_relabelled_keeps(g: GridView, solved: GridView)
    requires
        g.has_dimensions(),
        relabelled(g, solved),
    ensures
        forall|a: Location, b: Location| #[trigger] solved.linked(a, b) == g.linked(a, b),
        g.wf() ==> solved.wf(),
        is_perfect_maze(g) ==> is_perfect_maze(solved),
{
    assert forall|a: Location, b: Location| #[trigger] solved.linked(a, b) == g.linked(a, b) by {}
    if is_perfect_maze(g) {
        assert forall|a: Location, b: Location|
            solved.in_bounds(a) && solved.in_bounds(b) implies #[trigger] joined(solved, a, b) by {
            assert(joined(g, a, b));
            let path = choose|path: Seq<Location>| walk_between(g, path, a, b);
            assert(walk_between(solved, path, a, b));
        }
        assert forall|cycle: Seq<Location>| !is_cycle(solved, cycle) by {
            if is_cycle(solved, cycle) {
                assert(is_cycle(g, cycle));
            }
        }
        lemma_same_links_same_entries(g, solved);
    }
}

/// In a solved perfect maze every cell holds the least number of passages
/// that lead to it from the origin: none is left out.
pub proof fn lemma_perfect_maze_fully_solved(
    g: GridView,
    origin: Location,
    solved: GridView,
    place: Location,
)
    requires
        is_perfect_maze(g),
        is_solution(g, origin, solved),
        g.in_bounds(origin),
        g.in_bounds(place),
    ensures
        hops_from(g, origin, place, solved.cell(place).distance as nat),
{
}

/// Solving twice from the same origin gives what solving once gives.
pub proof fn lemma_solve_idempotent(g: GridView, origin: Location, once: GridView, twice: GridView)
    requires
        g.has_dimensions(),
        is_solution(g, origin, once),
        is_solution(once, origin, twice),
    ensures
        twice == once,
{
    assert forall|place: Location, hops: nat|
        within(once, origin, place, hops) == within(g, origin, place, hops) by {
        if within(once, origin, place, hops) {
            let path = choose|path: Seq<Location>| #[trigger]
                walk_between(once, path, origin, place) && path.len() <= hops + 1;
            assert(walk_between(g, path, origin, place) && path.len() <= hops + 1);
        }
        if within(g, origin, place, hops) {
            let path = choose|path: Seq<Location>| #[trigger]
                walk_between(g, path, origin, place) && path.len() <= hops + 1;
            assert(walk_between(once, path, origin, place) && path.len() <= hops + 1);
        }
    }
    assert forall|place: Location| g.in_bounds(place) implies #[trigger] twice.cell(place)
        == once.cell(place) by {
        if joined(once, origin, place) {
            let path = choose|path: Seq<Location>| walk_between(once, path, origin, place);
            let first = once.cell(place).distance as nat;
            let second = twice.cell(place).distance as nat;
            lemma_hops_unique(g, origin, place, first, second);
        }
    }
    assert(twice.cells =~~= once.cells) by {
        assert forall|r: int, c: int|
            0 <= r < once.cells.len() && 0 <= c < once.cells[r].len() implies twice.cells[r][c]
            == once.cells[r][c] by {
            let place = Location { row: r as usize, column: c as usize };
            assert(twice.cell(place) == once.cell(place));
        }
    }
}

/// Which cells hold their final distance while the sweep works on the cells
/// first reached over `level` passages: those reached over fewer, and those of
/// `extra`. Every other cell holds the distance it held before.
pub open spec fn labelled(
    g: GridView,
    origin: Location,
    s: GridView,
    level: nat,
    extra: Seq<Location>,
) -> bool {
    forall|place: Location|
        g.in_bounds(place) ==> if (level >= 1 && within(g, origin, place, (level - 1) as nat))
            || extra.contains(place) {
            hops_from(g, origin, place, (#[trigger] s.cell(place)).distance as nat)
        } else {
            s.cell(place).distance == g.cell(place).distance
        }
}

/// The state between two sweeps: `seen` holds the cells reached over `level`
/// passages or fewer, `frontier` those first reached over exactly `level`, and
/// the cells reached over fewer hold their final distance.
pub open spec fn level_state(
    g: GridView,
    origin: Location,
    s: GridView,
    seen: Set<Location>,
    frontier: Seq<Location>,
    level: nat,
) -> bool {
    &&& g.wf()
    &&& g.in_bounds(origin)
    &&& relabelled(g, s)
    &&& seen.finite()
    &&& forall|place: Location| #[trigger]
        seen.contains(place) <==> g.in_bounds(place) && within(g, origin, place, level)
    &&& frontier.no_duplicates()
    &&& forall|place: Location| #[trigger]
        frontier.contains(place) <==> g.in_bounds(place) && hops_from(g, origin, place, level)
    &&& labelled(g, origin, s, level, Seq::empty())
    &&& level <= seen.len()
    &&& frontier.len() > 0 ==> level < seen.len()
}

/// The state within a sweep: the first `marked` cells of the frontier hold
/// their distance, the links of the first `scanned` have been followed, and
/// `next` holds the cells that were discovered on the way.
pub open spec fn sweep_state(
    g: GridView,
    origin: Location,
    s: GridView,
    base: Set<Location>,
    seen: Set<Location>,
    frontier: Seq<Location>,
    level: nat,
    marked: int,
    scanned: int,
    next: Seq<Location>,
) -> bool {
    &&& g.wf()
    &&& g.in_bounds(origin)
    &&& relabelled(g, s)
    &&& base.finite()
    &&& forall|place: Location| #[trigger]
        base.contains(place) <==> g.in_bounds(place) && within(g, origin, place, level)
    &&& frontier.no_duplicates()
    &&& forall|place: Location| #[trigger]
        frontier.contains(place) <==> g.in_bounds(place) && hops_from(g, origin, place, level)
    &&& 0 <= scanned <= marked <= frontier.len()
    &&& labelled(g, origin, s, level, frontier.take(marked))
    &&& seen.finite()
    &&& seen.len() == base.len() + next.len()
    &&& forall|place: Location| #[trigger]
        seen.contains(place) <==> base.contains(place) || next.contains(place)
    &&& next.no_duplicates()
    &&& forall|place: Location| #[trigger]
        next.contains(place) ==> g.in_bounds(place) && !within(g, origin, place, level) && within(
            g,
            origin,
            place,
            level + 1,
        )
    &&& forall|k: int, b: Location|
        0 <= k < scanned && #[trigger] g.linked(frontier[k], b) ==> seen.contains(b)
    &&& level < base.len()
}

/// Whether the marks of `visited` are the cells of `seen`.
pub open spec fn marks(visited: Vec<Vec<bool>>, g: GridView, seen: Set<Location>) -> bool {
    &&& visited@.len() == g.rows
    &&& forall|r: int| 0 <= r < g.rows ==> (#[trigger] visited@[r])@.len() == g.columns
    &&& forall|place: Location|
        g.in_bounds(place) ==> (visited@[place.row as int]@[place.column as int]
            <==> #[trigger] seen.contains(place))
}

/// Before the first sweep only the origin has been reached.
proof fn lemma_solve_begins(g: GridView, origin: Location)
    requires
        g.wf(),
        g.in_bounds(origin),
    ensures
        level_state(g, origin, g, set![origin], seq![origin], 0),
{
    lemma_within_zero(g, origin, origin);
    assert forall|place: Location| #[trigger]
        set![origin].contains(place) <==> g.in_bounds(place) && within(g, origin, place, 0) by {
        lemma_within_zero(g, origin, place);
    }
    assert forall|place: Location| #[trigger]
        seq![origin].contains(place) <==> g.in_bounds(place) && hops_from(g, origin, place, 0) by {
        lemma_within_zero(g, origin, place);
        if place == origin {
            assert(seq![origin][0] == place);
        }
    }
}

/// A sweep begins with nothing marked, nothing scanned and nothing discovered.
proof fn lemma_sweep_begins(
    g: GridView,
    origin: Location,
    s: GridView,
    seen: Set<Location>,
    frontier: Seq<Location>,
    level: nat,
)
    requires
        level_state(g, origin, s, seen, frontier, level),
        frontier.len() > 0,
    ensures
        sweep_state(g, origin, s, seen, seen, frontier, level, 0, 0, Seq::empty()),
{
}

/// Writing the level into the next cell of the frontier marks it.
proof fn lemma_sweep_marks(
    g: GridView,
    origin: Location,
    s: GridView,
    base: Set<Location>,
    seen: Set<Location>,
    frontier: Seq<Location>,
    level: nat,
    marked: int,
    next: Seq<Location>,
)
    requires
        sweep_state(g, origin, s, base, seen, frontier, level, marked, marked, next),
        marked < frontier.len(),
        level <= usize::MAX,
    ensures
        g.in_bounds(frontier[marked]),
        sweep_state(
            g,
            origin,
            s.with_cell(frontier[marked], s.cell(frontier[marked]).with_distance(level as usize)),
            base,
            seen,
            frontier,
            level,
            marked + 1,
            marked,
            next,
        ),
{
    let place = frontier[marked];
    assert(frontier.contains(place));
    let t = s.with_cell(place, s.cell(place).with_distance(level as usize));
    assert forall|other: Location| g.in_bounds(other) implies (#[trigger] t.cell(other)) == g.cell(
        other,
    ).with_distance(t.cell(other).distance) by {
        assert(s.cell(other) == g.cell(other).with_distance(s.cell(other).distance));
    }
    let before = frontier.take(marked);
    let after = frontier.take(marked + 1);
    assert forall|other: Location| g.in_bounds(other) implies if (level >= 1 && within(
        g,
        origin,
        other,
        (level - 1) as nat,
    )) || after.contains(other) {
        hops_from(g, origin, other, (#[trigger] t.cell(other)).distance as nat)
    } else {
        t.cell(other).distance == g.cell(other).distance
    } by {
        if other == place {
            assert(after[marked] == place);
        } else {
            assert(t.cell(other) == s.cell(other));
            if after.contains(other) {
                let k = choose|k: int| 0 <= k < after.len() && after[k] == other;
                assert(before[k] == other);
            }
            if before.contains(other) {
                let k = choose|k: int| 0 <= k < before.len() && before[k] == other;
                assert(after[k] == other);
            }
        }
    }
}

/// Following a link of the cell being scanned into a cell not seen before
/// discovers that cell.
proof fn lemma_sweep_discovers(
    g: GridView,
    origin: Location,
    s: GridView,
    base: Set<Location>,
    seen: Set<Location>,
    frontier: Seq<Location>,
    level: nat,
    scanned: int,
    next: Seq<Location>,
    found: Location,
)
    requires
        sweep_state(g, origin, s, base, seen, frontier, level, scanned + 1, scanned, next),
        g.linked(frontier[scanned], found),
        !seen.contains(found),
    ensures
        sweep_state(
            g,
            origin,
            s,
            base,
            seen.insert(found),
            frontier,
            level,
            scanned + 1,
            scanned,
            next.push(found),
        ),
{
    let from = frontier[scanned];
    assert(frontier.contains(from));
    lemma_within_step(g, origin, from, found, level);
    let more = next.push(found);
    assert forall|place: Location| #[trigger] more.contains(place) <==> next.contains(place)
        || place == found by {
        if next.contains(place) {
            let k = choose|k: int| 0 <= k < next.len() && next[k] == place;
            assert(more[k] == place);
        }
        assert(more[next.len() as int] == found);
    }
}

/// Once every link of the cell being scanned leads to a cell that has been
/// seen, the cell is scanned.
proof fn lemma_sweep_scanned(
    g: GridView,
    origin: Location,
    s: GridView,
    base: Set<Location>,
    seen: Set<Location>,
    frontier: Seq<Location>,
    level: nat,
    scanned: int,
    next: Seq<Location>,
)
    requires
        sweep_state(g, origin, s, base, seen, frontier, level, scanned + 1, scanned, next),
        forall|j: int|
            0 <= j < g.cell(frontier[scanned]).links.len() ==> seen.contains(
                #[trigger] g.cell(frontier[scanned]).links[j],
            ),
    ensures
        sweep_state(g, origin, s, base, seen, frontier, level, scanned + 1, scanned + 1, next),
{
}

/// When the whole frontier is scanned, the cells discovered are the next
/// frontier.
proof fn lemma_sweep_ends(
    g: GridView,
    origin: Location,
    s: GridView,
    base: Set<Location>,
    seen: Set<Location>,
    frontier: Seq<Location>,
    level: nat,
    next: Seq<Location>,
)
    requires
        sweep_state(
            g,
            origin,
            s,
            base,
            seen,
            frontier,
            level,
            frontier.len() as int,
            frontier.len() as int,
            next,
        ),
    ensures
        level_state(g, origin, s, seen, next, level + 1),
{
    assert forall|place: Location| #[trigger]
        seen.contains(place) <==> g.in_bounds(place) && within(g, origin, place, level + 1) by {
        if base.contains(place) {
            lemma_within_more(g, origin, place, level, level + 1);
        }
        if g.in_bounds(place) && within(g, origin, place, level + 1) && !within(
            g,
            origin,
            place,
            level,
        ) {
            let a = lemma_within_back(g, origin, place, level);
            lemma_walk_ends_inside(g, origin, a, level);
            assert(frontier.contains(a));
            let k = choose|k: int| 0 <= k < frontier.len() && frontier[k] == a;
            assert(g.linked(frontier[k], place));
        }
    }
    assert forall|place: Location| #[trigger]
        next.contains(place) <==> g.in_bounds(place) && hops_from(g, origin, place, level + 1) by {
        if g.in_bounds(place) && hops_from(g, origin, place, level + 1) {
            assert(seen.contains(place));
        }
    }
    assert(frontier.take(frontier.len() as int) == frontier);
    assert forall|place: Location| g.in_bounds(place) implies if within(g, origin, place, level) {
        hops_from(g, origin, place, (#[trigger] s.cell(place)).distance as nat)
    } else {
        s.cell(place).distance == g.cell(place).distance
    } by {
        if level >= 1 && within(g, origin, place, (level - 1) as nat) {
            lemma_within_more(g, origin, place, (level - 1) as nat, level);
        }
    }
}

/// When a sweep discovers nothing, the grid is solved.
proof fn lemma_solved(
    g: GridView,
    origin: Location,
    s: GridView,
    seen: Set<Location>,
    level: nat,
)
    requires
        level_state(g, origin, s, seen, Seq::empty(), level),
    ensures
        is_solution(g, origin, s),
{
    let none = Seq::<Location>::empty();
    assert(level >= 1) by {
        if level == 0 {
            lemma_within_zero(g, origin, origin);
            assert(none.contains(origin));
        }
    }
    assert forall|other: Location| g.in_bounds(other) implies !hops_from(g, origin, other, level) by {
        assert(!none.contains(other));
    }
    assert forall|place: Location| g.in_bounds(place) && joined(g, origin, place) implies hops_from(
        g,
        origin,
        place,
        (#[trigger] s.cell(place)).distance as nat,
    ) by {
        lemma_joined_within(g, origin, place);
        let hops = choose|hops: nat| within(g, origin, place, hops);
        lemma_sweep_complete(g, origin, level, place, hops);
    }
    assert forall|place: Location|
        g.in_bounds(place) && !joined(g, origin, place) implies (#[trigger] s.cell(place)).distance
        == g.cell(place).distance by {
        lemma_joined_within(g, origin, place);
    }
}

/// The cells that have been seen are cells of the grid.
proof fn lemma_seen_counted(g: GridView, origin: Location, seen: Set<Location>, level: nat)
    requires
        seen.finite(),
        forall|place: Location| #[trigger]
            seen.contains(place) <==> g.in_bounds(place) && within(g, origin, place, level),
    ensures
        seen.len() <= g.rows * g.columns,
{
    lemma_cells_counted(g);
    vstd::set_lib::lemma_len_subset(seen, cells_of(g));
}

/// A measure that falls with every sweep: a sweep either sees a new cell or
/// leaves the frontier empty.
spec fn sweeps_left(g: GridView, seen: Set<Location>, frontier: Seq<Location>) -> int {
    let unseen = g.rows * g.columns - seen.len();
    if frontier.len() > 0 {
        2 * unseen + 1
    } else {
        2 * unseen
    }
}

/// A matrix of `rows` by `columns` marks, none of them set.
fn unmarked(rows: usize, columns: usize) -> (visited: Vec<Vec<bool>>)
    ensures
        visited@.len() == rows,
        forall|r: int| 0 <= r < rows ==> (#[trigger] visited@[r])@.len() == columns,
        forall|r: int, c: int| 0 <= r < rows && 0 <= c < columns ==> !visited@[r]@[c],
{
    let mut visited: Vec<Vec<bool>> = Vec::new();
    let mut r: usize = 0;
    while r < rows
        invariant
            r <= rows,
            visited@.len() == r,
            forall|i: int| 0 <= i < r ==> (#[trigger] visited@[i])@.len() == columns,
            forall|i: int, c: int| 0 <= i < r && 0 <= c < columns ==> !visited@[i]@[c],
        decreases rows - r,
    {
        let mut row: Vec<bool> = Vec::new();
        let mut c: usize = 0;
        while c < columns
            invariant
                c <= columns,
                row@.len() == c,
                forall|j: int| 0 <= j < c ==> !row@[j],
            decreases columns - c,
        {
            row.push(false);
            c += 1;
        }
        visited.push(row);
        r += 1;
    }
    visited
}

/// Sets the mark of `place`.
fn mark(
    visited: &mut Vec<Vec<bool>>,
    place: Location,
    Ghost(g): Ghost<GridView>,
    Ghost(seen): Ghost<Set<Location>>,
)
    requires
        marks(*old(visited), g, seen),
        g.in_bounds(place),
    ensures
        marks(*final(visited), g, seen.insert(place)),
{
    visited[place.row][place.column] = true;
}

/// Solves the grid from `origin`: every cell that the passages join to
/// `origin` gets the least number of passages that lead to it as its distance;
/// every other cell keeps the distance it had. `InvalidOrigin` if `origin` is
/// not a cell of the grid.
pub fn solve(grid: SmartGrid, origin: Location) -> (solved: Result<SmartGrid, MazeError>)
    requires
        grid@.wf(),
    ensures
        !grid@.in_bounds(origin) <==> solved is Err,
        solved matches Err(error) ==> error == MazeError::InvalidOrigin,
        solved matches Ok(maze) ==> is_solution(grid@, origin, maze@) && maze@.wf(),
{
    if origin.row >= grid.rows || origin.column >= grid.columns {
        return Err(MazeError::InvalidOrigin);
    }
    let ghost g = grid@;
    let mut grid = grid;
    let mut distance: usize = 0;
    let mut frontier: Vec<Location> = Vec::new();
    frontier.push(origin);
    let mut visited = unmarked(grid.rows, grid.columns);
    let ghost mut seen = Set::<Location>::empty();
    mark(&mut visited, origin, Ghost(g), Ghost(seen));
    proof {
        seen = seen.insert(origin);
        lemma_solve_begins(g, origin);
    }
    while frontier.len() > 0
        invariant
            level_state(g, origin, grid@, seen, frontier@, distance as nat),
            marks(visited, g, seen),
        decreases sweeps_left(g, seen, frontier@),
    {
        let ghost base = seen;
        let mut next_frontier: Vec<Location> = Vec::new();
        proof {
            lemma_seen_counted(g, origin, seen, distance as nat);
            lemma_sweep_begins(g, origin, grid@, seen, frontier@, distance as nat);
        }
        let mut i: usize = 0;
        while i < frontier.len()
            invariant
                i <= frontier@.len(),
                sweep_state(
                    g,
                    origin,
                    grid@,
                    base,
                    seen,
                    frontier@,
                    distance as nat,
                    i as int,
                    i as int,
                    next_frontier@,
                ),
                marks(visited, g, seen),
            decreases frontier@.len() - i,
        {
            let location = frontier[i];
            proof {
                lemma_sweep_marks(
                    g,
                    origin,
                    grid@,
                    base,
                    seen,
                    frontier@,
                    distance as nat,
                    i as int,
                    next_frontier@,
                );
            }
            grid.set_distance(location, distance);
            assert(grid@.cell(location) == g.cell(location).with_distance(
                grid@.cell(location).distance,
            ));
            let count = grid.cells[location.row][location.column].links.len();
            let mut j: usize = 0;
            while j < count
                invariant
                    i < frontier@.len(),
                    location == frontier@[i as int],
                    g.in_bounds(location),
                    j <= count,
                    count == g.cell(location).links.len(),
                    sweep_state(
                        g,
                        origin,
                        grid@,
                        base,
                        seen,
                        frontier@,
                        distance as nat,
                        i + 1,
                        i as int,
                        next_frontier@,
                    ),
                    marks(visited, g, seen),
                    forall|k: int| 0 <= k < j ==> seen.contains(#[trigger] g.cell(location).links[k]),
                decreases count - j,
            {
                assert(grid@.cell(location) == g.cell(location).with_distance(
                    grid@.cell(location).distance,
                ));
                let linked = grid.cells[location.row][location.column].links[j];
                assert(g.linked(location, linked));
                if !visited[linked.row][linked.column] {
                    proof {
                        lemma_sweep_discovers(
                            g,
                            origin,
                            grid@,
                            base,
                            seen,
                            frontier@,
                            distance as nat,
                            i as int,
                            next_frontier@,
                            linked,
                        );
                    }
                    mark(&mut visited, linked, Ghost(g), Ghost(seen));
                    next_frontier.push(linked);
                    proof {
                        seen = seen.insert(linked);
                    }
                }
                j += 1;
            }
            proof {
                lemma_sweep_scanned(
                    g,
                    origin,
                    grid@,
                    base,
                    seen,
                    frontier@,
                    distance as nat,
                    i as int,
                    next_frontier@,
                );
            }
            i += 1;
        }
        proof {
            lemma_sweep_ends(
                g,
                origin,
                grid@,
                base,
                seen,
                frontier@,
                distance as nat,
                next_frontier@,
            );
            lemma_seen_counted(g, origin, seen, (distance + 1) as nat);
        }
        frontier = next_frontier;
        distance += 1;
    }
    proof {
        assert(frontier@ =~= Seq::empty());
        lemma_solved(g, origin, grid@, seen, distance as nat);
        lemma_relabelled_keeps(g, grid@);
    }
    Ok(grid)
}

/// Solves the grid from its north-west corner.
pub fn dijkstra_simplified_solver(grid: SmartGrid) -> (solved: SmartGrid)
    requires
        grid@.wf(),
    ensures
        is_solution(grid@, Location { row: 0, column: 0 }, solved@),
        solved@.wf(),
{
    let start_location = Location { row: 0, column: 0 };
    solve(grid, start_location).unwrap()
}

} // verus!
