//! What the sidewinder leaves behind, and why it is a perfect maze: the top row
//! is one corridor, and below it every run hangs on the row above by the one
//! passage that a member of the run carved north. Also what the sidewinder
//! makes of a script, cell by cell.

use vstd::prelude::*;
use crate::binary_tree_state::corner_rank;
use crate::graph::{is_perfect_maze, lemma_with_passage, link_entries};
use crate::grid::{configure_cell, GridView};
use crate::growth::{lemma_seed, raised};
use crate::orientation::{
    lemma_passage_oriented, lemma_spanning_tree, oriented, parent_edge, spans,
};
use crate::location::{adjacent, Direction, Location};
use crate::random::{picked, scaled, Carved};

verus! {

/// The location east of `place`.
pub open spec fn east_of(place: Location) -> Location {
    Location { row: place.row, column: (place.column + 1) as usize }
}

/// The location west of `place`.
pub open spec fn west_of(place: Location) -> Location {
    Location { row: place.row, column: (place.column - 1) as usize }
}

/// The location north of `place`.
pub open spec fn north_of(place: Location) -> Location {
    Location { row: (place.row - 1) as usize, column: place.column }
}

/// Every cell of the top row is linked to the next: the top row is one
/// corridor.
pub open spec fn top_row_open(g: GridView) -> bool {
    forall|place: Location|
        g.in_bounds(place) && place.row == 0 && place.column + 1 < g.columns ==> #[trigger] g.linked(
            place,
            east_of(place),
        )
}

/// Whether the sidewinder is done with `place` when it works on `row` and the
/// run that is open there began at column `start`.
pub open spec fn closed_before(place: Location, row: usize, start: usize) -> bool {
    place.row < row || (place.row == row && place.column < start)
}

/// The state of the sidewinder before it visits the cell at `row`, `column`,
/// with the open run beginning at column `start`.
///
/// In the top row every visited cell has its eastern neighbour as its parent.
/// Below, the cells of closed runs lead to the rows above; the open run is a
/// chain that hangs from its first cell, which has no parent yet.
pub open spec fn sidewinder_upto(
    g: GridView,
    parent: Map<Location, Location>,
    rank: spec_fn(Location) -> nat,
    base: nat,
    row: usize,
    column: usize,
    start: usize,
) -> bool {
    let root = Location { row: 0, column: (g.columns - 1) as usize };
    &&& g.wf()
    &&& oriented(g, parent, rank)
    &&& parent.dom().finite()
    &&& link_entries(g) == 2 * parent.dom().len()
    &&& start <= column <= g.columns
    &&& row == 0 ==> start == 0
    &&& forall|place: Location| #[trigger]
        parent.dom().contains(place) <==> g.in_bounds(place) && place != root && (place.row < row
            || (place.row == row && if row == 0 {
            place.column < column
        } else {
            place.column <= column && place.column != start
        }))
    &&& forall|place: Location| #[trigger]
        parent.dom().contains(place) ==> {
            &&& place.row == 0 ==> parent[place] == east_of(place)
            &&& place.row >= 1 && closed_before(place, row, start) ==> closed_before(
                parent[place],
                row,
                start,
            )
            &&& place.row >= 1 && !closed_before(place, row, start) ==> parent[place] == west_of(
                place,
            )
        }
    &&& forall|place: Location|
        g.in_bounds(place) && (place.row == 0 || closed_before(place, row, start)) ==> #[trigger] rank(
            place,
        ) < base
    &&& forall|place: Location|
        g.in_bounds(place) && place.row == 0 ==> #[trigger] rank(place) == g.columns - place.column
}

/// A grid without passages is the state in which the sidewinder begins.
pub proof fn lemma_sidewinder_begins(g: GridView)
    requires
        g.wf(),
        g.unlinked(),
    ensures
        sidewinder_upto(
            g,
            Map::empty(),
            corner_rank(g.columns),
            (g.rows + g.columns + 1) as nat,
            0,
            0,
            0,
        ),
{
    lemma_seed(g, Location { row: 0, column: 0 });
}

/// In the top row, carving east from the cell at `column` takes the sidewinder
/// one cell further.
pub proof fn lemma_sidewinder_top(
    g: GridView,
    parent: Map<Location, Location>,
    rank: spec_fn(Location) -> nat,
    base: nat,
    column: usize,
)
    requires
        sidewinder_upto(g, parent, rank, base, 0, column, 0),
        column + 1 < g.columns,
    ensures
        sidewinder_upto(
            g.with_passage(Location { row: 0, column }, east_of(Location { row: 0, column })),
            parent.insert(Location { row: 0, column }, east_of(Location { row: 0, column })),
            rank,
            base,
            0,
            (column + 1) as usize,
            0,
        ),
        g.same_but_links(
            g.with_passage(Location { row: 0, column }, east_of(Location { row: 0, column })),
        ),
{
    let place = Location { row: 0, column };
    let target = east_of(place);
    lemma_with_passage(g, place, target);
    lemma_passage_oriented(g, parent, rank, place, target, place, target, rank);
}

/// Below the top row, carving east from the cell at `column` makes the open run
/// one cell longer.
pub proof fn lemma_sidewinder_extends(
    g: GridView,
    parent: Map<Location, Location>,
    rank: spec_fn(Location) -> nat,
    base: nat,
    row: usize,
    column: usize,
    start: usize,
)
    requires
        sidewinder_upto(g, parent, rank, base, row, column, start),
        1 <= row < g.rows,
        column + 1 < g.columns,
    ensures
        sidewinder_upto(
            g.with_passage(Location { row, column }, east_of(Location { row, column })),
            parent.insert(east_of(Location { row, column }), Location { row, column }),
            raised(rank, east_of(Location { row, column }), Location { row, column }),
            base,
            row,
            (column + 1) as usize,
            start,
        ),
        g.same_but_links(g.with_passage(Location { row, column }, east_of(Location { row, column }))),
{
    let place = Location { row, column };
    let target = east_of(place);
    let new_rank = raised(rank, target, place);
    lemma_with_passage(g, place, target);
    lemma_passage_oriented(g, parent, rank, place, target, target, place, new_rank);
}

/// The parents after the open run, from column `start` to column `column`, is
/// closed by a passage from its member at column `member` to the north: the
/// cells west of the member now lead east to it, the member leads north, and
/// the cells east of it lead west as before.
pub open spec fn closed_parents(
    parent: Map<Location, Location>,
    row: usize,
    start: usize,
    member: usize,
) -> Map<Location, Location> {
    Map::new(
        |place: Location| parent.dom().contains(place) || place == (Location { row, column: start }),
        |place: Location|
            if place.row == row && start <= place.column < member {
                east_of(place)
            } else if place.row == row && place.column == member {
                north_of(place)
            } else {
                parent[place]
            },
    )
}

/// The ranks after the open run is closed: the member stands at `base`, and
/// every other cell of the run stands above it by its distance from the member.
pub open spec fn closed_ranks(
    rank: spec_fn(Location) -> nat,
    base: nat,
    row: usize,
    start: usize,
    column: usize,
    member: usize,
) -> spec_fn(Location) -> nat {
    |place: Location|
        if place.row == row && start <= place.column <= column {
            if place.column <= member {
                (base + member - place.column) as nat
            } else {
                (base + place.column - member) as nat
            }
        } else {
            rank(place)
        }
}

/// Closing the open run by a passage from one of its members to the north
/// hangs the whole run on the rows above.
pub proof fn lemma_sidewinder_closes(
    g: GridView,
    parent: Map<Location, Location>,
    rank: spec_fn(Location) -> nat,
    base: nat,
    row: usize,
    column: usize,
    start: usize,
    member: usize,
)
    requires
        sidewinder_upto(g, parent, rank, base, row, column, start),
        1 <= row < g.rows,
        column < g.columns,
        start <= member <= column,
    ensures
        sidewinder_upto(
            g.with_passage(Location { row, column: member }, north_of(Location { row, column: member })),
            closed_parents(parent, row, start, member),
            closed_ranks(rank, base, row, start, column, member),
            (base + g.columns + 1) as nat,
            row,
            (column + 1) as usize,
            (column + 1) as usize,
        ),
        g.same_but_links(
            g.with_passage(Location { row, column: member }, north_of(Location { row, column: member })),
        ),
{
    let first = Location { row, column: start };
    let chosen = Location { row, column: member };
    let north = north_of(chosen);
    let h = g.with_passage(chosen, north);
    let grown = closed_parents(parent, row, start, member);
    lemma_with_passage(g, chosen, north);
    assert(grown.dom() =~= parent.dom().insert(first));
    assert forall|a: Location, b: Location|
        #![trigger h.linked(a, b)]
        #![trigger parent_edge(grown, a, b)]
        h.linked(a, b) <==> parent_edge(grown, a, b) by {
        lemma_reversed_edge(parent, grown, row, start, member, a, b);
        lemma_reversed_edge(parent, grown, row, start, member, b, a);
    }
}

/// What one direction of a parent edge becomes when the run is closed.
proof fn lemma_reversed_edge(
    parent: Map<Location, Location>,
    grown: Map<Location, Location>,
    row: usize,
    start: usize,
    member: usize,
    a: Location,
    b: Location,
)
    requires
        grown == closed_parents(parent, row, start, member),
        row >= 1,
        start <= member,
        !parent.dom().contains(Location { row, column: start }),
        forall|place: Location| #[trigger]
            parent.dom().contains(place) && place.row == row && place.column > start
                ==> parent[place] == west_of(place),
        forall|place: Location| #[trigger]
            parent.dom().contains(place) && !(place.row == row && place.column >= start)
                ==> !(parent[place].row == row && parent[place].column >= start),
        forall|place: Location|
            place.row == row && start < place.column <= member ==> #[trigger] parent.dom().contains(
                place,
            ),
    ensures
        grown.dom().contains(a) && grown[a] == b ==> parent_edge(parent, a, b) || (a == (Location {
            row,
            column: member,
        }) && b == north_of(a)),
        parent.dom().contains(a) && parent[a] == b ==> parent_edge(grown, a, b),
{
    if grown.dom().contains(a) && grown[a] == b {
        if a.row == row && start <= a.column < member {
            assert(parent.dom().contains(b));
        }
    }
}

/// With a row done, the sidewinder stands before the first cell of the next.
pub proof fn lemma_sidewinder_next_row(
    g: GridView,
    parent: Map<Location, Location>,
    rank: spec_fn(Location) -> nat,
    base: nat,
    row: usize,
    start: usize,
)
    requires
        sidewinder_upto(g, parent, rank, base, row, g.columns, start),
        row < g.rows,
        row >= 1 ==> start == g.columns,
    ensures
        sidewinder_upto(g, parent, rank, base, (row + 1) as usize, 0, 0),
{
}

/// Once every row is done, the maze is perfect and its top row is one corridor.
pub proof fn lemma_sidewinder_done(
    g: GridView,
    parent: Map<Location, Location>,
    rank: spec_fn(Location) -> nat,
    base: nat,
)
    requires
        sidewinder_upto(g, parent, rank, base, g.rows, 0, 0),
    ensures
        is_perfect_maze(g),
        top_row_open(g),
{
    let root = Location { row: 0, column: (g.columns - 1) as usize };
    assert(spans(g, parent, root));
    lemma_spanning_tree(g, parent, rank, root);
    assert forall|place: Location|
        g.in_bounds(place) && place.row == 0 && place.column + 1 < g.columns implies #[trigger] g.linked(
        place,
        east_of(place),
    ) by {
        assert(parent.dom().contains(place));
        assert(parent_edge(parent, place, east_of(place)));
    }
}

/// A run of the sidewinder: the columns of its first and of its last cell, and
/// of the member that carved north.
pub struct Run {
    pub first: usize,
    pub last: usize,
    pub member: usize,
}

/// Whether the cells of `row` from column `first` to column `last` are a run:
/// each is linked to the next, and neither end is linked to a cell beyond it.
pub open spec fn is_run(g: GridView, row: usize, first: usize, last: usize) -> bool {
    &&& row < g.rows
    &&& first <= last < g.columns
    &&& forall|column: usize|
        first <= column < last ==> #[trigger] g.linked(
            Location { row, column },
            east_of(Location { row, column }),
        )
    &&& !g.linked(Location { row, column: last }, east_of(Location { row, column: last }))
    &&& first == 0 || !g.linked(
        Location { row, column: (first - 1) as usize },
        Location { row, column: first },
    )
}

/// Whether, of the cells of `row` between the columns `first` and `last`, the
/// one at column `member` is linked north and no other.
pub open spec fn carves_north_at(
    g: GridView,
    row: usize,
    first: usize,
    last: usize,
    member: usize,
) -> bool {
    &&& first <= member <= last
    &&& forall|column: usize|
        first <= column <= last ==> (#[trigger] g.linked(
            Location { row, column },
            north_of(Location { row, column }),
        ) <==> column == member)
}

/// Whether exactly one cell of `row` between the columns `first` and `last` is
/// linked north.
pub open spec fn carves_north_once(g: GridView, row: usize, first: usize, last: usize) -> bool {
    exists|member: usize| #[trigger] carves_north_at(g, row, first, last, member)
}

/// Below the top row, every run has carved north exactly once: the mark of a
/// sidewinder maze.
pub open spec fn carved_in_runs(g: GridView) -> bool {
    forall|row: usize, first: usize, last: usize|
        1 <= row && #[trigger] is_run(g, row, first, last) ==> carves_north_once(
            g,
            row,
            first,
            last,
        )
}

/// What is known of the runs that the sidewinder has closed when it works on
/// `row` with the open run beginning at column `start`: every cell of a closed
/// run is linked east unless it is the last of its run, and north only if it
/// is the member that the run carved north from.
pub open spec fn runs_recorded(
    g: GridView,
    runs: spec_fn(Location) -> Run,
    row: usize,
    start: usize,
) -> bool {
    forall|place: Location|
        g.in_bounds(place) && place.row >= 1 && closed_before(place, row, start) ==> {
            let run = #[trigger] runs(place);
            &&& run.first <= place.column <= run.last < g.columns
            &&& run.first <= run.member <= run.last
            &&& place.row == row ==> run.last < start
            &&& forall|other: Location|
                other.row == place.row && run.first <= other.column <= run.last ==> #[trigger] runs(
                    other,
                ) == run
            &&& g.linked(place, east_of(place)) <==> place.column < run.last
            &&& g.linked(place, north_of(place)) <==> place.column == run.member
        }
}

/// A passage carved from a cell that is not yet closed, to the east or to the
/// north, changes nothing in the closed runs.
pub proof fn lemma_runs_kept(
    g: GridView,
    runs: spec_fn(Location) -> Run,
    row: usize,
    start: usize,
    source: Location,
    target: Location,
)
    requires
        g.wf(),
        runs_recorded(g, runs, row, start),
        g.in_bounds(source),
        g.in_bounds(target),
        !closed_before(source, row, start),
        target == east_of(source) || (source.row >= 1 && target == north_of(source)),
    ensures
        runs_recorded(g.with_passage(source, target), runs, row, start),
{
    let h = g.with_passage(source, target);
    lemma_with_passage(g, source, target);
    assert forall|place: Location|
        h.in_bounds(place) && place.row >= 1 && closed_before(place, row, start) implies {
        let run = #[trigger] runs(place);
        &&& run.first <= place.column <= run.last < h.columns
        &&& run.first <= run.member <= run.last
        &&& place.row == row ==> run.last < start
        &&& forall|other: Location|
            other.row == place.row && run.first <= other.column <= run.last ==> #[trigger] runs(
                other,
            ) == run
        &&& h.linked(place, east_of(place)) <==> place.column < run.last
        &&& h.linked(place, north_of(place)) <==> place.column == run.member
    } by {}
}

/// The record of the runs with the run from column `start` to column `column`
/// of `row` added, closed from `member`.
pub open spec fn with_run(
    runs: spec_fn(Location) -> Run,
    row: usize,
    start: usize,
    column: usize,
    member: usize,
) -> spec_fn(Location) -> Run {
    |place: Location|
        if place.row == row && start <= place.column <= column {
            Run { first: start, last: column, member }
        } else {
            runs(place)
        }
}

/// Closing the open run records it: its cells are linked east up to the last,
/// and only the member is linked north.
pub proof fn lemma_runs_closed(
    g: GridView,
    parent: Map<Location, Location>,
    rank: spec_fn(Location) -> nat,
    base: nat,
    runs: spec_fn(Location) -> Run,
    row: usize,
    column: usize,
    start: usize,
    member: usize,
)
    requires
        sidewinder_upto(g, parent, rank, base, row, column, start),
        runs_recorded(g, runs, row, start),
        1 <= row < g.rows,
        column < g.columns,
        start <= member <= column,
    ensures
        runs_recorded(
            g.with_passage(Location { row, column: member }, north_of(Location { row, column: member })),
            with_run(runs, row, start, column, member),
            row,
            (column + 1) as usize,
        ),
{
    let chosen = Location { row, column: member };
    let north = north_of(chosen);
    let h = g.with_passage(chosen, north);
    let recorded = with_run(runs, row, start, column, member);
    lemma_with_passage(g, chosen, north);
    lemma_runs_kept(g, runs, row, start, chosen, north);
    assert forall|place: Location|
        h.in_bounds(place) && place.row >= 1 && closed_before(
            place,
            row,
            (column + 1) as usize,
        ) implies {
        let run = #[trigger] recorded(place);
        &&& run.first <= place.column <= run.last < h.columns
        &&& run.first <= run.member <= run.last
        &&& place.row == row ==> run.last < column + 1
        &&& forall|other: Location|
            other.row == place.row && run.first <= other.column <= run.last ==> #[trigger] recorded(
                other,
            ) == run
        &&& h.linked(place, east_of(place)) <==> place.column < run.last
        &&& h.linked(place, north_of(place)) <==> place.column == run.member
    } by {
        if place.row == row && start <= place.column < column {
            assert(parent.dom().contains(east_of(place)));
        }
    }
}

/// With a row done, every run of it is closed.
pub proof fn lemma_runs_next_row(
    g: GridView,
    runs: spec_fn(Location) -> Run,
    row: usize,
    start: usize,
)
    requires
        runs_recorded(g, runs, row, start),
        row < g.rows,
        row >= 1 ==> start == g.columns,
    ensures
        runs_recorded(g, runs, (row + 1) as usize, 0),
{
}

/// Once every row is done, every run below the top row is a recorded run, and
/// so has carved north exactly once.
pub proof fn lemma_runs_done(g: GridView, runs: spec_fn(Location) -> Run)
    requires
        g.wf(),
        runs_recorded(g, runs, g.rows, 0),
    ensures
        carved_in_runs(g),
{
    assert forall|row: usize, first: usize, last: usize|
        1 <= row && #[trigger] is_run(g, row, first, last) implies carves_north_once(
        g,
        row,
        first,
        last,
    ) by {
        let head = Location { row, column: first };
        let tail = Location { row, column: last };
        let run = runs(head);
        if run.first < first {
            let before = Location { row, column: (first - 1) as usize };
            assert(runs(before) == run);
        }
        if run.last < last {
            let end = Location { row, column: run.last };
            assert(runs(end) == run);
        }
        if run.last > last {
            assert(runs(tail) == run);
        }
        assert forall|column: usize| first <= column <= last implies (#[trigger] g.linked(
            Location { row, column },
            north_of(Location { row, column }),
        ) <==> column == run.member) by {
            assert(runs(Location { row, column }) == run);
        }
        assert(carves_north_at(g, row, first, last, run.member));
    }
}

/// In a grid of a single row whose top row is one corridor, the passages are
/// the pairs of cells side by side: no passage leads north or south, and every
/// run ends at the eastern edge.
pub proof fn lemma_single_row_corridor(g: GridView, a: Location, b: Location)
    requires
        g.wf(),
        g.symmetric(),
        top_row_open(g),
        g.rows == 1,
    ensures
        g.linked(a, b) <==> g.in_bounds(a) && g.in_bounds(b) && adjacent(a, b),
        g.in_bounds(a) ==> !g.cell(a).linked_towards(Direction::North) && !g.cell(
            a,
        ).linked_towards(Direction::South),
{
    if g.in_bounds(a) && g.in_bounds(b) && adjacent(a, b) {
        if b == east_of(a) {
            assert(g.linked(a, east_of(a)));
        } else {
            assert(g.linked(b, east_of(b)));
        }
    }
    if g.in_bounds(a) {
        assert(g.cell(a) == configure_cell(g.cell(a), g.rows, g.columns));
    }
}

/// How far the sidewinder has come by following a script: the grid as it has
/// been carved, what is left of the script, and the run that is open.
pub struct Winding {
    pub grid: GridView,
    pub script: Seq<usize>,
    pub run: Seq<Location>,
}

/// Whether a grid, a source of draws and a run are where following the script
/// has led the sidewinder, as far as the script could be followed.
pub open spec fn winds(
    led: Option<Winding>,
    grid: GridView,
    script: Seq<usize>,
    run: Seq<Location>,
) -> bool {
    led matches Some(winding) ==> winding.grid == grid && winding.script == script && winding.run
        == run
}

/// The sidewinder's visit to one cell. The cell takes a number from the script
/// and joins the run. The run ends there if the cell is in the last column, or
/// if it is below the top row and the number is even. A cell that does not
/// end the run carves east. Where the run ends, the next number of the script
/// picks one of its members; below the top row that member carves north and
/// the run is emptied.
pub open spec fn sidewinder_visit(led: Option<Winding>, place: Location) -> Option<Winding> {
    match led {
        None => None,
        Some(before) => if before.script.len() == 0 {
            None
        } else {
            let cell = before.grid.cell(place);
            let draw = scaled(before.script[0], 0, 1);
            let script = before.script.drop_first();
            let run = before.run.push(place);
            if cell.east is None || (cell.north is Some && draw == 0) {
                if script.len() == 0 {
                    None
                } else {
                    let member = picked(run, script[0]);
                    if cell.north is Some {
                        Some(
                            Winding {
                                grid: before.grid.with_passage(
                                    member,
                                    before.grid.cell(member).north->0,
                                ),
                                script: script.drop_first(),
                                run: Seq::empty(),
                            },
                        )
                    } else {
                        Some(Winding { grid: before.grid, script: script.drop_first(), run })
                    }
                }
            } else {
                Some(Winding { grid: before.grid.with_passage(place, cell.east->0), script, run })
            }
        },
    }
}

/// The visits to the first `upto` cells of `row`, from west to east.
pub open spec fn sidewinder_row(led: Option<Winding>, row: usize, upto: nat) -> Option<Winding>
    decreases upto,
{
    if upto == 0 {
        led
    } else {
        sidewinder_visit(
            sidewinder_row(led, row, (upto - 1) as nat),
            Location { row, column: (upto - 1) as usize },
        )
    }
}

/// The same state with no run open, as at the beginning of a row.
pub open spec fn at_row_start(led: Option<Winding>) -> Option<Winding> {
    match led {
        None => None,
        Some(before) => Some(Winding { run: Seq::empty(), ..before }),
    }
}

/// The visits to the first `upto` rows of `columns` cells each, from north to
/// south, every row beginning with no run open.
pub open spec fn sidewinder_rows(led: Option<Winding>, upto: nat, columns: usize) -> Option<Winding>
    decreases upto,
{
    if upto == 0 {
        led
    } else {
        sidewinder_row(
            at_row_start(sidewinder_rows(led, (upto - 1) as nat, columns)),
            (upto - 1) as usize,
            columns as nat,
        )
    }
}

/// What the sidewinder makes of `g` by following `script`: the maze and what is
/// left of the script, or `None` if the script runs out.
pub open spec fn sidewinder_following(g: GridView, script: Seq<usize>) -> Option<Carved> {
    let begun = Some(Winding { grid: g, script, run: Seq::empty() });
    match sidewinder_rows(begun, g.rows as nat, g.columns) {
        None => None,
        Some(done) => Some(Carved { grid: done.grid, script: done.script }),
    }
}

} // verus!
