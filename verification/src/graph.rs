//! The link relation of a grid read as a graph: walks, connectedness, cycles,
//! the count of link entries, and what makes a maze perfect.

use vstd::prelude::*;
use crate::cell::CellView;
use crate::grid::{configure_cell, lemma_neighbours, GridView};
use crate::location::{adjacent, Location};

verus! {

/// A walk: a non-empty sequence of cells, each linked to the next.
pub open spec fn is_walk(g: GridView, path: Seq<Location>) -> bool {
    &&& path.len() >= 1
    &&& g.in_bounds(path[0])
    &&& forall|i: int| 0 <= i < path.len() - 1 ==> g.linked(#[trigger] path[i], path[i + 1])
}

/// A walk that starts at `from` and ends at `to`.
pub open spec fn walk_between(
    g: GridView,
    path: Seq<Location>,
    from: Location,
    to: Location,
) -> bool {
    is_walk(g, path) && path[0] == from && path.last() == to
}

/// Whether some walk leads from `from` to `to`.
pub open spec fn joined(g: GridView, from: Location, to: Location) -> bool {
    exists|path: Seq<Location>| walk_between(g, path, from, to)
}

/// Every cell can be reached from every other cell.
pub open spec fn connected(g: GridView) -> bool {
    forall|a: Location, b: Location|
        g.in_bounds(a) && g.in_bounds(b) ==> #[trigger] joined(g, a, b)
}

/// A cycle: at least three distinct cells, each linked to the next and the last
/// to the first.
pub open spec fn is_cycle(g: GridView, cycle: Seq<Location>) -> bool {
    &&& cycle.len() >= 3
    &&& cycle.no_duplicates()
    &&& forall|i: int| 0 <= i < cycle.len() - 1 ==> g.linked(#[trigger] cycle[i], cycle[i + 1])
    &&& g.linked(cycle.last(), cycle[0])
}

/// No cycle exists.
pub open spec fn acyclic(g: GridView) -> bool {
    forall|cycle: Seq<Location>| !is_cycle(g, cycle)
}

/// The number of link entries in a row of cells.
pub open spec fn row_entries(row: Seq<CellView>) -> nat
    decreases row.len(),
{
    if row.len() == 0 {
        0
    } else {
        row_entries(row.drop_last()) + row.last().links.len()
    }
}

/// The number of link entries in a matrix of cells.
pub open spec fn matrix_entries(cells: Seq<Seq<CellView>>) -> nat
    decreases cells.len(),
{
    if cells.len() == 0 {
        0
    } else {
        matrix_entries(cells.drop_last()) + row_entries(cells.last())
    }
}

/// The number of link entries of the whole grid. In a valid grid no cell lists
/// a link twice, so each passage that is open both ways counts exactly twice.
pub open spec fn link_entries(g: GridView) -> nat {
    matrix_entries(g.cells)
}

/// A perfect maze: a valid grid, so that every passage is listed once, whose
/// passages are open both ways and form a spanning tree: connected, without a
/// cycle, and one passage fewer than there are cells.
pub open spec fn is_perfect_maze(g: GridView) -> bool {
    &&& g.wf()
    &&& g.symmetric()
    &&& connected(g)
    &&& acyclic(g)
    &&& link_entries(g) == 2 * (g.rows * g.columns - 1)
}

/// In a valid grid whose passages are open both ways, every link of a cell
/// leads to one of its structural neighbours, and that neighbour links back.
pub proof fn lemma_links_lead_to_neighbours(g: GridView, from: Location, to: Location)
    requires
        g.wf(),
        g.symmetric(),
        g.linked(from, to),
    ensures
        g.cell(from).neighbours().contains(to),
        g.linked(to, from),
{
    lemma_neighbours(g, from);
}

/// A walk read backwards is a walk, where passages are open both ways.
pub proof fn lemma_walk_reversed(g: GridView, path: Seq<Location>)
    requires
        g.symmetric(),
        is_walk(g, path),
    ensures
        is_walk(g, path.reverse()),
        path.reverse()[0] == path.last(),
        path.reverse().last() == path[0],
{
    let back = path.reverse();
    let n = path.len() as int;
    assert forall|i: int| 0 <= i < back.len() - 1 implies g.linked(#[trigger] back[i], back[i + 1]) by {
        assert(g.linked(path[n - 2 - i], path[n - 2 - i + 1]));
    }
}

/// Two walks, the first ending where the second begins, make one walk.
pub proof fn lemma_walks_joined(g: GridView, first: Seq<Location>, second: Seq<Location>)
    requires
        is_walk(g, first),
        is_walk(g, second),
        first.last() == second[0],
    ensures
        is_walk(g, first + second.drop_first()),
        (first + second.drop_first())[0] == first[0],
        (first + second.drop_first()).last() == second.last(),
{
    let whole = first + second.drop_first();
    let n = first.len() as int;
    assert forall|i: int| 0 <= i < whole.len() - 1 implies g.linked(
        #[trigger] whole[i],
        whole[i + 1],
    ) by {
        if i < n - 1 {
            assert(g.linked(first[i], first[i + 1]));
        } else {
            let k = i - n + 1;
            assert(g.linked(second[k], second[k + 1]));
        }
    }
}

/// Replacing one cell of a row changes the row's count by the difference of
/// the two cells' link counts.
pub proof fn lemma_row_entries_update(row: Seq<CellView>, column: int, cell: CellView)
    requires
        0 <= column < row.len(),
    ensures
        row_entries(row.update(column, cell)) + row[column].links.len() == row_entries(row)
            + cell.links.len(),
    decreases row.len(),
{
    let changed = row.update(column, cell);
    if column == row.len() - 1 {
        assert(changed.drop_last() == row.drop_last());
    } else {
        assert(changed.drop_last() == row.drop_last().update(column, cell));
        lemma_row_entries_update(row.drop_last(), column, cell);
    }
}

/// Replacing one row of a matrix changes the matrix's count by the difference
/// of the two rows' counts.
pub proof fn lemma_matrix_entries_update(cells: Seq<Seq<CellView>>, r: int, row: Seq<CellView>)
    requires
        0 <= r < cells.len(),
    ensures
        matrix_entries(cells.update(r, row)) + row_entries(cells[r]) == matrix_entries(cells)
            + row_entries(row),
    decreases cells.len(),
{
    let changed = cells.update(r, row);
    if r == cells.len() - 1 {
        assert(changed.drop_last() == cells.drop_last());
    } else {
        assert(changed.drop_last() == cells.drop_last().update(r, row));
        lemma_matrix_entries_update(cells.drop_last(), r, row);
    }
}

/// A grid whose cells have no links has no link entries.
pub proof fn lemma_unlinked_entries(g: GridView)
    requires
        g.has_dimensions(),
        g.unlinked(),
    ensures
        link_entries(g) == 0,
{
    lemma_unlinked_matrix(g, g.rows as int);
    assert(g.cells.take(g.rows as int) == g.cells);
}

/// The first cells of a row without links hold no link entries.
proof fn lemma_unlinked_row(g: GridView, r: int, upto: int)
    requires
        g.has_dimensions(),
        g.unlinked(),
        0 <= r < g.rows,
        0 <= upto <= g.columns,
    ensures
        row_entries(g.cells[r].take(upto)) == 0,
    decreases upto,
{
    if upto > 0 {
        lemma_unlinked_row(g, r, upto - 1);
        let place = Location { row: r as usize, column: (upto - 1) as usize };
        assert(g.cell(place).links.len() == 0);
        assert(g.cells[r].take(upto).drop_last() == g.cells[r].take(upto - 1));
    }
}

/// The first rows of a grid without links hold no link entries.
proof fn lemma_unlinked_matrix(g: GridView, upto: int)
    requires
        g.has_dimensions(),
        g.unlinked(),
        0 <= upto <= g.rows,
    ensures
        matrix_entries(g.cells.take(upto)) == 0,
    decreases upto,
{
    if upto > 0 {
        lemma_unlinked_matrix(g, upto - 1);
        lemma_unlinked_row(g, upto - 1, g.columns as int);
        assert(g.cells[upto - 1].take(g.columns as int) == g.cells[upto - 1]);
        assert(g.cells.take(upto).drop_last() == g.cells.take(upto - 1));
    }
}

/// A one-way passage leaves every cell but its source as it is, and lists
/// nothing twice that was not listed twice before.
pub proof fn lemma_with_link_distinct(g: GridView, source: Location, target: Location)
    requires
        g.has_dimensions(),
        g.in_bounds(source),
    ensures
        g.with_link(source, target).has_dimensions(),
        g.with_link(source, target).rows == g.rows,
        g.with_link(source, target).columns == g.columns,
        g.with_link(source, target).max_distance == g.max_distance,
        g.with_link(source, target).cell(source) == g.cell(source).with_link(target),
        forall|place: Location|
            g.in_bounds(place) && place != source ==> #[trigger] g.with_link(source, target).cell(
                place,
            ) == g.cell(place),
        g.links_distinct() ==> g.with_link(source, target).links_distinct(),
        g.linked(source, target) ==> g.with_link(source, target) == g,
{
    let h = g.with_link(source, target);
    assert(h.cell(source) == g.cell(source).with_link(target));
    assert forall|place: Location| g.in_bounds(place) && place != source implies #[trigger] h.cell(
        place,
    ) == g.cell(place) by {}
    if g.links_distinct() {
        assert forall|place: Location| h.in_bounds(place) implies (#[trigger] h.cell(
            place,
        )).links.no_duplicates() by {
            if place != source {
                assert(h.cell(place) == g.cell(place));
            } else {
                assert(g.cell(source).links.no_duplicates());
            }
        }
    }
    if g.linked(source, target) {
        assert(h.cells =~~= g.cells);
    }
}

/// What a one-way passage changes: the link from `source` to `target` is
/// there afterwards, and nothing else has changed. A link that was there
/// already is not listed a second time.
pub proof fn lemma_with_link(g: GridView, source: Location, target: Location)
    requires
        g.wf(),
        g.in_bounds(source),
        g.in_bounds(target),
        adjacent(source, target),
    ensures
        g.with_link(source, target).wf(),
        g.with_link(source, target).rows == g.rows,
        g.with_link(source, target).columns == g.columns,
        g.with_link(source, target).max_distance == g.max_distance,
        g.with_link(source, target).cell(source) == g.cell(source).with_link(target),
        forall|place: Location|
            g.in_bounds(place) && place != source ==> #[trigger] g.with_link(source, target).cell(
                place,
            ) == g.cell(place),
        forall|a: Location, b: Location| #[trigger]
            g.with_link(source, target).linked(a, b) <==> g.linked(a, b) || (a == source && b
                == target),
        g.linked(source, target) ==> g.with_link(source, target) == g,
        !g.linked(source, target) ==> link_entries(g.with_link(source, target)) == link_entries(g)
            + 1,
{
    let h = g.with_link(source, target);
    let before = g.cell(source);
    let after = before.with_link(target);
    lemma_with_link_distinct(g, source, target);
    assert forall|a: Location, b: Location| #[trigger]
        h.linked(a, b) <==> g.linked(a, b) || (a == source && b == target) by {
        if g.in_bounds(a) {
            if a == source {
                if !before.links.contains(target) {
                    if before.links.contains(b) {
                        let i = choose|i: int| 0 <= i < before.links.len() && before.links[i] == b;
                        assert(after.links[i] == b);
                    }
                    assert(after.links[before.links.len() as int] == target);
                }
            } else {
                assert(h.cell(a) == g.cell(a));
            }
        }
    }
    assert(h.shaped()) by {
        assert forall|place: Location| h.in_bounds(place) implies (#[trigger] h.cell(place)).location
            == place by {
            if place != source {
                assert(h.cell(place) == g.cell(place));
            }
        }
    }
    assert(h.configured()) by {
        assert forall|place: Location| h.in_bounds(place) implies #[trigger] h.cell(place)
            == configure_cell(h.cell(place), h.rows, h.columns) by {
            if place != source {
                assert(h.cell(place) == g.cell(place));
            }
        }
    }
    if !g.linked(source, target) {
        let r = source.row as int;
        let row = g.cells[r].update(source.column as int, after);
        lemma_row_entries_update(g.cells[r], source.column as int, after);
        lemma_matrix_entries_update(g.cells, r, row);
    }
}

/// What a passage changes: the links between `source` and `target` are there
/// afterwards, one each way, and nothing else has changed. A passage that was
/// there already leaves the grid as it is; one that was not adds two link
/// entries.
pub proof fn lemma_with_passage(g: GridView, source: Location, target: Location)
    requires
        g.wf(),
        g.in_bounds(source),
        g.in_bounds(target),
        adjacent(source, target),
    ensures
        g.with_passage(source, target).wf(),
        g.with_passage(source, target).rows == g.rows,
        g.with_passage(source, target).columns == g.columns,
        g.with_passage(source, target).max_distance == g.max_distance,
        g.with_passage(source, target).cell(source) == g.cell(source).with_link(target),
        g.with_passage(source, target).cell(target) == g.cell(target).with_link(source),
        forall|place: Location|
            g.in_bounds(place) && place != source && place != target ==> #[trigger] g.with_passage(
                source,
                target,
            ).cell(place) == g.cell(place),
        forall|a: Location, b: Location| #[trigger]
            g.with_passage(source, target).linked(a, b) <==> g.linked(a, b) || (a == source && b
                == target) || (a == target && b == source),
        g.linked(source, target) && g.linked(target, source) ==> g.with_passage(source, target)
            == g,
        !g.linked(source, target) && !g.linked(target, source) ==> link_entries(
            g.with_passage(source, target),
        ) == link_entries(g) + 2,
        g.same_but_links(g.with_passage(source, target)),
        g.symmetric() ==> g.with_passage(source, target).symmetric(),
{
    let middle = g.with_link(source, target);
    let h = g.with_passage(source, target);
    lemma_with_link(g, source, target);
    lemma_with_link(middle, target, source);
    assert forall|a: Location, b: Location| #[trigger]
        h.linked(a, b) <==> g.linked(a, b) || (a == source && b == target) || (a == target && b
            == source) by {
        assert(h.linked(a, b) <==> middle.linked(a, b) || (a == target && b == source));
        assert(middle.linked(a, b) <==> g.linked(a, b) || (a == source && b == target));
    }
    assert forall|place: Location| g.in_bounds(place) implies (#[trigger] h.cell(place)) == (CellView {
        links: h.cell(place).links,
        ..g.cell(place)
    }) by {
        if place != source && place != target {
            assert(middle.cell(place) == g.cell(place));
            assert(h.cell(place) == g.cell(place));
        }
    }
}

/// Linking the same two cells a second time changes nothing: the links of a
/// cell are a set, and the passage is still counted once.
pub proof fn lemma_passage_twice(g: GridView, source: Location, target: Location)
    requires
        g.wf(),
        g.in_bounds(source),
        g.in_bounds(target),
        adjacent(source, target),
    ensures
        g.with_passage(source, target).with_passage(source, target) == g.with_passage(
            source,
            target,
        ),
        g.with_passage(source, target).links_distinct(),
        link_entries(g.with_passage(source, target).with_passage(source, target)) == link_entries(
            g.with_passage(source, target),
        ),
{
    lemma_with_passage(g, source, target);
    lemma_with_passage(g.with_passage(source, target), source, target);
}

/// The cells of the grid, as a set of locations.
pub open spec fn cells_of(g: GridView) -> Set<Location> {
    Set::new(|place: Location| g.in_bounds(place))
}

/// The locations of the first `upto` cells of one row.
pub open spec fn strip(row: usize, upto: nat) -> Set<Location> {
    Set::new(|place: Location| place.row == row && place.column < upto)
}

/// The locations of the first `upto` rows of `columns` cells each.
pub open spec fn block(upto: nat, columns: usize) -> Set<Location> {
    Set::new(|place: Location| place.row < upto && place.column < columns)
}

/// The first `upto` cells of a row are `upto` locations.
proof fn lemma_strip_counted(row: usize, upto: nat)
    requires
        upto <= usize::MAX,
    ensures
        strip(row, upto).finite(),
        strip(row, upto).len() == upto,
    decreases upto,
{
    if upto == 0 {
        assert(strip(row, upto) =~= Set::empty());
    } else {
        let before = (upto - 1) as nat;
        lemma_strip_counted(row, before);
        let added = Location { row, column: before as usize };
        assert(strip(row, upto) =~= strip(row, before).insert(added));
    }
}

/// The first `upto` rows hold `upto * columns` locations.
proof fn lemma_block_counted(upto: nat, columns: usize)
    requires
        upto <= usize::MAX,
    ensures
        block(upto, columns).finite(),
        block(upto, columns).len() == upto * columns,
    decreases upto,
{
    if upto == 0 {
        assert(block(upto, columns) =~= Set::empty());
    } else {
        let before = (upto - 1) as nat;
        lemma_block_counted(before, columns);
        lemma_strip_counted(before as usize, columns as nat);
        let last = strip(before as usize, columns as nat);
        assert(block(upto, columns) =~= block(before, columns) + last);
        vstd::set_lib::lemma_set_disjoint_lens(block(before, columns), last);
        assert(upto * columns == before * columns + columns) by (nonlinear_arith)
            requires
                upto == before + 1,
        ;
    }
}

/// A grid has `rows * columns` cells.
pub proof fn lemma_cells_counted(g: GridView)
    ensures
        cells_of(g).finite(),
        cells_of(g).len() == g.rows * g.columns,
{
    lemma_block_counted(g.rows as nat, g.columns);
    assert(cells_of(g) =~= block(g.rows as nat, g.columns));
}

/// Two grids of the same size whose cells hold the same links hold the same
/// number of link entries.
pub proof fn lemma_same_links_same_entries(g: GridView, h: GridView)
    requires
        g.has_dimensions(),
        h.has_dimensions(),
        h.rows == g.rows,
        h.columns == g.columns,
        forall|place: Location| g.in_bounds(place) ==> (#[trigger] h.cell(place)).links == g.cell(place).links,
    ensures
        link_entries(h) == link_entries(g),
{
    lemma_same_links_matrix(g, h, g.rows as int);
    assert(g.cells.take(g.rows as int) == g.cells);
    assert(h.cells.take(g.rows as int) == h.cells);
}

/// The first cells of a row hold the same number of link entries in both grids.
proof fn lemma_same_links_row(g: GridView, h: GridView, r: int, upto: int)
    requires
        g.has_dimensions(),
        h.has_dimensions(),
        h.rows == g.rows,
        h.columns == g.columns,
        forall|place: Location| g.in_bounds(place) ==> (#[trigger] h.cell(place)).links == g.cell(place).links,
        0 <= r < g.rows,
        0 <= upto <= g.columns,
    ensures
        row_entries(h.cells[r].take(upto)) == row_entries(g.cells[r].take(upto)),
    decreases upto,
{
    if upto > 0 {
        lemma_same_links_row(g, h, r, upto - 1);
        let place = Location { row: r as usize, column: (upto - 1) as usize };
        assert(h.cell(place).links == g.cell(place).links);
        assert(g.cells[r].take(upto).drop_last() == g.cells[r].take(upto - 1));
        assert(h.cells[r].take(upto).drop_last() == h.cells[r].take(upto - 1));
    }
}

/// The first rows hold the same number of link entries in both grids.
proof fn lemma_same_links_matrix(g: GridView, h: GridView, upto: int)
    requires
        g.has_dimensions(),
        h.has_dimensions(),
        h.rows == g.rows,
        h.columns == g.columns,
        forall|place: Location| g.in_bounds(place) ==> (#[trigger] h.cell(place)).links == g.cell(place).links,
        0 <= upto <= g.rows,
    ensures
        matrix_entries(h.cells.take(upto)) == matrix_entries(g.cells.take(upto)),
    decreases upto,
{
    if upto > 0 {
        lemma_same_links_matrix(g, h, upto - 1);
        lemma_same_links_row(g, h, upto - 1, g.columns as int);
        assert(g.cells[upto - 1].take(g.columns as int) == g.cells[upto - 1]);
        assert(h.cells[upto - 1].take(g.columns as int) == h.cells[upto - 1]);
        assert(g.cells.take(upto).drop_last() == g.cells.take(upto - 1));
        assert(h.cells.take(upto).drop_last() == h.cells.take(upto - 1));
    }
}

} // verus!
