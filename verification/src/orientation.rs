//! How a grid is shown to be a spanning tree: its passages are oriented, so
//! that every cell but one root points to a parent of lower rank and the
//! passages are exactly the parent edges. An oriented grid has no cycle, and
//! one in which every cell but the root has a parent is connected.

use vstd::prelude::*;
use crate::graph::{
    acyclic, cells_of, connected, is_cycle, is_perfect_maze, joined, lemma_cells_counted,
    lemma_walk_reversed, lemma_walks_joined, lemma_with_passage, link_entries, walk_between,
};
use crate::grid::GridView;
use crate::location::{adjacent, Location};

verus! {

/// Whether `a` and `b` are joined by a parent edge, in either direction.
pub open spec fn parent_edge(parent: Map<Location, Location>, a: Location, b: Location) -> bool {
    (parent.dom().contains(a) && parent[a] == b) || (parent.dom().contains(b) && parent[b] == a)
}

/// The passages of `g` are exactly the parent edges, and every parent has a
/// lower rank than its child.
pub open spec fn oriented(
    g: GridView,
    parent: Map<Location, Location>,
    rank: spec_fn(Location) -> nat,
) -> bool {
    &&& forall|a: Location| #[trigger]
        parent.dom().contains(a) ==> g.in_bounds(a) && g.in_bounds(parent[a]) && rank(parent[a])
            < rank(a)
    &&& forall|a: Location, b: Location|
        #![trigger g.linked(a, b)]
        #![trigger parent_edge(parent, a, b)]
        g.linked(a, b) <==> parent_edge(parent, a, b)
}

/// Every cell of the grid but `root` has a parent.
pub open spec fn spans(g: GridView, parent: Map<Location, Location>, root: Location) -> bool {
    &&& g.in_bounds(root)
    &&& !parent.dom().contains(root)
    &&& forall|a: Location| g.in_bounds(a) && a != root ==> #[trigger] parent.dom().contains(a)
}

/// The passages of an oriented grid are open both ways.
pub proof fn lemma_oriented_symmetric(
    g: GridView,
    parent: Map<Location, Location>,
    rank: spec_fn(Location) -> nat,
)
    requires
        oriented(g, parent, rank),
    ensures
        g.symmetric(),
{
}

/// An index of the sequence at which the rank is greatest.
proof fn lemma_highest(cells: Seq<Location>, rank: spec_fn(Location) -> nat) -> (top: int)
    requires
        cells.len() >= 1,
    ensures
        0 <= top < cells.len(),
        forall|i: int| 0 <= i < cells.len() ==> rank(#[trigger] cells[i]) <= rank(cells[top]),
    decreases cells.len(),
{
    if cells.len() == 1 {
        0
    } else {
        let before = lemma_highest(cells.drop_last(), rank);
        assert(forall|i: int| 0 <= i < cells.len() - 1 ==> cells.drop_last()[i] == cells[i]);
        if rank(cells.last()) > rank(cells[before]) {
            cells.len() - 1
        } else {
            before
        }
    }
}

/// An oriented grid has no cycle: the cell of greatest rank on a cycle would
/// have both its neighbours on the cycle as its parent.
pub proof fn lemma_oriented_acyclic(
    g: GridView,
    parent: Map<Location, Location>,
    rank: spec_fn(Location) -> nat,
)
    requires
        oriented(g, parent, rank),
    ensures
        acyclic(g),
{
    assert forall|cycle: Seq<Location>| !is_cycle(g, cycle) by {
        if is_cycle(g, cycle) {
            let n = cycle.len() as int;
            let top = lemma_highest(cycle, rank);
            let prev = if top >= 1 {
                top - 1
            } else {
                n - 1
            };
            assert(g.linked(cycle[prev], cycle[top]));
        }
    }
}

/// The cells met on the way from `from` up to a cell without a parent.
pub open spec fn ascent(
    parent: Map<Location, Location>,
    rank: spec_fn(Location) -> nat,
    from: Location,
) -> Seq<Location>
    decreases rank(from),
{
    if parent.dom().contains(from) && rank(parent[from]) < rank(from) {
        seq![from] + ascent(parent, rank, parent[from])
    } else {
        seq![from]
    }
}

/// In an oriented grid that spans from `root`, the ascent from any cell is a
/// walk that ends at `root`.
pub proof fn lemma_ascent_reaches_root(
    g: GridView,
    parent: Map<Location, Location>,
    rank: spec_fn(Location) -> nat,
    root: Location,
    from: Location,
)
    requires
        oriented(g, parent, rank),
        spans(g, parent, root),
        g.in_bounds(from),
    ensures
        walk_between(g, ascent(parent, rank, from), from, root),
    decreases rank(from),
{
    if parent.dom().contains(from) {
        let up = parent[from];
        lemma_ascent_reaches_root(g, parent, rank, root, up);
    }
}

/// A grid that is oriented and spans from a root is connected: any two cells
/// are joined through the root.
pub proof fn lemma_oriented_connected(
    g: GridView,
    parent: Map<Location, Location>,
    rank: spec_fn(Location) -> nat,
    root: Location,
)
    requires
        oriented(g, parent, rank),
        spans(g, parent, root),
    ensures
        connected(g),
{
    lemma_oriented_symmetric(g, parent, rank);
    assert forall|a: Location, b: Location| g.in_bounds(a) && g.in_bounds(b) implies #[trigger] joined(
        g,
        a,
        b,
    ) by {
        let up = ascent(parent, rank, a);
        let down = ascent(parent, rank, b).reverse();
        lemma_ascent_reaches_root(g, parent, rank, root, a);
        lemma_ascent_reaches_root(g, parent, rank, root, b);
        lemma_walk_reversed(g, ascent(parent, rank, b));
        lemma_walks_joined(g, up, down);
        assert(walk_between(g, up + down.drop_first(), a, b));
    }
}

/// Adding a passage between a cell without a parent and a neighbour, and making
/// that neighbour its parent, keeps a grid oriented, provided the ranks still
/// descend along every parent edge. The two cells were not linked before.
pub proof fn lemma_passage_oriented(
    g: GridView,
    parent: Map<Location, Location>,
    rank: spec_fn(Location) -> nat,
    source: Location,
    target: Location,
    child: Location,
    elder: Location,
    new_rank: spec_fn(Location) -> nat,
)
    requires
        g.wf(),
        oriented(g, parent, rank),
        g.in_bounds(source),
        g.in_bounds(target),
        adjacent(source, target),
        (child == source && elder == target) || (child == target && elder == source),
        !parent.dom().contains(child),
        forall|a: Location| #[trigger]
            parent.dom().contains(a) ==> new_rank(parent[a]) < new_rank(a),
        new_rank(elder) < new_rank(child),
    ensures
        !g.linked(source, target),
        !g.linked(target, source),
        oriented(g.with_passage(source, target), parent.insert(child, elder), new_rank),
{
    lemma_with_passage(g, source, target);
}

/// A valid grid that is oriented, spans from a root and holds two link entries
/// for each parent edge is a perfect maze.
pub proof fn lemma_spanning_tree(
    g: GridView,
    parent: Map<Location, Location>,
    rank: spec_fn(Location) -> nat,
    root: Location,
)
    requires
        g.wf(),
        oriented(g, parent, rank),
        spans(g, parent, root),
        parent.dom().finite(),
        link_entries(g) == 2 * parent.dom().len(),
    ensures
        is_perfect_maze(g),
{
    lemma_oriented_symmetric(g, parent, rank);
    lemma_oriented_acyclic(g, parent, rank);
    lemma_oriented_connected(g, parent, rank, root);
    lemma_cells_counted(g);
    assert(parent.dom() =~= cells_of(g).remove(root));
}

} // verus!
