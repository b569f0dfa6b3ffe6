//! Distances along the passages: the least number of passages over which a
//! walk from an origin reaches a cell.

use vstd::prelude::*;
use crate::graph::{joined, walk_between};
use crate::grid::GridView;
use crate::location::Location;

verus! {

/// Whether some walk from `origin` reaches `place` over `hops` passages or
/// fewer.
pub open spec fn within(g: GridView, origin: Location, place: Location, hops: nat) -> bool {
    exists|path: Seq<Location>| #[trigger]
        walk_between(g, path, origin, place) && path.len() <= hops + 1
}

/// Whether `hops` is the least number of passages over which a walk from
/// `origin` reaches `place`.
pub open spec fn hops_from(g: GridView, origin: Location, place: Location, hops: nat) -> bool {
    within(g, origin, place, hops) && (hops == 0 || !within(g, origin, place, (hops - 1) as nat))
}

/// The origin is reached over no passage at all, and it alone.
pub proof fn lemma_within_zero(g: GridView, origin: Location, place: Location)
    requires
        g.in_bounds(origin),
    ensures
        within(g, origin, origin, 0),
        within(g, origin, place, 0) ==> place == origin,
{
    assert(walk_between(g, seq![origin], origin, origin));
}

/// What is reached over few passages is reached over more.
pub proof fn lemma_within_more(g: GridView, origin: Location, place: Location, few: nat, more: nat)
    requires
        within(g, origin, place, few),
        few <= more,
    ensures
        within(g, origin, place, more),
{
    let path = choose|path: Seq<Location>| #[trigger]
        walk_between(g, path, origin, place) && path.len() <= few + 1;
    assert(walk_between(g, path, origin, place) && path.len() <= more + 1);
}

/// One passage further, one hop more.
pub proof fn lemma_within_step(g: GridView, origin: Location, a: Location, b: Location, hops: nat)
    requires
        within(g, origin, a, hops),
        g.linked(a, b),
    ensures
        within(g, origin, b, hops + 1),
{
    let path = choose|path: Seq<Location>| #[trigger]
        walk_between(g, path, origin, a) && path.len() <= hops + 1;
    let longer = path.push(b);
    assert(walk_between(g, longer, origin, b) && longer.len() <= hops + 1 + 1);
}

/// A cell first reached over `hops + 1` passages is entered from a cell first
/// reached over `hops`.
pub proof fn lemma_within_back(g: GridView, origin: Location, b: Location, hops: nat) -> (a:
    Location)
    requires
        within(g, origin, b, hops + 1),
        !within(g, origin, b, hops),
    ensures
        hops_from(g, origin, a, hops),
        g.linked(a, b),
{
    let path = choose|path: Seq<Location>| #[trigger]
        walk_between(g, path, origin, b) && path.len() <= hops + 1 + 1;
    let shorter = path.drop_last();
    let a = shorter.last();
    assert(walk_between(g, shorter, origin, a) && shorter.len() <= hops + 1);
    if hops > 0 && within(g, origin, a, (hops - 1) as nat) {
        lemma_within_step(g, origin, a, b, (hops - 1) as nat);
    }
    a
}

/// A cell has at most one least number of passages.
pub proof fn lemma_hops_unique(g: GridView, origin: Location, place: Location, one: nat, other: nat)
    requires
        hops_from(g, origin, place, one),
        hops_from(g, origin, place, other),
    ensures
        one == other,
{
    if one < other {
        lemma_within_more(g, origin, place, one, (other - 1) as nat);
    }
    if other < one {
        lemma_within_more(g, origin, place, other, (one - 1) as nat);
    }
}

/// Where no cell is first reached over `level` passages, every cell that is
/// reached at all is reached over fewer.
pub proof fn lemma_sweep_complete(
    g: GridView,
    origin: Location,
    level: nat,
    place: Location,
    hops: nat,
)
    requires
        g.links_adjacent(),
        g.in_bounds(origin),
        level >= 1,
        forall|other: Location| g.in_bounds(other) ==> !hops_from(g, origin, other, level),
        within(g, origin, place, hops),
    ensures
        within(g, origin, place, (level - 1) as nat),
    decreases hops,
{
    lemma_walk_ends_inside(g, origin, place, hops);
    if hops <= level - 1 {
        lemma_within_more(g, origin, place, hops, (level - 1) as nat);
    } else if within(g, origin, place, (hops - 1) as nat) {
        lemma_sweep_complete(g, origin, level, place, (hops - 1) as nat);
    } else {
        let a = lemma_within_back(g, origin, place, (hops - 1) as nat);
        lemma_sweep_complete(g, origin, level, a, (hops - 1) as nat);
        if hops - 1 >= level {
            lemma_within_more(g, origin, a, (level - 1) as nat, (hops - 2) as nat);
        }
    }
}

/// A walk from a cell of the grid never leaves the grid.
pub proof fn lemma_walk_ends_inside(g: GridView, origin: Location, place: Location, hops: nat)
    requires
        g.links_adjacent(),
        within(g, origin, place, hops),
    ensures
        g.in_bounds(place),
{
    let path = choose|path: Seq<Location>| #[trigger]
        walk_between(g, path, origin, place) && path.len() <= hops + 1;
    if path.len() >= 2 {
        let i = path.len() - 2;
        assert(g.linked(path[i], path[i + 1]));
    }
}

/// Being reached over some number of passages is being joined to the origin.
pub proof fn lemma_joined_within(g: GridView, origin: Location, place: Location)
    ensures
        joined(g, origin, place) <==> exists|hops: nat| within(g, origin, place, hops),
{
    if joined(g, origin, place) {
        let path = choose|path: Seq<Location>| walk_between(g, path, origin, place);
        assert(within(g, origin, place, path.len()));
    }
    if exists|hops: nat| within(g, origin, place, hops) {
        let hops = choose|hops: nat| within(g, origin, place, hops);
        let path = choose|path: Seq<Location>| #[trigger]
            walk_between(g, path, origin, place) && path.len() <= hops + 1;
        assert(walk_between(g, path, origin, place));
    }
}

} // verus!
