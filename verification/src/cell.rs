//! A single cell of the grid: its position, its structural neighbours, the
//! passages that leave it, and the distance the solver assigned to it.

use vstd::prelude::*;
use crate::location::{Direction, Location};

verus! {

/// One grid position.
///
/// `north`, `east`, `south` and `west` are the structural neighbours; `links`
/// holds the neighbours to which a passage is open, each once: it is a set,
/// kept in the order in which the passages were opened.
#[derive(Debug, PartialEq, Eq)]
pub struct MazeCell {
    pub location: Location,
    pub north: Option<Location>,
    pub east: Option<Location>,
    pub south: Option<Location>,
    pub west: Option<Location>,
    pub links: Vec<Location>,
    pub distance: usize,
}

/// The mathematical value of a [`MazeCell`].
pub struct CellView {
    pub location: Location,
    pub north: Option<Location>,
    pub east: Option<Location>,
    pub south: Option<Location>,
    pub west: Option<Location>,
    pub links: Seq<Location>,
    pub distance: usize,
}

/// The sequence holding the location of `side`, or nothing.
pub open spec fn present(side: Option<Location>) -> Seq<Location> {
    match side {
        Some(l) => seq![l],
        None => Seq::empty(),
    }
}

impl CellView {
    /// A cell at `location` with no neighbours, no links and distance zero.
    pub open spec fn empty(location: Location) -> CellView {
        CellView {
            location,
            north: None,
            east: None,
            south: None,
            west: None,
            links: Seq::empty(),
            distance: 0,
        }
    }

    /// The structural neighbour on the given side.
    pub open spec fn neighbour(self, direction: Direction) -> Option<Location> {
        match direction {
            Direction::North => self.north,
            Direction::East => self.east,
            Direction::South => self.south,
            Direction::West => self.west,
        }
    }

    /// The structural neighbours that exist, in the order north, east, south,
    /// west.
    pub open spec fn neighbours(self) -> Seq<Location> {
        present(self.north) + present(self.east) + present(self.south) + present(self.west)
    }

    /// Whether a passage leads to the neighbour on the given side.
    pub open spec fn linked_towards(self, direction: Direction) -> bool {
        match self.neighbour(direction) {
            Some(n) => self.links.contains(n),
            None => false,
        }
    }

    /// The same cell with `target` among its links: added at the end if it was
    /// not yet there, and the cell as it is if it was. The links are a set.
    pub open spec fn with_link(self, target: Location) -> CellView {
        if self.links.contains(target) {
            self
        } else {
            CellView { links: self.links.push(target), ..self }
        }
    }

    /// The same cell with another distance.
    pub open spec fn with_distance(self, distance: usize) -> CellView {
        CellView { distance, ..self }
    }
}

impl View for MazeCell {
    type V = CellView;

    open spec fn view(&self) -> CellView {
        CellView {
            location: self.location,
            north: self.north,
            east: self.east,
            south: self.south,
            west: self.west,
            links: self.links@,
            distance: self.distance,
        }
    }
}

impl Default for MazeCell {
    fn default() -> (cell: MazeCell)
        ensures
            cell@ == CellView::empty(Location { row: 0, column: 0 }),
    {
        MazeCell::empty(0, 0)
    }
}

impl Clone for MazeCell {
    fn clone(&self) -> (copy: MazeCell)
        ensures
            copy@ == self@,
    {
        let mut links: Vec<Location> = Vec::new();
        let mut i: usize = 0;
        while i < self.links.len()
            invariant
                i <= self.links.len(),
                links@ == self.links@.take(i as int),
            decreases self.links.len() - i,
        {
            links.push(self.links[i]);
            i += 1;
        }
        assert(self.links@.take(self.links.len() as int) == self.links@);
        MazeCell {
            location: self.location,
            north: self.north,
            east: self.east,
            south: self.south,
            west: self.west,
            links,
            distance: self.distance,
        }
    }
}

impl MazeCell {
    /// A cell at the given position with no neighbours and no links.
    pub fn empty(row: usize, column: usize) -> (cell: MazeCell)
        ensures
            cell@ == CellView::empty(Location { row, column }),
    {
        MazeCell {
            location: Location { row, column },
            north: None,
            east: None,
            south: None,
            west: None,
            links: Vec::new(),
            distance: 0,
        }
    }

    /// The structural neighbours that exist, in the order north, east, south,
    /// west.
    pub fn get_neighbours(&self) -> (neighbours: Vec<Location>)
        ensures
            neighbours@ == self@.neighbours(),
    {
        let mut neighbours: Vec<Location> = Vec::new();
        if let Some(l) = self.north {
            neighbours.push(l);
        }
        if let Some(l) = self.east {
            neighbours.push(l);
        }
        if let Some(l) = self.south {
            neighbours.push(l);
        }
        if let Some(l) = self.west {
            neighbours.push(l);
        }
        neighbours
    }

    /// Whether no passage leaves this cell.
    pub fn is_unlinked(&self) -> (unlinked: bool)
        ensures
            unlinked == (self@.links.len() == 0),
    {
        self.links.len() == 0
    }

    /// Whether some passage leaves this cell.
    pub fn is_linked(&self) -> (linked: bool)
        ensures
            linked == (self@.links.len() > 0),
    {
        self.links.len() != 0
    }

    /// Whether a passage leads from this cell to `target`.
    pub fn has_link(&self, target: Location) -> (found: bool)
        ensures
            found == self@.links.contains(target),
    {
        let mut i: usize = 0;
        while i < self.links.len()
            invariant
                i <= self.links.len(),
                forall|j: int| 0 <= j < i ==> self.links@[j] != target,
            decreases self.links.len() - i,
        {
            if self.links[i] == target {
                return true;
            }
            i += 1;
        }
        false
    }

    /// Adds `target` to the links of this cell, unless it is there already.
    pub fn add_link(&mut self, target: Location)
        ensures
            final(self)@ == old(self)@.with_link(target),
    {
        if !self.has_link(target) {
            self.links.push(target);
        }
    }

    /// Whether a passage leads to the neighbour on the given side; false where
    /// the cell has no neighbour there.
    pub fn is_linked_to(&self, direction: Direction) -> (linked: bool)
        ensures
            linked == self@.linked_towards(direction),
    {
        let side = match direction {
            Direction::North => self.north,
            Direction::East => self.east,
            Direction::South => self.south,
            Direction::West => self.west,
        };
        match side {
            Some(n) => self.has_link(n),
            None => false,
        }
    }
}

} // verus!
