use maze_maker::cell::MazeCell;
use maze_maker::location::{Direction, Location};

fn cell_loc(row: usize, column: usize) -> Location {
    Location { row, column }
}

fn inner_cell() -> MazeCell {
    MazeCell {
        location: cell_loc(1, 1),
        north: Some(cell_loc(0, 1)),
        east: Some(cell_loc(1, 2)),
        south: Some(cell_loc(2, 1)),
        west: Some(cell_loc(1, 0)),
        links: Vec::new(),
        distance: 0,
    }
}

#[test]
fn empty_cell_has_nothing_but_its_location() {
    let cell = MazeCell::empty(3, 4);
    assert_eq!(cell.location, cell_loc(3, 4));
    assert_eq!(cell.north, None);
    assert_eq!(cell.east, None);
    assert_eq!(cell.south, None);
    assert_eq!(cell.west, None);
    assert!(cell.links.is_empty());
    assert_eq!(cell.distance, 0);
}

#[test]
fn default_cell_is_the_empty_cell_at_the_origin() {
    assert_eq!(MazeCell::default(), MazeCell::empty(0, 0));
}

#[test]
fn get_neighbours_in_compass_order() {
    assert_eq!(
        inner_cell().get_neighbours(),
        vec![cell_loc(0, 1), cell_loc(1, 2), cell_loc(2, 1), cell_loc(1, 0)]
    );
}

#[test]
fn get_neighbours_skips_missing_sides() {
    let mut cell = inner_cell();
    cell.north = None;
    cell.south = None;
    assert_eq!(cell.get_neighbours(), vec![cell_loc(1, 2), cell_loc(1, 0)]);
    assert!(MazeCell::empty(0, 0).get_neighbours().is_empty());
}

#[test]
fn unlinked_until_a_link_is_added() {
    let mut cell = inner_cell();
    assert!(cell.is_unlinked());
    assert!(!cell.is_linked());
    cell.links.push(cell_loc(1, 2));
    assert!(!cell.is_unlinked());
    assert!(cell.is_linked());
}

#[test]
fn has_link_finds_what_was_added() {
    let mut cell = inner_cell();
    cell.links.push(cell_loc(1, 2));
    cell.links.push(cell_loc(0, 1));
    assert!(cell.has_link(cell_loc(1, 2)));
    assert!(cell.has_link(cell_loc(0, 1)));
    assert!(!cell.has_link(cell_loc(2, 1)));
    assert!(!cell.has_link(cell_loc(1, 1)));
}

#[test]
fn is_linked_to_follows_the_links() {
    let mut cell = inner_cell();
    cell.links.push(cell_loc(1, 2));
    assert!(cell.is_linked_to(Direction::East));
    assert!(!cell.is_linked_to(Direction::North));
    assert!(!cell.is_linked_to(Direction::South));
    assert!(!cell.is_linked_to(Direction::West));
}

#[test]
fn is_linked_to_is_false_without_links() {
    let cell = inner_cell();
    assert!(!cell.is_linked_to(Direction::North));
    assert!(!cell.is_linked_to(Direction::East));
    assert!(!cell.is_linked_to(Direction::South));
    assert!(!cell.is_linked_to(Direction::West));
}

#[test]
fn is_linked_to_is_false_at_a_boundary() {
    let mut cell = inner_cell();
    cell.north = None;
    cell.links.push(cell_loc(0, 1));
    assert!(!cell.is_linked_to(Direction::North));
}

#[test]
fn clone_keeps_links_and_distance() {
    let mut cell = inner_cell();
    cell.links.push(cell_loc(2, 1));
    cell.distance = 6;
    assert_eq!(cell.clone(), cell);
}

#[test]
fn add_link_adds_what_is_not_there() {
    let mut cell = inner_cell();
    cell.add_link(cell_loc(1, 2));
    cell.add_link(cell_loc(0, 1));
    assert_eq!(cell.links, vec![cell_loc(1, 2), cell_loc(0, 1)]);
    cell.add_link(cell_loc(1, 2));
    cell.add_link(cell_loc(0, 1));
    assert_eq!(cell.links, vec![cell_loc(1, 2), cell_loc(0, 1)]);
    cell.add_link(cell_loc(2, 1));
    assert_eq!(cell.links, vec![cell_loc(1, 2), cell_loc(0, 1), cell_loc(2, 1)]);
}
