use maze_maker::grid::SmartGrid;
use maze_maker::location::{Direction, Location};
use maze_maker::maze_makers::{binary_tree, hunt_and_kill};
use maze_maker::render::{
    ascii_picture, cell_snapshot, draws_wall, grid_snapshot, side, CellSnapshot, ColourType, Side,
};
use maze_maker::sidewinder_hardcoded::static_sidewinder;
use maze_maker::solve::dijkstra_simplified_solver;

fn spot(row: usize, column: usize) -> Location {
    Location { row, column }
}

#[test]
fn picture_of_a_single_cell() {
    let grid = SmartGrid::new(1, 1).unwrap();
    assert_eq!(ascii_picture(&grid), "+---+\n|   |\n+---+\n");
}

#[test]
fn picture_of_a_blank_grid() {
    let grid = SmartGrid::new(2, 3).unwrap();
    assert_eq!(
        ascii_picture(&grid),
        "+---+---+---+\n|   |   |   |\n+---+---+---+\n|   |   |   |\n+---+---+---+\n"
    );
}

#[test]
fn picture_of_the_static_maze() {
    let expected = "+---+---+---+---+\n\
                    |               |\n\
                    +---+---+---+   +\n\
                    |               |\n\
                    +   +---+   +   +\n\
                    |       |   |   |\n\
                    +   +   +---+---+\n\
                    |   |           |\n\
                    +---+---+---+---+\n";
    assert_eq!(ascii_picture(&static_sidewinder()), expected);
}

#[test]
fn picture_opens_east_and_south() {
    let mut grid = SmartGrid::new(2, 2).unwrap();
    grid.link_cells(spot(0, 0), spot(0, 1), true);
    grid.link_cells(spot(0, 1), spot(1, 1), true);
    assert_eq!(ascii_picture(&grid), "+---+---+\n|       |\n+---+   +\n|   |   |\n+---+---+\n");
}

#[test]
fn picture_ignores_distances() {
    let maze = static_sidewinder();
    let before = ascii_picture(&maze);
    assert_eq!(ascii_picture(&dijkstra_simplified_solver(maze)), before);
}

#[test]
fn passages_can_be_read_back_from_the_picture() {
    let rows = 5;
    let columns = 8;
    for maze in [
        binary_tree(SmartGrid::new(rows, columns).unwrap()),
        hunt_and_kill(SmartGrid::new(rows, columns).unwrap()),
    ] {
        let text: Vec<char> = ascii_picture(&maze).chars().collect();
        let width = 4 * columns + 2;
        assert_eq!(text.len(), (2 * rows + 1) * width);
        for r in 0..rows {
            for c in 0..columns {
                let cell = &maze.cells[r][c];
                let east = text[(2 * r + 1) * width + 4 * c + 4] == ' ';
                assert_eq!(east, cell.is_linked_to(Direction::East));
                assert_eq!(east, side(cell, Direction::East) == Side::Open);
                for t in 1..4 {
                    let south = text[(2 * r + 2) * width + 4 * c + t] == ' ';
                    assert_eq!(south, cell.is_linked_to(Direction::South));
                    assert_eq!(south, side(cell, Direction::South) == Side::Open);
                }
                // What lies west and north of a cell is read from its neighbours.
                if c > 0 {
                    let west = text[(2 * r + 1) * width + 4 * c] == ' ';
                    assert_eq!(west, cell.is_linked_to(Direction::West));
                }
                if r > 0 {
                    let north = text[2 * r * width + 4 * c + 1] == ' ';
                    assert_eq!(north, cell.is_linked_to(Direction::North));
                }
            }
        }
    }
}

#[test]
fn sides_of_a_corner_cell() {
    let mut grid = SmartGrid::new(2, 2).unwrap();
    grid.link_cells(spot(0, 0), spot(0, 1), true);
    let cell = &grid.cells[0][0];
    assert_eq!(side(cell, Direction::North), Side::Boundary);
    assert_eq!(side(cell, Direction::West), Side::Boundary);
    assert_eq!(side(cell, Direction::East), Side::Open);
    assert_eq!(side(cell, Direction::South), Side::Walled);
}

#[test]
fn snapshot_of_a_cell() {
    let solved = dijkstra_simplified_solver(static_sidewinder());
    assert_eq!(
        cell_snapshot(&solved.cells[1][3]),
        CellSnapshot {
            location: spot(1, 3),
            north: Side::Open,
            east: Side::Boundary,
            south: Side::Open,
            west: Side::Open,
            distance: 4,
        }
    );
    assert_eq!(
        cell_snapshot(&solved.cells[2][2]),
        CellSnapshot {
            location: spot(2, 2),
            north: Side::Open,
            east: Side::Walled,
            south: Side::Walled,
            west: Side::Walled,
            distance: 6,
        }
    );
}

#[test]
fn snapshot_of_a_grid() {
    let maze = static_sidewinder();
    let taken = grid_snapshot(&maze);
    assert_eq!(taken.len(), 4);
    for r in 0..4 {
        assert_eq!(taken[r].len(), 4);
        for c in 0..4 {
            assert_eq!(taken[r][c], cell_snapshot(&maze.cells[r][c]));
            assert_eq!(taken[r][c].location, spot(r, c));
        }
    }
}

#[test]
fn walls_are_drawn_once() {
    let taken = grid_snapshot(&static_sidewinder());
    // North and west walls only where the grid ends.
    for r in 0..4 {
        for c in 0..4 {
            assert_eq!(draws_wall(&taken[r][c], Direction::North), r == 0);
            assert_eq!(draws_wall(&taken[r][c], Direction::West), c == 0);
        }
    }
    // East and south walls wherever no passage leads.
    assert!(!draws_wall(&taken[0][0], Direction::East));
    assert!(draws_wall(&taken[0][0], Direction::South));
    assert!(draws_wall(&taken[0][3], Direction::East));
    assert!(!draws_wall(&taken[0][3], Direction::South));
    assert!(draws_wall(&taken[2][1], Direction::East));
    assert!(!draws_wall(&taken[2][1], Direction::South));
    assert!(draws_wall(&taken[3][3], Direction::East));
    assert!(draws_wall(&taken[3][3], Direction::South));
}

#[test]
fn walls_take_the_default_colours_by_default() {
    assert_eq!(ColourType::default(), ColourType::Default);
    assert_ne!(ColourType::default(), ColourType::Party);
    assert_ne!(ColourType::default(), ColourType::Custom);
}
