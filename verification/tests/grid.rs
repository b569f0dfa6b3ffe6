use maze_maker::cell::MazeCell;
use maze_maker::grid::{MazeError, SmartGrid};
use maze_maker::location::{Direction, Location};

fn grid_loc(row: usize, column: usize) -> Location {
    Location { row, column }
}

#[test]
fn new_rejects_zero_rows() {
    assert_eq!(SmartGrid::new(0, 3).err(), Some(MazeError::InvalidDimensions));
}

#[test]
fn new_rejects_zero_columns() {
    assert_eq!(SmartGrid::new(3, 0).err(), Some(MazeError::InvalidDimensions));
}

#[test]
fn new_rejects_zero_by_zero() {
    assert_eq!(SmartGrid::new(0, 0).err(), Some(MazeError::InvalidDimensions));
}

#[test]
fn new_gives_rows_by_columns_cells() {
    let grid = SmartGrid::new(3, 5).unwrap();
    assert_eq!(grid.rows, 3);
    assert_eq!(grid.columns, 5);
    assert_eq!(grid.max_distance, 0);
    assert_eq!(grid.cells.len(), 3);
    for r in 0..3 {
        assert_eq!(grid.cells[r].len(), 5);
        for c in 0..5 {
            assert_eq!(grid.cells[r][c].location, grid_loc(r, c));
            assert!(grid.cells[r][c].links.is_empty());
            assert_eq!(grid.cells[r][c].distance, 0);
        }
    }
}

#[test]
fn new_computes_neighbours() {
    let grid = SmartGrid::new(2, 3).unwrap();
    assert_eq!(grid.cells[0][0].north, None);
    assert_eq!(grid.cells[0][0].west, None);
    assert_eq!(grid.cells[0][0].east, Some(grid_loc(0, 1)));
    assert_eq!(grid.cells[0][0].south, Some(grid_loc(1, 0)));
    assert_eq!(grid.cells[1][2].north, Some(grid_loc(0, 2)));
    assert_eq!(grid.cells[1][2].west, Some(grid_loc(1, 1)));
    assert_eq!(grid.cells[1][2].east, None);
    assert_eq!(grid.cells[1][2].south, None);
    assert_eq!(grid.cells[0][1].west, Some(grid_loc(0, 0)));
    assert_eq!(grid.cells[0][1].east, Some(grid_loc(0, 2)));
}

#[test]
fn single_cell_grid_has_no_neighbours() {
    let grid = SmartGrid::new(1, 1).unwrap();
    let cell = &grid.cells[0][0];
    assert_eq!(cell.north, None);
    assert_eq!(cell.east, None);
    assert_eq!(cell.south, None);
    assert_eq!(cell.west, None);
    assert!(cell.get_neighbours().is_empty());
}

#[test]
fn side_is_none_exactly_on_that_boundary() {
    let rows = 3;
    let columns = 7;
    let grid = SmartGrid::new(rows, columns).unwrap();
    for r in 0..rows {
        for c in 0..columns {
            let cell = &grid.cells[r][c];
            assert_eq!(cell.north.is_none(), r == 0);
            assert_eq!(cell.south.is_none(), r == rows - 1);
            assert_eq!(cell.west.is_none(), c == 0);
            assert_eq!(cell.east.is_none(), c == columns - 1);
        }
    }
}

#[test]
fn set_neighbour_steps_in_each_direction() {
    let place = grid_loc(2, 3);
    assert_eq!(SmartGrid::set_neighbour(5, 6, &place, Direction::North), Some(grid_loc(1, 3)));
    assert_eq!(SmartGrid::set_neighbour(5, 6, &place, Direction::East), Some(grid_loc(2, 4)));
    assert_eq!(SmartGrid::set_neighbour(5, 6, &place, Direction::South), Some(grid_loc(3, 3)));
    assert_eq!(SmartGrid::set_neighbour(5, 6, &place, Direction::West), Some(grid_loc(2, 2)));
}

#[test]
fn set_neighbour_stops_at_each_boundary() {
    assert_eq!(SmartGrid::set_neighbour(5, 6, &grid_loc(0, 3), Direction::North), None);
    assert_eq!(SmartGrid::set_neighbour(5, 6, &grid_loc(2, 5), Direction::East), None);
    assert_eq!(SmartGrid::set_neighbour(5, 6, &grid_loc(4, 3), Direction::South), None);
    assert_eq!(SmartGrid::set_neighbour(5, 6, &grid_loc(2, 0), Direction::West), None);
}

#[test]
fn set_neighbour_west_in_a_wide_grid() {
    // More columns than rows: the western neighbour depends on the column alone.
    assert_eq!(SmartGrid::set_neighbour(2, 9, &grid_loc(1, 8), Direction::West), Some(grid_loc(1, 7)));
    assert_eq!(SmartGrid::set_neighbour(2, 9, &grid_loc(0, 3), Direction::West), Some(grid_loc(0, 2)));
}

#[test]
fn prepare_grid_makes_empty_cells() {
    let mut grid = SmartGrid { rows: 2, columns: 3, cells: Vec::new(), max_distance: 0 };
    let cells = grid.prepare_grid();
    assert!(grid.cells.is_empty());
    assert_eq!(cells.len(), 2);
    for r in 0..2 {
        assert_eq!(cells[r].len(), 3);
        for c in 0..3 {
            assert_eq!(cells[r][c], MazeCell::empty(r, c));
        }
    }
}

#[test]
fn configure_cells_fills_in_neighbours_only() {
    let mut grid = SmartGrid { rows: 2, columns: 2, cells: Vec::new(), max_distance: 4 };
    grid.cells = grid.prepare_grid();
    grid.cells[1][0].distance = 9;
    grid.configure_cells();
    assert_eq!(grid.max_distance, 4);
    assert_eq!(grid.cells[1][0].distance, 9);
    assert_eq!(grid.cells[1][0].north, Some(grid_loc(0, 0)));
    assert_eq!(grid.cells[1][0].east, Some(grid_loc(1, 1)));
    assert_eq!(grid.cells[1][0].south, None);
    assert_eq!(grid.cells[1][0].west, None);
    assert!(grid.cells[1][0].links.is_empty());
}

#[test]
fn link_cells_both_ways() {
    let mut grid = SmartGrid::new(2, 2).unwrap();
    grid.link_cells(grid_loc(0, 0), grid_loc(0, 1), true);
    assert_eq!(grid.cells[0][0].links, vec![grid_loc(0, 1)]);
    assert_eq!(grid.cells[0][1].links, vec![grid_loc(0, 0)]);
    assert!(grid.cells[1][0].links.is_empty());
    assert!(grid.cells[1][1].links.is_empty());
}

#[test]
fn link_cells_one_way() {
    let mut grid = SmartGrid::new(2, 2).unwrap();
    grid.link_cells(grid_loc(1, 1), grid_loc(0, 1), false);
    assert_eq!(grid.cells[1][1].links, vec![grid_loc(0, 1)]);
    assert!(grid.cells[0][1].links.is_empty());
}

#[test]
fn link_cells_appends_in_order() {
    let mut grid = SmartGrid::new(3, 3).unwrap();
    grid.link_cells(grid_loc(1, 1), grid_loc(1, 2), true);
    grid.link_cells(grid_loc(0, 1), grid_loc(1, 1), true);
    grid.link_cells(grid_loc(1, 1), grid_loc(2, 1), true);
    assert_eq!(grid.cells[1][1].links, vec![grid_loc(1, 2), grid_loc(0, 1), grid_loc(2, 1)]);
}

#[test]
fn set_distance_changes_one_cell() {
    let mut grid = SmartGrid::new(2, 2).unwrap();
    grid.set_distance(grid_loc(1, 0), 5);
    assert_eq!(grid.cells[1][0].distance, 5);
    assert_eq!(grid.cells[0][0].distance, 0);
    assert_eq!(grid.cells[0][1].distance, 0);
    assert_eq!(grid.cells[1][1].distance, 0);
}

#[test]
fn clone_copies_every_cell() {
    let mut grid = SmartGrid::new(2, 3).unwrap();
    grid.link_cells(grid_loc(0, 0), grid_loc(1, 0), true);
    grid.set_distance(grid_loc(1, 2), 3);
    grid.max_distance = 8;
    let copy = grid.clone();
    assert_eq!(copy.rows, 2);
    assert_eq!(copy.columns, 3);
    assert_eq!(copy.max_distance, 8);
    assert_eq!(copy.cells, grid.cells);
    // The copy is independent of the grid it was made from.
    grid.link_cells(grid_loc(0, 1), grid_loc(0, 2), true);
    assert!(copy.cells[0][1].links.is_empty());
}

#[test]
fn location_default_is_the_north_west_corner() {
    assert_eq!(Location::default(), grid_loc(0, 0));
}

#[test]
fn linking_twice_is_linking_once() {
    let mut grid = SmartGrid::new(1, 2).unwrap();
    grid.link_cells(grid_loc(0, 0), grid_loc(0, 1), true);
    grid.link_cells(grid_loc(0, 0), grid_loc(0, 1), true);
    assert_eq!(grid.cells[0][0].links, vec![grid_loc(0, 1)]);
    assert_eq!(grid.cells[0][1].links, vec![grid_loc(0, 0)]);
    let entries: usize = grid.cells.iter().flatten().map(|cell| cell.links.len()).sum();
    assert_eq!(entries / 2, 1);
    // From the other end it is the same passage still.
    grid.link_cells(grid_loc(0, 1), grid_loc(0, 0), true);
    assert_eq!(grid.cells[0][0].links, vec![grid_loc(0, 1)]);
    assert_eq!(grid.cells[0][1].links, vec![grid_loc(0, 0)]);
}

#[test]
fn linking_twice_one_way_is_linking_once() {
    let mut grid = SmartGrid::new(2, 2).unwrap();
    grid.link_cells(grid_loc(1, 1), grid_loc(0, 1), false);
    grid.link_cells(grid_loc(1, 1), grid_loc(0, 1), false);
    assert_eq!(grid.cells[1][1].links, vec![grid_loc(0, 1)]);
    assert!(grid.cells[0][1].links.is_empty());
}

#[test]
fn a_one_way_passage_is_opened_the_other_way() {
    let mut grid = SmartGrid::new(1, 2).unwrap();
    grid.link_cells(grid_loc(0, 0), grid_loc(0, 1), false);
    grid.link_cells(grid_loc(0, 0), grid_loc(0, 1), true);
    assert_eq!(grid.cells[0][0].links, vec![grid_loc(0, 1)]);
    assert_eq!(grid.cells[0][1].links, vec![grid_loc(0, 0)]);
}

#[test]
fn linking_again_keeps_the_order_of_the_links() {
    let mut grid = SmartGrid::new(3, 3).unwrap();
    grid.link_cells(grid_loc(1, 1), grid_loc(1, 2), true);
    grid.link_cells(grid_loc(0, 1), grid_loc(1, 1), true);
    grid.link_cells(grid_loc(1, 1), grid_loc(2, 1), true);
    grid.link_cells(grid_loc(1, 1), grid_loc(1, 2), true);
    grid.link_cells(grid_loc(1, 1), grid_loc(0, 1), true);
    assert_eq!(grid.cells[1][1].links, vec![grid_loc(1, 2), grid_loc(0, 1), grid_loc(2, 1)]);
    assert_eq!(grid.cells[1][2].links, vec![grid_loc(1, 1)]);
    assert_eq!(grid.cells[0][1].links, vec![grid_loc(1, 1)]);
}
