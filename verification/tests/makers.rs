use maze_maker::cell::MazeCell;
use maze_maker::grid::SmartGrid;
use maze_maker::growth::{get_unvisited_neighbours, get_visited_neighbours, hunt};
use maze_maker::location::Location;
use maze_maker::maze_makers::{
    aldous_broder, aldous_broder_step, binary_tree, hunt_and_kill, pick_neighbour,
    random_cell_location, should_close_run, sidewinder,
};
use maze_maker::random::Draws;

fn loc(row: usize, column: usize) -> Location {
    Location { row, column }
}

fn side_by_side(a: Location, b: Location) -> bool {
    let rows = if a.row > b.row { a.row - b.row } else { b.row - a.row };
    let columns = if a.column > b.column { a.column - b.column } else { b.column - a.column };
    rows + columns == 1
}

/// Panics unless the passages of `maze` form a spanning tree of its cells.
fn assert_perfect(maze: &SmartGrid) {
    let cells = maze.rows * maze.columns;
    let mut entries = 0;
    for r in 0..maze.rows {
        for c in 0..maze.columns {
            let cell = &maze.cells[r][c];
            assert_eq!(cell.location, loc(r, c));
            assert_eq!(cell.distance, 0);
            let neighbours = cell.get_neighbours();
            for (i, link) in cell.links.iter().enumerate() {
                assert!(link.row < maze.rows && link.column < maze.columns);
                assert!(side_by_side(cell.location, *link));
                assert!(neighbours.contains(link));
                assert!(maze.cells[link.row][link.column].links.contains(&cell.location));
                assert!(!cell.links[..i].contains(link));
            }
            entries += cell.links.len();
        }
    }
    assert_eq!(entries % 2, 0);
    assert_eq!(entries / 2, cells - 1);
    let mut reached = vec![vec![false; maze.columns]; maze.rows];
    let mut stack = vec![loc(0, 0)];
    reached[0][0] = true;
    let mut count = 1;
    while let Some(place) = stack.pop() {
        for link in &maze.cells[place.row][place.column].links {
            if !reached[link.row][link.column] {
                reached[link.row][link.column] = true;
                count += 1;
                stack.push(*link);
            }
        }
    }
    assert_eq!(count, cells);
}

fn sizes() -> Vec<(usize, usize)> {
    vec![(1, 1), (1, 2), (2, 1), (1, 9), (9, 1), (2, 2), (3, 5), (5, 3), (8, 8), (15, 15)]
}

#[test]
fn binary_tree_makes_perfect_mazes() {
    for (rows, columns) in sizes() {
        for _ in 0..20 {
            assert_perfect(&binary_tree(SmartGrid::new(rows, columns).unwrap()));
        }
    }
}

#[test]
fn sidewinder_makes_perfect_mazes() {
    for (rows, columns) in sizes() {
        for _ in 0..20 {
            assert_perfect(&sidewinder(SmartGrid::new(rows, columns).unwrap()));
        }
    }
}

#[test]
fn aldous_broder_makes_perfect_mazes() {
    for (rows, columns) in sizes() {
        for _ in 0..20 {
            assert_perfect(&aldous_broder(SmartGrid::new(rows, columns).unwrap()));
        }
    }
}

#[test]
fn hunt_and_kill_makes_perfect_mazes() {
    for (rows, columns) in sizes() {
        for _ in 0..20 {
            assert_perfect(&hunt_and_kill(SmartGrid::new(rows, columns).unwrap()));
        }
    }
}

#[test]
fn generators_leave_a_single_cell_alone() {
    assert!(binary_tree(SmartGrid::new(1, 1).unwrap()).cells[0][0].links.is_empty());
    assert!(sidewinder(SmartGrid::new(1, 1).unwrap()).cells[0][0].links.is_empty());
    assert!(aldous_broder(SmartGrid::new(1, 1).unwrap()).cells[0][0].links.is_empty());
    assert!(hunt_and_kill(SmartGrid::new(1, 1).unwrap()).cells[0][0].links.is_empty());
}

#[test]
fn binary_tree_on_two_by_two() {
    let mut went_north = false;
    let mut went_east = false;
    for _ in 0..200 {
        let maze = binary_tree(SmartGrid::new(2, 2).unwrap());
        // The south-west cell carves north or east, not both.
        let south_west = &maze.cells[1][0].links;
        assert_eq!(south_west.len(), 1);
        if south_west[0] == loc(0, 0) {
            went_north = true;
            // The north-west cell carves east and receives from the south.
            assert_eq!(maze.cells[0][0].links, vec![loc(0, 1), loc(1, 0)]);
            // The south-east cell carves north.
            assert_eq!(maze.cells[1][1].links, vec![loc(0, 1)]);
        } else {
            went_east = true;
            assert_eq!(south_west[0], loc(1, 1));
            assert_eq!(maze.cells[0][0].links, vec![loc(0, 1)]);
            assert_eq!(maze.cells[1][1].links, vec![loc(1, 0), loc(0, 1)]);
        }
        // The north-east cell carves nothing: it only receives.
        assert_eq!(maze.cells[0][1].links, vec![loc(0, 0), loc(1, 1)]);
    }
    // Both draws come up.
    assert!(went_north && went_east);
}

#[test]
fn binary_tree_carves_north_or_east_from_every_cell() {
    let rows = 6;
    let columns = 9;
    for _ in 0..20 {
        let maze = binary_tree(SmartGrid::new(rows, columns).unwrap());
        for r in 0..rows {
            for c in 0..columns {
                let cell = &maze.cells[r][c];
                let north = r > 0 && cell.links.contains(&loc(r - 1, c));
                let east = c + 1 < columns && cell.links.contains(&loc(r, c + 1));
                if r == 0 && c == columns - 1 {
                    assert!(!north && !east);
                } else {
                    assert!(north != east);
                }
            }
        }
    }
}

#[test]
fn binary_tree_opens_top_row_and_last_column() {
    let maze = binary_tree(SmartGrid::new(4, 5).unwrap());
    for c in 0..4 {
        assert!(maze.cells[0][c].links.contains(&loc(0, c + 1)));
    }
    for r in 1..4 {
        assert!(maze.cells[r][4].links.contains(&loc(r - 1, 4)));
    }
}

#[test]
fn pick_neighbour_takes_east_for_zero_and_north_for_one() {
    assert_eq!(pick_neighbour(loc(1, 2), loc(0, 1), 0), loc(1, 2));
    assert_eq!(pick_neighbour(loc(1, 2), loc(0, 1), 1), loc(0, 1));
}

#[test]
fn sidewinder_on_a_single_row_is_one_corridor() {
    for columns in 1..12 {
        let maze = sidewinder(SmartGrid::new(1, columns).unwrap());
        for c in 0..columns {
            let mut expected = Vec::new();
            if c > 0 {
                expected.push(loc(0, c - 1));
            }
            if c + 1 < columns {
                expected.push(loc(0, c + 1));
            }
            assert_eq!(maze.cells[0][c].links, expected);
        }
    }
}

#[test]
fn sidewinder_opens_the_top_row() {
    for _ in 0..20 {
        let maze = sidewinder(SmartGrid::new(5, 6).unwrap());
        for c in 0..5 {
            assert!(maze.cells[0][c].links.contains(&loc(0, c + 1)));
        }
    }
}

#[test]
fn sidewinder_runs_carve_north_once() {
    let rows = 7;
    let columns = 10;
    for _ in 0..20 {
        let maze = sidewinder(SmartGrid::new(rows, columns).unwrap());
        for r in 1..rows {
            let mut north_links = 0;
            for c in 0..columns {
                let cell = &maze.cells[r][c];
                if cell.links.contains(&loc(r - 1, c)) {
                    north_links += 1;
                }
                if c + 1 == columns || !cell.links.contains(&loc(r, c + 1)) {
                    // A run ends here: exactly one of its cells has carved north.
                    assert_eq!(north_links, 1);
                    north_links = 0;
                }
            }
        }
    }
}

#[test]
fn should_close_run_in_the_last_column() {
    let grid = SmartGrid::new(3, 3).unwrap();
    assert!(should_close_run(&grid.cells[0][2], 0));
    assert!(should_close_run(&grid.cells[0][2], 1));
    assert!(should_close_run(&grid.cells[2][2], 0));
    assert!(should_close_run(&grid.cells[2][2], 1));
}

#[test]
fn should_close_run_never_earlier_in_the_top_row() {
    let grid = SmartGrid::new(3, 3).unwrap();
    assert!(!should_close_run(&grid.cells[0][0], 0));
    assert!(!should_close_run(&grid.cells[0][0], 1));
    assert!(!should_close_run(&grid.cells[0][1], 0));
    assert!(!should_close_run(&grid.cells[0][1], 1));
}

#[test]
fn should_close_run_on_a_zero_below_the_top_row() {
    let grid = SmartGrid::new(3, 3).unwrap();
    assert!(should_close_run(&grid.cells[1][0], 0));
    assert!(!should_close_run(&grid.cells[1][0], 1));
    assert!(should_close_run(&grid.cells[2][1], 0));
    assert!(!should_close_run(&grid.cells[2][1], 1));
}

#[test]
fn random_cell_location_stays_inside() {
    let grid = SmartGrid::new(3, 7).unwrap();
    let mut draws = Draws::ambient();
    for _ in 0..500 {
        let place = random_cell_location(&grid, &mut draws);
        assert!(place.row < 3);
        assert!(place.column < 7);
    }
    let single = SmartGrid::new(1, 1).unwrap();
    assert_eq!(random_cell_location(&single, &mut draws), loc(0, 0));
}

#[test]
fn random_cell_location_varies() {
    let grid = SmartGrid::new(4, 4).unwrap();
    let mut draws = Draws::ambient();
    let first = random_cell_location(&grid, &mut draws);
    let mut varied = false;
    for _ in 0..500 {
        if random_cell_location(&grid, &mut draws) != first {
            varied = true;
        }
    }
    assert!(varied);
}

#[test]
fn walks_take_different_ways() {
    // In a row of three cells the middle cell is linked first to the side from
    // which the walk reaches it, or to the side the walk picks when it starts
    // there: both orders come up.
    let mut west_first = false;
    let mut east_first = false;
    for _ in 0..500 {
        for maze in [
            hunt_and_kill(SmartGrid::new(1, 3).unwrap()),
            aldous_broder(SmartGrid::new(1, 3).unwrap()),
        ] {
            let middle = &maze.cells[0][1].links;
            assert_eq!(middle.len(), 2);
            if middle[0] == loc(0, 0) {
                assert_eq!(middle[1], loc(0, 2));
                west_first = true;
            } else {
                assert_eq!(middle[0], loc(0, 2));
                assert_eq!(middle[1], loc(0, 0));
                east_first = true;
            }
        }
    }
    assert!(west_first && east_first);
}

#[test]
fn unvisited_and_visited_neighbours_split_the_neighbours() {
    let mut grid = SmartGrid::new(3, 3).unwrap();
    grid.link_cells(loc(0, 1), loc(0, 2), true);
    grid.link_cells(loc(1, 0), loc(0, 0), true);
    let around = grid.cells[1][1].get_neighbours();
    assert_eq!(around, vec![loc(0, 1), loc(1, 2), loc(2, 1), loc(1, 0)]);
    assert_eq!(get_unvisited_neighbours(around.clone(), &grid), vec![loc(1, 2), loc(2, 1)]);
    assert_eq!(get_visited_neighbours(around, &grid), vec![loc(0, 1), loc(1, 0)]);
}

#[test]
fn neighbours_of_a_blank_grid_are_all_unvisited() {
    let grid = SmartGrid::new(2, 2).unwrap();
    let around = grid.cells[0][0].get_neighbours();
    assert_eq!(get_unvisited_neighbours(around.clone(), &grid), around);
    assert!(get_visited_neighbours(around, &grid).is_empty());
    assert!(get_unvisited_neighbours(Vec::new(), &grid).is_empty());
}

#[test]
fn hunt_finds_nothing_in_a_blank_grid() {
    assert_eq!(hunt(&SmartGrid::new(3, 3).unwrap()), None);
    assert_eq!(hunt(&SmartGrid::new(1, 1).unwrap()), None);
}

#[test]
fn hunt_finds_the_first_cell_beside_the_maze() {
    let mut grid = SmartGrid::new(3, 3).unwrap();
    grid.link_cells(loc(1, 1), loc(1, 2), true);
    // Reading row by row, the first unvisited cell with a visited neighbour is
    // the one north of the passage's western end.
    assert_eq!(hunt(&grid), Some(loc(0, 1)));
    grid.link_cells(loc(0, 1), loc(1, 1), true);
    assert_eq!(hunt(&grid), Some(loc(0, 0)));
}

#[test]
fn hunt_finds_nothing_in_a_finished_maze() {
    let maze = hunt_and_kill(SmartGrid::new(4, 4).unwrap());
    assert_eq!(hunt(&maze), None);
}

#[test]
fn generators_keep_locations_and_neighbours() {
    let blank = SmartGrid::new(3, 4).unwrap();
    let maze = aldous_broder(blank.clone());
    for r in 0..3 {
        for c in 0..4 {
            let before: &MazeCell = &blank.cells[r][c];
            let after: &MazeCell = &maze.cells[r][c];
            assert_eq!(after.location, before.location);
            assert_eq!(after.north, before.north);
            assert_eq!(after.east, before.east);
            assert_eq!(after.south, before.south);
            assert_eq!(after.west, before.west);
            assert_eq!(after.distance, before.distance);
        }
    }
    assert_eq!(maze.max_distance, blank.max_distance);
}

#[test]
fn a_walk_step_carves_into_an_unvisited_cell() {
    let mut grid = SmartGrid::new(2, 2).unwrap();
    assert!(aldous_broder_step(&mut grid, loc(0, 0), loc(0, 1)));
    assert_eq!(grid.cells[0][0].links, vec![loc(0, 1)]);
    assert_eq!(grid.cells[0][1].links, vec![loc(0, 0)]);
    assert!(grid.cells[1][0].links.is_empty());
    assert!(grid.cells[1][1].links.is_empty());
}

#[test]
fn a_walk_step_into_a_visited_cell_carves_nothing() {
    let mut grid = SmartGrid::new(2, 2).unwrap();
    grid.link_cells(loc(0, 1), loc(1, 1), true);
    // The neighbour has been visited: the walk passes on without a passage,
    // even though the cell it comes from has none yet.
    assert!(!aldous_broder_step(&mut grid, loc(0, 0), loc(0, 1)));
    assert!(grid.cells[0][0].links.is_empty());
    assert_eq!(grid.cells[0][1].links, vec![loc(1, 1)]);
    assert_eq!(grid.cells[1][1].links, vec![loc(0, 1)]);
}
