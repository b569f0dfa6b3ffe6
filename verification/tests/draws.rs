use maze_maker::grid::SmartGrid;
use maze_maker::location::Location;
use maze_maker::maze_makers::{
    aldous_broder_with, binary_tree_with, hunt_and_kill_with, random_cell_location,
    sidewinder_with, WALK_LIMIT,
};
use maze_maker::random::Draws;
use maze_maker::select::{generate_maze_with, Algos};

fn at(row: usize, column: usize) -> Location {
    Location { row, column }
}

/// The links of every cell, as pairs of row and column.
fn links_of(maze: &SmartGrid) -> Vec<Vec<Vec<(usize, usize)>>> {
    maze.cells
        .iter()
        .map(|row| {
            row.iter()
                .map(|cell| cell.links.iter().map(|link| (link.row, link.column)).collect())
                .collect()
        })
        .collect()
}

fn fresh(rows: usize, columns: usize) -> SmartGrid {
    SmartGrid::new(rows, columns).unwrap()
}

#[test]
fn scripted_numbers_are_scaled_into_the_range() {
    let mut draws = Draws::scripted(vec![0, 1, 2, 7, 10, 3]);
    assert_eq!(draws.between(0, 1), 0);
    assert_eq!(draws.between(0, 1), 1);
    assert_eq!(draws.between(0, 1), 0);
    assert_eq!(draws.between(5, 9), 7);
    assert_eq!(draws.between(3, 3), 3);
    assert_eq!(draws.between(0, usize::MAX), 3);
}

#[test]
fn scripted_members_are_taken_by_their_place() {
    let candidates = vec![at(0, 1), at(1, 0), at(2, 2)];
    let mut draws = Draws::scripted(vec![0, 2, 4, 5]);
    assert_eq!(draws.member(&candidates), Some(at(0, 1)));
    assert_eq!(draws.member(&candidates), Some(at(2, 2)));
    assert_eq!(draws.member(&candidates), Some(at(1, 0)));
    // Nothing to choose from: nothing is chosen, and the script is not touched.
    assert_eq!(draws.member(&Vec::new()), None);
    assert_eq!(draws.member(&candidates), Some(at(2, 2)));
}

#[test]
fn draws_are_random_once_the_script_has_run_out() {
    let candidates = vec![at(0, 1), at(1, 0), at(2, 2)];
    let mut draws = Draws::scripted(vec![4]);
    assert_eq!(draws.between(2, 5), 2);
    let mut seen = [false; 4];
    for _ in 0..500 {
        let drawn = draws.between(2, 5);
        assert!((2..=5).contains(&drawn));
        seen[drawn - 2] = true;
        let chosen = draws.member(&candidates).unwrap();
        assert!(candidates.contains(&chosen));
    }
    assert_eq!(seen, [true; 4]);
    assert_eq!(draws.member(&Vec::new()), None);
}

#[test]
fn ambient_draws_stay_in_their_range() {
    let mut draws = Draws::ambient();
    let mut low = false;
    let mut high = false;
    for _ in 0..500 {
        let drawn = draws.between(0, 1);
        assert!(drawn <= 1);
        low = low || drawn == 0;
        high = high || drawn == 1;
        assert_eq!(draws.between(7, 7), 7);
    }
    assert!(low && high);
}

#[test]
fn ambient_members_come_from_the_candidates() {
    let candidates = vec![at(3, 1), at(0, 0)];
    let mut draws = Draws::ambient();
    let mut first = false;
    let mut second = false;
    for _ in 0..500 {
        let chosen = draws.member(&candidates).unwrap();
        first = first || chosen == at(3, 1);
        second = second || chosen == at(0, 0);
        assert!(chosen == at(3, 1) || chosen == at(0, 0));
    }
    assert!(first && second);
    assert_eq!(draws.member(&Vec::new()), None);
}

#[test]
fn the_starting_cell_is_drawn_row_first() {
    let grid = fresh(3, 5);
    let mut draws = Draws::scripted(vec![2, 4, 7, 7]);
    assert_eq!(random_cell_location(&grid, &mut draws), at(2, 4));
    assert_eq!(random_cell_location(&grid, &mut draws), at(1, 2));
}

#[test]
fn binary_tree_carving_east_wherever_it_may() {
    let maze = binary_tree_with(fresh(3, 3), &mut Draws::scripted(vec![0, 0, 0, 0]));
    assert_eq!(
        links_of(&maze),
        vec![
            vec![vec![(0, 1)], vec![(0, 0), (0, 2)], vec![(0, 1), (1, 2)]],
            vec![vec![(1, 1)], vec![(1, 0), (1, 2)], vec![(1, 1), (0, 2), (2, 2)]],
            vec![vec![(2, 1)], vec![(2, 0), (2, 2)], vec![(2, 1), (1, 2)]],
        ]
    );
}

#[test]
fn binary_tree_carving_north_wherever_it_may() {
    let maze = binary_tree_with(fresh(3, 3), &mut Draws::scripted(vec![1, 1, 1, 1]));
    assert_eq!(
        links_of(&maze),
        vec![
            vec![vec![(0, 1), (1, 0)], vec![(0, 0), (0, 2), (1, 1)], vec![(0, 1), (1, 2)]],
            vec![vec![(0, 0), (2, 0)], vec![(0, 1), (2, 1)], vec![(0, 2), (2, 2)]],
            vec![vec![(1, 0)], vec![(1, 1)], vec![(1, 2)]],
        ]
    );
}

#[test]
fn binary_tree_following_a_mixed_script() {
    let maze = binary_tree_with(fresh(3, 3), &mut Draws::scripted(vec![0, 1, 1, 0]));
    assert_eq!(
        links_of(&maze),
        vec![
            vec![vec![(0, 1)], vec![(0, 0), (0, 2), (1, 1)], vec![(0, 1), (1, 2)]],
            vec![vec![(1, 1), (2, 0)], vec![(1, 0), (0, 1)], vec![(0, 2), (2, 2)]],
            vec![vec![(1, 0)], vec![(2, 2)], vec![(2, 1), (1, 2)]],
        ]
    );
}

#[test]
fn binary_tree_two_by_two_with_the_draw_fixed() {
    // Only the south-west cell has a choice.
    let east = binary_tree_with(fresh(2, 2), &mut Draws::scripted(vec![0]));
    assert_eq!(
        links_of(&east),
        vec![
            vec![vec![(0, 1)], vec![(0, 0), (1, 1)]],
            vec![vec![(1, 1)], vec![(1, 0), (0, 1)]],
        ]
    );
    let north = binary_tree_with(fresh(2, 2), &mut Draws::scripted(vec![1]));
    assert_eq!(
        links_of(&north),
        vec![
            vec![vec![(0, 1), (1, 0)], vec![(0, 0), (1, 1)]],
            vec![vec![(0, 0)], vec![(0, 1)]],
        ]
    );
    // The north-east cell has carved nothing itself either way: its links are
    // the ones it received.
    assert_eq!(east.cells[0][1].links, vec![at(0, 0), at(1, 1)]);
    assert_eq!(north.cells[0][1].links, vec![at(0, 0), at(1, 1)]);
}

#[test]
fn sidewinder_following_a_script() {
    let script = vec![0, 0, 0, 0, 0, 0, 0, 1, 1, 0, 2, 9, 0, 1, 0, 1, 1, 1, 5];
    let maze = sidewinder_with(fresh(3, 4), &mut Draws::scripted(script));
    assert_eq!(
        links_of(&maze),
        vec![
            vec![vec![(0, 1), (1, 0)], vec![(0, 0), (0, 2)], vec![(0, 1), (0, 3)], vec![
                (0, 2),
                (1, 3)
            ]],
            vec![vec![(0, 0)], vec![(1, 2), (2, 1)], vec![(1, 1), (1, 3), (2, 2)], vec![
                (1, 2),
                (0, 3),
                (2, 3)
            ]],
            vec![vec![(2, 1)], vec![(2, 0), (1, 1)], vec![(1, 2)], vec![(1, 3)]],
        ]
    );
}

#[test]
fn sidewinder_with_one_run_to_the_row() {
    // No run ends before the last column; the run of the second row carves
    // north from its middle cell.
    let maze = sidewinder_with(fresh(2, 3), &mut Draws::scripted(vec![1, 1, 1, 0, 1, 1, 1, 1]));
    assert_eq!(
        links_of(&maze),
        vec![
            vec![vec![(0, 1)], vec![(0, 0), (0, 2), (1, 1)], vec![(0, 1)]],
            vec![vec![(1, 1)], vec![(1, 0), (1, 2), (0, 1)], vec![(1, 1)]],
        ]
    );
}

#[test]
fn sidewinder_with_every_run_of_one_cell() {
    let script = vec![1, 1, 1, 0, 0, 0, 0, 0, 0, 0];
    let maze = sidewinder_with(fresh(2, 3), &mut Draws::scripted(script));
    assert_eq!(
        links_of(&maze),
        vec![
            vec![vec![(0, 1), (1, 0)], vec![(0, 0), (0, 2), (1, 1)], vec![(0, 1), (1, 2)]],
            vec![vec![(0, 0)], vec![(0, 1)], vec![(0, 2)]],
        ]
    );
}

#[test]
fn sidewinder_single_row_ignores_the_draws() {
    // Zeros would end a run below the top row; in the top row they do not.
    let maze = sidewinder_with(fresh(1, 4), &mut Draws::scripted(vec![0, 1, 0, 1, 3, 9]));
    assert_eq!(
        links_of(&maze),
        vec![vec![vec![(0, 1)], vec![(0, 0), (0, 2)], vec![(0, 1), (0, 3)], vec![(0, 2)]]]
    );
}

#[test]
fn hunt_and_kill_from_the_middle() {
    let script = vec![1, 1, 0, 0, 0, 0, 0, 0, 0, 0, 0, 0, 0, 0];
    let maze = hunt_and_kill_with(fresh(3, 3), &mut Draws::scripted(script));
    assert_eq!(
        links_of(&maze),
        vec![
            vec![vec![(1, 0)], vec![(1, 1), (0, 2)], vec![(0, 1), (1, 2)]],
            vec![vec![(2, 0), (0, 0)], vec![(0, 1)], vec![(0, 2), (2, 2)]],
            vec![vec![(2, 1), (1, 0)], vec![(2, 2), (2, 0)], vec![(1, 2), (2, 1)]],
        ]
    );
}

#[test]
fn hunt_and_kill_from_the_corner() {
    let script = vec![0, 0, 1, 1, 1, 1, 1, 1, 1, 1, 1, 1, 1, 1];
    let maze = hunt_and_kill_with(fresh(3, 3), &mut Draws::scripted(script));
    assert_eq!(
        links_of(&maze),
        vec![
            vec![vec![(1, 0)], vec![(1, 1), (0, 2)], vec![(0, 1)]],
            vec![vec![(0, 0), (2, 0)], vec![(1, 2), (0, 1)], vec![(2, 2), (1, 1)]],
            vec![vec![(1, 0), (2, 1)], vec![(2, 0), (2, 2)], vec![(2, 1), (1, 2)]],
        ]
    );
}

#[test]
fn hunt_and_kill_hunts_for_the_first_cell_beside_the_maze() {
    // The walk starts in the south-east corner and runs into a dead end in the
    // north-east corner; the hunt finds the north-west corner.
    let maze = hunt_and_kill_with(fresh(2, 3), &mut Draws::scripted(vec![1, 2, 0, 0, 0, 0, 0, 0]));
    assert_eq!(
        links_of(&maze),
        vec![
            vec![vec![(1, 0)], vec![(0, 2), (1, 1)], vec![(1, 2), (0, 1)]],
            vec![vec![(1, 1), (0, 0)], vec![(0, 1), (1, 0)], vec![(0, 2)]],
        ]
    );
}

#[test]
fn aldous_broder_walking_round_the_grid() {
    let maze = aldous_broder_with(
        fresh(2, 2),
        &mut Draws::scripted(vec![0, 0, 0, 0, 1, 9, 9]),
        WALK_LIMIT,
    );
    assert_eq!(
        links_of(&maze),
        vec![
            vec![vec![(0, 1)], vec![(0, 0), (1, 1)]],
            vec![vec![(1, 1)], vec![(0, 1), (1, 0)]],
        ]
    );
}

#[test]
fn aldous_broder_stepping_back_carves_nothing() {
    // The walk goes east, back west into a visited cell, then south and east.
    let maze = aldous_broder_with(
        fresh(2, 2),
        &mut Draws::scripted(vec![0, 0, 0, 1, 1, 1, 9, 9]),
        WALK_LIMIT,
    );
    assert_eq!(
        links_of(&maze),
        vec![
            vec![vec![(0, 1), (1, 0)], vec![(0, 0)]],
            vec![vec![(0, 0), (1, 1)], vec![(1, 0)]],
        ]
    );
}

#[test]
fn aldous_broder_in_a_corridor() {
    let maze = aldous_broder_with(
        fresh(1, 3),
        &mut Draws::scripted(vec![0, 1, 0, 0, 1, 1, 9]),
        WALK_LIMIT,
    );
    assert_eq!(links_of(&maze), vec![vec![vec![(0, 1)], vec![(0, 2), (0, 0)], vec![(0, 1)]]]);
}

#[test]
fn aldous_broder_following_a_longer_script() {
    let script = vec![1, 2, 1, 0, 0, 1, 1, 2, 0, 0, 0, 9, 9, 9];
    let maze = aldous_broder_with(fresh(2, 3), &mut Draws::scripted(script), WALK_LIMIT);
    assert_eq!(
        links_of(&maze),
        vec![
            vec![vec![(1, 0)], vec![(1, 1), (0, 2)], vec![(0, 1)]],
            vec![vec![(1, 1), (0, 0)], vec![(1, 2), (0, 1), (1, 0)], vec![(1, 1)]],
        ]
    );
}

#[test]
fn the_same_script_gives_the_same_maze() {
    let script: Vec<usize> = (0..400).map(|i| (i * 7 + i / 3) % 11).collect();
    for algorithm in [Algos::BinaryTree, Algos::Sidewinder, Algos::HuntAndKill] {
        let once = generate_maze_with(fresh(6, 7), &algorithm, &mut Draws::scripted(script.clone()));
        let twice = generate_maze_with(fresh(6, 7), &algorithm, &mut Draws::scripted(script.clone()));
        assert_eq!(once.cells, twice.cells);
    }
}

#[test]
fn a_short_script_is_followed_as_far_as_it_goes() {
    // The first cell with a choice carves north; the rest is random, and the
    // maze is a spanning tree all the same.
    for _ in 0..50 {
        let maze = binary_tree_with(fresh(4, 4), &mut Draws::scripted(vec![1]));
        assert_eq!(maze.cells[1][0].links[0], at(0, 0));
        let entries: usize = maze.cells.iter().flatten().map(|cell| cell.links.len()).sum();
        assert_eq!(entries, 2 * (4 * 4 - 1));
    }
}

#[test]
fn generators_with_draws_leave_a_single_cell_alone() {
    let mut draws = Draws::scripted(vec![0, 0, 9, 0, 0, 9, 1, 0, 9, 9]);
    assert_eq!(links_of(&hunt_and_kill_with(fresh(1, 1), &mut draws)), vec![vec![vec![]]]);
    assert_eq!(links_of(&aldous_broder_with(fresh(1, 1), &mut draws, 5)), vec![vec![vec![]]]);
    assert_eq!(links_of(&sidewinder_with(fresh(1, 1), &mut draws)), vec![vec![vec![]]]);
    assert_eq!(links_of(&binary_tree_with(fresh(1, 1), &mut draws)), vec![vec![vec![]]]);
}

#[test]
fn aldous_broder_without_a_step_is_hunt_and_kill() {
    let script = vec![1, 1, 0, 0, 0, 0, 0, 0, 0, 0, 0, 0, 0, 0];
    let walked = aldous_broder_with(fresh(3, 3), &mut Draws::scripted(script.clone()), 0);
    let hunted = hunt_and_kill_with(fresh(3, 3), &mut Draws::scripted(script));
    assert_eq!(walked.cells, hunted.cells);
}

#[test]
fn aldous_broder_given_up_after_two_steps() {
    // From the north-west corner the walk steps east and south; then the cells
    // that are left are attached by walking on and hunting.
    let script = vec![0, 0, 0, 1, 0, 0, 0, 0, 0, 0, 0, 0];
    let maze = aldous_broder_with(fresh(2, 3), &mut Draws::scripted(script), 2);
    assert_eq!(
        links_of(&maze),
        vec![
            vec![vec![(0, 1), (1, 0)], vec![(0, 0), (1, 1)], vec![(1, 2)]],
            vec![vec![(0, 0)], vec![(0, 1), (1, 2)], vec![(1, 1), (0, 2)]],
        ]
    );
}

#[test]
fn aldous_broder_given_up_is_a_perfect_maze_still() {
    for limit in [0, 1, 2, 5, 13] {
        for _ in 0..20 {
            let maze = aldous_broder_with(fresh(5, 6), &mut Draws::ambient(), limit);
            let entries: usize = maze.cells.iter().flatten().map(|cell| cell.links.len()).sum();
            assert_eq!(entries, 2 * (5 * 6 - 1));
            assert!(maze.cells.iter().flatten().all(|cell| cell.is_linked()));
        }
    }
}
