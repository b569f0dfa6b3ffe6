//! Choosing a generator, by tag or by name.

use vstd::prelude::*;
use crate::graph::is_perfect_maze;
use crate::grid::{GridView, MazeError, SmartGrid};
use crate::binary_tree_state::{binary_tree_following, carved_north_or_east};
use crate::growth::{aldous_broder_following, hunt_and_kill_following};
use crate::maze_makers::{
    aldous_broder_with, binary_tree_with, hunt_and_kill_with, sidewinder_with, WALK_LIMIT,
};
use crate::random::{follows, Carved, Draws};
use crate::sidewinder_state::{carved_in_runs, sidewinder_following, top_row_open};

verus! {

/// The four generators.
#[derive(Debug, PartialEq, Eq, Clone, Copy, Structural)]
pub enum Algos {
    BinaryTree,
    Sidewinder,
    AldousBroder,
    HuntAndKill,
}

impl Default for Algos {
    fn default() -> (algorithm: Algos)
        ensures
            algorithm == Algos::BinaryTree,
    {
        Algos::BinaryTree
    }
}

/// The generator that goes by `name`, if any does.
pub open spec fn algorithm_named(name: Seq<char>) -> Option<Algos> {
    if name == "binary_tree"@ {
        Some(Algos::BinaryTree)
    } else if name == "sidewinder"@ {
        Some(Algos::Sidewinder)
    } else if name == "aldous_broder"@ {
        Some(Algos::AldousBroder)
    } else if name == "hunt_and_kill"@ {
        Some(Algos::HuntAndKill)
    } else {
        None
    }
}

/// Whether two texts hold the same characters.
fn same_text(a: &str, b: &str) -> (same: bool)
    ensures
        same == (a@ == b@),
{
    a.to_owned().eq(&b.to_owned())
}

impl Algos {
    /// The generator that goes by `name`: `binary_tree`, `sidewinder`,
    /// `aldous_broder` or `hunt_and_kill`. Any other name is an
    /// `UnknownAlgorithm`.
    pub fn from_name(name: &str) -> (chosen: Result<Algos, MazeError>)
        ensures
            algorithm_named(name@) matches Some(algorithm) ==> chosen == Ok::<Algos, MazeError>(
                algorithm,
            ),
            algorithm_named(name@) is None ==> chosen == Err::<Algos, MazeError>(
                MazeError::UnknownAlgorithm,
            ),
    {
        if same_text(name, "binary_tree") {
            Ok(Algos::BinaryTree)
        } else if same_text(name, "sidewinder") {
            Ok(Algos::Sidewinder)
        } else if same_text(name, "aldous_broder") {
            Ok(Algos::AldousBroder)
        } else if same_text(name, "hunt_and_kill") {
            Ok(Algos::HuntAndKill)
        } else {
            Err(MazeError::UnknownAlgorithm)
        }
    }
}

/// Carves a perfect maze into a freshly constructed grid with the chosen
/// generator.
pub fn generate_maze(base_grid: SmartGrid, algorithm: &Algos) -> (maze: SmartGrid)
    requires
        base_grid@.wf(),
        base_grid@.unlinked(),
    ensures
        is_perfect_maze(maze@),
        base_grid@.same_but_links(maze@),
        *algorithm == Algos::BinaryTree ==> carved_north_or_east(maze@),
        *algorithm == Algos::Sidewinder ==> top_row_open(maze@) && carved_in_runs(maze@),
{
    let mut draws = Draws::ambient();
    generate_maze_with(base_grid, algorithm, &mut draws)
}

/// What the chosen generator makes of `g` by following `script`: the maze and
/// what is left of the script, or `None` if the script runs out.
pub open spec fn generator_following(
    algorithm: Algos,
    g: GridView,
    script: Seq<usize>,
) -> Option<Carved> {
    match algorithm {
        Algos::BinaryTree => binary_tree_following(g, script),
        Algos::Sidewinder => sidewinder_following(g, script),
        Algos::AldousBroder => aldous_broder_following(g, script, WALK_LIMIT as nat),
        Algos::HuntAndKill => hunt_and_kill_following(g, script),
    }
}

/// Carves a perfect maze into a freshly constructed grid with the chosen
/// generator, which takes its random choices from `draws`. As long as the
/// script of `draws` lasts, the maze is the one that following the script
/// gives.
pub fn generate_maze_with(base_grid: SmartGrid, algorithm: &Algos, draws: &mut Draws) -> (maze:
    SmartGrid)
    requires
        base_grid@.wf(),
        base_grid@.unlinked(),
    ensures
        is_perfect_maze(maze@),
        base_grid@.same_but_links(maze@),
        *algorithm == Algos::BinaryTree ==> carved_north_or_east(maze@),
        *algorithm == Algos::Sidewinder ==> top_row_open(maze@) && carved_in_runs(maze@),
        follows(generator_following(*algorithm, base_grid@, old(draws)@), maze@, final(draws)@),
{
    match algorithm {
        Algos::BinaryTree => binary_tree_with(base_grid, draws),
        Algos::Sidewinder => sidewinder_with(base_grid, draws),
        Algos::AldousBroder => aldous_broder_with(base_grid, draws, WALK_LIMIT),
        Algos::HuntAndKill => hunt_and_kill_with(base_grid, draws),
    }
}

} // verus!
