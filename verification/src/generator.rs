//! The puzzle generator: solve the blank board to get one full solution,
//! then repeatedly blank out random cells for as long as the uniqueness
//! check keeps passing.

use crate::grid::{extends, lemma_clear_cell_extends, Grid};
use crate::randomness::random_below;
use crate::solver::{completion, lemma_blank_solvable, solve};
use crate::uniqueness::has_unique_solution;
use crate::validity::{grid_valid, lemma_extends_valid};
use vstd::prelude::*;

verus! {

/// How many cell removals the generator attempts before settling for the
/// puzzle it has. The carving loop almost always stops much earlier, at
/// the first failed uniqueness check; the cap only bounds the search.
const MAX_CARVE_ATTEMPTS: usize = 1000;

/// Produces a puzzle: solves the blank board, then blanks out one random
/// cell at a time while the uniqueness check on the accumulated puzzle
/// keeps passing. The result is always a valid board that some solution
/// completes, so the solver always succeeds on it.
#[verifier::loop_isolation(false)]
pub fn generate_puzzle() -> (r: Grid)
    ensures
        r.wf(),
        grid_valid(r@),
        exists|s: Seq<u8>| completion(r@, s),
{
    let blank = Grid::blank();
    proof {
        lemma_blank_solvable();
    }
    let solved_opt = solve(blank);
    proof {
        assert(solved_opt is Some);
    }
    let mut puzzle = solved_opt.unwrap();
    proof {
        assert(extends(puzzle@, puzzle@));
        assert(completion(puzzle@, puzzle@));
    }
    let mut attempts: usize = 0;
    while attempts < MAX_CARVE_ATTEMPTS
        invariant
            puzzle.wf(),
            grid_valid(puzzle@),
            exists|s: Seq<u8>| completion(puzzle@, s),
        decreases MAX_CARVE_ATTEMPTS - attempts,
    {
        // Try removing a random cell; commit only if the puzzle built so
        // far still passes the uniqueness check.
        let row = random_below(9);
        let col = random_below(9);
        let candidate = puzzle.place(row, col, 0);
        if !has_unique_solution(&puzzle) {
            break;
        }
        proof {
            let s = choose|s: Seq<u8>| completion(puzzle@, s);
            lemma_clear_cell_extends(puzzle@, row as int * 9 + col as int, s);
            assert(completion(candidate@, s));
            lemma_extends_valid(candidate@, s);
        }
        puzzle = candidate;
        attempts = attempts + 1;
    }
    puzzle
}

} // verus!
