//! The probabilistic uniqueness check: solve the same puzzle repeatedly
//! with the randomized solver and compare the outcomes. Disagreement proves
//! that two distinct solutions exist; agreement is only evidence of
//! uniqueness, but is guaranteed whenever at most one completion exists.

use crate::grid::{is_full, lemma_full_extends_self, Grid};
use crate::solver::{completion, solve};
use vstd::prelude::*;

verus! {

/// At most one board completes the puzzle `p`.
pub open spec fn at_most_one_completion(p: Seq<u8>) -> bool {
    forall|s1: Seq<u8>, s2: Seq<u8>| completion(p, s1) && completion(p, s2) ==> s1 == s2
}

/// A full board is completed only by itself, so it has at most one
/// completion.
pub proof fn lemma_full_at_most_one(p: Seq<u8>)
    requires
        p.len() == 81,
        is_full(p),
    ensures
        at_most_one_completion(p),
{
    assert forall|s1: Seq<u8>, s2: Seq<u8>| completion(p, s1) && completion(p, s2) implies s1 == s2 by {
        lemma_full_extends_self(p, s1);
        lemma_full_extends_self(p, s2);
    };
}

/// Solves the puzzle a fixed number of times with the randomized solver
/// and reports whether every run agreed with the first. `false` is
/// definitive: two distinct completions exist, so the puzzle is not a
/// proper Sudoku. `true` is owed whenever the puzzle has at most one
/// completion — in particular on every full board and on every unsolvable
/// board — and is otherwise only probabilistic evidence of uniqueness.
#[verifier::loop_isolation(false)]
pub fn has_unique_solution(puzzle: &Grid) -> (r: bool)
    requires
        puzzle.wf(),
    ensures
        at_most_one_completion(puzzle@) ==> r,
        !r ==> exists|s1: Seq<u8>, s2: Seq<u8>|
            completion(puzzle@, s1) && completion(puzzle@, s2) && s1 != s2,
        is_full(puzzle@) ==> r,
{
    let first = solve(puzzle.clone());
    let mut t: usize = 0;
    while t < 10
        invariant
            first is Some ==> completion(puzzle@, first.unwrap()@),
            first is None ==> forall|s: Seq<u8>| !completion(puzzle@, s),
        decreases 10 - t,
    {
        let next = solve(puzzle.clone());
        let same: bool = match (&first, &next) {
            (None, None) => true,
            (Some(a), Some(b)) => *a == *b,
            _ => false,
        };
        if !same {
            proof {
                // The solver is deterministic about solvability, so the two
                // runs must both have found solutions, and different ones.
                let s1 = first.unwrap()@;
                let s2 = next.unwrap()@;
                assert(completion(puzzle@, s1) && completion(puzzle@, s2) && s1 != s2);
                if is_full(puzzle@) {
                    lemma_full_at_most_one(puzzle@);
                }
            }
            return false;
        }
        t = t + 1;
    }
    true
}

} // verus!
