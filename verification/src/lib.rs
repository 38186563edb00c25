//! A constraint-satisfaction solver for generalized Sudoku puzzles:
//! square grids of side `size`, subdivided into `sec_width x sec_height`
//! rectangular sections, where each row, column, and section must contain
//! every value in `1..=size` exactly once.

use vstd::prelude::*;

pub mod laws;
pub mod model;
pub mod parse;
pub mod sudoku;

use crate::sudoku::Sudoku;

verus! {

/// The search exhausted every candidate without finding a complete valid
/// assignment. A normal, expected outcome that callers must branch on.
#[derive(Debug)]
pub enum SolveError {
    Unsolvable,
}

/// A strategy that fills an incomplete puzzle to a valid solution.
pub trait Solve {
    /// Attempts to complete `puzzle`. Returns the completed grid, or
    /// `Unsolvable` exactly when the depth-first search (modelled by
    /// [`crate::model::Board::search`]) finds no completion.
    fn solve(puzzle: Sudoku) -> (r: Result<Sudoku, SolveError>)
        requires
            puzzle.wf(),
        ensures
            match r {
                Ok(s) => s.wf() && puzzle@.search() == Some(s@),
                Err(e) => e is Unsolvable && puzzle@.search() is None,
            },
    ;
}

/// Chronological backtracking over the cells in row-major order, trying
/// candidate values in ascending order.
pub struct Backtrack;

impl Backtrack {
    /// Depth-first search with chronological backtracking: on success the
    /// puzzle holds the first solution in row-major, value-ascending order;
    /// on failure every tentative placement has been undone.
    pub fn solve_backtrack(puzzle: &mut Sudoku) -> (r: bool)
        requires
            old(puzzle).wf(),
        ensures
            final(puzzle).wf(),
            r <==> old(puzzle)@.search() is Some,
            r ==> old(puzzle)@.search() == Some(final(puzzle)@),
            !r ==> final(puzzle)@ == old(puzzle)@,
    {
        puzzle.solve_backtrack()
    }
}

impl Solve for Backtrack {
    fn solve(puzzle: Sudoku) -> (r: Result<Sudoku, SolveError>) {
        let mut puzzle = puzzle;
        if Backtrack::solve_backtrack(&mut puzzle) {
            Ok(puzzle)
        } else {
            Err(SolveError::Unsolvable)
        }
    }
}

} // verus!
