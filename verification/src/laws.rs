//! The library's guaranteed properties, each stated over the ghost model
//! and proved from it. The executable solver's contracts tie every result
//! to [`Board::search`], so these laws carry over to the running code.

use vstd::prelude::*;

use crate::model::Board;
use crate::model::lemma_box_count_ge2;
use crate::model::lemma_col_count_ge2;
use crate::model::lemma_row_count_ge2;
use crate::model::lemma_same_band;
use crate::model::lemma_search_complete;
use crate::model::lemma_search_sound;
use crate::model::lemma_section_origin_bounds;
use crate::model::lemma_solved_count_in_sec_one;
use crate::model::lemma_solved_full;
use crate::model::same_section;

verus! {

/// Determinism: the outcome of solving is a function of the board's
/// contents and geometry alone, so two equal boards search to the same
/// result. Together with the solver's contract — its result equals
/// `search` of its input — a fixed solvable input always yields the same
/// completed grid, since candidate order and cell order are fixed.
pub proof fn lemma_solve_deterministic(a: Board, b: Board)
    requires
        a == b,
    ensures
        a.search() == b.search(),
{
}

/// Validity: when the search succeeds on a consistent board, the board it
/// returns passes the global solvedness check.
pub proof fn lemma_solve_validity(b: Board)
    requires
        b.wf(),
        b.consistent(),
        b.search() is Some,
    ensures
        b.search()->0.wf(),
        b.search()->0.solved(),
{
    lemma_search_sound(b);
}

/// Conservativeness: the search only fills blanks, never overwrites a
/// given — every originally filled cell keeps its value in the result,
/// and the geometry is unchanged.
pub proof fn lemma_solve_conservative(b: Board)
    requires
        b.wf(),
        b.search() is Some,
    ensures
        b.same_shape(b.search()->0),
        b.extends(b.search()->0),
        b.search()->0.full(),
{
    lemma_search_sound(b);
}

/// Failure idempotence: failure is a function of the board's contents, so
/// re-solving a grid equal to one that failed fails again. Together with
/// the solver's contract — a failed attempt leaves the grid equal to the
/// original — a failed solve can be retried only with the same outcome.
pub proof fn lemma_failure_repeats(a: Board, b: Board)
    requires
        a.search() is None,
        b == a,
    ensures
        b.search() is None,
{
}

/// The search on a consistent board succeeds exactly when some solved
/// completion of the board exists.
pub proof fn lemma_search_succeeds_iff_solvable(b: Board)
    requires
        b.wf(),
        b.consistent(),
    ensures
        b.search() is Some <==> exists|s: Board| s.wf() && s.solved() && b.extends(s),
{
    if b.search() is Some {
        lemma_search_sound(b);
        let s = b.search()->0;
        assert(s.wf() && s.solved() && b.extends(s));
    }
    if exists|s: Board| s.wf() && s.solved() && b.extends(s) {
        let s = choose|s: Board| s.wf() && s.solved() && b.extends(s);
        lemma_search_complete(b, s);
    }
}

/// A grid holding the same value twice in one row is not solved, even if
/// every cell is filled.
pub proof fn lemma_duplicate_in_row_not_solved(b: Board, r: int, c1: int, c2: int, v: int)
    requires
        b.wf(),
        0 <= r < b.size,
        0 <= c1 < b.size,
        0 <= c2 < b.size,
        c1 != c2,
        b.cells[r][c1] == Some(v),
        b.cells[r][c2] == Some(v),
    ensures
        !b.solved(),
{
    lemma_row_count_ge2(b.cells[r], v, b.size, c1, c2);
    if b.solved() {
        assert(b.count_in_row(r, v) == 1);
    }
}

/// A grid holding the same value twice in one column is not solved, even
/// if every cell is filled.
pub proof fn lemma_duplicate_in_col_not_solved(b: Board, c: int, r1: int, r2: int, v: int)
    requires
        b.wf(),
        0 <= c < b.size,
        0 <= r1 < b.size,
        0 <= r2 < b.size,
        r1 != r2,
        b.cells[r1][c] == Some(v),
        b.cells[r2][c] == Some(v),
    ensures
        !b.solved(),
{
    lemma_col_count_ge2(b, c, v, b.size, r1, r2);
    if b.solved() {
        assert(b.count_in_col(c, v) == 1);
    }
}

/// A grid holding the same value twice in one section is not solved, even
/// if every cell is filled.
pub proof fn lemma_duplicate_in_sec_not_solved(
    b: Board,
    r1: int,
    c1: int,
    r2: int,
    c2: int,
    v: int,
)
    requires
        b.wf(),
        0 <= r1 < b.size,
        0 <= c1 < b.size,
        0 <= r2 < b.size,
        0 <= c2 < b.size,
        (r1, c1) != (r2, c2),
        same_section(b, r1, c1, r2, c2),
        b.cells[r1][c1] == Some(v),
        b.cells[r2][c2] == Some(v),
    ensures
        !b.solved(),
{
    let r0 = b.row_origin(r1);
    let c0 = b.col_origin(c1);
    lemma_section_origin_bounds(b, r1, c1);
    lemma_same_band(r1, r1, b.sec_height);
    lemma_same_band(c1, c1, b.sec_width);
    lemma_same_band(r2, r1, b.sec_height);
    lemma_same_band(c2, c1, b.sec_width);
    lemma_box_count_ge2(b, r0, c0, v, b.sec_height, r1, c1, r2, c2);
    if b.solved() {
        lemma_solved_count_in_sec_one(b, r1, c1, v);
    }
}

/// A grid with any empty cell is not solved.
pub proof fn lemma_empty_cell_not_solved(b: Board, r: int, c: int)
    requires
        b.wf(),
        0 <= r < b.size,
        0 <= c < b.size,
        b.cells[r][c] is None,
    ensures
        !b.solved(),
{
    if b.solved() {
        lemma_solved_full(b);
    }
}

} // verus!
