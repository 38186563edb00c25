//! The executable puzzle: a square matrix of optional cell values with its
//! sectioning geometry, verified against the ghost [`Board`] model.

use vstd::prelude::*;

use crate::model::Board;
use crate::model::lemma_first_empty_from_spec;
use crate::model::lemma_num_empty_nonneg;
use crate::model::lemma_place_num_empty;
use crate::model::lemma_section_origin_bounds;
use crate::model::lemma_wf_size_pos;
use crate::model::row_count;
use crate::model::seg_count;
use crate::parse::grid_view;
use crate::parse::lemma_parse_grid_shape;
use crate::parse::parse_grid;
use crate::parse::parse_grid_exec;

verus! {

/// A failure that a caller must discriminate: an invalid geometry at
/// construction, or malformed population text.
#[derive(Debug)]
pub enum SudokuError {
    /// `sec_width * sec_height` does not equal `size`, or a dimension is zero.
    Configuration,
    /// The population text is malformed: wrong line count, wrong token count,
    /// an out-of-range value, or a token that is neither `_` nor a number.
    Parse,
}

/// A generalized Sudoku puzzle: a `size x size` matrix of optional values in
/// `1..=size`, with rectangular sections of `sec_width x sec_height` cells.
pub struct Sudoku {
    size: usize,
    sec_width: usize,
    sec_height: usize,
    grid: Vec<Vec<Option<usize>>>,
}

/// The mathematical content of one executable cell.
pub open spec fn cell_val(o: Option<usize>) -> Option<int> {
    match o {
        Option::None => Option::<int>::None,
        Option::Some(u) => Option::Some(u as int),
    }
}

impl View for Sudoku {
    type V = Board;

    closed spec fn view(&self) -> Board {
        Board {
            size: self.size as int,
            sec_width: self.sec_width as int,
            sec_height: self.sec_height as int,
            cells: Seq::new(
                self.grid@.len(),
                |r: int| Seq::new(self.grid@[r]@.len(), |c: int| cell_val(self.grid@[r]@[c])),
            ),
        }
    }
}

impl Sudoku {
    /// The structural invariant of the model holds of this puzzle.
    pub open spec fn wf(&self) -> bool {
        self@.wf()
    }

    /// Create an empty puzzle.
    ///
    /// `size` is the number of unique values that should occupy each row,
    /// column, and section; a classic puzzle has `size = 9` with 3x3
    /// sections. Construction fails with a configuration error unless
    /// `sec_width` and `sec_height` are positive and their product is `size`.
    pub fn new(size: usize, sec_width: usize, sec_height: usize) -> (r: Result<Sudoku, SudokuError>)
        ensures
            match r {
                Ok(s) => {
                    &&& sec_width >= 1 && sec_height >= 1
                    &&& (sec_width as int) * (sec_height as int) == size as int
                    &&& s.wf()
                    &&& s@.size == size as int
                    &&& s@.sec_width == sec_width as int
                    &&& s@.sec_height == sec_height as int
                    &&& forall|rr: int, cc: int|
                        0 <= rr < size && 0 <= cc < size ==> (#[trigger] s@.cells[rr][cc]) is None
                },
                Err(e) => {
                    &&& e is Configuration
                    &&& !(sec_width >= 1 && sec_height >= 1 && (sec_width as int) * (
                    sec_height as int) == size as int)
                },
            },
    {
        let geometry_ok = sec_width >= 1 && sec_height >= 1 && match sec_width.checked_mul(
            sec_height,
        ) {
            Some(p) => p == size,
            None => false,
        };
        if !geometry_ok {
            return Err(SudokuError::Configuration);
        }
        let mut grid: Vec<Vec<Option<usize>>> = Vec::new();
        let mut r: usize = 0;
        while r < size
            invariant
                r <= size,
                grid@.len() == r as int,
                forall|i: int| 0 <= i < r ==> (#[trigger] grid@[i])@.len() == size as int,
                forall|i: int, j: int|
                    0 <= i < r && 0 <= j < size ==> (#[trigger] grid@[i]@[j]) is None,
            decreases size - r,
        {
            let mut row: Vec<Option<usize>> = Vec::new();
            let mut c: usize = 0;
            while c < size
                invariant
                    c <= size,
                    row@.len() == c as int,
                    forall|j: int| 0 <= j < c ==> (#[trigger] row@[j]) is None,
                decreases size - c,
            {
                row.push(None);
                c = c + 1;
            }
            grid.push(row);
            r = r + 1;
        }
        let s = Sudoku { size, sec_width, sec_height, grid };
        proof {
            assert(s@.cells.len() == size as int);
            assert(forall|rr: int| 0 <= rr < size ==> (#[trigger] s@.cells[rr]).len() == size as int);
            assert(forall|rr: int, cc: int|
                0 <= rr < size && 0 <= cc < size ==> (#[trigger] s@.cells[rr][cc]) is None);
        }
        Ok(s)
    }

    /// Number of rows of the matrix.
    fn height(&self) -> (r: usize)
        requires
            self.wf(),
        ensures
            r as int == self@.size,
    {
        self.grid.len()
    }

    /// Number of columns of the matrix.
    fn width(&self) -> (r: usize)
        requires
            self.wf(),
        ensures
            r as int == self@.size,
    {
        proof {
            lemma_wf_size_pos(self@);
            assert(self@.cells[0].len() == self@.size);
        }
        self.grid[0].len()
    }

    /// The side length of the grid, which is also the number of distinct
    /// values per row, column, and section.
    pub fn size(&self) -> (r: usize)
        ensures
            r as int == self@.size,
    {
        self.size
    }

    /// The width of each section.
    pub fn sec_width(&self) -> (r: usize)
        ensures
            r as int == self@.sec_width,
    {
        self.sec_width
    }

    /// The height of each section.
    pub fn sec_height(&self) -> (r: usize)
        ensures
            r as int == self@.sec_height,
    {
        self.sec_height
    }

    /// Read the current content of cell `(row, col)`.
    pub fn get(&self, row: usize, col: usize) -> (r: Option<usize>)
        requires
            self.wf(),
            row < self@.size,
            col < self@.size,
        ensures
            cell_val(r) == self@.cells[row as int][col as int],
    {
        proof {
            assert(self@.cells[row as int].len() == self@.size);
        }
        self.grid[row][col]
    }

    /// Overwrite cell `(row, col)` unconditionally (no legality check):
    /// `None` clears the cell. The engine uses this both for placement and
    /// for rollback.
    pub fn set(&mut self, row: usize, col: usize, value: Option<usize>)
        requires
            old(self).wf(),
            row < old(self)@.size,
            col < old(self)@.size,
            value is Some ==> 1 <= value->0 <= old(self)@.size,
        ensures
            final(self).wf(),
            final(self)@ == old(self)@.place(row as int, col as int, cell_val(value)),
    {
        proof {
            assert(self@.cells[row as int].len() == self@.size);
        }
        self.grid[row][col] = value;
        proof {
            let placed = old(self)@.place(row as int, col as int, cell_val(value));
            assert(self@.cells =~~= placed.cells);
            assert(self@ =~= placed);
        }
    }

    /// How many cells of row `row` currently hold `value`.
    fn count_in_row(&self, row: usize, value: usize) -> (cnt: usize)
        requires
            self.wf(),
            row < self@.size,
        ensures
            cnt as int == self@.count_in_row(row as int, value as int),
    {
        let size = self.size;
        let mut cnt: usize = 0;
        let mut c: usize = 0;
        while c < size
            invariant
                self.wf(),
                row < self@.size,
                size as int == self@.size,
                c <= size,
                cnt <= c,
                cnt as int == row_count(self@.cells[row as int], value as int, c as int),
            decreases size - c,
        {
            proof {
                assert(self@.cells[row as int][c as int] == cell_val(
                    self.grid@[row as int]@[c as int],
                ));
            }
            let cell_matches = match self.grid[row][c] {
                Some(u) => u == value,
                None => false,
            };
            if cell_matches {
                cnt = cnt + 1;
            }
            c = c + 1;
        }
        cnt
    }

    /// How many cells of column `col` currently hold `value`.
    fn count_in_col(&self, col: usize, value: usize) -> (cnt: usize)
        requires
            self.wf(),
            col < self@.size,
        ensures
            cnt as int == self@.count_in_col(col as int, value as int),
    {
        let size = self.size;
        let mut cnt: usize = 0;
        let mut r: usize = 0;
        while r < size
            invariant
                self.wf(),
                col < self@.size,
                size as int == self@.size,
                r <= size,
                cnt <= r,
                cnt as int == self@.col_count(col as int, value as int, r as int),
            decreases size - r,
        {
            proof {
                assert(self@.cells[r as int][col as int] == cell_val(
                    self.grid@[r as int]@[col as int],
                ));
            }
            let cell_matches = match self.grid[r][col] {
                Some(u) => u == value,
                None => false,
            };
            if cell_matches {
                cnt = cnt + 1;
            }
            r = r + 1;
        }
        cnt
    }

    /// How many cells of the section containing `(row, col)` currently hold
    /// `value`.
    fn count_in_sec(&self, row: usize, col: usize, value: usize) -> (cnt: usize)
        requires
            self.wf(),
            row < self@.size,
            col < self@.size,
        ensures
            cnt as int == self@.count_in_sec(row as int, col as int, value as int),
    {
        let size = self.size;
        let sw = self.sec_width;
        let sh = self.sec_height;
        proof {
            lemma_section_origin_bounds(self@, row as int, col as int);
        }
        let r0 = (row / sh) * sh;
        let c0 = (col / sw) * sw;
        let mut cnt: usize = 0;
        let mut i: usize = 0;
        while i < sh
            invariant
                self.wf(),
                row < self@.size,
                col < self@.size,
                size as int == self@.size,
                sw as int == self@.sec_width,
                sh as int == self@.sec_height,
                r0 as int == self@.row_origin(row as int),
                c0 as int == self@.col_origin(col as int),
                r0 + sh <= self@.size,
                c0 + sw <= self@.size,
                i <= sh,
                cnt <= i * sw,
                cnt as int == self@.box_count(r0 as int, c0 as int, value as int, i as int),
            decreases sh - i,
        {
            let mut j: usize = 0;
            while j < sw
                invariant
                    self.wf(),
                    row < self@.size,
                    col < self@.size,
                    size as int == self@.size,
                    sw as int == self@.sec_width,
                    sh as int == self@.sec_height,
                    r0 as int == self@.row_origin(row as int),
                    c0 as int == self@.col_origin(col as int),
                    r0 + sh <= self@.size,
                    c0 + sw <= self@.size,
                    i < sh,
                    j <= sw,
                    cnt <= i * sw + j,
                    cnt as int == self@.box_count(r0 as int, c0 as int, value as int, i as int)
                        + seg_count(self@.cells[r0 + i], c0 as int, value as int, j as int),
                decreases sw - j,
            {
                proof {
                    assert(i * sw + j < size) by (nonlinear_arith)
                        requires
                            0 <= i < sh,
                            0 <= j < sw,
                            sw * sh == size,
                    ;
                    assert(self@.cells[r0 + i].len() == self@.size);
                    assert(self@.cells[(r0 + i) as int][(c0 + j) as int] == cell_val(
                        self.grid@[(r0 + i) as int]@[(c0 + j) as int],
                    ));
                }
                let cell_matches = match self.grid[r0 + i][c0 + j] {
                    Some(u) => u == value,
                    None => false,
                };
                if cell_matches {
                    cnt = cnt + 1;
                }
                j = j + 1;
            }
            proof {
                assert((i + 1) * sw == i * sw + sw) by (nonlinear_arith);
            }
            i = i + 1;
        }
        proof {
            assert(cnt as int == self@.count_in_sec(row as int, col as int, value as int));
        }
        cnt
    }

    /// `value` may legally be placed at `(row, col)`: the cell is empty and
    /// `value` occurs nowhere in that row, column, or section.
    fn can_place_value(&self, value: usize, row: usize, col: usize) -> (r: bool)
        requires
            self.wf(),
            row < self@.size,
            col < self@.size,
        ensures
            r == self@.can_place(value as int, row as int, col as int),
    {
        proof {
            assert(self@.cells[row as int][col as int] == cell_val(
                self.grid@[row as int]@[col as int],
            ));
        }
        let is_empty = match self.grid[row][col] {
            None => true,
            Some(_) => false,
        };
        is_empty && self.count_in_row(row, value) == 0 && self.count_in_col(col, value) == 0
            && self.count_in_sec(row, col, value) == 0
    }

    /// Populate the grid from a textual description: rows separated by
    /// newlines, cells separated by blanks, `_` for an empty cell, a
    /// decimal number in `1..=size` for a given. Fails with a parse error —
    /// leaving the grid unchanged — on a wrong line count, a wrong token
    /// count in any line, an out-of-range value, or a malformed token;
    /// exactly the texts accepted by [`parse_grid`] are accepted here.
    pub fn populate_from_str(&mut self, s: &str) -> (r: Result<(), SudokuError>)
        requires
            old(self).wf(),
        ensures
            final(self).wf(),
            final(self)@.same_shape(old(self)@),
            match parse_grid(s@, old(self)@.size) {
                Some(cells) => r is Ok && final(self)@.cells == cells,
                None => r is Err && r->Err_0 is Parse && final(self)@ == old(self)@,
            },
    {
        match parse_grid_exec(s, self.size) {
            Some(g) => {
                self.grid = g;
                proof {
                    let n = old(self)@.size;
                    let cells = parse_grid(s@, n)->0;
                    lemma_parse_grid_shape(s@, n);
                    assert(grid_view(self.grid@) == cells);
                    assert forall|i: int| 0 <= i < n implies #[trigger] self@.cells[i] =~= cells[i]
                    by {
                        assert(grid_view(self.grid@)[i] == cells[i]);
                    }
                    assert(self@.cells =~~= cells);
                    assert(self@.wf());
                }
                Ok(())
            },
            None => Err(SudokuError::Parse),
        }
    }

    /// Depth-first search with chronological backtracking, scanning for the
    /// first empty cell in row-major order and trying candidate values in
    /// ascending order. Implements [`Board::search`] exactly: on success the
    /// grid holds the search's solution, on failure it is left unchanged.
    #[verifier::loop_isolation(false)]
    pub(crate) fn solve_backtrack(&mut self) -> (r: bool)
        requires
            old(self).wf(),
        ensures
            final(self).wf(),
            r <==> old(self)@.search() is Some,
            r ==> old(self)@.search() == Some(final(self)@),
            !r ==> final(self)@ == old(self)@,
        decreases old(self)@.num_empty(),
    {
        let ghost g0 = self@;
        let size = self.size;
        let mut row: usize = 0;
        while row < size
            invariant
                self.wf(),
                self@ == g0,
                size as int == g0.size,
                row <= size,
                forall|ar: int, ac: int|
                    0 <= ar < g0.size && 0 <= ac < g0.size && ar < row
                        ==> (#[trigger] g0.cells[ar][ac]) is Some,
            decreases size - row,
        {
            let mut col: usize = 0;
            while col < size
                invariant
                    self.wf(),
                    self@ == g0,
                    size as int == g0.size,
                    row < size,
                    col <= size,
                    forall|ar: int, ac: int|
                        0 <= ar < g0.size && 0 <= ac < g0.size && (ar < row || (ar == row && ac
                            < col)) ==> (#[trigger] g0.cells[ar][ac]) is Some,
                decreases size - col,
            {
                proof {
                    assert(g0.cells[row as int][col as int] == cell_val(
                        self.grid@[row as int]@[col as int],
                    ));
                }
                let is_empty = match self.grid[row][col] {
                    None => true,
                    Some(_) => false,
                };
                if is_empty {
                    proof {
                        lemma_first_empty_from_spec(g0, 0, 0);
                        if g0.first_empty() is Some {
                            let rc = g0.first_empty()->0;
                            if rc.0 < row || (rc.0 == row && rc.1 < col) {
                                assert(g0.cells[rc.0][rc.1] is Some);
                            }
                            if rc.0 > row || (rc.0 == row && rc.1 > col) {
                                assert(g0.cells[row as int][col as int] is Some);
                            }
                            assert(rc == (row as int, col as int));
                        }
                        assert(g0.first_empty() == Some((row as int, col as int)));
                        assert(g0.search() == g0.try_values(row as int, col as int, 1));
                    }
                    let mut vi: usize = 0;
                    while vi < size
                        invariant
                            self.wf(),
                            self@ == g0,
                            g0.wf(),
                            size as int == g0.size,
                            row < size,
                            col < size,
                            vi <= size,
                            g0.cells[row as int][col as int] is None,
                            g0.try_values(row as int, col as int, 1) == g0.try_values(
                                row as int,
                                col as int,
                                vi + 1,
                            ),
                        decreases size - vi,
                    {
                        let v = vi + 1;
                        if self.can_place_value(v, row, col) {
                            self.set(row, col, Some(v));
                            proof {
                                assert(self@ == g0.place(row as int, col as int, Some(v as int)));
                                lemma_place_num_empty(g0, row as int, col as int, v as int);
                                lemma_num_empty_nonneg(self@);
                            }
                            let found = self.solve_backtrack();
                            if found {
                                proof {
                                    let placed = g0.place(row as int, col as int, Some(v as int));
                                    assert(placed.search() == Some(self@));
                                    assert(g0.try_values(row as int, col as int, v as int)
                                        == Some(self@));
                                }
                                return true;
                            }
                            proof {
                                assert(self@ == g0.place(row as int, col as int, Some(v as int)));
                            }
                            self.set(row, col, None);
                            proof {
                                let placed = g0.place(row as int, col as int, Some(v as int));
                                let cleared = placed.place(row as int, col as int, None);
                                assert(cleared.cells =~~= g0.cells);
                                assert(self@ =~= g0);
                                assert(placed.search() is None);
                                assert(g0.try_values(row as int, col as int, v as int)
                                    == g0.try_values(row as int, col as int, v + 1 as int));
                            }
                        } else {
                            proof {
                                assert(g0.try_values(row as int, col as int, v as int)
                                    == g0.try_values(row as int, col as int, v + 1 as int));
                            }
                        }
                        vi = vi + 1;
                    }
                    proof {
                        assert(g0.try_values(row as int, col as int, size as int + 1) is None);
                        assert(g0.search() is None);
                    }
                    return false;
                }
                col = col + 1;
            }
            row = row + 1;
        }
        proof {
            lemma_first_empty_from_spec(g0, 0, 0);
            if g0.first_empty() is Some {
                let rc = g0.first_empty()->0;
                assert(g0.cells[rc.0][rc.1] is Some);
            }
            assert(g0.search() == Some(g0));
        }
        true
    }

    /// Attempt to fill this grid in place. On success the grid holds the
    /// first solution in row-major, value-ascending order; on failure the
    /// full unwind has drained every tentative placement, leaving the
    /// original contents.
    pub fn solve(&mut self)
        requires
            old(self).wf(),
        ensures
            final(self).wf(),
            match old(self)@.search() {
                Some(b) => final(self)@ == b,
                None => final(self)@ == old(self)@,
            },
    {
        self.solve_backtrack();
    }

    /// Return a solved copy of this puzzle, leaving `self` untouched; if the
    /// search fails the copy equals the original.
    pub fn solved(&self) -> (r: Sudoku)
        requires
            self.wf(),
        ensures
            r.wf(),
            match self@.search() {
                Some(b) => r@ == b,
                None => r@ == self@,
            },
    {
        let mut duplicate = self.clone();
        duplicate.solve();
        duplicate
    }

    /// The global correctness check: every value in `1..=size` occurs exactly
    /// once in every row, every column, and every section. This is
    /// independent of how the grid was filled; a grid with a duplicate or an
    /// empty cell is rejected.
    #[verifier::loop_isolation(false)]
    pub fn is_solved(&self) -> (r: bool)
        requires
            self.wf(),
        ensures
            r == self@.solved(),
    {
        let size = self.size;
        let height = self.height();
        let width = self.width();
        let sw = self.sec_width;
        let sh = self.sec_height;
        let mut vi: usize = 0;
        while vi < size
            invariant
                self.wf(),
                size as int == self@.size,
                sw as int == self@.sec_width,
                sh as int == self@.sec_height,
                vi <= size,
                forall|w: int, x: int|
                    1 <= w <= vi && 0 <= x < size ==> #[trigger] self@.count_in_row(x, w) == 1,
                forall|w: int, x: int|
                    1 <= w <= vi && 0 <= x < size ==> #[trigger] self@.count_in_col(x, w) == 1,
                forall|w: int, si: int, sj: int|
                    1 <= w <= vi && 0 <= si < sw && 0 <= sj < sh
                        ==> #[trigger] self@.count_in_sec(si * sh as int, sj * sw as int, w) == 1,
            decreases size - vi,
        {
            let v = vi + 1;
            let mut row: usize = 0;
            while row < height
                invariant
                    self.wf(),
                    size as int == self@.size,
                    height == size,
                    v == vi + 1,
                    vi < size,
                    row <= size,
                    forall|x: int|
                        0 <= x < row ==> #[trigger] self@.count_in_row(x, v as int) == 1,
                decreases size - row,
            {
                if self.count_in_row(row, v) != 1 {
                    return false;
                }
                row = row + 1;
            }
            let mut col: usize = 0;
            while col < width
                invariant
                    self.wf(),
                    size as int == self@.size,
                    width == size,
                    v == vi + 1,
                    vi < size,
                    col <= size,
                    forall|x: int|
                        0 <= x < col ==> #[trigger] self@.count_in_col(x, v as int) == 1,
                decreases size - col,
            {
                if self.count_in_col(col, v) != 1 {
                    return false;
                }
                col = col + 1;
            }
            let mut si: usize = 0;
            while si < sw
                invariant
                    self.wf(),
                    size as int == self@.size,
                    sw as int == self@.sec_width,
                    sh as int == self@.sec_height,
                    v == vi + 1,
                    vi < size,
                    si <= sw,
                    forall|a: int, b: int|
                        0 <= a < si && 0 <= b < sh
                            ==> #[trigger] self@.count_in_sec(a * sh as int, b * sw as int, v as int)
                            == 1,
                decreases sw - si,
            {
                let mut sj: usize = 0;
                while sj < sh
                    invariant
                        self.wf(),
                        size as int == self@.size,
                        sw as int == self@.sec_width,
                        sh as int == self@.sec_height,
                        v == vi + 1,
                        vi < size,
                        si < sw,
                        sj <= sh,
                        forall|a: int, b: int|
                            0 <= a < si && 0 <= b < sh
                                ==> #[trigger] self@.count_in_sec(
                                a * sh as int,
                                b * sw as int,
                                v as int,
                            ) == 1,
                        forall|b: int|
                            0 <= b < sj
                                ==> #[trigger] self@.count_in_sec(
                                si as int * sh as int,
                                b * sw as int,
                                v as int,
                            ) == 1,
                    decreases sh - sj,
                {
                    proof {
                        assert(si * sh < size && sj * sw < size) by (nonlinear_arith)
                            requires
                                0 <= si < sw,
                                0 <= sj < sh,
                                sw as int * sh as int == size as int,
                        ;
                    }
                    if self.count_in_sec(si * sh, sj * sw, v) != 1 {
                        return false;
                    }
                    sj = sj + 1;
                }
                si = si + 1;
            }
            vi = vi + 1;
        }
        true
    }
}

impl Clone for Sudoku {
    /// An explicit deep copy: the clone's geometry and cells equal the
    /// original's.
    fn clone(&self) -> (r: Self)
        ensures
            r@ == self@,
    {
        let mut grid: Vec<Vec<Option<usize>>> = Vec::new();
        let n = self.grid.len();
        let mut i: usize = 0;
        while i < n
            invariant
                n as int == self.grid@.len(),
                i <= n,
                grid@.len() == i as int,
                forall|a: int| 0 <= a < i ==> (#[trigger] grid@[a])@ == self.grid@[a]@,
            decreases n - i,
        {
            let m = self.grid[i].len();
            let mut row: Vec<Option<usize>> = Vec::new();
            let mut j: usize = 0;
            while j < m
                invariant
                    i < self.grid@.len(),
                    m as int == self.grid@[i as int]@.len(),
                    j <= m,
                    row@.len() == j as int,
                    forall|b: int| 0 <= b < j ==> (#[trigger] row@[b]) == self.grid@[i as int]@[b],
                decreases m - j,
            {
                let cell = self.grid[i][j];
                row.push(cell);
                j = j + 1;
            }
            proof {
                assert(row@ =~= self.grid@[i as int]@);
            }
            grid.push(row);
            i = i + 1;
        }
        let r = Sudoku {
            size: self.size,
            sec_width: self.sec_width,
            sec_height: self.sec_height,
            grid,
        };
        proof {
            assert(r@.cells =~~= self@.cells);
            assert(r@ =~= self@);
        }
        r
    }
}

} // verus!
