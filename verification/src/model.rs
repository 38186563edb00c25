//! The mathematical model of a puzzle: a ghost board together with the
//! counting predicates (value occurrences per row, column and section),
//! the global solvedness predicate, and a specification-level depth-first
//! search that the executable solver is proved to implement.

use vstd::prelude::*;

verus! {

/// Number of occurrences of `Some(v)` among the first `n` cells of `row`.
pub open spec fn row_count(row: Seq<Option<int>>, v: int, n: int) -> int
    decreases n,
{
    if n <= 0 {
        0
    } else {
        row_count(row, v, n - 1) + if row[n - 1] == Some(v) {
            1int
        } else {
            0int
        }
    }
}

/// Number of occurrences of `Some(v)` among cells `c0..c0 + j` of `row`.
pub open spec fn seg_count(row: Seq<Option<int>>, c0: int, v: int, j: int) -> int
    decreases j,
{
    if j <= 0 {
        0
    } else {
        seg_count(row, c0, v, j - 1) + if row[c0 + j - 1] == Some(v) {
            1int
        } else {
            0int
        }
    }
}

/// Number of `None` cells among the first `n` cells of `row`.
pub open spec fn row_empties(row: Seq<Option<int>>, n: int) -> int
    decreases n,
{
    if n <= 0 {
        0
    } else {
        row_empties(row, n - 1) + if row[n - 1] is None {
            1int
        } else {
            0int
        }
    }
}

/// The state of a puzzle: the sectioning geometry and the matrix of cells,
/// where `None` is an unfilled cell and `Some(v)` a value in `1..=size`.
#[verifier::ext_equal]
pub ghost struct Board {
    pub size: int,
    pub sec_width: int,
    pub sec_height: int,
    pub cells: Seq<Seq<Option<int>>>,
}

impl Board {
    /// Structural invariant: positive section dimensions whose product is
    /// the side length, a square matrix of that side, and every filled cell
    /// holding a value in `1..=size`.
    pub open spec fn wf(self) -> bool {
        &&& self.sec_width >= 1
        &&& self.sec_height >= 1
        &&& self.sec_width * self.sec_height == self.size
        &&& self.cells.len() == self.size
        &&& forall|r: int| 0 <= r < self.size ==> (#[trigger] self.cells[r]).len() == self.size
        &&& forall|r: int, c: int|
            0 <= r < self.size && 0 <= c < self.size && (#[trigger] self.cells[r][c]) is Some
                ==> 1 <= self.cells[r][c]->0 <= self.size
    }

    /// Two boards with the same geometry (they may differ in cell contents).
    pub open spec fn same_shape(self, other: Board) -> bool {
        &&& self.size == other.size
        &&& self.sec_width == other.sec_width
        &&& self.sec_height == other.sec_height
    }

    /// How many times `v` occurs in row `row`.
    pub open spec fn count_in_row(self, row: int, v: int) -> int {
        row_count(self.cells[row], v, self.size)
    }

    /// How many times `v` occurs in column `col`, among the first `n` rows.
    pub open spec fn col_count(self, col: int, v: int, n: int) -> int
        decreases n,
    {
        if n <= 0 {
            0
        } else {
            self.col_count(col, v, n - 1) + if self.cells[n - 1][col] == Some(v) {
                1int
            } else {
                0int
            }
        }
    }

    /// How many times `v` occurs in column `col`.
    pub open spec fn count_in_col(self, col: int, v: int) -> int {
        self.col_count(col, v, self.size)
    }

    /// Top row of the section that row `row` belongs to.
    pub open spec fn row_origin(self, row: int) -> int {
        (row / self.sec_height) * self.sec_height
    }

    /// Leftmost column of the section that column `col` belongs to.
    pub open spec fn col_origin(self, col: int) -> int {
        (col / self.sec_width) * self.sec_width
    }

    /// How many times `v` occurs in the first `i` rows of the section whose
    /// top-left cell is `(r0, c0)`.
    pub open spec fn box_count(self, r0: int, c0: int, v: int, i: int) -> int
        decreases i,
    {
        if i <= 0 {
            0
        } else {
            self.box_count(r0, c0, v, i - 1) + seg_count(
                self.cells[r0 + i - 1],
                c0,
                v,
                self.sec_width,
            )
        }
    }

    /// How many times `v` occurs in the section containing cell `(row, col)`.
    pub open spec fn count_in_sec(self, row: int, col: int, v: int) -> int {
        self.box_count(self.row_origin(row), self.col_origin(col), v, self.sec_height)
    }

    /// `v` may legally be placed at `(row, col)`: the cell is empty and `v`
    /// occurs nowhere in that row, column, or section.
    pub open spec fn can_place(self, v: int, row: int, col: int) -> bool {
        &&& self.cells[row][col] is None
        &&& self.count_in_row(row, v) == 0
        &&& self.count_in_col(col, v) == 0
        &&& self.count_in_sec(row, col, v) == 0
    }

    /// The global correctness check: every value in `1..=size` occurs exactly
    /// once in every row, every column, and every section.
    pub open spec fn solved(self) -> bool {
        &&& forall|v: int, r: int|
            1 <= v <= self.size && 0 <= r < self.size ==> #[trigger] self.count_in_row(r, v) == 1
        &&& forall|v: int, c: int|
            1 <= v <= self.size && 0 <= c < self.size ==> #[trigger] self.count_in_col(c, v) == 1
        &&& forall|v: int, si: int, sj: int|
            1 <= v <= self.size && 0 <= si < self.sec_width && 0 <= sj < self.sec_height
                ==> #[trigger] self.count_in_sec(si * self.sec_height, sj * self.sec_width, v) == 1
    }

    /// No filled cell conflicts with another: each placed value occurs
    /// exactly once in its row, its column, and its section.
    pub open spec fn consistent(self) -> bool {
        forall|r: int, c: int|
            0 <= r < self.size && 0 <= c < self.size && (#[trigger] self.cells[r][c]) is Some ==> {
                let v = self.cells[r][c]->0;
                &&& self.count_in_row(r, v) == 1
                &&& self.count_in_col(c, v) == 1
                &&& self.count_in_sec(r, c, v) == 1
            }
    }

    /// Every cell is filled.
    pub open spec fn full(self) -> bool {
        forall|r: int, c: int|
            0 <= r < self.size && 0 <= c < self.size ==> (#[trigger] self.cells[r][c]) is Some
    }

    /// `other` agrees with every cell that is filled in `self` (it may fill
    /// blanks, but never changes a given).
    pub open spec fn extends(self, other: Board) -> bool {
        &&& self.same_shape(other)
        &&& forall|r: int, c: int|
            0 <= r < self.size && 0 <= c < self.size && (#[trigger] self.cells[r][c]) is Some
                ==> self.cells[r][c] == other.cells[r][c]
    }

    /// The board with cell `(row, col)` overwritten by `v`.
    pub open spec fn place(self, row: int, col: int, v: Option<int>) -> Board {
        Board { cells: self.cells.update(row, self.cells[row].update(col, v)), ..self }
    }

    /// Number of `None` cells in the first `n` rows.
    pub open spec fn empties_upto(self, n: int) -> int
        decreases n,
    {
        if n <= 0 {
            0
        } else {
            self.empties_upto(n - 1) + row_empties(self.cells[n - 1], self.size)
        }
    }

    /// Number of `None` cells on the whole board.
    pub open spec fn num_empty(self) -> int {
        self.empties_upto(self.size)
    }

    /// The first empty cell at or after `(r, c)` in row-major order.
    pub open spec fn first_empty_from(self, r: int, c: int) -> Option<(int, int)>
        decreases self.size - r, self.size - c,
        when 0 <= r && 0 <= c <= self.size
    {
        if r >= self.size {
            None
        } else if c >= self.size {
            self.first_empty_from(r + 1, 0)
        } else if self.cells[r][c] is None {
            Some((r, c))
        } else {
            self.first_empty_from(r, c + 1)
        }
    }

    /// The first empty cell of the board in row-major order.
    pub open spec fn first_empty(self) -> Option<(int, int)> {
        self.first_empty_from(0, 0)
    }

    /// The depth-first search: find the first empty cell in row-major order;
    /// if none exists the board is complete, otherwise try the candidate
    /// values `1..=size` in ascending order. This is the reference semantics
    /// of the executable solver.
    pub open spec fn search(self) -> Option<Board>
        decreases self.num_empty(), 1int, 0int,
        when self.wf()
        via Self::search_decreases
    {
        match self.first_empty() {
            None => Some(self),
            Some(rc) => self.try_values(rc.0, rc.1, 1),
        }
    }

    /// Try the candidate values `v..=size` at the empty cell `(r, c)` in
    /// ascending order: place the first legal one, recurse, and on failure
    /// undo the placement and move to the next candidate.
    pub open spec fn try_values(self, r: int, c: int, v: int) -> Option<Board>
        decreases self.num_empty(), 0int, self.size + 1 - v,
        when self.wf() && 0 <= r < self.size && 0 <= c < self.size && self.cells[r][c] is None
            && 1 <= v
        via Self::try_values_decreases
    {
        if v > self.size {
            None
        } else if self.can_place(v, r, c) {
            match self.place(r, c, Some(v)).search() {
                Some(s) => Some(s),
                None => self.try_values(r, c, v + 1),
            }
        } else {
            self.try_values(r, c, v + 1)
        }
    }

    #[via_fn]
    proof fn search_decreases(self) {
        lemma_num_empty_nonneg(self);
    }

    #[via_fn]
    proof fn try_values_decreases(self, r: int, c: int, v: int) {
        lemma_num_empty_nonneg(self);
        if v <= self.size && self.can_place(v, r, c) {
            lemma_place_num_empty(self, r, c, v);
            lemma_num_empty_nonneg(self.place(r, c, Some(v)));
        }
    }
}

/// Occurrence counts over a row prefix are never negative.
pub proof fn lemma_row_count_nonneg(row: Seq<Option<int>>, v: int, n: int)
    ensures
        row_count(row, v, n) >= 0,
    decreases n,
{
    if n > 0 {
        lemma_row_count_nonneg(row, v, n - 1);
    }
}

/// Occurrence counts over a row segment are never negative.
pub proof fn lemma_seg_count_nonneg(row: Seq<Option<int>>, c0: int, v: int, j: int)
    ensures
        seg_count(row, c0, v, j) >= 0,
    decreases j,
{
    if j > 0 {
        lemma_seg_count_nonneg(row, c0, v, j - 1);
    }
}

/// Occurrence counts over a column prefix are never negative.
pub proof fn lemma_col_count_nonneg(b: Board, col: int, v: int, n: int)
    ensures
        b.col_count(col, v, n) >= 0,
    decreases n,
{
    if n > 0 {
        lemma_col_count_nonneg(b, col, v, n - 1);
    }
}

/// Occurrence counts over the rows of a section are never negative.
pub proof fn lemma_box_count_nonneg(b: Board, r0: int, c0: int, v: int, i: int)
    ensures
        b.box_count(r0, c0, v, i) >= 0,
    decreases i,
{
    if i > 0 {
        lemma_box_count_nonneg(b, r0, c0, v, i - 1);
        lemma_seg_count_nonneg(b.cells[r0 + i - 1], c0, v, b.sec_width);
    }
}

/// A cell holding `v` inside the counted prefix forces a positive count.
pub proof fn lemma_row_count_ge1(row: Seq<Option<int>>, v: int, n: int, c: int)
    requires
        0 <= c < n,
        row[c] == Some(v),
    ensures
        row_count(row, v, n) >= 1,
    decreases n,
{
    lemma_row_count_nonneg(row, v, n - 1);
    if c < n - 1 {
        lemma_row_count_ge1(row, v, n - 1, c);
    }
}

/// A cell holding `v` inside the counted segment forces a positive count.
pub proof fn lemma_seg_count_ge1(row: Seq<Option<int>>, c0: int, v: int, j: int, c: int)
    requires
        c0 <= c < c0 + j,
        row[c] == Some(v),
    ensures
        seg_count(row, c0, v, j) >= 1,
    decreases j,
{
    lemma_seg_count_nonneg(row, c0, v, j - 1);
    if c < c0 + j - 1 {
        lemma_seg_count_ge1(row, c0, v, j - 1, c);
    }
}

/// A cell holding `v` inside the counted column prefix forces a positive
/// count.
pub proof fn lemma_col_count_ge1(b: Board, col: int, v: int, n: int, r: int)
    requires
        0 <= r < n,
        b.cells[r][col] == Some(v),
    ensures
        b.col_count(col, v, n) >= 1,
    decreases n,
{
    lemma_col_count_nonneg(b, col, v, n - 1);
    if r < n - 1 {
        lemma_col_count_ge1(b, col, v, n - 1, r);
    }
}

/// A cell holding `v` inside the counted section rows forces a positive
/// count.
pub proof fn lemma_box_count_ge1(b: Board, r0: int, c0: int, v: int, i: int, r: int, c: int)
    requires
        r0 <= r < r0 + i,
        c0 <= c < c0 + b.sec_width,
        b.cells[r][c] == Some(v),
    ensures
        b.box_count(r0, c0, v, i) >= 1,
    decreases i,
{
    lemma_box_count_nonneg(b, r0, c0, v, i - 1);
    lemma_seg_count_nonneg(b.cells[r0 + i - 1], c0, v, b.sec_width);
    if r < r0 + i - 1 {
        lemma_box_count_ge1(b, r0, c0, v, i - 1, r, c);
    } else {
        lemma_seg_count_ge1(b.cells[r], c0, v, b.sec_width, c);
    }
}

/// Two distinct cells holding `v` in the counted prefix force a count of at
/// least two.
pub proof fn lemma_row_count_ge2(row: Seq<Option<int>>, v: int, n: int, c1: int, c2: int)
    requires
        0 <= c1 < n,
        0 <= c2 < n,
        c1 != c2,
        row[c1] == Some(v),
        row[c2] == Some(v),
    ensures
        row_count(row, v, n) >= 2,
    decreases n,
{
    if c1 == n - 1 {
        lemma_row_count_ge1(row, v, n - 1, c2);
    } else if c2 == n - 1 {
        lemma_row_count_ge1(row, v, n - 1, c1);
    } else {
        lemma_row_count_ge2(row, v, n - 1, c1, c2);
    }
}

/// Two distinct cells holding `v` in the counted column prefix force a count
/// of at least two.
pub proof fn lemma_col_count_ge2(b: Board, col: int, v: int, n: int, r1: int, r2: int)
    requires
        0 <= r1 < n,
        0 <= r2 < n,
        r1 != r2,
        b.cells[r1][col] == Some(v),
        b.cells[r2][col] == Some(v),
    ensures
        b.col_count(col, v, n) >= 2,
    decreases n,
{
    if r1 == n - 1 {
        lemma_col_count_ge1(b, col, v, n - 1, r2);
    } else if r2 == n - 1 {
        lemma_col_count_ge1(b, col, v, n - 1, r1);
    } else {
        lemma_col_count_ge2(b, col, v, n - 1, r1, r2);
    }
}

/// Two distinct cells holding `v` within the counted section rows force a
/// count of at least two.
pub proof fn lemma_box_count_ge2(
    b: Board,
    r0: int,
    c0: int,
    v: int,
    i: int,
    r1: int,
    c1: int,
    r2: int,
    c2: int,
)
    requires
        r0 <= r1 < r0 + i,
        c0 <= c1 < c0 + b.sec_width,
        r0 <= r2 < r0 + i,
        c0 <= c2 < c0 + b.sec_width,
        (r1, c1) != (r2, c2),
        b.cells[r1][c1] == Some(v),
        b.cells[r2][c2] == Some(v),
    ensures
        b.box_count(r0, c0, v, i) >= 2,
    decreases i,
{
    let last = b.cells[r0 + i - 1];
    if r1 < r0 + i - 1 && r2 < r0 + i - 1 {
        lemma_box_count_ge2(b, r0, c0, v, i - 1, r1, c1, r2, c2);
        lemma_seg_count_nonneg(last, c0, v, b.sec_width);
    } else if r1 == r0 + i - 1 && r2 == r0 + i - 1 {
        lemma_seg_count_ge2(last, c0, v, b.sec_width, c1, c2);
        lemma_box_count_nonneg(b, r0, c0, v, i - 1);
    } else if r1 == r0 + i - 1 {
        lemma_seg_count_ge1(last, c0, v, b.sec_width, c1);
        lemma_box_count_ge1(b, r0, c0, v, i - 1, r2, c2);
    } else {
        lemma_seg_count_ge1(last, c0, v, b.sec_width, c2);
        lemma_box_count_ge1(b, r0, c0, v, i - 1, r1, c1);
    }
}

/// Two distinct cells holding `v` in the counted segment force a count of at
/// least two.
pub proof fn lemma_seg_count_ge2(row: Seq<Option<int>>, c0: int, v: int, j: int, c1: int, c2: int)
    requires
        c0 <= c1 < c0 + j,
        c0 <= c2 < c0 + j,
        c1 != c2,
        row[c1] == Some(v),
        row[c2] == Some(v),
    ensures
        seg_count(row, c0, v, j) >= 2,
    decreases j,
{
    if c1 == c0 + j - 1 {
        lemma_seg_count_ge1(row, c0, v, j - 1, c2);
    } else if c2 == c0 + j - 1 {
        lemma_seg_count_ge1(row, c0, v, j - 1, c1);
    } else {
        lemma_seg_count_ge2(row, c0, v, j - 1, c1, c2);
    }
}

/// A positive count over a row prefix exhibits a cell holding `v`.
pub proof fn lemma_row_count_witness(row: Seq<Option<int>>, v: int, n: int) -> (c: int)
    requires
        row_count(row, v, n) >= 1,
    ensures
        0 <= c < n,
        row[c] == Some(v),
    decreases n,
{
    if n <= 0 {
        0
    } else if row[n - 1] == Some(v) {
        n - 1
    } else {
        lemma_row_count_witness(row, v, n - 1)
    }
}

/// A positive count over a column prefix exhibits a cell holding `v`.
pub proof fn lemma_col_count_witness(b: Board, col: int, v: int, n: int) -> (r: int)
    requires
        b.col_count(col, v, n) >= 1,
    ensures
        0 <= r < n,
        b.cells[r][col] == Some(v),
    decreases n,
{
    if n <= 0 {
        0
    } else if b.cells[n - 1][col] == Some(v) {
        n - 1
    } else {
        lemma_col_count_witness(b, col, v, n - 1)
    }
}

/// A positive count over a segment exhibits a cell holding `v`.
pub proof fn lemma_seg_count_witness(row: Seq<Option<int>>, c0: int, v: int, j: int) -> (c: int)
    requires
        seg_count(row, c0, v, j) >= 1,
    ensures
        c0 <= c < c0 + j,
        row[c] == Some(v),
    decreases j,
{
    if j <= 0 {
        c0
    } else if row[c0 + j - 1] == Some(v) {
        c0 + j - 1
    } else {
        lemma_seg_count_witness(row, c0, v, j - 1)
    }
}

/// A positive count over the rows of a section exhibits a cell holding `v`.
pub proof fn lemma_box_count_witness(b: Board, r0: int, c0: int, v: int, i: int) -> (rc: (int, int))
    requires
        b.box_count(r0, c0, v, i) >= 1,
    ensures
        r0 <= rc.0 < r0 + i,
        c0 <= rc.1 < c0 + b.sec_width,
        b.cells[rc.0][rc.1] == Some(v),
    decreases i,
{
    if i <= 0 {
        (r0, c0)
    } else {
        let last = b.cells[r0 + i - 1];
        lemma_box_count_nonneg(b, r0, c0, v, i - 1);
        lemma_seg_count_nonneg(last, c0, v, b.sec_width);
        if seg_count(last, c0, v, b.sec_width) >= 1 {
            let c = lemma_seg_count_witness(last, c0, v, b.sec_width);
            (r0 + i - 1, c)
        } else {
            lemma_box_count_witness(b, r0, c0, v, i - 1)
        }
    }
}

/// The occurrence-count indicator of one cell.
pub open spec fn cell_ind(x: Option<int>, v: int) -> int {
    if x == Some(v) {
        1int
    } else {
        0int
    }
}

/// Updating one cell shifts a row-prefix count by the difference of the
/// indicators at that cell.
pub proof fn lemma_row_count_update(row: Seq<Option<int>>, c: int, x: Option<int>, v: int, n: int)
    requires
        0 <= c < row.len(),
        n <= row.len(),
    ensures
        row_count(row.update(c, x), v, n) == row_count(row, v, n) + if c < n {
            cell_ind(x, v) - cell_ind(row[c], v)
        } else {
            0int
        },
    decreases n,
{
    if n > 0 {
        lemma_row_count_update(row, c, x, v, n - 1);
    }
}

/// Updating one cell shifts a segment count by the difference of the
/// indicators at that cell.
pub proof fn lemma_seg_count_update(
    row: Seq<Option<int>>,
    c0: int,
    c: int,
    x: Option<int>,
    v: int,
    j: int,
)
    requires
        0 <= c < row.len(),
        0 <= c0,
        c0 + j <= row.len(),
    ensures
        seg_count(row.update(c, x), c0, v, j) == seg_count(row, c0, v, j) + if c0 <= c < c0 + j {
            cell_ind(x, v) - cell_ind(row[c], v)
        } else {
            0int
        },
    decreases j,
{
    if j > 0 {
        lemma_seg_count_update(row, c0, c, x, v, j - 1);
    }
}

/// Overwriting cell `(r, c)` shifts the count of any row by the indicator
/// difference when that row is `r`, and not at all otherwise.
pub proof fn lemma_place_count_in_row(b: Board, r: int, c: int, x: Option<int>, r2: int, v: int)
    requires
        b.wf(),
        0 <= r < b.size,
        0 <= c < b.size,
        0 <= r2 < b.size,
    ensures
        b.place(r, c, x).count_in_row(r2, v) == b.count_in_row(r2, v) + if r2 == r {
            cell_ind(x, v) - cell_ind(b.cells[r][c], v)
        } else {
            0int
        },
{
    if r2 == r {
        lemma_row_count_update(b.cells[r], c, x, v, b.size);
    } else {
        assert(b.place(r, c, x).cells[r2] == b.cells[r2]);
    }
}

/// Overwriting cell `(r, c)` shifts a column-prefix count by the indicator
/// difference when the column is `c` and row `r` lies in the prefix.
pub proof fn lemma_place_col_count(
    b: Board,
    r: int,
    c: int,
    x: Option<int>,
    c2: int,
    v: int,
    n: int,
)
    requires
        b.wf(),
        0 <= r < b.size,
        0 <= c < b.size,
        0 <= c2 < b.size,
        n <= b.size,
    ensures
        b.place(r, c, x).col_count(c2, v, n) == b.col_count(c2, v, n) + if c2 == c && r < n {
            cell_ind(x, v) - cell_ind(b.cells[r][c], v)
        } else {
            0int
        },
    decreases n,
{
    if n > 0 {
        lemma_place_col_count(b, r, c, x, c2, v, n - 1);
    }
}

/// Overwriting cell `(r, c)` shifts a section count by the indicator
/// difference when the cell lies within the counted rows and columns.
pub proof fn lemma_place_box_count(
    b: Board,
    r: int,
    c: int,
    x: Option<int>,
    r0: int,
    c0: int,
    v: int,
    i: int,
)
    requires
        b.wf(),
        0 <= r < b.size,
        0 <= c < b.size,
        0 <= r0,
        r0 + i <= b.size,
        0 <= c0,
        c0 + b.sec_width <= b.size,
        i >= 0,
    ensures
        b.place(r, c, x).box_count(r0, c0, v, i) == b.box_count(r0, c0, v, i) + if r0 <= r < r0 + i
            && c0 <= c < c0 + b.sec_width {
            cell_ind(x, v) - cell_ind(b.cells[r][c], v)
        } else {
            0int
        },
    decreases i,
{
    if i > 0 {
        lemma_place_box_count(b, r, c, x, r0, c0, v, i - 1);
        if r == r0 + i - 1 {
            lemma_seg_count_update(b.cells[r], c0, c, x, v, b.sec_width);
        } else {
            assert(b.place(r, c, x).cells[r0 + i - 1] == b.cells[r0 + i - 1]);
        }
    }
}

/// `x / d == q` exactly when `x` lies in the `q`-th block of width `d`.
pub proof fn lemma_div_block(x: int, d: int, q: int)
    requires
        d >= 1,
    ensures
        x / d == q <==> q * d <= x < q * d + d,
{
    vstd::arithmetic::div_mod::lemma_fundamental_div_mod(x, d);
    vstd::arithmetic::div_mod::lemma_mod_bound(x, d);
    assert(q * d == d * q) by (nonlinear_arith);
    if q * d <= x < q * d + d {
        vstd::arithmetic::div_mod::lemma_fundamental_div_mod_converse_div(x, d, q, x - q * d);
    }
}

/// Cells `(r1, c1)` and `(r2, c2)` lie in the same section.
pub open spec fn same_section(b: Board, r1: int, c1: int, r2: int, c2: int) -> bool {
    b.row_origin(r1) == b.row_origin(r2) && b.col_origin(c1) == b.col_origin(c2)
}

/// A cell lies within the section rows starting at another cell's origin
/// exactly when the two cells share a section row band; likewise for
/// columns.
pub proof fn lemma_same_band(x1: int, x2: int, d: int)
    requires
        d >= 1,
        0 <= x1,
        0 <= x2,
    ensures
        (x2 / d) * d == (x1 / d) * d <==> ((x2 / d) * d <= x1 < (x2 / d) * d + d),
{
    let q1 = x1 / d;
    let q2 = x2 / d;
    lemma_div_block(x1, d, q2);
    if q1 * d == q2 * d {
        assert(q1 == q2) by (nonlinear_arith)
            requires
                q1 * d == q2 * d,
                d >= 1,
        ;
    }
    if q1 == q2 {
        assert(q1 * d == q2 * d);
    }
}

/// Overwriting cell `(r, c)` shifts the section count observed from any
/// cell `(r2, c2)` by the indicator difference when the two cells share a
/// section, and not at all otherwise.
pub proof fn lemma_place_count_in_sec(
    b: Board,
    r: int,
    c: int,
    x: Option<int>,
    r2: int,
    c2: int,
    v: int,
)
    requires
        b.wf(),
        0 <= r < b.size,
        0 <= c < b.size,
        0 <= r2 < b.size,
        0 <= c2 < b.size,
    ensures
        b.place(r, c, x).count_in_sec(r2, c2, v) == b.count_in_sec(r2, c2, v) + if same_section(
            b,
            r,
            c,
            r2,
            c2,
        ) {
            cell_ind(x, v) - cell_ind(b.cells[r][c], v)
        } else {
            0int
        },
{
    let sh = b.sec_height;
    let sw = b.sec_width;
    let r0 = b.row_origin(r2);
    let c0 = b.col_origin(c2);
    lemma_section_origin_bounds(b, r2, c2);
    lemma_place_box_count(b, r, c, x, r0, c0, v, sh);
    lemma_same_band(r, r2, sh);
    lemma_same_band(c, c2, sw);
}

/// The section origin of any in-bounds cell is itself in bounds, and the
/// section starting there fits inside the grid.
pub proof fn lemma_section_origin_bounds(b: Board, row: int, col: int)
    requires
        b.wf(),
        0 <= row < b.size,
        0 <= col < b.size,
    ensures
        0 <= b.row_origin(row) <= row,
        0 <= b.col_origin(col) <= col,
        b.row_origin(row) + b.sec_height <= b.size,
        b.col_origin(col) + b.sec_width <= b.size,
{
    lemma_round_down_in_range(row, b.sec_height, b.sec_width);
    lemma_round_down_in_range(col, b.sec_width, b.sec_height);
    assert(b.sec_height * b.sec_width == b.sec_width * b.sec_height);
}

/// Rounding `x` down to a multiple of `d` stays within `[0, x]`, and the
/// next multiple is at most `m * d` whenever `x < m * d`.
pub proof fn lemma_round_down_in_range(x: int, d: int, m: int)
    requires
        0 <= x,
        x < m * d,
        d >= 1,
        m >= 1,
    ensures
        0 <= (x / d) * d <= x,
        (x / d) * d + d <= m * d,
{
    let q = x / d;
    vstd::arithmetic::div_mod::lemma_fundamental_div_mod(x, d);
    vstd::arithmetic::div_mod::lemma_mod_bound(x, d);
    assert(q * d == d * q) by (nonlinear_arith);
    assert(q * d <= x);
    if q >= m {
        vstd::arithmetic::mul::lemma_mul_inequality(m, q, d);
        assert(false);
    }
    vstd::arithmetic::mul::lemma_mul_inequality(q + 1, m, d);
    assert((q + 1) * d == q * d + d) by (nonlinear_arith);
}

/// Overwriting an in-bounds cell with an in-range value (or clearing it)
/// preserves well-formedness.
pub proof fn lemma_place_preserves_wf(b: Board, r: int, c: int, x: Option<int>)
    requires
        b.wf(),
        0 <= r < b.size,
        0 <= c < b.size,
        x is Some ==> 1 <= x->0 <= b.size,
    ensures
        b.place(r, c, x).wf(),
{
    let p = b.place(r, c, x);
    assert(forall|rr: int| 0 <= rr < p.size ==> (#[trigger] p.cells[rr]).len() == p.size);
    assert(forall|rr: int, cc: int|
        0 <= rr < p.size && 0 <= cc < p.size && (#[trigger] p.cells[rr][cc]) is Some ==> 1
            <= p.cells[rr][cc]->0 <= p.size);
}

/// A board extends the board obtained by filling one of its empty cells.
pub proof fn lemma_place_extends(b: Board, r: int, c: int, v: int)
    requires
        b.wf(),
        0 <= r < b.size,
        0 <= c < b.size,
        b.cells[r][c] is None,
    ensures
        b.extends(b.place(r, c, Some(v))),
{
}

/// `extends` is transitive.
pub proof fn lemma_extends_transitive(a: Board, b: Board, c: Board)
    requires
        a.extends(b),
        b.extends(c),
        a.size == b.size,
    ensures
        a.extends(c),
{
    assert forall|r: int, cc: int|
        0 <= r < a.size && 0 <= cc < a.size && (#[trigger] a.cells[r][cc]) is Some implies a.cells[
        r
    ][cc] == c.cells[r][cc] by {
        assert(b.cells[r][cc] is Some);
    }
}

/// Placing a legal value on a consistent board keeps it consistent: the new
/// value's counts in its row, column, and section rise from zero to one, and
/// every other filled cell's counts are untouched.
pub proof fn lemma_place_preserves_consistent(b: Board, r: int, c: int, v: int)
    requires
        b.wf(),
        b.consistent(),
        0 <= r < b.size,
        0 <= c < b.size,
        1 <= v <= b.size,
        b.can_place(v, r, c),
    ensures
        b.place(r, c, Some(v)).consistent(),
{
    let p = b.place(r, c, Some(v));
    lemma_place_preserves_wf(b, r, c, Some(v));
    assert forall|r2: int, c2: int|
        0 <= r2 < p.size && 0 <= c2 < p.size && (#[trigger] p.cells[r2][c2]) is Some implies {
        let w = p.cells[r2][c2]->0;
        &&& p.count_in_row(r2, w) == 1
        &&& p.count_in_col(c2, w) == 1
        &&& p.count_in_sec(r2, c2, w) == 1
    } by {
        let w = p.cells[r2][c2]->0;
        lemma_place_count_in_row(b, r, c, Some(v), r2, w);
        lemma_place_col_count(b, r, c, Some(v), c2, w, b.size);
        lemma_place_count_in_sec(b, r, c, Some(v), r2, c2, w);
        if r2 == r && c2 == c {
            // The new cell: its counts rise from zero to one.
            assert(w == v);
            assert(same_section(b, r, c, r2, c2));
        } else {
            // An old cell: `w == v` would contradict `can_place`, since the
            // old cell would put a positive `v` count in a shared unit.
            assert(b.cells[r2][c2] == p.cells[r2][c2]);
            if w == v {
                if r2 == r {
                    lemma_row_count_ge1(b.cells[r], v, b.size, c2);
                } else if c2 == c {
                    lemma_col_count_ge1(b, c, v, b.size, r2);
                } else if same_section(b, r, c, r2, c2) {
                    lemma_section_origin_bounds(b, r, c);
                    lemma_same_band(r2, r, b.sec_height);
                    lemma_same_band(c2, c, b.sec_width);
                    lemma_box_count_ge1(
                        b,
                        b.row_origin(r),
                        b.col_origin(c),
                        v,
                        b.sec_height,
                        r2,
                        c2,
                    );
                }
            }
        }
    }
}

/// Indicator of a cell holding a value in `1..=hi`.
pub open spec fn in_range_ind(x: Option<int>, hi: int) -> int {
    if x is Some && 1 <= x->0 <= hi {
        1int
    } else {
        0int
    }
}

/// Sum of the counts of the values `1..=nv` over the first `n` cells of a
/// row.
pub open spec fn row_count_sum(row: Seq<Option<int>>, nv: int, n: int) -> int
    decreases nv,
{
    if nv <= 0 {
        0
    } else {
        row_count_sum(row, nv - 1, n) + row_count(row, nv, n)
    }
}

/// Number of cells among the first `n` that hold a value in `1..=hi`.
pub open spec fn row_filled_in_range(row: Seq<Option<int>>, hi: int, n: int) -> int
    decreases n,
{
    if n <= 0 {
        0
    } else {
        row_filled_in_range(row, hi, n - 1) + in_range_ind(row[n - 1], hi)
    }
}

/// Peeling the last counted cell off a sum of counts.
pub proof fn lemma_row_count_sum_peel(row: Seq<Option<int>>, nv: int, n: int)
    requires
        n >= 1,
    ensures
        row_count_sum(row, nv, n) == row_count_sum(row, nv, n - 1) + in_range_ind(row[n - 1], nv),
    decreases nv,
{
    if nv > 0 {
        lemma_row_count_sum_peel(row, nv - 1, n);
    }
}

/// Counting by value and counting by cell agree: the sum over the values
/// `1..=hi` of their counts equals the number of cells holding a value in
/// `1..=hi`.
pub proof fn lemma_row_count_sum_is_filled(row: Seq<Option<int>>, hi: int, n: int)
    ensures
        row_count_sum(row, hi, n) == row_filled_in_range(row, hi, n),
    decreases n,
{
    if n > 0 {
        lemma_row_count_sum_is_filled(row, hi, n - 1);
        lemma_row_count_sum_peel(row, hi, n);
    } else {
        lemma_row_count_sum_zero_width(row, hi, n);
    }
}

/// A sum of counts over an empty prefix is zero.
pub proof fn lemma_row_count_sum_zero_width(row: Seq<Option<int>>, nv: int, n: int)
    requires
        n <= 0,
    ensures
        row_count_sum(row, nv, n) == 0,
    decreases nv,
{
    if nv > 0 {
        lemma_row_count_sum_zero_width(row, nv - 1, n);
    }
}

/// If every counted cell is filled with a value in `1..=hi`, the in-range
/// cell count is exactly `n`.
pub proof fn lemma_row_filled_all(row: Seq<Option<int>>, hi: int, n: int)
    requires
        forall|c: int|
            0 <= c < n ==> (#[trigger] row[c]) is Some && 1 <= row[c]->0 <= hi,
    ensures
        row_filled_in_range(row, hi, n) == if n <= 0 {
            0int
        } else {
            n
        },
    decreases n,
{
    if n > 0 {
        lemma_row_filled_all(row, hi, n - 1);
    }
}

/// An empty cell among the first `n` caps the in-range cell count at
/// `n - 1`.
pub proof fn lemma_row_filled_missing(row: Seq<Option<int>>, hi: int, n: int, c0: int)
    requires
        0 <= c0 < n,
        !(row[c0] is Some && 1 <= row[c0]->0 <= hi),
    ensures
        row_filled_in_range(row, hi, n) <= n - 1,
    decreases n,
{
    lemma_row_filled_le(row, hi, n - 1);
    if c0 < n - 1 {
        lemma_row_filled_missing(row, hi, n - 1, c0);
    }
}

/// The in-range cell count never exceeds the number of counted cells.
pub proof fn lemma_row_filled_le(row: Seq<Option<int>>, hi: int, n: int)
    ensures
        row_filled_in_range(row, hi, n) <= if n <= 0 {
            0int
        } else {
            n
        },
    decreases n,
{
    if n > 0 {
        lemma_row_filled_le(row, hi, n - 1);
    }
}

/// If every value in `1..=nv` has count exactly one, the sum of counts is
/// `nv`.
pub proof fn lemma_row_count_sum_ones(row: Seq<Option<int>>, nv: int, n: int)
    requires
        forall|v: int| 1 <= v <= nv ==> #[trigger] row_count(row, v, n) == 1,
    ensures
        row_count_sum(row, nv, n) == if nv <= 0 {
            0int
        } else {
            nv
        },
    decreases nv,
{
    if nv > 0 {
        lemma_row_count_sum_ones(row, nv - 1, n);
    }
}

/// If every value's count is at most one, the sum of counts is at most `nv`.
pub proof fn lemma_row_count_sum_le(row: Seq<Option<int>>, nv: int, n: int)
    requires
        forall|v: int| 1 <= v <= nv ==> #[trigger] row_count(row, v, n) <= 1,
    ensures
        row_count_sum(row, nv, n) <= if nv <= 0 {
            0int
        } else {
            nv
        },
    decreases nv,
{
    if nv > 0 {
        lemma_row_count_sum_le(row, nv - 1, n);
    }
}

/// If additionally some value in `1..=nv` has count zero, the sum of counts
/// is at most `nv - 1`.
pub proof fn lemma_row_count_sum_short(row: Seq<Option<int>>, nv: int, n: int, v0: int)
    requires
        forall|v: int| 1 <= v <= nv ==> #[trigger] row_count(row, v, n) <= 1,
        1 <= v0 <= nv,
        row_count(row, v0, n) == 0,
    ensures
        row_count_sum(row, nv, n) <= nv - 1,
    decreases nv,
{
    if v0 == nv {
        lemma_row_count_sum_le(row, nv - 1, n);
    } else {
        lemma_row_count_sum_short(row, nv - 1, n, v0);
    }
}

/// A fully filled sequence of `n` cells with values in `1..=n`, each
/// occurring at most once, contains every value exactly once.
pub proof fn lemma_row_pigeonhole(row: Seq<Option<int>>, n: int)
    requires
        n >= 1,
        forall|c: int| 0 <= c < n ==> (#[trigger] row[c]) is Some && 1 <= row[c]->0 <= n,
        forall|v: int| 1 <= v <= n ==> #[trigger] row_count(row, v, n) <= 1,
    ensures
        forall|v: int| 1 <= v <= n ==> #[trigger] row_count(row, v, n) == 1,
{
    lemma_row_count_sum_is_filled(row, n, n);
    lemma_row_filled_all(row, n, n);
    assert forall|v: int| 1 <= v <= n implies #[trigger] row_count(row, v, n) == 1 by {
        lemma_row_count_nonneg(row, v, n);
        if row_count(row, v, n) == 0 {
            lemma_row_count_sum_short(row, n, n, v);
        }
    }
}

/// Column `col` of the board, materialized as a sequence.
pub open spec fn col_seq(b: Board, col: int) -> Seq<Option<int>> {
    Seq::new(b.size as nat, |r: int| b.cells[r][col])
}

/// Counting down a column is counting along its materialized sequence.
pub proof fn lemma_col_count_is_row_count(b: Board, col: int, v: int, n: int)
    requires
        n <= b.size,
    ensures
        b.col_count(col, v, n) == row_count(col_seq(b, col), v, n),
    decreases n,
{
    if n > 0 {
        lemma_col_count_is_row_count(b, col, v, n - 1);
    }
}

/// The section with top-left corner `(r0, c0)`, materialized as a sequence
/// in row-major order.
pub open spec fn box_seq(b: Board, r0: int, c0: int) -> Seq<Option<int>> {
    Seq::new(
        (b.sec_height * b.sec_width) as nat,
        |k: int| b.cells[r0 + k / b.sec_width][c0 + k % b.sec_width],
    )
}

/// Extending a section count along the cells of one section row.
proof fn lemma_box_seq_row(b: Board, r0: int, c0: int, v: int, i: int, j: int)
    requires
        b.wf(),
        1 <= i <= b.sec_height,
        0 <= j <= b.sec_width,
    ensures
        row_count(box_seq(b, r0, c0), v, (i - 1) * b.sec_width + j) == row_count(
            box_seq(b, r0, c0),
            v,
            (i - 1) * b.sec_width,
        ) + seg_count(b.cells[r0 + i - 1], c0, v, j),
    decreases j,
{
    let sw = b.sec_width;
    let sh = b.sec_height;
    assert(0 <= (i - 1) * sw && i * sw <= sh * sw) by (nonlinear_arith)
        requires
            1 <= i <= sh,
            sw >= 1,
    ;
    assert(i * sw == (i - 1) * sw + sw) by (nonlinear_arith);
    if j > 0 {
        lemma_box_seq_row(b, r0, c0, v, i, j - 1);
        let k = (i - 1) * sw + j - 1;
        vstd::arithmetic::div_mod::lemma_fundamental_div_mod_converse_div(k, sw, i - 1, j - 1);
        vstd::arithmetic::div_mod::lemma_fundamental_div_mod_converse_mod(k, sw, i - 1, j - 1);
        assert(box_seq(b, r0, c0)[k] == b.cells[r0 + i - 1][c0 + j - 1]);
    }
}

/// Counting over the first `i` rows of a section is counting along a prefix
/// of its materialized sequence.
pub proof fn lemma_box_count_is_row_count(b: Board, r0: int, c0: int, v: int, i: int)
    requires
        b.wf(),
        0 <= i <= b.sec_height,
    ensures
        b.box_count(r0, c0, v, i) == row_count(box_seq(b, r0, c0), v, i * b.sec_width),
    decreases i,
{
    let sw = b.sec_width;
    if i > 0 {
        lemma_box_count_is_row_count(b, r0, c0, v, i - 1);
        lemma_box_seq_row(b, r0, c0, v, i, sw);
        assert(i * sw == (i - 1) * sw + sw) by (nonlinear_arith);
    } else {
        assert(i * sw <= 0) by (nonlinear_arith)
            requires
                i <= 0,
                sw >= 1,
        ;
    }
}

/// A full and consistent board is solved: in every row, column, and
/// section, the `size` cells hold `size` pairwise-distinct values from
/// `1..=size`, so every value occurs exactly once.
pub proof fn lemma_full_consistent_solved(b: Board)
    requires
        b.wf(),
        b.consistent(),
        b.full(),
    ensures
        b.solved(),
{
    let n = b.size;
    lemma_wf_size_pos(b);
    // Rows.
    assert forall|v: int, r: int|
        1 <= v <= n && 0 <= r < n implies #[trigger] b.count_in_row(r, v) == 1 by {
        let row = b.cells[r];
        assert forall|w: int| 1 <= w <= n implies #[trigger] row_count(row, w, n) <= 1 by {
            lemma_row_count_nonneg(row, w, n);
            if row_count(row, w, n) >= 1 {
                let c = lemma_row_count_witness(row, w, n);
                assert(b.count_in_row(r, w) == 1);
            }
        }
        assert(forall|c: int| 0 <= c < n ==> (#[trigger] row[c]) is Some && 1 <= row[c]->0 <= n);
        lemma_row_pigeonhole(row, n);
    }
    // Columns.
    assert forall|v: int, c: int|
        1 <= v <= n && 0 <= c < n implies #[trigger] b.count_in_col(c, v) == 1 by {
        let u = col_seq(b, c);
        assert forall|w: int| 1 <= w <= n implies #[trigger] row_count(u, w, n) <= 1 by {
            lemma_row_count_nonneg(u, w, n);
            if row_count(u, w, n) >= 1 {
                let r = lemma_row_count_witness(u, w, n);
                assert(b.cells[r][c] == Some(w));
                assert(b.count_in_col(c, w) == 1);
                lemma_col_count_is_row_count(b, c, w, n);
            }
        }
        assert(forall|r: int| 0 <= r < n ==> (#[trigger] u[r]) is Some && 1 <= u[r]->0 <= n);
        lemma_row_pigeonhole(u, n);
        lemma_col_count_is_row_count(b, c, v, n);
    }
    // Sections.
    let sh = b.sec_height;
    let sw = b.sec_width;
    assert forall|v: int, si: int, sj: int|
        1 <= v <= n && 0 <= si < sw && 0 <= sj < sh implies #[trigger] b.count_in_sec(
        si * sh,
        sj * sw,
        v,
    ) == 1 by {
        lemma_box_all_counts_one(b, si, sj, v);
    }
}

/// Within the section whose origin is `(si * sec_height, sj * sec_width)`,
/// a full, consistent board holds value `v` exactly once.
proof fn lemma_box_all_counts_one(b: Board, si: int, sj: int, v: int)
    requires
        b.wf(),
        b.consistent(),
        b.full(),
        0 <= si < b.sec_width,
        0 <= sj < b.sec_height,
        1 <= v <= b.size,
    ensures
        b.count_in_sec(si * b.sec_height, sj * b.sec_width, v) == 1,
{
    let n = b.size;
    let sh = b.sec_height;
    let sw = b.sec_width;
    let r0 = si * sh;
    let c0 = sj * sw;
    lemma_box_origin_facts(b, si, sj);
    let u = box_seq(b, r0, c0);
    assert(u.len() == sh * sw == n);
    // Every cell of the section is in bounds, filled and in range.
    assert forall|k: int| 0 <= k < n implies (#[trigger] u[k]) is Some && 1 <= u[k]->0 <= n by {
        lemma_box_cell_coords(b, si, sj, k);
    }
    // Each value occurs at most once in the section.
    assert forall|w: int| 1 <= w <= n implies #[trigger] row_count(u, w, n) <= 1 by {
        lemma_row_count_nonneg(u, w, n);
        if row_count(u, w, n) >= 1 {
            let k = lemma_row_count_witness(u, w, n);
            lemma_box_cell_coords(b, si, sj, k);
            let wr = r0 + k / sw;
            let wc = c0 + k % sw;
            assert(b.cells[wr][wc] == Some(w));
            assert(b.count_in_sec(wr, wc, w) == 1);
            lemma_div_block(wr, sh, si);
            lemma_div_block(wc, sw, sj);
            assert((si + 1) * sh == si * sh + sh) by (nonlinear_arith);
            assert((sj + 1) * sw == sj * sw + sw) by (nonlinear_arith);
            assert(b.row_origin(wr) == r0 && b.col_origin(wc) == c0);
            lemma_box_count_is_row_count(b, r0, c0, w, sh);
        }
    }
    lemma_row_pigeonhole(u, n);
    lemma_box_count_is_row_count(b, r0, c0, v, sh);
    vstd::arithmetic::div_mod::lemma_div_by_multiple(si, sh);
    vstd::arithmetic::div_mod::lemma_div_by_multiple(sj, sw);
    assert(b.row_origin(r0) == r0 && b.col_origin(c0) == c0) by {
        assert((si * sh) / sh == si && (sj * sw) / sw == sj);
    }
}

/// The origin `(si * sec_height, sj * sec_width)` of a section lies in
/// bounds, with the whole section inside the grid.
proof fn lemma_box_origin_facts(b: Board, si: int, sj: int)
    requires
        b.wf(),
        0 <= si < b.sec_width,
        0 <= sj < b.sec_height,
    ensures
        0 <= si * b.sec_height,
        (si + 1) * b.sec_height <= b.size,
        0 <= sj * b.sec_width,
        (sj + 1) * b.sec_width <= b.size,
        b.sec_height * b.sec_width == b.size,
{
    let sh = b.sec_height;
    let sw = b.sec_width;
    assert(0 <= si * sh && (si + 1) * sh <= sw * sh && 0 <= sj * sw && (sj + 1) * sw <= sh * sw
        && sh * sw == sw * sh) by (nonlinear_arith)
        requires
            0 <= si < sw,
            0 <= sj < sh,
            sh >= 1,
            sw >= 1,
    ;
}

/// Coordinates of the `k`-th cell (row-major) of the section with origin
/// `(si * sec_height, sj * sec_width)`: they are in bounds, and on a full
/// well-formed board the cell is filled with an in-range value.
proof fn lemma_box_cell_coords(b: Board, si: int, sj: int, k: int)
    requires
        b.wf(),
        0 <= si < b.sec_width,
        0 <= sj < b.sec_height,
        0 <= k < b.size,
    ensures
        si * b.sec_height <= si * b.sec_height + k / b.sec_width < (si + 1) * b.sec_height,
        sj * b.sec_width <= sj * b.sec_width + k % b.sec_width < (sj + 1) * b.sec_width,
        0 <= si * b.sec_height + k / b.sec_width < b.size,
        0 <= sj * b.sec_width + k % b.sec_width < b.size,
        box_seq(b, si * b.sec_height, sj * b.sec_width)[k] == b.cells[si * b.sec_height + k
            / b.sec_width][sj * b.sec_width + k % b.sec_width],
        b.full() ==> (box_seq(b, si * b.sec_height, sj * b.sec_width)[k] is Some && 1 <= box_seq(
            b,
            si * b.sec_height,
            sj * b.sec_width,
        )[k]->0 <= b.size),
{
    let sh = b.sec_height;
    let sw = b.sec_width;
    lemma_box_origin_facts(b, si, sj);
    vstd::arithmetic::div_mod::lemma_mod_bound(k, sw);
    vstd::arithmetic::div_mod::lemma_fundamental_div_mod(k, sw);
    assert(0 <= k / sw < sh) by (nonlinear_arith)
        requires
            0 <= k < sh * sw,
            sw >= 1,
            sh >= 1,
            k == sw * (k / sw) + k % sw,
            0 <= k % sw < sw,
    ;
    assert((si + 1) * sh == si * sh + sh) by (nonlinear_arith);
    assert((sj + 1) * sw == sj * sw + sw) by (nonlinear_arith);
}

/// A solved board has no empty cell: if one were empty, its row would hold
/// at most `size - 1` values, while `size` exact single occurrences demand
/// `size` filled cells.
pub proof fn lemma_solved_full(b: Board)
    requires
        b.wf(),
        b.solved(),
    ensures
        b.full(),
{
    let n = b.size;
    assert forall|r: int, c: int|
        0 <= r < n && 0 <= c < n implies (#[trigger] b.cells[r][c]) is Some by {
        if !(b.cells[r][c] is Some) {
            let row = b.cells[r];
            assert forall|v: int| 1 <= v <= n implies #[trigger] row_count(row, v, n) == 1 by {
                assert(b.count_in_row(r, v) == 1);
            }
            lemma_row_count_sum_ones(row, n, n);
            lemma_row_count_sum_is_filled(row, n, n);
            lemma_row_filled_missing(row, n, n, c);
        }
    }
}

/// On a solved board, the section observed from any in-bounds cell holds
/// each value exactly once.
pub proof fn lemma_solved_count_in_sec_one(s: Board, r: int, c: int, v: int)
    requires
        s.wf(),
        s.solved(),
        0 <= r < s.size,
        0 <= c < s.size,
        1 <= v <= s.size,
    ensures
        s.count_in_sec(r, c, v) == 1,
{
    let sh = s.sec_height;
    let sw = s.sec_width;
    let si = r / sh;
    let sj = c / sw;
    vstd::arithmetic::div_mod::lemma_div_pos_is_pos(r, sh);
    vstd::arithmetic::div_mod::lemma_div_pos_is_pos(c, sw);
    lemma_round_down_in_range(r, sh, sw);
    lemma_round_down_in_range(c, sw, sh);
    assert(si < sw) by {
        if si >= sw {
            vstd::arithmetic::mul::lemma_mul_inequality(sw, si, sh);
            assert(sw * sh <= si * sh);
            assert(sw * sh == sh * sw) by (nonlinear_arith);
        }
    }
    assert(sj < sh) by {
        if sj >= sh {
            vstd::arithmetic::mul::lemma_mul_inequality(sh, sj, sw);
            assert(sh * sw <= sj * sw);
            assert(sh * sw == sw * sh) by (nonlinear_arith);
        }
    }
    assert(s.count_in_sec(si * sh, sj * sw, v) == 1);
    vstd::arithmetic::div_mod::lemma_div_by_multiple(si, sh);
    vstd::arithmetic::div_mod::lemma_div_by_multiple(sj, sw);
    assert(s.row_origin(si * sh) == si * sh && s.col_origin(sj * sw) == sj * sw);
}

/// Soundness of the search: whatever board it returns is well-formed,
/// keeps the geometry, preserves every given, and is completely filled;
/// and if the starting board was consistent, the result is solved.
pub proof fn lemma_search_sound(b: Board)
    requires
        b.wf(),
    ensures
        match b.search() {
            Some(s) => {
                &&& s.wf()
                &&& b.same_shape(s)
                &&& b.extends(s)
                &&& s.full()
                &&& b.consistent() ==> s.consistent() && s.solved()
            },
            None => true,
        },
    decreases b.num_empty(), 1int, 0int,
{
    lemma_num_empty_nonneg(b);
    lemma_first_empty_from_spec(b, 0, 0);
    match b.first_empty() {
        None => {
            assert(b.extends(b));
            if b.consistent() {
                lemma_full_consistent_solved(b);
            }
        },
        Some(rc) => {
            lemma_try_values_sound(b, rc.0, rc.1, 1);
        },
    }
}

/// Soundness of the candidate loop at one empty cell; see
/// [`lemma_search_sound`].
pub proof fn lemma_try_values_sound(b: Board, r: int, c: int, v: int)
    requires
        b.wf(),
        0 <= r < b.size,
        0 <= c < b.size,
        b.cells[r][c] is None,
        1 <= v,
    ensures
        match b.try_values(r, c, v) {
            Some(s) => {
                &&& s.wf()
                &&& b.same_shape(s)
                &&& b.extends(s)
                &&& s.full()
                &&& b.consistent() ==> s.consistent() && s.solved()
            },
            None => true,
        },
    decreases b.num_empty(), 0int, b.size + 1 - v,
{
    lemma_num_empty_nonneg(b);
    if v > b.size {
    } else if b.can_place(v, r, c) {
        let p = b.place(r, c, Some(v));
        lemma_place_preserves_wf(b, r, c, Some(v));
        lemma_place_num_empty(b, r, c, v);
        lemma_num_empty_nonneg(p);
        lemma_search_sound(p);
        match p.search() {
            Some(s) => {
                lemma_place_extends(b, r, c, v);
                lemma_extends_transitive(b, p, s);
                if b.consistent() {
                    lemma_place_preserves_consistent(b, r, c, v);
                }
            },
            None => {
                lemma_try_values_sound(b, r, c, v + 1);
            },
        }
    } else {
        lemma_try_values_sound(b, r, c, v + 1);
    }
}

/// Completeness of the search: if some solved board extends the current
/// one, the search finds a solution (not necessarily that one).
pub proof fn lemma_search_complete(b: Board, s: Board)
    requires
        b.wf(),
        s.wf(),
        s.solved(),
        b.extends(s),
    ensures
        b.search() is Some,
    decreases b.num_empty(), 1int, 0int,
{
    lemma_num_empty_nonneg(b);
    lemma_first_empty_from_spec(b, 0, 0);
    match b.first_empty() {
        None => {},
        Some(rc) => {
            let r = rc.0;
            let c = rc.1;
            lemma_solved_full(s);
            lemma_extension_candidate_placeable(b, s, r, c);
            lemma_try_values_complete(b, s, r, c, 1);
        },
    }
}

/// The value a solved extension assigns to an empty cell is legally
/// placeable there: any occurrence of it in the cell's row, column, or
/// section would give the extension a duplicate.
proof fn lemma_extension_candidate_placeable(b: Board, s: Board, r: int, c: int)
    requires
        b.wf(),
        s.wf(),
        s.solved(),
        b.extends(s),
        0 <= r < b.size,
        0 <= c < b.size,
        b.cells[r][c] is None,
    ensures
        s.cells[r][c] is Some,
        1 <= s.cells[r][c]->0 <= b.size,
        b.can_place(s.cells[r][c]->0, r, c),
{
    let n = b.size;
    lemma_solved_full(s);
    let w = s.cells[r][c]->0;
    assert(b.count_in_row(r, w) == 0) by {
        lemma_row_count_nonneg(b.cells[r], w, n);
        if b.count_in_row(r, w) >= 1 {
            let c2 = lemma_row_count_witness(b.cells[r], w, n);
            assert(s.cells[r][c2] == Some(w));
            lemma_row_count_ge2(s.cells[r], w, n, c2, c);
            assert(s.count_in_row(r, w) == 1);
        }
    }
    assert(b.count_in_col(c, w) == 0) by {
        lemma_col_count_nonneg(b, c, w, n);
        if b.col_count(c, w, n) >= 1 {
            let r2 = lemma_col_count_witness(b, c, w, n);
            assert(s.cells[r2][c] == Some(w));
            lemma_col_count_ge2(s, c, w, n, r2, r);
            assert(s.count_in_col(c, w) == 1);
        }
    }
    assert(b.count_in_sec(r, c, w) == 0) by {
        let r0 = b.row_origin(r);
        let c0 = b.col_origin(c);
        lemma_section_origin_bounds(b, r, c);
        lemma_box_count_nonneg(b, r0, c0, w, b.sec_height);
        if b.box_count(r0, c0, w, b.sec_height) >= 1 {
            let rc2 = lemma_box_count_witness(b, r0, c0, w, b.sec_height);
            assert(s.cells[rc2.0][rc2.1] == Some(w));
            lemma_same_band(r, r, b.sec_height);
            lemma_same_band(c, c, b.sec_width);
            assert(r0 <= r < r0 + b.sec_height && c0 <= c < c0 + b.sec_width);
            lemma_box_count_ge2(s, r0, c0, w, s.sec_height, rc2.0, rc2.1, r, c);
            lemma_solved_count_in_sec_one(s, r, c, w);
        }
    }
}

/// Completeness of the candidate loop: if a solved extension assigns a
/// still-untried value to the cell, some candidate from `v` upward
/// succeeds.
proof fn lemma_try_values_complete(b: Board, s: Board, r: int, c: int, v: int)
    requires
        b.wf(),
        s.wf(),
        s.solved(),
        b.extends(s),
        0 <= r < b.size,
        0 <= c < b.size,
        b.cells[r][c] is None,
        s.cells[r][c] is Some,
        1 <= v <= s.cells[r][c]->0,
        s.cells[r][c]->0 <= b.size,
        b.can_place(s.cells[r][c]->0, r, c),
    ensures
        b.try_values(r, c, v) is Some,
    decreases b.num_empty(), 0int, b.size + 1 - v,
{
    lemma_num_empty_nonneg(b);
    let w = s.cells[r][c]->0;
    if b.can_place(v, r, c) {
        let p = b.place(r, c, Some(v));
        lemma_place_preserves_wf(b, r, c, Some(v));
        lemma_place_num_empty(b, r, c, v);
        lemma_num_empty_nonneg(p);
        if p.search() is Some {
        } else {
            if v == w {
                // The extension also extends the placed board, so the
                // recursive search must have succeeded.
                assert(p.extends(s));
                lemma_search_complete(p, s);
                assert(false);
            } else {
                lemma_try_values_complete(b, s, r, c, v + 1);
            }
        }
    } else {
        // `v` cannot be the extension's value, which is placeable.
        assert(v != w);
        lemma_try_values_complete(b, s, r, c, v + 1);
    }
}

/// A well-formed board has a positive side length.
pub proof fn lemma_wf_size_pos(b: Board)
    requires
        b.wf(),
    ensures
        b.size >= 1,
{
    assert(b.sec_width * b.sec_height >= 1) by (nonlinear_arith)
        requires
            b.sec_width >= 1,
            b.sec_height >= 1,
    ;
}

/// A `None` count over a prefix is never negative.
pub proof fn lemma_row_empties_nonneg(row: Seq<Option<int>>, n: int)
    ensures
        row_empties(row, n) >= 0,
    decreases n,
{
    if n > 0 {
        lemma_row_empties_nonneg(row, n - 1);
    }
}

/// The board-level `None` count is never negative.
pub proof fn lemma_empties_upto_nonneg(b: Board, n: int)
    ensures
        b.empties_upto(n) >= 0,
    decreases n,
{
    if n > 0 {
        lemma_empties_upto_nonneg(b, n - 1);
        lemma_row_empties_nonneg(b.cells[n - 1], b.size);
    }
}

/// The number of empty cells is never negative.
pub proof fn lemma_num_empty_nonneg(b: Board)
    ensures
        b.num_empty() >= 0,
{
    lemma_empties_upto_nonneg(b, b.size);
}

/// Updating one cell of a row changes its `None` count by the difference of
/// the indicators at that cell.
pub proof fn lemma_row_empties_update(row: Seq<Option<int>>, c: int, x: Option<int>, n: int)
    requires
        0 <= c < row.len(),
        n <= row.len(),
    ensures
        row_empties(row.update(c, x), n) == row_empties(row, n) + if c < n {
            (if x is None {
                1int
            } else {
                0int
            }) - (if row[c] is None {
                1int
            } else {
                0int
            })
        } else {
            0int
        },
    decreases n,
{
    if n > 0 {
        lemma_row_empties_update(row, c, x, n - 1);
    }
}

/// Overwriting one cell changes the board's `None` count within the first
/// `n` rows by the difference of the indicators at that cell.
pub proof fn lemma_place_empties_upto(b: Board, r: int, c: int, x: Option<int>, n: int)
    requires
        b.wf(),
        0 <= r < b.size,
        0 <= c < b.size,
        n <= b.size,
    ensures
        b.place(r, c, x).empties_upto(n) == b.empties_upto(n) + if r < n {
            (if x is None {
                1int
            } else {
                0int
            }) - (if b.cells[r][c] is None {
                1int
            } else {
                0int
            })
        } else {
            0int
        },
    decreases n,
{
    if n > 0 {
        lemma_place_empties_upto(b, r, c, x, n - 1);
        if n - 1 == r {
            lemma_row_empties_update(b.cells[r], c, x, b.size);
        }
    }
}

/// Filling an empty cell decreases the number of empty cells by one.
pub proof fn lemma_place_num_empty(b: Board, r: int, c: int, v: int)
    requires
        b.wf(),
        0 <= r < b.size,
        0 <= c < b.size,
        b.cells[r][c] is None,
    ensures
        b.place(r, c, Some(v)).num_empty() == b.num_empty() - 1,
{
    lemma_place_empties_upto(b, r, c, Some(v), b.size);
}

/// Full characterization of `first_empty_from`: when it yields a cell, that
/// cell is in bounds, empty, and every cell strictly between the starting
/// point and it (in row-major order) is filled; when it yields nothing,
/// every cell at or after the starting point is filled.
pub proof fn lemma_first_empty_from_spec(b: Board, r: int, c: int)
    requires
        b.wf(),
        0 <= r,
        0 <= c <= b.size,
    ensures
        match b.first_empty_from(r, c) {
            Some(rc) => {
                &&& 0 <= rc.0 < b.size
                &&& 0 <= rc.1 < b.size
                &&& b.cells[rc.0][rc.1] is None
                &&& r <= rc.0
                &&& rc.0 == r ==> c <= rc.1
                &&& forall|ar: int, ac: int|
                    0 <= ar < b.size && 0 <= ac < b.size && (ar > r || (ar == r && ac >= c)) && (ar
                        < rc.0 || (ar == rc.0 && ac < rc.1)) ==> (#[trigger] b.cells[ar][ac])
                        is Some
            },
            None => forall|ar: int, ac: int|
                0 <= ar < b.size && 0 <= ac < b.size && (ar > r || (ar == r && ac >= c))
                    ==> (#[trigger] b.cells[ar][ac]) is Some,
        },
    decreases b.size - r, b.size - c,
{
    if r >= b.size {
    } else if c >= b.size {
        lemma_first_empty_from_spec(b, r + 1, 0);
    } else if b.cells[r][c] is None {
    } else {
        lemma_first_empty_from_spec(b, r, c + 1);
    }
}

} // verus!
