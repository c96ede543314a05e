//! The board: a rectangular grid of boolean cells stored row-major, together
//! with the boundary-aware rule evaluator (neighbor lookup and the transition
//! rule) and the single-cell editing operations.

use vstd::prelude::*;

verus! {

/// Why an operation on a board was refused.
#[derive(Clone, Copy, Debug, PartialEq, Eq, Structural)]
pub enum BoardError {
    /// A coordinate handed to a single-cell edit lies outside the grid.
    OutOfRange,
    /// Text handed to the codec has ragged lines or an unrecognized character.
    FormatError,
}

/// A generation of the automaton: `rows * cols` cells, row-major, where the
/// cell at `(x, y)` sits at index `y * cols + x`. `true` is alive.
pub struct Board {
    pub cells: Vec<bool>,
    pub rows: usize,
    pub cols: usize,
}

impl Board {
    /// The storage invariant: the buffer holds exactly one cell per grid slot.
    pub open spec fn wf(self) -> bool {
        self.cells@.len() == self.rows as int * self.cols as int
    }

    /// The number of cells in the grid.
    pub open spec fn total(self) -> int {
        self.rows as int * self.cols as int
    }

    /// What a cell holds, with the boundary convention: every coordinate
    /// outside `[0, cols) x [0, rows)` is dead, with no wrap-around.
    pub open spec fn spec_live(self, x: int, y: int) -> bool {
        0 <= x < self.cols && 0 <= y < self.rows && self.cells@[y * self.cols as int + x]
    }

    /// `spec_live` as a count, for summing over a neighborhood.
    pub open spec fn live_one(self, x: int, y: int) -> int {
        if self.spec_live(x, y) {
            1
        } else {
            0
        }
    }

    /// How many of the 8 Moore neighbors of `(x, y)` are alive; off-grid
    /// neighbors contribute nothing.
    pub open spec fn spec_neighbors(self, x: int, y: int) -> int {
        self.live_one(x - 1, y - 1) + self.live_one(x, y - 1) + self.live_one(x + 1, y - 1)
            + self.live_one(x - 1, y) + self.live_one(x + 1, y) + self.live_one(x - 1, y + 1)
            + self.live_one(x, y + 1) + self.live_one(x + 1, y + 1)
    }

    /// The transition rule: a live cell survives with 2 or 3 live neighbors; a
    /// dead cell is born with exactly 3; every other case is dead.
    pub open spec fn spec_successor(self, x: int, y: int) -> bool {
        if self.spec_live(x, y) {
            self.spec_neighbors(x, y) == 2 || self.spec_neighbors(x, y) == 3
        } else {
            self.spec_neighbors(x, y) == 3
        }
    }

    /// Two boards are equal when their dimensions and every cell agree.
    pub open spec fn eq_model(self, other: Board) -> bool {
        self.rows == other.rows && self.cols == other.cols && self.cells@ == other.cells@
    }

    /// A fresh all-dead board of the given dimensions.
    pub fn new(rows: usize, cols: usize) -> (r: Board)
        requires
            rows as int * cols as int <= usize::MAX,
        ensures
            r.wf(),
            r.rows == rows,
            r.cols == cols,
            forall|i: int| 0 <= i < r.cells@.len() ==> r.cells@[i] == false,
    {
        let total = rows * cols;
        let mut cells: Vec<bool> = Vec::new();
        let mut i: usize = 0;
        while i < total
            invariant
                i <= total,
                cells@.len() == i,
                forall|k: int| 0 <= k < i ==> cells@[k] == false,
            decreases total - i,
        {
            cells.push(false);
            i = i + 1;
        }
        Board { cells, rows, cols }
    }

    /// The number of cells.
    pub fn len(&self) -> (r: usize)
        requires
            self.wf(),
        ensures
            r == self.total(),
    {
        let n = self.cells.len();
        assert(self.rows as int * self.cols as int == n as int);
        self.rows * self.cols
    }

    /// Whether the cell at `(x, y)` is alive; any out-of-range coordinate
    /// reads as dead.
    pub fn cell_live(&self, x: usize, y: usize) -> (r: bool)
        requires
            self.wf(),
        ensures
            r == self.spec_live(x as int, y as int),
            x >= self.cols || y >= self.rows ==> r == false,
    {
        if x >= self.cols || y >= self.rows {
            false
        } else {
            let n = self.cells.len();
            proof {
                mul_in_bounds(y as int, x as int, self.rows as int, self.cols as int);
            }
            self.cells[y * self.cols + x]
        }
    }

    /// How many of the 8 Moore neighbors of `(x, y)` are alive. The count is
    /// always between 0 and 8; neighbors beyond any edge count as dead.
    pub fn living_neighbors(&self, x: usize, y: usize) -> (r: usize)
        requires
            self.wf(),
        ensures
            r == self.spec_neighbors(x as int, y as int),
            0 <= r <= 8,
    {
        let mut n: usize = 0;
        if x > 0 && y > 0 && self.cell_live(x - 1, y - 1) {
            n = n + 1;
        }
        if y > 0 && self.cell_live(x, y - 1) {
            n = n + 1;
        }
        if x < usize::MAX && y > 0 && self.cell_live(x + 1, y - 1) {
            n = n + 1;
        }
        if x > 0 && self.cell_live(x - 1, y) {
            n = n + 1;
        }
        if x < usize::MAX && self.cell_live(x + 1, y) {
            n = n + 1;
        }
        if x > 0 && y < usize::MAX && self.cell_live(x - 1, y + 1) {
            n = n + 1;
        }
        if y < usize::MAX && self.cell_live(x, y + 1) {
            n = n + 1;
        }
        if x < usize::MAX && y < usize::MAX && self.cell_live(x + 1, y + 1) {
            n = n + 1;
        }
        n
    }

    /// One step of the transition rule at `(x, y)`: alive in the next
    /// generation iff a live cell here has 2 or 3 live neighbors, or a dead
    /// cell here has exactly 3.
    pub fn successor(&self, x: usize, y: usize) -> (r: bool)
        requires
            self.wf(),
        ensures
            r == self.spec_successor(x as int, y as int),
    {
        let neighbors = self.living_neighbors(x, y);
        if self.cell_live(x, y) {
            neighbors == 2 || neighbors == 3
        } else {
            neighbors == 3
        }
    }

    /// The transition rule at flat index `cell`, recovering `(x, y)` as
    /// `(cell % cols, cell / cols)`.
    pub fn successor_cell(&self, cell: usize) -> (r: bool)
        requires
            self.wf(),
            self.cols > 0,
        ensures
            r == self.spec_successor_at(cell as int),
    {
        self.successor(cell % self.cols, cell / self.cols)
    }

    /// `spec_successor` at a flat row-major index.
    pub open spec fn spec_successor_at(self, cell: int) -> bool
        recommends
            self.cols > 0,
    {
        self.spec_successor(cell % self.cols as int, cell / self.cols as int)
    }

    /// What a single edit does: the buffer with the bit at `(x, y)` inverted.
    pub open spec fn toggle_result(self, x: int, y: int, r: Board) -> bool {
        &&& r.rows == self.rows
        &&& r.cols == self.cols
        &&& r.cells@ == self.cells@.update(
            y * self.cols as int + x,
            !self.cells@[y * self.cols as int + x],
        )
    }

    /// A copy of the board with the cell at `(x, y)` inverted and every other
    /// cell unchanged; refused when `(x, y)` lies outside the grid.
    pub fn toggle(&self, x: usize, y: usize) -> (r: Result<Board, BoardError>)
        requires
            self.wf(),
        ensures
            match r {
                Ok(b) => {
                    &&& x < self.cols
                    &&& y < self.rows
                    &&& b.wf()
                    &&& self.toggle_result(x as int, y as int, b)
                    &&& b.spec_live(x as int, y as int) == !self.spec_live(x as int, y as int)
                    &&& forall|i: int, j: int|
                        !(i == x && j == y) ==> b.spec_live(i, j) == self.spec_live(i, j)
                },
                Err(e) => e == BoardError::OutOfRange && (x >= self.cols || y >= self.rows),
            },
    {
        if x >= self.cols || y >= self.rows {
            return Err(BoardError::OutOfRange);
        }
        let n = self.cells.len();
        proof {
            mul_in_bounds(y as int, x as int, self.rows as int, self.cols as int);
        }
        let idx = y * self.cols + x;
        let mut cells = self.cells.clone();
        let flipped = !cells[idx];
        cells.set(idx, flipped);
        let b = Board { cells, rows: self.rows, cols: self.cols };
        proof {
            assert forall|i: int, j: int| !(i == x && j == y) implies b.spec_live(i, j)
                == self.spec_live(i, j) by {
                if 0 <= i < self.cols && 0 <= j < self.rows {
                    mul_in_bounds(j, i, self.rows as int, self.cols as int);
                    if j * self.cols as int + i == y * self.cols as int + x {
                        index_pair_unique(i, j, x as int, y as int, self.cols as int);
                    }
                }
            }
        }
        Ok(b)
    }

    /// A board of the same dimensions with every cell dead.
    pub fn clear(&self) -> (r: Board)
        requires
            self.wf(),
        ensures
            r.wf(),
            r.rows == self.rows,
            r.cols == self.cols,
            forall|i: int| 0 <= i < r.cells@.len() ==> r.cells@[i] == false,
            forall|x: int, y: int| !r.spec_live(x, y),
    {
        let n = self.cells.len();
        assert(self.rows as int * self.cols as int == n as int);
        let r = Board::new(self.rows, self.cols);
        proof {
            assert forall|x: int, y: int| !r.spec_live(x, y) by {
                if 0 <= x < r.cols && 0 <= y < r.rows {
                    mul_in_bounds(y, x, r.rows as int, r.cols as int);
                }
            }
        }
        r
    }

    /// Every cell as an `(x, y, alive)` triple, enumerated row-major: `y`
    /// outer, `x` inner.
    pub fn cells(&self) -> (r: Vec<(usize, usize, bool)>)
        requires
            self.wf(),
        ensures
            r@.len() == self.total(),
            forall|i: int|
                0 <= i < r@.len() ==> #[trigger] r@[i] == (
                    (i % self.cols as int) as usize,
                    (i / self.cols as int) as usize,
                    self.cells@[i],
                ),
    {
        let mut r: Vec<(usize, usize, bool)> = Vec::new();
        let mut y: usize = 0;
        while y < self.rows
            invariant
                self.wf(),
                y <= self.rows,
                r@.len() == y * self.cols as int,
                forall|i: int|
                    0 <= i < r@.len() ==> #[trigger] r@[i] == (
                        (i % self.cols as int) as usize,
                        (i / self.cols as int) as usize,
                        self.cells@[i],
                    ),
            decreases self.rows - y,
        {
            let mut x: usize = 0;
            while x < self.cols
                invariant
                    self.wf(),
                    y < self.rows,
                    x <= self.cols,
                    r@.len() == y * self.cols as int + x,
                    forall|i: int|
                        0 <= i < r@.len() ==> #[trigger] r@[i] == (
                            (i % self.cols as int) as usize,
                            (i / self.cols as int) as usize,
                            self.cells@[i],
                        ),
                decreases self.cols - x,
            {
                let n = self.cells.len();
                proof {
                    mul_in_bounds(y as int, x as int, self.rows as int, self.cols as int);
                }
                let idx = y * self.cols + x;
                let alive = self.cells[idx];
                r.push((x, y, alive));
                proof {
                    vstd::arithmetic::div_mod::lemma_fundamental_div_mod_converse(
                        idx as int,
                        self.cols as int,
                        y as int,
                        x as int,
                    );
                }
                x = x + 1;
            }
            proof {
                assert(y * self.cols as int + self.cols as int == (y + 1) * self.cols as int)
                    by (nonlinear_arith);
            }
            y = y + 1;
        }
        proof {
            assert(self.rows as int * self.cols as int == self.rows * self.cols as int);
        }
        r
    }

    /// Structural equality: same dimensions and the same value in every cell.
    pub fn equals(&self, other: &Board) -> (r: bool)
        ensures
            r == self.eq_model(*other),
    {
        if self.rows != other.rows || self.cols != other.cols {
            return false;
        }
        let n = self.cells.len();
        if n != other.cells.len() {
            return false;
        }
        let mut i: usize = 0;
        while i < n
            invariant
                n == self.cells@.len(),
                n == other.cells@.len(),
                i <= n,
                forall|k: int| 0 <= k < i ==> self.cells@[k] == other.cells@[k],
            decreases n - i,
        {
            if self.cells[i] != other.cells[i] {
                return false;
            }
            i = i + 1;
        }
        proof {
            assert(self.cells@ =~= other.cells@);
        }
        true
    }
}

impl PartialEq for Board {
    /// `==` on boards is structural equality.
    fn eq(&self, other: &Board) -> (r: bool) {
        self.equals(other)
    }
}

impl vstd::std_specs::cmp::PartialEqSpecImpl for Board {
    open spec fn obeys_eq_spec() -> bool {
        true
    }

    open spec fn eq_spec(&self, other: &Board) -> bool {
        self.eq_model(*other)
    }
}

/// Law: toggling the same cell twice restores the original board.
pub proof fn lemma_toggle_twice(b: Board, b1: Board, b2: Board, x: int, y: int)
    requires
        b.wf(),
        0 <= x < b.cols,
        0 <= y < b.rows,
        b.toggle_result(x, y, b1),
        b1.toggle_result(x, y, b2),
    ensures
        b2.eq_model(b),
{
    mul_in_bounds(y, x, b.rows as int, b.cols as int);
    assert(b2.cells@ =~= b.cells@);
}

/// Distinct in-range coordinate pairs occupy distinct row-major indices.
pub proof fn index_pair_unique(x1: int, y1: int, x2: int, y2: int, cols: int)
    by (nonlinear_arith)
    requires
        0 <= x1 < cols,
        0 <= x2 < cols,
        0 <= y1,
        0 <= y2,
        y1 * cols + x1 == y2 * cols + x2,
    ensures
        x1 == x2 && y1 == y2,
{
}

/// For `y < rows` and `x < cols`, the row-major index `y * cols + x` stays
/// inside a buffer of `rows * cols` entries.
pub proof fn mul_in_bounds(y: int, x: int, rows: int, cols: int)
    by (nonlinear_arith)
    requires
        0 <= y < rows,
        0 <= x < cols,
    ensures
        0 <= y * cols + x < rows * cols,
{
}

} // verus!
