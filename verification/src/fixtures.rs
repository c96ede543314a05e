//! Small fixture grids for exercising the library: the boards the test
//! suite evolves and inspects.

use vstd::prelude::*;

use crate::board::Board;

verus! {

/// The cells of fixture `n`, row-major: a glider fragment, a horizontal
/// blinker, and a vertical blinker, each on a 3-by-3 grid.
pub open spec fn fixture_cells(n: int) -> Seq<bool> {
    if n == 0 {
        seq![false, true, false, false, true, true, false, true, true]
    } else if n == 1 {
        seq![false, false, false, true, true, true, false, false, false]
    } else {
        seq![false, true, false, false, true, false, false, true, false]
    }
}

/// The `n`-th fixture board: 3 by 3, holding `fixture_cells(n)`.
pub fn testing_board(n: usize) -> (r: Board)
    requires
        n < 3,
    ensures
        r.wf(),
        r.rows == 3,
        r.cols == 3,
        r.cells@ == fixture_cells(n as int),
{
    let cells: Vec<bool> = if n == 0 {
        vec![false, true, false, false, true, true, false, true, true]
    } else if n == 1 {
        vec![false, false, false, true, true, true, false, false, false]
    } else {
        vec![false, true, false, false, true, false, false, true, false]
    };
    let b = Board { cells, rows: 3, cols: 3 };
    proof {
        assert(b.cells@ =~= fixture_cells(n as int));
        assert(b.rows == 3 && b.cols == 3);
        assert(b.rows as int * b.cols as int == 9);
        assert(b.wf());
    }
    b
}

} // verus!
