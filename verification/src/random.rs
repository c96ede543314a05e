//! The random initializer: a board of the same dimensions whose every cell is
//! drawn independently from a uniform source.

use vstd::prelude::*;

use crate::board::Board;

verus! {

/// Relies on rand::random::<bool>: one draw from the thread-local generator.
/// Nothing can be promised of a random value.
#[verifier::external_body]
fn random_cell() -> bool {
    rand::random::<bool>()
}

impl Board {
    /// A board of the same dimensions with every cell drawn at random, each
    /// alive or dead with equal probability. Only the dimensions are
    /// promised: the contents depend on the draw.
    pub fn random(&self) -> (r: Board)
        requires
            self.wf(),
        ensures
            r.wf(),
            r.rows == self.rows,
            r.cols == self.cols,
    {
        let total = self.len();
        let mut cells: Vec<bool> = Vec::new();
        let mut i: usize = 0;
        while i < total
            invariant
                i <= total,
                cells@.len() == i,
            decreases total - i,
        {
            cells.push(random_cell());
            i = i + 1;
        }
        Board { cells, rows: self.rows, cols: self.cols }
    }
}

} // verus!
