//! The two generation engines: a sequential one that walks every flat index,
//! and a data-parallel one that splits the index range into contiguous chunks,
//! hands each chunk to a worker against a read-only view of the old board, and
//! concatenates the chunk results in ascending order. Both produce the same
//! board, which the lemmas at the bottom state.

use vstd::arithmetic::div_mod::{
    lemma_fundamental_div_mod,
    lemma_mod_division_less_than_divisor,
};
use vstd::arithmetic::mul::lemma_mul_inequality;
use vstd::prelude::*;

use rayon::iter::{IndexedParallelIterator, IntoParallelRefIterator, ParallelIterator};

use crate::board::Board;

verus! {

/// The cell buffer of the next generation: the transition rule applied at
/// every flat index of `b`.
pub open spec fn next_cells(b: Board) -> Seq<bool> {
    Seq::new(b.total() as nat, |i: int| b.spec_successor_at(i))
}

/// What both engines promise: `r` has `b`'s dimensions and carries the
/// transition rule's output for every cell of `b`.
pub open spec fn next_result(b: Board, r: Board) -> bool {
    &&& r.rows == b.rows
    &&& r.cols == b.cols
    &&& r.cells@ == next_cells(b)
}

/// The rule's output over one contiguous chunk of flat indices.
pub open spec fn chunk_seq(b: Board, start: int, len: int) -> Seq<bool> {
    Seq::new(len as nat, |j: int| b.spec_successor_at(start + j))
}

/// A grid with at least one cell has at least one column (and one row).
proof fn positive_total_positive_dims(b: Board)
    by (nonlinear_arith)
    requires
        b.total() > 0,
    ensures
        b.cols > 0,
        b.rows > 0,
{
}

impl Board {
    /// The next generation, computed sequentially: the transition rule at
    /// every flat index in row-major order, against the unmodified input.
    pub fn next_generation(&self) -> (r: Board)
        requires
            self.wf(),
        ensures
            r.wf(),
            next_result(*self, r),
    {
        let total = self.len();
        let mut cells: Vec<bool> = Vec::new();
        if total > 0 {
            proof {
                positive_total_positive_dims(*self);
            }
            let mut i: usize = 0;
            while i < total
                invariant
                    self.wf(),
                    self.cols > 0,
                    total == self.total(),
                    i <= total,
                    cells@.len() == i,
                    forall|k: int| 0 <= k < i ==> cells@[k] == self.spec_successor_at(k),
                decreases total - i,
            {
                cells.push(self.successor_cell(i));
                i = i + 1;
            }
        }
        proof {
            assert(cells@ =~= next_cells(*self));
        }
        Board { cells, rows: self.rows, cols: self.cols }
    }

    /// The rule's output for the chunk of flat indices
    /// `[start, start + len)`, in order: one worker's share of a parallel
    /// step.
    pub fn chunk_successors(&self, start: usize, len: usize) -> (r: Vec<bool>)
        requires
            self.wf(),
            self.cols > 0,
            start + len <= self.total(),
        ensures
            r@ == chunk_seq(*self, start as int, len as int),
    {
        let n = self.cells.len();
        let mut r: Vec<bool> = Vec::new();
        let mut j: usize = 0;
        while j < len
            invariant
                self.wf(),
                self.cols > 0,
                n == self.total(),
                start + len <= n,
                j <= len,
                r@.len() == j,
                forall|k: int| 0 <= k < j ==> r@[k] == self.spec_successor_at(start + k),
            decreases len - j,
        {
            r.push(self.successor_cell(start + j));
            j = j + 1;
        }
        proof {
            assert(r@ =~= chunk_seq(*self, start as int, len as int));
        }
        r
    }

    /// The next generation, computed by fork-join: the flat index range is
    /// split into `max(1, min(hint, total))` contiguous chunks of size
    /// `total / workers`, the remainder folded into the final chunk; each
    /// chunk is evaluated against the shared old board, and the results are
    /// concatenated in ascending chunk order. The result equals what
    /// `next_generation` returns, whatever the hint.
    pub fn parallel_next_generation(&self, hint: usize) -> (r: Board)
        requires
            self.wf(),
        ensures
            r.wf(),
            next_result(*self, r),
    {
        let total = self.len();
        if total == 0 {
            let cells: Vec<bool> = Vec::new();
            proof {
                assert(cells@ =~= next_cells(*self));
            }
            return Board { cells, rows: self.rows, cols: self.cols };
        }
        proof {
            positive_total_positive_dims(*self);
        }
        let workers = if hint == 0 {
            1
        } else if hint < total {
            hint
        } else {
            total
        };
        let chunk = total / workers;
        proof {
            lemma_fundamental_div_mod(total as int, workers as int);
            lemma_mod_division_less_than_divisor(total as int, workers as int);
            if chunk == 0 {
                assert(workers as int * (total as int / workers as int) == 0)
                    by (nonlinear_arith)
                    requires
                        total as int / workers as int == 0,
                ;
            }
            assert(chunk >= 1);
        }
        let mut ranges: Vec<(usize, usize)> = Vec::new();
        let mut w: usize = 0;
        while w < workers
            invariant
                1 <= workers <= total,
                chunk == total as int / workers as int,
                1 <= chunk,
                workers as int * chunk as int <= total,
                w <= workers,
                ranges@.len() == w,
                forall|k: int|
                    0 <= k < w ==> (#[trigger] ranges@[k]).0 == k * chunk as int,
                forall|k: int|
                    0 <= k < w ==> (#[trigger] ranges@[k]).1 == if k == workers - 1 {
                        total - (workers - 1) * chunk as int
                    } else {
                        chunk as int
                    },
            decreases workers - w,
        {
            proof {
                lemma_mul_inequality(w as int, workers as int - 1, chunk as int);
                lemma_mul_inequality(w as int + 1, workers as int, chunk as int);
                assert((w as int + 1) * chunk as int == w as int * chunk as int + chunk as int)
                    by (nonlinear_arith);
                assert((workers as int - 1) * chunk as int + chunk as int == workers as int
                    * chunk as int) by (nonlinear_arith);
            }
            let start = w * chunk;
            let len = if w + 1 == workers {
                total - start
            } else {
                chunk
            };
            ranges.push((start, len));
            w = w + 1;
        }
        proof {
            assert forall|k: int|
                0 <= k < ranges@.len() implies (#[trigger] ranges@[k]).0 + ranges@[k].1
                <= self.total() by {
                lemma_mul_inequality(k + 1, workers as int, chunk as int);
                assert((k + 1) * chunk as int == k * chunk as int + chunk as int)
                    by (nonlinear_arith);
            }
        }
        let parts = par_map_chunks(self, &ranges);
        let mut cells: Vec<bool> = Vec::new();
        let mut p: usize = 0;
        while p < workers
            invariant
                self.wf(),
                self.cols > 0,
                total == self.total(),
                1 <= workers <= total,
                1 <= chunk,
                workers as int * chunk as int <= total,
                p <= workers,
                ranges@.len() == workers,
                parts@.len() == workers,
                forall|k: int|
                    0 <= k < workers ==> (#[trigger] ranges@[k]).0 == k * chunk as int,
                forall|k: int|
                    0 <= k < workers ==> (#[trigger] ranges@[k]).1 == if k == workers - 1 {
                        total - (workers - 1) * chunk as int
                    } else {
                        chunk as int
                    },
                forall|k: int|
                    0 <= k < workers ==> (#[trigger] parts@[k])@ == chunk_seq(
                        *self,
                        ranges@[k].0 as int,
                        ranges@[k].1 as int,
                    ),
                cells@.len() == if p < workers {
                    p * chunk as int
                } else {
                    total as int
                },
                forall|t: int| 0 <= t < cells@.len() ==> cells@[t] == self.spec_successor_at(t),
            decreases workers - p,
        {
            proof {
                lemma_mul_inequality(p as int, workers as int - 1, chunk as int);
                lemma_mul_inequality(p as int + 1, workers as int, chunk as int);
                assert((p as int + 1) * chunk as int == p as int * chunk as int + chunk as int)
                    by (nonlinear_arith);
                assert((workers as int - 1) * chunk as int + chunk as int == workers as int
                    * chunk as int) by (nonlinear_arith);
            }
            let part = &parts[p];
            let part_len = part.len();
            let start_len = cells.len();
            proof {
                assert(start_len == p as int * chunk as int);
                assert(part@ == chunk_seq(
                    *self,
                    ranges@[p as int].0 as int,
                    ranges@[p as int].1 as int,
                ));
            }
            let mut j: usize = 0;
            while j < part_len
                invariant
                    self.wf(),
                    self.cols > 0,
                    total == self.total(),
                    part_len == part@.len(),
                    part@ == chunk_seq(*self, start_len as int, part_len as int),
                    start_len + part_len <= total,
                    j <= part_len,
                    cells@.len() == start_len + j,
                    forall|t: int| 0 <= t < cells@.len() ==> cells@[t] == self.spec_successor_at(
                        t,
                    ),
                decreases part_len - j,
            {
                cells.push(part[j]);
                j = j + 1;
            }
            p = p + 1;
        }
        proof {
            assert(cells@ =~= next_cells(*self));
        }
        Board { cells, rows: self.rows, cols: self.cols }
    }
}

/// Relies on rayon: `par_iter()` over a `Vec` is an exact-length, indexed
/// parallel iterator, `map` keeps the indexing, and `collect_into_vec` writes
/// the closure's result for input `k` at output index `k`, blocking until
/// every worker is done. The closure only calls the verified
/// `chunk_successors` on the shared old board.
#[verifier::external_body]
fn par_map_chunks(b: &Board, ranges: &Vec<(usize, usize)>) -> (r: Vec<Vec<bool>>)
    requires
        b.wf(),
        b.cols > 0,
        forall|k: int|
            0 <= k < ranges@.len() ==> (#[trigger] ranges@[k]).0 + ranges@[k].1 <= b.total(),
    ensures
        r@.len() == ranges@.len(),
        forall|k: int|
            0 <= k < r@.len() ==> (#[trigger] r@[k])@ == chunk_seq(
                *b,
                ranges@[k].0 as int,
                ranges@[k].1 as int,
            ),
{
    let mut out: Vec<Vec<bool>> = Vec::new();
    ranges.par_iter().map(|range| b.chunk_successors(range.0, range.1)).collect_into_vec(
        &mut out,
    );
    out
}

/// The sequential engine is deterministic: any two boards that satisfy its
/// contract for the same input are equal.
pub proof fn lemma_next_generation_deterministic(b: Board, r1: Board, r2: Board)
    requires
        next_result(b, r1),
        next_result(b, r2),
    ensures
        r1.eq_model(r2),
{
}

/// The parallel engine agrees with the sequential one: a board satisfying the
/// parallel engine's contract equals one satisfying the sequential engine's
/// contract, for the same input and any concurrency hint.
pub proof fn lemma_parallel_matches_sequential(b: Board, r_seq: Board, r_par: Board)
    requires
        next_result(b, r_seq),
        next_result(b, r_par),
    ensures
        r_par.eq_model(r_seq),
{
}

} // verus!
