//! The text codec: a board is written as `rows` lines of `cols` marker
//! characters (`@` alive, `.` dead) joined by `\n` with no trailing
//! terminator, and read back from any text of that shape, with one optional
//! trailing terminator accepted. The two directions invert each other, which
//! the lemmas at the bottom state.
//!
//! Everything is phrased over flat text positions: in a grid of `cols`-wide
//! lines, position `p` lies in line `p / (cols + 1)` at column
//! `p % (cols + 1)`, and the columns equal to `cols` are the terminators.

use vstd::arithmetic::div_mod::{
    lemma_div_is_strictly_smaller,
    lemma_div_pos_is_pos,
    lemma_fundamental_div_mod,
    lemma_fundamental_div_mod_converse,
    lemma_mod_division_less_than_divisor,
    lemma_small_mod,
};
use vstd::arithmetic::mul::lemma_mul_inequality;
use vstd::prelude::*;
use vstd::string::StrSliceExecFns;
use vstd::string::StringExecFns;

use crate::board::Board;
use crate::board::BoardError;

verus! {

/// The character standing for one cell.
pub open spec fn cell_char(alive: bool) -> char {
    if alive {
        '@'
    } else {
        '.'
    }
}

/// Whether `c` is one of the two cell markers.
pub open spec fn is_marker(c: char) -> bool {
    c == '@' || c == '.'
}

/// The character of `b`'s text form at flat position `p`.
pub open spec fn text_char(b: Board, p: int) -> char {
    if p % (b.cols as int + 1) == b.cols as int {
        '\n'
    } else {
        cell_char(b.cells@[(p / (b.cols as int + 1)) * b.cols as int + p % (b.cols as int + 1)])
    }
}

/// What a well-shaped text looks like at position `i`, for a grid `cols`
/// columns wide: a terminator at the end of each line, a marker elsewhere.
pub open spec fn pattern_at(s: Seq<char>, cols: int, i: int) -> bool {
    if i % (cols + 1) == cols {
        s[i] == '\n'
    } else {
        is_marker(s[i])
    }
}

/// Whether `s` is the text of some `rows` by `cols` grid: the right length
/// (with or without a trailing terminator), well-shaped at every position,
/// and, when the trailing terminator is counted by the length, present.
pub open spec fn dims_ok(s: Seq<char>, rows: int, cols: int) -> bool {
    if s.len() == 0 {
        rows == 0 && cols == 0
    } else {
        &&& 1 <= rows
        &&& 0 <= cols
        &&& (s.len() == rows * (cols + 1) - 1 || s.len() == rows * (cols + 1))
        &&& forall|i: int| 0 <= i < rows * (cols + 1) - 1 ==> #[trigger] pattern_at(s, cols, i)
        &&& (s.len() == rows * (cols + 1) ==> s[s.len() - 1] == '\n')
    }
}

/// Whether `s` is valid input to the parser: the text of some grid.
pub open spec fn parseable(s: Seq<char>) -> bool {
    exists|rows: int, cols: int| dims_ok(s, rows, cols)
}

/// The flat text position of cell `t` in a grid `cols` columns wide.
pub open spec fn line_pos(t: int, cols: int) -> int {
    (t / cols) * (cols + 1) + t % cols
}

/// What the parser promises of a returned board: the input is shaped like
/// `b`'s grid, a trailing terminator is consumed exactly when the length
/// accounts for it, and each cell holds whether its marker is the live one.
pub open spec fn parse_result(s: Seq<char>, b: Board) -> bool {
    &&& b.wf()
    &&& dims_ok(s, b.rows as int, b.cols as int)
    &&& (s.len() > 0 ==> ((s[s.len() - 1] == '\n') <==> s.len() == b.rows as int * (
    b.cols as int + 1)))
    &&& b.cells@ == Seq::new(
        (b.rows as int * b.cols as int) as nat,
        |t: int| s[line_pos(t, b.cols as int)] == '@',
    )
}

/// Moving one position forward in a `stride`-wide layout either stays in the
/// same line or starts the next one.
proof fn lemma_step(i: int, stride: int)
    requires
        stride >= 1,
        i >= 0,
    ensures
        i % stride < stride - 1 ==> (i + 1) / stride == i / stride && (i + 1) % stride == i
            % stride + 1,
        i % stride == stride - 1 ==> (i + 1) / stride == i / stride + 1 && (i + 1) % stride
            == 0,
{
    lemma_fundamental_div_mod(i, stride);
    lemma_mod_division_less_than_divisor(i, stride);
    lemma_div_pos_is_pos(i, stride);
    if i % stride < stride - 1 {
        assert(i + 1 == (i / stride) * stride + (i % stride + 1)) by (nonlinear_arith)
            requires
                i == stride * (i / stride) + i % stride,
        ;
        lemma_fundamental_div_mod_converse(i + 1, stride, i / stride, i % stride + 1);
    } else {
        assert(i + 1 == (i / stride + 1) * stride + 0) by (nonlinear_arith)
            requires
                i == stride * (i / stride) + i % stride,
                i % stride == stride - 1,
        ;
        lemma_fundamental_div_mod_converse(i + 1, stride, i / stride + 1, 0);
    }
}

/// In a well-shaped text the width is forced: it is the index of the first
/// terminator, or the whole length when there is none.
proof fn lemma_dims_cols(s: Seq<char>, r: int, c: int, cols: int)
    requires
        s.len() >= 1,
        dims_ok(s, r, c),
        0 <= cols <= s.len(),
        forall|j: int| 0 <= j < cols ==> s[j] != '\n',
        cols < s.len() ==> s[cols] == '\n',
    ensures
        c == cols,
{
    let n = s.len() as int;
    lemma_mul_inequality(1, r, c + 1);
    assert(c + 1 <= r * (c + 1));
    if c < cols {
        if c < r * (c + 1) - 1 {
            assert(pattern_at(s, c, c));
            lemma_small_mod(c as nat, (c + 1) as nat);
            assert(false);
        } else {
            assert(r * (c + 1) == c + 1);
            if n == r * (c + 1) - 1 {
                assert(false);
            } else {
                assert(n == c + 1);
                assert(s[c] == '\n');
                assert(false);
            }
        }
    }
    if c > cols {
        assert(n >= r * (c + 1) - 1 >= c);
        assert(cols < n);
        assert(s[cols] == '\n');
        assert(pattern_at(s, c, cols));
        lemma_small_mod(cols as nat, (c + 1) as nat);
        assert(false);
    }
}

/// A text with a character other than the two markers and no terminator at
/// all is not valid input.
proof fn lemma_no_terminator_refused(s: Seq<char>, k: int)
    requires
        s.len() >= 1,
        0 <= k < s.len(),
        forall|j: int| 0 <= j < s.len() ==> s[j] != '\n',
        !is_marker(s[k]),
    ensures
        !parseable(s),
{
    let n = s.len() as int;
    if parseable(s) {
        let (r, c) = choose|r: int, c: int| dims_ok(s, r, c);
        lemma_dims_cols(s, r, c, n);
        lemma_mul_inequality(1, r, n + 1);
        if n == r * (n + 1) {
            assert(false);
        }
        assert(r * (n + 1) == n + 1);
        assert(pattern_at(s, n, k));
        lemma_small_mod(k as nat, (n + 1) as nat);
        assert(false);
    }
}

/// A text whose first character is a terminator describes a zero-width grid,
/// so all of it must be terminators; one that ends otherwise is not valid.
proof fn lemma_zero_width_refused(s: Seq<char>)
    requires
        s.len() >= 1,
        s[0] == '\n',
        s[s.len() - 1] != '\n',
    ensures
        !parseable(s),
{
    let n = s.len() as int;
    if parseable(s) {
        let (r, c) = choose|r: int, c: int| dims_ok(s, r, c);
        lemma_dims_cols(s, r, c, 0);
        if n == r * 1 - 1 {
            assert(pattern_at(s, 0, n - 1));
            lemma_small_mod(0nat, 1nat);
            assert((n - 1) % 1 == 0) by (nonlinear_arith);
            assert(false);
        } else {
            assert(n == r * 1);
            assert(s[n - 1] == '\n');
            assert(false);
        }
    }
}

/// A text whose length fits neither a terminated nor an unterminated stack
/// of lines of the observed width is not valid input.
proof fn lemma_length_refused(s: Seq<char>, cols: int)
    requires
        s.len() >= 1,
        0 <= cols < s.len(),
        forall|j: int| 0 <= j < cols ==> s[j] != '\n',
        s[cols] == '\n',
        s[s.len() - 1] == '\n' ==> (s.len() as int) % (cols + 1) != 0,
        s[s.len() - 1] != '\n' ==> (s.len() as int) % (cols + 1) != cols,
    ensures
        !parseable(s),
{
    let n = s.len() as int;
    if parseable(s) {
        let (r, c) = choose|r: int, c: int| dims_ok(s, r, c);
        lemma_dims_cols(s, r, c, cols);
        lemma_mul_inequality(1, r, c + 1);
        if n == r * (c + 1) {
            lemma_fundamental_div_mod_converse(n, c + 1, r, 0);
            assert(n == r * (c + 1) + 0) by (nonlinear_arith)
                requires
                    n == r * (c + 1),
            ;
            assert(n % (c + 1) == 0);
            assert(s[n - 1] == '\n');
            assert(false);
        } else {
            assert(n == r * (c + 1) - 1);
            assert(n == (r - 1) * (c + 1) + c) by (nonlinear_arith)
                requires
                    n == r * (c + 1) - 1,
            ;
            lemma_fundamental_div_mod_converse(n, c + 1, r - 1, c);
            assert(n % (c + 1) == c);
            if c >= 1 {
                assert(n - 1 == (r - 1) * (c + 1) + (c - 1)) by (nonlinear_arith)
                    requires
                        n == (r - 1) * (c + 1) + c,
                ;
                lemma_fundamental_div_mod_converse(n - 1, c + 1, r - 1, c - 1);
                assert(pattern_at(s, c, n - 1));
                assert(is_marker(s[n - 1]));
                assert(s[n - 1] != '\n');
                assert(false);
            } else {
                assert((n % 1) == 0) by (nonlinear_arith);
                assert(false);
            }
        }
    }
}

/// A text that breaks the line shape at some position, while the first
/// terminator and the length agree with some width, is not valid input.
proof fn lemma_shape_refused(s: Seq<char>, cols: int, k: int)
    requires
        s.len() >= 1,
        0 <= cols < s.len(),
        forall|j: int| 0 <= j < cols ==> s[j] != '\n',
        s[cols] == '\n',
        0 <= k < s.len(),
        !pattern_at(s, cols, k),
    ensures
        !parseable(s),
{
    let n = s.len() as int;
    if parseable(s) {
        let (r, c) = choose|r: int, c: int| dims_ok(s, r, c);
        lemma_dims_cols(s, r, c, cols);
        lemma_mul_inequality(1, r, c + 1);
        if n == r * (c + 1) - 1 {
            assert(pattern_at(s, c, k));
            assert(false);
        } else {
            assert(n == r * (c + 1));
            if k < n - 1 {
                assert(pattern_at(s, c, k));
                assert(false);
            } else {
                assert(n - 1 == (r - 1) * (c + 1) + c) by (nonlinear_arith)
                    requires
                        n == r * (c + 1),
                ;
                lemma_fundamental_div_mod_converse(n - 1, c + 1, r - 1, c);
                assert((n - 1) % (c + 1) == c);
                assert(s[n - 1] == '\n');
                assert(pattern_at(s, c, n - 1));
                assert(false);
            }
        }
    }
}

impl Board {
    /// The text form of the board: `rows` lines of `cols` markers joined by
    /// terminators, none trailing.
    pub open spec fn spec_text(self) -> Seq<char> {
        if self.rows == 0 {
            Seq::<char>::empty()
        } else {
            Seq::new(
                (self.rows as int * (self.cols as int + 1) - 1) as nat,
                |p: int| text_char(self, p),
            )
        }
    }

    /// The board rendered as text: one line per row, `@` for a live cell and
    /// `.` for a dead one, lines joined by `\n` with no trailing terminator.
    pub fn to_text(&self) -> (r: String)
        requires
            self.wf(),
        ensures
            r@ == self.spec_text(),
    {
        let mut out = String::new();
        proof {
            reveal_strlit("@");
            reveal_strlit(".");
            reveal_strlit("\n");
            assert("@"@ =~= seq!['@']);
            assert("."@ =~= seq!['.']);
            assert("\n"@ =~= seq!['\n']);
        }
        if self.rows == 0 {
            proof {
                assert(out@ =~= self.spec_text());
            }
            return out;
        }
        let n = self.cells.len();
        let mut y: usize = 0;
        while y < self.rows
            invariant
                self.wf(),
                self.rows >= 1,
                n == self.total(),
                y <= self.rows,
                out@ =~= self.spec_text().take(
                    if y < self.rows {
                        y as int * (self.cols as int + 1)
                    } else {
                        self.rows as int * (self.cols as int + 1) - 1
                    },
                ),
                "@"@ =~= seq!['@'],
                "."@ =~= seq!['.'],
                "\n"@ =~= seq!['\n'],
            decreases self.rows - y,
        {
            let ghost stride = self.cols as int + 1;
            proof {
                lemma_mul_inequality(y as int + 1, self.rows as int, stride);
                assert((y as int + 1) * stride == y as int * stride + stride)
                    by (nonlinear_arith);
            }
            let mut x: usize = 0;
            while x < self.cols
                invariant
                    self.wf(),
                    self.rows >= 1,
                    n == self.total(),
                    y < self.rows,
                    x <= self.cols,
                    (y as int + 1) * stride == y as int * stride + stride,
                    y as int * stride + stride <= self.rows as int * stride,
                    stride == self.cols as int + 1,
                    out@ =~= self.spec_text().take(y as int * stride + x),
                    "@"@ =~= seq!['@'],
                    "."@ =~= seq!['.'],
                    "\n"@ =~= seq!['\n'],
                decreases self.cols - x,
            {
                proof {
                    crate::board::mul_in_bounds(
                        y as int,
                        x as int,
                        self.rows as int,
                        self.cols as int,
                    );
                }
                let idx = y * self.cols + x;
                let ghost p = y as int * stride + x;
                proof {
                    lemma_fundamental_div_mod_converse(p, stride, y as int, x as int);
                    assert(self.rows as int * stride - 1 >= y as int * stride + stride - 1);
                    assert(text_char(*self, p) == cell_char(self.cells@[idx as int]));
                    assert(self.spec_text()[p] == text_char(*self, p));
                }
                if self.cells[idx] {
                    out.append("@");
                } else {
                    out.append(".");
                }
                proof {
                    assert(out@ =~= self.spec_text().take(p + 1));
                }
                x = x + 1;
            }
            if y + 1 < self.rows {
                let ghost p = y as int * stride + self.cols as int;
                proof {
                    lemma_fundamental_div_mod_converse(p, stride, y as int, self.cols as int);
                    lemma_mul_inequality(y as int + 2, self.rows as int, stride);
                    assert((y as int + 2) * stride == y as int * stride + 2 * stride)
                        by (nonlinear_arith);
                    assert(p < self.rows as int * stride - 1);
                    assert(self.spec_text()[p] == text_char(*self, p));
                    assert(text_char(*self, p) == '\n');
                }
                out.append("\n");
                proof {
                    assert(out@ =~= self.spec_text().take(
                        (y as int + 1) * stride,
                    ));
                }
            } else {
                proof {
                    assert(y as int == self.rows as int - 1);
                    assert(y as int * stride + self.cols as int == self.rows as int * stride
                        - 1) by (nonlinear_arith)
                        requires
                            y as int == self.rows as int - 1,
                            stride == self.cols as int + 1,
                    ;
                }
            }
            y = y + 1;
        }
        proof {
            lemma_mul_inequality(1, self.rows as int, self.cols as int + 1);
            assert(self.spec_text().len() == self.rows as int * (self.cols as int + 1) - 1);
            assert(out@ =~= self.spec_text().take(
                self.rows as int * (self.cols as int + 1) - 1,
            ));
            assert(out@ =~= self.spec_text());
        }
        out
    }

    /// A board read from its text form: `rows` is the number of lines,
    /// `cols` the common line length, cells taken row-major. One trailing
    /// terminator is accepted. Refused when lines are ragged or any
    /// character is neither marker — exactly when the text is the grid of
    /// no board at all.
    pub fn from_str(s: &str) -> (res: Result<Board, BoardError>)
        ensures
            match res {
                Ok(b) => parse_result(s@, b),
                Err(e) => e == BoardError::FormatError && !parseable(s@),
            },
    {
        let n = s.unicode_len();
        if n == 0 {
            let cells: Vec<bool> = Vec::new();
            let b = Board { cells, rows: 0, cols: 0 };
            proof {
                assert(b.cells@ =~= Seq::new(0nat, |t: int| s@[line_pos(t, 0)] == '@'));
            }
            return Ok(b);
        }
        let mut cols: usize = n;
        let mut i: usize = 0;
        while i < n
            invariant
                n == s@.len(),
                i <= n,
                cols <= n,
                cols == n || (cols < i && s@[cols as int] == '\n'),
                forall|j: int| 0 <= j < i && j < cols ==> s@[j] != '\n',
            decreases n - i,
        {
            if cols == n {
                let ch = s.get_char(i);
                if ch == '\n' {
                    cols = i;
                }
            }
            i = i + 1;
        }
        if cols == n {
            // a single unterminated line
            let mut cells: Vec<bool> = Vec::new();
            let mut k: usize = 0;
            while k < n
                invariant
                    n == s@.len(),
                    1 <= n,
                    k <= n,
                    cells@.len() == k,
                    forall|j: int| 0 <= j < n ==> s@[j] != '\n',
                    forall|t: int|
                        0 <= t < k ==> is_marker(#[trigger] s@[t]) && cells@[t] == (s@[t]
                            == '@'),
                decreases n - k,
            {
                let ch = s.get_char(k);
                if ch == '@' {
                    cells.push(true);
                } else if ch == '.' {
                    cells.push(false);
                } else {
                    proof {
                        lemma_no_terminator_refused(s@, k as int);
                    }
                    return Err(BoardError::FormatError);
                }
                k = k + 1;
            }
            let b = Board { cells, rows: 1, cols: n };
            proof {
                assert forall|p: int| 0 <= p < 1 * (n as int + 1) - 1 implies #[trigger]
                    pattern_at(s@, n as int, p) by {
                    lemma_small_mod(p as nat, (n + 1) as nat);
                }
                assert(dims_ok(s@, 1, n as int));
                assert(s@[n - 1] != '\n' && n as int != 1 * (n as int + 1));
                assert forall|t: int| 0 <= t < n implies b.cells@[t] == (s@[#[trigger] line_pos(
                    t,
                    n as int,
                )] == '@') by {
                    lemma_fundamental_div_mod_converse(t, n as int, 0, t);
                }
                assert(b.cells@ =~= Seq::new(
                    (1 * n as int) as nat,
                    |t: int| s@[line_pos(t, n as int)] == '@',
                ));
            }
            return Ok(b);
        }
        // cols < n: at least one terminator
        let stride = cols + 1;
        let ghost strd = cols as int + 1;
        let last_nl = s.get_char(n - 1) == '\n';
        let rows: usize;
        if last_nl {
            if n % stride != 0 {
                proof {
                    lemma_length_refused(s@, cols as int);
                }
                return Err(BoardError::FormatError);
            }
            rows = n / stride;
            proof {
                lemma_fundamental_div_mod(n as int, strd);
                assert(n as int == rows as int * strd + 0) by (nonlinear_arith)
                    requires
                        n as int == strd * (rows as int) + n as int % strd,
                        n as int % strd == 0,
                ;
                if rows == 0 {
                    assert(n as int == 0) by (nonlinear_arith)
                        requires
                            n as int == rows as int * strd,
                            rows == 0,
                    ;
                    assert(false);
                }
            }
        } else {
            if cols == 0 {
                proof {
                    lemma_zero_width_refused(s@);
                }
                return Err(BoardError::FormatError);
            }
            if n % stride != cols {
                proof {
                    lemma_length_refused(s@, cols as int);
                }
                return Err(BoardError::FormatError);
            }
            proof {
                lemma_div_is_strictly_smaller(n as int, strd);
                lemma_div_pos_is_pos(n as int, strd);
            }
            rows = n / stride + 1;
            proof {
                lemma_fundamental_div_mod(n as int, strd);
                assert(n as int == rows as int * strd - 1) by (nonlinear_arith)
                    requires
                        n as int == strd * (rows as int - 1) + n as int % strd,
                        n as int % strd == cols as int,
                        strd == cols as int + 1,
                ;
            }
        }
        let mut cells: Vec<bool> = Vec::new();
        let mut i: usize = 0;
        proof {
            lemma_small_mod(0nat, strd as nat);
            vstd::arithmetic::div_mod::lemma_div_of0(strd);
        }
        while i < n
            invariant
                n == s@.len(),
                1 <= n,
                cols < n,
                stride == cols + 1,
                strd == cols as int + 1,
                1 <= rows,
                last_nl == (s@[n - 1] == '\n'),
                last_nl ==> n as int == rows as int * strd,
                !last_nl ==> n as int == rows as int * strd - 1,
                forall|j: int| 0 <= j < cols ==> s@[j] != '\n',
                s@[cols as int] == '\n',
                i <= n,
                forall|j: int| 0 <= j < i ==> #[trigger] pattern_at(s@, cols as int, j),
                cells@.len() == (i as int / strd) * cols as int + (if i as int % strd
                    < cols as int {
                    i as int % strd
                } else {
                    cols as int
                }),
                forall|t: int|
                    0 <= t < cells@.len() ==> cells@[t] == (s@[#[trigger] line_pos(
                        t,
                        cols as int,
                    )] == '@'),
            decreases n - i,
        {
            let m = i % stride;
            let ch = s.get_char(i);
            proof {
                lemma_fundamental_div_mod(i as int, strd);
                lemma_mod_division_less_than_divisor(i as int, strd);
                lemma_div_pos_is_pos(i as int, strd);
                lemma_step(i as int, strd);
            }
            let ghost q = i as int / strd;
            if m == cols {
                if ch != '\n' {
                    proof {
                        assert(!pattern_at(s@, cols as int, i as int));
                        lemma_shape_refused(s@, cols as int, i as int);
                    }
                    return Err(BoardError::FormatError);
                }
                proof {
                    assert(pattern_at(s@, cols as int, i as int));
                    assert((q + 1) * cols as int == q * cols as int + cols as int)
                        by (nonlinear_arith);
                }
            } else {
                proof {
                    assert(m < cols) by {
                        lemma_mod_division_less_than_divisor(i as int, strd);
                    }
                }
                if ch == '@' {
                    cells.push(true);
                } else if ch == '.' {
                    cells.push(false);
                } else {
                    proof {
                        assert(!pattern_at(s@, cols as int, i as int));
                        lemma_shape_refused(s@, cols as int, i as int);
                    }
                    return Err(BoardError::FormatError);
                }
                proof {
                    assert(pattern_at(s@, cols as int, i as int));
                    let t = q * cols as int + m as int;
                    lemma_fundamental_div_mod_converse(t, cols as int, q, m as int);
                    assert(line_pos(t, cols as int) == i as int) by (nonlinear_arith)
                        requires
                            line_pos(t, cols as int) == (t / cols as int) * (cols as int + 1)
                                + t % cols as int,
                            t / cols as int == q,
                            t % cols as int == m as int,
                            i as int == strd * q + m as int,
                            strd == cols as int + 1,
                    ;
                    assert(cells@[t] == (s@[line_pos(t, cols as int)] == '@'));
                }
            }
            i = i + 1;
        }
        let b = Board { cells, rows, cols };
        proof {
            let nn = n as int;
            let cc = cols as int;
            let rr = rows as int;
            if last_nl {
                assert(nn == rr * strd);
                assert(nn == strd * rr + 0) by (nonlinear_arith)
                    requires
                        nn == rr * strd,
                ;
                lemma_fundamental_div_mod_converse(nn, strd, rr, 0);
                assert(cells@.len() == rr * cc) by (nonlinear_arith)
                    requires
                        cells@.len() == (nn / strd) * cc,
                        nn / strd == rr,
                ;
            } else {
                assert(nn == rr * strd - 1);
                assert(nn == strd * (rr - 1) + cc) by (nonlinear_arith)
                    requires
                        nn == rr * strd - 1,
                        strd == cc + 1,
                ;
                lemma_fundamental_div_mod_converse(nn, strd, rr - 1, cc);
                assert(cells@.len() == rr * cc) by (nonlinear_arith)
                    requires
                        cells@.len() == (rr - 1) * cc + cc,
                ;
            }
            assert(b.wf());
            assert forall|p: int| 0 <= p < rr * (cc + 1) - 1 implies #[trigger] pattern_at(
                s@,
                cc,
                p,
            ) by {}
            assert(dims_ok(s@, rr, cc));
            if nn == rr * (cc + 1) {
                assert(pattern_at(s@, cc, nn - 1));
                assert(nn - 1 == (rr - 1) * (cc + 1) + cc) by (nonlinear_arith)
                    requires
                        nn == rr * (cc + 1),
                ;
                lemma_fundamental_div_mod_converse(nn - 1, strd, rr - 1, cc);
                assert(s@[nn - 1] == '\n');
            }
            assert((s@[nn - 1] == '\n') <==> nn == rr * (cc + 1));
            assert(b.cells@ =~= Seq::new((rr * cc) as nat, |t: int| s@[line_pos(t, cc)] == '@'));
        }
        Ok(b)
    }
}

/// Law: the text of any board is valid input to the parser.
pub proof fn lemma_text_parseable(b: Board)
    requires
        b.wf(),
    ensures
        parseable(b.spec_text()),
{
    let s = b.spec_text();
    let rr = b.rows as int;
    let cc = b.cols as int;
    if s.len() == 0 {
        assert(dims_ok(s, 0, 0));
    } else {
        assert(rr >= 1);
        lemma_mul_inequality(1, rr, cc + 1);
        assert forall|p: int| 0 <= p < rr * (cc + 1) - 1 implies #[trigger] pattern_at(
            s,
            cc,
            p,
        ) by {
            assert(s[p] == text_char(b, p));
        }
        assert(dims_ok(s, rr, cc));
    }
}

/// Law: parsing the text of a board with at least one row and one column
/// yields that very board back.
pub proof fn lemma_parse_format_roundtrip(b: Board, r: Board)
    requires
        b.wf(),
        b.rows >= 1,
        b.cols >= 1,
        parse_result(b.spec_text(), r),
    ensures
        r.eq_model(b),
{
    let s = b.spec_text();
    let rr = b.rows as int;
    let cc = b.cols as int;
    let strd = cc + 1;
    lemma_mul_inequality(1, rr, strd);
    let n = s.len() as int;
    assert(n == rr * strd - 1);
    assert(n >= cc >= 1);
    // the first terminator of the text sits at column width
    assert forall|j: int| 0 <= j < cc implies s[j] != '\n' by {
        lemma_small_mod(j as nat, strd as nat);
        assert(s[j] == text_char(b, j));
    }
    if cc < n {
        lemma_small_mod(cc as nat, strd as nat);
        assert(s[cc] == text_char(b, cc));
        assert(s[cc] == '\n');
    }
    assert(r.rows as int >= 1);
    lemma_dims_cols(s, r.rows as int, r.cols as int, cc);
    assert(r.cols as int == cc);
    // the text carries no trailing terminator, which pins the row count
    assert(n - 1 == (rr - 1) * strd + (cc - 1)) by (nonlinear_arith)
        requires
            n == rr * strd - 1,
            strd == cc + 1,
    ;
    lemma_fundamental_div_mod_converse(n - 1, strd, rr - 1, cc - 1);
    assert(s[n - 1] == text_char(b, n - 1));
    assert(s[n - 1] != '\n');
    assert(n != r.rows as int * strd);
    assert(n == r.rows as int * strd - 1);
    assert(r.rows as int == rr) by (nonlinear_arith)
        requires
            r.rows as int * strd == rr * strd,
            strd >= 1,
    ;
    // cell for cell, the parsed buffer reads the text the format wrote
    assert forall|t: int| 0 <= t < rr * cc implies r.cells@[t] == b.cells@[t] by {
        lemma_fundamental_div_mod(t, cc);
        lemma_mod_division_less_than_divisor(t, cc);
        lemma_div_pos_is_pos(t, cc);
        let y = t / cc;
        let x = t % cc;
        assert(y < rr) by (nonlinear_arith)
            requires
                t == cc * y + x,
                0 <= x < cc,
                t < rr * cc,
                y >= 0,
        ;
        let p = line_pos(t, cc);
        assert(p == y * strd + x);
        lemma_fundamental_div_mod_converse(p, strd, y, x);
        assert(p <= (rr - 1) * strd + cc - 1) by (nonlinear_arith)
            requires
                p == y * strd + x,
                y <= rr - 1,
                x <= cc - 1,
                strd >= 1,
        ;
        assert((rr - 1) * strd + cc - 1 == n - 1) by (nonlinear_arith)
            requires
                n == rr * strd - 1,
                strd == cc + 1,
        ;
        assert(0 <= p < n);
        assert(s[p] == text_char(b, p));
        assert(text_char(b, p) == cell_char(b.cells@[y * cc + x]));
        assert(y * cc + x == t) by (nonlinear_arith)
            requires
                t == cc * y + x,
        ;
        assert(r.cells@[t] == (s[p] == '@'));
    }
    assert(r.cells@ =~= b.cells@);
}

/// Law: a valid text without a trailing terminator is reproduced exactly by
/// formatting the board it parses to.
pub proof fn lemma_format_parse_roundtrip(s: Seq<char>, b: Board)
    requires
        parse_result(s, b),
        s.len() == 0 || s[s.len() - 1] != '\n',
    ensures
        b.spec_text() == s,
{
    let rr = b.rows as int;
    let cc = b.cols as int;
    let strd = cc + 1;
    let n = s.len() as int;
    if n == 0 {
        assert(b.rows == 0);
        assert(b.spec_text() =~= s);
    } else {
        assert(rr >= 1);
        lemma_mul_inequality(1, rr, strd);
        assert(n != rr * strd);
        assert(n == rr * strd - 1);
        assert(b.spec_text().len() == n);
        assert forall|p: int| 0 <= p < n implies b.spec_text()[p] == s[p] by {
            assert(pattern_at(s, cc, p));
            lemma_fundamental_div_mod(p, strd);
            lemma_mod_division_less_than_divisor(p, strd);
            lemma_div_pos_is_pos(p, strd);
            let y = p / strd;
            let x = p % strd;
            assert(b.spec_text()[p] == text_char(b, p));
            if x == cc {
                assert(s[p] == '\n');
                assert(text_char(b, p) == '\n');
            } else {
                assert(x < cc);
                let t = y * cc + x;
                assert(y < rr) by (nonlinear_arith)
                    requires
                        p == strd * y + x,
                        0 <= x < strd,
                        y >= 0,
                        strd >= 1,
                        p < rr * strd - 1,
                        strd == cc + 1,
                ;
                assert(0 <= t < rr * cc) by (nonlinear_arith)
                    requires
                        t == y * cc + x,
                        0 <= x < cc,
                        0 <= y < rr,
                ;
                assert(b.cells@[t] == (s[line_pos(t, cc)] == '@'));
                lemma_fundamental_div_mod_converse(t, cc, y, x);
                assert(line_pos(t, cc) == p) by (nonlinear_arith)
                    requires
                        line_pos(t, cc) == (t / cc) * (cc + 1) + t % cc,
                        t / cc == y,
                        t % cc == x,
                        p == strd * y + x,
                        strd == cc + 1,
                ;
                assert(text_char(b, p) == cell_char(b.cells@[t]));
                assert(is_marker(s[p]));
            }
        }
        assert(b.spec_text() =~= s);
    }
}

} // verus!
