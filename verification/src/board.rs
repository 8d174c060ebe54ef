use vstd::prelude::*;
use vstd::pervasive::VecAdditionalExecFns;
use crate::cell::Cell;
use crate::cell::SolveError;
use crate::line::bool_compat;
use crate::line::hints_positive;
use crate::line::is_line_solution;
use crate::line::line_fits;
use crate::line::lemma_line_solve_preserves_known;
use crate::line::line_solve_spec;
use crate::line::solve_vector;
use crate::seqs::lemma_sum_u8_ge_len;
use crate::seqs::lemma_sum_u8_take_succ;
use crate::seqs::sum_u8;

verus! {

/// The flat index of the cell in row `r`, column `c` of a grid `w` wide.
pub open spec fn at(w: int, r: int, c: int) -> int {
    r * w + c
}

/// The hint sequences a collection of hint vectors holds.
pub open spec fn hint_views(hs: Seq<Vec<u8>>) -> Seq<Seq<u8>> {
    hs.map_values(|h: Vec<u8>| h@)
}

/// Every hint sequence consists of positive run lengths.
pub open spec fn all_hints_positive(hs: Seq<Seq<u8>>) -> bool {
    forall|k: int| 0 <= k < hs.len() ==> hints_positive(#[trigger] hs[k])
}

/// Every row's hints fit the board's width and every column's hints fit its
/// height.
pub open spec fn all_lines_fit(xs: Seq<Seq<u8>>, ys: Seq<Seq<u8>>) -> bool {
    &&& forall|r: int| 0 <= r < ys.len() ==> line_fits(#[trigger] ys[r], xs.len() as int)
    &&& forall|c: int| 0 <= c < xs.len() ==> line_fits(#[trigger] xs[c], ys.len() as int)
}

/// The bits describe a completed grid whose every row and column satisfies
/// its hints. `xs` are the column hints, `ys` the row hints.
pub open spec fn is_solution(xs: Seq<Seq<u8>>, ys: Seq<Seq<u8>>, s: Seq<bool>) -> bool {
    let w = xs.len() as int;
    let h = ys.len() as int;
    &&& s.len() == w * h
    &&& forall|r: int|
        0 <= r < h ==> is_line_solution(#[trigger] ys[r], Seq::new(w as nat, |c: int| s[at(w, r, c)]))
    &&& forall|c: int|
        0 <= c < w ==> is_line_solution(#[trigger] xs[c], Seq::new(h as nat, |r: int| s[at(w, r, c)]))
}

/// The completed grid `s` agrees with every cell the board already knows.
pub open spec fn grid_compat(s: Seq<bool>, grid: Seq<Cell>, w: int, h: int) -> bool {
    &&& s.len() == grid.len()
    &&& forall|r: int, c: int|
        0 <= r < h && 0 <= c < w ==> ((grid[#[trigger] at(w, r, c)] == Cell::Block ==> s[at(
            w,
            r,
            c,
        )]) && (grid[at(w, r, c)] == Cell::Void ==> !s[at(w, r, c)]))
}

/// Every cell already decided in the old grid is unchanged in the new one.
pub open spec fn knowns_kept(old_grid: Seq<Cell>, new_grid: Seq<Cell>, w: int, h: int) -> bool {
    forall|r: int, c: int|
        0 <= r < h && 0 <= c < w && old_grid[#[trigger] at(w, r, c)] != Cell::Unknown
            ==> new_grid[at(w, r, c)] == old_grid[at(w, r, c)]
}

proof fn lemma_at_bounds(w: int, h: int, r: int, c: int)
    by (nonlinear_arith)
    requires
        0 <= r < h,
        0 <= c < w,
    ensures
        0 <= at(w, r, c) < w * h,
        at(w, r, c) == r * w + c,
{
}

proof fn lemma_at_injective(w: int, r1: int, c1: int, r2: int, c2: int)
    by (nonlinear_arith)
    requires
        0 <= c1 < w,
        0 <= c2 < w,
        r1 >= 0,
        r2 >= 0,
    ensures
        (at(w, r1, c1) == at(w, r2, c2)) <==> (r1 == r2 && c1 == c2),
{
}

/// The stretch of one row lies inside the grid.
proof fn lemma_row_base(w: int, h: int, len: int, r: int)
    by (nonlinear_arith)
    requires
        0 <= r < h,
        w >= 0,
        len == w * h,
    ensures
        0 <= r * w,
        r * w + w <= len,
{
}

/// A flat index lies in the stretch of row `row` exactly when its own row is
/// `row`.
proof fn lemma_at_row_range(w: int, row: int, r: int, c: int)
    by (nonlinear_arith)
    requires
        0 <= c < w,
        r >= 0,
        row >= 0,
    ensures
        (row * w <= at(w, r, c) < row * w + w) <==> r == row,
        r == row ==> at(w, r, c) - row * w == c,
{
}

/// A rectangular Nonogram board: one hint sequence per column (`x_hints`),
/// one per row (`y_hints`), and a flat row-major grid of cells.
pub struct Nonogram {
    x_hints: Vec<Vec<u8>>,
    y_hints: Vec<Vec<u8>>,
    board: Vec<Cell>,
}

impl Nonogram {
    /// The column hint sequences, left to right.
    pub closed spec fn col_hints(&self) -> Seq<Seq<u8>> {
        hint_views(self.x_hints@)
    }

    /// The row hint sequences, top to bottom.
    pub closed spec fn row_hints(&self) -> Seq<Seq<u8>> {
        hint_views(self.y_hints@)
    }

    /// The grid, row by row.
    pub closed spec fn grid(&self) -> Seq<Cell> {
        self.board@
    }

    pub open spec fn width(&self) -> int {
        self.col_hints().len() as int
    }

    pub open spec fn height(&self) -> int {
        self.row_hints().len() as int
    }

    /// The board's invariant: the grid has one cell per row and column pair,
    /// and every line's hints are positive and fit the line.
    pub open spec fn wf(&self) -> bool {
        &&& self.grid().len() == self.width() * self.height()
        &&& self.width() < usize::MAX
        &&& self.height() < usize::MAX
        &&& all_hints_positive(self.col_hints())
        &&& all_hints_positive(self.row_hints())
        &&& all_lines_fit(self.col_hints(), self.row_hints())
    }

    /// The cells of one row, left to right.
    pub open spec fn row_seq(&self, r: int) -> Seq<Cell> {
        row_of(self.grid(), self.width(), r)
    }

    /// The cells of one column, top to bottom.
    pub open spec fn col_seq(&self, c: int) -> Seq<Cell> {
        col_of(self.grid(), self.width(), self.height(), c)
    }

    /// No cell is left undetermined.
    pub open spec fn solved(&self) -> bool {
        grid_solved(self.grid())
    }
}

/// The cells of row `r` of a flat grid `w` wide, left to right.
pub open spec fn row_of(grid: Seq<Cell>, w: int, r: int) -> Seq<Cell> {
    Seq::new(w as nat, |c: int| grid[at(w, r, c)])
}

/// The cells of column `c` of a flat grid `w` wide and `h` high, top to
/// bottom.
pub open spec fn col_of(grid: Seq<Cell>, w: int, h: int, c: int) -> Seq<Cell> {
    Seq::new(h as nat, |r: int| grid[at(w, r, c)])
}

/// The grid with row `r` overwritten by `cells`.
pub open spec fn write_row(grid: Seq<Cell>, w: int, r: int, cells: Seq<Cell>) -> Seq<Cell> {
    Seq::new(
        grid.len(),
        |p: int|
            if r * w <= p < r * w + w {
                cells[p - r * w]
            } else {
                grid[p]
            },
    )
}

/// The grid with column `c` overwritten by `cells`.
pub open spec fn write_col(grid: Seq<Cell>, w: int, c: int, cells: Seq<Cell>) -> Seq<Cell> {
    Seq::new(
        grid.len(),
        |p: int|
            if 0 <= c < w && p % w == c {
                cells[p / w]
            } else {
                grid[p]
            },
    )
}

/// No cell of the grid is left undetermined.
pub open spec fn grid_solved(grid: Seq<Cell>) -> bool {
    forall|i: int| 0 <= i < grid.len() ==> #[trigger] grid[i] != Cell::Unknown
}

/// The line still has an undetermined cell.
pub open spec fn seq_has_unknown(cells: Seq<Cell>) -> bool {
    exists|i: int| 0 <= i < cells.len() && cells[i] == Cell::Unknown
}

/// One step of the solver loop at round-robin position (`row_mode`, `index`):
/// if the line still has an undetermined cell, solve it and write the
/// deduction back; otherwise leave the grid alone.
pub open spec fn solve_step(
    xs: Seq<Seq<u8>>,
    ys: Seq<Seq<u8>>,
    grid: Seq<Cell>,
    row_mode: bool,
    index: int,
) -> Seq<Cell> {
    let w = xs.len() as int;
    let h = ys.len() as int;
    if row_mode {
        let cells = row_of(grid, w, index);
        if seq_has_unknown(cells) {
            write_row(grid, w, index, line_solve_spec(ys[index], cells))
        } else {
            grid
        }
    } else {
        let cells = col_of(grid, w, h, index);
        if seq_has_unknown(cells) {
            write_col(grid, w, index, line_solve_spec(xs[index], cells))
        } else {
            grid
        }
    }
}

/// The solver loop itself: starting at round-robin position (`row_mode`,
/// `index`), take one step at a time — advancing the index and flipping
/// between rows and columns at each end — until the grid is solved or `fuel`
/// steps have been taken.
pub open spec fn solve_loop(
    xs: Seq<Seq<u8>>,
    ys: Seq<Seq<u8>>,
    grid: Seq<Cell>,
    row_mode: bool,
    index: int,
    fuel: nat,
) -> Seq<Cell>
    decreases fuel,
{
    if fuel == 0 || grid_solved(grid) {
        grid
    } else {
        let stepped = solve_step(xs, ys, grid, row_mode, index);
        let max = if row_mode {
            ys.len() as int
        } else {
            xs.len() as int
        };
        if index + 1 == max {
            solve_loop(xs, ys, stepped, !row_mode, 0, (fuel - 1) as nat)
        } else {
            solve_loop(xs, ys, stepped, row_mode, index + 1, (fuel - 1) as nat)
        }
    }
}

/// Splits a flat grid index into its row `p / w` and column `p % w`.
proof fn lemma_flat_decompose(w: int, h: int, p: int)
    requires
        w > 0,
        h >= 0,
        0 <= p < w * h,
    ensures
        0 <= p % w < w,
        0 <= p / w < h,
        p == at(w, p / w, p % w),
{
    vstd::arithmetic::div_mod::lemma_fundamental_div_mod(p, w);
    vstd::arithmetic::div_mod::lemma_mod_bound(p, w);
    assert((p / w) * w == w * (p / w)) by (nonlinear_arith);
    assert(0 <= p / w && p / w < h) by (nonlinear_arith)
        requires
            w > 0,
            0 <= p < w * h,
            p == w * (p / w) + (p % w),
            0 <= p % w < w,
    ;
}

/// Decides whether a line's hints fit its length: the runs plus one
/// mandatory separator between each adjacent pair.
#[verifier::loop_isolation(false)]
pub(crate) fn hints_fit(hints: &Vec<u8>, len: usize) -> (r: bool)
    ensures
        r == line_fits(hints@, len as int),
{
    let mut s: u128 = 0;
    let mut i: usize = 0;
    while i < hints.len()
        invariant
            i <= hints@.len(),
            s as int == sum_u8(hints@.take(i as int)) + i,
            s as int <= 256 * (i as int),
        decreases hints@.len() - i,
    {
        proof {
            lemma_sum_u8_take_succ(hints@, i as int);
        }
        s = s + hints[i] as u128 + 1;
        i = i + 1;
    }
    proof {
        assert(hints@.take(hints@.len() as int) =~= hints@);
    }
    s <= len as u128 + 1
}

impl Nonogram {
    /// Builds an all-Unknown board from the column hints and the row hints.
    /// Construction fails with `InconsistentPuzzle` exactly when some line's
    /// runs plus their mandatory separators exceed the line's length.
    #[verifier::loop_isolation(false)]
    pub fn new(x_hints: Vec<Vec<u8>>, y_hints: Vec<Vec<u8>>) -> (r: Result<Nonogram, SolveError>)
        requires
            all_hints_positive(hint_views(x_hints@)),
            all_hints_positive(hint_views(y_hints@)),
            x_hints@.len() * y_hints@.len() <= usize::MAX,
            x_hints@.len() < usize::MAX,
            y_hints@.len() < usize::MAX,
        ensures
            match r {
                Ok(b) => {
                    &&& b.wf()
                    &&& b.col_hints() == hint_views(x_hints@)
                    &&& b.row_hints() == hint_views(y_hints@)
                    &&& b.grid() == Seq::new(
                        (x_hints@.len() * y_hints@.len()) as nat,
                        |i: int| Cell::Unknown,
                    )
                    &&& all_lines_fit(hint_views(x_hints@), hint_views(y_hints@))
                },
                Err(e) => {
                    &&& e == SolveError::InconsistentPuzzle
                    &&& !all_lines_fit(hint_views(x_hints@), hint_views(y_hints@))
                },
            },
    {
        let width = x_hints.len();
        let height = y_hints.len();
        let mut r: usize = 0;
        while r < height
            invariant
                r <= height,
                forall|k: int|
                    0 <= k < r ==> line_fits(#[trigger] hint_views(y_hints@)[k], width as int),
            decreases height - r,
        {
            proof {
                assert(hint_views(y_hints@)[r as int] == y_hints@[r as int]@);
            }
            if !hints_fit(&y_hints[r], width) {
                proof {
                    assert(!all_lines_fit(hint_views(x_hints@), hint_views(y_hints@)));
                }
                return Err(SolveError::InconsistentPuzzle);
            }
            r = r + 1;
        }
        let mut c: usize = 0;
        while c < width
            invariant
                c <= width,
                forall|k: int|
                    0 <= k < c ==> line_fits(#[trigger] hint_views(x_hints@)[k], height as int),
            decreases width - c,
        {
            proof {
                assert(hint_views(x_hints@)[c as int] == x_hints@[c as int]@);
            }
            if !hints_fit(&x_hints[c], height) {
                proof {
                    assert(!all_lines_fit(hint_views(x_hints@), hint_views(y_hints@)));
                }
                return Err(SolveError::InconsistentPuzzle);
            }
            c = c + 1;
        }
        let size = width * height;
        let mut board: Vec<Cell> = Vec::new();
        let mut i: usize = 0;
        while i < size
            invariant
                i <= size,
                board@ =~= Seq::new(i as nat, |p: int| Cell::Unknown),
            decreases size - i,
        {
            board.push(Cell::Unknown);
            i = i + 1;
        }
        Ok(Nonogram { x_hints, y_hints, board })
    }

    /// Reads one row, left to right.
    #[verifier::loop_isolation(false)]
    pub fn get_row(&self, row_idx: usize) -> (r: Vec<Cell>)
        requires
            self.wf(),
            row_idx < self.height(),
        ensures
            r@ == self.row_seq(row_idx as int),
    {
        let width = self.x_hints.len();
        let n = self.board.len();
        proof {
            lemma_row_base(width as int, self.height(), n as int, row_idx as int);
        }
        let start = row_idx * width;
        let mut cells: Vec<Cell> = Vec::new();
        let mut c: usize = 0;
        while c < width
            invariant
                c <= width,
                cells@.len() == c as nat,
                forall|p: int| 0 <= p < c ==> cells@[p] == self.grid()[at(width as int, row_idx as int, p)],
            decreases width - c,
        {
            proof {
                lemma_at_bounds(width as int, self.height(), row_idx as int, c as int);
            }
            cells.push(self.board[start + c]);
            c = c + 1;
        }
        proof {
            assert(cells@ =~= self.row_seq(row_idx as int));
        }
        cells
    }

    /// Overwrites one row, leaving every other cell and all hints unchanged.
    #[verifier::loop_isolation(false)]
    pub fn set_row(&mut self, row_idx: usize, cells: Vec<Cell>)
        requires
            old(self).wf(),
            row_idx < old(self).height(),
            cells@.len() == old(self).width(),
        ensures
            final(self).wf(),
            final(self).col_hints() == old(self).col_hints(),
            final(self).row_hints() == old(self).row_hints(),
            final(self).grid().len() == old(self).grid().len(),
            final(self).grid() == write_row(
                old(self).grid(),
                old(self).width(),
                row_idx as int,
                cells@,
            ),
            forall|r: int, c: int|
                0 <= r < old(self).height() && 0 <= c < old(self).width() ==> final(self).grid()[
                    #[trigger] at(old(self).width(), r, c)
                ] == (if r == row_idx {
                    cells@[c]
                } else {
                    old(self).grid()[at(old(self).width(), r, c)]
                }),
    {
        let width = self.x_hints.len();
        let n = self.board.len();
        proof {
            lemma_row_base(width as int, self.height(), n as int, row_idx as int);
        }
        let start = row_idx * width;
        let mut c: usize = 0;
        while c < width
            invariant
                c <= width,
                self.x_hints == old(self).x_hints,
                self.y_hints == old(self).y_hints,
                self.board@.len() == old(self).board@.len(),
                forall|p: int|
                    0 <= p < self.board@.len() ==> self.board@[p] == (if start <= p < start + c {
                        cells@[p - start]
                    } else {
                        old(self).board@[p]
                    }),
            decreases width - c,
        {
            proof {
                lemma_at_bounds(width as int, self.height(), row_idx as int, c as int);
            }
            self.board.set(start + c, cells[c]);
            c = c + 1;
        }
        proof {
            assert(self.grid() =~= write_row(
                old(self).grid(),
                old(self).width(),
                row_idx as int,
                cells@,
            ));
            assert forall|r: int, c: int|
                0 <= r < old(self).height() && 0 <= c < old(self).width() implies self.grid()[
                #[trigger] at(old(self).width(), r, c)
            ] == (if r == row_idx {
                cells@[c]
            } else {
                old(self).grid()[at(old(self).width(), r, c)]
            }) by {
                lemma_at_bounds(width as int, old(self).height(), r, c);
                lemma_at_row_range(width as int, row_idx as int, r, c);
            }
        }
    }

    /// The hints of one row.
    pub fn get_row_hints(&self, row_idx: usize) -> (r: &Vec<u8>)
        requires
            self.wf(),
            row_idx < self.height(),
        ensures
            r@ == self.row_hints()[row_idx as int],
    {
        &self.y_hints[row_idx]
    }

    /// Reads one column, top to bottom.
    #[verifier::loop_isolation(false)]
    pub fn get_column(&self, col_idx: usize) -> (r: Vec<Cell>)
        requires
            self.wf(),
            col_idx < self.width(),
        ensures
            r@ == self.col_seq(col_idx as int),
    {
        let width = self.x_hints.len();
        let height = self.y_hints.len();
        let n = self.board.len();
        let mut cells: Vec<Cell> = Vec::new();
        let mut r: usize = 0;
        while r < height
            invariant
                r <= height,
                cells@.len() == r as nat,
                forall|p: int| 0 <= p < r ==> cells@[p] == self.grid()[at(width as int, p, col_idx as int)],
            decreases height - r,
        {
            proof {
                lemma_at_bounds(width as int, height as int, r as int, col_idx as int);
                assert((r as int) * (width as int) + (col_idx as int) < (n as int));
            }
            cells.push(self.board[r * width + col_idx]);
            r = r + 1;
        }
        proof {
            assert(cells@ =~= self.col_seq(col_idx as int));
        }
        cells
    }

    /// Overwrites one column, leaving every other cell and all hints
    /// unchanged.
    #[verifier::loop_isolation(false)]
    pub fn set_column(&mut self, col_idx: usize, cells: Vec<Cell>)
        requires
            old(self).wf(),
            col_idx < old(self).width(),
            cells@.len() == old(self).height(),
        ensures
            final(self).wf(),
            final(self).col_hints() == old(self).col_hints(),
            final(self).row_hints() == old(self).row_hints(),
            final(self).grid().len() == old(self).grid().len(),
            final(self).grid() == write_col(
                old(self).grid(),
                old(self).width(),
                col_idx as int,
                cells@,
            ),
            forall|r: int, c: int|
                0 <= r < old(self).height() && 0 <= c < old(self).width() ==> final(self).grid()[
                    #[trigger] at(old(self).width(), r, c)
                ] == (if c == col_idx {
                    cells@[r]
                } else {
                    old(self).grid()[at(old(self).width(), r, c)]
                }),
    {
        let width = self.x_hints.len();
        let height = self.y_hints.len();
        let n = self.board.len();
        let mut i: usize = 0;
        while i < height
            invariant
                i <= height,
                self.x_hints == old(self).x_hints,
                self.y_hints == old(self).y_hints,
                self.board@.len() == old(self).board@.len(),
                forall|r: int, c: int|
                    0 <= r < height && 0 <= c < width ==> self.grid()[#[trigger] at(
                        width as int,
                        r,
                        c,
                    )] == (if c == col_idx && r < i {
                        cells@[r]
                    } else {
                        old(self).grid()[at(width as int, r, c)]
                    }),
            decreases height - i,
        {
            proof {
                lemma_at_bounds(width as int, height as int, i as int, col_idx as int);
                assert((i as int) * (width as int) + (col_idx as int) < (n as int));
            }
            let ghost pre = self.board@;
            self.board.set(i * width + col_idx, cells[i]);
            proof {
                assert forall|r: int, c: int|
                    0 <= r < height && 0 <= c < width implies self.grid()[#[trigger] at(
                    width as int,
                    r,
                    c,
                )] == (if c == col_idx && r < i + 1 {
                    cells@[r]
                } else {
                    old(self).grid()[at(width as int, r, c)]
                }) by {
                    lemma_at_bounds(width as int, height as int, r, c);
                    lemma_at_injective(width as int, r, c, i as int, col_idx as int);
                }
            }
            i = i + 1;
        }
        proof {
            assert forall|p: int|
                0 <= p < self.grid().len() implies self.grid()[p] == write_col(
                old(self).grid(),
                old(self).width(),
                col_idx as int,
                cells@,
            )[p] by {
                lemma_pos_dims(width as int, height as int, self.grid().len() as int);
                lemma_flat_decompose(width as int, height as int, p);
                let r = p / (width as int);
                let c = p % (width as int);
                assert(self.grid()[at(width as int, r, c)] == (if c == col_idx {
                    cells@[r]
                } else {
                    old(self).grid()[at(width as int, r, c)]
                }));
            }
            assert(self.grid() =~= write_col(
                old(self).grid(),
                old(self).width(),
                col_idx as int,
                cells@,
            ));
        }
    }

    /// The hints of one column.
    pub fn get_column_hints(&self, col_idx: usize) -> (r: &Vec<u8>)
        requires
            self.wf(),
            col_idx < self.width(),
        ensures
            r@ == self.col_hints()[col_idx as int],
    {
        &self.x_hints[col_idx]
    }

    /// True exactly when no cell is left undetermined.
    #[verifier::loop_isolation(false)]
    pub fn is_solved(&self) -> (r: bool)
        ensures
            r == self.solved(),
    {
        let mut i: usize = 0;
        while i < self.board.len()
            invariant
                i <= self.board@.len(),
                forall|p: int| 0 <= p < i ==> #[trigger] self.grid()[p] != Cell::Unknown,
            decreases self.board@.len() - i,
        {
            match self.board[i] {
                Cell::Unknown => {
                    return false;
                },
                _ => {},
            }
            i = i + 1;
        }
        true
    }
}

/// A non-empty grid has a positive width and height.
proof fn lemma_pos_dims(w: int, h: int, len: int)
    by (nonlinear_arith)
    requires
        len == w * h,
        len > 0,
        w >= 0,
        h >= 0,
    ensures
        w > 0,
        h > 0,
{
}

impl Nonogram {
    /// Runs the solver loop: every row top to bottom, then every column left
    /// to right, over and over, solving each line that still has an
    /// undetermined cell and writing the deduction back, until the board is
    /// solved or the iteration budget is spent. The grid that comes out is
    /// exactly `solve_loop` applied to the grid that went in. Every completed
    /// grid that satisfies the hints and agrees with the cells known at the
    /// start still agrees with the board afterwards, and — as long as such a
    /// grid exists — no cell once decided is ever changed.
    #[verifier::loop_isolation(false)]
    pub fn solve(&mut self, max_iterations: u32)
        requires
            old(self).wf(),
        ensures
            final(self).wf(),
            final(self).col_hints() == old(self).col_hints(),
            final(self).row_hints() == old(self).row_hints(),
            final(self).grid().len() == old(self).grid().len(),
            final(self).grid() == solve_loop(
                old(self).col_hints(),
                old(self).row_hints(),
                old(self).grid(),
                true,
                0,
                max_iterations as nat,
            ),
            max_iterations == 0 ==> final(self).grid() == old(self).grid(),
            old(self).solved() ==> final(self).grid() == old(self).grid(),
            forall|s: Seq<bool>|
                #[trigger] is_solution(old(self).col_hints(), old(self).row_hints(), s)
                    && grid_compat(s, old(self).grid(), old(self).width(), old(self).height())
                    ==> grid_compat(s, final(self).grid(), old(self).width(), old(self).height())
                        && knowns_kept(
                        old(self).grid(),
                        final(self).grid(),
                        old(self).width(),
                        old(self).height(),
                    ),
    {
        let ghost w = old(self).width();
        let ghost h = old(self).height();
        let mut iteration: u32 = 0;
        let mut index: usize = 0;
        let mut row_mode: bool = true;
        let mut solved = self.is_solved();
        while !solved && iteration < max_iterations
            invariant
                self.wf(),
                self.col_hints() == old(self).col_hints(),
                self.row_hints() == old(self).row_hints(),
                self.grid().len() == old(self).grid().len(),
                solved == self.solved(),
                iteration <= max_iterations,
                old(self).solved() ==> self.grid() == old(self).grid(),
                row_mode ==> index == 0 || index < self.height(),
                !row_mode ==> index == 0 || index < self.width(),
                solve_loop(
                    old(self).col_hints(),
                    old(self).row_hints(),
                    old(self).grid(),
                    true,
                    0,
                    max_iterations as nat,
                ) == solve_loop(
                    old(self).col_hints(),
                    old(self).row_hints(),
                    self.grid(),
                    row_mode,
                    index as int,
                    (max_iterations - iteration) as nat,
                ),
                forall|s: Seq<bool>|
                    #[trigger] is_solution(old(self).col_hints(), old(self).row_hints(), s)
                        && grid_compat(s, old(self).grid(), w, h) ==> grid_compat(
                        s,
                        self.grid(),
                        w,
                        h,
                    ) && knowns_kept(old(self).grid(), self.grid(), w, h),
            decreases max_iterations - iteration,
        {
            let ghost g0 = self.grid();
            let ghost rm0 = row_mode;
            let ghost idx0 = index as int;
            let ghost fuel0 = (max_iterations - iteration) as nat;
            proof {
                assert(self.grid().len() > 0);
                lemma_pos_dims(w, h, self.grid().len() as int);
            }
            let max = if row_mode {
                self.y_hints.len()
            } else {
                self.x_hints.len()
            };
            let cells = if row_mode {
                self.get_row(index)
            } else {
                self.get_column(index)
            };
            if line_has_unknown(&cells) {
                let res = if row_mode {
                    solve_vector(self.get_row_hints(index), &cells)
                } else {
                    solve_vector(self.get_column_hints(index), &cells)
                };
                let ghost hl = if row_mode {
                    self.row_hints()[index as int]
                } else {
                    self.col_hints()[index as int]
                };
                let new_cells = match res {
                    Ok(v) => v,
                    Err(_) => {
                        proof {
                            lemma_sum_u8_ge_len(hl);
                            assert(sum_u8(hl) <= cells@.len());
                            assert(false);
                        }
                        Vec::new()
                    },
                };
                let ghost nc = new_cells@;
                let ghost pre_grid = self.grid();
                proof {
                    assert(nc == line_solve_spec(hl, cells@));
                }
                if row_mode {
                    self.set_row(index, new_cells);
                } else {
                    self.set_column(index, new_cells);
                }
                proof {
                    assert forall|s: Seq<bool>|
                        #[trigger] is_solution(old(self).col_hints(), old(self).row_hints(), s)
                            && grid_compat(s, old(self).grid(), w, h) implies grid_compat(
                        s,
                        self.grid(),
                        w,
                        h,
                    ) && knowns_kept(old(self).grid(), self.grid(), w, h) by {
                        assert(grid_compat(s, pre_grid, w, h));
                        assert(knowns_kept(old(self).grid(), pre_grid, w, h));
                        if row_mode {
                            let srow = Seq::new(w as nat, |c: int| s[at(w, index as int, c)]);
                            assert(is_line_solution(hl, srow));
                            assert forall|c: int| 0 <= c < w implies cells@[c] == pre_grid[at(
                                w,
                                index as int,
                                c,
                            )] && srow[c] == s[at(w, index as int, c)] by {}
                            assert(bool_compat(srow, cells@));
                            lemma_line_solve_preserves_known(hl, cells@, srow);
                            assert forall|r: int, c: int|
                                0 <= r < h && 0 <= c < w implies ((self.grid()[#[trigger] at(
                                w,
                                r,
                                c,
                            )] == Cell::Block ==> s[at(w, r, c)]) && (self.grid()[at(w, r, c)]
                                == Cell::Void ==> !s[at(w, r, c)]) && (old(self).grid()[at(w, r, c)]
                                != Cell::Unknown ==> self.grid()[at(w, r, c)] == old(
                                self,
                            ).grid()[at(w, r, c)])) by {
                                if r == index as int {
                                    assert(self.grid()[at(w, r, c)] == nc[c]);
                                    assert(nc[c] == Cell::Block ==> srow[c]);
                                    assert(nc[c] == Cell::Void ==> !srow[c]);
                                    if old(self).grid()[at(w, r, c)] != Cell::Unknown {
                                        assert(cells@[c] == old(self).grid()[at(w, r, c)]);
                                        assert(nc[c] == cells@[c]);
                                    }
                                }
                            }
                        } else {
                            let scol = Seq::new(h as nat, |r: int| s[at(w, r, index as int)]);
                            assert(is_line_solution(hl, scol));
                            assert forall|r: int| 0 <= r < h implies cells@[r] == pre_grid[at(
                                w,
                                r,
                                index as int,
                            )] && scol[r] == s[at(w, r, index as int)] by {}
                            assert(bool_compat(scol, cells@));
                            lemma_line_solve_preserves_known(hl, cells@, scol);
                            assert forall|r: int, c: int|
                                0 <= r < h && 0 <= c < w implies ((self.grid()[#[trigger] at(
                                w,
                                r,
                                c,
                            )] == Cell::Block ==> s[at(w, r, c)]) && (self.grid()[at(w, r, c)]
                                == Cell::Void ==> !s[at(w, r, c)]) && (old(self).grid()[at(w, r, c)]
                                != Cell::Unknown ==> self.grid()[at(w, r, c)] == old(
                                self,
                            ).grid()[at(w, r, c)])) by {
                                if c == index as int {
                                    assert(self.grid()[at(w, r, c)] == nc[r]);
                                    assert(nc[r] == Cell::Block ==> scol[r]);
                                    assert(nc[r] == Cell::Void ==> !scol[r]);
                                    if old(self).grid()[at(w, r, c)] != Cell::Unknown {
                                        assert(cells@[r] == old(self).grid()[at(w, r, c)]);
                                        assert(nc[r] == cells@[r]);
                                    }
                                }
                            }
                        }
                    }
                    if row_mode {
                        assert(cells@ == row_of(g0, w, idx0));
                        assert(self.grid() == write_row(g0, w, idx0, line_solve_spec(hl, cells@)));
                        assert(hl == old(self).row_hints()[idx0]);
                        assert(self.grid() == solve_step(
                            old(self).col_hints(),
                            old(self).row_hints(),
                            g0,
                            rm0,
                            idx0,
                        ));
                    } else {
                        assert(cells@ == col_of(g0, w, h, idx0));
                        assert(self.grid() == write_col(g0, w, idx0, line_solve_spec(hl, cells@)));
                        assert(hl == old(self).col_hints()[idx0]);
                        assert(self.grid() == solve_step(
                            old(self).col_hints(),
                            old(self).row_hints(),
                            g0,
                            rm0,
                            idx0,
                        ));
                    }
                }
            } else {
                proof {
                    assert(self.grid() == g0);
                    if row_mode {
                        assert(cells@ == row_of(g0, w, idx0));
                    } else {
                        assert(cells@ == col_of(g0, w, h, idx0));
                    }
                    assert(self.grid() == solve_step(
                        old(self).col_hints(),
                        old(self).row_hints(),
                        g0,
                        rm0,
                        idx0,
                    ));
                }
            }
            index = index + 1;
            if index == max {
                row_mode = !row_mode;
                index = 0;
            }
            iteration = iteration + 1;
            solved = self.is_solved();
            proof {
                assert(!grid_solved(g0));
                assert(fuel0 >= 1);
                assert(solve_loop(
                    old(self).col_hints(),
                    old(self).row_hints(),
                    g0,
                    rm0,
                    idx0,
                    fuel0,
                ) == solve_loop(
                    old(self).col_hints(),
                    old(self).row_hints(),
                    self.grid(),
                    row_mode,
                    index as int,
                    (max_iterations - iteration) as nat,
                ));
            }
        }
        proof {
            if solved {
                assert(grid_solved(self.grid()));
            } else {
                assert(iteration == max_iterations);
            }
            assert(solve_loop(
                old(self).col_hints(),
                old(self).row_hints(),
                self.grid(),
                row_mode,
                index as int,
                (max_iterations - iteration) as nat,
            ) == self.grid());
            if max_iterations == 0 {
                assert(solve_loop(
                    old(self).col_hints(),
                    old(self).row_hints(),
                    old(self).grid(),
                    true,
                    0,
                    max_iterations as nat,
                ) == old(self).grid());
            }
        }
    }
}

/// True exactly when the line still has an undetermined cell.
#[verifier::loop_isolation(false)]
fn line_has_unknown(cells: &Vec<Cell>) -> (r: bool)
    ensures
        r == seq_has_unknown(cells@),
{
    let mut i: usize = 0;
    while i < cells.len()
        invariant
            i <= cells@.len(),
            forall|p: int| 0 <= p < i ==> #[trigger] cells@[p] != Cell::Unknown,
        decreases cells@.len() - i,
    {
        match cells[i] {
            Cell::Unknown => {
                return true;
            },
            _ => {},
        }
        i = i + 1;
    }
    false
}

} // verus!
