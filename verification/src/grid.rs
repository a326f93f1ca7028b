//! The simulation engine: a toroidal Game of Life grid.
//!
//! A board is a `rows x cols` matrix of binary cells. Each generation, every
//! cell is rewritten from the count of its eight toroidal neighbors according
//! to the standard B3/S23 rule, using only the previous generation's state.

use vstd::arithmetic::div_mod::{lemma_mod_multiples_vanish, lemma_small_mod};
use vstd::prelude::*;

verus! {

/// The state of a single cell: a plain two-valued enumeration.
#[derive(Clone, Copy, Debug, PartialEq, Eq, Structural)]
pub enum Cell {
    Dead,
    Alive,
}

/// The errors the engine can report. Construction rejects empty dimensions
/// and ragged row data; queries reject out-of-range coordinates; the codec
/// rejects bytes other than `0` and `1`.
#[derive(Clone, Copy, Debug, PartialEq, Eq, Structural)]
pub enum GridError {
    InvalidDimensions,
    RaggedInput,
    OutOfBounds,
    InvalidCharacter,
}

impl Cell {
    pub open spec fn is_alive(self) -> bool {
        self is Alive
    }
}

/// A grid whose state is the sequence of its rows, each row a sequence of
/// `alive` booleans. All spec-level reasoning is over this model.
pub open spec fn grid_wf(g: Seq<Seq<bool>>, rows: int, cols: int) -> bool {
    &&& g.len() == rows
    &&& rows >= 1
    &&& cols >= 1
    &&& forall|r: int| 0 <= r < rows ==> (#[trigger] g[r]).len() == cols
}

/// The all-dead grid of the given dimensions.
pub open spec fn dead_grid(rows: int, cols: int) -> Seq<Seq<bool>> {
    Seq::new(rows as nat, |r: int| Seq::new(cols as nat, |c: int| false))
}

/// Toroidal wrap of coordinate `i` moved by offset `d` on an axis of length
/// `n`: the neighbor coordinate is `(i + d + n) % n`.
pub open spec fn wrap(i: int, d: int, n: int) -> int {
    (i + d + n) % n
}

/// 1 if the toroidal neighbor of (r, c) at offset (dr, dc) is alive, else 0.
pub open spec fn neighbor_term(
    g: Seq<Seq<bool>>,
    rows: int,
    cols: int,
    r: int,
    c: int,
    dr: int,
    dc: int,
) -> int {
    if g[wrap(r, dr, rows)][wrap(c, dc, cols)] {
        1int
    } else {
        0int
    }
}

/// The number of alive cells among the 8 toroidal neighbors of (r, c): the
/// offsets are {-1,0,1} x {-1,0,1} without (0,0). On an axis of length 1 or 2
/// distinct offsets reach the same physical cell, which is then counted once
/// per offset; that is the intended toroidal behavior, not an error.
pub open spec fn neighbor_count(g: Seq<Seq<bool>>, rows: int, cols: int, r: int, c: int) -> int {
    neighbor_term(g, rows, cols, r, c, -1, -1) + neighbor_term(g, rows, cols, r, c, -1, 0)
        + neighbor_term(g, rows, cols, r, c, -1, 1) + neighbor_term(g, rows, cols, r, c, 0, -1)
        + neighbor_term(g, rows, cols, r, c, 0, 1) + neighbor_term(g, rows, cols, r, c, 1, -1)
        + neighbor_term(g, rows, cols, r, c, 1, 0) + neighbor_term(g, rows, cols, r, c, 1, 1)
}

/// The B3/S23 transition rule for one cell: a dead cell with exactly 3 alive
/// neighbors is born; an alive cell with 2 or 3 alive neighbors survives;
/// every other cell is dead in the next generation.
pub open spec fn next_state(alive: bool, n: int) -> bool {
    if alive {
        n == 2 || n == 3
    } else {
        n == 3
    }
}

/// One whole generation: every cell of the result is the rule applied to the
/// corresponding cell of `g`, using only `g` (never partially updated state).
pub open spec fn step(g: Seq<Seq<bool>>, rows: int, cols: int) -> Seq<Seq<bool>> {
    Seq::new(
        rows as nat,
        |r: int| Seq::new(cols as nat, |c: int| next_state(g[r][c], neighbor_count(g, rows, cols, r, c))),
    )
}

/// Law: every neighbor count lies in [0, 8], on every grid and at every
/// coordinate.
pub proof fn lemma_neighbor_count_bounds(g: Seq<Seq<bool>>, rows: int, cols: int, r: int, c: int)
    ensures
        0 <= neighbor_count(g, rows, cols, r, c) <= 8,
{
}

/// The wrapped coordinate written without `%`, for each of the three offsets,
/// together with its range.
pub proof fn lemma_wrap_values(i: int, n: int)
    requires
        0 <= i < n,
    ensures
        wrap(i, -1, n) == if i == 0 { n - 1 } else { i - 1 },
        wrap(i, 0, n) == i,
        wrap(i, 1, n) == if i + 1 == n { 0 } else { i + 1 },
        0 <= wrap(i, -1, n) < n,
        0 <= wrap(i, 0, n) < n,
        0 <= wrap(i, 1, n) < n,
{
    if i == 0 {
        lemma_small_mod((n - 1) as nat, n as nat);
    } else {
        lemma_mod_multiples_vanish(1, i - 1, n);
        lemma_small_mod((i - 1) as nat, n as nat);
    }
    lemma_mod_multiples_vanish(1, i, n);
    lemma_small_mod(i as nat, n as nat);
    if i + 1 == n {
        lemma_mod_multiples_vanish(2, 0, n);
        lemma_small_mod(0nat, n as nat);
    } else {
        lemma_mod_multiples_vanish(1, i + 1, n);
        lemma_small_mod((i + 1) as nat, n as nat);
    }
}

/// Law: an all-dead grid steps to itself, so it remains all-dead after any
/// number of generations.
pub proof fn lemma_extinction(g: Seq<Seq<bool>>, rows: int, cols: int)
    requires
        grid_wf(g, rows, cols),
        forall|r: int, c: int| 0 <= r < rows && 0 <= c < cols ==> !(#[trigger] g[r][c]),
    ensures
        step(g, rows, cols) == g,
{
    assert forall|r: int, c: int|
        0 <= r < rows && 0 <= c < cols implies neighbor_count(g, rows, cols, r, c) == 0 by {
        lemma_wrap_values(r, rows);
        lemma_wrap_values(c, cols);
    }
    assert(step(g, rows, cols) =~~= g);
}

/// Law: a 2x2 block of alive cells, alone on a grid large enough that the
/// block and its one-cell neighborhood do not wrap onto themselves, is a
/// still life: one generation leaves the grid unchanged. Each block cell has
/// exactly 3 alive neighbors and survives; every other cell has at most 2 and
/// stays dead.
pub proof fn lemma_block_still_life(g: Seq<Seq<bool>>, rows: int, cols: int, i: int, j: int)
    requires
        grid_wf(g, rows, cols),
        1 <= i && i + 2 <= rows - 1,
        1 <= j && j + 2 <= cols - 1,
        forall|r: int, c: int| 0 <= r < rows && 0 <= c < cols ==> ((#[trigger] g[r][c]) <==> (i
            <= r <= i + 1 && j <= c <= j + 1)),
    ensures
        step(g, rows, cols) == g,
{
    assert forall|r: int, c: int|
        0 <= r < rows && 0 <= c < cols implies next_state(
        g[r][c],
        neighbor_count(g, rows, cols, r, c),
    ) == g[r][c] by {
        lemma_wrap_values(r, rows);
        lemma_wrap_values(c, cols);
    }
    assert(step(g, rows, cols) =~~= g);
}

/// Whether every row of `rs` has the same length as the first.
pub open spec fn rect<T>(rs: Seq<Seq<T>>) -> bool {
    forall|i: int| 0 <= i < rs.len() ==> (#[trigger] rs[i]).len() == rs[0].len()
}

/// The engine. `cells` always holds exactly `rows` rows of exactly `cols`
/// cells each, and both dimensions are at least 1.
#[derive(Debug)]
pub struct Board {
    pub cells: Vec<Vec<Cell>>,
    pub rows: usize,
    pub cols: usize,
}

impl View for Board {
    type V = Seq<Seq<bool>>;

    open spec fn view(&self) -> Seq<Seq<bool>> {
        Seq::new(
            self.cells@.len(),
            |r: int| Seq::new(self.cells@[r]@.len(), |c: int| self.cells@[r]@[c].is_alive()),
        )
    }
}

impl Board {
    /// Well-formedness: the invariant every constructor establishes and every
    /// method preserves.
    pub open spec fn wf(&self) -> bool {
        &&& self.cells@.len() == self.rows
        &&& self.rows >= 1
        &&& self.cols >= 1
        &&& forall|r: int| 0 <= r < self.rows ==> (#[trigger] self.cells@[r])@.len() == self.cols
    }

    /// An all-dead board of the given dimensions, or `InvalidDimensions` if
    /// either dimension is zero.
    pub fn new(rows: usize, cols: usize) -> (result: Result<Board, GridError>)
        ensures
            match result {
                Ok(b) => {
                    &&& rows >= 1 && cols >= 1
                    &&& b.wf()
                    &&& b.rows == rows && b.cols == cols
                    &&& b@ == dead_grid(rows as int, cols as int)
                },
                Err(e) => e == GridError::InvalidDimensions && (rows == 0 || cols == 0),
            },
    {
        if rows == 0 || cols == 0 {
            return Err(GridError::InvalidDimensions);
        }
        let mut cells: Vec<Vec<Cell>> = Vec::new();
        for r in 0..rows
            invariant
                cells@.len() == r,
                forall|i: int| #![trigger cells@[i]] 0 <= i < r ==> {
                    &&& cells@[i]@.len() == cols
                    &&& forall|j: int| 0 <= j < cols ==> cells@[i]@[j] == Cell::Dead
                },
        {
            let mut row: Vec<Cell> = Vec::new();
            for c in 0..cols
                invariant
                    row@.len() == c,
                    forall|j: int| 0 <= j < c ==> row@[j] == Cell::Dead,
            {
                row.push(Cell::Dead);
            }
            cells.push(row);
        }
        let b = Board { cells, rows, cols };
        proof {
            assert(b@ =~~= dead_grid(rows as int, cols as int));
        }
        Ok(b)
    }

    /// Whether the cell at the (in-range) coordinate is alive.
    fn alive(&self, r: usize, c: usize) -> (alive: bool)
        requires
            self.wf(),
            r < self.rows,
            c < self.cols,
        ensures
            alive == self@[r as int][c as int],
    {
        matches!(self.cells[r][c], Cell::Alive)
    }

    /// The current state of the cell at (row, col), or `OutOfBounds` if the
    /// coordinate lies outside `[0, rows) x [0, cols)`.
    pub fn state_at(&self, row: usize, col: usize) -> (result: Result<Cell, GridError>)
        requires
            self.wf(),
        ensures
            match result {
                Ok(cell) => {
                    &&& row < self.rows && col < self.cols
                    &&& (cell.is_alive() <==> self@[row as int][col as int])
                },
                Err(e) => e == GridError::OutOfBounds && (row >= self.rows || col >= self.cols),
            },
    {
        if row >= self.rows || col >= self.cols {
            return Err(GridError::OutOfBounds);
        }
        if self.alive(row, col) {
            Ok(Cell::Alive)
        } else {
            Ok(Cell::Dead)
        }
    }

    /// The number of alive cells among the 8 toroidal neighbors of (row, col);
    /// always between 0 and 8.
    pub fn count_alive_neighbors(&self, row: usize, col: usize) -> (count: usize)
        requires
            self.wf(),
            row < self.rows,
            col < self.cols,
        ensures
            count == neighbor_count(
                self@,
                self.rows as int,
                self.cols as int,
                row as int,
                col as int,
            ),
            count <= 8,
    {
        let up = if row == 0 { self.rows - 1 } else { row - 1 };
        let down = if row + 1 == self.rows { 0 } else { row + 1 };
        let left = if col == 0 { self.cols - 1 } else { col - 1 };
        let right = if col + 1 == self.cols { 0 } else { col + 1 };
        proof {
            lemma_wrap_values(row as int, self.rows as int);
            lemma_wrap_values(col as int, self.cols as int);
        }
        let mut count: usize = 0;
        if self.alive(up, left) {
            count += 1;
        }
        if self.alive(up, col) {
            count += 1;
        }
        if self.alive(up, right) {
            count += 1;
        }
        if self.alive(row, left) {
            count += 1;
        }
        if self.alive(row, right) {
            count += 1;
        }
        if self.alive(down, left) {
            count += 1;
        }
        if self.alive(down, col) {
            count += 1;
        }
        if self.alive(down, right) {
            count += 1;
        }
        count
    }

    /// Advance the board by one generation: every cell of the new state is
    /// the B3/S23 rule applied to the old state, computed entirely from the
    /// old state and replacing it atomically. Dimensions never change.
    pub fn next_tick(&mut self)
        requires
            old(self).wf(),
        ensures
            final(self).wf(),
            final(self).rows == old(self).rows,
            final(self).cols == old(self).cols,
            final(self)@ == step(old(self)@, old(self).rows as int, old(self).cols as int),
    {
        let rows = self.rows;
        let cols = self.cols;
        let ghost g = self@;
        let mut next: Vec<Vec<Cell>> = Vec::new();
        for x in 0..rows
            invariant
                *self == *old(self),
                self.wf(),
                rows == self.rows,
                cols == self.cols,
                g == self@,
                next@.len() == x,
                forall|r: int| #![trigger next@[r]] 0 <= r < x ==> {
                    &&& next@[r]@.len() == cols
                    &&& forall|c: int| 0 <= c < cols ==> next@[r]@[c].is_alive() == next_state(
                        g[r][c],
                        neighbor_count(g, rows as int, cols as int, r, c),
                    )
                },
        {
            let mut next_row: Vec<Cell> = Vec::new();
            for y in 0..cols
                invariant
                    *self == *old(self),
                    self.wf(),
                    rows == self.rows,
                    cols == self.cols,
                    g == self@,
                    x < rows,
                    next_row@.len() == y,
                    forall|c: int| 0 <= c < y ==> (#[trigger] next_row@[c]).is_alive()
                        == next_state(
                        g[x as int][c],
                        neighbor_count(g, rows as int, cols as int, x as int, c),
                    ),
            {
                let n = self.count_alive_neighbors(x, y);
                let was_alive = self.alive(x, y);
                let lives = if was_alive {
                    n == 2 || n == 3
                } else {
                    n == 3
                };
                next_row.push(if lives { Cell::Alive } else { Cell::Dead });
            }
            next.push(next_row);
        }
        self.cells = next;
        proof {
            assert(self@ =~~= step(g, rows as int, cols as int));
        }
    }

    /// A board built from explicit row data, `true` for an alive cell. Fails
    /// with `RaggedInput` if the rows differ in length, and with
    /// `InvalidDimensions` if there are no rows or the rows are empty.
    pub fn from_rows(cell_rows: &Vec<Vec<bool>>) -> (result: Result<Board, GridError>)
        ensures
            match result {
                Ok(b) => {
                    &&& cell_rows.deep_view().len() >= 1
                    &&& rect(cell_rows.deep_view())
                    &&& cell_rows.deep_view()[0].len() >= 1
                    &&& b.wf()
                    &&& b.rows == cell_rows@.len()
                    &&& b.cols == cell_rows@[0]@.len()
                    &&& b@ == cell_rows.deep_view()
                },
                Err(e) => {
                    &&& (e == GridError::RaggedInput <==> cell_rows@.len() >= 1 && !rect(
                        cell_rows.deep_view(),
                    ))
                    &&& (e == GridError::InvalidDimensions <==> cell_rows@.len() == 0 || (rect(
                        cell_rows.deep_view(),
                    ) && cell_rows.deep_view()[0].len() == 0))
                    &&& (e == GridError::RaggedInput || e == GridError::InvalidDimensions)
                },
            },
    {
        proof {
            assert(forall|i: int| 0 <= i < cell_rows@.len() ==> cell_rows.deep_view()[i]
                =~= (#[trigger] cell_rows@[i])@);
        }
        let n = cell_rows.len();
        if n == 0 {
            return Err(GridError::InvalidDimensions);
        }
        let m = cell_rows[0].len();
        for i in 0..n
            invariant
                n == cell_rows@.len(),
                m == cell_rows@[0]@.len(),
                forall|k: int| 0 <= k < i ==> (#[trigger] cell_rows@[k])@.len() == m,
                forall|k: int| 0 <= k < cell_rows@.len() ==> cell_rows.deep_view()[k]
                    =~= (#[trigger] cell_rows@[k])@,
        {
            if cell_rows[i].len() != m {
                return Err(GridError::RaggedInput);
            }
        }
        if m == 0 {
            return Err(GridError::InvalidDimensions);
        }
        let mut cells: Vec<Vec<Cell>> = Vec::new();
        for i in 0..n
            invariant
                n == cell_rows@.len(),
                m == cell_rows@[0]@.len(),
                m >= 1,
                forall|k: int| 0 <= k < n ==> (#[trigger] cell_rows@[k])@.len() == m,
                cells@.len() == i,
                forall|k: int| #![trigger cells@[k]] 0 <= k < i ==> {
                    &&& cells@[k]@.len() == m
                    &&& forall|j: int| 0 <= j < m ==> cells@[k]@[j].is_alive() == cell_rows@[k]@[j]
                },
        {
            let source = &cell_rows[i];
            let mut row: Vec<Cell> = Vec::new();
            for j in 0..m
                invariant
                    source@.len() == m,
                    row@.len() == j,
                    forall|t: int| 0 <= t < j ==> (#[trigger] row@[t]).is_alive() == source@[t],
            {
                row.push(if source[j] { Cell::Alive } else { Cell::Dead });
            }
            cells.push(row);
        }
        let b = Board { cells, rows: n, cols: m };
        proof {
            assert(b@ =~~= cell_rows.deep_view());
        }
        Ok(b)
    }

    /// Every cell with its coordinates, in row-major order: entry
    /// `i` is `((i / cols, i % cols), state of that cell)`.
    pub fn iter_cells(&self) -> (result: Vec<((usize, usize), Cell)>)
        requires
            self.wf(),
        ensures
            result@.len() == self.rows * self.cols,
            forall|i: int| #![trigger result@[i]] 0 <= i < result@.len() ==> {
                &&& result@[i].0.0 == i / (self.cols as int)
                &&& result@[i].0.1 == i % (self.cols as int)
                &&& result@[i].1.is_alive() == self@[i / (self.cols as int)][i % (self.cols as int)]
            },
    {
        let rows = self.rows;
        let cols = self.cols;
        let mut result: Vec<((usize, usize), Cell)> = Vec::new();
        proof {
            assert(0 * cols == 0) by (nonlinear_arith);
        }
        for x in 0..rows
            invariant
                self.wf(),
                rows == self.rows,
                cols == self.cols,
                result@.len() == x * cols,
                x <= rows,
                forall|i: int| #![trigger result@[i]] 0 <= i < result@.len() ==> {
                    &&& result@[i].0.0 == i / (cols as int)
                    &&& result@[i].0.1 == i % (cols as int)
                    &&& result@[i].1.is_alive() == self@[i / (cols as int)][i % (cols as int)]
                },
        {
            for y in 0..cols
                invariant
                    self.wf(),
                    rows == self.rows,
                    cols == self.cols,
                    x < rows,
                    result@.len() == x * cols + y,
                    forall|i: int| #![trigger result@[i]] 0 <= i < result@.len() ==> {
                        &&& result@[i].0.0 == i / (cols as int)
                        &&& result@[i].0.1 == i % (cols as int)
                        &&& result@[i].1.is_alive() == self@[i / (cols as int)][i % (cols as int)]
                    },
            {
                proof {
                    vstd::arithmetic::div_mod::lemma_fundamental_div_mod_converse(
                        x * cols + y,
                        cols as int,
                        x as int,
                        y as int,
                    );
                }
                let state = if self.alive(x, y) {
                    Cell::Alive
                } else {
                    Cell::Dead
                };
                result.push(((x, y), state));
            }
            proof {
                assert(x * cols + cols == (x + 1) * cols) by (nonlinear_arith);
            }
        }
        result
    }
}

} // verus!
