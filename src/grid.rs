//! The grid engine: a rectangular board of cells, neighbor lists clamped at
//! the edges, and generations computed from a snapshot of the previous one.

use vstd::prelude::*;
use crate::rule::{conway, lemma_count_at_most_len, lemma_count_push, live_count, survives};

verus! {

/// The eight offsets around a cell, column offset first, in the order in
/// which a neighborhood lists them.
pub open spec fn offsets() -> Seq<(int, int)> {
    seq![(-1, -1), (-1, 0), (-1, 1), (0, -1), (0, 1), (1, -1), (1, 0), (1, 1)]
}

/// The mathematical model of a grid: its dimensions and its cells in
/// row-major order.
pub struct Board {
    pub cols: nat,
    pub rows: nat,
    pub cells: Seq<bool>,
}

impl Board {
    pub open spec fn wf(self) -> bool {
        self.cells.len() == self.cols * self.rows
    }

    pub open spec fn in_bounds(self, c: int, r: int) -> bool {
        0 <= c < self.cols && 0 <= r < self.rows
    }

    pub open spec fn alive(self, c: int, r: int) -> bool {
        self.cells[r * self.cols + c]
    }

    /// The 3x3 block around `(col, row)` without its center, in neighborhood order.
    pub open spec fn window(col: int, row: int) -> Seq<(int, int)> {
        offsets().map_values(|d: (int, int)| (col + d.0, row + d.1))
    }

    pub open spec fn inside(self) -> spec_fn((int, int)) -> bool {
        |p: (int, int)| self.in_bounds(p.0, p.1)
    }

    pub open spec fn liveness(self) -> spec_fn((int, int)) -> bool {
        |p: (int, int)| self.alive(p.0, p.1)
    }

    /// The coordinates of the neighbors of `(col, row)` that lie on the board;
    /// nothing wraps around an edge.
    pub open spec fn candidates(self, col: int, row: int) -> Seq<(int, int)> {
        Self::window(col, row).filter(self.inside())
    }

    /// The liveness of each neighbor of `(col, row)` that lies on the board.
    pub open spec fn neighbors(self, col: int, row: int) -> Seq<bool> {
        self.candidates(col, row).map_values(self.liveness())
    }

    /// The next generation under the classic survival rule.
    pub open spec fn life(self) -> Board {
        Board {
            cols: self.cols,
            rows: self.rows,
            cells: Seq::new(
                self.cells.len(),
                |i: int|
                    conway(
                        self.alive(i % self.cols as int, i / self.cols as int),
                        self.neighbors(i % self.cols as int, i / self.cols as int),
                    ),
            ),
        }
    }
}

/// Every index of a board stands for one cell.
proof fn lemma_index_split(i: int, cols: int, rows: int)
    requires
        0 <= cols,
        0 <= rows,
        0 <= i < cols * rows,
    ensures
        0 <= i % cols < cols,
        0 <= i / cols < rows,
        (i / cols) * cols + i % cols == i,
{
    if cols == 0 {
        assert(cols * rows == 0);
    }
    vstd::arithmetic::div_mod::lemma_fundamental_div_mod(i, cols);
    vstd::arithmetic::div_mod::lemma_mod_bound(i, cols);
    let r = i / cols;
    assert(0 <= r) by (nonlinear_arith)
        requires i == cols * r + i % cols, 0 <= i % cols < cols, 0 <= i;
    assert(r < rows) by (nonlinear_arith)
        requires i == cols * r + i % cols, 0 <= i % cols, i < cols * rows, cols > 0;
    assert(cols * r == r * cols) by (nonlinear_arith);
}

proof fn lemma_cell_index(c: int, r: int, cols: int, rows: int)
    requires
        0 <= c < cols,
        0 <= r < rows,
    ensures
        0 <= r * cols <= r * cols + c < cols * rows,
{
    assert(r * cols + c < (r + 1) * cols) by (nonlinear_arith)
        requires 0 <= c < cols;
    assert((r + 1) * cols <= rows * cols) by (nonlinear_arith)
        requires r + 1 <= rows, 0 <= cols;
    assert(0 <= r * cols) by (nonlinear_arith)
        requires 0 <= r, 0 <= cols;
}

proof fn lemma_cell_before(c: int, r: int, col: int, row: int, cols: int)
    requires
        0 <= c < cols,
        0 <= r,
        0 <= col <= cols,
        r < row || (r == row && c < col),
    ensures
        r * cols + c < row * cols + col,
{
    if r < row {
        assert(r * cols + c < (r + 1) * cols) by (nonlinear_arith)
            requires 0 <= c < cols;
        assert((r + 1) * cols <= row * cols) by (nonlinear_arith)
            requires r + 1 <= row, 0 <= cols;
    }
}

/// `v` is what `rule` returns for a cell in state `alive` whose neighbors
/// are `neighbors`.
pub open spec fn rule_decides<F: Fn(bool, Vec<bool>) -> bool>(
    rule: F,
    alive: bool,
    neighbors: Seq<bool>,
    v: bool,
) -> bool {
    exists|n: Vec<bool>| n@ == neighbors && call_ensures(rule, (alive, n), v)
}

/// The number of positions within one step of `x` on an axis of length `n`,
/// `x` included.
pub open spec fn span(x: int, n: int) -> int {
    (if x > 0 { 1int } else { 0int }) + 1 + (if x + 1 < n { 1int } else { 0int })
}

/// A cell has as many neighbors as the 3x3 block around it has cells on the
/// board, less itself: the block is cut at the edges, never wrapped.
pub proof fn lemma_neighbor_count(b: Board, col: int, row: int)
    requires
        b.in_bounds(col, row),
    ensures
        b.neighbors(col, row).len() == span(col, b.cols as int) * span(row, b.rows as int) - 1,
{
    let w = Board::window(col, row);
    let f = b.inside();
    assert(w.take(0).filter(f) =~= Seq::<(int, int)>::empty()) by {
        reveal(Seq::filter);
    }
    lemma_filter_step(w, f, 0);
    lemma_filter_step(w, f, 1);
    lemma_filter_step(w, f, 2);
    lemma_filter_step(w, f, 3);
    lemma_filter_step(w, f, 4);
    lemma_filter_step(w, f, 5);
    lemma_filter_step(w, f, 6);
    lemma_filter_step(w, f, 7);
    assert(w.take(8) =~= w);
    let cl = col > 0;
    let cr = col + 1 < b.cols;
    let rl = row > 0;
    let rr = row + 1 < b.rows;
    assert(f(w[0]) == (cl && rl));
    assert(f(w[1]) == cl);
    assert(f(w[2]) == (cl && rr));
    assert(f(w[3]) == rl);
    assert(f(w[4]) == rr);
    assert(f(w[5]) == (cr && rl));
    assert(f(w[6]) == cr);
    assert(f(w[7]) == (cr && rr));
    let sc = span(col, b.cols as int);
    let sr = span(row, b.rows as int);
    assert(sc * sr - 1 == sc * (if rl { 1int } else { 0int }) + sc * (if rr { 1int } else { 0int }) + sc - 1)
        by (nonlinear_arith)
        requires sr == (if rl { 1int } else { 0int }) + 1 + (if rr { 1int } else { 0int });
}

/// No cell has more than eight neighbors, nor more live neighbors than
/// neighbors. On a board of at least two columns and two rows, a corner cell
/// has three neighbors, any other cell on an edge five, an interior cell eight.
pub proof fn lemma_neighbor_bounds(b: Board, col: int, row: int)
    requires
        b.in_bounds(col, row),
    ensures
        live_count(b.neighbors(col, row)) <= b.neighbors(col, row).len() <= 8,
        b.cols >= 2 && b.rows >= 2 ==> {
            let edge_col = col == 0 || col == b.cols - 1;
            let edge_row = row == 0 || row == b.rows - 1;
            let n = b.neighbors(col, row).len();
            &&& edge_col && edge_row ==> n == 3
            &&& edge_col != edge_row ==> n == 5
            &&& !edge_col && !edge_row ==> n == 8
        },
{
    lemma_neighbor_count(b, col, row);
    lemma_count_at_most_len(b.neighbors(col, row), true);
    let sc = span(col, b.cols as int);
    let sr = span(row, b.rows as int);
    lemma_span_product(sc, sr);
}

/// On a board of one column or one row nothing wraps: a lone cell has no
/// neighbor, each end of a line one, every other cell of the line two.
pub proof fn lemma_line_neighbors(b: Board, col: int, row: int)
    requires
        b.in_bounds(col, row),
        b.cols == 1 || b.rows == 1,
    ensures
        b.cols == 1 && b.rows == 1 ==> b.neighbors(col, row).len() == 0,
        b.cols == 1 && b.rows >= 2 ==> b.neighbors(col, row).len() == if row == 0 || row == b.rows - 1 {
            1int
        } else {
            2int
        },
        b.rows == 1 && b.cols >= 2 ==> b.neighbors(col, row).len() == if col == 0 || col == b.cols - 1 {
            1int
        } else {
            2int
        },
{
    lemma_neighbor_count(b, col, row);
    lemma_span_product(span(col, b.cols as int), span(row, b.rows as int));
}

/// The liveness of `p` as a one-element sequence if `p` is on the board,
/// else nothing.
pub open spec fn pick(b: Board, p: (int, int)) -> Seq<bool> {
    if b.in_bounds(p.0, p.1) { seq![b.alive(p.0, p.1)] } else { Seq::empty() }
}

/// The neighbors of a cell written out: each of the eight positions around
/// it, column offset first, contributes its liveness if it lies on the board.
pub open spec fn neighbors_listed(b: Board, col: int, row: int) -> Seq<bool> {
    pick(b, (col - 1, row - 1)) + pick(b, (col - 1, row)) + pick(b, (col - 1, row + 1))
        + pick(b, (col, row - 1)) + pick(b, (col, row + 1))
        + pick(b, (col + 1, row - 1)) + pick(b, (col + 1, row)) + pick(b, (col + 1, row + 1))
}

proof fn lemma_listed_step(b: Board, col: int, row: int, k: int)
    requires
        0 <= k < 8,
    ensures
        Board::window(col, row).take(k + 1).filter(b.inside()).map_values(b.liveness())
            == Board::window(col, row).take(k).filter(b.inside()).map_values(b.liveness())
            + pick(b, Board::window(col, row)[k]),
{
    let w = Board::window(col, row);
    let f = b.inside();
    let g = b.liveness();
    let p = w[k];
    reveal(Seq::filter);
    assert(w.take(k + 1).drop_last() =~= w.take(k));
    assert(w.take(k + 1).last() == p);
    let prev = w.take(k).filter(f);
    if f(p) {
        assert(prev.push(p).map_values(g) =~= prev.map_values(g) + pick(b, p));
    } else {
        assert(prev.map_values(g) =~= prev.map_values(g) + pick(b, p));
    }
}

/// The neighbors of a cell are those that `neighbors_listed` writes out.
pub proof fn lemma_neighbors_listed(b: Board, col: int, row: int)
    ensures
        b.neighbors(col, row) == neighbors_listed(b, col, row),
{
    let w = Board::window(col, row);
    let f = b.inside();
    let g = b.liveness();
    assert(w.take(0).filter(f).map_values(g) =~= Seq::<bool>::empty()) by {
        reveal(Seq::filter);
    }
    lemma_listed_step(b, col, row, 0);
    lemma_listed_step(b, col, row, 1);
    lemma_listed_step(b, col, row, 2);
    lemma_listed_step(b, col, row, 3);
    lemma_listed_step(b, col, row, 4);
    lemma_listed_step(b, col, row, 5);
    lemma_listed_step(b, col, row, 6);
    lemma_listed_step(b, col, row, 7);
    assert(w.take(8) =~= w);
    let e = Seq::<bool>::empty();
    assert(b.neighbors(col, row) =~= neighbors_listed(b, col, row)) by {
        assert(e + pick(b, w[0]) =~= pick(b, w[0]));
    }
}

/// One for a live cell at `p` on the board, zero otherwise.
pub open spec fn live_at(b: Board, p: (int, int)) -> int {
    if b.in_bounds(p.0, p.1) && b.alive(p.0, p.1) { 1 } else { 0 }
}

proof fn lemma_live_step(b: Board, col: int, row: int, k: int)
    requires
        0 <= k < 8,
    ensures
        live_count(Board::window(col, row).take(k + 1).filter(b.inside()).map_values(b.liveness()))
            == live_count(Board::window(col, row).take(k).filter(b.inside()).map_values(b.liveness()))
            + live_at(b, Board::window(col, row)[k]),
{
    let w = Board::window(col, row);
    let f = b.inside();
    let g = b.liveness();
    let p = w[k];
    reveal(Seq::filter);
    assert(w.take(k + 1).drop_last() =~= w.take(k));
    assert(w.take(k + 1).last() == p);
    let prev = w.take(k).filter(f);
    if f(p) {
        assert(prev.push(p).map_values(g) =~= prev.map_values(g).push(g(p)));
        lemma_count_push(prev.map_values(g), g(p), true);
    }
}

/// The live neighbors of a cell are the live cells of the board among the
/// eight around it.
pub proof fn lemma_live_neighbors(b: Board, col: int, row: int)
    ensures
        live_count(b.neighbors(col, row)) == live_at(b, (col - 1, row - 1)) + live_at(b, (col - 1, row))
            + live_at(b, (col - 1, row + 1)) + live_at(b, (col, row - 1)) + live_at(b, (col, row + 1))
            + live_at(b, (col + 1, row - 1)) + live_at(b, (col + 1, row)) + live_at(b, (col + 1, row + 1)),
{
    let w = Board::window(col, row);
    assert(w.take(0).filter(b.inside()).map_values(b.liveness()) =~= Seq::<bool>::empty()) by {
        reveal(Seq::filter);
    }
    reveal(Seq::filter);
    lemma_live_step(b, col, row, 0);
    lemma_live_step(b, col, row, 1);
    lemma_live_step(b, col, row, 2);
    lemma_live_step(b, col, row, 3);
    lemma_live_step(b, col, row, 4);
    lemma_live_step(b, col, row, 5);
    lemma_live_step(b, col, row, 6);
    lemma_live_step(b, col, row, 7);
    assert(w.take(8) =~= w);
}

/// A 2x2 block of live cells clear of every edge, on a board where every
/// other cell is dead, is its own next generation.
pub proof fn lemma_block_still_life(b: Board, col: int, row: int)
    requires
        b.wf(),
        1 <= col,
        col + 3 <= b.cols,
        1 <= row,
        row + 3 <= b.rows,
        forall|c: int, r: int|
            b.in_bounds(c, r) ==> #[trigger] b.alive(c, r) == (col <= c <= col + 1 && row <= r <= row + 1),
    ensures
        b.life() == b,
{
    let l = b.life();
    assert forall|i: int| 0 <= i < b.cells.len() implies l.cells[i] == b.cells[i] by {
        lemma_index_split(i, b.cols as int, b.rows as int);
        let c = i % b.cols as int;
        let r = i / b.cols as int;
        lemma_live_neighbors(b, c, r);
        assert(b.alive(c, r) == b.cells[i]);
    }
    assert(l.cells =~= b.cells);
}

/// In the next generation each cell of the board is what the survival rule
/// decides from its state and its neighbors in the current one, counting as
/// live neighbors only the live cells on the board among the eight around it.
pub proof fn lemma_life_cell(b: Board, col: int, row: int)
    requires
        b.wf(),
        b.in_bounds(col, row),
    ensures
        b.life().wf(),
        b.life().cols == b.cols,
        b.life().rows == b.rows,
        b.life().alive(col, row) == conway(b.alive(col, row), b.neighbors(col, row)),
        live_count(b.neighbors(col, row)) == live_at(b, (col - 1, row - 1)) + live_at(b, (col - 1, row))
            + live_at(b, (col - 1, row + 1)) + live_at(b, (col, row - 1)) + live_at(b, (col, row + 1))
            + live_at(b, (col + 1, row - 1)) + live_at(b, (col + 1, row)) + live_at(b, (col + 1, row + 1)),
{
    lemma_live_neighbors(b, col, row);
    let cols = b.cols as int;
    let i = row * cols + col;
    lemma_cell_index(col, row, cols, b.rows as int);
    lemma_index_split(i, cols, b.rows as int);
    let c = i % cols;
    let r = i / cols;
    if r < row || (r == row && c < col) {
        lemma_cell_before(c, r, col, row, cols);
    } else if row < r || (r == row && col < c) {
        lemma_cell_before(col, row, c, r, cols);
    }
    assert(c == col && r == row);
}

proof fn lemma_span_product(a: int, b: int)
    requires
        1 <= a <= 3,
        1 <= b <= 3,
    ensures
        a == 1 ==> a * b == b,
        a == 2 ==> a * b == 2 * b,
        a == 3 ==> a * b == 3 * b,
{
    if a == 2 {
        assert(a * b == 2 * b) by (nonlinear_arith)
            requires a == 2;
    } else if a == 3 {
        assert(a * b == 3 * b) by (nonlinear_arith)
            requires a == 3;
    } else if a == 1 {
        assert(a * b == b) by (nonlinear_arith)
            requires a == 1;
    }
}

/// Filtering one more element of a sequence adds it or not, by the predicate.
proof fn lemma_filter_step<A>(s: Seq<A>, f: spec_fn(A) -> bool, k: int)
    requires
        0 <= k < s.len(),
    ensures
        s.take(k + 1).filter(f).len() == s.take(k).filter(f).len() + (if f(s[k]) { 1int } else { 0int }),
{
    reveal(Seq::filter);
    assert(s.take(k + 1).drop_last() =~= s.take(k));
}

/// Relies on rand::random::<bool>: a fresh boolean from the thread's random
/// generator; nothing is promised of its value.
#[verifier::external_body]
fn coin() -> bool {
    rand::random::<bool>()
}

/// The offset with index `k`, each component raised by one.
fn delta(k: usize) -> (d: (usize, usize))
    requires
        k < 8,
    ensures
        d.0 <= 2,
        d.1 <= 2,
        d.0 - 1 == offsets()[k as int].0,
        d.1 - 1 == offsets()[k as int].1,
{
    match k {
        0 => (0, 0),
        1 => (0, 1),
        2 => (0, 2),
        3 => (1, 0),
        4 => (1, 2),
        5 => (2, 0),
        6 => (2, 1),
        _ => (2, 2),
    }
}

/// A rectangular grid of live and dead cells.
pub struct Grid {
    cols: usize,
    rows: usize,
    cells: Vec<bool>,
}

impl View for Grid {
    type V = Board;

    closed spec fn view(&self) -> Board {
        Board { cols: self.cols as nat, rows: self.rows as nat, cells: self.cells@ }
    }
}

impl Grid {
    /// The cells fill the grid exactly, and their number fits a `usize`.
    pub open spec fn wf(&self) -> bool {
        &&& self@.wf()
        &&& self@.cols * self@.rows <= usize::MAX
    }

    /// A grid of `cols` columns and `rows` rows, every cell dead.
    pub fn new(cols: usize, rows: usize) -> (g: Grid)
        requires
            cols * rows <= usize::MAX,
        ensures
            g.wf(),
            g@.cols == cols,
            g@.rows == rows,
            forall|c: int, r: int| g@.in_bounds(c, r) ==> !g@.alive(c, r),
    {
        let n: usize = cols * rows;
        let g = Grid { cols, rows, cells: vec![false; n] };
        proof {
            assert forall|c: int, r: int| g@.in_bounds(c, r) implies !#[trigger] g@.alive(c, r) by {
                lemma_cell_index(c, r, cols as int, rows as int);
            }
        }
        g
    }

    pub fn cols(&self) -> (r: usize)
        ensures
            r == self@.cols,
    {
        self.cols
    }

    pub fn rows(&self) -> (r: usize)
        ensures
            r == self@.rows,
    {
        self.rows
    }

    /// Makes the cell at `(col, row)` live or dead.
    pub fn set_alive(&mut self, col: usize, row: usize, alive: bool)
        requires
            old(self).wf(),
            old(self)@.in_bounds(col as int, row as int),
        ensures
            final(self).wf(),
            final(self)@.cols == old(self)@.cols,
            final(self)@.rows == old(self)@.rows,
            final(self)@.cells == old(self)@.cells.update(row * old(self)@.cols + col, alive),
            final(self)@.alive(col as int, row as int) == alive,
            forall|c: int, r: int|
                old(self)@.in_bounds(c, r) && (c != col || r != row) ==> #[trigger] final(self)@.alive(c, r)
                    == old(self)@.alive(c, r),
    {
        proof {
            lemma_cell_index(col as int, row as int, self.cols as int, self.rows as int);
        }
        let i = row * self.cols + col;
        self.cells.set(i, alive);
        proof {
            let cols = self.cols as int;
            assert forall|c: int, r: int|
                self@.in_bounds(c, r) && (c != col || r != row) implies #[trigger] self@.alive(c, r)
                    == old(self)@.alive(c, r) by {
                lemma_cell_index(c, r, cols, self.rows as int);
                if r < row || (r == row && c < col) {
                    lemma_cell_before(c, r, col as int, row as int, cols);
                } else {
                    lemma_cell_before(col as int, row as int, c, r, cols);
                }
            }
        }
    }

    /// Whether the cell at `(col, row)` is alive.
    pub fn is_alive(&self, col: usize, row: usize) -> (r: bool)
        requires
            self.wf(),
            self@.in_bounds(col as int, row as int),
        ensures
            r == self@.alive(col as int, row as int),
    {
        proof {
            lemma_cell_index(col as int, row as int, self.cols as int, self.rows as int);
        }
        self.cells[row * self.cols + col]
    }

    /// Lists the liveness of each neighbor of `(col, row)` that lies on the
    /// grid: eight in the interior, five on an edge, three in a corner.
    pub fn neighbors(&self, col: usize, row: usize) -> (n: Vec<bool>)
        requires
            self.wf(),
            self@.in_bounds(col as int, row as int),
        ensures
            n@ == self@.neighbors(col as int, row as int),
            n@ == neighbors_listed(self@, col as int, row as int),
    {
        let ghost b = self@;
        let ghost w = Board::window(col as int, row as int);
        let mut n: Vec<bool> = Vec::new();
        let mut k: usize = 0;
        while k < 8
            invariant
                self.wf(),
                b == self@,
                w == Board::window(col as int, row as int),
                self@.in_bounds(col as int, row as int),
                k <= 8,
                n@ == w.take(k as int).filter(b.inside()).map_values(b.liveness()),
            decreases 8 - k,
        {
            let (dc, dr) = delta(k);
            let c_ok = !(dc == 0 && col == 0) && !(dc == 2 && col + 1 >= self.cols);
            let r_ok = !(dr == 0 && row == 0) && !(dr == 2 && row + 1 >= self.rows);
            proof {
                reveal(Seq::filter);
                assert(w.take(k + 1).drop_last() =~= w.take(k as int));
                assert(w.take(k + 1).last() == (col + dc - 1, row + dr - 1));
                assert(b.inside()((col + dc - 1, row + dr - 1)) == (c_ok && r_ok));
            }
            if c_ok && r_ok {
                let c = col + dc - 1;
                let r = row + dr - 1;
                proof {
                    lemma_cell_index(c as int, r as int, self.cols as int, self.rows as int);
                    let f = w.take(k as int).filter(b.inside());
                    assert(f.push((c as int, r as int)).map_values(b.liveness())
                        =~= f.map_values(b.liveness()).push(b.alive(c as int, r as int)));
                }
                n.push(self.cells[r * self.cols + c]);
            }
            k = k + 1;
        }
        proof {
            assert(w.take(8) =~= w);
            w.lemma_filter_len(b.inside());
            lemma_neighbors_listed(b, col as int, row as int);
        }
        n
    }

    /// Replaces the grid by the next generation that `rule` decides: the
    /// new state of each cell is `rule` applied to its current state and to
    /// its neighbors, all read from the current generation.
    pub fn fill<F: Fn(bool, Vec<bool>) -> bool>(&mut self, rule: F)
        requires
            old(self).wf(),
            forall|alive: bool, n: Vec<bool>| n.len() <= 8 ==> #[trigger] rule.requires((alive, n)),
        ensures
            final(self).wf(),
            final(self)@.cols == old(self)@.cols,
            final(self)@.rows == old(self)@.rows,
            forall|c: int, r: int|
                #![trigger final(self)@.alive(c, r)]
                old(self)@.in_bounds(c, r) ==> rule_decides(
                    rule,
                    old(self)@.alive(c, r),
                    old(self)@.neighbors(c, r),
                    final(self)@.alive(c, r),
                ),
    {
        let ghost b = self@;
        let cols = self.cols;
        let rows = self.rows;
        let mut next: Vec<bool> = Vec::new();
        let mut row: usize = 0;
        while row < rows
            invariant
                self.wf(),
                b == self@,
                cols == b.cols,
                rows == b.rows,
                forall|alive: bool, n: Vec<bool>| n.len() <= 8 ==> #[trigger] rule.requires((alive, n)),
                row <= rows,
                next@.len() == row * cols,
                forall|c: int, r: int|
                    #![trigger b.neighbors(c, r)]
                    0 <= c < cols && 0 <= r < row ==> rule_decides(
                        rule,
                        b.alive(c, r),
                        b.neighbors(c, r),
                        next@[r * cols + c],
                    ),
            decreases rows - row,
        {
            let mut col: usize = 0;
            while col < cols
                invariant
                    self.wf(),
                    b == self@,
                    cols == b.cols,
                    rows == b.rows,
                    forall|alive: bool, n: Vec<bool>| n.len() <= 8 ==> #[trigger] rule.requires((alive, n)),
                    row < rows,
                    col <= cols,
                    next@.len() == row * cols + col,
                    forall|c: int, r: int|
                        #![trigger b.neighbors(c, r)]
                        0 <= c < cols && 0 <= r && (r < row || (r == row && c < col)) ==> rule_decides(
                            rule,
                            b.alive(c, r),
                            b.neighbors(c, r),
                            next@[r * cols + c],
                        ),
                decreases cols - col,
            {
                let n = self.neighbors(col, row);
                let alive = self.is_alive(col, row);
                let v = rule(alive, n);
                let ghost prev = next@;
                next.push(v);
                proof {
                    assert(rule_decides(rule, b.alive(col as int, row as int), b.neighbors(col as int, row as int), v));
                    assert forall|c: int, r: int|
                        0 <= c < cols && 0 <= r && (r < row || (r == row && c < col + 1)) implies
                        #[trigger] rule_decides(
                            rule,
                            b.alive(c, r),
                            b.neighbors(c, r),
                            next@[r * cols + c],
                        ) by {
                        if r == row && c == col {
                        } else {
                            lemma_cell_before(c, r, col as int, row as int, cols as int);
                            assert(next@[r * cols + c] == prev[r * cols + c]);
                        }
                    }
                }
                col = col + 1;
            }
            proof {
                assert((row + 1) * cols == row * cols + cols) by (nonlinear_arith);
            }
            row = row + 1;
        }
        proof {
            assert(rows * cols == cols * rows) by (nonlinear_arith);
        }
        self.cells = next;
    }

    /// Advances the grid by one generation of the classic survival rule.
    pub fn step(&mut self)
        requires
            old(self).wf(),
        ensures
            final(self).wf(),
            final(self)@ == old(self)@.life(),
    {
        let ghost b = self@;
        let rule = |alive: bool, n: Vec<bool>| -> (r: bool)
            requires
                n.len() <= 8,
            ensures
                r == conway(alive, n@),
            { survives(alive, n) };
        self.fill(rule);
        proof {
            let l = b.life();
            assert forall|i: int| 0 <= i < self@.cells.len() implies self@.cells[i] == l.cells[i] by {
                lemma_index_split(i, b.cols as int, b.rows as int);
                let c = i % b.cols as int;
                let r = i / b.cols as int;
                assert(self@.alive(c, r) == self@.cells[i]);
                let n = choose|n: Vec<bool>|
                    n@ == b.neighbors(c, r) && call_ensures(rule, (b.alive(c, r), n), self@.alive(c, r));
            }
            assert(self@.cells =~= l.cells);
        }
    }

    /// Gives every cell a fresh random state, independently of the current
    /// generation.
    pub fn randomize(&mut self)
        requires
            old(self).wf(),
        ensures
            final(self).wf(),
            final(self)@.cols == old(self)@.cols,
            final(self)@.rows == old(self)@.rows,
    {
        self.fill(|_alive: bool, _n: Vec<bool>| coin());
    }
}

} // verus!
