use vstd::prelude::*;

verus! {

/// The number of discrete moves: up, down, left, right.
pub const ACTIONS: usize = 4;

/// The largest side length that a grid may have: four values per cell must
/// still be indexable with a 32-bit `usize`.
pub const MAX_SIDE: usize = 16384;

/// A cell of the grid, by row and column.
#[derive(Clone, Copy, Debug, PartialEq, Eq, Structural, Hash)]
pub struct Cell {
    pub row: usize,
    pub col: usize,
}

/// The dimensions of a grid, fixed for a run.
#[derive(Clone, Copy, Debug, PartialEq, Eq, Structural)]
pub struct Grid {
    pub height: usize,
    pub width: usize,
}

/// The row and column change of an action; anything but the four moves stays put.
pub open spec fn delta(a: int) -> (int, int) {
    if a == 0 {
        (-1, 0)
    } else if a == 1 {
        (1, 0)
    } else if a == 2 {
        (0, -1)
    } else if a == 3 {
        (0, 1)
    } else {
        (0, 0)
    }
}

/// `v` held to the range `0..=hi`.
pub open spec fn clamp(v: int, hi: int) -> int {
    if v < 0 {
        0
    } else if v > hi {
        hi
    } else {
        v
    }
}

impl Grid {
    pub open spec fn wf(self) -> bool {
        1 <= self.height <= MAX_SIDE && 1 <= self.width <= MAX_SIDE
    }

    /// The number of cells.
    pub open spec fn cells(self) -> nat {
        (self.height * self.width) as nat
    }

    pub open spec fn contains(self, c: Cell) -> bool {
        c.row < self.height && c.col < self.width
    }

    /// The position of a cell in row-major order.
    pub open spec fn index(self, c: Cell) -> int {
        c.row * self.width + c.col
    }

    /// The cell at a row-major position.
    pub open spec fn cell_at(self, i: int) -> Cell {
        Cell { row: (i / self.width as int) as usize, col: (i % self.width as int) as usize }
    }

    /// The cell reached from `c` by action `a`, each axis clamped to the grid.
    pub open spec fn step(self, c: Cell, a: int) -> Cell {
        Cell {
            row: clamp(c.row + delta(a).0, self.height - 1) as usize,
            col: clamp(c.col + delta(a).1, self.width - 1) as usize,
        }
    }

    /// Manhattan distance between two cells.
    pub open spec fn distance(self, a: Cell, b: Cell) -> int {
        (if a.row >= b.row { a.row - b.row } else { b.row - a.row }) + (if a.col >= b.col {
            a.col - b.col
        } else {
            b.col - a.col
        })
    }

    /// The number of cells, `height * width`.
    pub fn cell_count(&self) -> (r: usize)
        requires
            self.wf(),
        ensures
            r == self.cells(),
            r <= MAX_SIDE * MAX_SIDE,
    {
        proof {
            lemma_cells_bound(*self);
        }
        self.height * self.width
    }

    /// The row-major position of a cell of the grid.
    pub fn index_of(&self, c: Cell) -> (r: usize)
        requires
            self.wf(),
            self.contains(c),
        ensures
            r == self.index(c),
            r < self.cells(),
    {
        proof {
            lemma_index_bounds(*self, c);
            lemma_cells_bound(*self);
            assert(c.row * self.width <= self.index(c));
        }
        c.row * self.width + c.col
    }
}

pub proof fn lemma_cells_bound(g: Grid)
    requires
        g.wf(),
    ensures
        g.cells() <= MAX_SIDE * MAX_SIDE,
        g.cells() >= 1,
{
    assert(g.height * g.width <= MAX_SIDE * MAX_SIDE) by (nonlinear_arith)
        requires
            1 <= g.height <= MAX_SIDE,
            1 <= g.width <= MAX_SIDE,
    ;
    assert(g.height * g.width >= 1) by (nonlinear_arith)
        requires
            1 <= g.height,
            1 <= g.width,
    ;
}

/// A cell's row-major position lies below the cell count and gives the cell back.
pub proof fn lemma_index_bounds(g: Grid, c: Cell)
    requires
        g.wf(),
        g.contains(c),
    ensures
        0 <= g.index(c) < g.cells(),
        g.cell_at(g.index(c)) == c,
{
    lemma_cells_bound(g);
    let w = g.width as int;
    let r = c.row as int;
    let k = c.col as int;
    assert(r * w + k < g.height * w) by (nonlinear_arith)
        requires
            0 <= k < w,
            0 <= r < g.height,
    ;
    assert(0 <= r * w) by (nonlinear_arith)
        requires
            0 <= r,
            0 <= w,
    ;
    vstd::arithmetic::div_mod::lemma_fundamental_div_mod_converse(r * w + k, w, r, k);
}

/// Distinct cells of the grid have distinct positions.
pub proof fn lemma_index_injective(g: Grid, a: Cell, b: Cell)
    requires
        g.wf(),
        g.contains(a),
        g.contains(b),
        g.index(a) == g.index(b),
    ensures
        a == b,
{
    lemma_index_bounds(g, a);
    lemma_index_bounds(g, b);
}

/// The row and column change of each of the four moves.
pub fn action_to_delta(a: usize) -> (r: (isize, isize))
    ensures
        r.0 == delta(a as int).0,
        r.1 == delta(a as int).1,
{
    match a {
        0 => (-1, 0),
        1 => (1, 0),
        2 => (0, -1),
        3 => (0, 1),
        _ => (0, 0),
    }
}

/// The cell at `(x, y)` with each coordinate held to the grid's bounds.
pub fn clamp_pos(g: &Grid, x: isize, y: isize) -> (r: Cell)
    requires
        1 <= g.height <= isize::MAX,
        1 <= g.width <= isize::MAX,
    ensures
        r.row == clamp(x as int, g.height - 1),
        r.col == clamp(y as int, g.width - 1),
        g.contains(r),
{
    let hi_r = (g.height - 1) as isize;
    let hi_c = (g.width - 1) as isize;
    let nx: isize = if x < 0 {
        0
    } else if x > hi_r {
        hi_r
    } else {
        x
    };
    let ny: isize = if y < 0 {
        0
    } else if y > hi_c {
        hi_c
    } else {
        y
    };
    Cell { row: nx as usize, col: ny as usize }
}

/// The cell that action `a` leads to from `c`.
pub fn next_cell(g: &Grid, c: Cell, a: usize) -> (r: Cell)
    requires
        g.wf(),
        g.contains(c),
    ensures
        r == g.step(c, a as int),
        g.contains(r),
{
    let d = action_to_delta(a);
    clamp_pos(g, c.row as isize + d.0, c.col as isize + d.1)
}

/// Whether `c` occurs in `cells`.
pub fn contains_cell(cells: &[Cell], c: Cell) -> (r: bool)
    ensures
        r == cells@.contains(c),
{
    let mut i: usize = 0;
    while i < cells.len()
        invariant
            i <= cells.len(),
            forall|j: int| 0 <= j < i ==> cells@[j] != c,
        decreases cells.len() - i,
    {
        if cells[i] == c {
            return true;
        }
        i += 1;
    }
    false
}

} // verus!
