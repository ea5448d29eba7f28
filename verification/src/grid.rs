//! The grid model: a square matrix of three-valued cells, stored row-major
//! in a flat vector with a runtime-checked dimension.

use vstd::prelude::*;
use vstd::pervasive::VecAdditionalExecFns;

verus! {

/// One cell of the automaton. `Unknown` is a search-time placeholder for a
/// cell that has not been assigned yet; it never appears in a final result.
#[derive(Clone, Copy, PartialEq, Eq, Debug, Structural)]
pub enum Cell {
    Dead,
    Alive,
    Unknown,
}

/// Flat index of the cell at coordinates `(x, y)` on a grid of side `n`.
/// The first coordinate varies fastest; this is also the fixed visitation
/// order of the searches, so visitation step `k` touches flat index `k`.
pub open spec fn grid_index(n: int, x: int, y: int) -> int {
    x + y * n
}

/// Whether `(x, y)` lies on a grid of side `n`.
pub open spec fn in_grid(n: int, x: int, y: int) -> bool {
    0 <= x < n && 0 <= y < n
}

/// The cell at coordinates `(x, y)` of the flat cell sequence `s`.
pub open spec fn cell_at(s: Seq<Cell>, n: int, x: int, y: int) -> Cell {
    s[grid_index(n, x, y)]
}

/// A grid is complete when no cell is `Unknown`.
pub open spec fn complete(s: Seq<Cell>) -> bool {
    forall|i: int| 0 <= i < s.len() ==> s[i] != Cell::Unknown
}

/// The cells at flat indices below `k` are assigned, the rest are `Unknown`.
/// Search candidates at cursor position `k` have exactly this shape.
pub open spec fn assigned_below(s: Seq<Cell>, k: int) -> bool {
    forall|i: int| 0 <= i < s.len() ==> ((i < k) <==> s[i] != Cell::Unknown)
}

/// The flat cell sequences of a sequence of grids, in order.
pub open spec fn grid_views(v: Seq<Grid>) -> Seq<Seq<Cell>> {
    v.map_values(|g: Grid| g@)
}

/// `q` refines `p` when `q` agrees with `p` on every cell that `p` has
/// already assigned; `q` may additionally assign cells that `p` leaves
/// `Unknown`. Every candidate that a search derives from `p` refines `p`.
pub open spec fn refines(q: Seq<Cell>, p: Seq<Cell>) -> bool {
    q.len() == p.len() && forall|i: int|
        0 <= i < p.len() && p[i] != Cell::Unknown ==> q[i] == p[i]
}

/// An N x N matrix of cells, N fixed at construction. Its view is the flat
/// cell sequence, of length `n * n`, in `grid_index` order.
pub struct Grid {
    pub n: usize,
    pub cells: Vec<Cell>,
}

impl View for Grid {
    type V = Seq<Cell>;

    open spec fn view(&self) -> Seq<Cell> {
        self.cells@
    }
}

pub proof fn lemma_grid_index_bounds(n: int, x: int, y: int)
    by (nonlinear_arith)
    requires
        in_grid(n, x, y),
    ensures
        0 <= grid_index(n, x, y) < n * n,
{
}

/// Flat index `k` names the cell at `(k % n, k / n)`.
pub proof fn lemma_grid_index_roundtrip(n: int, x: int, y: int)
    requires
        in_grid(n, x, y),
    ensures
        grid_index(n, x, y) % n == x,
        grid_index(n, x, y) / n == y,
        0 <= grid_index(n, x, y) < n * n,
{
    lemma_grid_index_bounds(n, x, y);
    vstd::arithmetic::div_mod::lemma_fundamental_div_mod_converse(grid_index(n, x, y), n, y, x);
}

/// Conversely, a flat index `0 <= k < n * n` decomposes into coordinates.
pub proof fn lemma_flat_coords(n: int, k: int)
    requires
        1 <= n,
        0 <= k < n * n,
    ensures
        in_grid(n, k % n, k / n),
        grid_index(n, k % n, k / n) == k,
{
    vstd::arithmetic::div_mod::lemma_fundamental_div_mod(k, n);
    vstd::arithmetic::div_mod::lemma_mod_bound(k, n);
    assert(0 <= k / n < n) by (nonlinear_arith)
        requires 1 <= n && 0 <= k < n * n && k == n * (k / n) + k % n && 0 <= k % n < n;
    assert(k % n + (k / n) * n == n * (k / n) + k % n) by (nonlinear_arith);
}

impl Grid {
    /// A well-formed grid has a positive side length, holds exactly
    /// `n * n` cells, and is small enough that flat indices fit in `usize`.
    pub open spec fn wf(&self) -> bool {
        self.cells@.len() == self.n * self.n && 1 <= self.n && self.n * self.n <= usize::MAX
    }

    /// The side length N.
    pub fn side(&self) -> (n: usize)
        ensures
            n == self.n,
    {
        self.n
    }

    /// A fresh grid of side `n` with every cell equal to `c`.
    pub fn new_filled(n: usize, c: Cell) -> (g: Grid)
        requires
            1 <= n,
            n * n <= usize::MAX,
        ensures
            g.wf(),
            g.n == n,
            g@ == Seq::new((n * n) as nat, |i: int| c),
    {
        let total = n * n;
        let mut cells: Vec<Cell> = Vec::new();
        let mut i: usize = 0;
        while i < total
            invariant
                i <= total,
                cells@.len() == i,
                forall|j: int| 0 <= j < i ==> cells@[j] == c,
            decreases total - i,
        {
            cells.push(c);
            i = i + 1;
        }
        let g = Grid { n, cells };
        proof {
            assert(g@ =~= Seq::new((n * n) as nat, |i: int| c));
        }
        g
    }

    /// Read the cell at `(x, y)`.
    pub fn get(&self, x: usize, y: usize) -> (c: Cell)
        requires
            self.wf(),
            x < self.n,
            y < self.n,
        ensures
            c == cell_at(self@, self.n as int, x as int, y as int),
    {
        proof {
            lemma_grid_index_bounds(self.n as int, x as int, y as int);
        }
        self.cells[x + y * self.n]
    }

    /// Overwrite the cell at `(x, y)`.
    pub fn set(&mut self, x: usize, y: usize, c: Cell)
        requires
            old(self).wf(),
            x < old(self).n,
            y < old(self).n,
        ensures
            final(self).wf(),
            final(self).n == old(self).n,
            final(self)@ == old(self)@.update(grid_index(old(self).n as int, x as int, y as int), c),
    {
        proof {
            lemma_grid_index_bounds(self.n as int, x as int, y as int);
        }
        self.cells.set(x + y * self.n, c);
    }

    /// A copy of this grid with the cell at flat index `k` overwritten.
    pub fn with_flat(&self, k: usize, c: Cell) -> (g: Grid)
        requires
            self.wf(),
            k < self.n * self.n,
        ensures
            g.wf(),
            g.n == self.n,
            g@ == self@.update(k as int, c),
    {
        let mut cells: Vec<Cell> = Vec::new();
        let total = self.cells.len();
        let mut i: usize = 0;
        while i < total
            invariant
                i <= total,
                total == self.cells@.len(),
                cells@.len() == i,
                forall|j: int| 0 <= j < i ==> cells@[j] == self.cells@[j],
            decreases total - i,
        {
            cells.push(self.cells[i]);
            i = i + 1;
        }
        let mut g = Grid { n: self.n, cells };
        g.cells.set(k, c);
        proof {
            assert(g@ =~= self@.update(k as int, c));
        }
        g
    }

    /// An owned copy of this grid.
    pub fn duplicate(&self) -> (g: Grid)
        requires
            self.wf(),
        ensures
            g.wf(),
            g.n == self.n,
            g@ == self@,
    {
        let mut cells: Vec<Cell> = Vec::new();
        let total = self.cells.len();
        let mut i: usize = 0;
        while i < total
            invariant
                i <= total,
                total == self.cells@.len(),
                cells@.len() == i,
                forall|j: int| 0 <= j < i ==> cells@[j] == self.cells@[j],
            decreases total - i,
        {
            cells.push(self.cells[i]);
            i = i + 1;
        }
        let g = Grid { n: self.n, cells };
        proof {
            assert(g@ =~= self@);
        }
        g
    }

    /// Whether every cell of this grid is assigned (no `Unknown` remains).
    pub fn is_complete(&self) -> (r: bool)
        requires
            self.wf(),
        ensures
            r == complete(self@),
    {
        let total = self.cells.len();
        let mut i: usize = 0;
        while i < total
            invariant
                i <= total,
                total == self.cells@.len(),
                forall|j: int| 0 <= j < i ==> self.cells@[j] != Cell::Unknown,
            decreases total - i,
        {
            if self.cells[i] == Cell::Unknown {
                return false;
            }
            i = i + 1;
        }
        true
    }

    /// Cell-wise equality with another grid of the same side.
    pub fn same_as(&self, other: &Grid) -> (r: bool)
        requires
            self.wf(),
            other.wf(),
            self.n == other.n,
        ensures
            r == (self@ == other@),
    {
        let total = self.cells.len();
        let mut i: usize = 0;
        while i < total
            invariant
                i <= total,
                total == self.cells@.len(),
                self.cells@.len() == other.cells@.len(),
                forall|j: int| 0 <= j < i ==> self.cells@[j] == other.cells@[j],
            decreases total - i,
        {
            if self.cells[i] != other.cells[i] {
                return false;
            }
            i = i + 1;
        }
        proof {
            assert(self@ =~= other@);
        }
        true
    }
}

} // verus!
