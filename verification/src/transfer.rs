//! The transfer function: one forward step of rule B3/S23, lifted to
//! three-valued grids through neighbor intervals. Two closed-interval
//! predicates — superset and overlap — drive every branch of the rule.

use vstd::prelude::*;
use crate::grid::{Cell, Grid, cell_at, complete, in_grid, lemma_flat_coords};
use crate::neighbors::{
    count_neighbors, lemma_complete_interval_exact, lemma_neighbor_interval_bounds, neighbor_max,
    neighbor_min,
};

verus! {

/// The closed interval `[alo, ahi]` contains every value of `[blo, bhi]`.
pub open spec fn iv_superset(alo: int, ahi: int, blo: int, bhi: int) -> bool {
    alo <= blo && bhi <= ahi
}

/// The closed intervals `[alo, ahi]` and `[blo, bhi]` intersect.
pub open spec fn iv_overlap(alo: int, ahi: int, blo: int, bhi: int) -> bool {
    !(ahi < blo || bhi < alo)
}

/// Next state of the cell at `(x, y)`: an `Alive` cell survives when its
/// neighbor interval is contained in `[2, 3]` and dies when it is contained
/// in `[0, 1]` or `[4, 8]`; a `Dead` cell is born exactly when the interval
/// is `[3, 3]` and stays dead when the interval misses 3; every other case,
/// and every `Unknown` cell, yields `Unknown`.
#[verifier::opaque]
pub open spec fn next_cell(s: Seq<Cell>, n: int, x: int, y: int, wrap: bool) -> Cell {
    let lo = neighbor_min(s, n, x, y, wrap);
    let hi = neighbor_max(s, n, x, y, wrap);
    match cell_at(s, n, x, y) {
        Cell::Alive => if iv_superset(2, 3, lo, hi) {
            Cell::Alive
        } else if iv_superset(0, 1, lo, hi) || iv_superset(4, 8, lo, hi) {
            Cell::Dead
        } else {
            Cell::Unknown
        },
        Cell::Dead => if iv_superset(3, 3, lo, hi) {
            Cell::Alive
        } else if !iv_overlap(3, 3, lo, hi) {
            Cell::Dead
        } else {
            Cell::Unknown
        },
        Cell::Unknown => Cell::Unknown,
    }
}

/// The whole next-generation grid, cell by cell.
pub open spec fn step_spec(s: Seq<Cell>, n: int, wrap: bool) -> Seq<Cell> {
    Seq::new((n * n) as nat, |i: int| next_cell(s, n, i % n, i / n, wrap))
}

/// Compute the next state of one cell.
fn next_cell_exec(g: &Grid, x: usize, y: usize, wrap: bool) -> (c: Cell)
    requires
        g.wf(),
        x < g.n,
        y < g.n,
    ensures
        c == next_cell(g@, g.n as int, x as int, y as int, wrap),
{
    proof {
        reveal(next_cell);
    }
    let rng = count_neighbors(g, x, y, wrap);
    match g.get(x, y) {
        Cell::Alive => {
            if 2 <= rng.lo && rng.hi <= 3 {
                Cell::Alive
            } else if rng.hi <= 1 || (4 <= rng.lo && rng.hi <= 8) {
                Cell::Dead
            } else {
                Cell::Unknown
            }
        },
        Cell::Dead => {
            if 3 <= rng.lo && rng.hi <= 3 {
                Cell::Alive
            } else if rng.hi < 3 || rng.lo > 3 {
                Cell::Dead
            } else {
                Cell::Unknown
            }
        },
        Cell::Unknown => Cell::Unknown,
    }
}

impl Grid {
    /// Apply the transfer function to the whole grid, producing the
    /// next-generation grid of the same size.
    pub fn step(&self, wrap: bool) -> (out: Grid)
        requires
            self.wf(),
        ensures
            out.wf(),
            out.n == self.n,
            out@ == step_spec(self@, self.n as int, wrap),
    {
        let n = self.n;
        let total = n * n;
        let mut cells: Vec<Cell> = Vec::new();
        let mut k: usize = 0;
        while k < total
            invariant
                self.wf(),
                n == self.n,
                total == n * n,
                k <= total,
                cells@.len() == k,
                forall|j: int|
                    0 <= j < k ==> cells@[j] == next_cell(
                        self@,
                        n as int,
                        j % (n as int),
                        j / (n as int),
                        wrap,
                    ),
            decreases total - k,
        {
            proof {
                lemma_flat_coords(n as int, k as int);
            }
            let x = k % n;
            let y = k / n;
            let c = next_cell_exec(self, x, y, wrap);
            cells.push(c);
            k = k + 1;
        }
        let out = Grid { n, cells };
        proof {
            assert(out@ =~= step_spec(self@, n as int, wrap));
        }
        out
    }
}

/// The transfer function never leaves a cell `Unknown` when the input grid
/// is complete: every neighbor interval then collapses to a single count,
/// and the rule decides every such count.
pub proof fn lemma_step_preserves_complete(s: Seq<Cell>, n: int, wrap: bool)
    requires
        complete(s),
        s.len() == n * n,
        1 <= n,
    ensures
        complete(step_spec(s, n, wrap)),
        step_spec(s, n, wrap).len() == n * n,
{
    assert forall|i: int| 0 <= i < n * n implies step_spec(s, n, wrap)[i] != Cell::Unknown by {
        lemma_flat_coords(n, i);
        let x = i % n;
        let y = i / n;
        lemma_complete_interval_exact(s, n, x, y, wrap);
        lemma_neighbor_interval_bounds(s, n, x, y, wrap);
        reveal(next_cell);
        assert(cell_at(s, n, x, y) != Cell::Unknown);
    }
}

} // verus!
