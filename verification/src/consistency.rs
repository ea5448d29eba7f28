//! The consistency checker: whether a (possibly partial) simulated grid can
//! still agree with a complete target grid, treating `Unknown` as
//! compatible with anything — and the lemmas that justify pruning on it.

use vstd::prelude::*;
use crate::grid::{Cell, Grid, cell_at, complete, in_grid, lemma_flat_coords, refines};
use crate::neighbors::{
    lemma_neighbor_interval_bounds, lemma_neighbor_interval_narrows, neighbor_max, neighbor_min,
};
use crate::transfer::{iv_overlap, iv_superset, next_cell, step_spec};

verus! {

/// Two cell states agree unless one is `Alive` and the other `Dead`.
pub open spec fn compatible(a: Cell, b: Cell) -> bool {
    !(a == Cell::Alive && b == Cell::Dead) && !(a == Cell::Dead && b == Cell::Alive)
}

/// Cell-wise compatibility of two equally long cell sequences.
pub open spec fn consistent(sa: Seq<Cell>, sb: Seq<Cell>) -> bool {
    forall|i: int| 0 <= i < sa.len() ==> compatible(sa[i], sb[i])
}

/// A candidate `s` can still lead to `target`: its simulated next
/// generation is cell-wise compatible with the target.
pub open spec fn sim_consistent(s: Seq<Cell>, n: int, target: Seq<Cell>, wrap: bool) -> bool {
    consistent(step_spec(s, n, wrap), target)
}

impl Grid {
    /// Whether this grid is cell-wise compatible with `other`: the check
    /// fails only where one side is `Alive` and the other `Dead`.
    pub fn consistent_with(&self, other: &Grid) -> (r: bool)
        requires
            self.wf(),
            other.wf(),
            self.n == other.n,
        ensures
            r == consistent(self@, other@),
    {
        let total = self.cells.len();
        let mut i: usize = 0;
        while i < total
            invariant
                i <= total,
                total == self.cells@.len(),
                self.cells@.len() == other.cells@.len(),
                forall|j: int| 0 <= j < i ==> compatible(self.cells@[j], other.cells@[j]),
            decreases total - i,
        {
            let a = self.cells[i];
            let b = other.cells[i];
            if (a == Cell::Alive && b == Cell::Dead) || (a == Cell::Dead && b == Cell::Alive) {
                return false;
            }
            i = i + 1;
        }
        true
    }
}

/// Refining a partial grid preserves every already-determined cell of its
/// simulation: once the rule decides a cell, further assignment of
/// `Unknown` cells elsewhere cannot change that decision.
pub proof fn lemma_next_cell_monotone(
    p: Seq<Cell>,
    q: Seq<Cell>,
    n: int,
    x: int,
    y: int,
    wrap: bool,
)
    requires
        refines(q, p),
        p.len() == n * n,
        1 <= n,
        in_grid(n, x, y),
        next_cell(p, n, x, y, wrap) != Cell::Unknown,
    ensures
        next_cell(q, n, x, y, wrap) == next_cell(p, n, x, y, wrap),
{
    reveal(next_cell);
    lemma_neighbor_interval_narrows(p, q, n, x, y, wrap);
    lemma_neighbor_interval_bounds(p, n, x, y, wrap);
    lemma_neighbor_interval_bounds(q, n, x, y, wrap);
    crate::grid::lemma_grid_index_bounds(n, x, y);
    assert(cell_at(p, n, x, y) != Cell::Unknown);
    assert(cell_at(q, n, x, y) == cell_at(p, n, x, y));
    let plo = neighbor_min(p, n, x, y, wrap);
    let phi = neighbor_max(p, n, x, y, wrap);
    let qlo = neighbor_min(q, n, x, y, wrap);
    let qhi = neighbor_max(q, n, x, y, wrap);
    assert(plo <= qlo && qhi <= phi);
    if cell_at(p, n, x, y) == Cell::Alive {
        if iv_superset(2, 3, plo, phi) {
            assert(iv_superset(2, 3, qlo, qhi));
            assert(next_cell(p, n, x, y, wrap) == Cell::Alive);
            assert(next_cell(q, n, x, y, wrap) == Cell::Alive);
        } else if iv_superset(0, 1, plo, phi) {
            assert(iv_superset(0, 1, qlo, qhi));
            assert(next_cell(p, n, x, y, wrap) == Cell::Dead);
            assert(next_cell(q, n, x, y, wrap) == Cell::Dead);
        } else if iv_superset(4, 8, plo, phi) {
            assert(iv_superset(4, 8, qlo, qhi));
            assert(next_cell(p, n, x, y, wrap) == Cell::Dead);
            assert(next_cell(q, n, x, y, wrap) == Cell::Dead);
        } else {
            assert(next_cell(p, n, x, y, wrap) == Cell::Unknown);
        }
    } else {
        assert(cell_at(p, n, x, y) == Cell::Dead);
        if iv_superset(3, 3, plo, phi) {
            assert(iv_superset(3, 3, qlo, qhi));
            assert(next_cell(p, n, x, y, wrap) == Cell::Alive);
            assert(next_cell(q, n, x, y, wrap) == Cell::Alive);
        } else if !iv_overlap(3, 3, plo, phi) {
            assert(!iv_overlap(3, 3, qlo, qhi));
            assert(!iv_superset(3, 3, qlo, qhi));
            assert(next_cell(p, n, x, y, wrap) == Cell::Dead);
            assert(next_cell(q, n, x, y, wrap) == Cell::Dead);
        } else {
            assert(next_cell(p, n, x, y, wrap) == Cell::Unknown);
        }
    }
}

/// Monotonic pruning: once a partial candidate fails the consistency check
/// against a target, every refinement of it — in particular every
/// completion — fails it too. This is what licenses discarding a search
/// node without enumerating its descendants.
pub proof fn lemma_prune_monotone(
    p: Seq<Cell>,
    q: Seq<Cell>,
    n: int,
    target: Seq<Cell>,
    wrap: bool,
)
    requires
        refines(q, p),
        p.len() == n * n,
        target.len() == n * n,
        1 <= n,
        !sim_consistent(p, n, target, wrap),
    ensures
        !sim_consistent(q, n, target, wrap),
{
    let sp = step_spec(p, n, wrap);
    let sq = step_spec(q, n, wrap);
    let i = choose|i: int| 0 <= i < sp.len() && !compatible(sp[i], target[i]);
    assert(0 <= i < n * n);
    lemma_flat_coords(n, i);
    assert(sp[i] == next_cell(p, n, i % n, i / n, wrap));
    assert(sp[i] != Cell::Unknown);
    lemma_next_cell_monotone(p, q, n, i % n, i / n, wrap);
    assert(sq[i] == sp[i]);
    assert(!compatible(sq[i], target[i]));
}

/// Monotonic pruning, specialized to completions: once a partial grid's
/// simulation fails the consistency check against the target, the
/// simulation of every *completion* of that partial grid fails it too —
/// fuzzing the unassigned cells can never repair the conflict.
pub proof fn lemma_pruning_sound_for_completions(
    p: Seq<Cell>,
    gc: Seq<Cell>,
    n: int,
    target: Seq<Cell>,
    wrap: bool,
)
    requires
        refines(gc, p),
        complete(gc),
        p.len() == n * n,
        target.len() == n * n,
        1 <= n,
        !sim_consistent(p, n, target, wrap),
    ensures
        !sim_consistent(gc, n, target, wrap),
{
    lemma_prune_monotone(p, gc, n, target, wrap);
}

/// Between two complete grids, compatibility is equality: a complete
/// simulated grid that is consistent with a complete target is that target.
pub proof fn lemma_complete_consistent_equal(a: Seq<Cell>, b: Seq<Cell>)
    requires
        complete(a),
        complete(b),
        a.len() == b.len(),
        consistent(a, b),
    ensures
        a == b,
{
    assert forall|i: int| 0 <= i < a.len() implies a[i] == b[i] by {
        assert(compatible(a[i], b[i]));
        assert(a[i] != Cell::Unknown);
        assert(b[i] != Cell::Unknown);
    }
    assert(a =~= b);
}

} // verus!
