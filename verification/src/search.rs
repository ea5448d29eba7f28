//! Single-cell branching shared by both search variants: which of
//! `{Alive, Dead}` are feasible assignments for the cursor cell of a
//! candidate grid, given the target cell's state, and the children a
//! candidate contributes at one visitation step.

use vstd::prelude::*;
use crate::grid::{Cell, Grid, cell_at, grid_views, lemma_flat_coords};
use crate::neighbors::{count_neighbors, neighbor_max, neighbor_min};
use crate::transfer::iv_overlap;
use crate::consistency::sim_consistent;

verus! {

/// The starting candidate: every cell still unassigned.
pub open spec fn all_unknown(n: int) -> Seq<Cell> {
    Seq::new((n * n) as nat, |i: int| Cell::Unknown)
}

/// Whether the cell visited at step `k` lies on the grid's outer boundary.
pub open spec fn at_edge(n: int, k: int) -> bool {
    k % n == 0 || k / n == 0 || k % n == n - 1 || k / n == n - 1
}

/// The cursor cell of candidate `s` may be assigned `Alive`: the cell's
/// live-neighbor interval must overlap the interval that the target cell's
/// state requires of a previously-alive cell (`[2, 3]` to survive into an
/// `Alive` target, `[0, 1]` or `[4, 8]` to die into a `Dead` one). With
/// "skip lonely cells" set, a `Dead` target cell with no live neighbor in
/// the target grid is never explained as a dying prior live cell.
pub open spec fn alive_ok(
    s: Seq<Cell>,
    n: int,
    target: Seq<Cell>,
    k: int,
    skip_lonely: bool,
    wrap: bool,
) -> bool {
    let x = k % n;
    let y = k / n;
    let lo = neighbor_min(s, n, x, y, wrap);
    let hi = neighbor_max(s, n, x, y, wrap);
    match cell_at(target, n, x, y) {
        Cell::Alive => iv_overlap(lo, hi, 2, 3),
        Cell::Dead => (iv_overlap(lo, hi, 0, 1) || iv_overlap(lo, hi, 4, 8)) && (!skip_lonely
            || neighbor_max(target, n, x, y, wrap) > 0),
        Cell::Unknown => true,
    }
}

/// The cursor cell of candidate `s` may be assigned `Dead`: an `Alive`
/// target cell requires a birth, so the interval must overlap `[3, 3]`; a
/// `Dead` target cell is always compatible with a previously-dead cell.
pub open spec fn dead_ok(s: Seq<Cell>, n: int, target: Seq<Cell>, k: int, wrap: bool) -> bool {
    let x = k % n;
    let y = k / n;
    match cell_at(target, n, x, y) {
        Cell::Alive => iv_overlap(
            neighbor_min(s, n, x, y, wrap),
            neighbor_max(s, n, x, y, wrap),
            3,
            3,
        ),
        _ => true,
    }
}

/// The children that candidate `s` contributes at step `k` from the
/// feasibility test alone: the `Alive` child (suppressed on boundary cells
/// when "shy from edges" is set) and then the `Dead` child.
pub open spec fn feasible_children(
    s: Seq<Cell>,
    n: int,
    target: Seq<Cell>,
    k: int,
    skip_lonely: bool,
    wrap: bool,
    shy: bool,
) -> Seq<Seq<Cell>> {
    let a = alive_ok(s, n, target, k, skip_lonely, wrap) && !(shy && at_edge(n, k));
    let d = dead_ok(s, n, target, k, wrap);
    let sa = s.update(k, Cell::Alive);
    let sd = s.update(k, Cell::Dead);
    if a && d {
        seq![sa, sd]
    } else if a {
        seq![sa]
    } else if d {
        seq![sd]
    } else {
        Seq::<Seq<Cell>>::empty()
    }
}

/// The children of candidate `s` at step `k` as the frontier search
/// produces them: none when the candidate's simulation already
/// contradicts the target, its feasible children otherwise.
pub open spec fn child_seq(
    s: Seq<Cell>,
    n: int,
    target: Seq<Cell>,
    k: int,
    skip_lonely: bool,
    wrap: bool,
    shy: bool,
) -> Seq<Seq<Cell>> {
    if sim_consistent(s, n, target, wrap) {
        feasible_children(s, n, target, k, skip_lonely, wrap, shy)
    } else {
        Seq::<Seq<Cell>>::empty()
    }
}

/// Compute the feasible children of `g` at step `k` (no consistency gate).
pub fn expand_cell(
    g: &Grid,
    target: &Grid,
    k: usize,
    skip_lonely: bool,
    wrap: bool,
    shy: bool,
) -> (r: Vec<Grid>)
    requires
        g.wf(),
        target.wf(),
        g.n == target.n,
        k < g.n * g.n,
    ensures
        grid_views(r@) == feasible_children(
            g@,
            g.n as int,
            target@,
            k as int,
            skip_lonely,
            wrap,
            shy,
        ),
        forall|i: int| 0 <= i < r@.len() ==> (#[trigger] r@[i]).wf() && r@[i].n == g.n,
    {
    let n = g.n;
    proof {
        lemma_flat_coords(n as int, k as int);
    }
    let x = k % n;
    let y = k / n;
    let tc = target.get(x, y);
    let rng = count_neighbors(g, x, y, wrap);
    let at_e = x == 0 || y == 0 || x == n - 1 || y == n - 1;
    let alive_feasible = match tc {
        Cell::Alive => !(rng.hi < 2 || 3 < rng.lo),
        Cell::Dead => {
            let overlaps = rng.lo <= 1 || !(rng.hi < 4 || 8 < rng.lo);
            let lonely_gate = if skip_lonely {
                let trng = count_neighbors(target, x, y, wrap);
                trng.hi > 0
            } else {
                true
            };
            overlaps && lonely_gate
        },
        Cell::Unknown => true,
    };
    let dead_feasible = match tc {
        Cell::Alive => !(rng.hi < 3 || 3 < rng.lo),
        _ => true,
    };
    let alive_allowed = alive_feasible && !(shy && at_e);
    proof {
        assert(alive_feasible == alive_ok(
            g@,
            n as int,
            target@,
            k as int,
            skip_lonely,
            wrap,
        ));
        assert(dead_feasible == dead_ok(g@, n as int, target@, k as int, wrap));
        assert(at_e == at_edge(n as int, k as int));
    }
    let mut out: Vec<Grid> = Vec::new();
    if alive_allowed {
        out.push(g.with_flat(k, Cell::Alive));
    }
    if dead_feasible {
        out.push(g.with_flat(k, Cell::Dead));
    }
    proof {
        assert(grid_views(out@) =~= feasible_children(
            g@,
            n as int,
            target@,
            k as int,
            skip_lonely,
            wrap,
            shy,
        ));
    }
    out
}

/// One frontier-search expansion of one candidate: drop it if its
/// simulation contradicts the target, otherwise branch on the cursor cell.
pub fn expand_one(
    g: &Grid,
    target: &Grid,
    k: usize,
    skip_lonely: bool,
    wrap: bool,
    shy: bool,
) -> (r: Vec<Grid>)
    requires
        g.wf(),
        target.wf(),
        g.n == target.n,
        k < g.n * g.n,
    ensures
        grid_views(r@) == child_seq(g@, g.n as int, target@, k as int, skip_lonely, wrap, shy),
        forall|i: int| 0 <= i < r@.len() ==> (#[trigger] r@[i]).wf() && r@[i].n == g.n,
{
    let sim = g.step(wrap);
    if !sim.consistent_with(target) {
        Vec::new()
    } else {
        expand_cell(g, target, k, skip_lonely, wrap, shy)
    }
}

} // verus!
