//! The neighbor interval counter: for a cell and a topology mode, the
//! minimum and maximum possible number of live neighbors, given that
//! `Unknown` cells may resolve either way.

use vstd::prelude::*;
use crate::grid::{Cell, Grid, cell_at, complete, in_grid, lemma_grid_index_bounds, refines};

verus! {

/// One wrapping step: brings `i` back into `[0, n)` after an offset of at
/// most `n` in either direction (toroidal topology).
pub open spec fn wrap1(i: int, n: int) -> int {
    if i < 0 {
        i + n
    } else if i >= n {
        i - n
    } else {
        i
    }
}

/// The state of the neighbor of `(x, y)` at offset `(dx, dy)`: under wrap,
/// coordinates are taken modulo the side; under bounded topology an
/// off-grid neighbor counts as `Dead`.
#[verifier::opaque]
pub open spec fn neighbor_cell(
    s: Seq<Cell>,
    n: int,
    x: int,
    y: int,
    dx: int,
    dy: int,
    wrap: bool,
) -> Cell {
    if wrap {
        cell_at(s, n, wrap1(x + dx, n), wrap1(y + dy, n))
    } else if in_grid(n, x + dx, y + dy) {
        cell_at(s, n, x + dx, y + dy)
    } else {
        Cell::Dead
    }
}

/// Least possible live contribution of one neighbor cell.
pub open spec fn min_contrib(c: Cell) -> int {
    if c == Cell::Alive {
        1
    } else {
        0
    }
}

/// Greatest possible live contribution of one neighbor cell.
pub open spec fn max_contrib(c: Cell) -> int {
    if c == Cell::Dead {
        0
    } else {
        1
    }
}

/// Lower bound of the live-neighbor interval of `(x, y)`.
#[verifier::opaque]
pub open spec fn neighbor_min(s: Seq<Cell>, n: int, x: int, y: int, wrap: bool) -> int {
    min_contrib(neighbor_cell(s, n, x, y, -1, -1, wrap))
        + min_contrib(neighbor_cell(s, n, x, y, -1, 0, wrap))
        + min_contrib(neighbor_cell(s, n, x, y, -1, 1, wrap))
        + min_contrib(neighbor_cell(s, n, x, y, 0, -1, wrap))
        + min_contrib(neighbor_cell(s, n, x, y, 0, 1, wrap))
        + min_contrib(neighbor_cell(s, n, x, y, 1, -1, wrap))
        + min_contrib(neighbor_cell(s, n, x, y, 1, 0, wrap))
        + min_contrib(neighbor_cell(s, n, x, y, 1, 1, wrap))
}

/// Upper bound of the live-neighbor interval of `(x, y)`.
#[verifier::opaque]
pub open spec fn neighbor_max(s: Seq<Cell>, n: int, x: int, y: int, wrap: bool) -> int {
    max_contrib(neighbor_cell(s, n, x, y, -1, -1, wrap))
        + max_contrib(neighbor_cell(s, n, x, y, -1, 0, wrap))
        + max_contrib(neighbor_cell(s, n, x, y, -1, 1, wrap))
        + max_contrib(neighbor_cell(s, n, x, y, 0, -1, wrap))
        + max_contrib(neighbor_cell(s, n, x, y, 0, 1, wrap))
        + max_contrib(neighbor_cell(s, n, x, y, 1, -1, wrap))
        + max_contrib(neighbor_cell(s, n, x, y, 1, 0, wrap))
        + max_contrib(neighbor_cell(s, n, x, y, 1, 1, wrap))
}

/// The interval is a closed integer range inside `[0, 8]`.
pub proof fn lemma_neighbor_interval_bounds(s: Seq<Cell>, n: int, x: int, y: int, wrap: bool)
    ensures
        0 <= neighbor_min(s, n, x, y, wrap),
        neighbor_min(s, n, x, y, wrap) <= neighbor_max(s, n, x, y, wrap),
        neighbor_max(s, n, x, y, wrap) <= 8,
{
    reveal(neighbor_min);
    reveal(neighbor_max);
}

/// A closed interval `[lo, hi]` of possible live-neighbor counts.
pub struct NeighborRange {
    pub lo: u8,
    pub hi: u8,
}

/// One wrapping step, executable form.
fn wrap_step(i: usize, d: i8, n: usize) -> (r: usize)
    requires
        i < n,
        -1 <= d <= 1,
    ensures
        r as int == wrap1(i + d, n as int),
        r < n,
{
    if d < 0 {
        if i == 0 {
            n - 1
        } else {
            i - 1
        }
    } else if d > 0 {
        if i + 1 == n {
            0
        } else {
            i + 1
        }
    } else {
        i
    }
}

/// Fetch the neighbor of `(x, y)` at offset `(dx, dy)`.
fn neighbor(g: &Grid, x: usize, y: usize, dx: i8, dy: i8, wrap: bool) -> (c: Cell)
    requires
        g.wf(),
        x < g.n,
        y < g.n,
        -1 <= dx <= 1,
        -1 <= dy <= 1,
    ensures
        c == neighbor_cell(g@, g.n as int, x as int, y as int, dx as int, dy as int, wrap),
{
    proof {
        reveal(neighbor_cell);
    }
    let n = g.n;
    if wrap {
        let nx = wrap_step(x, dx, n);
        let ny = wrap_step(y, dy, n);
        g.get(nx, ny)
    } else {
        if (dx < 0 && x == 0) || (dy < 0 && y == 0) || (dx > 0 && x + 1 == n) || (dy > 0 && y + 1
            == n) {
            Cell::Dead
        } else {
            let nx = if dx < 0 {
                x - 1
            } else if dx > 0 {
                x + 1
            } else {
                x
            };
            let ny = if dy < 0 {
                y - 1
            } else if dy > 0 {
                y + 1
            } else {
                y
            };
            g.get(nx, ny)
        }
    }
}

/// The `(least, greatest)` live contribution of one neighbor cell.
fn contribs(c: Cell) -> (r: (u8, u8))
    ensures
        r.0 as int == min_contrib(c),
        r.1 as int == max_contrib(c),
        r.0 <= r.1 <= 1,
{
    match c {
        Cell::Dead => (0, 0),
        Cell::Alive => (1, 1),
        Cell::Unknown => (0, 1),
    }
}


/// Add up eight per-neighbor contribution pairs.
fn sum8(
    c1: (u8, u8),
    c2: (u8, u8),
    c3: (u8, u8),
    c4: (u8, u8),
    c5: (u8, u8),
    c6: (u8, u8),
    c7: (u8, u8),
    c8: (u8, u8),
) -> (r: NeighborRange)
    requires
        c1.0 <= c1.1 <= 1,
        c2.0 <= c2.1 <= 1,
        c3.0 <= c3.1 <= 1,
        c4.0 <= c4.1 <= 1,
        c5.0 <= c5.1 <= 1,
        c6.0 <= c6.1 <= 1,
        c7.0 <= c7.1 <= 1,
        c8.0 <= c8.1 <= 1,
    ensures
        r.lo == c1.0 + c2.0 + c3.0 + c4.0 + c5.0 + c6.0 + c7.0 + c8.0,
        r.hi == c1.1 + c2.1 + c3.1 + c4.1 + c5.1 + c6.1 + c7.1 + c8.1,
        r.lo <= r.hi <= 8,
{
    let lo = c1.0 + c2.0 + c3.0 + c4.0 + c5.0 + c6.0 + c7.0 + c8.0;
    let hi = c1.1 + c2.1 + c3.1 + c4.1 + c5.1 + c6.1 + c7.1 + c8.1;
    NeighborRange { lo, hi }
}

/// Count how many of the 8 neighbors of `(x, y)` could be alive: each
/// `Alive` neighbor contributes `(1, 1)`, each `Unknown` one `(0, 1)`,
/// each `Dead` one `(0, 0)`; off-grid neighbors count as `Dead` under
/// bounded topology and wrap around under toroidal topology.
#[verifier::rlimit(100)]
#[verifier::spinoff_prover]
pub fn count_neighbors(g: &Grid, x: usize, y: usize, wrap: bool) -> (r: NeighborRange)
    requires
        g.wf(),
        x < g.n,
        y < g.n,
    ensures
        r.lo as int == neighbor_min(g@, g.n as int, x as int, y as int, wrap),
        r.hi as int == neighbor_max(g@, g.n as int, x as int, y as int, wrap),
        r.lo <= r.hi <= 8,
{
    let c1 = contribs(neighbor(g, x, y, -1, -1, wrap));
    let c2 = contribs(neighbor(g, x, y, -1, 0, wrap));
    let c3 = contribs(neighbor(g, x, y, -1, 1, wrap));
    let c4 = contribs(neighbor(g, x, y, 0, -1, wrap));
    let c5 = contribs(neighbor(g, x, y, 0, 1, wrap));
    let c6 = contribs(neighbor(g, x, y, 1, -1, wrap));
    let c7 = contribs(neighbor(g, x, y, 1, 0, wrap));
    let c8 = contribs(neighbor(g, x, y, 1, 1, wrap));
    let r = sum8(c1, c2, c3, c4, c5, c6, c7, c8);
    proof {
        reveal(neighbor_min);
        reveal(neighbor_max);
        let gs = g@;
        let ni = g.n as int;
        let xi = x as int;
        let yi = y as int;
        assert(c1.0 as int == min_contrib(neighbor_cell(gs, ni, xi, yi, -1, -1, wrap)));
        assert(c2.0 as int == min_contrib(neighbor_cell(gs, ni, xi, yi, -1, 0, wrap)));
        assert(c3.0 as int == min_contrib(neighbor_cell(gs, ni, xi, yi, -1, 1, wrap)));
        assert(c4.0 as int == min_contrib(neighbor_cell(gs, ni, xi, yi, 0, -1, wrap)));
        assert(c5.0 as int == min_contrib(neighbor_cell(gs, ni, xi, yi, 0, 1, wrap)));
        assert(c6.0 as int == min_contrib(neighbor_cell(gs, ni, xi, yi, 1, -1, wrap)));
        assert(c7.0 as int == min_contrib(neighbor_cell(gs, ni, xi, yi, 1, 0, wrap)));
        assert(c8.0 as int == min_contrib(neighbor_cell(gs, ni, xi, yi, 1, 1, wrap)));
        assert(c1.1 as int == max_contrib(neighbor_cell(gs, ni, xi, yi, -1, -1, wrap)));
        assert(c2.1 as int == max_contrib(neighbor_cell(gs, ni, xi, yi, -1, 0, wrap)));
        assert(c3.1 as int == max_contrib(neighbor_cell(gs, ni, xi, yi, -1, 1, wrap)));
        assert(c4.1 as int == max_contrib(neighbor_cell(gs, ni, xi, yi, 0, -1, wrap)));
        assert(c5.1 as int == max_contrib(neighbor_cell(gs, ni, xi, yi, 0, 1, wrap)));
        assert(c6.1 as int == max_contrib(neighbor_cell(gs, ni, xi, yi, 1, -1, wrap)));
        assert(c7.1 as int == max_contrib(neighbor_cell(gs, ni, xi, yi, 1, 0, wrap)));
        assert(c8.1 as int == max_contrib(neighbor_cell(gs, ni, xi, yi, 1, 1, wrap)));
    }
    r
}

/// Assigning `Unknown` cells only narrows a neighbor interval: per
/// neighbor, the least contribution can only grow and the greatest only
/// shrink under refinement.
proof fn lemma_contrib_monotone(
    p: Seq<Cell>,
    q: Seq<Cell>,
    n: int,
    x: int,
    y: int,
    dx: int,
    dy: int,
    wrap: bool,
)
    requires
        refines(q, p),
        p.len() == n * n,
        1 <= n,
        in_grid(n, x, y),
        -1 <= dx <= 1,
        -1 <= dy <= 1,
    ensures
        min_contrib(neighbor_cell(p, n, x, y, dx, dy, wrap)) <= min_contrib(
            neighbor_cell(q, n, x, y, dx, dy, wrap),
        ),
        max_contrib(neighbor_cell(q, n, x, y, dx, dy, wrap)) <= max_contrib(
            neighbor_cell(p, n, x, y, dx, dy, wrap),
        ),
{
    reveal(neighbor_cell);
    if wrap {
        let nx = wrap1(x + dx, n);
        let ny = wrap1(y + dy, n);
        assert(in_grid(n, nx, ny));
        lemma_grid_index_bounds(n, nx, ny);
    } else if in_grid(n, x + dx, y + dy) {
        lemma_grid_index_bounds(n, x + dx, y + dy);
    }
}

/// Refining a partial grid narrows every neighbor interval.
pub proof fn lemma_neighbor_interval_narrows(
    p: Seq<Cell>,
    q: Seq<Cell>,
    n: int,
    x: int,
    y: int,
    wrap: bool,
)
    requires
        refines(q, p),
        p.len() == n * n,
        1 <= n,
        in_grid(n, x, y),
    ensures
        neighbor_min(p, n, x, y, wrap) <= neighbor_min(q, n, x, y, wrap),
        neighbor_max(q, n, x, y, wrap) <= neighbor_max(p, n, x, y, wrap),
{
    reveal(neighbor_min);
    reveal(neighbor_max);
    lemma_contrib_monotone(p, q, n, x, y, -1, -1, wrap);
    lemma_contrib_monotone(p, q, n, x, y, -1, 0, wrap);
    lemma_contrib_monotone(p, q, n, x, y, -1, 1, wrap);
    lemma_contrib_monotone(p, q, n, x, y, 0, -1, wrap);
    lemma_contrib_monotone(p, q, n, x, y, 0, 1, wrap);
    lemma_contrib_monotone(p, q, n, x, y, 1, -1, wrap);
    lemma_contrib_monotone(p, q, n, x, y, 1, 0, wrap);
    lemma_contrib_monotone(p, q, n, x, y, 1, 1, wrap);
}

/// On a complete grid the neighbor interval collapses: min equals max.
pub proof fn lemma_complete_interval_exact(s: Seq<Cell>, n: int, x: int, y: int, wrap: bool)
    requires
        complete(s),
        s.len() == n * n,
        1 <= n,
        in_grid(n, x, y),
    ensures
        neighbor_min(s, n, x, y, wrap) == neighbor_max(s, n, x, y, wrap),
{
    reveal(neighbor_min);
    reveal(neighbor_max);
    lemma_exact_contrib(s, n, x, y, -1, -1, wrap);
    lemma_exact_contrib(s, n, x, y, -1, 0, wrap);
    lemma_exact_contrib(s, n, x, y, -1, 1, wrap);
    lemma_exact_contrib(s, n, x, y, 0, -1, wrap);
    lemma_exact_contrib(s, n, x, y, 0, 1, wrap);
    lemma_exact_contrib(s, n, x, y, 1, -1, wrap);
    lemma_exact_contrib(s, n, x, y, 1, 0, wrap);
    lemma_exact_contrib(s, n, x, y, 1, 1, wrap);
}

/// On a complete grid, one neighbor's least and greatest contributions agree.
proof fn lemma_exact_contrib(s: Seq<Cell>, n: int, x: int, y: int, dx: int, dy: int, wrap: bool)
    requires
        complete(s),
        s.len() == n * n,
        1 <= n,
        in_grid(n, x, y),
        -1 <= dx <= 1,
        -1 <= dy <= 1,
    ensures
        min_contrib(neighbor_cell(s, n, x, y, dx, dy, wrap)) == max_contrib(
            neighbor_cell(s, n, x, y, dx, dy, wrap),
        ),
{
    reveal(neighbor_cell);
    if wrap {
        let nx = wrap1(x + dx, n);
        let ny = wrap1(y + dy, n);
        assert(in_grid(n, nx, ny));
        lemma_grid_index_bounds(n, nx, ny);
    } else if in_grid(n, x + dx, y + dy) {
        lemma_grid_index_bounds(n, x + dx, y + dy);
    }
}

} // verus!
