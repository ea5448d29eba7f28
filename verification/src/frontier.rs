//! The parallel frontier search: a breadth-synchronized variant of the
//! predecessor enumeration. At each of the N * N visitation steps, every
//! candidate in the frontier is independently expanded into 0, 1 or 2
//! children; the next frontier is the in-order concatenation of all
//! children. The per-candidate expansions are side-effect-free, so one
//! step's fan-out runs on a rayon thread pool and is concatenated again at
//! the step's barrier.

use vstd::prelude::*;
use rayon::iter::IntoParallelRefIterator;
use rayon::iter::ParallelIterator;
use crate::grid::{Cell, Grid, assigned_below, complete, grid_views};
use crate::transfer::{lemma_step_preserves_complete, step_spec};
use crate::consistency::{lemma_complete_consistent_equal, sim_consistent};
use crate::search::{all_unknown, at_edge, child_seq, expand_one, feasible_children};
use crate::backtrack::result_ok;

verus! {

/// One synchronized step: the concatenation, in frontier order, of every
/// candidate's children at step `k`.
pub open spec fn expand_frontier(
    fr: Seq<Seq<Cell>>,
    n: int,
    target: Seq<Cell>,
    k: int,
    skip_lonely: bool,
    wrap: bool,
    shy: bool,
) -> Seq<Seq<Cell>>
    decreases fr.len(),
{
    if fr.len() == 0 {
        Seq::<Seq<Cell>>::empty()
    } else {
        child_seq(fr[0], n, target, k, skip_lonely, wrap, shy) + expand_frontier(
            fr.drop_first(),
            n,
            target,
            k,
            skip_lonely,
            wrap,
            shy,
        )
    }
}

/// The frontier after the first `k` visitation steps, starting from the
/// single all-`Unknown` candidate.
pub open spec fn frontier_at(
    n: int,
    target: Seq<Cell>,
    k: int,
    skip_lonely: bool,
    wrap: bool,
    shy: bool,
) -> Seq<Seq<Cell>>
    decreases k,
{
    if k <= 0 {
        seq![all_unknown(n)]
    } else {
        expand_frontier(
            frontier_at(n, target, k - 1, skip_lonely, wrap, shy),
            n,
            target,
            k - 1,
            skip_lonely,
            wrap,
            shy,
        )
    }
}

/// The members of `fr` whose simulation is consistent with the target, in
/// order.
pub open spec fn keep_consistent(
    fr: Seq<Seq<Cell>>,
    n: int,
    target: Seq<Cell>,
    wrap: bool,
) -> Seq<Seq<Cell>>
    decreases fr.len(),
{
    if fr.len() == 0 {
        Seq::<Seq<Cell>>::empty()
    } else {
        let rest = keep_consistent(fr.drop_first(), n, target, wrap);
        if sim_consistent(fr[0], n, target, wrap) {
            seq![fr[0]] + rest
        } else {
            rest
        }
    }
}

/// Everything the parallel frontier search returns: the consistent members
/// of the frontier after all `n * n` steps.
#[verifier::opaque]
pub open spec fn parallel_results(
    n: int,
    target: Seq<Cell>,
    skip_lonely: bool,
    wrap: bool,
    shy: bool,
) -> Seq<Seq<Cell>> {
    keep_consistent(frontier_at(n, target, n * n, skip_lonely, wrap, shy), n, target, wrap)
}

/// All cells of `g` at visitation positions below `k` that lie on the
/// grid's outer boundary are `Dead`.
pub open spec fn edge_dead_below(g: Seq<Cell>, n: int, k: int) -> bool {
    forall|j: int| 0 <= j < k && at_edge(n, j) ==> g[j] == Cell::Dead
}

/// Filtering at the end keeps the sequence length from growing.
proof fn lemma_keep_consistent_push(
    fr: Seq<Seq<Cell>>,
    x: Seq<Cell>,
    n: int,
    target: Seq<Cell>,
    wrap: bool,
)
    ensures
        keep_consistent(fr.push(x), n, target, wrap) == keep_consistent(fr, n, target, wrap) + (
        if sim_consistent(x, n, target, wrap) {
            seq![x]
        } else {
            Seq::<Seq<Cell>>::empty()
        }),
    decreases fr.len(),
{
    if fr.len() == 0 {
        assert(fr.push(x).drop_first() =~= fr);
        assert(fr.push(x)[0] == x);
        if sim_consistent(x, n, target, wrap) {
            assert(keep_consistent(fr.push(x), n, target, wrap) =~= keep_consistent(
                fr,
                n,
                target,
                wrap,
            ) + seq![x]);
        } else {
            assert(keep_consistent(fr.push(x), n, target, wrap) =~= keep_consistent(
                fr,
                n,
                target,
                wrap,
            ));
        }
    } else {
        lemma_keep_consistent_push(fr.drop_first(), x, n, target, wrap);
        assert(fr.push(x).drop_first() =~= fr.drop_first().push(x));
        assert(fr.push(x)[0] == fr[0]);
        if sim_consistent(fr[0], n, target, wrap) {
            assert(keep_consistent(fr.push(x), n, target, wrap) =~= keep_consistent(
                fr,
                n,
                target,
                wrap,
            ) + (if sim_consistent(x, n, target, wrap) {
                seq![x]
            } else {
                Seq::<Seq<Cell>>::empty()
            }));
        } else {
            assert(keep_consistent(fr.push(x), n, target, wrap) =~= keep_consistent(
                fr,
                n,
                target,
                wrap,
            ) + (if sim_consistent(x, n, target, wrap) {
                seq![x]
            } else {
                Seq::<Seq<Cell>>::empty()
            }));
        }
    }
}

/// Every child produced at step `k` is one further-assigned candidate:
/// its cells below `k + 1` are assigned, the rest are still `Unknown`,
/// and under "shy from edges" its boundary cells up to `k + 1` are `Dead`.
proof fn lemma_expand_members(
    fr: Seq<Seq<Cell>>,
    n: int,
    target: Seq<Cell>,
    k: int,
    skip_lonely: bool,
    wrap: bool,
    shy: bool,
)
    requires
        1 <= n,
        0 <= k < n * n,
        forall|i: int| 0 <= i < fr.len() ==> (#[trigger] fr[i]).len() == n * n && assigned_below(
            fr[i],
            k,
        ) && (shy ==> edge_dead_below(fr[i], n, k)),
    ensures
        forall|i: int|
            0 <= i < expand_frontier(fr, n, target, k, skip_lonely, wrap, shy).len() ==> {
                let g = #[trigger] expand_frontier(fr, n, target, k, skip_lonely, wrap, shy)[i];
                g.len() == n * n && assigned_below(g, k + 1) && (shy ==> edge_dead_below(
                    g,
                    n,
                    k + 1,
                ))
            },
    decreases fr.len(),
{
    if fr.len() > 0 {
        assert(forall|i: int| 0 <= i < fr.drop_first().len() ==> (#[trigger] fr.drop_first()[
            i]).len() == n * n && assigned_below(fr.drop_first()[i], k) && (shy
            ==> edge_dead_below(fr.drop_first()[i], n, k)));
        lemma_expand_members(fr.drop_first(), n, target, k, skip_lonely, wrap, shy);
        let cs = child_seq(fr[0], n, target, k, skip_lonely, wrap, shy);
        let rest = expand_frontier(fr.drop_first(), n, target, k, skip_lonely, wrap, shy);
        let whole = expand_frontier(fr, n, target, k, skip_lonely, wrap, shy);
        assert(whole == cs + rest);
        assert forall|j: int| 0 <= j < cs.len() implies (#[trigger] cs[j]).len() == n * n
            && assigned_below(cs[j], k + 1) && (shy ==> edge_dead_below(cs[j], n, k + 1)) by {
            assert(cs[j] == fr[0].update(k, Cell::Alive) || cs[j] == fr[0].update(k, Cell::Dead));
            if shy && at_edge(n, k) {
                assert(cs[j] == fr[0].update(k, Cell::Dead));
            }
        }
        assert forall|i: int| 0 <= i < whole.len() implies (#[trigger] whole[i]).len() == n * n
            && assigned_below(whole[i], k + 1) && (shy ==> edge_dead_below(whole[i], n, k + 1)) by {
            if i < cs.len() {
                assert(whole[i] == cs[i]);
            } else {
                assert(whole[i] == rest[i - cs.len()]);
            }
        }
    }
}

/// Everything in the frontier after `k` steps is a candidate with exactly
/// its first `k` visitation cells assigned (and, when shy, dead on the
/// boundary part of them).
proof fn lemma_frontier_members(
    n: int,
    target: Seq<Cell>,
    k: int,
    skip_lonely: bool,
    wrap: bool,
    shy: bool,
)
    requires
        1 <= n,
        0 <= k <= n * n,
    ensures
        forall|i: int|
            0 <= i < frontier_at(n, target, k, skip_lonely, wrap, shy).len() ==> {
                let g = #[trigger] frontier_at(n, target, k, skip_lonely, wrap, shy)[i];
                g.len() == n * n && assigned_below(g, k) && (shy ==> edge_dead_below(g, n, k))
            },
    decreases k,
{
    if k <= 0 {
        assert(frontier_at(n, target, k, skip_lonely, wrap, shy) == seq![all_unknown(n)]);
        assert(all_unknown(n).len() == n * n);
        assert(assigned_below(all_unknown(n), 0));
    } else {
        lemma_frontier_members(n, target, k - 1, skip_lonely, wrap, shy);
        lemma_expand_members(
            frontier_at(n, target, k - 1, skip_lonely, wrap, shy),
            n,
            target,
            k - 1,
            skip_lonely,
            wrap,
            shy,
        );
    }
}

/// What the final filter keeps: members of the frontier whose simulation
/// is consistent with the target.
proof fn lemma_keep_members(fr: Seq<Seq<Cell>>, n: int, target: Seq<Cell>, wrap: bool)
    ensures
        forall|i: int|
            0 <= i < keep_consistent(fr, n, target, wrap).len() ==> {
                let g = #[trigger] keep_consistent(fr, n, target, wrap)[i];
                fr.contains(g) && sim_consistent(g, n, target, wrap)
            },
    decreases fr.len(),
{
    if fr.len() > 0 {
        lemma_keep_members(fr.drop_first(), n, target, wrap);
        let rest = keep_consistent(fr.drop_first(), n, target, wrap);
        let whole = keep_consistent(fr, n, target, wrap);
        let head_len: int = if sim_consistent(fr[0], n, target, wrap) {
            1
        } else {
            0
        };
        assert forall|i: int| 0 <= i < whole.len() implies (fr.contains(#[trigger] whole[i])
            && sim_consistent(whole[i], n, target, wrap)) by {
            if i < head_len {
                assert(whole[i] == fr[0]);
                assert(fr.contains(fr[0]));
            } else {
                assert(whole[i] == rest[i - head_len]);
                let g = rest[i - head_len];
                assert(fr.drop_first().contains(g));
                let j = choose|j: int| 0 <= j < fr.drop_first().len() && fr.drop_first()[j] == g;
                assert(fr[j + 1] == g);
                assert(fr.contains(g));
            }
        }
    }
}

/// One step less than triples the frontier: each candidate contributes at
/// most two children.
proof fn lemma_expand_len(
    fr: Seq<Seq<Cell>>,
    n: int,
    target: Seq<Cell>,
    k: int,
    skip_lonely: bool,
    wrap: bool,
    shy: bool,
)
    ensures
        expand_frontier(fr, n, target, k, skip_lonely, wrap, shy).len() <= 3 * fr.len(),
    decreases fr.len(),
{
    if fr.len() > 0 {
        lemma_expand_len(fr.drop_first(), n, target, k, skip_lonely, wrap, shy);
        assert(child_seq(fr[0], n, target, k, skip_lonely, wrap, shy).len() <= 2);
    }
}

/// The frontier after `k` steps holds at most `3^k` candidates.
proof fn lemma_frontier_len(
    n: int,
    target: Seq<Cell>,
    k: int,
    skip_lonely: bool,
    wrap: bool,
    shy: bool,
)
    ensures
        frontier_at(n, target, k, skip_lonely, wrap, shy).len() <= crate::backtrack::pow3(
            (if k >= 0 {
                k
            } else {
                0
            }) as nat,
        ),
    decreases k,
{
    if k <= 0 {
    } else {
        lemma_frontier_len(n, target, k - 1, skip_lonely, wrap, shy);
        lemma_expand_len(
            frontier_at(n, target, k - 1, skip_lonely, wrap, shy),
            n,
            target,
            k - 1,
            skip_lonely,
            wrap,
            shy,
        );
        let prev = frontier_at(n, target, k - 1, skip_lonely, wrap, shy).len() as int;
        let cap = crate::backtrack::pow3((k - 1) as nat) as int;
        assert(3 * prev <= 3 * cap) by (nonlinear_arith)
            requires prev <= cap;
    }
}

proof fn lemma_keep_len(fr: Seq<Seq<Cell>>, n: int, target: Seq<Cell>, wrap: bool)
    ensures
        keep_consistent(fr, n, target, wrap).len() <= fr.len(),
    decreases fr.len(),
{
    if fr.len() > 0 {
        lemma_keep_len(fr.drop_first(), n, target, wrap);
    }
}

/// A single-generation search returns fewer than `3^(n * n)` results; the
/// chain driver's termination measure rests on this bound.
pub proof fn lemma_parallel_results_len(
    n: int,
    target: Seq<Cell>,
    skip_lonely: bool,
    wrap: bool,
    shy: bool,
)
    requires
        1 <= n,
    ensures
        parallel_results(n, target, skip_lonely, wrap, shy).len() <= crate::backtrack::pow3(
            (n * n) as nat,
        ),
{
    reveal(parallel_results);
    crate::grid::lemma_grid_index_bounds(n, n - 1, n - 1);
    lemma_frontier_len(n, target, n * n, skip_lonely, wrap, shy);
    lemma_keep_len(frontier_at(n, target, n * n, skip_lonely, wrap, shy), n, target, wrap);
}

/// What every member of the parallel search's result set is: a complete
/// grid of the right size whose forward step reproduces the (complete)
/// target exactly, with a dead boundary when the search was shy of edges.
pub proof fn lemma_parallel_results_members(
    n: int,
    target: Seq<Cell>,
    skip_lonely: bool,
    wrap: bool,
    shy: bool,
)
    requires
        1 <= n,
        target.len() == n * n,
        complete(target),
    ensures
        forall|i: int|
            0 <= i < parallel_results(n, target, skip_lonely, wrap, shy).len() ==> {
                let g = #[trigger] parallel_results(n, target, skip_lonely, wrap, shy)[i];
                &&& g.len() == n * n
                &&& complete(g)
                &&& sim_consistent(g, n, target, wrap)
                &&& step_spec(g, n, wrap) == target
                &&& (shy ==> forall|j: int| 0 <= j < n * n && at_edge(n, j) ==> g[j]
                    == Cell::Dead)
            },
{
    reveal(parallel_results);
    crate::grid::lemma_grid_index_bounds(n, n - 1, n - 1);
    let fin = frontier_at(n, target, n * n, skip_lonely, wrap, shy);
    lemma_frontier_members(n, target, n * n, skip_lonely, wrap, shy);
    lemma_keep_members(fin, n, target, wrap);
    let pres = parallel_results(n, target, skip_lonely, wrap, shy);
    assert forall|i: int| 0 <= i < pres.len() implies {
        let g = #[trigger] pres[i];
        &&& g.len() == n * n
        &&& complete(g)
        &&& sim_consistent(g, n, target, wrap)
        &&& step_spec(g, n, wrap) == target
        &&& (shy ==> forall|j: int| 0 <= j < n * n && at_edge(n, j) ==> g[j] == Cell::Dead)
    } by {
        let g = pres[i];
        assert(fin.contains(g) && sim_consistent(g, n, target, wrap));
        let w = choose|w: int| 0 <= w < fin.len() && fin[w] == g;
        assert(g.len() == n * n && assigned_below(g, n * n));
        assert(complete(g));
        lemma_step_preserves_complete(g, n, wrap);
        lemma_complete_consistent_equal(step_spec(g, n, wrap), target);
        if shy {
            assert(edge_dead_below(g, n, n * n));
        }
    }
}

/// Relies on rayon's `par_iter().map(..).flatten().collect::<Vec<_>>()`
/// over the frontier vector: rayon documents that collecting a parallel
/// iterator into a `Vec` yields the items in the same order as the
/// equivalent sequential iterator chain, so the collected vector is the
/// in-order concatenation of the per-candidate child vectors; each child
/// vector itself comes from this crate's verified `expand_one`, whose
/// contract says it equals `child_seq` of that candidate.
#[verifier::external_body]
fn par_expand(
    frontier: &Vec<Grid>,
    target: &Grid,
    k: usize,
    skip_lonely: bool,
    wrap: bool,
    shy: bool,
) -> (r: Vec<Grid>)
    requires
        target.wf(),
        forall|i: int| 0 <= i < frontier@.len() ==> (#[trigger] frontier@[i]).wf()
            && frontier@[i].n == target.n,
        k < target.n * target.n,
    ensures
        grid_views(r@) == expand_frontier(
            grid_views(frontier@),
            target.n as int,
            target@,
            k as int,
            skip_lonely,
            wrap,
            shy,
        ),
        forall|i: int| 0 <= i < r@.len() ==> (#[trigger] r@[i]).wf() && r@[i].n == target.n,
{
    frontier
        .par_iter()
        .map(|g: &Grid| expand_one(g, target, k, skip_lonely, wrap, shy))
        .flatten()
        .collect()
}

/// Breadth-synchronized enumeration of the complete predecessors of
/// `target`: the frontier starts as the single all-`Unknown` candidate and
/// is expanded once per visitation step — in parallel across candidates —
/// before a final consistency filter. With `shy_from_edges` set, boundary
/// cells are never assigned `Alive`, so no returned grid has a live cell
/// on the outer ring.
pub fn find_predecessors_parallel(
    target: &Grid,
    skip_lonely: bool,
    wrap: bool,
    shy_from_edges: bool,
) -> (r: Vec<Grid>)
    requires
        target.wf(),
        complete(target@),
    ensures
        grid_views(r@) == parallel_results(
            target.n as int,
            target@,
            skip_lonely,
            wrap,
            shy_from_edges,
        ),
        forall|i: int| 0 <= i < r@.len() ==> result_ok(#[trigger] r@[i], *target, wrap),
        shy_from_edges ==> forall|i: int, j: int|
            0 <= i < r@.len() && 0 <= j < target.n * target.n && at_edge(target.n as int, j)
                ==> r@[i]@[j] == Cell::Dead,
{
    let n = target.n;
    let total = n * n;
    let ghost ni = n as int;
    let mut frontier: Vec<Grid> = Vec::new();
    frontier.push(Grid::new_filled(n, Cell::Unknown));
    proof {
        assert(grid_views(frontier@) =~= frontier_at(
            ni,
            target@,
            0,
            skip_lonely,
            wrap,
            shy_from_edges,
        ));
    }
    let mut k: usize = 0;
    while k < total
        invariant
            target.wf(),
            complete(target@),
            n == target.n,
            total == n * n,
            k <= total,
            grid_views(frontier@) == frontier_at(
                n as int,
                target@,
                k as int,
                skip_lonely,
                wrap,
                shy_from_edges,
            ),
            forall|i: int| 0 <= i < frontier@.len() ==> (#[trigger] frontier@[i]).wf()
                && frontier@[i].n == n,
        decreases total - k,
    {
        frontier = par_expand(&frontier, target, k, skip_lonely, wrap, shy_from_edges);
        k = k + 1;
    }
    let ghost fin = grid_views(frontier@);
    let mut results: Vec<Grid> = Vec::new();
    let flen = frontier.len();
    let mut i: usize = 0;
    while i < flen
        invariant
            target.wf(),
            complete(target@),
            n == target.n,
            total == n * n,
            i <= flen,
            flen == frontier@.len(),
            fin == grid_views(frontier@),
            forall|p: int| 0 <= p < frontier@.len() ==> (#[trigger] frontier@[p]).wf()
                && frontier@[p].n == n,
            forall|p: int| 0 <= p < results@.len() ==> (#[trigger] results@[p]).wf()
                && results@[p].n == n,
            grid_views(results@) == keep_consistent(fin.take(i as int), n as int, target@, wrap),
        decreases flen - i,
    {
        let g = frontier[i].duplicate();
        let sim = g.step(wrap);
        proof {
            assert(fin.take(i as int).push(g@) =~= fin.take(i + 1));
            lemma_keep_consistent_push(fin.take(i as int), g@, n as int, target@, wrap);
        }
        if sim.consistent_with(target) {
            let ghost old_results = results@;
            results.push(g);
            proof {
                assert(grid_views(results@) =~= grid_views(old_results).push(results@[
                    results@.len() - 1]@));
            }
        }
        i = i + 1;
    }
    proof {
        reveal(parallel_results);
        assert(fin.take(flen as int) =~= fin);
        lemma_frontier_members(n as int, target@, total as int, skip_lonely, wrap, shy_from_edges);
        lemma_keep_members(fin, n as int, target@, wrap);
        let pres = parallel_results(n as int, target@, skip_lonely, wrap, shy_from_edges);
        assert(grid_views(results@) == pres);
        assert forall|i2: int| 0 <= i2 < results@.len() implies result_ok(
            #[trigger] results@[i2],
            *target,
            wrap,
        ) by {
            let gv = results@[i2]@;
            assert(grid_views(results@)[i2] == gv);
            assert(pres.contains(gv) || pres[i2] == gv);
            assert(fin.contains(gv) && sim_consistent(gv, n as int, target@, wrap));
            let w = choose|w: int| 0 <= w < fin.len() && fin[w] == gv;
            assert(gv.len() == n * n && assigned_below(gv, total as int));
            assert(complete(gv));
            lemma_step_preserves_complete(gv, n as int, wrap);
            lemma_complete_consistent_equal(step_spec(gv, n as int, wrap), target@);
        }
        if shy_from_edges {
            assert forall|i2: int, j: int|
                0 <= i2 < results@.len() && 0 <= j < n * n && at_edge(n as int, j)
                implies results@[i2]@[j] == Cell::Dead by {
                let gv = results@[i2]@;
                assert(grid_views(results@)[i2] == gv);
                assert(fin.contains(gv));
                let w = choose|w: int| 0 <= w < fin.len() && fin[w] == gv;
                assert(edge_dead_below(gv, n as int, total as int));
            }
        }
    }
    results
}

} // verus!
