//! The backward-chain driver: walk the single-step predecessor search
//! backward across generations. One stack entry per generation holds the
//! candidate list still to try at that depth, ranked by the bounding-box
//! heuristic (descending, consumed from the end, so the smallest-scoring
//! candidate is tried first); a generation whose list runs dry is popped
//! and the previous generation moves on to its next candidate. The walk
//! is exhaustive: it fails only when no chain of the requested length
//! exists anywhere in the searched space.

use vstd::prelude::*;
use crate::grid::{Cell, Grid, complete, grid_views};
use crate::transfer::step_spec;
use crate::frontier::{
    find_predecessors_parallel, lemma_parallel_results_len, lemma_parallel_results_members,
    parallel_results,
};
use crate::backtrack::{pow3, result_ok};
use crate::search::at_edge;
use crate::heuristic::{has_grid, sort_by_area_desc};

verus! {

/// Strictly more than any single-generation result count on an `n`-sided
/// grid: the base of the chain driver's termination measure.
pub open spec fn level_base(n: int) -> nat {
    pow3((n * n) as nat) + 1
}

/// `level_base(n)` to the power `e` (1 for non-positive `e`).
pub open spec fn level_pow(n: int, e: int) -> nat
    decreases e,
{
    if e <= 0 {
        1nat
    } else {
        level_base(n) * level_pow(n, e - 1)
    }
}

proof fn lemma_level_pow_pos(n: int, e: int)
    ensures
        level_pow(n, e) >= 1,
    decreases e,
{
    if e > 0 {
        lemma_level_pow_pos(n, e - 1);
        assert(level_base(n) * level_pow(n, e - 1) >= 1) by (nonlinear_arith)
            requires level_base(n) >= 1 && level_pow(n, e - 1) >= 1;
    }
}

/// Combined weight of all candidate lists on the driver's stack: one list
/// at depth `i` weighs its length times `level_base(n)^(steps - i)`.
pub open spec fn chain_measure(st: Seq<Vec<Grid>>, n: int, steps: int) -> nat
    decreases st.len(),
{
    if st.len() == 0 {
        0
    } else {
        chain_measure(st.drop_last(), n, steps) + st.last()@.len() * level_pow(
            n,
            steps - (st.len() - 1),
        )
    }
}

proof fn lemma_chain_measure_push(st: Seq<Vec<Grid>>, lv: Vec<Grid>, n: int, steps: int)
    ensures
        chain_measure(st.push(lv), n, steps) == chain_measure(st, n, steps) + lv@.len()
            * level_pow(n, steps - st.len()),
{
    assert(st.push(lv).drop_last() =~= st);
    assert(st.push(lv).last() == lv);
}

/// Somewhere in the space the driver explores there is a backward chain of
/// `steps` grids starting at `g`: either the chain is already long enough,
/// or some member of the single-step search's result set on `g` (skip
/// lonely cells, bounded topology, shy from edges — the driver's fixed
/// constraints) extends it one generation further back.
pub open spec fn searchable_chain(n: int, g: Seq<Cell>, steps: int) -> bool
    decreases steps,
{
    steps <= 1 || (exists|p: Seq<Cell>|
        parallel_results(n, g, true, false, true).contains(p) && searchable_chain(
            n,
            p,
            steps - 1,
        ))
}

/// `c` is a backward chain of the requested length: it starts at the
/// walk's starting grid, ends at the returned grid, and each later entry
/// is a complete grid whose forward step (bounded topology, as the driver
/// searches) reproduces the entry before it exactly.
pub open spec fn chain_to(
    c: Seq<Seq<Cell>>,
    n: int,
    steps: int,
    first: Seq<Cell>,
    last_grid: Seq<Cell>,
) -> bool {
    let m = if steps <= 1 {
        1int
    } else {
        steps
    };
    &&& c.len() == m
    &&& c[0] == first
    &&& c[m - 1] == last_grid
    &&& forall|i: int| 1 <= i < m ==> complete(#[trigger] c[i]) && c[i].len() == n * n
        && step_spec(c[i], n, false) == c[i - 1]
}

/// `c` is a chain the driver can actually walk: it starts at `first`, ends
/// at `last_grid`, and every later entry is a member of the single-step
/// search's result set on the entry before it (under the driver's fixed
/// constraints).
pub open spec fn search_chain_to(
    c: Seq<Seq<Cell>>,
    n: int,
    steps: int,
    first: Seq<Cell>,
    last_grid: Seq<Cell>,
) -> bool {
    let m = if steps <= 1 {
        1int
    } else {
        steps
    };
    &&& c.len() == m
    &&& c[0] == first
    &&& c[m - 1] == last_grid
    &&& forall|i: int| 1 <= i < m ==> parallel_results(n, c[i - 1], true, false, true).contains(
        #[trigger] c[i],
    )
}

/// A witness chain through the searched space shows the space is
/// searchable to that depth.
proof fn lemma_search_chain_implies_searchable(
    c: Seq<Seq<Cell>>,
    n: int,
    steps: int,
    first: Seq<Cell>,
    last_grid: Seq<Cell>,
)
    requires
        search_chain_to(c, n, steps, first, last_grid),
    ensures
        searchable_chain(n, first, steps),
    decreases steps,
{
    if steps > 1 {
        let tail = c.drop_first();
        assert(forall|i: int| 0 <= i < tail.len() ==> #[trigger] tail[i] == c[i + 1]);
        assert(search_chain_to(tail, n, steps - 1, c[1], last_grid));
        lemma_search_chain_implies_searchable(tail, n, steps - 1, c[1], last_grid);
        assert(parallel_results(n, first, true, false, true).contains(c[1]));
        assert(searchable_chain(n, c[1], steps - 1));
    }
}

/// Dropping an exhausted (empty) candidate list cannot lose the witness
/// of a still-searchable chain.
proof fn lemma_witness_after_drop(st0: Seq<Vec<Grid>>, ni: int, stepsi: int)
    requires
        st0.len() >= 1,
        st0.last()@.len() == 0,
        exists|li: int, lj: int|
            0 <= li < st0.len() && 0 <= lj < st0[li]@.len() && searchable_chain(
                ni,
                (#[trigger] st0[li]@[lj])@,
                stepsi - li,
            ),
    ensures
        exists|li: int, lj: int|
            0 <= li < st0.drop_last().len() && 0 <= lj < st0.drop_last()[li]@.len()
                && searchable_chain(ni, (#[trigger] st0.drop_last()[li]@[lj])@, stepsi - li),
{
    let (li, lj) = choose|li: int, lj: int|
        0 <= li < st0.len() && 0 <= lj < st0[li]@.len() && searchable_chain(
            ni,
            (#[trigger] st0[li]@[lj])@,
            stepsi - li,
        );
    assert(li != st0.len() - 1);
    assert(st0.drop_last()[li]@[lj] == st0[li]@[lj]);
}

/// Discarding a candidate whose single-step search came back empty cannot
/// lose the witness: no searchable chain can run through that candidate.
proof fn lemma_witness_after_retry(
    st0: Seq<Vec<Grid>>,
    newst: Seq<Vec<Grid>>,
    g: Grid,
    ni: int,
    stepsi: int,
)
    requires
        1 <= st0.len() < stepsi,
        st0.last()@.len() >= 1,
        g == st0.last()@.last(),
        parallel_results(ni, g@, true, false, true).len() == 0,
        newst.len() == st0.len(),
        forall|i: int| 0 <= i < st0.len() - 1 ==> newst[i] == st0[i],
        newst.last()@ == st0.last()@.drop_last(),
        exists|li: int, lj: int|
            0 <= li < st0.len() && 0 <= lj < st0[li]@.len() && searchable_chain(
                ni,
                (#[trigger] st0[li]@[lj])@,
                stepsi - li,
            ),
    ensures
        exists|li: int, lj: int|
            0 <= li < newst.len() && 0 <= lj < newst[li]@.len() && searchable_chain(
                ni,
                (#[trigger] newst[li]@[lj])@,
                stepsi - li,
            ),
{
    let h0 = st0.len() as int;
    let (li, lj) = choose|li: int, lj: int|
        0 <= li < st0.len() && 0 <= lj < st0[li]@.len() && searchable_chain(
            ni,
            (#[trigger] st0[li]@[lj])@,
            stepsi - li,
        );
    if li == h0 - 1 && lj == st0.last()@.len() - 1 {
        assert(st0[li]@[lj] == g);
        assert(searchable_chain(ni, g@, stepsi - (h0 - 1)));
        assert(stepsi - (h0 - 1) > 1);
        let p = choose|p: Seq<Cell>|
            parallel_results(ni, g@, true, false, true).contains(p) && searchable_chain(
                ni,
                p,
                stepsi - (h0 - 1) - 1,
            );
        assert(false);
    } else if li == h0 - 1 {
        assert(newst[li]@[lj] == st0[li]@[lj]);
    } else {
        assert(newst[li]@[lj] == st0[li]@[lj]);
    }
}

/// Replacing the chosen candidate by the full result set of its
/// single-step search keeps the witness: a chain through the candidate
/// continues through one of its search results, which all sit in the new
/// top list.
proof fn lemma_witness_after_expand(
    st0: Seq<Vec<Grid>>,
    newst: Seq<Vec<Grid>>,
    g: Grid,
    results: Seq<Grid>,
    sorted: Seq<Grid>,
    ni: int,
    stepsi: int,
)
    requires
        1 <= st0.len() < stepsi,
        st0.last()@.len() >= 1,
        g == st0.last()@.last(),
        grid_views(results) == parallel_results(ni, g@, true, false, true),
        sorted.to_multiset() == results.to_multiset(),
        newst.len() == st0.len() + 1,
        forall|i: int| 0 <= i < st0.len() - 1 ==> newst[i] == st0[i],
        newst[st0.len() - 1]@ == st0.last()@.drop_last(),
        newst[st0.len() as int]@ == sorted,
        exists|li: int, lj: int|
            0 <= li < st0.len() && 0 <= lj < st0[li]@.len() && searchable_chain(
                ni,
                (#[trigger] st0[li]@[lj])@,
                stepsi - li,
            ),
    ensures
        exists|li: int, lj: int|
            0 <= li < newst.len() && 0 <= lj < newst[li]@.len() && searchable_chain(
                ni,
                (#[trigger] newst[li]@[lj])@,
                stepsi - li,
            ),
{
    let h0 = st0.len() as int;
    let pres = parallel_results(ni, g@, true, false, true);
    let (li, lj) = choose|li: int, lj: int|
        0 <= li < st0.len() && 0 <= lj < st0[li]@.len() && searchable_chain(
            ni,
            (#[trigger] st0[li]@[lj])@,
            stepsi - li,
        );
    if li == h0 - 1 && lj == st0.last()@.len() - 1 {
        assert(st0[li]@[lj] == g);
        assert(searchable_chain(ni, g@, stepsi - (h0 - 1)));
        assert(stepsi - (h0 - 1) > 1);
        let p = choose|p: Seq<Cell>|
            parallel_results(ni, g@, true, false, true).contains(p) && searchable_chain(
                ni,
                p,
                stepsi - (h0 - 1) - 1,
            );
        let jr = choose|jr: int| 0 <= jr < pres.len() && #[trigger] pres[jr] == p;
        assert(grid_views(results)[jr] == results[jr]@);
        assert(results[jr]@ == p);
        results.to_multiset_ensures();
        sorted.to_multiset_ensures();
        assert(results.contains(results[jr]));
        assert(results.to_multiset().count(results[jr]) > 0);
        assert(sorted.to_multiset().count(results[jr]) > 0);
        assert(sorted.contains(results[jr]));
        let js = choose|js: int| 0 <= js < sorted.len() && #[trigger] sorted[js] == results[jr];
        assert(newst[h0]@[js]@ == p);
        assert(searchable_chain(ni, newst[h0]@[js]@, stepsi - h0));
    } else if li == h0 - 1 {
        assert(newst[li]@[lj] == st0[li]@[lj]);
    } else {
        assert(newst[li]@[lj] == st0[li]@[lj]);
    }
}

/// Every grid in the freshly sorted result list is a valid candidate one
/// generation deeper: a complete search result of the chosen candidate.
proof fn lemma_sorted_level_ok(
    results: Seq<Grid>,
    sorted: Seq<Grid>,
    g: Grid,
    d: Seq<Seq<Cell>>,
    start: Grid,
    lvl: int,
)
    requires
        forall|i: int| 0 <= i < results.len() ==> result_ok(#[trigger] results[i], g, false),
        grid_views(results) == parallel_results(start.n as int, g@, true, false, true),
        forall|i: int| 0 <= i < sorted.len() ==> has_grid(results, #[trigger] sorted[i]),
        g.wf(),
        g.n == start.n,
        1 <= lvl,
        0 <= lvl - 1 < d.len(),
        d[lvl - 1] == g@,
    ensures
        forall|j: int| 0 <= j < sorted.len() ==> level_ok(#[trigger] sorted[j], lvl, start, d),
{
    assert forall|j: int| 0 <= j < sorted.len() implies level_ok(
        #[trigger] sorted[j],
        lvl,
        start,
        d,
    ) by {
        let jw = choose|jw: int| 0 <= jw < results.len() && #[trigger] results[jw] == sorted[j];
        assert(result_ok(results[jw], g, false));
        assert(grid_views(results)[jw] == results[jw]@);
        assert(parallel_results(start.n as int, g@, true, false, true).contains(sorted[j]@));
    }
}

/// A grid sitting in the candidate list at depth `i`: at depth 0 it is the
/// starting grid itself; deeper, it is a member of the single-step
/// search's result set on the candidate chosen at depth `i - 1`.
pub open spec fn level_ok(g: Grid, i: int, start: Grid, d: Seq<Seq<Cell>>) -> bool {
    &&& g.wf()
    &&& g.n == start.n
    &&& complete(g@)
    &&& (i == 0 ==> g@ == start@)
    &&& (i >= 1 ==> step_spec(g@, start.n as int, false) == d[i - 1])
    &&& (i >= 1 ==> parallel_results(start.n as int, d[i - 1], true, false, true).contains(g@))
}

/// The chosen candidates so far form a valid backward chain from the
/// starting grid, each a search result of the one before it.
pub open spec fn chosen_ok(d: Seq<Seq<Cell>>, start: Grid) -> bool {
    forall|i: int|
        0 <= i < d.len() ==> {
            &&& complete(#[trigger] d[i])
            &&& d[i].len() == start.n * start.n
            &&& (i == 0 ==> d[0] == start@)
            &&& (i >= 1 ==> step_spec(d[i], start.n as int, false) == d[i - 1])
            &&& (i >= 1 ==> parallel_results(start.n as int, d[i - 1], true, false, true).contains(
                d[i],
            ))
        }
}

/// Walk the predecessor search backward until the chain of grids —
/// starting grid included — is `steps` long, and return the last grid
/// found. Each generation runs the parallel frontier search with "skip
/// lonely cells" set, bounded topology, and "shy from edges" set, ranks
/// the results by the bounding-box heuristic, and tries them one at a
/// time; a generation with no candidates left is popped and the previous
/// one resumes with its next candidate. The walk succeeds exactly when a
/// chain of the requested length exists in that space (`searchable_chain`);
/// on success the returned grid ends a chain whose every link is a member
/// of the previous link's result set, so for `steps > 1` its boundary
/// cells are all dead. A walk of `steps <= 1` is already satisfied by the
/// starting grid itself. Which chain end is returned when several exist is
/// left open here: it follows the heuristic order, whose ties are
/// unspecified.
pub fn backward_chain(start: &Grid, steps: usize) -> (r: Option<Grid>)
    requires
        start.wf(),
        complete(start@),
    ensures
        match r {
            Some(g) => g.wf() && g.n == start.n && complete(g@) && (exists|c: Seq<Seq<Cell>>|
                chain_to(c, start.n as int, steps as int, start@, g@) && search_chain_to(
                    c,
                    start.n as int,
                    steps as int,
                    start@,
                    g@,
                )),
            None => !searchable_chain(start.n as int, start@, steps as int),
        },
        r is Some ==> searchable_chain(start.n as int, start@, steps as int),
        steps <= 1 ==> (r matches Some(g) && g@ == start@),
        steps > 1 ==> (r matches Some(g) ==> forall|j: int|
            0 <= j < start.n * start.n && at_edge(start.n as int, j) ==> g@[j] == Cell::Dead),
{
    let n = start.n;
    let ghost ni = n as int;
    let ghost stepsi = steps as int;
    let mut stack: Vec<Vec<Grid>> = Vec::new();
    let mut first_level: Vec<Grid> = Vec::new();
    first_level.push(start.duplicate());
    stack.push(first_level);
    let ghost mut d: Seq<Seq<Cell>> = Seq::empty();
    proof {
        if searchable_chain(ni, start@, stepsi) {
            assert(stack@[0]@[0]@ == start@);
            assert(searchable_chain(ni, stack@[0]@[0]@, stepsi - 0));
        }
    }
    while stack.len() < steps
        invariant
            start.wf(),
            complete(start@),
            n == start.n,
            ni == n as int,
            stepsi == steps as int,
            stack@.len() <= (if stepsi <= 1 {
                1int
            } else {
                stepsi
            }),
            stack@.len() == 0 ==> stepsi > 1,
            d.len() == (if stack@.len() == 0 {
                0int
            } else {
                stack@.len() - 1
            }),
            chosen_ok(d, *start),
            forall|i: int, j: int|
                0 <= i < stack@.len() && 0 <= j < stack@[i]@.len() ==> level_ok(
                    #[trigger] stack@[i]@[j],
                    i,
                    *start,
                    d,
                ),
            stack@.len() >= stepsi ==> stack@.last()@.len() > 0,
            searchable_chain(ni, start@, stepsi) ==> (exists|li: int, lj: int|
                0 <= li < stack@.len() && 0 <= lj < stack@[li]@.len() && searchable_chain(
                    ni,
                    (#[trigger] stack@[li]@[lj])@,
                    stepsi - li,
                )),
        decreases chain_measure(stack@, ni, stepsi), stack@.len(),
    {
        let ghost m0 = chain_measure(stack@, ni, stepsi);
        let ghost h0 = stack@.len() as int;
        let ghost st0 = stack@;
        match stack.pop() {
            None => {
                proof {
                    if searchable_chain(ni, start@, stepsi) {
                        let (li, lj) = choose|li: int, lj: int|
                            0 <= li < st0.len() && 0 <= lj < st0[li]@.len() && searchable_chain(
                                ni,
                                (#[trigger] st0[li]@[lj])@,
                                stepsi - li,
                            );
                        assert(false);
                    }
                }
                return None;
            },
            Some(mut top) => {
                let ghost top0 = top@;
                proof {
                    assert(st0.drop_last() == stack@);
                    assert(m0 == chain_measure(stack@, ni, stepsi) + top@.len() * level_pow(
                        ni,
                        stepsi - (h0 - 1),
                    ));
                }
                match top.pop() {
                    None => {
                        // this generation is exhausted: drop it and let the
                        // previous generation try its next candidate
                        proof {
                            if h0 >= 2 {
                                d = d.drop_last();
                            }
                            assert(top0.len() == 0);
                            assert(top0.len() * level_pow(ni, stepsi - (h0 - 1)) == 0);
                            assert(chain_measure(stack@, ni, stepsi) == m0);
                            if searchable_chain(ni, start@, stepsi) {
                                lemma_witness_after_drop(st0, ni, stepsi);
                            }
                        }
                    },
                    Some(g) => {
                        proof {
                            assert(level_ok(g, h0 - 1, *start, d));
                            lemma_level_pow_pos(ni, stepsi - h0);
                            lemma_level_pow_pos(ni, stepsi - (h0 - 1));
                        }
                        let results = find_predecessors_parallel(&g, true, false, true);
                        let ghost pres = parallel_results(ni, g@, true, false, true);
                        if results.len() > 0 {
                            proof {
                                lemma_parallel_results_len(ni, g@, true, false, true);
                                assert(grid_views(results@).len() == results@.len());
                            }
                            let sorted = sort_by_area_desc(results);
                            let ghost rescount = sorted@.len() as int;
                            stack.push(top);
                            proof {
                                lemma_chain_measure_push(st0.drop_last(), top, ni, stepsi);
                                d = d.push(g@);
                            }
                            stack.push(sorted);
                            proof {
                                lemma_chain_measure_push(
                                    st0.drop_last().push(top),
                                    sorted,
                                    ni,
                                    stepsi,
                                );
                                let e = stepsi - (h0 - 1);
                                assert((top0.len() - 1) * level_pow(ni, e) == top0.len()
                                    * level_pow(ni, e) - level_pow(ni, e)) by (nonlinear_arith);
                                assert(level_pow(ni, e) == level_base(ni) * level_pow(ni, e - 1));
                                assert(rescount * level_pow(ni, e - 1) < level_base(ni)
                                    * level_pow(ni, e - 1)) by (nonlinear_arith)
                                    requires
                                        0 <= rescount < level_base(ni),
                                        level_pow(ni, e - 1) >= 1,
                                ;
                                assert(chain_measure(stack@, ni, stepsi) < m0);
                                lemma_sorted_level_ok(results@, sorted@, g, d, *start, h0);
                                if searchable_chain(ni, start@, stepsi) {
                                    assert(forall|i: int| 0 <= i < st0.len() - 1
                                        ==> #[trigger] stack@[i] == st0[i]);
                                    lemma_witness_after_expand(
                                        st0,
                                        stack@,
                                        g,
                                        results@,
                                        sorted@,
                                        ni,
                                        stepsi,
                                    );
                                }
                            }
                        } else {
                            stack.push(top);
                            proof {
                                lemma_chain_measure_push(st0.drop_last(), top, ni, stepsi);
                                let e = stepsi - (h0 - 1);
                                assert((top0.len() - 1) * level_pow(ni, e) == top0.len()
                                    * level_pow(ni, e) - level_pow(ni, e)) by (nonlinear_arith);
                                assert(chain_measure(stack@, ni, stepsi) < m0);
                                if searchable_chain(ni, start@, stepsi) {
                                    assert(grid_views(results@).len() == results@.len());
                                    assert(pres.len() == 0);
                                    assert(forall|i: int| 0 <= i < st0.len() - 1
                                        ==> #[trigger] stack@[i] == st0[i]);
                                    lemma_witness_after_retry(st0, stack@, g, ni, stepsi);
                                }
                            }
                        }
                    },
                }
            },
        }
    }
    let mut top = stack.pop().unwrap();
    let g = top.pop().unwrap();
    proof {
        let h = stack@.len() + 1;
        assert(level_ok(g, h - 1, *start, d));
        let c = d.push(g@);
        assert(chain_to(c, ni, stepsi, start@, g@));
        assert(search_chain_to(c, ni, stepsi, start@, g@));
        lemma_search_chain_implies_searchable(c, ni, stepsi, start@, g@);
        if stepsi > 1 {
            assert(parallel_results(ni, d[h - 2], true, false, true).contains(g@));
            let pres_last = parallel_results(ni, d[h - 2], true, false, true);
            let jw = choose|jw: int| 0 <= jw < pres_last.len() && #[trigger] pres_last[jw] == g@;
            lemma_parallel_results_members(ni, d[h - 2], true, false, true);
        }
    }
    Some(g)
}

} // verus!
