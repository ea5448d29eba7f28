//! The sequential backtracking search: depth-first enumeration of the
//! complete predecessor grids of a target, assigning one cell at a time in
//! the fixed visitation order and pruning candidates whose simulation
//! already contradicts the target.

use vstd::prelude::*;
use crate::grid::{Cell, Grid, assigned_below, complete, grid_views};
use crate::transfer::{lemma_step_preserves_complete, step_spec};
use crate::consistency::{lemma_complete_consistent_equal, sim_consistent};
use crate::search::{expand_cell, feasible_children};

verus! {

/// Powers of three; the termination measure of the depth-first loop.
pub open spec fn pow3(m: nat) -> nat
    decreases m,
{
    if m == 0 {
        1nat
    } else {
        3 * pow3((m - 1) as nat)
    }
}

proof fn lemma_pow3_pos(m: nat)
    ensures
        pow3(m) >= 1,
    decreases m,
{
    if m > 0 {
        lemma_pow3_pos((m - 1) as nat);
    }
}

/// Weight of a search node whose cursor stands at `k` of `total` cells: a
/// node can branch into at most two children one step further on, so its
/// subtree is strictly lighter than `3^(total - k)`.
pub open spec fn node_weight(k: int, total: int) -> nat {
    pow3((total - k) as nat)
}

/// Combined weight of all nodes on the search stack.
pub open spec fn stack_weight(st: Seq<(Grid, usize)>, total: int) -> nat
    decreases st.len(),
{
    if st.len() == 0 {
        0
    } else {
        stack_weight(st.drop_last(), total) + node_weight(st.last().1 as int, total)
    }
}

proof fn lemma_stack_weight_push(st: Seq<(Grid, usize)>, node: (Grid, usize), total: int)
    ensures
        stack_weight(st.push(node), total) == stack_weight(st, total) + node_weight(
            node.1 as int,
            total,
        ),
{
    assert(st.push(node).drop_last() =~= st);
    assert(st.push(node).last() == node);
}

/// Everything the depth-first traversal rooted at candidate `s` (cursor at
/// `k`) emits, in emission order: nothing if the candidate's simulation
/// already contradicts the target; the candidate itself if it is fully
/// assigned; otherwise the `Dead` child's subtree first — the traversal
/// pushes the `Alive` child before the `Dead` one and pops last-in
/// first-out — then the `Alive` child's.
pub open spec fn subtree_results(
    s: Seq<Cell>,
    n: int,
    target: Seq<Cell>,
    k: int,
    skip_lonely: bool,
    wrap: bool,
) -> Seq<Seq<Cell>>
    decreases n * n - k,
{
    if !sim_consistent(s, n, target, wrap) {
        Seq::<Seq<Cell>>::empty()
    } else if k >= n * n {
        seq![s]
    } else {
        let cs = feasible_children(s, n, target, k, skip_lonely, wrap, false);
        if cs.len() == 2 {
            subtree_results(cs[1], n, target, k + 1, skip_lonely, wrap) + subtree_results(
                cs[0],
                n,
                target,
                k + 1,
                skip_lonely,
                wrap,
            )
        } else if cs.len() == 1 {
            subtree_results(cs[0], n, target, k + 1, skip_lonely, wrap)
        } else {
            Seq::<Seq<Cell>>::empty()
        }
    }
}

/// The full depth-first enumeration: what an uncapped backtracking search
/// returns, in order.
pub open spec fn backtrack_results(
    n: int,
    target: Seq<Cell>,
    skip_lonely: bool,
    wrap: bool,
) -> Seq<Seq<Cell>> {
    subtree_results(crate::search::all_unknown(n), n, target, 0, skip_lonely, wrap)
}

/// What the nodes still on the stack will emit, in emission order (the
/// top of the stack pops first).
pub open spec fn pending_results(
    st: Seq<(Grid, usize)>,
    n: int,
    target: Seq<Cell>,
    skip_lonely: bool,
    wrap: bool,
) -> Seq<Seq<Cell>>
    decreases st.len(),
{
    if st.len() == 0 {
        Seq::<Seq<Cell>>::empty()
    } else {
        subtree_results(st.last().0@, n, target, st.last().1 as int, skip_lonely, wrap)
            + pending_results(st.drop_last(), n, target, skip_lonely, wrap)
    }
}

proof fn lemma_pending_push(
    st: Seq<(Grid, usize)>,
    node: (Grid, usize),
    n: int,
    target: Seq<Cell>,
    skip_lonely: bool,
    wrap: bool,
)
    ensures
        pending_results(st.push(node), n, target, skip_lonely, wrap) == subtree_results(
            node.0@,
            n,
            target,
            node.1 as int,
            skip_lonely,
            wrap,
        ) + pending_results(st, n, target, skip_lonely, wrap),
{
    assert(st.push(node).drop_last() =~= st);
    assert(st.push(node).last() == node);
}

/// A node of the backtracking stack: a candidate whose cells below the
/// cursor are assigned and whose remaining cells are `Unknown`.
pub open spec fn node_ok(node: (Grid, usize), target: Grid) -> bool {
    &&& node.0.wf()
    &&& node.0.n == target.n
    &&& node.1 <= target.n * target.n
    &&& assigned_below(node.0@, node.1 as int)
}

/// A grid fit to be returned: complete, and its forward step reproduces
/// the (complete) target exactly.
pub open spec fn result_ok(g: Grid, target: Grid, wrap: bool) -> bool {
    &&& g.wf()
    &&& g.n == target.n
    &&& complete(g@)
    &&& sim_consistent(g@, target.n as int, target@, wrap)
    &&& step_spec(g@, target.n as int, wrap) == target@
}

/// Depth-first backtracking enumeration of the complete predecessors of
/// `target`, in discovery order: exactly `backtrack_results`, truncated
/// when `cap = Some(c)` stops the search after `c` results (after one
/// result, if `c` is zero). Candidates are popped from a LIFO stack
/// seeded with the all-`Unknown` grid; a candidate whose simulation
/// contradicts the target is discarded, a fully assigned consistent
/// candidate is emitted, and any other candidate branches on the feasible
/// values of its cursor cell.
pub fn find_predecessors(
    target: &Grid,
    skip_lonely: bool,
    wrap: bool,
    cap: Option<usize>,
) -> (r: Vec<Grid>)
    requires
        target.wf(),
        complete(target@),
    ensures
        forall|i: int| 0 <= i < r@.len() ==> result_ok(#[trigger] r@[i], *target, wrap),
        ({
            let full = backtrack_results(target.n as int, target@, skip_lonely, wrap);
            match cap {
                None => grid_views(r@) == full,
                Some(c) => {
                    let lim: int = if c < 1 {
                        1int
                    } else {
                        c as int
                    };
                    grid_views(r@) == full.take(
                        if full.len() <= lim {
                            full.len() as int
                        } else {
                            lim
                        },
                    )
                },
            }
        }),
{
    let n = target.n;
    let total = n * n;
    let ghost ni = n as int;
    let ghost full = backtrack_results(ni, target@, skip_lonely, wrap);
    let mut stack: Vec<(Grid, usize)> = Vec::new();
    let seed = Grid::new_filled(n, Cell::Unknown);
    proof {
        assert(seed@ =~= crate::search::all_unknown(ni));
    }
    let ghost empty_st = stack@;
    stack.push((seed, 0));
    let mut results: Vec<Grid> = Vec::new();
    proof {
        lemma_pending_push(empty_st, (seed, 0), ni, target@, skip_lonely, wrap);
        assert(pending_results(empty_st, ni, target@, skip_lonely, wrap)
            == Seq::<Seq<Cell>>::empty());
        assert(pending_results(stack@, ni, target@, skip_lonely, wrap) =~= subtree_results(
            crate::search::all_unknown(ni),
            ni,
            target@,
            0,
            skip_lonely,
            wrap,
        ));
        assert(grid_views(results@) + pending_results(stack@, ni, target@, skip_lonely, wrap)
            =~= full);
    }
    while stack.len() > 0
        invariant
            target.wf(),
            complete(target@),
            n == target.n,
            ni == n as int,
            total == n * n,
            full == backtrack_results(ni, target@, skip_lonely, wrap),
            forall|i: int| 0 <= i < stack@.len() ==> node_ok(#[trigger] stack@[i], *target),
            forall|i: int| 0 <= i < results@.len() ==> result_ok(#[trigger] results@[i], *target, wrap),
            grid_views(results@) + pending_results(stack@, ni, target@, skip_lonely, wrap)
                == full,
            cap matches Some(c) ==> results@.len() < (if c < 1 {
                1int
            } else {
                c as int
            }),
        decreases stack_weight(stack@, total as int),
    {
        let ghost w0 = stack_weight(stack@, total as int);
        let ghost emitted = grid_views(results@);
        let node = stack.pop().unwrap();
        let g = node.0;
        let k = node.1;
        let ghost sub = subtree_results(g@, ni, target@, k as int, skip_lonely, wrap);
        let ghost rest = pending_results(stack@, ni, target@, skip_lonely, wrap);
        proof {
            assert(node_ok(node, *target));
            assert(emitted + (sub + rest) == full);
            assert(stack_weight(stack@, total as int) == w0 - node_weight(k as int, total as int));
            lemma_pow3_pos((total - k) as nat);
        }
        let sim = g.step(wrap);
        if !sim.consistent_with(target) {
            // pruned: no completion of g can reach the target
            proof {
                assert(sub =~= Seq::<Seq<Cell>>::empty());
                assert(emitted + (sub + rest) =~= emitted + rest);
            }
        } else if k == total {
            proof {
                assert(complete(g@));
                lemma_step_preserves_complete(g@, ni, wrap);
                lemma_complete_consistent_equal(step_spec(g@, ni, wrap), target@);
                assert(sub =~= seq![g@]);
                assert(emitted + (sub + rest) =~= emitted.push(g@) + rest);
            }
            let ghost old_results = results@;
            results.push(g);
            proof {
                assert(grid_views(results@) =~= grid_views(old_results).push(results@[
                    results@.len() - 1]@));
            }
            match cap {
                Some(c) => {
                    if results.len() >= c {
                        proof {
                            let lim: int = if c < 1 {
                                1int
                            } else {
                                c as int
                            };
                            assert(results@.len() == lim);
                            assert(grid_views(results@) + rest == full);
                            assert(full.take(grid_views(results@).len() as int) =~= grid_views(
                                results@,
                            ));
                            assert(full.len() >= lim);
                        }
                        return results;
                    }
                },
                None => {},
            }
        } else {
            let mut children = expand_cell(&g, target, k, skip_lonely, wrap, false);
            let ghost fc = feasible_children(g@, ni, target@, k as int, skip_lonely, wrap, false);
            proof {
                assert(grid_views(children@).len() == children@.len());
                assert(children@.len() == fc.len());
                assert forall|i: int| 0 <= i < children@.len() implies node_ok(
                    (#[trigger] children@[i], (k + 1) as usize),
                    *target,
                ) by {
                    assert(grid_views(children@)[i] == children@[i]@);
                    assert(children@[i]@ == fc[i]);
                    assert(fc[i] == g@.update(k as int, Cell::Alive) || fc[i] == g@.update(
                        k as int,
                        Cell::Dead,
                    ));
                    assert(assigned_below(children@[i]@, k + 1));
                }
                assert(pow3((total - k) as nat) == 3 * pow3((total - k - 1) as nat));
                lemma_pow3_pos((total - k - 1) as nat);
            }
            if children.len() == 2 {
                let c1 = children.pop().unwrap();
                let c0 = children.pop().unwrap();
                proof {
                    assert(c0@ == fc[0] && c1@ == fc[1]);
                    lemma_stack_weight_push(stack@, (c0, (k + 1) as usize), total as int);
                    lemma_pending_push(stack@, (c0, (k + 1) as usize), ni, target@, skip_lonely, wrap);
                }
                stack.push((c0, k + 1));
                proof {
                    lemma_stack_weight_push(stack@, (c1, (k + 1) as usize), total as int);
                    lemma_pending_push(stack@, (c1, (k + 1) as usize), ni, target@, skip_lonely, wrap);
                }
                stack.push((c1, k + 1));
                proof {
                    let s0 = subtree_results(fc[0], ni, target@, k + 1, skip_lonely, wrap);
                    let s1 = subtree_results(fc[1], ni, target@, k + 1, skip_lonely, wrap);
                    assert(sub == s1 + s0);
                    assert(pending_results(stack@, ni, target@, skip_lonely, wrap) == s1 + (s0
                        + rest));
                    assert(emitted + (s1 + (s0 + rest)) =~= emitted + ((s1 + s0) + rest));
                }
            } else if children.len() == 1 {
                let c0 = children.pop().unwrap();
                proof {
                    assert(c0@ == fc[0]);
                    lemma_stack_weight_push(stack@, (c0, (k + 1) as usize), total as int);
                    lemma_pending_push(stack@, (c0, (k + 1) as usize), ni, target@, skip_lonely, wrap);
                    assert(sub == subtree_results(fc[0], ni, target@, k + 1, skip_lonely, wrap));
                }
                stack.push((c0, k + 1));
            } else {
                proof {
                    assert(fc.len() == 0);
                    assert(sub =~= Seq::<Seq<Cell>>::empty());
                    assert(emitted + (sub + rest) =~= emitted + rest);
                }
            }
        }
    }
    proof {
        assert(pending_results(stack@, ni, target@, skip_lonely, wrap) =~= Seq::<Seq<
            Cell,
        >>::empty());
        assert(grid_views(results@) =~= grid_views(results@) + pending_results(
            stack@,
            ni,
            target@,
            skip_lonely,
            wrap,
        ));
        assert(grid_views(results@) == full);
        match cap {
            Some(c) => {
                let lim: int = if c < 1 {
                    1int
                } else {
                    c as int
                };
                assert(full.len() < lim);
                assert(full.take(full.len() as int) =~= full);
            },
            None => {},
        }
    }
    results
}

} // verus!
