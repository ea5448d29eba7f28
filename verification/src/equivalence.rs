//! Determinism across the two search variants: given the same target,
//! topology flag and feature flags, the depth-first backtracking search
//! and the breadth-synchronized frontier search return the same multiset
//! of complete predecessor grids — only the order may differ.

use vstd::prelude::*;
use vstd::seq_lib::lemma_multiset_commutative;
use crate::grid::Cell;
use crate::consistency::sim_consistent;
use crate::search::{all_unknown, child_seq, feasible_children};
use crate::backtrack::{backtrack_results, subtree_results};
use crate::frontier::{expand_frontier, frontier_at, keep_consistent, parallel_results};

verus! {

/// The concatenation, head first, of the depth-first subtrees of every
/// candidate in a frontier.
spec fn sum_subtrees(
    fr: Seq<Seq<Cell>>,
    n: int,
    target: Seq<Cell>,
    k: int,
    skip_lonely: bool,
    wrap: bool,
) -> Seq<Seq<Cell>>
    decreases fr.len(),
{
    if fr.len() == 0 {
        Seq::<Seq<Cell>>::empty()
    } else {
        subtree_results(fr[0], n, target, k, skip_lonely, wrap) + sum_subtrees(
            fr.drop_first(),
            n,
            target,
            k,
            skip_lonely,
            wrap,
        )
    }
}

/// The frontier obtained by running the remaining steps `k .. n * n`
/// forward from `fr` (no edge shyness).
spec fn frontier_from(
    fr: Seq<Seq<Cell>>,
    n: int,
    target: Seq<Cell>,
    k: int,
    skip_lonely: bool,
    wrap: bool,
) -> Seq<Seq<Cell>>
    decreases n * n - k,
{
    if k < 0 || k >= n * n {
        fr
    } else {
        frontier_from(
            expand_frontier(fr, n, target, k, skip_lonely, wrap, false),
            n,
            target,
            k + 1,
            skip_lonely,
            wrap,
        )
    }
}

/// Running the remaining steps forward from the frontier after `j` steps
/// lands on the final frontier.
proof fn lemma_frontier_from_at(n: int, target: Seq<Cell>, j: int, skip_lonely: bool, wrap: bool)
    requires
        0 <= j <= n * n,
    ensures
        frontier_from(
            frontier_at(n, target, j, skip_lonely, wrap, false),
            n,
            target,
            j,
            skip_lonely,
            wrap,
        ) == frontier_at(n, target, n * n, skip_lonely, wrap, false),
    decreases n * n - j,
{
    if j < n * n {
        assert(frontier_at(n, target, j + 1, skip_lonely, wrap, false) == expand_frontier(
            frontier_at(n, target, j, skip_lonely, wrap, false),
            n,
            target,
            j,
            skip_lonely,
            wrap,
            false,
        ));
        lemma_frontier_from_at(n, target, j + 1, skip_lonely, wrap);
    }
}

/// At the last cursor position the depth-first emission of a frontier is
/// exactly its consistency filtering.
proof fn lemma_sum_at_end(
    fr: Seq<Seq<Cell>>,
    n: int,
    target: Seq<Cell>,
    skip_lonely: bool,
    wrap: bool,
)
    ensures
        sum_subtrees(fr, n, target, n * n, skip_lonely, wrap) == keep_consistent(
            fr,
            n,
            target,
            wrap,
        ),
    decreases fr.len(),
{
    if fr.len() == 0 {
    } else {
        lemma_sum_at_end(fr.drop_first(), n, target, skip_lonely, wrap);
        if sim_consistent(fr[0], n, target, wrap) {
            assert(subtree_results(fr[0], n, target, n * n, skip_lonely, wrap) == seq![fr[0]]);
        }
        assert(sum_subtrees(fr, n, target, n * n, skip_lonely, wrap) =~= keep_consistent(
            fr,
            n,
            target,
            wrap,
        ));
    }
}

/// Depth-first emission distributes over frontier concatenation.
proof fn lemma_sum_concat(
    a: Seq<Seq<Cell>>,
    b: Seq<Seq<Cell>>,
    n: int,
    target: Seq<Cell>,
    k: int,
    skip_lonely: bool,
    wrap: bool,
)
    ensures
        sum_subtrees(a + b, n, target, k, skip_lonely, wrap) == sum_subtrees(
            a,
            n,
            target,
            k,
            skip_lonely,
            wrap,
        ) + sum_subtrees(b, n, target, k, skip_lonely, wrap),
    decreases a.len(),
{
    if a.len() == 0 {
        assert(a + b =~= b);
        assert(sum_subtrees(a, n, target, k, skip_lonely, wrap) + sum_subtrees(
            b,
            n,
            target,
            k,
            skip_lonely,
            wrap,
        ) =~= sum_subtrees(b, n, target, k, skip_lonely, wrap));
    } else {
        assert((a + b).drop_first() =~= a.drop_first() + b);
        assert((a + b)[0] == a[0]);
        lemma_sum_concat(a.drop_first(), b, n, target, k, skip_lonely, wrap);
        assert(sum_subtrees(a + b, n, target, k, skip_lonely, wrap) =~= sum_subtrees(
            a,
            n,
            target,
            k,
            skip_lonely,
            wrap,
        ) + sum_subtrees(b, n, target, k, skip_lonely, wrap));
    }
}

/// One candidate's depth-first subtree and the depth-first subtrees of its
/// one-step children emit the same grids (the two children come in the
/// opposite order, hence multisets).
proof fn lemma_subtree_children(
    h: Seq<Cell>,
    n: int,
    target: Seq<Cell>,
    k: int,
    skip_lonely: bool,
    wrap: bool,
)
    requires
        0 <= k < n * n,
    ensures
        subtree_results(h, n, target, k, skip_lonely, wrap).to_multiset() == sum_subtrees(
            child_seq(h, n, target, k, skip_lonely, wrap, false),
            n,
            target,
            k + 1,
            skip_lonely,
            wrap,
        ).to_multiset(),
{
    reveal_with_fuel(sum_subtrees, 4);
    if !sim_consistent(h, n, target, wrap) {
        assert(child_seq(h, n, target, k, skip_lonely, wrap, false)
            == Seq::<Seq<Cell>>::empty());
    } else {
        let cs = feasible_children(h, n, target, k, skip_lonely, wrap, false);
        assert(child_seq(h, n, target, k, skip_lonely, wrap, false) == cs);
        if cs.len() == 2 {
            let s0 = subtree_results(cs[0], n, target, k + 1, skip_lonely, wrap);
            let s1 = subtree_results(cs[1], n, target, k + 1, skip_lonely, wrap);
            assert(subtree_results(h, n, target, k, skip_lonely, wrap) == s1 + s0);
            assert(cs.drop_first() =~= seq![cs[1]]);
            assert(sum_subtrees(cs, n, target, k + 1, skip_lonely, wrap) =~= s0 + (s1
                + Seq::<Seq<Cell>>::empty()));
            assert(s1 + Seq::<Seq<Cell>>::empty() =~= s1);
            assert(sum_subtrees(cs, n, target, k + 1, skip_lonely, wrap) =~= s0 + s1);
            lemma_multiset_commutative(s1, s0);
            lemma_multiset_commutative(s0, s1);
            assert(s1.to_multiset().add(s0.to_multiset()) =~= s0.to_multiset().add(
                s1.to_multiset(),
            ));
        } else if cs.len() == 1 {
            let s0 = subtree_results(cs[0], n, target, k + 1, skip_lonely, wrap);
            assert(subtree_results(h, n, target, k, skip_lonely, wrap) == s0);
            assert(cs.drop_first() =~= Seq::<Seq<Cell>>::empty());
            assert(sum_subtrees(cs, n, target, k + 1, skip_lonely, wrap) =~= s0);
        } else {
            assert(subtree_results(h, n, target, k, skip_lonely, wrap)
                == Seq::<Seq<Cell>>::empty());
            assert(sum_subtrees(cs, n, target, k + 1, skip_lonely, wrap)
                =~= Seq::<Seq<Cell>>::empty());
        }
    }
}

/// One synchronized step preserves the multiset of depth-first emissions.
proof fn lemma_sum_step(
    fr: Seq<Seq<Cell>>,
    n: int,
    target: Seq<Cell>,
    k: int,
    skip_lonely: bool,
    wrap: bool,
)
    requires
        0 <= k < n * n,
    ensures
        sum_subtrees(fr, n, target, k, skip_lonely, wrap).to_multiset() == sum_subtrees(
            expand_frontier(fr, n, target, k, skip_lonely, wrap, false),
            n,
            target,
            k + 1,
            skip_lonely,
            wrap,
        ).to_multiset(),
    decreases fr.len(),
{
    if fr.len() == 0 {
    } else {
        let h = fr[0];
        let t = fr.drop_first();
        let cs = child_seq(h, n, target, k, skip_lonely, wrap, false);
        assert(expand_frontier(fr, n, target, k, skip_lonely, wrap, false) == cs
            + expand_frontier(t, n, target, k, skip_lonely, wrap, false));
        lemma_sum_concat(
            cs,
            expand_frontier(t, n, target, k, skip_lonely, wrap, false),
            n,
            target,
            k + 1,
            skip_lonely,
            wrap,
        );
        lemma_subtree_children(h, n, target, k, skip_lonely, wrap);
        lemma_sum_step(t, n, target, k, skip_lonely, wrap);
        let sh = subtree_results(h, n, target, k, skip_lonely, wrap);
        let st = sum_subtrees(t, n, target, k, skip_lonely, wrap);
        let ch = sum_subtrees(cs, n, target, k + 1, skip_lonely, wrap);
        let ct = sum_subtrees(
            expand_frontier(t, n, target, k, skip_lonely, wrap, false),
            n,
            target,
            k + 1,
            skip_lonely,
            wrap,
        );
        lemma_multiset_commutative(sh, st);
        lemma_multiset_commutative(ch, ct);
        assert(sh.to_multiset().add(st.to_multiset()) =~= ch.to_multiset().add(
            ct.to_multiset(),
        ));
    }
}

/// Running the frontier to the end and filtering emits the same multiset
/// as the depth-first traversal of the starting candidates.
proof fn lemma_sum_from(
    fr: Seq<Seq<Cell>>,
    n: int,
    target: Seq<Cell>,
    k: int,
    skip_lonely: bool,
    wrap: bool,
)
    requires
        0 <= k <= n * n,
    ensures
        sum_subtrees(fr, n, target, k, skip_lonely, wrap).to_multiset() == keep_consistent(
            frontier_from(fr, n, target, k, skip_lonely, wrap),
            n,
            target,
            wrap,
        ).to_multiset(),
    decreases n * n - k,
{
    if k == n * n {
        lemma_sum_at_end(fr, n, target, skip_lonely, wrap);
    } else {
        lemma_sum_step(fr, n, target, k, skip_lonely, wrap);
        lemma_sum_from(
            expand_frontier(fr, n, target, k, skip_lonely, wrap, false),
            n,
            target,
            k + 1,
            skip_lonely,
            wrap,
        );
    }
}

/// Determinism of the two search variants: given the same target, the
/// same topology flag and the same "skip lonely cells" flag (and no edge
/// shyness), the backtracking search and the parallel frontier search
/// return the same multiset — hence the same set — of complete
/// predecessor grids; only the order of results may differ.
pub proof fn lemma_search_variants_agree(
    n: int,
    target: Seq<Cell>,
    skip_lonely: bool,
    wrap: bool,
)
    requires
        1 <= n,
    ensures
        backtrack_results(n, target, skip_lonely, wrap).to_multiset() == parallel_results(
            n,
            target,
            skip_lonely,
            wrap,
            false,
        ).to_multiset(),
{
    reveal_with_fuel(sum_subtrees, 3);
    reveal(crate::frontier::parallel_results);
    crate::grid::lemma_grid_index_bounds(n, n - 1, n - 1);
    let fr0 = seq![all_unknown(n)];
    assert(fr0.drop_first() =~= Seq::<Seq<Cell>>::empty());
    assert(sum_subtrees(fr0, n, target, 0, skip_lonely, wrap) =~= subtree_results(
        all_unknown(n),
        n,
        target,
        0,
        skip_lonely,
        wrap,
    ));
    assert(frontier_at(n, target, 0, skip_lonely, wrap, false) == fr0);
    lemma_frontier_from_at(n, target, 0, skip_lonely, wrap);
    lemma_sum_from(fr0, n, target, 0, skip_lonely, wrap);
}

/// The same statement at the level of membership: a complete grid is
/// found by the backtracking search exactly when the frontier search
/// (without edge shyness) finds it.
pub proof fn lemma_search_variants_same_grids(
    n: int,
    target: Seq<Cell>,
    skip_lonely: bool,
    wrap: bool,
)
    requires
        1 <= n,
    ensures
        forall|g: Seq<Cell>|
            backtrack_results(n, target, skip_lonely, wrap).contains(g) <==> #[trigger]
            parallel_results(n, target, skip_lonely, wrap, false).contains(g),
{
    lemma_search_variants_agree(n, target, skip_lonely, wrap);
    let bt = backtrack_results(n, target, skip_lonely, wrap);
    let pr = parallel_results(n, target, skip_lonely, wrap, false);
    bt.to_multiset_ensures();
    pr.to_multiset_ensures();
    assert forall|g: Seq<Cell>| bt.contains(g) <==> #[trigger] pr.contains(g) by {
        assert(bt.contains(g) <==> bt.to_multiset().count(g) > 0);
        assert(pr.contains(g) <==> pr.to_multiset().count(g) > 0);
    }
}

} // verus!
