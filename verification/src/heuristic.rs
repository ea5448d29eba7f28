//! The bounding-box heuristic: a complete grid's score is the area of the
//! smallest axis-aligned rectangle enclosing its live cells (0 for a grid
//! with no live cell). The score only ranks candidates; it carries no
//! correctness weight.

use vstd::prelude::*;
use vstd::multiset::Multiset;
use crate::grid::{Cell, Grid, cell_at, lemma_flat_coords, lemma_grid_index_roundtrip};

verus! {

/// Row `x` holds at least one live cell.
pub open spec fn row_has_live(s: Seq<Cell>, n: int, x: int) -> bool {
    exists|y: int| 0 <= y < n && cell_at(s, n, x, y) == Cell::Alive
}

/// Column `y` holds at least one live cell.
pub open spec fn col_has_live(s: Seq<Cell>, n: int, y: int) -> bool {
    exists|x: int| 0 <= x < n && cell_at(s, n, x, y) == Cell::Alive
}

/// The grid holds at least one live cell.
pub open spec fn any_live(s: Seq<Cell>, n: int) -> bool {
    exists|i: int| 0 <= i < n * n && s[i] == Cell::Alive
}

/// `v` is the bounding-box score of the grid: 0 when no cell is live,
/// otherwise the product of the live row extent and the live column
/// extent, both ends inclusive.
pub open spec fn bbox_area_is(s: Seq<Cell>, n: int, v: int) -> bool {
    if !any_live(s, n) {
        v == 0
    } else {
        exists|x1: int, x2: int, y1: int, y2: int|
            {
                &&& 0 <= x1 <= x2 < n
                &&& 0 <= y1 <= y2 < n
                &&& row_has_live(s, n, x1)
                &&& row_has_live(s, n, x2)
                &&& (forall|x: int| 0 <= x < n && row_has_live(s, n, x) ==> x1 <= x <= x2)
                &&& col_has_live(s, n, y1)
                &&& col_has_live(s, n, y2)
                &&& (forall|y: int| 0 <= y < n && col_has_live(s, n, y) ==> y1 <= y <= y2)
                &&& v == (x2 - x1 + 1) * (y2 - y1 + 1)
            }
    }
}

/// The bounding-box score is a function of the grid: two values that both
/// satisfy `bbox_area_is` coincide.
pub proof fn lemma_bbox_area_unique(s: Seq<Cell>, n: int, v1: int, v2: int)
    requires
        bbox_area_is(s, n, v1),
        bbox_area_is(s, n, v2),
    ensures
        v1 == v2,
{
    if any_live(s, n) {
        let (a1, a2, b1, b2) = choose|a1: int, a2: int, b1: int, b2: int|
            {
                &&& 0 <= a1 <= a2 < n
                &&& 0 <= b1 <= b2 < n
                &&& row_has_live(s, n, a1)
                &&& row_has_live(s, n, a2)
                &&& (forall|x: int| 0 <= x < n && row_has_live(s, n, x) ==> a1 <= x <= a2)
                &&& col_has_live(s, n, b1)
                &&& col_has_live(s, n, b2)
                &&& (forall|y: int| 0 <= y < n && col_has_live(s, n, y) ==> b1 <= y <= b2)
                &&& v1 == (a2 - a1 + 1) * (b2 - b1 + 1)
            };
        let (c1, c2, d1, d2) = choose|c1: int, c2: int, d1: int, d2: int|
            {
                &&& 0 <= c1 <= c2 < n
                &&& 0 <= d1 <= d2 < n
                &&& row_has_live(s, n, c1)
                &&& row_has_live(s, n, c2)
                &&& (forall|x: int| 0 <= x < n && row_has_live(s, n, x) ==> c1 <= x <= c2)
                &&& col_has_live(s, n, d1)
                &&& col_has_live(s, n, d2)
                &&& (forall|y: int| 0 <= y < n && col_has_live(s, n, y) ==> d1 <= y <= d2)
                &&& v2 == (c2 - c1 + 1) * (d2 - d1 + 1)
            };
        assert(a1 == c1 && a2 == c2 && b1 == d1 && b2 == d2);
    }
}

/// Every value satisfying `bbox_area_is` of this grid is at most `v`.
pub open spec fn area_at_most(g: Grid, v: int) -> bool {
    forall|w: int| bbox_area_is(g@, g.n as int, w) ==> w <= v
}

/// The bounding-box score of `a` is at least that of `b`.
pub open spec fn area_ge(a: Grid, b: Grid) -> bool {
    forall|va: int, vb: int|
        bbox_area_is(a@, a.n as int, va) && bbox_area_is(b@, b.n as int, vb) ==> va >= vb
}

impl Grid {
    /// Count the live cells of the grid.
    pub fn live_count(&self) -> (r: usize)
        requires
            self.wf(),
        ensures
            r as int == live_count_spec(self@),
    {
        let total = self.cells.len();
        let mut count: usize = 0;
        let mut i: usize = 0;
        while i < total
            invariant
                i <= total,
                total == self.cells@.len(),
                count <= i,
                count as int == live_count_spec(self@.take(i as int)),
            decreases total - i,
        {
            proof {
                assert(self@.take(i + 1).drop_last() =~= self@.take(i as int));
                assert(self@.take(i + 1).last() == self@[i as int]);
            }
            if self.cells[i] == Cell::Alive {
                count = count + 1;
            }
            i = i + 1;
        }
        proof {
            assert(self@.take(total as int) =~= self@);
        }
        count
    }

    /// The bounding-box score of this grid.
    pub fn bounding_box_area(&self) -> (r: usize)
        requires
            self.wf(),
        ensures
            bbox_area_is(self@, self.n as int, r as int),
    {
        let n = self.n;
        let total = self.cells.len();
        let ghost ni = n as int;
        let mut found = false;
        let mut min_x: usize = 0;
        let mut max_x: usize = 0;
        let mut min_y: usize = 0;
        let mut max_y: usize = 0;
        let mut k: usize = 0;
        while k < total
            invariant
                self.wf(),
                n == self.n,
                ni == n as int,
                total == n * n,
                k <= total,
                found == exists|i: int| 0 <= i < k && self@[i] == Cell::Alive,
                found ==> min_x <= max_x < n && min_y <= max_y < n,
                found ==> (exists|i: int|
                    0 <= i < k && self@[i] == Cell::Alive && i % ni == min_x),
                found ==> (exists|i: int|
                    0 <= i < k && self@[i] == Cell::Alive && i % ni == max_x),
                found ==> (exists|i: int|
                    0 <= i < k && self@[i] == Cell::Alive && i / ni == min_y),
                found ==> (exists|i: int|
                    0 <= i < k && self@[i] == Cell::Alive && i / ni == max_y),
                forall|i: int| 0 <= i < k && self@[i] == Cell::Alive ==> min_x <= i % ni
                    <= max_x && min_y <= i / ni <= max_y,
            decreases total - k,
        {
            proof {
                lemma_flat_coords(ni, k as int);
            }
            let x = k % n;
            let y = k / n;
            if self.cells[k] == Cell::Alive {
                if !found {
                    found = true;
                    min_x = x;
                    max_x = x;
                    min_y = y;
                    max_y = y;
                } else {
                    if x < min_x {
                        min_x = x;
                    }
                    if x > max_x {
                        max_x = x;
                    }
                    if y < min_y {
                        min_y = y;
                    }
                    if y > max_y {
                        max_y = y;
                    }
                }
            }
            k = k + 1;
        }
        if !found {
            proof {
                assert(!any_live(self@, ni));
            }
            return 0;
        }
        let width = max_x - min_x + 1;
        let height = max_y - min_y + 1;
        proof {
            assert(width * height <= n * n) by (nonlinear_arith)
                requires 1 <= width <= n && 1 <= height <= n;
        }
        let area = width * height;
        proof {
            let s = self@;
            assert forall|x: int| 0 <= x < ni && row_has_live(s, ni, x) implies min_x <= x
                <= max_x by {
                let y = choose|y: int| 0 <= y < ni && cell_at(s, ni, x, y) == Cell::Alive;
                lemma_grid_index_roundtrip(ni, x, y);
            }
            assert forall|y: int| 0 <= y < ni && col_has_live(s, ni, y) implies min_y <= y
                <= max_y by {
                let x = choose|x: int| 0 <= x < ni && cell_at(s, ni, x, y) == Cell::Alive;
                lemma_grid_index_roundtrip(ni, x, y);
            }
            let i1 = choose|i: int| 0 <= i < total && s[i] == Cell::Alive && i % ni == min_x;
            lemma_flat_coords(ni, i1);
            assert(cell_at(s, ni, min_x as int, i1 / ni) == Cell::Alive);
            assert(row_has_live(s, ni, min_x as int));
            let i2 = choose|i: int| 0 <= i < total && s[i] == Cell::Alive && i % ni == max_x;
            lemma_flat_coords(ni, i2);
            assert(cell_at(s, ni, max_x as int, i2 / ni) == Cell::Alive);
            assert(row_has_live(s, ni, max_x as int));
            let i3 = choose|i: int| 0 <= i < total && s[i] == Cell::Alive && i / ni == min_y;
            lemma_flat_coords(ni, i3);
            assert(cell_at(s, ni, i3 % ni, min_y as int) == Cell::Alive);
            assert(col_has_live(s, ni, min_y as int));
            let i4 = choose|i: int| 0 <= i < total && s[i] == Cell::Alive && i / ni == max_y;
            lemma_flat_coords(ni, i4);
            assert(cell_at(s, ni, i4 % ni, max_y as int) == Cell::Alive);
            assert(col_has_live(s, ni, max_y as int));
            assert(any_live(s, ni));
            assert(bbox_area_is(s, ni, area as int));
        }
        area
    }
}

/// Live cells of the grid, counted in flat order.
pub open spec fn live_count_spec(s: Seq<Cell>) -> int
    decreases s.len(),
{
    if s.len() == 0 {
        0
    } else {
        live_count_spec(s.drop_last()) + (if s.last() == Cell::Alive {
            1int
        } else {
            0int
        })
    }
}

/// `g` occurs among the grids of `v`.
pub open spec fn has_grid(v: Seq<Grid>, g: Grid) -> bool {
    exists|j: int| 0 <= j < v.len() && v[j] == g
}

/// Sort grids in descending order of their bounding-box score (a stable
/// selection of the greatest remaining score), as the chain driver ranks
/// its candidate lists.
pub fn sort_by_area_desc(v: Vec<Grid>) -> (r: Vec<Grid>)
    requires
        forall|i: int| 0 <= i < v@.len() ==> (#[trigger] v@[i]).wf(),
    ensures
        r@.len() == v@.len(),
        r@.to_multiset() == v@.to_multiset(),
        forall|i: int| 0 <= i < r@.len() ==> has_grid(v@, #[trigger] r@[i]),
        forall|i: int, j: int| 0 <= i <= j < r@.len() ==> #[trigger] area_ge(r@[i], r@[j]),
{
    let ghost orig = v@;
    let mut rest = v;
    let mut out: Vec<Grid> = Vec::new();
    proof {
        broadcast use vstd::multiset::group_multiset_axioms;
        out@.to_multiset_ensures();
        assert(out@.to_multiset() =~= Multiset::<Grid>::empty());
        assert(out@.to_multiset().add(rest@.to_multiset()) =~= orig.to_multiset());
        assert forall|i: int| 0 <= i < rest@.len() implies has_grid(orig, #[trigger] rest@[i]) by {
            assert(0 <= i < orig.len() && rest@[i] == orig[i]);
        }
    }
    while rest.len() > 0
        invariant
            out@.len() + rest@.len() == orig.len(),
            out@.to_multiset().add(rest@.to_multiset()) == orig.to_multiset(),
            forall|i: int| 0 <= i < rest@.len() ==> has_grid(orig, #[trigger] rest@[i]),
            forall|i: int| 0 <= i < out@.len() ==> has_grid(orig, #[trigger] out@[i]),
            forall|i: int| 0 <= i < rest@.len() ==> (#[trigger] rest@[i]).wf(),
            forall|p: int, q: int| 0 <= p <= q < out@.len() ==> #[trigger] area_ge(
                out@[p],
                out@[q],
            ),
            forall|p: int, m: int| 0 <= p < out@.len() && 0 <= m < rest@.len()
                ==> #[trigger] area_ge(out@[p], rest@[m]),
        decreases rest@.len(),
    {
        let mut best: usize = 0;
        let mut best_area = rest[0].bounding_box_area();
        let mut i: usize = 1;
        proof {
            assert forall|w: int| bbox_area_is(rest@[0]@, rest@[0].n as int, w) implies w
                <= best_area as int by {
                lemma_bbox_area_unique(rest@[0]@, rest@[0].n as int, w, best_area as int);
            }
        }
        while i < rest.len()
            invariant
                1 <= i <= rest@.len(),
                best < i,
                forall|p: int| 0 <= p < rest@.len() ==> (#[trigger] rest@[p]).wf(),
                bbox_area_is(rest@[best as int]@, rest@[best as int].n as int, best_area as int),
                forall|m: int| 0 <= m < i ==> area_at_most(#[trigger] rest@[m], best_area as int),
            decreases rest@.len() - i,
        {
            let a = rest[i].bounding_box_area();
            if a > best_area {
                proof {
                    assert forall|m: int| 0 <= m < i implies area_at_most(
                        #[trigger] rest@[m],
                        a as int,
                    ) by {
                        assert(area_at_most(rest@[m], best_area as int));
                    }
                }
                best = i;
                best_area = a;
            } else {
                proof {
                    assert forall|w: int| bbox_area_is(rest@[i as int]@, rest@[
                        i as int].n as int, w) implies w <= best_area as int by {
                        lemma_bbox_area_unique(
                            rest@[i as int]@,
                            rest@[i as int].n as int,
                            w,
                            a as int,
                        );
                    }
                }
            }
            i = i + 1;
        }
        let ghost before = rest@;
        let picked = rest.remove(best);
        proof {
            assert(picked == before[best as int]);
            assert(has_grid(orig, picked));
            assert forall|p: int| 0 <= p < rest@.len() implies has_grid(orig, #[trigger] rest@[p])
                && rest@[p].wf() && area_at_most(rest@[p], best_area as int) by {
                if p < best {
                    assert(rest@[p] == before[p]);
                } else {
                    assert(rest@[p] == before[p + 1]);
                }
            }
            // the picked grid outranks everything still unsorted
            assert forall|m: int| 0 <= m < rest@.len() implies #[trigger] area_ge(
                picked,
                rest@[m],
            ) by {
                assert forall|va: int, vb: int|
                    bbox_area_is(picked@, picked.n as int, va) && bbox_area_is(
                        rest@[m]@,
                        rest@[m].n as int,
                        vb,
                    ) implies va >= vb by {
                    lemma_bbox_area_unique(picked@, picked.n as int, va, best_area as int);
                    assert(area_at_most(rest@[m], best_area as int));
                }
            }
            assert(area_ge(picked, picked)) by {
                assert forall|va: int, vb: int|
                    bbox_area_is(picked@, picked.n as int, va) && bbox_area_is(
                        picked@,
                        picked.n as int,
                        vb,
                    ) implies va >= vb by {
                    lemma_bbox_area_unique(picked@, picked.n as int, va, vb);
                }
            }
        }
        let ghost out0 = out@;
        out.push(picked);
        proof {
            broadcast use vstd::multiset::group_multiset_axioms;
            before.to_multiset_ensures();
            out0.to_multiset_ensures();
            assert(before.contains(picked));
            assert(before.to_multiset().count(picked) > 0);
            assert(out@.to_multiset() =~= out0.to_multiset().insert(picked));
            assert(rest@.to_multiset() =~= before.to_multiset().remove(picked));
            assert(out@.to_multiset().add(rest@.to_multiset()) =~= out0.to_multiset().add(
                before.to_multiset(),
            ));
            assert forall|p: int, q: int| 0 <= p <= q < out@.len() implies #[trigger] area_ge(
                out@[p],
                out@[q],
            ) by {
                if q < out0.len() {
                    assert(out@[p] == out0[p] && out@[q] == out0[q]);
                    assert(area_ge(out0[p], out0[q]));
                } else if p < out0.len() {
                    assert(out@[q] == picked && out@[p] == out0[p]);
                    assert(area_ge(out0[p], before[best as int]));
                } else {
                    assert(out@[p] == picked && out@[q] == picked);
                }
            }
            assert forall|p: int, m: int| 0 <= p < out@.len() && 0 <= m < rest@.len()
                implies #[trigger] area_ge(out@[p], rest@[m]) by {
                if p < out0.len() {
                    if m < best {
                        assert(rest@[m] == before[m]);
                        assert(area_ge(out0[p], before[m]));
                    } else {
                        assert(rest@[m] == before[m + 1]);
                        assert(area_ge(out0[p], before[m + 1]));
                    }
                } else {
                    assert(out@[p] == picked);
                }
            }
        }
    }
    proof {
        broadcast use vstd::multiset::group_multiset_axioms;
        rest@.to_multiset_ensures();
        assert(!(exists|g: Grid| rest@.contains(g)));
        assert(rest@.to_multiset() =~= Multiset::<Grid>::empty());
        assert(out@.to_multiset() =~= out@.to_multiset().add(rest@.to_multiset()));
    }
    out
}

} // verus!
