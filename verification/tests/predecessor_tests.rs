use life_rewind::grid::{Cell, Grid};
use life_rewind::backtrack::find_predecessors;
use life_rewind::frontier::find_predecessors_parallel;

fn pattern_grid(n: usize, live: &[(usize, usize)]) -> Grid {
    let mut g = Grid::new_filled(n, Cell::Dead);
    for &(x, y) in live {
        g.set(x, y, Cell::Alive);
    }
    g
}

fn contains_grid(v: &Vec<Grid>, g: &Grid) -> bool {
    v.iter().any(|c| c.same_as(g))
}

#[test]
fn blinker_predecessors_wrap() {
    // 5x5 toroidal target: horizontal blinker on row 2, columns 0..=2
    let target = pattern_grid(5, &[(2, 0), (2, 1), (2, 2)]);
    let results = find_predecessors(&target, true, true, None);
    assert!(results.len() > 0);
    for p in &results {
        assert!(p.is_complete());
        let forward = p.step(true);
        assert!(forward.is_complete());
        assert!(forward.same_as(&target));
    }
}

#[test]
fn both_variants_agree_on_the_result_set() {
    // same target, topology, and flags: the sequential and the parallel
    // search must find the same set of complete predecessors
    let target = pattern_grid(4, &[(1, 1), (1, 2), (2, 1), (2, 2)]);
    let sequential = find_predecessors(&target, false, false, None);
    let parallel = find_predecessors_parallel(&target, false, false, false);
    assert_eq!(sequential.len(), parallel.len());
    for p in &sequential {
        assert!(contains_grid(&parallel, p));
    }
    for p in &parallel {
        assert!(contains_grid(&sequential, p));
    }
}

#[test]
fn both_variants_agree_with_skip_lonely_and_wrap() {
    let target = pattern_grid(4, &[(1, 1), (2, 1), (1, 2)]);
    let sequential = find_predecessors(&target, true, true, None);
    let parallel = find_predecessors_parallel(&target, true, true, false);
    assert_eq!(sequential.len(), parallel.len());
    for p in &sequential {
        assert!(contains_grid(&parallel, p));
    }
}

#[test]
fn all_dead_target_has_all_dead_predecessor() {
    // bounded topology: the empty grid is a fixed point, so it must be
    // among the predecessors of the empty grid
    let target = Grid::new_filled(4, Cell::Dead);
    let results = find_predecessors(&target, true, false, None);
    assert!(results.len() > 0);
    assert!(contains_grid(&results, &target));
    // without the lonely-cell filter, isolated live cells that die of
    // isolation are valid predecessors too
    let relaxed = find_predecessors(&target, false, false, None);
    let lone = pattern_grid(4, &[(1, 1)]);
    assert!(contains_grid(&relaxed, &lone));
}

#[test]
fn result_cap_stops_early() {
    let target = Grid::new_filled(3, Cell::Dead);
    let all = find_predecessors(&target, false, false, None);
    assert!(all.len() > 2);
    let capped = find_predecessors(&target, false, false, Some(2));
    assert_eq!(capped.len(), 2);
    // a cap of zero still yields the first result found
    let zero = find_predecessors(&target, false, false, Some(0));
    assert_eq!(zero.len(), 1);
}

#[test]
fn single_cell_grid_predecessors() {
    let target = Grid::new_filled(1, Cell::Dead);
    let results = find_predecessors(&target, false, false, None);
    // both the dead and the lone live cell lead to a dead cell
    assert_eq!(results.len(), 2);
    let parallel = find_predecessors_parallel(&target, false, false, false);
    assert_eq!(parallel.len(), 2);
}

#[test]
fn shy_search_keeps_the_border_dead() {
    // bounded topology, glider away from the border: with "shy from
    // edges" no returned predecessor may have a live cell on the outer
    // ring, even if one would otherwise be rule-consistent
    let glider = [(0, 2), (1, 0), (1, 2), (2, 1), (2, 2)];
    let live: Vec<(usize, usize)> = glider.iter().map(|&(x, y)| (x + 3, y + 3)).collect();
    let target = pattern_grid(8, &live);
    let results = find_predecessors_parallel(&target, true, false, true);
    for p in &results {
        let n = p.side();
        for x in 0..n {
            for y in 0..n {
                if x == 0 || y == 0 || x == n - 1 || y == n - 1 {
                    assert_eq!(p.get(x, y), Cell::Dead);
                }
            }
        }
        assert!(p.step(false).same_as(&target));
    }
}

#[test]
fn garden_of_eden_style_empty_result_is_not_an_error() {
    // a target that wants a birth with no possible parents: a single live
    // cell in a 1x1 bounded grid has no neighbors, so no predecessor can
    // give birth to it and no live cell can survive into it
    let target = Grid::new_filled(1, Cell::Alive);
    let results = find_predecessors(&target, false, false, None);
    assert_eq!(results.len(), 0);
    let parallel = find_predecessors_parallel(&target, false, false, false);
    assert_eq!(parallel.len(), 0);
}
