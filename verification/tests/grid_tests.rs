use life_rewind::grid::{Cell, Grid};

fn build_grid(n: usize, live: &[(usize, usize)]) -> Grid {
    let mut g = Grid::new_filled(n, Cell::Dead);
    for &(x, y) in live {
        g.set(x, y, Cell::Alive);
    }
    g
}

#[test]
fn block_is_still_life() {
    let block = build_grid(4, &[(1, 1), (1, 2), (2, 1), (2, 2)]);
    let next = block.step(false);
    assert!(next.is_complete());
    assert!(next.same_as(&block));
}

#[test]
fn blinker_oscillates_bounded() {
    let horizontal = build_grid(5, &[(2, 1), (2, 2), (2, 3)]);
    let next = horizontal.step(false);
    let vertical = build_grid(5, &[(1, 2), (2, 2), (3, 2)]);
    assert!(next.is_complete());
    assert!(next.same_as(&vertical));
    let back = next.step(false);
    assert!(back.same_as(&horizontal));
}

#[test]
fn step_of_complete_grid_is_complete() {
    let g = build_grid(6, &[(0, 0), (2, 3), (3, 3), (4, 3), (5, 5)]);
    assert!(g.is_complete());
    let bounded = g.step(false);
    assert!(bounded.is_complete());
    let wrapped = g.step(true);
    assert!(wrapped.is_complete());
}

#[test]
fn partial_grid_steps_to_unknown() {
    // an Unknown cell always simulates to Unknown
    let mut g = Grid::new_filled(3, Cell::Dead);
    g.set(1, 1, Cell::Unknown);
    let next = g.step(false);
    assert!(!next.is_complete());
    assert_eq!(next.get(1, 1), Cell::Unknown);
}

#[test]
fn lone_cell_dies() {
    let g = build_grid(3, &[(1, 1)]);
    let next = g.step(false);
    let empty = Grid::new_filled(3, Cell::Dead);
    assert!(next.same_as(&empty));
}

#[test]
fn wrap_topology_sees_across_the_border() {
    // two horizontal neighbors of a corner cell across the seam keep it
    // alive only if it has 2 or 3 live neighbors under wrap
    let g = build_grid(4, &[(0, 0), (0, 3), (3, 0)]);
    let next_wrap = g.step(true);
    // under wrap the three corners are mutually adjacent, so (0,0) has 2
    // live neighbors and survives, and (3,3) has 3 and is born
    assert_eq!(next_wrap.get(0, 0), Cell::Alive);
    assert_eq!(next_wrap.get(3, 3), Cell::Alive);
    let next_bounded = g.step(false);
    // bounded, the corners are isolated and all die
    let empty = Grid::new_filled(4, Cell::Dead);
    assert!(next_bounded.same_as(&empty));
}

#[test]
fn inconsistent_partial_stays_inconsistent_when_completed() {
    // monotonic pruning, on concrete values: a partial grid whose
    // simulation already contradicts the target cannot be repaired by
    // assigning its Unknown cells
    let target = Grid::new_filled(3, Cell::Dead);
    let mut partial = Grid::new_filled(3, Cell::Unknown);
    partial.set(0, 0, Cell::Alive);
    partial.set(0, 1, Cell::Alive);
    partial.set(1, 0, Cell::Alive);
    let sim = partial.step(false);
    assert!(!sim.consistent_with(&target));
    // complete it in two different ways; the conflict survives
    let mut all_dead_rest = partial.duplicate();
    let mut all_alive_rest = partial.duplicate();
    for x in 0..3 {
        for y in 0..3 {
            if all_dead_rest.get(x, y) == Cell::Unknown {
                all_dead_rest.set(x, y, Cell::Dead);
                all_alive_rest.set(x, y, Cell::Alive);
            }
        }
    }
    assert!(!all_dead_rest.step(false).consistent_with(&target));
    assert!(!all_alive_rest.step(false).consistent_with(&target));
}

#[test]
fn unknown_is_compatible_with_anything() {
    let mut a = Grid::new_filled(2, Cell::Unknown);
    let b = build_grid(2, &[(0, 0), (1, 1)]);
    assert!(a.consistent_with(&b));
    assert!(b.consistent_with(&a));
    a.set(0, 0, Cell::Dead);
    assert!(!a.consistent_with(&b));
}

#[test]
fn bounding_box_scores() {
    let empty = Grid::new_filled(5, Cell::Dead);
    assert_eq!(empty.bounding_box_area(), 0);
    let single = build_grid(5, &[(2, 3)]);
    assert_eq!(single.bounding_box_area(), 1);
    let block_3x2 = build_grid(6, &[(1, 2), (1, 3), (2, 2), (2, 3), (3, 2), (3, 3)]);
    assert_eq!(block_3x2.bounding_box_area(), 6);
    let corners = build_grid(4, &[(0, 0), (3, 3)]);
    assert_eq!(corners.bounding_box_area(), 16);
}

#[test]
fn live_cell_count() {
    let empty = Grid::new_filled(3, Cell::Dead);
    assert_eq!(empty.live_count(), 0);
    let g = build_grid(4, &[(0, 0), (1, 2), (3, 3)]);
    assert_eq!(g.live_count(), 3);
    let full = Grid::new_filled(2, Cell::Alive);
    assert_eq!(full.live_count(), 4);
}

#[test]
fn grid_accessors() {
    let mut g = Grid::new_filled(3, Cell::Dead);
    assert_eq!(g.side(), 3);
    g.set(1, 2, Cell::Alive);
    assert_eq!(g.get(1, 2), Cell::Alive);
    assert_eq!(g.get(2, 1), Cell::Dead);
    let copy = g.duplicate();
    assert!(copy.same_as(&g));
}
