use swendsen_wang::ClusterLabels;

#[test]
fn a_new_grid_holds_the_sentinel() {
    let grid = ClusterLabels::new(3, 4);
    for i in 0..3 {
        for j in 0..4 {
            assert_eq!(grid.at_pos((i, j)), 12);
        }
    }
}

#[test]
fn set_changes_one_site_only() {
    let mut grid = ClusterLabels::new(2, 3);
    grid.set((1, 2), 4);
    grid.set((0, 1), 2);
    let seen: Vec<usize> = (0..2)
        .flat_map(|i| (0..3).map(move |j| (i, j)))
        .map(|pos| grid.at_pos(pos))
        .collect();
    assert_eq!(seen, vec![6, 2, 6, 6, 6, 4]);
}

#[test]
fn addressing_is_row_major() {
    let mut grid = ClusterLabels::new(2, 3);
    grid.set((1, 0), 5);
    // Row-major addressing: (0, 3) is the same cell as (1, 0).
    assert_eq!(grid.at_pos((0, 3)), 5);
}

#[test]
fn reset_grid_equals_a_new_one() {
    let mut grid = ClusterLabels::new(3, 2);
    grid.set((0, 0), 1);
    grid.set((2, 1), 3);
    grid.reset();
    let fresh = ClusterLabels::new(3, 2);
    for i in 0..3 {
        for j in 0..2 {
            assert_eq!(grid.at_pos((i, j)), 6);
            assert_eq!(grid.at_pos((i, j)), fresh.at_pos((i, j)));
        }
    }
}
