use live_wetter::radar::radar_totals;

#[test]
fn radar_totals_one_cell_per_value() {
    let grid = vec![vec![1, 2], vec![3, 4]];
    let t = radar_totals(&grid, &vec![(0, 1), (1, 2)], &vec![(0, 1), (1, 2)]).unwrap();
    assert_eq!(t.cells, vec![1, 2, 3, 4]);
    assert_eq!(t.max_value, 4);
    assert_eq!(t.total, 10);
    assert_eq!(t.count, 4);
}

#[test]
fn radar_totals_clamps_windows() {
    let grid = vec![vec![1, 2], vec![3, 4]];
    // The row end is cut at the number of rows; an empty column span is widened to one column.
    let t = radar_totals(&grid, &vec![(0, 5)], &vec![(1, 1)]).unwrap();
    assert_eq!(t.cells, vec![4]);
    assert_eq!(t.total, 6);
    assert_eq!(t.count, 2);
    // A span beyond the grid visits nothing.
    let t = radar_totals(&grid, &vec![(3, 4)], &vec![(0, 2)]).unwrap();
    assert_eq!(t.cells, vec![0]);
    assert_eq!(t.total, 0);
    assert_eq!(t.count, 0);
}

#[test]
fn radar_totals_overlapping_windows_count_twice() {
    let grid = vec![vec![5, 7, 9]];
    let t = radar_totals(&grid, &vec![(0, 1)], &vec![(0, 2), (1, 3)]).unwrap();
    assert_eq!(t.cells, vec![7, 9]);
    assert_eq!(t.max_value, 9);
    assert_eq!(t.total, 5 + 7 + 7 + 9);
    assert_eq!(t.count, 4);
}

#[test]
fn radar_totals_negative_values() {
    let grid = vec![vec![-5, -2]];
    let t = radar_totals(&grid, &vec![(0, 1)], &vec![(0, 2)]).unwrap();
    assert_eq!(t.cells, vec![0]);
    assert_eq!(t.max_value, 0);
    assert_eq!(t.total, -7);
}

#[test]
fn radar_totals_ragged_rows() {
    // Columns are counted by the first row; shorter rows give what they have.
    let grid = vec![vec![1, 2, 3], vec![4]];
    let t = radar_totals(&grid, &vec![(0, 2)], &vec![(1, 3)]).unwrap();
    assert_eq!(t.cells, vec![3]);
    assert_eq!(t.total, 5);
    assert_eq!(t.count, 2);
}

#[test]
fn radar_totals_overflow_is_refused() {
    let grid = vec![vec![i64::MAX, 1]];
    assert!(radar_totals(&grid, &vec![(0, 1)], &vec![(0, 2)]).is_none());
    let grid = vec![vec![i64::MAX]];
    assert!(radar_totals(&grid, &vec![(0, 1)], &vec![(0, 1)]).is_some());
}

#[test]
fn radar_totals_empty_grid() {
    let grid: Vec<Vec<i64>> = vec![];
    let t = radar_totals(&grid, &vec![(0, 1), (0, 1)], &vec![(0, 1)]).unwrap();
    assert_eq!(t.cells, vec![0, 0]);
    assert_eq!(t.count, 0);
}

#[test]
fn radar_max_is_largest_cell_and_bounds_every_cell() {
    let grid = vec![vec![3, -1, 8], vec![0, 6, 2], vec![5, 4, 7]];
    let t = radar_totals(&grid, &vec![(0, 1), (1, 3)], &vec![(0, 2), (2, 3)]).unwrap();
    assert_eq!(t.cells, vec![3, 8, 6, 7]);
    assert_eq!(t.max_value, *t.cells.iter().max().unwrap());
    assert!(t.cells.iter().all(|c| 0 <= *c && *c <= t.max_value));
}

#[test]
fn radar_max_of_covering_spans_is_grid_max() {
    let grid = vec![vec![1, 9, 2, 4], vec![7, 3, 12, 5], vec![0, 6, 8, 11]];
    // Rows 0..3 and columns 0..4 are all covered by the spans.
    let t = radar_totals(&grid, &vec![(0, 2), (2, 3)], &vec![(0, 1), (1, 3), (3, 4)]).unwrap();
    let grid_max = grid.iter().flatten().copied().max().unwrap();
    assert_eq!(t.max_value, grid_max);
    assert_eq!(t.max_value, 12);
    // Leaving out column 2 skips the largest value.
    let t = radar_totals(&grid, &vec![(0, 3)], &vec![(0, 2), (3, 4)]).unwrap();
    assert_eq!(t.max_value, 11);
}
