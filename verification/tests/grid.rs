use circles::collision::{CellSpan, SpatialGrid, DEDUP_TABLE_LIMIT};

fn span(min_col: usize, max_col: usize, min_row: usize, max_row: usize) -> CellSpan {
    CellSpan { min_col, max_col, min_row, max_row }
}

#[test]
fn new_grid_has_no_candidates() {
    let grid = SpatialGrid::new(3, 2);
    assert!(grid.find_candidate_pairs(10).is_empty());
}

#[test]
fn two_circles_in_one_cell_are_a_candidate() {
    let mut grid = SpatialGrid::new(4, 4);
    grid.insert(0, span(1, 1, 1, 1));
    grid.insert(1, span(1, 1, 1, 1));
    assert_eq!(grid.find_candidate_pairs(2), vec![(0, 1)]);
}

#[test]
fn pair_is_ordered_smaller_first() {
    let mut grid = SpatialGrid::new(4, 4);
    grid.insert(5, span(0, 0, 0, 0));
    grid.insert(2, span(0, 0, 0, 0));
    assert_eq!(grid.find_candidate_pairs(6), vec![(2, 5)]);
}

#[test]
fn circles_in_separate_cells_are_no_candidates() {
    let mut grid = SpatialGrid::new(4, 4);
    grid.insert(0, span(0, 0, 0, 0));
    grid.insert(1, span(2, 2, 2, 2));
    assert!(grid.find_candidate_pairs(2).is_empty());
}

#[test]
fn pair_sharing_several_cells_is_reported_once() {
    let mut grid = SpatialGrid::new(4, 4);
    grid.insert(0, span(0, 2, 0, 2));
    grid.insert(1, span(1, 3, 1, 3));
    assert_eq!(grid.find_candidate_pairs(2), vec![(0, 1)]);
}

#[test]
fn pairs_come_in_order_of_first_sighting() {
    // Grid of 3 columns and 2 rows.
    let mut grid = SpatialGrid::new(2, 1);
    // Cell (row 0, col 2) holds 3 and 1; cell (row 1, col 0) holds 0, 2, 1.
    grid.insert(3, span(2, 2, 0, 0));
    grid.insert(1, span(2, 2, 0, 0));
    grid.insert(0, span(0, 0, 1, 1));
    grid.insert(2, span(0, 0, 1, 1));
    grid.insert(1, span(0, 0, 1, 1));
    assert_eq!(
        grid.find_candidate_pairs(4),
        vec![(1, 3), (0, 2), (0, 1), (1, 2)]
    );
}

#[test]
fn span_beyond_the_grid_is_cut_to_its_last_row_and_column() {
    // 2 columns, 2 rows.
    let mut grid = SpatialGrid::new(1, 1);
    grid.insert(0, span(1, 1000, 1, 1000));
    grid.insert(1, span(1, 1, 1, 1));
    assert_eq!(grid.find_candidate_pairs(2), vec![(0, 1)]);
}

#[test]
fn span_starting_past_the_grid_inserts_nothing() {
    let mut grid = SpatialGrid::new(1, 1);
    grid.insert(0, span(5, 9, 0, 1));
    grid.insert(1, span(0, 1, 0, 1));
    assert!(grid.find_candidate_pairs(2).is_empty());
}

#[test]
fn empty_span_inserts_nothing() {
    let mut grid = SpatialGrid::new(3, 3);
    grid.insert(0, span(2, 1, 0, 3));
    grid.insert(1, span(0, 3, 0, 3));
    assert!(grid.find_candidate_pairs(2).is_empty());
}

#[test]
fn clear_removes_every_entry() {
    let mut grid = SpatialGrid::new(3, 3);
    grid.insert(0, span(0, 3, 0, 3));
    grid.insert(1, span(0, 3, 0, 3));
    assert_eq!(grid.find_candidate_pairs(2), vec![(0, 1)]);
    grid.clear();
    assert!(grid.find_candidate_pairs(2).is_empty());
    grid.insert(1, span(3, 3, 3, 3));
    grid.insert(0, span(3, 3, 3, 3));
    assert_eq!(grid.find_candidate_pairs(2), vec![(0, 1)]);
}

#[test]
fn same_circle_twice_in_a_cell_pairs_with_nothing() {
    let mut grid = SpatialGrid::new(2, 2);
    grid.insert(4, span(0, 0, 0, 0));
    grid.insert(4, span(0, 0, 0, 0));
    assert!(grid.find_candidate_pairs(5).is_empty());
}

#[test]
fn three_circles_in_one_cell_give_three_pairs() {
    let mut grid = SpatialGrid::new(1, 1);
    grid.insert(2, span(0, 0, 0, 0));
    grid.insert(0, span(0, 0, 0, 0));
    grid.insert(1, span(0, 0, 0, 0));
    assert_eq!(grid.find_candidate_pairs(3), vec![(0, 2), (1, 2), (0, 1)]);
}

#[test]
fn single_cell_grid() {
    let mut grid = SpatialGrid::new(0, 0);
    grid.insert(0, span(0, 7, 0, 7));
    grid.insert(1, span(0, 3, 0, 9));
    assert_eq!(grid.find_candidate_pairs(2), vec![(0, 1)]);
}

#[test]
fn many_circles_use_the_search_and_give_the_same_answer() {
    let count = DEDUP_TABLE_LIMIT + 10;
    let mut grid = SpatialGrid::new(2, 1);
    grid.insert(3, span(2, 2, 0, 0));
    grid.insert(1, span(2, 2, 0, 0));
    grid.insert(0, span(0, 0, 1, 1));
    grid.insert(2, span(0, 0, 1, 1));
    grid.insert(1, span(0, 0, 1, 1));
    grid.insert(count - 1, span(0, 2, 0, 1));
    let big = count - 1;
    assert_eq!(
        grid.find_candidate_pairs(count),
        vec![(1, 3), (3, big), (1, big), (0, 2), (0, 1), (0, big), (1, 2), (2, big)]
    );
}

#[test]
fn pair_sharing_cells_found_both_ways_at_the_table_limit() {
    let count = DEDUP_TABLE_LIMIT;
    let mut grid = SpatialGrid::new(3, 3);
    grid.insert(count - 1, span(0, 1, 0, 0));
    grid.insert(0, span(0, 1, 0, 0));
    assert_eq!(grid.find_candidate_pairs(count), vec![(0, count - 1)]);
}
