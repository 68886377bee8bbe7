use std::collections::HashSet;

use aristotle::solver::{row_fits, solve};

#[test]
fn solve_past_the_last_line_signals_completion() {
    let mut grid = vec![None; 3];
    let mut solns: Vec<Vec<Option<i32>>> = Vec::new();
    let mut used: HashSet<i32> = HashSet::new();
    let lines = vec![vec![0usize, 1, 2]];
    let rows = vec![vec![1, 2, 3]];
    assert!(solve(&mut grid, &mut solns, &lines, &mut used, 1, &rows));
    assert!(solns.is_empty());
}

#[test]
fn solve_one_line_records_each_fitting_row() {
    let mut grid = vec![None; 3];
    let mut solns: Vec<Vec<Option<i32>>> = Vec::new();
    let mut used: HashSet<i32> = HashSet::new();
    let lines = vec![vec![0usize, 1, 2]];
    let rows = vec![vec![1, 2, 3], vec![3, 2, 1]];
    assert!(!solve(&mut grid, &mut solns, &lines, &mut used, 0, &rows));
    assert_eq!(
        solns,
        vec![vec![Some(1), Some(2), Some(3)], vec![Some(3), Some(2), Some(1)]]
    );
    assert_eq!(grid, vec![None; 3]);
    assert!(used.is_empty());
}

#[test]
fn solve_respects_shared_and_used_cells() {
    // Two lines sharing cell 1, on a board with cell 4 already holding 5.
    let mut grid = vec![None, None, None, None, Some(5)];
    let mut solns: Vec<Vec<Option<i32>>> = Vec::new();
    let mut used: HashSet<i32> = [5].into_iter().collect();
    let lines = vec![vec![0usize, 1], vec![1usize, 2]];
    let rows = vec![vec![1, 5], vec![2, 4], vec![4, 2], vec![4, 3], vec![3, 1]];
    solve(&mut grid, &mut solns, &lines, &mut used, 0, &rows);
    assert_eq!(
        solns,
        vec![
            vec![Some(2), Some(4), Some(3), None, Some(5)],
            vec![Some(4), Some(3), Some(1), None, Some(5)],
        ]
    );
    assert_eq!(grid, vec![None, None, None, None, Some(5)]);
    let expected: HashSet<i32> = [5].into_iter().collect();
    assert_eq!(used, expected);
}

#[test]
fn solve_appends_after_earlier_boards() {
    let mut grid = vec![None; 2];
    let mut solns: Vec<Vec<Option<i32>>> = vec![vec![Some(9), Some(9)]];
    let mut used: HashSet<i32> = HashSet::new();
    let lines = vec![vec![0usize, 1]];
    let rows = vec![vec![1, 2]];
    solve(&mut grid, &mut solns, &lines, &mut used, 0, &rows);
    assert_eq!(solns, vec![vec![Some(9), Some(9)], vec![Some(1), Some(2)]]);
}

#[test]
fn solve_with_empty_pool_finds_nothing() {
    let mut grid = vec![None; 2];
    let mut solns: Vec<Vec<Option<i32>>> = Vec::new();
    let mut used: HashSet<i32> = HashSet::new();
    let lines = vec![vec![0usize, 1]];
    let rows: Vec<Vec<i32>> = Vec::new();
    assert!(!solve(&mut grid, &mut solns, &lines, &mut used, 0, &rows));
    assert!(solns.is_empty());
}

#[test]
fn solve_restores_a_partly_filled_board() {
    let start = vec![Some(7), None, None, Some(2)];
    let mut grid = start.clone();
    let mut solns: Vec<Vec<Option<i32>>> = Vec::new();
    let mut used: HashSet<i32> = [7, 2].into_iter().collect();
    let lines = vec![vec![0usize, 1, 2], vec![2usize, 3]];
    let rows = vec![vec![7, 1, 4], vec![7, 4, 1], vec![4, 2], vec![1, 2], vec![7, 3, 2]];
    solve(&mut grid, &mut solns, &lines, &mut used, 0, &rows);
    assert_eq!(grid, start);
    let expected: HashSet<i32> = [7, 2].into_iter().collect();
    assert_eq!(used, expected);
    assert_eq!(
        solns,
        vec![
            vec![Some(7), Some(1), Some(4), Some(2)],
            vec![Some(7), Some(4), Some(1), Some(2)],
        ]
    );
}

#[test]
fn row_fits_checks_cells_and_used_values() {
    let grid = vec![Some(3), None, None];
    let used: HashSet<i32> = [3].into_iter().collect();
    let line = vec![0usize, 1, 2];
    assert!(row_fits(&grid, &used, &line, &vec![3, 1, 2]));
    assert!(!row_fits(&grid, &used, &line, &vec![4, 1, 2]));
    assert!(!row_fits(&grid, &used, &line, &vec![3, 3, 2]));
    assert!(!row_fits(&grid, &used, &line, &vec![3, 1, 3]));
}
