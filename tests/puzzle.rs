use std::collections::HashSet;

use aristotle::puzzle::{
    centre_lines, domain, extend_boards, inner_ring, outer_ring, solve_puzzle, used_values, CELLS,
    MAGIC,
};
use aristotle::rows::generate_valid_rows;

fn known_solution() -> Vec<Option<i32>> {
    [3, 17, 18, 19, 7, 1, 11, 16, 2, 5, 6, 9, 12, 4, 8, 14, 10, 13, 15]
        .iter()
        .map(|&v| Some(v))
        .collect()
}

fn all_lines() -> Vec<Vec<usize>> {
    let mut lines = outer_ring();
    lines.extend(inner_ring());
    lines.extend(centre_lines());
    lines
}

fn is_magic(board: &[Option<i32>]) -> bool {
    let mut seen = HashSet::new();
    board.len() == CELLS
        && board
            .iter()
            .all(|c| matches!(c, Some(v) if (1..=19).contains(v) && seen.insert(*v)))
        && all_lines()
            .iter()
            .all(|l| l.iter().map(|&j| board[j].unwrap()).sum::<i32>() == MAGIC)
}

#[test]
fn configuration_is_fixed() {
    assert_eq!(domain(), (1..=19).collect::<Vec<i32>>());
    assert_eq!(outer_ring().len(), 6);
    assert_eq!(inner_ring().len(), 6);
    assert_eq!(centre_lines().len(), 3);
    assert!(is_magic(&known_solution()));
}

#[test]
fn used_values_collects_placed_values() {
    let board = vec![Some(4), None, Some(9), None, Some(4)];
    let expected: HashSet<i32> = [4, 9].into_iter().collect();
    assert_eq!(used_values(&board), expected);
    assert!(used_values(&vec![None; 3]).is_empty());
}

#[test]
fn centre_stage_completes_the_known_solution() {
    let mut seed = known_solution();
    seed[9] = None;
    let rows = generate_valid_rows(5, MAGIC, domain());
    let found = extend_boards(&vec![seed], &centre_lines(), &rows);
    assert_eq!(found, vec![known_solution()]);
}

#[test]
fn inner_stage_from_the_known_outer_ring() {
    let solution = known_solution();
    let outer_cells = [0usize, 1, 2, 3, 6, 7, 11, 12, 15, 16, 17, 18];
    let mut seed = vec![None; CELLS];
    for &j in &outer_cells {
        seed[j] = solution[j];
    }
    let mut expected = solution.clone();
    expected[9] = None;
    let rows = generate_valid_rows(4, MAGIC, domain());
    let found = extend_boards(&vec![seed.clone()], &inner_ring(), &rows);
    assert!(found.contains(&expected));
    for board in &found {
        for &j in &outer_cells {
            assert_eq!(board[j], seed[j]);
        }
    }
}

#[test]
fn extend_boards_with_no_seeds_finds_nothing() {
    let rows = generate_valid_rows(5, MAGIC, domain());
    assert!(extend_boards(&Vec::new(), &centre_lines(), &rows).is_empty());
}

#[test]
fn full_pipeline_finds_every_solution() {
    let first = solve_puzzle();
    assert_eq!(first.solutions.len(), 12);
    assert!(first.solutions.iter().all(|b| is_magic(b)));
    assert!(first.solutions.contains(&known_solution()));
    assert_eq!(first.outer_rings.len(), 30504);
}

#[test]
fn pipeline_is_repeatable() {
    let first = solve_puzzle();
    let second = solve_puzzle();
    assert_eq!(first.outer_rings, second.outer_rings);
    assert_eq!(first.inner_rings, second.inner_rings);
    assert_eq!(first.solutions, second.solutions);
}
