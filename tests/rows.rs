use aristotle::rows::{generate_valid_rows, row_sum};

fn one_to_nineteen() -> Vec<i32> {
    (1..=19).collect()
}

#[test]
fn rows_of_three_summing_to_38_exist() {
    let rows = generate_valid_rows(3, 38, one_to_nineteen());
    assert!(!rows.is_empty());
    assert_eq!(rows.len(), 180);
}

#[test]
fn rows_summing_to_1000_do_not_exist() {
    let rows = generate_valid_rows(3, 1000, one_to_nineteen());
    assert!(rows.is_empty());
}

#[test]
fn rows_of_four_and_five_counts() {
    assert_eq!(generate_valid_rows(4, 38, one_to_nineteen()).len(), 3528);
    assert_eq!(generate_valid_rows(5, 38, one_to_nineteen()).len(), 28560);
}

#[test]
fn rows_come_in_permutation_order() {
    let rows = generate_valid_rows(2, 5, vec![1, 2, 3, 4]);
    assert_eq!(rows, vec![vec![1, 4], vec![2, 3], vec![3, 2], vec![4, 1]]);
}

#[test]
fn every_row_is_sound() {
    let rows = generate_valid_rows(3, 38, one_to_nineteen());
    for row in &rows {
        assert_eq!(row.len(), 3);
        assert_eq!(row.iter().sum::<i32>(), 38);
        assert!(row.iter().all(|v| (1..=19).contains(v)));
        assert!(row[0] != row[1] && row[0] != row[2] && row[1] != row[2]);
    }
    assert!(rows.contains(&vec![19, 18, 1]));
    assert!(rows.contains(&vec![1, 18, 19]));
}

#[test]
fn no_row_longer_than_the_pool() {
    assert!(generate_valid_rows(4, 6, vec![1, 2, 3]).is_empty());
}

#[test]
fn empty_row_sums_to_zero() {
    assert_eq!(generate_valid_rows(0, 0, vec![1, 2, 3]), vec![Vec::<i32>::new()]);
    assert!(generate_valid_rows(0, 1, vec![1, 2, 3]).is_empty());
}

#[test]
fn repeated_pool_values_are_taken_by_position() {
    let rows = generate_valid_rows(2, 4, vec![2, 2]);
    assert_eq!(rows, vec![vec![2, 2], vec![2, 2]]);
}

#[test]
fn row_sum_is_exact() {
    assert_eq!(row_sum(&vec![]), 0);
    assert_eq!(row_sum(&vec![3, 17, 18]), 38);
    assert_eq!(row_sum(&vec![i32::MAX, i32::MAX]), 2 * (i32::MAX as i128));
    assert_eq!(row_sum(&vec![i32::MIN, -1]), i32::MIN as i128 - 1);
}
