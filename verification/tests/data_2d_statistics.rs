use ghg::data_2d_statistics::Data1d;
use ghg::data_2d_statistics::Data2d;
use ghg::data_2d_statistics::Data2dStatistics;
use ghg::extremes::widen_range;

fn grid(rows: &[&[i64]]) -> Data2d<i64> {
    Data2d { rows: rows.iter().map(|row| Data1d { columns: row.to_vec() }).collect() }
}

fn statistics(name: &str, rows: &[&[i64]]) -> Data2dStatistics<i64> {
    Data2dStatistics { name: name.to_owned(), data: grid(rows), min: None, max: None }
}

fn cells(data: &Data2d<i64>) -> Vec<Vec<i64>> {
    data.rows.iter().map(|row| row.columns.clone()).collect()
}

#[test]
fn test_new_row_holds_defaults() {
    let row = Data1d::<i64>::new(4);
    assert_eq!(row.width(), 4);
    assert_eq!(row.columns, vec![0, 0, 0, 0]);
    assert_eq!(Data1d::<u8>::new(0).width(), 0);
}

#[test]
fn test_new_grid_has_the_asked_dimensions() {
    let data = Data2d::<i64>::new(3, 2);
    assert_eq!(data.width(), 3);
    assert_eq!(data.height(), 2);
    assert_eq!(cells(&data), vec![vec![0, 0, 0], vec![0, 0, 0]]);
}

#[test]
fn test_grid_without_rows_has_width_zero() {
    let data = Data2d::<i64>::new(5, 0);
    assert_eq!(data.height(), 0);
    assert_eq!(data.width(), 0);
}

#[test]
fn test_width_is_that_of_the_first_row() {
    let data = grid(&[&[1, 2], &[3, 4, 5]]);
    assert_eq!(data.width(), 2);
    assert_eq!(data.height(), 2);
}

#[test]
fn test_widen_range_starts_and_widens() {
    assert_eq!(widen_range(5, None, None), (Some(5), Some(5)));
    assert_eq!(widen_range(7, Some(5), Some(5)), (Some(5), Some(7)));
    assert_eq!(widen_range(-1, Some(5), Some(7)), (Some(-1), Some(7)));
    assert_eq!(widen_range(6, Some(-1), Some(7)), (Some(-1), Some(7)));
    assert_eq!(widen_range(7, Some(-1), Some(7)), (Some(-1), Some(7)));
}

#[test]
fn test_sub_takes_the_right_hand_side_minus_self() {
    let before = statistics("before", &[&[1, 2, 3], &[4, 5, 6]]);
    let after = statistics("after", &[&[10, 2, 0], &[4, 50, 7]]);
    let change = before.sub(&after);
    assert_eq!(change.name, "before - after");
    assert_eq!(cells(&change.data), vec![vec![9, 0, -3], vec![0, 45, 1]]);
    assert_eq!(change.min, Some(-3));
    assert_eq!(change.max, Some(45));
}

#[test]
fn test_sub_of_grids_without_common_cells_has_no_range() {
    let before = statistics("a", &[&[1, 2]]);
    let after = statistics("b", &[]);
    let change = before.sub(&after);
    assert_eq!(change.name, "a - b");
    assert_eq!(cells(&change.data), vec![vec![0, 0]]);
    assert_eq!(change.min, None);
    assert_eq!(change.max, None);
    let nothing = after.sub(&before);
    assert_eq!(nothing.data.height(), 0);
    assert_eq!(nothing.min, None);
}

#[test]
fn test_sub_leaves_defaults_where_the_right_hand_side_is_smaller() {
    let before = statistics("wide", &[&[1, 2, 3], &[4, 5, 6], &[7, 8, 9]]);
    let after = statistics("small", &[&[2, 4], &[8, 6]]);
    let change = before.sub(&after);
    assert_eq!(cells(&change.data), vec![vec![1, 2, 0], vec![4, 1, 0], vec![0, 0, 0]]);
    assert_eq!(change.min, Some(1));
    assert_eq!(change.max, Some(4));
}

#[test]
fn test_sub_ignores_what_the_right_hand_side_has_beyond_self() {
    let before = statistics("small", &[&[5]]);
    let after = statistics("large", &[&[2, 100], &[300, 400]]);
    let change = before.sub(&after);
    assert_eq!(cells(&change.data), vec![vec![-3]]);
    assert_eq!(change.min, Some(-3));
    assert_eq!(change.max, Some(-3));
}
