use quests::columns::{get_checksum, phase_1, phase_2, phase_2_rapid};
use quests::complex::{divide, multiply, sum, within_bounds_part_2};
use quests::knots::{check_for_knot, count_knots};
use quests::wall::{find_grid_corners, is_valid_point, wall_contains_point, Line};

#[test]
fn product_of_pairs() {
    assert_eq!(multiply((1, 1), (2, 2)), (0, 4));
    assert_eq!(multiply((2, 5), (3, 7)), (-29, 29));
    assert_eq!(multiply((-2, 5), (10, -1)), (-15, 52));
    assert_eq!(multiply((0, 0), (0, 0)), (0, 0));
}

#[test]
fn sum_of_pairs() {
    assert_eq!(sum((1, 1), (2, 2)), (3, 3));
    assert_eq!(sum((2, 5), (3, 7)), (5, 12));
    assert_eq!(sum((-2, 5), (10, -1)), (8, 4));
}

#[test]
fn quotient_of_pairs_rounds_towards_zero() {
    assert_eq!(divide((10, 12), (2, 2)), (5, 6));
    assert_eq!(divide((11, 12), (3, 5)), (3, 2));
    assert_eq!(divide((-10, -12), (2, 2)), (-5, -6));
    assert_eq!(divide((-11, -12), (3, 5)), (-3, -2));
    assert_eq!(divide((-11, 12), (-3, -5)), (3, -2));
    assert_eq!(divide((7, -7), (-2, 2)), (-3, -3));
    assert_eq!(divide((isize::MIN, 0), (1, -1)), (isize::MIN, 0));
}

#[test]
fn bounded_pairs() {
    assert!(within_bounds_part_2(&(0, 0)));
    assert!(within_bounds_part_2(&(1000000, -1000000)));
    assert!(!within_bounds_part_2(&(1000001, 0)));
    assert!(!within_bounds_part_2(&(0, 1000001)));
    assert!(!within_bounds_part_2(&(-1000001, 0)));
    assert!(!within_bounds_part_2(&(0, -1000001)));
}

#[test]
fn three_rounds_of_the_first_part() {
    let mut result = (0, 0);
    for _ in 0..3 {
        result = multiply(result, result);
        result = divide(result, (10, 10));
        result = sum(result, (25, 9));
    }
    assert_eq!(result, (357, 862));
}

#[test]
fn threads_cross_when_one_end_lies_between() {
    assert_eq!(check_for_knot(&[1, 5], &[3, 7], false), 1);
    assert_eq!(check_for_knot(&[5, 1], &[7, 3], false), 1);
    assert_eq!(check_for_knot(&[3, 7], &[1, 5], false), 1);
    assert_eq!(check_for_knot(&[1, 5], &[2, 4], false), 0);
    assert_eq!(check_for_knot(&[1, 5], &[5, 7], false), 0);
    assert_eq!(check_for_knot(&[1, 5], &[1, 7], false), 0);
    assert_eq!(check_for_knot(&[1, 5], &[6, 8], false), 0);
}

#[test]
fn identical_threads_cross_only_on_request() {
    assert_eq!(check_for_knot(&[1, 5], &[5, 1], false), 0);
    assert_eq!(check_for_knot(&[1, 5], &[5, 1], true), 1);
    assert_eq!(check_for_knot(&[1, 5], &[1, 6], true), 0);
}

#[test]
fn knots_of_a_path() {
    assert_eq!(count_knots(&[]), 0);
    assert_eq!(count_knots(&[1]), 0);
    assert_eq!(count_knots(&[1, 5]), 0);
    assert_eq!(count_knots(&[1, 5, 2, 6, 8, 4, 1, 7, 3, 5, 7, 8, 2]), 21);
    assert_eq!(count_knots(&[1, 5, 2, 6]), 1);
}

#[test]
fn ducks_step_on() {
    assert_eq!(phase_1(vec![9, 1, 1, 4, 9, 6]), (vec![8, 1, 2, 4, 8, 7], true));
    assert_eq!(phase_1(vec![1, 2, 3]), (vec![1, 2, 3], false));
    assert_eq!(phase_1(vec![3, 2, 1]), (vec![2, 2, 2], true));
    assert_eq!(phase_1(vec![7]), (vec![7], false));
}

#[test]
fn ducks_step_back() {
    assert_eq!(phase_2(vec![1, 2, 3]), (vec![2, 2, 2], true));
    assert_eq!(phase_2(vec![3, 2, 1]), (vec![3, 2, 1], false));
    assert_eq!(phase_2(vec![2, 2, 5, 5]), (vec![2, 3, 5, 4], true));
    assert_eq!(phase_2(vec![7]), (vec![7], false));
}

#[test]
fn rounds_to_even_out() {
    assert_eq!(phase_2_rapid(vec![1, 2, 3]), 1);
    assert_eq!(phase_2_rapid(vec![5, 5, 5]), 0);
    assert_eq!(phase_2_rapid(vec![0, 0, 9]), 6);
    assert_eq!(phase_2_rapid(vec![0, 0, 10]), 6);
    assert_eq!(phase_2_rapid(vec![4]), 0);
}

#[test]
fn checksum_weighs_by_place() {
    assert_eq!(get_checksum(&vec![]), 0);
    assert_eq!(get_checksum(&vec![9]), 9);
    assert_eq!(get_checksum(&vec![9, 1, 1, 4, 9, 6]), 9 + 2 + 3 + 16 + 45 + 36);
}

#[test]
fn ten_rounds_of_the_first_part() {
    let mut columns = vec![9, 1, 1, 4, 9, 6];
    let mut round = 0;
    let mut changed = true;
    while changed && round < 10 {
        (columns, changed) = phase_1(columns);
        if changed {
            round += 1;
        }
    }
    changed = true;
    while changed && round < 10 {
        (columns, changed) = phase_2(columns);
        if changed {
            round += 1;
        }
    }
    assert_eq!(round, 10);
    assert_eq!(get_checksum(&columns), 109);
}

#[test]
fn a_line_covers_its_points() {
    let line = Line::new((2, 5), (2, 1));
    assert_eq!(line.start, (2, 5));
    assert_eq!(line.end, (2, 1));
    assert!(line.contains_point(&(2, 1)));
    assert!(line.contains_point(&(2, 3)));
    assert!(line.contains_point(&(2, 5)));
    assert!(!line.contains_point(&(2, 0)));
    assert!(!line.contains_point(&(2, 6)));
    assert!(!line.contains_point(&(1, 3)));
    let down = Line::new((4, 1), (-1, 1));
    assert!(down.contains_point(&(0, 1)));
    assert!(!down.contains_point(&(5, 1)));
}

#[test]
fn a_slanted_line_covers_by_the_order_of_its_ends() {
    let line = Line::new((0, 5), (3, 1));
    assert!(!line.contains_point(&(1, 3)));
    let line = Line::new((0, 1), (3, 5));
    assert!(line.contains_point(&(1, 3)));
}

#[test]
fn rows_and_columns_of_a_line() {
    let line = Line::new((2, 5), (-3, 7));
    assert_eq!(line.get_max_row(), 2);
    assert_eq!(line.get_min_row(), -3);
    assert_eq!(line.get_max_col(), 7);
    assert_eq!(line.get_min_col(), 5);
}

#[test]
fn a_wall_covers_what_a_line_covers() {
    let wall = [Line::new((0, 0), (0, 4)), Line::new((0, 4), (3, 4))];
    assert!(wall_contains_point(&wall, &(0, 2)));
    assert!(wall_contains_point(&wall, &(2, 4)));
    assert!(!wall_contains_point(&wall, &(2, 2)));
    assert!(!wall_contains_point(&[], &(0, 0)));
}

#[test]
fn the_frame_leaves_two_cells_free() {
    let wall = [Line::new((0, 0), (0, 4)), Line::new((0, 4), (-3, 4)), Line::new((-3, 4), (-3, 9))];
    assert_eq!(find_grid_corners(&wall), [(-5, -2), (2, 11)]);
    assert_eq!(find_grid_corners(&[Line::new((1, 1), (1, 1))]), [(-1, -1), (3, 3)]);
}

#[test]
fn points_in_the_frame() {
    let corners = [(-5, -2), (2, 11)];
    assert!(is_valid_point(&(-5, -2), &corners));
    assert!(is_valid_point(&(2, 11), &corners));
    assert!(is_valid_point(&(0, 0), &corners));
    assert!(!is_valid_point(&(-6, 0), &corners));
    assert!(!is_valid_point(&(3, 0), &corners));
    assert!(!is_valid_point(&(0, -3), &corners));
    assert!(!is_valid_point(&(0, 12), &corners));
}
