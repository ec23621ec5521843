use quests::columns::settle_down;
use quests::knots::{best_cut, count_center_hits, count_cut};
use quests::sizes::{distinct_sizes, most_frequent, sum_of_first, sum_of_sizes, sum_of_smallest};

#[test]
fn threads_through_the_centre() {
    assert_eq!(count_center_hits(&[1, 5, 2, 6, 8, 4, 1, 7, 3], 4), 4);
    assert_eq!(count_center_hits(&[1, 5, 2, 6, 8, 4, 1, 7, 3], 16), 0);
    assert_eq!(count_center_hits(&[1, 17, 1, 17, 18, 2], 16), 4);
    assert_eq!(count_center_hits(&[], 16), 0);
    assert_eq!(count_center_hits(&[5], 0), 0);
    assert_eq!(count_center_hits(&[5, 5, 6], 0), 1);
    assert_eq!(count_center_hits(&[isize::MIN, isize::MAX, 0, isize::MIN], isize::MAX), 1);
    assert_eq!(count_center_hits(&[isize::MIN, 0], isize::MAX), 0);
}

#[test]
fn threads_that_a_cut_crosses() {
    assert_eq!(count_cut(&[1, 5, 2, 6], 3, 7), 3);
    assert_eq!(count_cut(&[1, 5, 2, 6], 1, 5), 2);
    assert_eq!(count_cut(&[1, 5, 2, 6], 5, 1), 2);
    assert_eq!(count_cut(&[1, 5], 1, 5), 1);
    assert_eq!(count_cut(&[1], 1, 5), 0);
    assert_eq!(count_cut(&[], 1, 5), 0);
}

#[test]
fn the_best_cut() {
    assert_eq!(best_cut(&[1, 5, 2, 6, 8, 4, 1, 7, 3, 6], 8), 7);
    assert_eq!(best_cut(&[1, 5], 8), 1);
    assert_eq!(best_cut(&[], 8), 0);
    assert_eq!(best_cut(&[1, 5, 2, 6], 1), 0);
    assert_eq!(best_cut(&[1, 5, 2, 6], 2), 0);
    assert_eq!(best_cut(&[1, 5, 2, 6], 0), 0);
    assert_eq!(best_cut(&[1, 5, 2, 6], -3), 0);
}

#[test]
fn ducks_settle_down() {
    assert_eq!(settle_down(vec![9, 1, 1, 4, 9, 6]), (vec![3, 4, 4, 4, 7, 8], 6));
    assert_eq!(settle_down(vec![3, 2, 1]), (vec![2, 2, 2], 1));
    assert_eq!(settle_down(vec![1, 2, 3]), (vec![1, 2, 3], 0));
    assert_eq!(settle_down(vec![7]), (vec![7], 0));
    assert_eq!(settle_down(vec![5, 0, 0]), (vec![1, 2, 2], 4));
}

#[test]
fn the_sizes_that_occur() {
    assert_eq!(distinct_sizes(&[10, 5, 1, 10, 3, 8, 5, 2, 2]), vec![1, 2, 3, 5, 8, 10]);
    assert_eq!(distinct_sizes(&[]), Vec::<isize>::new());
    assert_eq!(distinct_sizes(&[-1, -1, -5]), vec![-5, -1]);
}

#[test]
fn sums_of_sizes() {
    assert_eq!(sum_of_sizes(&[10, 5, 1, 10, 3, 8, 5, 2, 2]), Some(29));
    assert_eq!(sum_of_sizes(&[]), Some(0));
    assert_eq!(sum_of_sizes(&[isize::MAX, 1]), None);
    assert_eq!(sum_of_sizes(&[isize::MAX, isize::MAX]), Some(isize::MAX));
    assert_eq!(sum_of_sizes(&[isize::MAX, -1, 1]), Some(isize::MAX));
    assert_eq!(sum_of_sizes(&[isize::MIN, -1, isize::MAX]), None);
    assert_eq!(sum_of_smallest(&[10, 5, 1, 10, 3, 8, 5, 2, 2], 3), Some(6));
    assert_eq!(sum_of_smallest(&[10, 5, 1, 10, 3, 8, 5, 2, 2], 6), Some(29));
    assert_eq!(sum_of_smallest(&[10, 5, 1, 10, 3, 8, 5, 2, 2], 7), None);
    assert_eq!(sum_of_smallest(&[10, 5], 0), Some(0));
    assert_eq!(sum_of_smallest(&[1, 2, isize::MAX], 2), Some(3));
    assert_eq!(sum_of_first(&[4, 6, 9], 2), Some(10));
    assert_eq!(sum_of_first(&[4, 6, 9], 4), None);
}

#[test]
fn the_most_frequent_size() {
    assert_eq!(most_frequent(&[10, 5, 1, 10, 3, 8, 5, 2, 2]), Some(2));
    assert_eq!(most_frequent(&[4, 4, 4, 1]), Some(3));
    assert_eq!(most_frequent(&[7]), Some(1));
    assert_eq!(most_frequent(&[]), None);
}
