use quests::barrels::{
    add_points, contains_point, count_new, dfs_connected_barrels, fire_from, greedy_check,
};
use quests::mentors::{
    collect_char_map, count_possible_mentors, count_possible_mentors_distance_wise, is_ascending,
    mentors_before, mentors_near, rank, CharMap,
};
use quests::wall::{parse_wall, wall_has, Line};

fn chars(s: &str) -> Vec<char> {
    s.chars().collect()
}

fn heights(rows: &[&str]) -> Vec<Vec<usize>> {
    rows.iter().map(|r| r.bytes().map(|b| (b - b'0') as usize).collect()).collect()
}

fn sorted(mut points: Vec<(isize, isize)>) -> Vec<(isize, isize)> {
    points.sort();
    points
}

#[test]
fn places_of_each_letter() {
    let map = collect_char_map(&chars("ABabACacBCbca"));
    assert_eq!(map.letters, vec!['A', 'B', 'a', 'b', 'C', 'c']);
    assert_eq!(
        map.places,
        vec![vec![0, 4], vec![1, 8], vec![2, 6, 12], vec![3, 10], vec![5, 9], vec![7, 11]]
    );
    assert_eq!(map.find('C'), Some(4));
    assert_eq!(map.find('x'), None);
    let none = collect_char_map(&[]);
    assert!(none.letters.is_empty());
    assert!(none.places.is_empty());
}

#[test]
fn mentors_before_an_apprentice() {
    let map = collect_char_map(&chars("ABabACacBCbca"));
    assert_eq!(count_possible_mentors(&map, 'a'), 5);
    assert_eq!(count_possible_mentors(&map, 'b'), 3);
    assert_eq!(count_possible_mentors(&map, 'c'), 3);
    assert_eq!(count_possible_mentors(&map, 'A'), 1);
}

#[test]
fn mentors_counted_where_the_line_allows() {
    let map = collect_char_map(&chars("ABabACacBCbca"));
    assert_eq!(mentors_before(&map, 'a'), Some(5));
    assert_eq!(mentors_before(&map, 'z'), None);
    assert_eq!(mentors_before(&collect_char_map(&chars("aaa")), 'a'), None);
    assert_eq!(mentors_before(&collect_char_map(&chars("ß")), 'ß'), None);
    assert_eq!(mentors_before(&collect_char_map(&chars("Sß")), 'ß'), Some(1));
    assert_eq!(mentors_before(&collect_char_map(&chars("äÄä")), 'ä'), Some(1));
    assert_eq!(mentors_near(&map, 'a', 2), Some(count_possible_mentors_distance_wise(&map, 'a', 2)));
    assert_eq!(mentors_near(&map, 'z', 2), Some(0));
    let unsorted = CharMap { letters: vec!['a', 'A'], places: vec![vec![5], vec![4, 1]] };
    assert_eq!(mentors_before(&unsorted, 'a'), None);
    assert_eq!(mentors_near(&unsorted, 'a', 1), Some(1));
    assert!(is_ascending(&[1, 4]));
    assert!(!is_ascending(&[4, 4]));
    assert!(is_ascending(&[]));
}

#[test]
fn rank_counts_what_stands_before() {
    assert_eq!(rank(&[0, 4], 2), 1);
    assert_eq!(rank(&[0, 4], 0), 0);
    assert_eq!(rank(&[0, 4], 4), 1);
    assert_eq!(rank(&[0, 4], 5), 2);
    assert_eq!(rank(&[], 5), 0);
    assert_eq!(rank(&[1, 3, 5, 7, 9, 11], 8), 4);
}

#[test]
fn mentors_near_an_apprentice() {
    let map = collect_char_map(&chars("AABCBABCABCabcabcABCCBAACBCa"));
    assert_eq!(count_possible_mentors_distance_wise(&map, 'a', 10), 12);
    assert_eq!(count_possible_mentors_distance_wise(&map, 'b', 10), 11);
    assert_eq!(count_possible_mentors_distance_wise(&map, 'c', 10), 11);
    assert_eq!(count_possible_mentors_distance_wise(&map, 'a', 100), 21);
    assert_eq!(count_possible_mentors_distance_wise(&map, 'a', 0), 0);
    assert_eq!(count_possible_mentors_distance_wise(&map, 'a', -1), 0);
    assert_eq!(count_possible_mentors_distance_wise(&map, 'z', 10), 0);
    let alone = collect_char_map(&chars("aaa"));
    assert_eq!(count_possible_mentors_distance_wise(&alone, 'a', 10), 0);
    assert_eq!(count_possible_mentors_distance_wise(&alone, 'A', 1), 0);
}

#[test]
fn a_letter_that_is_its_own_capital_pairs_with_itself() {
    let map = collect_char_map(&chars("A.A"));
    assert_eq!(count_possible_mentors_distance_wise(&map, 'A', 1), 2);
    assert_eq!(count_possible_mentors_distance_wise(&map, 'A', 2), 4);
    assert_eq!(count_possible_mentors(&map, 'A'), 1);
}

#[test]
fn fire_spreads_to_barrels_that_are_no_higher() {
    let grid = heights(&["989601", "857782", "746543", "766789"]);
    let burned = dfs_connected_barrels(grid.clone(), vec![(0, 0)]);
    assert_eq!(
        sorted(burned),
        vec![
            (0, 0), (0, 1), (0, 4), (0, 5), (1, 0), (1, 1), (1, 5), (2, 0), (2, 1), (2, 2), (2, 3),
            (2, 4), (2, 5), (3, 0), (3, 1), (3, 2)
        ]
    );
    assert_eq!(dfs_connected_barrels(grid.clone(), vec![(0, 0), (3, 5)]).len(), 19);
    assert!(dfs_connected_barrels(grid.clone(), vec![]).is_empty());
    assert_eq!(dfs_connected_barrels(grid.clone(), vec![(0, 3), (0, 3)]), vec![(0, 3), (0, 4)]);
    assert_eq!(fire_from(&grid, &[(0, 4)]), vec![(0, 4)]);
}

#[test]
fn fire_on_a_single_barrel() {
    assert_eq!(dfs_connected_barrels(vec![vec![5]], vec![(0, 0)]), vec![(0, 0)]);
    assert_eq!(sorted(dfs_connected_barrels(vec![vec![5, 5]], vec![(0, 1)])), vec![(0, 0), (0, 1)]);
    assert_eq!(dfs_connected_barrels(vec![vec![5, 6]], vec![(0, 0)]), vec![(0, 0)]);
}

#[test]
fn valid_moves_go_to_barrels_that_are_no_higher() {
    let grid = heights(&["98", "85"]);
    assert!(quests::barrels::is_valid_move(&grid, &(0, 0), &(0, 1)));
    assert!(quests::barrels::is_valid_move(&grid, &(0, 0), &(1, 0)));
    assert!(!quests::barrels::is_valid_move(&grid, &(1, 1), &(0, 1)));
    assert!(quests::barrels::is_valid_move(&grid, &(1, 0), &(0, 1)));
    assert!(!quests::barrels::is_valid_move(&grid, &(0, 0), &(-1, 0)));
    assert!(!quests::barrels::is_valid_move(&grid, &(0, 0), &(0, 2)));
    assert!(!quests::barrels::is_valid_move(&grid, &(0, 0), &(2, 0)));
}

#[test]
fn the_best_barrel_to_light() {
    let grid = heights(&["989601", "857782", "746543", "766789"]);
    let (point, burned) = greedy_check(&grid, &[]);
    assert!(point == (0, 0) || point == (0, 2));
    assert_eq!(burned.len(), 16);
    assert_eq!(sorted(burned.clone()), sorted(fire_from(&grid, &[point])));
    let exclude = fire_from(&grid, &[(0, 0)]);
    let (second, then) = greedy_check(&grid, &exclude);
    assert!(second == (0, 2) || second == (1, 4));
    assert!(!exclude.contains(&second));
    assert_eq!(count_new(&then, &exclude), 4);
}

#[test]
fn points_counted_and_added() {
    assert!(contains_point(&[(1, 2), (3, 4)], (3, 4)));
    assert!(!contains_point(&[(1, 2), (3, 4)], (4, 3)));
    assert_eq!(count_new(&[(1, 2), (3, 4), (5, 6)], &[(3, 4), (7, 8)]), 2);
    assert_eq!(count_new(&[], &[(3, 4)]), 0);
    let mut all = vec![(1, 2)];
    add_points(&mut all, &[(3, 4), (1, 2), (3, 4)]);
    assert_eq!(all, vec![(1, 2), (3, 4)]);
}

fn instructions(text: &str) -> Vec<Vec<u8>> {
    text.split(',').map(|s| s.as_bytes().to_vec()).collect()
}

#[test]
fn a_wall_from_instructions() {
    let (wall, end) = parse_wall(vec![], &instructions("R2,X3,L-1,R+4"), 0, (0, 0));
    assert_eq!(end, (7, 1));
    assert_eq!(
        wall,
        vec![
            Line::new((0, 0), (0, 2)),
            Line::new((0, 2), (3, 2)),
            Line::new((3, 2), (3, 1)),
            Line::new((3, 1), (7, 1))
        ]
    );
    let (wall, end) = parse_wall(
        vec![],
        &instructions("L6,L3,L6,R3,L6,L3,L3,R6,L6,R6,L6,L6,R3,L3,L3,R3,R3,L6,L6,L3"),
        0,
        (0, 0),
    );
    assert_eq!(end, (6, -6));
    assert_eq!(wall.len(), 20);
    assert_eq!(wall[0], Line::new((0, 0), (0, -6)));
    assert_eq!(wall[19], Line::new((9, -6), (6, -6)));
}

#[test]
fn a_wall_holds_each_segment_once() {
    let (wall, end) = parse_wall(vec![Line::new((0, 0), (0, 1))], &instructions("R1,R0,R0,R0,R0"), 0, (0, 0));
    assert_eq!(end, (0, 1));
    assert_eq!(wall, vec![Line::new((0, 0), (0, 1)), Line::new((0, 1), (0, 1))]);
    let (same, end) = parse_wall(vec![Line::new((5, 5), (5, 6))], &[], 3, (9, 9));
    assert_eq!(end, (9, 9));
    assert_eq!(same, vec![Line::new((5, 5), (5, 6))]);
    assert!(wall_has(&wall, &Line::new((0, 1), (0, 1))));
    assert!(!wall_has(&wall, &Line::new((0, 1), (0, 0))));
}
