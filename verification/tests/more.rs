use quests::board::{ChessBoard, MalformedBoard};
use quests::flaps::take_obstacle;
use quests::ranking::{compare_sword_scores, get_sword_and_value_from_line, SwordScore};
use quests::scaffold::{day_number, is_day_folder, new_day_name, push_decimal};
use quests::spells::{
    calculate_blocks_in_wall, get_length_wall, get_spell_from_wall, is_flat, strike_spell,
    wall_settles,
};
use quests::sword::{glue_numbers, Sword};
use quests::text::{parse_isize, parse_isize_list, parse_usize, parse_usize_list, split_fields};
use std::cmp::Ordering;

fn grid(rows: &[&str]) -> Vec<Vec<char>> {
    rows.iter().map(|r| r.chars().collect()).collect()
}

#[test]
fn a_grid_gives_a_board() {
    let b = ChessBoard::from_grid(&grid(&["S.D", "#S.", "..S"])).unwrap();
    assert_eq!(b.sheep, vec![(0, 0), (1, 1), (2, 2)]);
    assert_eq!(b.dragon, (0, 2));
    assert_eq!(b.safe, vec![(1, 0)]);
    assert_eq!((b.width, b.height), (3, 3));
    assert!(b.is_well_formed());
}

#[test]
fn the_last_dragon_of_a_grid_counts() {
    let b = ChessBoard::from_grid(&grid(&["D.", ".D", "S#"])).unwrap();
    assert_eq!(b.dragon, (1, 1));
    assert_eq!((b.width, b.height), (2, 3));
    assert_eq!(b.sheep, vec![(2, 0)]);
    assert_eq!(b.safe, vec![(2, 1)]);
}

#[test]
fn malformed_grids_are_refused() {
    assert_eq!(ChessBoard::from_grid(&grid(&[])), Err(MalformedBoard::EmptyGrid));
    assert_eq!(ChessBoard::from_grid(&grid(&["SD", "S"])), Err(MalformedBoard::UnequalRows));
    assert_eq!(ChessBoard::from_grid(&grid(&["D", "SS"])), Err(MalformedBoard::UnequalRows));
    assert_eq!(ChessBoard::from_grid(&grid(&["S.", "#S"])), Err(MalformedBoard::NoDragon));
    assert_eq!(ChessBoard::from_grid(&grid(&["", ""])), Err(MalformedBoard::NoDragon));
    assert_eq!(ChessBoard::from_grid(&grid(&["S", "SD"])), Err(MalformedBoard::UnequalRows));
}

#[test]
fn a_board_is_drawn_as_it_was_read() {
    let rows = grid(&["S.D", "#S.", "..S"]);
    let b = ChessBoard::from_grid(&rows).unwrap();
    assert_eq!(b.render(), rows);
}

#[test]
fn the_dragon_hides_what_stands_under_it() {
    let b = ChessBoard::new(vec![(0, 0), (1, 1)], (0, 0), vec![(0, 0), (1, 1), (1, 0)], 2, 2).unwrap();
    assert_eq!(b.render(), grid(&["D.", "#S"]));
    let empty = ChessBoard { sheep: vec![], dragon: (0, 0), safe: vec![], width: 0, height: -1 };
    assert!(empty.render().is_empty());
}

#[test]
fn unsigned_numbers() {
    assert_eq!(parse_usize(b"42"), Some(42));
    assert_eq!(parse_usize(b"+7"), Some(7));
    assert_eq!(parse_usize(b"007"), Some(7));
    assert_eq!(parse_usize(b"0"), Some(0));
    assert_eq!(parse_usize(b""), None);
    assert_eq!(parse_usize(b"+"), None);
    assert_eq!(parse_usize(b"-1"), None);
    assert_eq!(parse_usize(b"12a"), None);
    assert_eq!(parse_usize(b" 12"), None);
    assert_eq!(parse_usize(b"++1"), None);
    assert_eq!(parse_usize(usize::MAX.to_string().as_bytes()), Some(usize::MAX));
    assert_eq!(parse_usize(b"99999999999999999999999999999999999999999"), None);
    assert_eq!(parse_usize(b"99999999999999999999999999999999999999999x"), None);
}

#[test]
fn unsigned_numbers_read_as_std_reads_them() {
    for text in ["42", "+7", "007", "", "+", "-1", "-0", "12a", "18446744073709551615", "18446744073709551616"] {
        assert_eq!(parse_usize(text.as_bytes()), text.parse::<usize>().ok());
    }
}

#[test]
fn signed_numbers() {
    assert_eq!(parse_isize(b"42"), Some(42));
    assert_eq!(parse_isize(b"-12"), Some(-12));
    assert_eq!(parse_isize(b"+12"), Some(12));
    assert_eq!(parse_isize(b"-0"), Some(0));
    assert_eq!(parse_isize(b"-"), None);
    assert_eq!(parse_isize(b""), None);
    assert_eq!(parse_isize(b"--1"), None);
    assert_eq!(parse_isize(b"-+1"), None);
    assert_eq!(parse_isize(b"1-"), None);
    assert_eq!(parse_isize(isize::MIN.to_string().as_bytes()), Some(isize::MIN));
    assert_eq!(parse_isize(isize::MAX.to_string().as_bytes()), Some(isize::MAX));
    assert_eq!(parse_isize(b"99999999999999999999999999999999999999999"), None);
    assert_eq!(parse_isize(b"-99999999999999999999999999999999999999999"), None);
}

#[test]
fn signed_numbers_read_as_std_reads_them() {
    for text in ["42", "-12", "+12", "-0", "-", "", "--1", "9223372036854775807", "9223372036854775808", "-9223372036854775808", "-9223372036854775809"] {
        assert_eq!(parse_isize(text.as_bytes()), text.parse::<isize>().ok());
    }
}

#[test]
fn fields_between_separators() {
    assert_eq!(split_fields(b"a,b,,c", b','), vec![b"a".to_vec(), b"b".to_vec(), b"".to_vec(), b"c".to_vec()]);
    assert_eq!(split_fields(b"", b','), vec![Vec::<u8>::new()]);
    assert_eq!(split_fields(b",", b','), vec![Vec::<u8>::new(), Vec::<u8>::new()]);
    assert_eq!(split_fields(b"abc", b','), vec![b"abc".to_vec()]);
}

#[test]
fn lists_of_numbers() {
    assert_eq!(parse_usize_list(b"1,2,3", b','), Some(vec![1, 2, 3]));
    assert_eq!(parse_usize_list(b"17", b','), Some(vec![17]));
    assert_eq!(parse_usize_list(b"1,,3", b','), None);
    assert_eq!(parse_usize_list(b"", b','), None);
    assert_eq!(parse_usize_list(b"1,-2", b','), None);
    assert_eq!(parse_isize_list(b"1,-2,+3", b','), Some(vec![1, -2, 3]));
    assert_eq!(parse_isize_list(b"1,x", b','), None);
}

#[test]
fn a_sword_is_built_number_by_number() {
    let sword = Sword::from_line(b"58:5,3,7,8,9,10,4,5,7,8,8").construct_spine(b"58:5,3,7,8,9,10,4,5,7,8,8");
    assert_eq!(sword.id, 58);
    assert_eq!(sword.spine, vec![5, 8, 10, 7, 8]);
    assert_eq!(sword.left, vec![Some(3), Some(4), Some(5), None, None]);
    assert_eq!(sword.right, vec![Some(7), Some(9), None, Some(8), None]);
}

#[test]
fn a_number_equal_to_the_last_segment_is_a_new_segment() {
    let sword = Sword::new(1).build_spine(&[4, 4, 4, 3, 5]);
    assert_eq!(sword.spine, vec![4, 4, 4]);
    assert_eq!(sword.left, vec![Some(3), None, None]);
    assert_eq!(sword.right, vec![Some(5), None, None]);
    let none = Sword::new(1).build_spine(&[]);
    assert!(none.spine.is_empty());
}

#[test]
fn place_and_push() {
    let mut sword = Sword::new(9);
    sword.place(6);
    sword.push_to_spine(2);
    assert_eq!(sword.spine, vec![6, 2]);
    sword.place(1);
    assert_eq!(sword.left, vec![Some(1), None]);
    sword.place(1);
    assert_eq!(sword.left, vec![Some(1), Some(1)]);
    sword.place(1);
    assert_eq!(sword.spine, vec![6, 2, 1]);
    sword.place(7);
    assert_eq!(sword.right, vec![Some(7), None, None]);
    sword.place(2);
    assert_eq!(sword.right, vec![Some(7), None, Some(2)]);
}

#[test]
fn digits_glued() {
    assert_eq!(glue_numbers(5, 8), Some(58));
    assert_eq!(glue_numbers(58, 10), Some(5810));
    assert_eq!(glue_numbers(0, 57), Some(57));
    assert_eq!(glue_numbers(57, 0), Some(570));
    assert_eq!(glue_numbers(0, 0), Some(0));
    assert_eq!(glue_numbers(12, 345), Some(12345));
    assert_eq!(glue_numbers(usize::MAX, 0), None);
    assert_eq!(glue_numbers(usize::MAX / 10 + 1, 0), None);
    assert_eq!(glue_numbers(usize::MAX / 10, usize::MAX % 10), Some(usize::MAX));
}

#[test]
fn the_value_of_a_sword_is_its_spine() {
    let (sword, value) = get_sword_and_value_from_line(b"58:5,3,7,8,9,10,4,5,7,8,8");
    assert_eq!(value, 581078);
    let score = SwordScore::from_sword(sword, value);
    assert_eq!(score.id, 58);
    assert_eq!(score.value, 581078);
    assert_eq!(score.levels, vec![357, 489, 510, 78, 8]);
    assert_eq!(get_sword_and_value_from_line(b"1:2,4,1,1,8,2,7,9,8,6").1, 21296);
    assert_eq!(get_sword_and_value_from_line(b"2:7,9,9,3,8,3,8,8,6,8").1, 79388);
}

fn score(id: usize, levels: Vec<usize>, value: usize) -> SwordScore {
    SwordScore { id, levels, value }
}

#[test]
fn scores_rank_by_value_then_levels_then_number() {
    assert_eq!(compare_sword_scores(&score(1, vec![], 5), &score(2, vec![], 6)), Ordering::Less);
    assert_eq!(compare_sword_scores(&score(1, vec![], 7), &score(2, vec![], 6)), Ordering::Greater);
    assert_eq!(compare_sword_scores(&score(1, vec![3, 9], 6), &score(2, vec![3, 8], 6)), Ordering::Greater);
    assert_eq!(compare_sword_scores(&score(9, vec![3, 7], 6), &score(2, vec![3, 8], 6)), Ordering::Less);
    assert_eq!(compare_sword_scores(&score(1, vec![3, 8], 6), &score(2, vec![3, 8, 1], 6)), Ordering::Less);
    assert_eq!(compare_sword_scores(&score(3, vec![3, 8], 6), &score(2, vec![3, 8, 1], 6)), Ordering::Greater);
    assert_eq!(compare_sword_scores(&score(2, vec![3], 6), &score(2, vec![3], 6)), Ordering::Greater);
}

#[test]
fn blocks_of_a_wall() {
    assert_eq!(calculate_blocks_in_wall(&[1, 2, 3, 5, 9], 90), 193);
    assert_eq!(calculate_blocks_in_wall(&[], 90), 0);
    assert_eq!(calculate_blocks_in_wall(&[7], 6), 0);
    assert_eq!(calculate_blocks_in_wall(&[7], 7), 1);
}

#[test]
fn spells_of_a_wall() {
    let wall = [1, 2, 2, 2, 2, 3, 1, 2, 3, 3, 1, 3, 1, 2, 3, 2, 1, 4, 1, 3, 2, 2, 1, 3, 2, 2];
    assert!(wall_settles(&wall, 1));
    assert_eq!(get_spell_from_wall(&wall, 1, vec![]), vec![1, 2, 3, 5, 9]);
    assert_eq!(get_spell_from_wall(&[1, 1, 1], 1, vec![]), vec![1]);
    assert_eq!(get_spell_from_wall(&[0, 1, 0, 1], 1, vec![7]), vec![7, 2]);
    assert_eq!(get_spell_from_wall(&[0, 0], 1, vec![]), Vec::<usize>::new());
    assert_eq!(get_spell_from_wall(&[0, 0], 3, vec![]), vec![3]);
}

#[test]
fn walls_that_no_spells_build() {
    assert!(!wall_settles(&[1, 0], 1));
    assert!(!wall_settles(&[1, 1], 0));
    assert!(wall_settles(&[], 1));
    assert!(!wall_settles(&[0, 2], 1));
}

#[test]
fn striking_a_spell() {
    assert_eq!(strike_spell(&[1, 2, 1, 2], 2), Some(vec![1, 1, 1, 1]));
    assert_eq!(strike_spell(&[1, 0, 1, 2], 2), None);
    assert_eq!(strike_spell(&[1, 0], 3), Some(vec![1, 0]));
    assert!(is_flat(&[0, 0]));
    assert!(is_flat(&[]));
    assert!(!is_flat(&[0, 1]));
}

#[test]
fn the_length_of_a_wall() {
    assert_eq!(get_length_wall(&[1, 2, 3, 5, 9], 202520252025000, 9, 1000000000000000), 94439495762954);
    assert_eq!(get_length_wall(&[1, 2, 3, 5, 9], 193, 9, 1000), 90);
    assert_eq!(get_length_wall(&[2], 5, 0, 100), 10);
    assert_eq!(get_length_wall(&[2], 5, 7, 7), 7);
    assert_eq!(get_length_wall(&[1], 3, 0, 10), 3);
}

#[test]
fn ways_through_an_opening() {
    assert_eq!(take_obstacle(&[7, 7, 2], 0, 0), Some(vec![vec![7, 7, 7]]));
    assert_eq!(take_obstacle(&[12, 0, 4], 7, 7), Some(vec![vec![12, 2, 0]]));
    assert_eq!(take_obstacle(&[3, 10, 2], 0, 0), None);
    assert_eq!(take_obstacle(&[5, 2, 3], 7, 0), None);
    assert_eq!(take_obstacle(&[2, -1, 3], 0, 0), Some(vec![vec![2, 0, 1]]));
    assert_eq!(take_obstacle(&[3, -3, 7], 0, 0), Some(vec![vec![3, -3, 0], vec![3, -1, 1], vec![3, 1, 2], vec![3, 3, 3]]));
    assert_eq!(take_obstacle(&[0, 0, 1], 0, 0), Some(vec![vec![0, 0, 0]]));
}

#[test]
fn day_folders() {
    assert!(is_day_folder("day02"));
    assert!(is_day_folder("day19"));
    assert!(is_day_folder("today123"));
    assert!(!is_day_folder("add-day"));
    assert!(!is_day_folder("day1"));
    assert!(!is_day_folder("utils"));
    assert!(!is_day_folder("Day02"));
    assert!(!is_day_folder(""));
}

#[test]
fn the_number_of_a_day() {
    assert_eq!(day_number(b"day07"), Some(7));
    assert_eq!(day_number(b"day19"), Some(19));
    assert_eq!(day_number(b"dayday12"), Some(12));
    assert_eq!(day_number(b"day"), None);
    assert_eq!(day_number(b"add-day"), None);
    assert_eq!(day_number(b"today12"), None);
    assert_eq!(day_number(b"12"), Some(12));
    assert_eq!(day_number(b"da12"), None);
}

#[test]
fn the_name_of_the_next_day() {
    assert_eq!(new_day_name(0), b"day01".to_vec());
    assert_eq!(new_day_name(7), b"day08".to_vec());
    assert_eq!(new_day_name(8), b"day09".to_vec());
    assert_eq!(new_day_name(9), b"day10".to_vec());
    assert_eq!(new_day_name(19), b"day20".to_vec());
    assert_eq!(new_day_name(99), b"day100".to_vec());
    assert_eq!(new_day_name(19), format!("day{:02}", 20).into_bytes());
}

#[test]
fn digits_of_a_number_read_back() {
    for n in [0usize, 5, 10, 99, 100, 12345, usize::MAX] {
        let mut out = b"x".to_vec();
        push_decimal(&mut out, n);
        assert_eq!(out, format!("x{}", n).into_bytes());
        assert_eq!(parse_usize(&out[1..]), Some(n));
    }
}
