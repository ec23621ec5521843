use quests::board::{ChessBoard, MalformedBoard};
use quests::cells::{insert_sorted, sorted_copy, sorted_set};
use quests::geometry::{is_valid_move, jump_to, knight_moves};
use quests::outcomes::{count_sequences, dfs_memo, move_dragon_get_boards, MemoCache};
use quests::reach::{expand, move_dragon_max_times, reachable_within_hops};
use quests::swarm::{count_sheep_in_reach, get_killed_sheep, run_rounds};

fn board(sheep: Vec<(isize, isize)>, dragon: (isize, isize), safe: Vec<(isize, isize)>) -> ChessBoard {
    ChessBoard::new(sheep, dragon, safe, 3, 3).unwrap()
}

fn as_set(mut cells: Vec<(isize, isize)>) -> Vec<(isize, isize)> {
    cells.sort();
    cells
}

#[test]
fn valid_move_is_inside_the_grid() {
    assert!(is_valid_move(&(0, 0), 3, 3));
    assert!(is_valid_move(&(2, 2), 3, 3));
    assert!(!is_valid_move(&(3, 0), 3, 3));
    assert!(!is_valid_move(&(0, 3), 3, 3));
    assert!(!is_valid_move(&(-1, 0), 3, 3));
    assert!(!is_valid_move(&(0, -1), 3, 3));
    assert!(!is_valid_move(&(0, 2), 2, 3));
    assert!(is_valid_move(&(2, 0), 2, 3));
}

#[test]
fn jumps_follow_the_offsets_in_order() {
    assert_eq!(jump_to((2, 2), 0, 5, 5), Some((4, 3)));
    assert_eq!(jump_to((2, 2), 1, 5, 5), Some((4, 1)));
    assert_eq!(jump_to((2, 2), 2, 5, 5), Some((3, 4)));
    assert_eq!(jump_to((2, 2), 3, 5, 5), Some((3, 0)));
    assert_eq!(jump_to((2, 2), 4, 5, 5), Some((1, 4)));
    assert_eq!(jump_to((2, 2), 5, 5, 5), Some((1, 0)));
    assert_eq!(jump_to((2, 2), 6, 5, 5), Some((0, 3)));
    assert_eq!(jump_to((2, 2), 7, 5, 5), Some((0, 1)));
    assert_eq!(jump_to((0, 0), 1, 5, 5), None);
}

#[test]
fn jumps_at_the_edge_of_the_machine_word_are_off_the_grid() {
    assert_eq!(jump_to((isize::MAX, isize::MAX), 0, isize::MAX, isize::MAX), None);
    assert_eq!(jump_to((isize::MIN, 0), 6, 3, 3), None);
    assert_eq!(knight_moves((isize::MAX, 0), 3, 3), Vec::<(isize, isize)>::new());
}

#[test]
fn knight_moves_from_a_corner() {
    assert_eq!(knight_moves((0, 0), 3, 3), vec![(2, 1), (1, 2)]);
    assert_eq!(knight_moves((1, 1), 3, 3), Vec::<(isize, isize)>::new());
    assert_eq!(knight_moves((2, 2), 5, 5).len(), 8);
}

#[test]
fn one_hop_on_a_three_by_three_board() {
    let zone = move_dragon_max_times((0, 0), 0, 1, (3, 3));
    assert_eq!(as_set(zone), vec![(1, 2), (2, 1)]);
}

#[test]
fn no_hop_gives_an_empty_zone() {
    assert!(move_dragon_max_times((0, 0), 0, 0, (3, 3)).is_empty());
    assert!(move_dragon_max_times((0, 0), 4, 4, (3, 3)).is_empty());
    assert!(reachable_within_hops(&[(0, 0)], 0, 3, 3).is_empty());
}

#[test]
fn two_hops_hold_the_first_hop_too() {
    let zone = move_dragon_max_times((0, 0), 0, 2, (3, 3));
    assert_eq!(as_set(zone), vec![(0, 0), (0, 2), (1, 2), (2, 0), (2, 1)]);
    let zone = move_dragon_max_times((0, 0), -1, 1, (3, 3));
    assert_eq!(as_set(zone), vec![(0, 0), (0, 2), (1, 2), (2, 0), (2, 1)]);
}

#[test]
fn more_hops_never_shrink_the_zone() {
    for k in 0..6 {
        let small = reachable_within_hops(&[(0, 0), (4, 4)], k, 5, 6);
        let large = reachable_within_hops(&[(0, 0), (4, 4)], k + 1, 5, 6);
        for cell in &small {
            assert!(large.contains(cell));
        }
    }
}

#[test]
fn the_centre_of_a_three_by_three_board_is_never_reached() {
    let zone = reachable_within_hops(&[(0, 0)], 10, 3, 3);
    assert_eq!(zone.len(), 8);
    assert!(!zone.contains(&(1, 1)));
}

#[test]
fn expand_takes_one_jump_from_every_start() {
    let next = expand(&[(0, 0), (0, 2)], 3, 3);
    assert_eq!(as_set(next), vec![(1, 0), (1, 2), (2, 1)]);
    assert!(expand(&[], 3, 3).is_empty());
    assert!(expand(&[(7, 7)], 3, 3).is_empty());
}

#[test]
fn a_start_off_the_grid_can_jump_onto_it() {
    let next = expand(&[(-1, -1)], 3, 3);
    assert_eq!(as_set(next), vec![(0, 1), (1, 0)]);
    assert_eq!(expand(&[(-1, -2)], 3, 3), vec![(0, 0)]);
}

#[test]
fn sorting_twice_is_sorting_once() {
    let flock = vec![(2, 1), (0, 2), (2, 0), (0, 2), (1, 1)];
    let once = sorted_copy(&flock);
    assert_eq!(once, vec![(0, 2), (0, 2), (1, 1), (2, 0), (2, 1)]);
    assert_eq!(sorted_copy(&once), once);
}

#[test]
fn insert_sorted_keeps_the_order() {
    let mut v = vec![(0, 1), (1, 0), (1, 5)];
    insert_sorted(&mut v, (1, 2));
    assert_eq!(v, vec![(0, 1), (1, 0), (1, 2), (1, 5)]);
    insert_sorted(&mut v, (0, 0));
    assert_eq!(v, vec![(0, 0), (0, 1), (1, 0), (1, 2), (1, 5)]);
    insert_sorted(&mut v, (9, 9));
    assert_eq!(v.last(), Some(&(9, 9)));
}

#[test]
fn sorted_set_drops_repeats() {
    assert_eq!(sorted_set(&vec![(1, 1), (0, 0), (1, 1), (0, 5)]), vec![(0, 0), (0, 5), (1, 1)]);
}

#[test]
fn new_board_is_canonical() {
    let b = board(vec![(2, 1), (0, 2), (1, 1)], (0, 0), vec![(2, 2), (1, 1), (2, 2)]);
    assert_eq!(b.sheep, vec![(0, 2), (1, 1), (2, 1)]);
    assert_eq!(b.safe, vec![(1, 1), (2, 2)]);
    assert_eq!(b.dragon, (0, 0));
    assert_eq!((b.width, b.height), (3, 3));
    assert!(b.is_well_formed());
}

#[test]
fn new_board_refuses_cells_off_the_grid() {
    assert_eq!(ChessBoard::new(vec![(3, 0)], (0, 0), vec![], 3, 3), Err(MalformedBoard::OffGrid));
    assert_eq!(ChessBoard::new(vec![], (0, 3), vec![], 3, 3), Err(MalformedBoard::OffGrid));
    assert_eq!(ChessBoard::new(vec![], (0, 0), vec![], 0, 0), Err(MalformedBoard::OffGrid));
    assert!(ChessBoard::new(vec![], (0, 0), vec![(9, 9)], 3, 3).is_ok());
}

#[test]
fn boards_with_the_same_flock_are_the_same_key() {
    let a = board(vec![(2, 1), (0, 2)], (1, 1), vec![(0, 0), (2, 2)]);
    let b = board(vec![(0, 2), (2, 1)], (1, 1), vec![(2, 2), (0, 0), (0, 0)]);
    assert!(a.equals(&b));
    assert_eq!(a, b);
    let c = board(vec![(0, 2), (2, 1)], (1, 0), vec![(2, 2), (0, 0)]);
    assert!(!a.equals(&c));
    let d = board(vec![(0, 2), (2, 1), (2, 1)], (1, 1), vec![(2, 2), (0, 0)]);
    assert!(!a.equals(&d));
}

#[test]
fn an_unsorted_board_is_not_well_formed() {
    let b = ChessBoard { sheep: vec![(1, 0), (0, 0)], dragon: (0, 0), safe: vec![], width: 3, height: 3 };
    assert!(!b.is_well_formed());
    let mut b = b;
    b.sort_sheep();
    assert!(b.is_well_formed());
    assert_eq!(b.sheep, vec![(0, 0), (1, 0)]);
    let twice = ChessBoard { sheep: vec![], dragon: (0, 0), safe: vec![(1, 1), (1, 1)], width: 3, height: 3 };
    assert!(!twice.is_well_formed());
}

#[test]
fn all_sheep_walk_and_the_last_row_leaves() {
    let mut b = board(vec![(0, 0), (1, 2), (2, 1)], (0, 1), vec![]);
    b.move_all_sheep();
    assert_eq!(b.sheep, vec![(1, 0), (2, 2)]);
    b.move_all_sheep();
    assert_eq!(b.sheep, vec![(2, 0)]);
    b.move_all_sheep();
    assert!(b.sheep.is_empty());
    assert_eq!(b.dragon, (0, 1));
}

#[test]
fn one_sheep_walks_and_the_flock_stays_sorted() {
    let mut b = board(vec![(0, 2), (1, 0), (1, 1)], (2, 2), vec![]);
    b.move_one_sheep((0, 2));
    assert_eq!(b.sheep, vec![(1, 0), (1, 1), (1, 2)]);
    b.move_one_sheep((1, 0));
    assert_eq!(b.sheep, vec![(1, 1), (1, 2), (2, 0)]);
    b.move_one_sheep((0, 0));
    assert_eq!(b.sheep, vec![(1, 1), (1, 2), (2, 0)]);
}

#[test]
fn only_one_of_two_sheep_on_a_cell_walks() {
    let mut b = board(vec![(0, 1), (0, 1), (1, 1)], (2, 2), vec![]);
    b.move_one_sheep((0, 1));
    assert_eq!(b.sheep, vec![(0, 1), (1, 1), (1, 1)]);
}

#[test]
fn possible_moves_leave_out_the_walk_into_the_dragon() {
    let b = board(vec![(0, 0), (0, 1), (2, 2)], (1, 1), vec![]);
    assert_eq!(b.get_possible_sheep_moves(), vec![((0, 0), (1, 0)), ((2, 2), (3, 2))]);
    let hidden = board(vec![(0, 0), (0, 1)], (1, 1), vec![(1, 1)]);
    assert_eq!(hidden.get_possible_sheep_moves(), vec![((0, 0), (1, 0)), ((0, 1), (1, 1))]);
}

#[test]
fn a_sheep_escapes_below_the_last_row() {
    let b = board(vec![], (0, 0), vec![]);
    assert!(b.sheep_escapes(&(3, 0)));
    assert!(b.sheep_escapes(&(4, 1)));
    assert!(!b.sheep_escapes(&(2, 0)));
}

#[test]
fn remove_sheep_counts_and_spares_hideouts() {
    let mut b = board(vec![(0, 0), (1, 1), (1, 2), (2, 2)], (0, 1), vec![(1, 1)]);
    let removed = b.remove_sheep(&[(1, 1), (1, 2), (2, 0), (2, 2)]);
    assert_eq!(removed, 2);
    assert_eq!(b.sheep, vec![(0, 0), (1, 1)]);
    assert_eq!(b.remove_sheep(&[]), 0);
    assert_eq!(b.sheep, vec![(0, 0), (1, 1)]);
}

#[test]
fn remove_sheep_takes_every_sheep_on_a_cell() {
    let mut b = board(vec![(1, 2), (1, 2), (2, 0)], (0, 0), vec![]);
    assert_eq!(b.remove_sheep(&[(1, 2)]), 2);
    assert_eq!(b.sheep, vec![(2, 0)]);
}

#[test]
fn the_dragon_catches_what_stands_on_its_cell() {
    let mut b = board(vec![(0, 0), (1, 2)], (1, 2), vec![]);
    b.remove_sheep_current_dragon();
    assert_eq!(b.sheep, vec![(0, 0)]);
    let mut hidden = board(vec![(0, 0), (1, 2)], (1, 2), vec![(1, 2)]);
    hidden.remove_sheep_current_dragon();
    assert_eq!(hidden.sheep, vec![(0, 0), (1, 2)]);
}

#[test]
fn sheep_boards_leave_out_escapes_and_the_dragon() {
    let b = board(vec![(0, 0), (0, 1), (2, 2)], (1, 1), vec![]);
    let next = b.move_sheep_get_boards();
    assert_eq!(next.len(), 1);
    assert_eq!(next[0].sheep, vec![(0, 1), (1, 0), (2, 2)]);
    assert_eq!(next[0].dragon, (1, 1));
    let stuck = board(vec![(0, 1), (2, 2)], (1, 1), vec![]);
    assert!(stuck.move_sheep_get_boards().is_empty());
}

#[test]
fn dragon_boards_follow_the_jumps() {
    let b = board(vec![(1, 2)], (0, 0), vec![]);
    let next = move_dragon_get_boards(b);
    assert_eq!(next.len(), 2);
    assert_eq!(next[0].dragon, (2, 1));
    assert_eq!(next[1].dragon, (1, 2));
    assert_eq!(next[1].sheep, vec![(1, 2)]);
}

#[test]
fn killed_sheep_are_those_in_the_zone_outside_hideouts() {
    let b = board(vec![(0, 2), (1, 2), (2, 1)], (0, 0), vec![(2, 1)]);
    assert_eq!(get_killed_sheep(&[(2, 1), (1, 2)], &b), vec![(1, 2)]);
    assert_eq!(get_killed_sheep(&[], &b), Vec::<(isize, isize)>::new());
}

#[test]
fn sheep_in_reach_of_the_dragon() {
    let b = board(vec![(0, 2), (1, 1), (1, 2), (2, 1)], (0, 0), vec![(2, 1)]);
    assert_eq!(count_sheep_in_reach(&b, 0), 0);
    assert_eq!(count_sheep_in_reach(&b, 1), 1);
    assert_eq!(count_sheep_in_reach(&b, 2), 2);
    assert_eq!(count_sheep_in_reach(&b, 9), 2);
}

#[test]
fn a_round_catches_before_and_after_the_walk() {
    let (end, caught) = run_rounds(board(vec![(2, 1)], (0, 0), vec![]), 1);
    assert_eq!(caught, 1);
    assert!(end.sheep.is_empty());
    let (end, caught) = run_rounds(board(vec![(0, 2)], (0, 0), vec![]), 1);
    assert_eq!(caught, 1);
    assert!(end.sheep.is_empty());
    assert_eq!(end.dragon, (0, 0));
}

#[test]
fn no_round_changes_nothing() {
    let (end, caught) = run_rounds(board(vec![(2, 1), (0, 2)], (0, 0), vec![]), 0);
    assert_eq!(caught, 0);
    assert_eq!(end.sheep, vec![(0, 2), (2, 1)]);
}

#[test]
fn a_sheep_in_a_hideout_is_never_caught() {
    let start = board(vec![(0, 2)], (0, 0), vec![(1, 2)]);
    let (end, caught) = run_rounds(start.duplicate(), 1);
    assert_eq!(caught, 0);
    assert_eq!(end.sheep, vec![(1, 2)]);
    let (end, caught) = run_rounds(start.duplicate(), 2);
    assert_eq!(caught, 0);
    assert_eq!(end.sheep, vec![(2, 2)]);
    let (end, caught) = run_rounds(start, 3);
    assert_eq!(caught, 0);
    assert!(end.sheep.is_empty());
}

#[test]
fn the_swarm_is_the_last_frontier_only() {
    let (end, caught) = run_rounds(board(vec![(0, 1)], (0, 0), vec![]), 2);
    assert_eq!(caught, 0);
    assert_eq!(end.sheep, vec![(2, 1)]);
}

#[test]
fn an_empty_flock_counts_once_on_either_turn() {
    assert_eq!(count_sequences(board(vec![], (0, 0), vec![]), true), Ok(1));
    assert_eq!(count_sequences(board(vec![], (0, 0), vec![]), false), Ok(1));
    assert_eq!(count_sequences(board(vec![], (1, 1), vec![]), true), Ok(1));
}

#[test]
fn a_sheep_on_the_last_row_is_stuck() {
    assert_eq!(count_sequences(board(vec![(2, 2)], (0, 0), vec![]), false), Ok(0));
    assert_eq!(count_sequences(board(vec![(2, 2)], (0, 0), vec![(2, 2)]), false), Ok(0));
}

#[test]
fn a_sheep_blocked_by_the_dragon_is_stuck() {
    assert_eq!(count_sequences(board(vec![(0, 1)], (1, 1), vec![]), false), Ok(0));
}

#[test]
fn a_dragon_that_cannot_jump_has_no_way() {
    assert_eq!(count_sequences(board(vec![(0, 0)], (1, 1), vec![]), true), Ok(0));
}

#[test]
fn one_catch_is_one_way() {
    assert_eq!(count_sequences(board(vec![(1, 2)], (0, 0), vec![]), true), Ok(1));
    assert_eq!(count_sequences(board(vec![(1, 2)], (0, 0), vec![]), false), Ok(0));
    assert_eq!(count_sequences(board(vec![(1, 2)], (0, 0), vec![(1, 2)]), true), Ok(0));
}

#[test]
fn ways_add_up_over_the_branches() {
    let b = ChessBoard::new(vec![(0, 2)], (2, 2), vec![], 5, 5).unwrap();
    let mut memo = MemoCache::new();
    let ways = dfs_memo(b.duplicate(), &mut memo, false).unwrap();
    assert_eq!(ways, brute(&b, false));
    assert_eq!(memo.get(&b, false), Some(ways));
    assert!(memo.len() > 1);
    let b = ChessBoard::new(vec![(0, 1), (1, 3)], (4, 0), vec![(2, 1)], 4, 5).unwrap();
    assert_eq!(count_sequences(b.duplicate(), true).unwrap(), brute(&b, true));
    assert_eq!(count_sequences(b.duplicate(), false).unwrap(), brute(&b, false));
}

fn brute(b: &ChessBoard, dragon_turn: bool) -> usize {
    if b.sheep.is_empty() {
        return 1;
    }
    let mut total = 0;
    if dragon_turn {
        for to in knight_moves(b.dragon, b.width, b.height) {
            let mut next = b.duplicate();
            next.dragon = to;
            next.sheep.retain(|&c| c != to || b.safe.contains(&c));
            total += brute(&next, false);
        }
    } else {
        for i in 0..b.sheep.len() {
            let to = (b.sheep[i].0 + 1, b.sheep[i].1);
            if to.0 >= b.height || (to == b.dragon && !b.safe.contains(&to)) {
                continue;
            }
            let mut next = b.duplicate();
            next.sheep[i] = to;
            next.sheep.sort();
            total += brute(&next, true);
        }
    }
    total
}

#[test]
fn the_cache_remembers_stuck_boards_as_zero() {
    let b = board(vec![(2, 2)], (0, 0), vec![]);
    let mut memo = MemoCache::new();
    assert_eq!(memo.get(&b, false), None);
    assert_eq!(dfs_memo(b.duplicate(), &mut memo, false), Ok(0));
    assert_eq!(memo.get(&b, false), Some(0));
    assert_eq!(memo.get(&b, true), None);
    assert_eq!(memo.len(), 1);
    assert_eq!(dfs_memo(b.duplicate(), &mut memo, false), Ok(0));
    assert_eq!(memo.len(), 1);
}

#[test]
fn the_cache_remembers_the_empty_board_as_one() {
    let b = board(vec![], (0, 0), vec![]);
    let mut memo = MemoCache::new();
    assert_eq!(dfs_memo(b.duplicate(), &mut memo, true), Ok(1));
    assert_eq!(memo.get(&b, true), Some(1));
}

#[test]
fn large_counts_are_exact() {
    let b = ChessBoard::new(vec![(0, 1)], (19, 2), vec![], 4, 20).unwrap();
    assert_eq!(count_sequences(b, false), Ok(58027387139));
    let b = ChessBoard::new(vec![(0, 1)], (29, 2), vec![], 4, 30).unwrap();
    assert_eq!(count_sequences(b, false), Ok(355312624670965029));
    let b = ChessBoard::new(vec![(0, 1), (1, 3)], (7, 2), vec![(3, 1), (4, 3)], 5, 8).unwrap();
    assert_eq!(count_sequences(b, false), Ok(1397530463));
}

#[test]
fn a_count_beyond_the_machine_word_is_an_overflow() {
    let b = ChessBoard::new(vec![(0, 1)], (39, 2), vec![], 4, 40).unwrap();
    assert_eq!(count_sequences(b, false), Err(quests::outcomes::CountOverflow {}));
}
