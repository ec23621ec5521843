use quests::flight::{bfs, fewest_flaps};
use quests::maze::{calculate_end_point_distance, shortest_walk};
use quests::wall::Line;

fn instructions(text: &str) -> Vec<Vec<u8>> {
    text.split(',').map(|s| s.as_bytes().to_vec()).collect()
}

#[test]
fn the_shortest_walk_around_a_wall() {
    assert_eq!(calculate_end_point_distance(&instructions("R3,R4,L3,L4,R3,R6,R9")), 6);
    assert_eq!(
        calculate_end_point_distance(&instructions(
            "L6,L3,L6,R3,L6,L3,L3,R6,L6,R6,L6,L6,R3,L3,L3,R3,R3,L6,L6,L3"
        )),
        16
    );
    assert_eq!(calculate_end_point_distance(&instructions("R1")), 1);
    assert_eq!(calculate_end_point_distance(&instructions("R2,R0")), 4);
}

#[test]
fn a_walk_that_ends_where_it_starts_has_no_length() {
    assert_eq!(calculate_end_point_distance(&instructions("R0")), 0);
    assert_eq!(calculate_end_point_distance(&instructions("R1,R1,R1,R1")), 0);
    assert_eq!(shortest_walk(&[], &[(0, 0), (3, 3)], (1, 1), (1, 1)), 0);
}

#[test]
fn a_walk_in_a_frame() {
    let corners = [(0, 0), (2, 2)];
    assert_eq!(shortest_walk(&[], &corners, (0, 0), (2, 2)), 4);
    assert_eq!(shortest_walk(&[], &corners, (0, 0), (0, 1)), 1);
    let wall = [Line::new((1, 0), (1, 1))];
    assert_eq!(shortest_walk(&wall, &corners, (0, 0), (2, 0)), 6);
    let shut = [Line::new((1, 0), (1, 2))];
    assert_eq!(shortest_walk(&shut, &corners, (0, 0), (2, 0)), 0);
    assert_eq!(shortest_walk(&shut, &corners, (0, 0), (1, 0)), 1);
}

#[test]
fn the_ends_of_a_walk_may_lie_outside_the_frame() {
    let corners = [(0, 0), (2, 2)];
    assert_eq!(shortest_walk(&[], &corners, (0, 0), (3, 2)), 5);
    assert_eq!(shortest_walk(&[], &corners, (0, 0), (4, 2)), 0);
    assert_eq!(shortest_walk(&[], &corners, (-1, 0), (2, 2)), 5);
    assert_eq!(shortest_walk(&[], &corners, (-2, 0), (2, 2)), 0);
    assert_eq!(shortest_walk(&[], &corners, (-2, 0), (-3, 0)), 1);
    let empty = [(0, 0), (-1, -1)];
    assert_eq!(shortest_walk(&[], &empty, (0, 0), (0, 1)), 1);
    assert_eq!(shortest_walk(&[], &empty, (0, 0), (0, 2)), 0);
}

fn walls(rows: &[[isize; 3]]) -> Vec<Vec<Vec<isize>>> {
    let mut out: Vec<Vec<Vec<isize>>> = Vec::new();
    for row in rows {
        match out.last_mut() {
            Some(last) if last[0][0] == row[0] => last.push(row.to_vec()),
            _ => out.push(vec![row.to_vec()]),
        }
    }
    out
}

#[test]
fn the_fewest_flaps_through_the_walls() {
    let one = walls(&[[7, 7, 2], [12, 0, 4], [15, 5, 3], [24, 1, 6], [28, 5, 5], [40, 8, 2]]);
    assert_eq!(bfs(&one), 24);
    assert_eq!(fewest_flaps(&one), Some(24));
    let two = walls(&[[7, 7, 2], [7, 1, 3], [12, 0, 4], [15, 5, 3], [24, 1, 6], [28, 5, 5], [40, 3, 3]]);
    assert_eq!(two.len(), 6);
    assert_eq!(bfs(&two), 22);
}

#[test]
fn walls_that_let_no_bird_through() {
    assert_eq!(fewest_flaps(&walls(&[[2, 5, 1]])), None);
    assert_eq!(fewest_flaps(&walls(&[[2, 1, 1]])), None);
    assert_eq!(fewest_flaps(&walls(&[[2, 0, 0]])), None);
    assert_eq!(fewest_flaps(&walls(&[[2, 0, 1]])), Some(1));
    assert_eq!(fewest_flaps(&walls(&[[3, -3, 7]])), Some(0));
    assert_eq!(fewest_flaps(&walls(&[[3, -3, 7], [4, -2, 1]])), Some(1));
    assert_eq!(fewest_flaps(&walls(&[])), Some(0));
    assert_eq!(bfs(&walls(&[])), 0);
}
