use quests::engraving::{count_engraved, is_engraved, one_cycle, parse_numbers, parse_pair};
use quests::garden::{
    get_instruction, grow, parse_instructions, read_switches, split_blanks, try_instructions,
};
use quests::plants::{
    all_known, read_free_branch, read_header, read_numbers, read_parent_branch, text_lines,
    thickness_words, Plant,
};
use quests::words::{blank, find_word, has_word, split_on_word, trim, word_at};
use std::collections::HashMap;

const GARDEN: &str = "Plant 1 with thickness 1:\r\n- free branch with thickness 1\r\n\r\nPlant 2 with thickness 1:\r\n- free branch with thickness 1\r\n\r\nPlant 3 with thickness 1:\r\n- free branch with thickness 1\r\n\r\nPlant 4 with thickness 17:\r\n- branch to Plant 1 with thickness 15\r\n- branch to Plant 2 with thickness 3\r\n\r\nPlant 5 with thickness 24:\r\n- branch to Plant 2 with thickness 11\r\n- branch to Plant 3 with thickness 13\r\n\r\nPlant 6 with thickness 15:\r\n- branch to Plant 3 with thickness 14\r\n\r\nPlant 7 with thickness 10:\r\n- branch to Plant 4 with thickness 15\r\n- branch to Plant 5 with thickness 21\r\n- branch to Plant 6 with thickness 34\r\n\r\n1 1 1\r\n1 0 1\r\n\r\n0 1 1";

fn entries(text: &str) -> Vec<Vec<u8>> {
    text.split("\r\n\r\n").map(|s| s.as_bytes().to_vec()).collect()
}

fn bytes(parts: &[&str]) -> Vec<Vec<u8>> {
    parts.iter().map(|s| s.as_bytes().to_vec()).collect()
}

#[test]
fn one_cycle_squares_scales_and_shifts() {
    assert_eq!(one_cycle((0, 0), (25, 9)), (25, 9));
    assert_eq!(one_cycle((1000000, 0), (1000000, 0)), (11000000, 0));
    assert_eq!(one_cycle((300, -700), (5, 5)), (1, 1));
    assert_eq!(one_cycle((-1000000, 1000000), (0, -3)), (0, -20000003));
}

#[test]
fn engraved_points() {
    assert!(is_engraved((35630, -64880)));
    assert!(is_engraved((35630, -64870)));
    assert!(!is_engraved((35460, -64910)));
    assert!(is_engraved((0, 0)));
    assert!(!is_engraved((1000000, 0)));
    assert!(!is_engraved((1000001, 0)));
}

#[test]
fn engraved_points_of_a_grid() {
    assert_eq!(count_engraved((35300, -64910), 10), 4076);
    assert_eq!(count_engraved((35300, -64910), 400), 3);
    assert_eq!(count_engraved((35300, -64910), 1000), 0);
    assert_eq!(count_engraved((35300, -64910), 1001), 0);
    assert_eq!(count_engraved((0, 0), 1001), 1);
    assert_eq!(count_engraved((0, 0), usize::MAX), 1);
}

#[test]
fn pairs_from_lines() {
    assert_eq!(parse_pair(b"A=[25,9]"), Some((25, 9)));
    assert_eq!(parse_pair(b"A=[-25,+9,7,x]"), Some((-25, 9)));
    assert_eq!(parse_pair(b"A=[25]"), None);
    assert_eq!(parse_pair(b"A=[]"), None);
    assert_eq!(parse_pair(b"A=["), None);
    assert_eq!(parse_pair(b"B=[25,9]"), None);
    assert_eq!(parse_pair(b"A=[25,9"), None);
    assert_eq!(parse_pair(b"A=[25, 9]"), None);
    assert_eq!(parse_pair(b""), None);
    assert_eq!(
        parse_numbers(&bytes(&["A=[25,9]", "nothing", "A=[-1,-2]", "A=[1,]"])),
        vec![(25, 9), (-1, -2)]
    );
    assert!(parse_numbers(&[]).is_empty());
}

#[test]
fn words_in_text() {
    assert!(word_at(b"a free branch", b"free", 2));
    assert!(!word_at(b"a free branch", b"free", 3));
    assert!(!word_at(b"a fre", b"free", 2));
    assert!(word_at(b"abc", b"", 3));
    assert!(!word_at(b"abc", b"", 4));
    assert_eq!(find_word(b"a free free", b"free", 0), 2);
    assert_eq!(find_word(b"a free free", b"free", 3), 7);
    assert_eq!(find_word(b"a free free", b"tree", 0), 11);
    assert!(has_word(b"- free branch", b"free"));
    assert!(!has_word(b"- branch to", b"free"));
    assert!(!has_word(b"", b"free"));
}

#[test]
fn pieces_between_words() {
    assert_eq!(split_on_word(b"1 with 2 with 3", b" with "), bytes(&["1", "2", "3"]));
    assert_eq!(split_on_word(b"aaaa", b"aa"), bytes(&["", "", ""]));
    assert_eq!(split_on_word(b"aaa", b"aa"), bytes(&["", "a"]));
    assert_eq!(split_on_word(b"abc", b"x"), bytes(&["abc"]));
    assert_eq!(split_on_word(b"", b"x"), bytes(&[""]));
    assert_eq!(split_on_word(b"x", b"x"), bytes(&["", ""]));
    for (text, word) in [("1 with 2 with 3", " with "), ("aaaa", "aa"), ("abcabc", "bc"), ("", "a")] {
        let expected: Vec<Vec<u8>> = text.split(word).map(|s| s.as_bytes().to_vec()).collect();
        assert_eq!(split_on_word(text.as_bytes(), word.as_bytes()), expected);
    }
}

#[test]
fn blanks_trimmed() {
    assert_eq!(trim(b"  12 \r\n"), b"12");
    assert_eq!(trim(b"12"), b"12");
    assert_eq!(trim(b" \t "), b"");
    assert_eq!(trim(b""), b"");
    assert_eq!(trim(b" a b "), b"a b");
    assert!(blank(b' '));
    assert!(blank(b'\t'));
    assert!(blank(11));
    assert!(blank(12));
    assert!(!blank(b'a'));
    assert!(!blank(14));
    assert!(!blank(8));
}

#[test]
fn lines_of_text() {
    assert_eq!(text_lines(b"a\r\nb\nc"), bytes(&["a", "b", "c"]));
    assert_eq!(text_lines(b"a\r\nb\n"), bytes(&["a", "b"]));
    assert_eq!(text_lines(b""), Vec::<Vec<u8>>::new());
    assert_eq!(text_lines(b"\n"), bytes(&[""]));
    assert_eq!(text_lines(b"\n\n"), bytes(&["", ""]));
    assert_eq!(text_lines(b"a\r"), bytes(&["a\r"]));
    assert_eq!(text_lines(b"a\r\n"), bytes(&["a"]));
    assert_eq!(text_lines(b"a\r\r\n"), bytes(&["a\r"]));
    for text in ["a\r\nb\nc", "a\n", "", "\n", "x\r\n\r\ny", "\r"] {
        let expected: Vec<Vec<u8>> = text.lines().map(|s| s.as_bytes().to_vec()).collect();
        assert_eq!(text_lines(text.as_bytes()), expected);
    }
}

#[test]
fn numbers_between_words() {
    assert_eq!(read_numbers(b"4 with thickness 17", &thickness_words(false)), Some(vec![4, 17]));
    assert_eq!(read_numbers(b"4 with thickness -17", &thickness_words(true)), Some(vec![4, -17]));
    assert_eq!(read_numbers(b"4", &thickness_words(false)), Some(vec![4]));
    assert_eq!(read_numbers(b"4 with thickness", &thickness_words(false)), None);
    assert_eq!(read_numbers(b"four with thickness 1", &thickness_words(false)), None);
    assert_eq!(thickness_words(false), b"with thickness".to_vec());
    assert_eq!(thickness_words(true), b"with thickness ".to_vec());
}

#[test]
fn headers_and_branches() {
    assert_eq!(read_header(b"Plant 4 with thickness 17:"), Some((4, 17)));
    assert_eq!(read_header(b"Plant 12 with thickness -3:"), Some((12, -3)));
    assert_eq!(read_header(b"Plant -4 with thickness 17:"), None);
    assert_eq!(read_header(b"Plant 4:"), None);
    assert_eq!(read_header(b"Plant"), None);
    assert_eq!(read_header(b"Plant 4 with thickness 17"), Some((4, 1)));
    assert_eq!(read_free_branch(b"- free branch with thickness 12"), Some(12));
    assert_eq!(read_free_branch(b"- free branch with thickness "), None);
    assert_eq!(read_free_branch(b"- free branch with thickness 1 "), None);
    assert_eq!(read_free_branch(b"- free"), None);
    assert_eq!(read_parent_branch(b"- branch to Plant 2 with thickness 3"), Some((2, 3)));
    assert_eq!(read_parent_branch(b"- branch to Plant 2 with thickness -3"), Some((2, -3)));
    assert_eq!(read_parent_branch(b"- branch to Plant 2"), None);
    assert_eq!(read_parent_branch(b"- branch"), None);
}

fn garden_of(text: &str, switches: Option<&HashMap<usize, bool>>) -> HashMap<usize, Plant> {
    let mut plants = HashMap::new();
    for entry in entries(text) {
        if has_word(&entry, b"Plant") {
            let plant = Plant::from_description(&entry, &plants, switches);
            plants.insert(plant.id, plant);
        }
    }
    plants
}

#[test]
fn plants_pass_energy_on() {
    let plants = garden_of(GARDEN, None);
    let energies: Vec<isize> = (1..=7).map(|id| plants[&id].energy).collect();
    assert_eq!(energies, vec![1, 1, 1, 18, 24, 0, 774]);
    assert_eq!(plants[&7].parents, vec![4, 5, 6]);
    assert_eq!(plants[&7].thickness, 10);
    assert!(plants[&1].parents.is_empty());
    assert_eq!(plants[&4].id, 4);
}

#[test]
fn a_plant_that_cannot_be_read() {
    let none = HashMap::new();
    assert!(Plant::read(b"", &none, None).is_none());
    assert!(Plant::read(b"Plant x with thickness 1:", &none, None).is_none());
    assert!(Plant::read(b"Plant 9 with thickness 1:\n- branch to Plant 2 with thickness 3", &none, None).is_none());
    assert!(Plant::read(b"Plant 9 with thickness 1:\n- free branch with thickness x", &none, None).is_none());
    let lonely = Plant::read(b"Plant 9 with thickness 1:", &none, None).unwrap();
    assert_eq!((lonely.id, lonely.thickness, lonely.energy), (9, 1, 0));
    let big = format!("Plant 9 with thickness 1:\n- free branch with thickness {}\n- free branch with thickness 1", isize::MAX);
    assert!(Plant::read(big.as_bytes(), &none, None).is_none());
}

#[test]
fn a_plant_switched_off_takes_nothing_from_free_branches() {
    let none = HashMap::new();
    let mut switches = HashMap::new();
    switches.insert(9, false);
    switches.insert(8, true);
    let text = b"Plant 9 with thickness 1:\n- free branch with thickness 5";
    assert_eq!(Plant::read(text, &none, Some(&switches)).unwrap().energy, 0);
    assert_eq!(Plant::read(text, &none, None).unwrap().energy, 5);
    let other = b"Plant 8 with thickness 1:\n- free branch with thickness 5";
    assert_eq!(Plant::read(other, &none, Some(&switches)).unwrap().energy, 5);
    let unnamed = b"Plant 7 with thickness 1:\n- free branch with thickness 5";
    assert_eq!(Plant::read(unnamed, &none, Some(&switches)).unwrap().energy, 5);
    let garbage = b"Plant 9 with thickness 1:\n- free branch with thickness x";
    assert_eq!(Plant::read(garbage, &none, Some(&switches)).unwrap().energy, 0);
}

#[test]
fn the_most_that_a_plant_can_pass_on() {
    let text = b"Plant 7 with thickness 10:\n- branch to Plant 4 with thickness 15\n- branch to Plant 5 with thickness -21\n- branch to Plant 6 with thickness 34";
    let plant = Plant::new_max_possible(text, 6).unwrap();
    assert_eq!((plant.id, plant.thickness, plant.energy), (7, 10, 49));
    assert_eq!(plant.parents, vec![4, 5, 6]);
    assert!(Plant::new_max_possible(text, 8).is_none());
    assert!(Plant::new_max_possible(text, 5).is_none());
    let weak = b"Plant 7 with thickness 50:\n- branch to Plant 4 with thickness 15";
    assert_eq!(Plant::new_max_possible(weak, 7).unwrap().energy, 0);
    let beyond_first = b"Plant 7 with thickness 50:\n- branch to Plant 9 with thickness 15\nrubbish";
    assert!(Plant::new_max_possible(beyond_first, 7).is_none());
}

#[test]
fn plants_that_may_matter() {
    let text = b"Plant 7 with thickness 10:\n- branch to Plant 4 with thickness 15\n- branch to Plant 5 with thickness 21";
    let mut not_useful = HashMap::new();
    let plant = Plant::useful_node(text, 6, &not_useful).unwrap();
    assert_eq!((plant.id, plant.thickness, plant.energy), (7, 0, 0));
    assert_eq!(plant.parents, vec![4, 5]);
    not_useful.insert(4, Plant { id: 4, thickness: 0, energy: 0, parents: vec![] });
    assert!(Plant::useful_node(text, 6, &not_useful).is_some());
    assert!(!all_known(&vec![4, 5], &not_useful));
    not_useful.insert(5, Plant { id: 5, thickness: 0, energy: 0, parents: vec![] });
    assert!(Plant::useful_node(text, 6, &not_useful).is_none());
    assert!(all_known(&vec![4, 5], &not_useful));
    assert!(all_known(&vec![], &not_useful));
    assert!(Plant::useful_node(text, 8, &HashMap::new()).is_none());
    assert!(Plant::useful_node(text, 4, &HashMap::new()).is_none());
    assert!(Plant::useful_node(b"Plant 7 with thickness 10:", 6, &HashMap::new()).is_none());
}

#[test]
fn words_between_blanks() {
    assert_eq!(split_blanks(b"1 0  1\t1\r\n"), bytes(&["1", "0", "1", "1"]));
    assert_eq!(split_blanks(b"  "), Vec::<Vec<u8>>::new());
    assert_eq!(split_blanks(b""), Vec::<Vec<u8>>::new());
    assert_eq!(split_blanks(b"ab"), bytes(&["ab"]));
    for text in ["1 0  1\t1\r\n", " a", "a ", "", "a  b c"] {
        let expected: Vec<Vec<u8>> = text.split_whitespace().map(|s| s.as_bytes().to_vec()).collect();
        assert_eq!(split_blanks(text.as_bytes()), expected);
    }
}

#[test]
fn switches_from_numbers() {
    let map = get_instruction(b"1 0 1 7");
    assert_eq!(map.len(), 4);
    assert_eq!(map[&1], true);
    assert_eq!(map[&2], false);
    assert_eq!(map[&3], true);
    assert_eq!(map[&4], false);
    assert!(get_instruction(b"").is_empty());
    assert!(read_switches(b"1 x").is_none());
    assert!(read_switches(b"1 -1").is_none());
    assert_eq!(read_switches(b"+1").unwrap()[&1], true);
}

#[test]
fn lines_of_instructions() {
    assert_eq!(parse_instructions(&entries(GARDEN)), bytes(&["1 1 1", "1 0 1", "0 1 1"]));
    assert_eq!(parse_instructions(&bytes(&["a\r\n\r\nb\r\n", "Plant", "", "c\nd"])), bytes(&["a", "b", "c\nd"]));
    assert!(parse_instructions(&[]).is_empty());
}

#[test]
fn the_energy_of_the_last_plant() {
    let input = entries(GARDEN);
    assert_eq!(try_instructions(b"1 1 1", &input), 774);
    assert_eq!(try_instructions(b"1 0 1", &input), 0);
    assert_eq!(try_instructions(b"0 1 1", &input), 504);
    assert_eq!(try_instructions(b"1 1 0", &input), 270);
    assert_eq!(try_instructions(b"0 0 0", &input), 0);
    assert_eq!(try_instructions(b"", &input), 774);
}

#[test]
fn a_garden_that_cannot_be_grown() {
    let switches = HashMap::new();
    assert_eq!(grow(&switches, &[]), None);
    assert_eq!(grow(&switches, &bytes(&["1 1 1"])), None);
    assert_eq!(grow(&switches, &bytes(&["Plant 1 with thickness 1:\n- branch to Plant 2 with thickness 3"])), None);
    assert_eq!(grow(&switches, &bytes(&["Plant 3 with thickness 1:\n- free branch with thickness 4", "Plant 2 with thickness 9:\n- branch to Plant 3 with thickness 2"])), Some(4));
    assert_eq!(grow(&switches, &bytes(&["Plant 3 with thickness 1:\n- free branch with thickness 4", "Plant 3 with thickness 9:\n- branch to Plant 3 with thickness 2"])), Some(0));
    assert_eq!(grow(&switches, &entries(GARDEN)), Some(774));
}
