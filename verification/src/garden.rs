//! A garden of plants read from descriptions, and the instructions that switch its
//! free branches on and off.

use crate::plants::{
    described, energies_of, header_of, lines_of, number_of, plant_word, Plant,
};
use crate::text::{all_unsigned, parse_usize, unsigned_of, views};
use crate::words::{blank, has_word, holds_word, is_blank, pieces, split_on_word};
use std::collections::HashMap;
use vstd::prelude::*;

verus! {

broadcast use vstd::std_specs::hash::group_hash_axioms;

/// The words of `s`: what stands between blanks, without the blanks.
pub open spec fn words_of(s: Seq<u8>) -> Seq<Seq<u8>>
    decreases s.len(),
{
    if s.len() == 0 {
        Seq::empty()
    } else {
        let before = words_of(s.drop_last());
        if is_blank(s.last()) {
            before
        } else if s.len() >= 2 && !is_blank(s[s.len() - 2]) {
            before.drop_last().push(before.last().push(s.last()))
        } else {
            before.push(seq![s.last()])
        }
    }
}

/// The switches that the words set: the plant with number `k` is on exactly if the
/// `k`-th word is the number 1.
pub open spec fn switches(words: Seq<Seq<u8>>) -> Map<usize, bool> {
    Map::new(
        |k: usize| 1 <= k <= words.len(),
        |k: usize| unsigned_of(words[k - 1]) == Some(1nat),
    )
}

/// The end of a line: a carriage return and a line feed.
pub open spec fn line_end() -> Seq<u8> {
    seq![13u8, 10u8]
}

/// Those of the first `k` pieces that are not empty.
pub open spec fn filled(parts: Seq<Seq<u8>>, k: nat) -> Seq<Seq<u8>>
    decreases k,
{
    if k == 0 {
        Seq::empty()
    } else if parts[k - 1].len() > 0 {
        filled(parts, (k - 1) as nat).push(parts[k - 1])
    } else {
        filled(parts, (k - 1) as nat)
    }
}

/// The lines of instructions among the first `k` entries: the lines that are not
/// empty of every entry that does not hold the word `Plant`.
pub open spec fn instruction_lines(input: Seq<Seq<u8>>, k: nat) -> Seq<Seq<u8>>
    decreases k,
{
    if k == 0 {
        Seq::empty()
    } else if holds_word(input[k - 1], plant_word()) {
        instruction_lines(input, (k - 1) as nat)
    } else {
        instruction_lines(input, (k - 1) as nat) + filled(
            pieces(input[k - 1], line_end()),
            pieces(input[k - 1], line_end()).len(),
        )
    }
}

/// The energy of each plant that the first `k` entries describe, read in order with
/// the switches `off`; an entry without the word `Plant` describes none. There is none
/// where a description cannot be read.
pub open spec fn garden(input: Seq<Seq<u8>>, k: nat, off: Map<usize, bool>) -> Option<
    Map<usize, isize>,
>
    decreases k,
{
    if k == 0 {
        Some(Map::<usize, isize>::empty())
    } else {
        match garden(input, (k - 1) as nat, off) {
            None => None,
            Some(energies) => {
                let entry = input[k - 1];
                if !holds_word(entry, plant_word()) {
                    Some(energies)
                } else if lines_of(entry).len() >= 1 && header_of(lines_of(entry)[0]) is Some {
                    let id = number_of(entry);
                    match described(entry, energies, off.contains_key(id) && !off[id]) {
                        Some(d) => Some(
                            energies.insert(
                                d.0,
                                if d.2 < d.1 {
                                    0isize
                                } else {
                                    d.2 as isize
                                },
                            ),
                        ),
                        None => None,
                    }
                } else {
                    None
                }
            },
        }
    }
}

/// Whether the garden holds a plant.
pub open spec fn has_plants(energies: Map<usize, isize>) -> bool {
    exists|k: usize| #[trigger] energies.contains_key(k)
}

/// Whether `energy` is the energy of the plant with the largest number.
pub open spec fn is_top(energies: Map<usize, isize>, energy: isize) -> bool {
    exists|best: usize|
        #![trigger energies.contains_key(best)]
        energies.contains_key(best) && energies[best] == energy && forall|k: usize|
            energies.contains_key(k) ==> k <= best
}

/// A garden that cannot be read stays so.
pub proof fn lemma_garden_stays_none(input: Seq<Seq<u8>>, k: nat, n: nat, off: Map<usize, bool>)
    requires
        k <= n,
        garden(input, k, off) is None,
    ensures
        garden(input, n, off) is None,
    decreases n - k,
{
    if k < n {
        lemma_garden_stays_none(input, k, (n - 1) as nat, off);
    }
}

/// The words of `s`.
pub fn split_blanks(s: &[u8]) -> (out: Vec<Vec<u8>>)
    ensures
        views(out@) == words_of(s@),
{
    let mut done: Vec<Vec<u8>> = Vec::new();
    let mut current: Vec<u8> = Vec::new();
    let mut i: usize = 0;
    assert(s@.take(0) =~= Seq::<u8>::empty());
    assert(views(done@) =~= Seq::<Seq<u8>>::empty());
    while i < s.len()
        invariant
            i <= s@.len(),
            current@.len() > 0 <==> i > 0 && !is_blank(s@[i - 1]),
            words_of(s@.take(i as int)) == (if current@.len() > 0 {
                views(done@).push(current@)
            } else {
                views(done@)
            }),
        decreases s.len() - i,
    {
        let b = s[i];
        let ghost old_done = done@;
        let ghost old_current = current@;
        proof {
            assert(s@.take(i + 1).drop_last() =~= s@.take(i as int));
            assert(s@.take(i + 1).last() == b);
            if i > 0 {
                assert(s@.take(i + 1)[i - 1] == s@[i - 1]);
            }
        }
        if blank(b) {
            if current.len() > 0 {
                done.push(current);
                current = Vec::new();
                assert(views(done@) =~= views(old_done).push(old_current));
            }
        } else {
            current.push(b);
            proof {
                if old_current.len() > 0 {
                    assert(views(old_done).push(old_current).drop_last() =~= views(old_done));
                } else {
                    assert(current@ =~= seq![b]);
                }
            }
        }
        i += 1;
    }
    assert(s@.take(s@.len() as int) =~= s@);
    if current.len() > 0 {
        let ghost old_done = done@;
        let ghost last = current@;
        done.push(current);
        assert(views(done@) =~= views(old_done).push(last));
    }
    done
}

/// Reads the switches from a line of numbers between blanks: the plant with number
/// `k` is on exactly if the `k`-th number is 1. There are none where a word is no
/// number.
pub fn read_switches(instr: &[u8]) -> (map: Option<HashMap<usize, bool>>)
    ensures
        map is Some <==> all_unsigned(words_of(instr@)),
        map matches Some(m) ==> m@ == switches(words_of(instr@)),
{
    let words = split_blanks(instr);
    let ghost goal = words_of(instr@);
    let mut map: HashMap<usize, bool> = HashMap::new();
    let mut i: usize = 0;
    assert(views(words@).len() == words@.len());
    while i < words.len()
        invariant
            i <= words@.len(),
            views(words@) == goal,
            goal == words_of(instr@),
            forall|k: int|
                0 <= k < i ==> (#[trigger] unsigned_of(goal[k])) is Some && unsigned_of(goal[k])->0
                    <= usize::MAX,
            forall|k: usize| #[trigger] map@.contains_key(k) <==> 1 <= k <= i,
            forall|k: usize|
                1 <= k <= i ==> #[trigger] map@[k] == (unsigned_of(goal[k - 1]) == Some(1nat)),
        decreases words.len() - i,
    {
        assert(views(words@).len() == words@.len());
        assert(views(words@)[i as int] == words@[i as int]@);
        match parse_usize(words[i].as_slice()) {
            Some(v) => {
                map.insert(i + 1, v == 1);
            },
            None => {
                assert(!((unsigned_of(goal[i as int])) is Some && unsigned_of(goal[i as int])->0
                    <= usize::MAX));
                return None;
            },
        }
        i += 1;
    }
    assert(views(words@).len() == words@.len());
    assert(map@ =~= switches(goal));
    Some(map)
}

/// Reads the switches from a line of numbers between blanks.
pub fn get_instruction(instr: &[u8]) -> (map: HashMap<usize, bool>)
    requires
        all_unsigned(words_of(instr@)),
    ensures
        map@ == switches(words_of(instr@)),
{
    read_switches(instr).unwrap()
}

/// The lines of instructions in `input`: the lines that are not empty of every entry
/// that does not hold the word `Plant`.
pub fn parse_instructions(input: &[Vec<u8>]) -> (lines: Vec<Vec<u8>>)
    ensures
        views(lines@) == instruction_lines(views(input@), input@.len()),
{
    let plant = vec![80u8, 108u8, 97u8, 110u8, 116u8];
    assert(plant@ =~= plant_word());
    let end = vec![13u8, 10u8];
    assert(end@ =~= line_end());
    let mut lines: Vec<Vec<u8>> = Vec::new();
    let mut k: usize = 0;
    assert(views(lines@) =~= Seq::<Seq<u8>>::empty());
    while k < input.len()
        invariant
            k <= input@.len(),
            plant@ == plant_word(),
            end@ == line_end(),
            views(lines@) == instruction_lines(views(input@), k as nat),
        decreases input.len() - k,
    {
        assert(views(input@)[k as int] == input@[k as int]@);
        if !has_word(input[k].as_slice(), plant.as_slice()) {
            let parts = split_on_word(input[k].as_slice(), end.as_slice());
            let ghost before = views(lines@);
            let ghost goal = pieces(input@[k as int]@, line_end());
            let mut j: usize = 0;
            assert(views(parts@).len() == parts@.len());
            while j < parts.len()
                invariant
                    j <= parts@.len(),
                    views(parts@) == goal,
                    views(lines@) == before + filled(goal, j as nat),
                decreases parts.len() - j,
            {
                assert(views(parts@).len() == parts@.len());
                assert(views(parts@)[j as int] == parts@[j as int]@);
                if parts[j].len() > 0 {
                    let ghost old_lines = views(lines@);
                    lines.push(vstd::slice::slice_to_vec(parts[j].as_slice()));
                    assert(views(lines@) =~= old_lines.push(parts@[j as int]@));
                    assert(before + filled(goal, j as nat).push(goal[j as int]) =~= (before
                        + filled(goal, j as nat)).push(goal[j as int]));
                }
                j += 1;
            }
            assert(views(parts@).len() == parts@.len());
        }
        k += 1;
    }
    lines
}

/// The energy that the plant with the largest number passes on in the garden that
/// `input` describes, with the switches `switches`. There is none where a description
/// cannot be read, or the garden has no plant.
pub fn grow(switches: &HashMap<usize, bool>, input: &[Vec<u8>]) -> (energy: Option<isize>)
    ensures
        energy is Some <==> garden(views(input@), input@.len(), switches@) is Some && has_plants(
            garden(views(input@), input@.len(), switches@)->0,
        ),
        energy matches Some(v) ==> is_top(
            garden(views(input@), input@.len(), switches@)->0,
            v,
        ),
{
    let plant_w = vec![80u8, 108u8, 97u8, 110u8, 116u8];
    assert(plant_w@ =~= plant_word());
    let mut plants: HashMap<usize, Plant> = HashMap::new();
    let mut best: Option<usize> = None;
    let mut k: usize = 0;
    assert(energies_of(plants@) =~= Map::<usize, isize>::empty());
    while k < input.len()
        invariant
            k <= input@.len(),
            plant_w@ == plant_word(),
            garden(views(input@), k as nat, switches@) == Some(energies_of(plants@)),
            best is None ==> forall|j: usize| !plants@.contains_key(j),
            best matches Some(b) ==> plants@.contains_key(b) && forall|j: usize|
                plants@.contains_key(j) ==> j <= b,
        decreases input.len() - k,
    {
        let entry = &input[k];
        assert(views(input@)[k as int] == entry@);
        if has_word(entry.as_slice(), plant_w.as_slice()) {
            match Plant::read(entry.as_slice(), &plants, Some(switches)) {
                Some(plant) => {
                    let id = plant.id;
                    let ghost before = plants@;
                    let ghost energy = plant.energy;
                    best = match best {
                        Some(b) => if id > b {
                            Some(id)
                        } else {
                            Some(b)
                        },
                        None => Some(id),
                    };
                    plants.insert(id, plant);
                    proof {
                        assert(energies_of(plants@) =~= energies_of(before).insert(id, energy));
                        let off = switches@.contains_key(id) && !switches@[id];
                        assert(number_of(entry@) == id);
                        assert(described(entry@, energies_of(before), off) is Some);
                        assert(garden(views(input@), (k + 1) as nat, switches@) == Some(
                            energies_of(before).insert(id, energy),
                        ));
                    }
                },
                None => {
                    proof {
                        let id = number_of(entry@);
                        let off = switches@.contains_key(id) && !switches@[id];
                        assert(garden(views(input@), (k + 1) as nat, switches@) is None);
                        lemma_garden_stays_none(
                            views(input@),
                            (k + 1) as nat,
                            input@.len(),
                            switches@,
                        );
                    }
                    return None;
                },
            }
        }
        k += 1;
    }
    match best {
        Some(b) => {
            let top = plants.get(&b).unwrap();
            proof {
                let e = energies_of(plants@);
                assert(e.contains_key(b));
                assert(is_top(e, top.energy));
                assert(exists|k: usize| #[trigger] e.contains_key(k));
                assert(has_plants(e));
            }
            Some(top.energy)
        },
        None => {
            proof {
                let e = energies_of(plants@);
                assert forall|j: usize| !e.contains_key(j) by {
                    assert(!plants@.contains_key(j));
                }
                assert(!has_plants(e));
            }
            None
        },
    }
}

/// The energy that the plant with the largest number passes on in the garden that
/// `input` describes, with the switches that `instruction` sets.
pub fn try_instructions(instruction: &[u8], input: &[Vec<u8>]) -> (energy: isize)
    requires
        all_unsigned(words_of(instruction@)),
        garden(views(input@), input@.len(), switches(words_of(instruction@))) is Some,
        has_plants(garden(views(input@), input@.len(), switches(words_of(instruction@)))->0),
    ensures
        is_top(garden(views(input@), input@.len(), switches(words_of(instruction@)))->0, energy),
{
    let instruction = get_instruction(instruction);
    grow(&instruction, input).unwrap()
}

} // verus!
