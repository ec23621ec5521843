//! Plants that pass energy on along their branches, read from descriptions like
//! `Plant 4 with thickness 17:` followed by lines `- free branch with thickness 1` or
//! `- branch to Plant 2 with thickness 3`.

use crate::text::{
    all_signed, fields, parse_isize, signed_of, signed_values, split_fields, views,
};
use crate::words::{has_word, holds_word, pieces, split_on_word, trim, trimmed};
use std::collections::HashMap;
use vstd::prelude::*;

verus! {

broadcast use vstd::std_specs::hash::group_hash_axioms;

/// A plant: its number, how much energy it needs to pass any on, the energy it passes
/// on, and the plants that its branches come from.
#[derive(Debug, Clone)]
pub struct Plant {
    pub id: usize,
    pub thickness: isize,
    pub energy: isize,
    pub parents: Vec<usize>,
}

/// The words `with thickness`.
pub open spec fn with_thickness() -> Seq<u8> {
    seq![119u8, 105u8, 116u8, 104u8, 32u8, 116u8, 104u8, 105u8, 99u8, 107u8, 110u8, 101u8, 115u8, 115u8]
}

/// The words `with thickness` and a space.
pub open spec fn with_thickness_and_space() -> Seq<u8> {
    with_thickness().push(32u8)
}

/// The word `free`.
pub open spec fn free_word() -> Seq<u8> {
    seq![102u8, 114u8, 101u8, 101u8]
}

/// The word `Plant`.
pub open spec fn plant_word() -> Seq<u8> {
    seq![80u8, 108u8, 97u8, 110u8, 116u8]
}

/// Each piece without the blanks around it.
pub open spec fn all_trimmed(parts: Seq<Seq<u8>>) -> Seq<Seq<u8>> {
    Seq::new(parts.len(), |i: int| trimmed(parts[i]))
}

/// The numbers that stand in `text` between the places where `word` stands, if
/// every piece between them is a number with blanks around it.
pub open spec fn numbers_between(text: Seq<u8>, word: Seq<u8>) -> Option<Seq<isize>> {
    let parts = all_trimmed(pieces(text, word));
    if all_signed(parts) {
        Some(signed_values(parts))
    } else {
        None
    }
}

/// A line without the carriage return at its end, if it has one.
pub open spec fn without_return(line: Seq<u8>) -> Seq<u8> {
    if line.len() > 0 && line.last() == 13 {
        line.drop_last()
    } else {
        line
    }
}

/// The lines of `text`: what stands before each line feed, without a carriage return
/// at its end, and what follows the last line feed as it is, if anything does.
pub open spec fn lines_of(text: Seq<u8>) -> Seq<Seq<u8>> {
    let parts = fields(text, 10);
    let kept = if parts.last().len() == 0 {
        parts.drop_last()
    } else {
        parts
    };
    Seq::new(
        kept.len(),
        |i: int|
            if i < parts.len() - 1 {
                without_return(kept[i])
            } else {
                kept[i]
            },
    )
}

/// The number and the thickness that the first line of a description gives: what
/// follows its first six characters, without its last one, is a number, the words `with
/// thickness`, and a number.
pub open spec fn header_of(line: Seq<u8>) -> Option<(usize, isize)> {
    if line.len() >= 7 {
        match numbers_between(line.subrange(6, line.len() - 1), with_thickness()) {
            Some(numbers) => if numbers.len() >= 2 && numbers[0] >= 0 {
                Some((numbers[0] as usize, numbers[1]))
            } else {
                None
            },
            None => None,
        }
    } else {
        None
    }
}

/// The thickness of a free branch: the number that follows the first 29 characters of
/// its line.
pub open spec fn free_branch_of(line: Seq<u8>) -> Option<isize> {
    if line.len() >= 29 {
        match signed_of(line.skip(29)) {
            Some(v) => if isize::MIN <= v <= isize::MAX {
                Some(v as isize)
            } else {
                None
            },
            None => None,
        }
    } else {
        None
    }
}

/// The plant that a branch comes from and the branch's thickness: what follows the
/// first 18 characters of its line is a number, the words `with thickness`, and a
/// number.
pub open spec fn parent_branch_of(line: Seq<u8>) -> Option<(usize, isize)> {
    if line.len() >= 18 {
        match numbers_between(line.skip(18), with_thickness_and_space()) {
            Some(numbers) => if numbers.len() >= 2 && numbers[0] >= 0 {
                Some((numbers[0] as usize, numbers[1]))
            } else {
                None
            },
            None => None,
        }
    } else {
        None
    }
}

/// Whether the machine's signed word holds `v`.
pub open spec fn fits(v: int) -> bool {
    isize::MIN <= v <= isize::MAX
}

/// The energy that the first `k` branches bring and the plants that they come from. A
/// free branch brings its thickness, unless `skip_free`; a branch from a plant brings
/// that plant's energy times its thickness. There is none where a line cannot be read,
/// a plant is not known, or the machine's word cannot hold the energy.
pub open spec fn grown(
    lines: Seq<Seq<u8>>,
    k: nat,
    energies: Map<usize, isize>,
    skip_free: bool,
) -> Option<(int, Seq<usize>)>
    decreases k,
{
    if k == 0 {
        Some((0int, Seq::<usize>::empty()))
    } else {
        match grown(lines, (k - 1) as nat, energies, skip_free) {
            None => None,
            Some((energy, parents)) => {
                let line = lines[k - 1];
                if holds_word(line, free_word()) {
                    if skip_free {
                        Some((energy, parents))
                    } else {
                        match free_branch_of(line) {
                            Some(t) => if fits(energy + t) {
                                Some((energy + t, parents))
                            } else {
                                None
                            },
                            None => None,
                        }
                    }
                } else {
                    match parent_branch_of(line) {
                        Some((parent, t)) => if energies.contains_key(parent) && fits(
                            energies[parent] * t,
                        ) && fits(energy + energies[parent] * t) {
                            Some((energy + energies[parent] * t, parents.push(parent)))
                        } else {
                            None
                        },
                        None => None,
                    }
                }
            },
        }
    }
}

/// The words `with thickness`.
pub fn thickness_words(space: bool) -> (word: Vec<u8>)
    ensures
        word@ == (if space {
            with_thickness_and_space()
        } else {
            with_thickness()
        }),
{
    let mut word: Vec<u8> = vec![119u8, 105u8, 116u8, 104u8, 32u8, 116u8, 104u8, 105u8, 99u8, 107u8, 110u8, 101u8, 115u8, 115u8];
    assert(word@ =~= with_thickness());
    if space {
        word.push(32);
    }
    word
}

/// The lines of `text`.
pub fn text_lines(text: &[u8]) -> (lines: Vec<Vec<u8>>)
    ensures
        views(lines@) == lines_of(text@),
{
    let parts = split_fields(text, 10);
    assert(views(parts@).len() == parts@.len());
    let count: usize = if parts[parts.len() - 1].len() == 0 {
        parts.len() - 1
    } else {
        parts.len()
    };
    assert(views(parts@)[parts@.len() - 1] == parts@[parts@.len() - 1]@);
    let mut lines: Vec<Vec<u8>> = Vec::new();
    let mut i: usize = 0;
    while i < count
        invariant
            i <= count <= parts@.len(),
            lines@.len() == i,
            forall|k: int|
                0 <= k < i ==> (#[trigger] lines@[k])@ == (if k < parts@.len() - 1 {
                    without_return(parts@[k]@)
                } else {
                    parts@[k]@
                }),
        decreases count - i,
    {
        let part = &parts[i];
        let end: usize = if i < parts.len() - 1 && part.len() > 0 && part[part.len() - 1] == 13 {
            part.len() - 1
        } else {
            part.len()
        };
        let line = vstd::slice::slice_to_vec(vstd::slice::slice_subrange(part.as_slice(), 0, end));
        assert(line@ =~= (if i < parts@.len() - 1 {
            without_return(part@)
        } else {
            part@
        }));
        lines.push(line);
        i += 1;
    }
    proof {
        let goal = lines_of(text@);
        assert(views(lines@).len() == goal.len());
        assert forall|k: int| 0 <= k < goal.len() implies views(lines@)[k] == goal[k] by {
            assert(views(parts@)[k] == parts@[k]@);
        }
        assert(views(lines@) =~= goal);
    }
    lines
}

/// The numbers that stand in `text` between the places where `word` stands.
pub fn read_numbers(text: &[u8], word: &[u8]) -> (numbers: Option<Vec<isize>>)
    ensures
        numbers is Some <==> numbers_between(text@, word@) is Some,
        numbers matches Some(v) ==> v@ == numbers_between(text@, word@)->0,
{
    let parts = split_on_word(text, word);
    let ghost goal = all_trimmed(pieces(text@, word@));
    let mut numbers: Vec<isize> = Vec::new();
    let mut i: usize = 0;
    while i < parts.len()
        invariant
            i <= parts@.len(),
            views(parts@) == pieces(text@, word@),
            goal == all_trimmed(pieces(text@, word@)),
            numbers@.len() == i,
            forall|k: int|
                0 <= k < i ==> (#[trigger] signed_of(goal[k])) is Some && isize::MIN <= signed_of(
                    goal[k],
                )->0 <= isize::MAX && numbers@[k] == signed_of(goal[k])->0,
        decreases parts.len() - i,
    {
        assert(views(parts@).len() == parts@.len());
        assert(views(parts@)[i as int] == parts@[i as int]@);
        assert(goal[i as int] == trimmed(parts@[i as int]@));
        match parse_isize(trim(parts[i].as_slice())) {
            Some(v) => {
                numbers.push(v);
            },
            None => {
                assert(!((signed_of(goal[i as int])) is Some && isize::MIN <= signed_of(
                    goal[i as int],
                )->0 <= isize::MAX));
                return None;
            },
        }
        i += 1;
    }
    assert(views(parts@).len() == parts@.len());
    assert(numbers@ =~= signed_values(goal));
    Some(numbers)
}

/// Reads the number and the thickness from the first line of a description.
pub fn read_header(line: &[u8]) -> (header: Option<(usize, isize)>)
    ensures
        header == header_of(line@),
{
    if line.len() < 7 {
        return None;
    }
    let inner = vstd::slice::slice_subrange(line, 6, line.len() - 1);
    let word = thickness_words(false);
    match read_numbers(inner, word.as_slice()) {
        Some(numbers) => {
            if numbers.len() >= 2 && numbers[0] >= 0 {
                Some((numbers[0] as usize, numbers[1]))
            } else {
                None
            }
        },
        None => None,
    }
}

/// Reads the thickness of a free branch from its line.
pub fn read_free_branch(line: &[u8]) -> (thickness: Option<isize>)
    ensures
        thickness == free_branch_of(line@),
{
    if line.len() < 29 {
        return None;
    }
    let rest = vstd::slice::slice_subrange(line, 29, line.len());
    assert(rest@ =~= line@.skip(29));
    parse_isize(rest)
}

/// Reads, from the line of a branch, the plant that it comes from and its thickness.
pub fn read_parent_branch(line: &[u8]) -> (branch: Option<(usize, isize)>)
    ensures
        branch == parent_branch_of(line@),
{
    if line.len() < 18 {
        return None;
    }
    let rest = vstd::slice::slice_subrange(line, 18, line.len());
    assert(rest@ =~= line@.skip(18));
    let word = thickness_words(true);
    match read_numbers(rest, word.as_slice()) {
        Some(numbers) => {
            if numbers.len() >= 2 && numbers[0] >= 0 {
                Some((numbers[0] as usize, numbers[1]))
            } else {
                None
            }
        },
        None => None,
    }
}

/// What a description says of a plant whose parents are `plants`: its number and
/// thickness, the energy that its branches bring, and the plants they come from. With
/// `skip_free`, free branches bring nothing.
pub open spec fn described(description: Seq<u8>, plants: Map<usize, isize>, skip_free: bool) -> Option<
    (usize, isize, int, Seq<usize>),
> {
    let lines = lines_of(description);
    if lines.len() >= 1 {
        match header_of(lines[0]) {
            Some((id, thickness)) => match grown(
                lines.skip(1),
                (lines.len() - 1) as nat,
                plants,
                skip_free,
            ) {
                Some((energy, parents)) => Some((id, thickness, energy, parents)),
                None => None,
            },
            None => None,
        }
    } else {
        None
    }
}

/// The energy that each plant passes on.
pub open spec fn energies_of(plants: Map<usize, Plant>) -> Map<usize, isize> {
    Map::new(|id: usize| plants.contains_key(id), |id: usize| plants[id].energy)
}

/// The number of the plant that a description is of.
pub open spec fn number_of(description: Seq<u8>) -> usize {
    let header = header_of(lines_of(description)[0])->0;
    header.0
}

/// Whether the plant with this number is switched off by the instructions.
pub open spec fn switched_off(instruction_map: Option<&HashMap<usize, bool>>, id: usize) -> bool {
    instruction_map matches Some(map) && map@.contains_key(id) && !map@[id]
}

impl Plant {
    /// Reads a plant from its description. Its energy is what its branches bring: a
    /// free branch its thickness, unless the instructions switch the plant off, a branch
    /// from a plant that plant's energy times the branch's thickness; below the plant's
    /// own thickness, the energy is 0. There is no plant where the description cannot be
    /// read, names a plant that `plants` does not hold, or asks for more energy than the
    /// machine's word holds.
    pub fn read(
        description: &[u8],
        plants: &HashMap<usize, Plant>,
        instruction_map: Option<&HashMap<usize, bool>>,
    ) -> (plant: Option<Plant>)
        ensures
            plant is Some <==> lines_of(description@).len() >= 1 && header_of(
                lines_of(description@)[0],
            ) is Some && described(
                description@,
                energies_of(plants@),
                switched_off(instruction_map, number_of(description@)),
            ) is Some,
            plant matches Some(p) ==> {
                let d = described(
                    description@,
                    energies_of(plants@),
                    switched_off(instruction_map, number_of(description@)),
                )->0;
                &&& p.id == number_of(description@)
                &&& p.id == d.0
                &&& p.thickness == d.1
                &&& p.energy == (if d.2 < d.1 {
                    0
                } else {
                    d.2
                })
                &&& p.parents@ == d.3
            },
    {
        let lines = text_lines(description);
        assert(views(lines@).len() == lines@.len());
        if lines.len() == 0 {
            return None;
        }
        assert(views(lines@)[0] == lines@[0]@);
        let (id, thickness) = match read_header(lines[0].as_slice()) {
            Some(header) => header,
            None => {
                return None;
            },
        };
        let skip_free = match instruction_map {
            Some(map) => match map.get(&id) {
                Some(active) => !*active,
                None => false,
            },
            None => false,
        };
        let ghost rest = lines_of(description@).skip(1);
        let mut energy: isize = 0;
        let mut parents: Vec<usize> = Vec::new();
        let mut k: usize = 1;
        while k < lines.len()
            invariant
                1 <= k <= lines@.len(),
                views(lines@) == lines_of(description@),
                rest == lines_of(description@).skip(1),
                header_of(lines_of(description@)[0]) == Some((id, thickness)),
                skip_free == switched_off(instruction_map, id),
                grown(rest, (k - 1) as nat, energies_of(plants@), skip_free) == Some(
                    (energy as int, parents@),
                ),
            decreases lines.len() - k,
        {
            let line = &lines[k];
            proof {
                assert(views(lines@).len() == lines@.len());
                assert(views(lines@)[k as int] == line@);
                assert(rest[k - 1] == line@);
            }
            let free = vec![102u8, 114u8, 101u8, 101u8];
            assert(free@ =~= free_word());
            if has_word(line.as_slice(), free.as_slice()) {
                if !skip_free {
                    let sum = match read_free_branch(line.as_slice()) {
                        Some(t) => energy.checked_add(t),
                        None => None,
                    };
                    match sum {
                        Some(e) => {
                            energy = e;
                        },
                        None => {
                            proof {
                                lemma_grown_stays_none(
                                    rest,
                                    k as nat,
                                    (lines@.len() - 1) as nat,
                                    energies_of(plants@),
                                    skip_free,
                                );
                            }
                            return None;
                        },
                    }
                }
            } else {
                let sum = match read_parent_branch(line.as_slice()) {
                    Some((parent, t)) => match plants.get(&parent) {
                        Some(p) => match p.energy.checked_mul(t) {
                            Some(more) => match energy.checked_add(more) {
                                Some(e) => Some((e, parent)),
                                None => None,
                            },
                            None => None,
                        },
                        None => None,
                    },
                    None => None,
                };
                match sum {
                    Some((e, parent)) => {
                        energy = e;
                        parents.push(parent);
                    },
                    None => {
                        proof {
                            lemma_grown_stays_none(
                                rest,
                                k as nat,
                                (lines@.len() - 1) as nat,
                                energies_of(plants@),
                                skip_free,
                            );
                        }
                        return None;
                    },
                }
            }
            k += 1;
        }
        if energy < thickness {
            energy = 0;
        }
        Some(Plant { id, thickness, energy, parents })
    }

    /// Reads a plant from its description, which can be read, names only plants that
    /// `plants` holds, and asks for no more energy than the machine's word holds.
    pub fn from_description(
        description: &[u8],
        plants: &HashMap<usize, Plant>,
        instruction_map: Option<&HashMap<usize, bool>>,
    ) -> (plant: Plant)
        requires
            lines_of(description@).len() >= 1,
            header_of(lines_of(description@)[0]) is Some,
            described(
                description@,
                energies_of(plants@),
                switched_off(instruction_map, number_of(description@)),
            ) is Some,
        ensures
            ({
                let d = described(
                    description@,
                    energies_of(plants@),
                    switched_off(instruction_map, number_of(description@)),
                )->0;
                &&& plant.id == number_of(description@)
                &&& plant.id == d.0
                &&& plant.thickness == d.1
                &&& plant.energy == (if d.2 < d.1 {
                    0
                } else {
                    d.2
                })
                &&& plant.parents@ == d.3
            }),
    {
        Plant::read(description, plants, instruction_map).unwrap()
    }
}

/// What the first `k` lines say if each is read as a branch from a plant, whatever it
/// is: nothing (`None`) where a line cannot be read before any plant beyond
/// `max_free` is named, or the sum cannot be held; `Some(None)` where a line names a plant
/// beyond `max_free`; else the sum of the thicknesses above zero, if `summing`, and the
/// plants named.
pub open spec fn branches_within(lines: Seq<Seq<u8>>, k: nat, max_free: usize, summing: bool) -> Option<
    Option<(int, Seq<usize>)>,
>
    decreases k,
{
    if k == 0 {
        Some(Some((0int, Seq::<usize>::empty())))
    } else {
        match branches_within(lines, (k - 1) as nat, max_free, summing) {
            None => None,
            Some(None) => Some(None),
            Some(Some((energy, parents))) => match parent_branch_of(lines[k - 1]) {
                None => None,
                Some((parent, t)) => if parent > max_free {
                    Some(None)
                } else if summing && t > 0 {
                    if fits(energy + t) {
                        Some(Some((energy + t, parents.push(parent))))
                    } else {
                        None
                    }
                } else {
                    Some(Some((energy, parents.push(parent))))
                },
            },
        }
    }
}

/// What is said of the first lines stays what it is once it is nothing, or a plant
/// beyond.
pub proof fn lemma_branches_within_stays(
    lines: Seq<Seq<u8>>,
    k: nat,
    n: nat,
    max_free: usize,
    summing: bool,
)
    requires
        k <= n,
        !(branches_within(lines, k, max_free, summing) matches Some(Some(_))),
    ensures
        branches_within(lines, n, max_free, summing) == branches_within(lines, k, max_free, summing),
    decreases n - k,
{
    if k < n {
        lemma_branches_within_stays(lines, k, (n - 1) as nat, max_free, summing);
    }
}

/// Reads the first `lines@.len() - 1` lines after the header as branches from plants.
pub fn read_branches(lines: &Vec<Vec<u8>>, max_free: usize, summing: bool) -> (out: Option<
    Option<(isize, Vec<usize>)>,
>)
    requires
        lines@.len() >= 1,
    ensures
        out is None <==> branches_within(
            views(lines@).skip(1),
            (lines@.len() - 1) as nat,
            max_free,
            summing,
        ) is None,
        out matches Some(inner) ==> {
            let goal = branches_within(
                views(lines@).skip(1),
                (lines@.len() - 1) as nat,
                max_free,
                summing,
            )->0;
            &&& inner is None <==> goal is None
            &&& inner matches Some(found) ==> goal == Some((found.0 as int, found.1@))
        },
{
    let ghost rest = views(lines@).skip(1);
    let mut energy: isize = 0;
    let mut parents: Vec<usize> = Vec::new();
    let mut k: usize = 1;
    while k < lines.len()
        invariant
            1 <= k <= lines@.len(),
            rest == views(lines@).skip(1),
            branches_within(rest, (k - 1) as nat, max_free, summing) == Some(
                Some((energy as int, parents@)),
            ),
        decreases lines.len() - k,
    {
        let line = &lines[k];
        proof {
            assert(views(lines@).len() == lines@.len());
            assert(views(lines@)[k as int] == line@);
            assert(rest[k - 1] == line@);
        }
        match read_parent_branch(line.as_slice()) {
            None => {
                proof {
                    lemma_branches_within_stays(
                        rest,
                        k as nat,
                        (lines@.len() - 1) as nat,
                        max_free,
                        summing,
                    );
                }
                return None;
            },
            Some((parent, t)) => {
                if parent > max_free {
                    proof {
                        lemma_branches_within_stays(
                            rest,
                            k as nat,
                            (lines@.len() - 1) as nat,
                            max_free,
                            summing,
                        );
                    }
                    return Some(None);
                }
                if summing && t > 0 {
                    match energy.checked_add(t) {
                        Some(e) => {
                            energy = e;
                        },
                        None => {
                            proof {
                                lemma_branches_within_stays(
                                    rest,
                                    k as nat,
                                    (lines@.len() - 1) as nat,
                                    max_free,
                                    summing,
                                );
                            }
                            return None;
                        },
                    }
                }
                parents.push(parent);
            },
        }
        k += 1;
    }
    Some(Some((energy, parents)))
}

/// Whether `plants` holds every one of `parents`.
pub open spec fn all_in(parents: Seq<usize>, plants: Map<usize, Plant>) -> bool {
    forall|i: int| 0 <= i < parents.len() ==> plants.contains_key(#[trigger] parents[i])
}

/// Whether `plants` holds every one of `parents`.
pub fn all_known(parents: &Vec<usize>, plants: &HashMap<usize, Plant>) -> (yes: bool)
    ensures
        yes == all_in(parents@, plants@),
{
    let mut i: usize = 0;
    while i < parents.len()
        invariant
            i <= parents@.len(),
            forall|k: int| 0 <= k < i ==> plants@.contains_key(#[trigger] parents@[k]),
        decreases parents.len() - i,
    {
        if plants.get(&parents[i]).is_none() {
            return false;
        }
        i += 1;
    }
    true
}

impl Plant {
    /// The most energy that a plant can pass on, read from its description: the sum
    /// of its branches' thicknesses above zero, or 0 if that is below its own thickness.
    /// There is no such plant if its number is below `max_free`, or a branch comes from a
    /// plant beyond `max_free`. Every line is read as a branch from a plant.
    pub fn new_max_possible(description: &[u8], max_free: usize) -> (plant: Option<Plant>)
        requires
            lines_of(description@).len() >= 1,
            header_of(lines_of(description@)[0]) is Some,
            number_of(description@) >= max_free ==> branches_within(
                lines_of(description@).skip(1),
                (lines_of(description@).len() - 1) as nat,
                max_free,
                true,
            ) is Some,
        ensures
            plant is Some <==> number_of(description@) >= max_free && branches_within(
                lines_of(description@).skip(1),
                (lines_of(description@).len() - 1) as nat,
                max_free,
                true,
            )->0 is Some,
            plant matches Some(p) ==> {
                let header = header_of(lines_of(description@)[0])->0;
                let found = branches_within(
                    lines_of(description@).skip(1),
                    (lines_of(description@).len() - 1) as nat,
                    max_free,
                    true,
                )->0->0;
                &&& p.id == header.0
                &&& p.thickness == header.1
                &&& p.energy == (if found.0 < header.1 {
                    0
                } else {
                    found.0
                })
                &&& p.parents@ == found.1
            },
    {
        let lines = text_lines(description);
        assert(views(lines@).len() == lines@.len());
        assert(views(lines@)[0] == lines@[0]@);
        let (id, thickness) = read_header(lines[0].as_slice()).unwrap();
        if id < max_free {
            return None;
        }
        match read_branches(&lines, max_free, true).unwrap() {
            Some((energy, parents)) => {
                if energy < thickness {
                    Some(Plant { id, thickness, energy: 0, parents })
                } else {
                    Some(Plant { id, thickness, energy, parents })
                }
            },
            None => None,
        }
    }

    /// A plant that may matter, read from its description: one whose number is at
    /// least `max_free`, whose branches all come from plants up to `max_free`, not all of
    /// them held by `not_useful`. Its thickness and energy are left 0. Every line is read
    /// as a branch from a plant.
    pub fn useful_node(description: &[u8], max_free: usize, not_useful: &HashMap<usize, Plant>) -> (plant:
        Option<Plant>)
        requires
            lines_of(description@).len() >= 1,
            header_of(lines_of(description@)[0]) is Some,
            number_of(description@) >= max_free ==> branches_within(
                lines_of(description@).skip(1),
                (lines_of(description@).len() - 1) as nat,
                max_free,
                false,
            ) is Some,
        ensures
            plant is Some <==> number_of(description@) >= max_free && ({
                let found = branches_within(
                    lines_of(description@).skip(1),
                    (lines_of(description@).len() - 1) as nat,
                    max_free,
                    false,
                )->0;
                found matches Some(f) && !all_in(f.1, not_useful@)
            }),
            plant matches Some(p) ==> p.id == number_of(description@) && p.thickness == 0
                && p.energy == 0 && p.parents@ == (branches_within(
                lines_of(description@).skip(1),
                (lines_of(description@).len() - 1) as nat,
                max_free,
                false,
            )->0->0).1,
    {
        let lines = text_lines(description);
        assert(views(lines@).len() == lines@.len());
        assert(views(lines@)[0] == lines@[0]@);
        let (id, _) = read_header(lines[0].as_slice()).unwrap();
        if id < max_free {
            return None;
        }
        match read_branches(&lines, max_free, false).unwrap() {
            Some((_, parents)) => {
                if all_known(&parents, not_useful) {
                    None
                } else {
                    Some(Plant { id, thickness: 0, energy: 0, parents })
                }
            },
            None => None,
        }
    }
}

/// Once the branches cannot be followed, they cannot be followed further.
pub proof fn lemma_grown_stays_none(
    lines: Seq<Seq<u8>>,
    k: nat,
    n: nat,
    plants: Map<usize, isize>,
    skip_free: bool,
)
    requires
        k <= n,
        grown(lines, k, plants, skip_free) is None,
    ensures
        grown(lines, n, plants, skip_free) is None,
    decreases n - k,
{
    if k < n {
        lemma_grown_stays_none(lines, k, (n - 1) as nat, plants, skip_free);
    }
}

} // verus!
