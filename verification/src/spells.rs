//! Walls built from spells: the spell with number `n` puts one block on every `n`-th
//! column.

use vstd::prelude::*;

verus! {

/// The blocks that the first `k` spells put on a wall of `length` columns.
pub open spec fn blocks_in(spells: Seq<usize>, length: int, k: nat) -> nat
    decreases k,
{
    if k == 0 {
        0
    } else {
        blocks_in(spells, length, (k - 1) as nat) + (length / spells[k - 1] as int) as nat
    }
}

/// Whether no spell has the number 0.
pub open spec fn no_zero(spells: Seq<usize>) -> bool {
    forall|i: int| 0 <= i < spells.len() ==> #[trigger] spells[i] != 0
}

/// Whether every column of the wall is empty.
pub open spec fn all_zero(wall: Seq<usize>) -> bool {
    forall|i: int| 0 <= i < wall.len() ==> #[trigger] wall[i] == 0
}

/// Whether the spell `number` can be taken off the wall: every column that it builds
/// on holds a block.
pub open spec fn can_strike(wall: Seq<usize>, number: int) -> bool {
    forall|i: int| 0 <= i < wall.len() && (i + 1) % number == 0 ==> #[trigger] wall[i] > 0
}

/// The wall without the blocks of the spell `number`.
pub open spec fn strike(wall: Seq<usize>, number: int) -> Seq<usize> {
    Seq::new(
        wall.len(),
        |i: int|
            if (i + 1) % number == 0 {
                (wall[i] - 1) as usize
            } else {
                wall[i]
            },
    )
}

/// The wall after the spell `number` was tried: without its blocks if it can be taken
/// off, else unchanged.
pub open spec fn after_try(wall: Seq<usize>, number: int) -> Seq<usize> {
    if can_strike(wall, number) {
        strike(wall, number)
    } else {
        wall
    }
}

/// Whether trying the spells from `number` on, in order, empties the wall before the
/// numbers run past its length.
pub open spec fn settles(wall: Seq<usize>, number: int) -> bool
    decreases wall.len() + 1 - number,
{
    number >= 1 && (all_zero(after_try(wall, number)) || (number <= wall.len() && settles(
        after_try(wall, number),
        number + 1,
    )))
}

/// The spells found so far, followed by those from `number` on that can be taken off
/// the wall, each tried once, until the wall is empty.
pub open spec fn spells_from(wall: Seq<usize>, number: int, spells: Seq<usize>) -> Seq<usize>
    decreases wall.len() + 1 - number,
{
    let found = if can_strike(wall, number) {
        spells.push(number as usize)
    } else {
        spells
    };
    if number < 1 || number > wall.len() || all_zero(after_try(wall, number)) {
        found
    } else {
        spells_from(after_try(wall, number), number + 1, found)
    }
}

/// The blocks of the first spells are no more than the blocks of all; a longer wall
/// takes no fewer blocks.
pub proof fn lemma_blocks_in(spells: Seq<usize>, length: int, longer: int, k: nat, n: nat)
    requires
        0 <= length <= longer,
        k <= n <= spells.len(),
        no_zero(spells),
    ensures
        blocks_in(spells, length, k) <= blocks_in(spells, length, n),
        blocks_in(spells, length, k) <= blocks_in(spells, longer, k),
    decreases n,
{
    if k < n {
        lemma_blocks_in(spells, length, longer, k, (n - 1) as nat);
    }
    if k > 0 {
        lemma_blocks_in(spells, length, longer, (k - 1) as nat, (k - 1) as nat);
        let d = spells[k - 1] as int;
        assert(length / d <= longer / d) by (nonlinear_arith)
            requires
                0 <= length <= longer,
                d > 0,
        {
        }
        assert(0 <= length / d) by (nonlinear_arith)
            requires
                0 <= length,
                d > 0,
        {
        }
    }
}

/// The blocks that the spells put on a wall of `length` columns.
pub fn calculate_blocks_in_wall(instructions: &[usize], length: usize) -> (blocks: usize)
    requires
        no_zero(instructions@),
        blocks_in(instructions@, length as int, instructions@.len()) <= usize::MAX,
    ensures
        blocks == blocks_in(instructions@, length as int, instructions@.len()),
{
    let mut blocks: usize = 0;
    let mut k: usize = 0;
    while k < instructions.len()
        invariant
            k <= instructions@.len(),
            no_zero(instructions@),
            blocks_in(instructions@, length as int, instructions@.len()) <= usize::MAX,
            blocks == blocks_in(instructions@, length as int, k as nat),
        decreases instructions.len() - k,
    {
        proof {
            lemma_blocks_in(
                instructions@,
                length as int,
                length as int,
                (k + 1) as nat,
                instructions@.len(),
            );
        }
        blocks = blocks + length / instructions[k];
        k += 1;
    }
    blocks
}

/// Whether every column of the wall is empty.
pub fn is_flat(wall: &[usize]) -> (flat: bool)
    ensures
        flat == all_zero(wall@),
{
    let mut i: usize = 0;
    while i < wall.len()
        invariant
            i <= wall@.len(),
            forall|k: int| 0 <= k < i ==> #[trigger] wall@[k] == 0,
        decreases wall.len() - i,
    {
        if wall[i] != 0 {
            return false;
        }
        i += 1;
    }
    true
}

/// Tries to take the spell `number` off the wall. Gives the wall without its blocks,
/// or no wall where a column that the spell builds on is empty.
pub fn strike_spell(wall: &[usize], number: usize) -> (out: Option<Vec<usize>>)
    requires
        number >= 1,
    ensures
        out is Some <==> can_strike(wall@, number as int),
        out matches Some(w) ==> w@ == strike(wall@, number as int),
{
    let mut new: Vec<usize> = Vec::new();
    let mut i: usize = 0;
    while i < wall.len()
        invariant
            i <= wall@.len(),
            number >= 1,
            new@.len() == i,
            forall|k: int| 0 <= k < i && (k + 1) % (number as int) == 0 ==> #[trigger] wall@[k] > 0,
            forall|k: int|
                0 <= k < i ==> #[trigger] new@[k] == (if (k + 1) % (number as int) == 0 {
                    (wall@[k] - 1) as usize
                } else {
                    wall@[k]
                }),
        decreases wall.len() - i,
    {
        if (i + 1) % number == 0 {
            if wall[i] == 0 {
                return None;
            }
            new.push(wall[i] - 1);
        } else {
            new.push(wall[i]);
        }
        i += 1;
    }
    assert(new@ =~= strike(wall@, number as int));
    Some(new)
}

/// The spells that the wall was built from: `spells`, followed by the numbers from
/// `number` on that can be taken off the wall, each tried once in order, until the
/// wall is empty.
pub fn get_spell_from_wall(wall: &[usize], number: usize, spells: Vec<usize>) -> (found: Vec<usize>)
    requires
        settles(wall@, number as int),
        wall@.len() < usize::MAX,
    ensures
        found@ == spells_from(wall@, number as int, spells@),
    decreases wall@.len() + 1 - number,
{
    let mut spells = spells;
    let new: Vec<usize> = match strike_spell(wall, number) {
        Some(w) => {
            spells.push(number);
            w
        },
        None => vstd::slice::slice_to_vec(wall),
    };
    assert(new@ == after_try(wall@, number as int));
    if !is_flat(new.as_slice()) {
        spells = get_spell_from_wall(new.as_slice(), number + 1, spells);
    }
    spells
}

/// Whether trying the spells from `number` on, in order, empties the wall before the
/// numbers run past its length.
pub fn wall_settles(wall: &[usize], number: usize) -> (yes: bool)
    requires
        wall@.len() < usize::MAX,
    ensures
        yes == settles(wall@, number as int),
    decreases wall@.len() + 1 - number,
{
    if number < 1 {
        return false;
    }
    let new: Vec<usize> = match strike_spell(wall, number) {
        Some(w) => w,
        None => vstd::slice::slice_to_vec(wall),
    };
    assert(new@ == after_try(wall@, number as int));
    if is_flat(new.as_slice()) {
        true
    } else if number <= wall.len() {
        wall_settles(new.as_slice(), number + 1)
    } else {
        false
    }
}

/// The middle of the range from `lower` to `upper`, rounded down.
pub open spec fn middle(lower: int, upper: int) -> int {
    lower + (upper - lower) / 2
}

/// How far a search is from its end: 0 once the length tried is the one tried before,
/// 1 while it is the middle of the range, 2 otherwise.
pub open spec fn steps_left(lower: int, upper: int, old: int, length: int) -> nat {
    if length == old {
        0
    } else if length == middle(lower, upper) {
        1
    } else {
        2
    }
}

/// The length that the search ends with: it tries the middle of the range, ends there
/// if the wall of that length takes exactly `blocks` blocks, goes on in the lower half if
/// it takes more and in the upper half if it takes fewer, and ends when it tries a
/// length twice.
pub open spec fn search(
    spells: Seq<usize>,
    blocks: int,
    lower: int,
    upper: int,
    old: int,
    length: int,
) -> int
    decreases upper - lower, steps_left(lower, upper, old, length),
{
    if length == old || lower > upper {
        length
    } else {
        let mid = middle(lower, upper);
        let needed = blocks_in(spells, mid, spells.len());
        if needed > blocks {
            search(spells, blocks, lower, mid, length, mid)
        } else if needed == blocks {
            mid
        } else {
            search(spells, blocks, mid, upper, length, mid)
        }
    }
}

/// The length of the wall that `blocks` blocks build, searched between `lower` and
/// `upper` by halving the range.
pub fn get_length_wall(spells: &[usize], blocks: usize, lower: usize, upper: usize) -> (length: usize)
    requires
        lower <= upper,
        no_zero(spells@),
        blocks_in(spells@, upper as int, spells@.len()) <= usize::MAX,
    ensures
        length == search(spells@, blocks as int, lower as int, upper as int, 0, 1),
{
    let mut low = lower;
    let mut high = upper;
    let mut old: usize = 0;
    let mut length: usize = 1;
    while length != old
        invariant
            low <= high <= upper,
            no_zero(spells@),
            blocks_in(spells@, upper as int, spells@.len()) <= usize::MAX,
            search(spells@, blocks as int, lower as int, upper as int, 0, 1) == search(
                spells@,
                blocks as int,
                low as int,
                high as int,
                old as int,
                length as int,
            ),
        decreases high - low, steps_left(low as int, high as int, old as int, length as int),
    {
        old = length;
        length = low + (high - low) / 2;
        proof {
            lemma_blocks_in(spells@, length as int, upper as int, spells@.len(), spells@.len());
        }
        let needed = calculate_blocks_in_wall(spells, length);
        if needed > blocks {
            high = length;
        } else if needed == blocks {
            return length;
        } else {
            low = length;
        }
    }
    length
}

} // verus!
