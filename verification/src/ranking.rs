//! Scores of fishbone swords, and which of two scores ranks lower.

use crate::sword::{glue_all, glue_numbers, lemma_glue_grows, level, Fishbone, Sword};
use crate::text::{all_unsigned, fields, unsigned_of, unsigned_values};
use std::cmp::Ordering;
use vstd::prelude::*;

verus! {

/// The score of a sword: its number, the number written across each segment from the
/// top, and the number written down the spine.
#[derive(Debug, Hash, PartialEq, Eq)]
pub struct SwordScore {
    pub id: usize,
    pub levels: Vec<usize>,
    pub value: usize,
}

/// The sword that a line `number:n,n,...` describes.
pub open spec fn sword_of_line(line: Seq<u8>) -> Fishbone {
    (Fishbone {
        id: unsigned_of(fields(line, 58)[0])->0 as usize,
        spine: Seq::empty(),
        left: Seq::empty(),
        right: Seq::empty(),
    }).built(
        unsigned_values(fields(fields(line, 58)[1], 44)),
        fields(fields(line, 58)[1], 44).len(),
    )
}

/// Whether a line describes a sword: a number, a colon, and numbers between commas.
pub open spec fn describes_sword(line: Seq<u8>) -> bool {
    &&& unsigned_of(fields(line, 58)[0]) matches Some(id) && id <= usize::MAX
    &&& fields(line, 58).len() >= 2
    &&& all_unsigned(fields(fields(line, 58)[1], 44))
}

/// The index of the first level from `from` on in which the two differ, or the length
/// of the shorter one if there is none.
pub open spec fn first_difference(a: Seq<usize>, b: Seq<usize>, from: int) -> int
    decreases a.len() - from,
{
    if from >= a.len() || from >= b.len() {
        from
    } else if a[from] != b[from] {
        from
    } else {
        first_difference(a, b, from + 1)
    }
}

/// Whether the first score ranks below the second: by the number down the spine;
/// where that is the same, by the first level in which they differ; where they do not
/// differ in a level that both have, by the sword's number.
pub open spec fn ranks_below(
    a_id: usize,
    a_levels: Seq<usize>,
    a_value: usize,
    b_id: usize,
    b_levels: Seq<usize>,
    b_value: usize,
) -> bool {
    a_value < b_value || (a_value == b_value && {
        let d = first_difference(a_levels, b_levels, 0);
        if d < a_levels.len() && d < b_levels.len() {
            a_levels[d] < b_levels[d]
        } else {
            a_id < b_id
        }
    })
}

/// The number written down the first segments is no larger than the number written
/// down all.
pub proof fn lemma_glue_all_grows(parts: Seq<usize>, k: nat, n: nat)
    requires
        k <= n,
    ensures
        glue_all(parts, k) <= glue_all(parts, n) || k == 0,
    decreases n - k,
{
    if k < n && k > 0 {
        lemma_glue_all_grows(parts, k + 1, n);
        lemma_glue_grows(glue_all(parts, k), parts[k as int] as nat);
    }
}

impl SwordScore {
    /// The score of `sword`, with `value` as the number down the spine.
    pub fn from_sword(sword: Sword, value: usize) -> (score: SwordScore)
        requires
            sword@.wf(),
            forall|i: int| 0 <= i < sword@.spine.len() ==> #[trigger] level(sword@, i) <= usize::MAX,
        ensures
            score.id == sword.id,
            score.value == value,
            score.levels@.len() == sword@.spine.len(),
            forall|i: int|
                0 <= i < sword@.spine.len() ==> #[trigger] score.levels@[i] == level(sword@, i),
    {
        let mut levels: Vec<usize> = Vec::new();
        let mut i: usize = 0;
        while i < sword.spine.len()
            invariant
                i <= sword@.spine.len(),
                sword@.wf(),
                forall|k: int|
                    0 <= k < sword@.spine.len() ==> #[trigger] level(sword@, k) <= usize::MAX,
                levels@.len() == i,
                forall|k: int| 0 <= k < i ==> #[trigger] levels@[k] == level(sword@, k),
            decreases sword.spine.len() - i,
        {
            assert(level(sword@, i as int) <= usize::MAX);
            let middle = sword.spine[i];
            let with_left = match sword.left[i] {
                Some(l) => {
                    proof {
                        lemma_glue_grows(l as nat, middle as nat);
                        if sword@.right[i as int] is Some {
                            lemma_glue_grows(
                                crate::sword::glue(l as nat, middle as nat),
                                sword@.right[i as int]->0 as nat,
                            );
                        }
                    }
                    glue_numbers(l, middle).unwrap()
                },
                None => middle,
            };
            let all = match sword.right[i] {
                Some(r) => glue_numbers(with_left, r).unwrap(),
                None => with_left,
            };
            levels.push(all);
            i += 1;
        }
        SwordScore { id: sword.id, levels, value }
    }
}

/// Reads a sword from a line `number:n,n,...`, and the number written down its spine.
pub fn get_sword_and_value_from_line(line: &[u8]) -> (out: (Sword, usize))
    requires
        describes_sword(line@),
        glue_all(sword_of_line(line@).spine, sword_of_line(line@).spine.len()) <= usize::MAX,
    ensures
        out.0@ == sword_of_line(line@),
        out.0@.wf(),
        out.1 == glue_all(out.0@.spine, out.0@.spine.len()),
{
    let sword = Sword::from_line(line);
    let sword = sword.construct_spine(line);
    let mut value: usize = sword.spine[0];
    let mut k: usize = 1;
    while k < sword.spine.len()
        invariant
            1 <= k <= sword@.spine.len(),
            glue_all(sword@.spine, sword@.spine.len()) <= usize::MAX,
            value == glue_all(sword@.spine, k as nat),
        decreases sword.spine.len() - k,
    {
        proof {
            lemma_glue_all_grows(sword@.spine, (k + 1) as nat, sword@.spine.len());
        }
        value = glue_numbers(value, sword.spine[k]).unwrap();
        k += 1;
    }
    (sword, value)
}

/// Which of two scores ranks lower. Two scores never rank the same: where nothing
/// else tells them apart, the second one ranks lower.
pub fn compare_sword_scores(a: &SwordScore, b: &SwordScore) -> (order: Ordering)
    ensures
        order == (if ranks_below(a.id, a.levels@, a.value, b.id, b.levels@, b.value) {
            Ordering::Less
        } else {
            Ordering::Greater
        }),
{
    if a.value < b.value {
        return Ordering::Less;
    }
    if a.value == b.value {
        let length_a = a.levels.len();
        let length_b = b.levels.len();
        let length = if length_a <= length_b {
            length_a
        } else {
            length_b
        };
        let mut i: usize = 0;
        while i < length
            invariant
                i <= length,
                a.value == b.value,
                length <= a.levels@.len(),
                length <= b.levels@.len(),
                length == a.levels@.len() || length == b.levels@.len(),
                first_difference(a.levels@, b.levels@, 0) == first_difference(
                    a.levels@,
                    b.levels@,
                    i + 0,
                ),
            decreases length - i,
        {
            if a.levels[i] < b.levels[i] {
                return Ordering::Less;
            }
            if a.levels[i] > b.levels[i] {
                return Ordering::Greater;
            }
            i += 1;
        }
        if a.id < b.id {
            Ordering::Less
        } else {
            Ordering::Greater
        }
    } else {
        Ordering::Greater
    }
}

} // verus!
