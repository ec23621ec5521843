//! Fishbone swords: a spine of numbers, each with room for one number to its left
//! and one to its right.

use crate::text::{
    all_unsigned, fields, lemma_fields_nonempty, parse_usize, parse_usize_list, split_fields,
    unsigned_of, unsigned_values, views,
};
use vstd::prelude::*;

verus! {

/// A sword: its number, its spine from the top, and for each segment of the spine the
/// number to its left and the number to its right, where there is one.
pub struct Sword {
    pub id: usize,
    pub spine: Vec<usize>,
    pub left: Vec<Option<usize>>,
    pub right: Vec<Option<usize>>,
}

/// What a sword is.
pub struct Fishbone {
    pub id: usize,
    pub spine: Seq<usize>,
    pub left: Seq<Option<usize>>,
    pub right: Seq<Option<usize>>,
}

impl View for Sword {
    type V = Fishbone;

    open spec fn view(&self) -> Fishbone {
        Fishbone { id: self.id, spine: self.spine@, left: self.left@, right: self.right@ }
    }
}

/// Whether segment `k` has room at the given side for `v`: the place is free, and the
/// spine there is larger than `v` on the left side, smaller on the right side.
pub open spec fn takes(side: Seq<Option<usize>>, spine: Seq<usize>, v: usize, on_left: bool, k: int) -> bool {
    side[k] is None && (if on_left {
        spine[k] > v
    } else {
        spine[k] < v
    })
}

/// The first segment from `from` on that has room for `v`, or the length of the spine
/// if there is none.
pub open spec fn first_slot(
    side: Seq<Option<usize>>,
    spine: Seq<usize>,
    v: usize,
    on_left: bool,
    from: int,
) -> int
    decreases spine.len() - from,
{
    if from >= spine.len() {
        spine.len() as int
    } else if takes(side, spine, v, on_left, from) {
        from
    } else {
        first_slot(side, spine, v, on_left, from + 1)
    }
}

impl Fishbone {
    /// Every segment of the spine has its two places.
    pub open spec fn wf(self) -> bool {
        self.left.len() == self.spine.len() && self.right.len() == self.spine.len()
    }

    /// The sword with one more segment `v` at the end of the spine.
    pub open spec fn pushed(self, v: usize) -> Fishbone {
        Fishbone {
            spine: self.spine.push(v),
            left: self.left.push(None),
            right: self.right.push(None),
            ..self
        }
    }

    /// The sword with `v` put in its place. A number smaller than the last segment goes
    /// to the left of the first segment from the top that is larger and has that place
    /// free; a number larger than the last segment goes to the right of the first
    /// segment that is smaller and has that place free. A number that finds no place, or
    /// equals the last segment, becomes a new segment.
    pub open spec fn placed(self, v: usize) -> Fishbone {
        if self.spine.len() == 0 || v == self.spine.last() {
            self.pushed(v)
        } else if v < self.spine.last() {
            let p = first_slot(self.left, self.spine, v, true, 0);
            if p < self.spine.len() {
                Fishbone { left: self.left.update(p, Some(v)), ..self }
            } else {
                self.pushed(v)
            }
        } else {
            let p = first_slot(self.right, self.spine, v, false, 0);
            if p < self.spine.len() {
                Fishbone { right: self.right.update(p, Some(v)), ..self }
            } else {
                self.pushed(v)
            }
        }
    }

    /// The sword after the first `k` of `numbers` were put in: the first one as a
    /// segment, each further one in its place.
    pub open spec fn built(self, numbers: Seq<usize>, k: nat) -> Fishbone
        decreases k,
    {
        if k == 0 {
            self
        } else if k == 1 {
            self.pushed(numbers[0])
        } else {
            self.built(numbers, (k - 1) as nat).placed(numbers[k - 1])
        }
    }
}

/// `first_slot` finds the first segment with room, and none before it has room.
pub proof fn lemma_first_slot(
    side: Seq<Option<usize>>,
    spine: Seq<usize>,
    v: usize,
    on_left: bool,
    from: int,
)
    requires
        0 <= from <= spine.len(),
    ensures
        from <= first_slot(side, spine, v, on_left, from) <= spine.len(),
        first_slot(side, spine, v, on_left, from) < spine.len() ==> takes(
            side,
            spine,
            v,
            on_left,
            first_slot(side, spine, v, on_left, from),
        ),
        forall|k: int|
            from <= k < first_slot(side, spine, v, on_left, from) ==> !takes(
                side,
                spine,
                v,
                on_left,
                k,
            ),
    decreases spine.len() - from,
{
    if from < spine.len() && !takes(side, spine, v, on_left, from) {
        lemma_first_slot(side, spine, v, on_left, from + 1);
    }
}

/// Putting a number in keeps the sword well formed and the spine non-empty.
pub proof fn lemma_built_wf(f: Fishbone, numbers: Seq<usize>, k: nat)
    requires
        f.wf(),
    ensures
        f.built(numbers, k).wf(),
        k >= 1 ==> f.built(numbers, k).spine.len() >= 1,
        f.built(numbers, k).id == f.id,
    decreases k,
{
    if k > 1 {
        lemma_built_wf(f, numbers, (k - 1) as nat);
        let b = f.built(numbers, (k - 1) as nat);
        let v = numbers[k - 1];
        lemma_first_slot(b.left, b.spine, v, true, 0);
        lemma_first_slot(b.right, b.spine, v, false, 0);
    }
}

impl Sword {
    /// A sword without segments.
    pub fn new(id: usize) -> (sword: Sword)
        ensures
            sword@ == (Fishbone {
                id,
                spine: Seq::empty(),
                left: Seq::empty(),
                right: Seq::empty(),
            }),
            sword@.wf(),
    {
        Sword { id, spine: Vec::new(), left: Vec::new(), right: Vec::new() }
    }

    /// Adds `value` as a new segment at the end of the spine.
    pub fn push_to_spine(&mut self, value: usize)
        ensures
            final(self)@ == old(self)@.pushed(value),
    {
        self.spine.push(value);
        self.left.push(None);
        self.right.push(None);
    }

    /// The first segment that has room for `value` at the given side, if there is one.
    fn find_slot(&self, value: usize, on_left: bool) -> (slot: Option<usize>)
        requires
            self@.wf(),
        ensures
            slot matches Some(p) ==> p == first_slot(
                if on_left {
                    self.left@
                } else {
                    self.right@
                },
                self.spine@,
                value,
                on_left,
                0,
            ) && p < self.spine@.len(),
            slot is None ==> first_slot(
                if on_left {
                    self.left@
                } else {
                    self.right@
                },
                self.spine@,
                value,
                on_left,
                0,
            ) == self.spine@.len(),
    {
        let ghost side = if on_left {
            self.left@
        } else {
            self.right@
        };
        let mut pos: usize = 0;
        while pos < self.spine.len()
            invariant
                pos <= self.spine@.len(),
                self@.wf(),
                side == (if on_left {
                    self.left@
                } else {
                    self.right@
                }),
                first_slot(side, self.spine@, value, on_left, 0) == first_slot(
                    side,
                    self.spine@,
                    value,
                    on_left,
                    pos as int,
                ),
            decreases self.spine.len() - pos,
        {
            let free = if on_left {
                self.left[pos].is_none()
            } else {
                self.right[pos].is_none()
            };
            let fits = if on_left {
                self.spine[pos] > value
            } else {
                self.spine[pos] < value
            };
            if free && fits {
                return Some(pos);
            }
            pos += 1;
        }
        None
    }

    /// Puts `value` in its place.
    pub fn place(&mut self, value: usize)
        requires
            old(self)@.wf(),
        ensures
            final(self)@ == old(self)@.placed(value),
            final(self)@.wf(),
    {
        let n = self.spine.len();
        if n == 0 || value == self.spine[n - 1] {
            self.push_to_spine(value);
        } else if value < self.spine[n - 1] {
            match self.find_slot(value, true) {
                Some(p) => {
                    self.left.set(p, Some(value));
                },
                None => {
                    self.push_to_spine(value);
                },
            }
        } else {
            match self.find_slot(value, false) {
                Some(p) => {
                    self.right.set(p, Some(value));
                },
                None => {
                    self.push_to_spine(value);
                },
            }
        }
    }

    /// Puts `numbers` into the sword, one after the other: the first one as a segment,
    /// each further one in its place.
    pub fn build_spine(self, numbers: &[usize]) -> (sword: Sword)
        requires
            self@.wf(),
        ensures
            sword@ == self@.built(numbers@, numbers@.len()),
            sword@.wf(),
    {
        let mut sword = self;
        if numbers.len() == 0 {
            return sword;
        }
        sword.push_to_spine(numbers[0]);
        let mut k: usize = 1;
        while k < numbers.len()
            invariant
                1 <= k <= numbers@.len(),
                self@.wf(),
                sword@ == self@.built(numbers@, k as nat),
                sword@.wf(),
            decreases numbers.len() - k,
        {
            sword.place(numbers[k]);
            k += 1;
        }
        sword
    }

    /// Reads the sword's number from a line `number:n,n,...`; the sword has no segments
    /// yet.
    pub fn from_line(line: &[u8]) -> (sword: Sword)
        requires
            unsigned_of(fields(line@, 58)[0]) matches Some(id) && id <= usize::MAX,
        ensures
            sword@ == (Fishbone {
                id: unsigned_of(fields(line@, 58)[0])->0 as usize,
                spine: Seq::empty(),
                left: Seq::empty(),
                right: Seq::empty(),
            }),
            sword@.wf(),
    {
        let parts = split_fields(line, 58);
        assert(views(parts@)[0] == parts@[0]@);
        match parse_usize(parts[0].as_slice()) {
            Some(id) => Sword::new(id),
            None => Sword::new(0),
        }
    }

    /// Reads the numbers from a line `number:n,n,...` and puts them into the sword, one
    /// after the other.
    pub fn construct_spine(self, line: &[u8]) -> (sword: Sword)
        requires
            self@.wf(),
            fields(line@, 58).len() >= 2,
            all_unsigned(fields(fields(line@, 58)[1], 44)),
        ensures
            sword@ == self@.built(
                unsigned_values(fields(fields(line@, 58)[1], 44)),
                fields(fields(line@, 58)[1], 44).len(),
            ),
            sword@.wf(),
            sword@.spine.len() >= 1,
    {
        let parts = split_fields(line, 58);
        assert(views(parts@).len() == parts@.len());
        assert(views(parts@)[1] == parts@[1]@);
        proof {
            lemma_fields_nonempty(fields(line@, 58)[1], 44);
            lemma_built_wf(
                self@,
                unsigned_values(fields(fields(line@, 58)[1], 44)),
                fields(fields(line@, 58)[1], 44).len(),
            );
        }
        match parse_usize_list(parts[1].as_slice(), 44) {
            Some(numbers) => self.build_spine(numbers.as_slice()),
            None => self,
        }
    }
}

/// Ten to the power of `k`.
pub open spec fn pow10(k: nat) -> nat
    decreases k,
{
    if k == 0 {
        1
    } else {
        10 * pow10((k - 1) as nat)
    }
}

/// The number of decimal digits of `n`; 0 has one digit.
pub open spec fn digit_count(n: nat) -> nat
    decreases n,
{
    if n < 10 {
        1
    } else {
        1 + digit_count(n / 10)
    }
}

/// The number written by the digits of `a` followed by the digits of `b`.
pub open spec fn glue(a: nat, b: nat) -> nat {
    a * pow10(digit_count(b)) + b
}

/// The number written by the digits of the first `k` of `parts`, one after the other.
pub open spec fn glue_all(parts: Seq<usize>, k: nat) -> nat
    decreases k,
{
    if k == 0 {
        0
    } else if k == 1 {
        parts[0] as nat
    } else {
        glue(glue_all(parts, (k - 1) as nat), parts[k - 1] as nat)
    }
}

/// The number written across segment `i`: the number to the left, if there is one,
/// the segment, and the number to the right, if there is one.
pub open spec fn level(f: Fishbone, i: int) -> nat {
    let with_left = match f.left[i] {
        Some(l) => glue(l as nat, f.spine[i] as nat),
        None => f.spine[i] as nat,
    };
    match f.right[i] {
        Some(r) => glue(with_left, r as nat),
        None => with_left,
    }
}

/// A power of ten is at least 1.
pub proof fn lemma_pow10_positive(k: nat)
    ensures
        pow10(k) >= 1,
    decreases k,
{
    if k > 0 {
        lemma_pow10_positive((k - 1) as nat);
    }
}

/// Digits in front make a number no smaller.
pub proof fn lemma_glue_grows(a: nat, b: nat)
    ensures
        glue(a, b) >= a,
        glue(a, b) >= b,
{
    lemma_pow10_positive(digit_count(b));
    assert(a * pow10(digit_count(b)) >= a) by (nonlinear_arith)
        requires
            pow10(digit_count(b)) >= 1,
    {
    }
}

/// The number written by the digits of `a` followed by the digits of `b`, if the
/// machine's word holds it.
pub fn glue_numbers(a: usize, b: usize) -> (out: Option<usize>)
    ensures
        out == (if glue(a as nat, b as nat) <= usize::MAX {
            Some(glue(a as nat, b as nat) as usize)
        } else {
            None
        }),
{
    let mut shifted: usize = a;
    let mut rest: usize = b;
    let ghost mut done: nat = 0;
    let ghost all = digit_count(b as nat);
    proof {
        assert(pow10(0) == 1);
        assert(a * 1 == a);
    }
    loop
        invariant_except_break
            shifted == a * pow10(done),
            all == done + digit_count(rest as nat),
        invariant
            all == digit_count(b as nat),
        ensures
            shifted == a * pow10(all),
        decreases rest,
    {
        proof {
            let more = (all - done - 1) as nat;
            assert(digit_count(rest as nat) >= 1);
            lemma_pow10_positive(more);
            lemma_pow10_split(done + 1, more);
            assert(pow10(done + 1) == 10 * pow10(done));
            lemma_glue_grows(a as nat, b as nat);
            assert(a * pow10(all) >= a * pow10(done + 1)) by (nonlinear_arith)
                requires
                    pow10(all) == pow10(done + 1) * pow10(more),
                    pow10(more) >= 1,
                    a >= 0,
                    pow10(done + 1) >= 0,
            {
            }
            assert(a * pow10(done + 1) == a * pow10(done) * 10) by (nonlinear_arith)
                requires
                    pow10(done + 1) == 10 * pow10(done),
            {
            }
        }
        match shifted.checked_mul(10) {
            Some(m) => {
                shifted = m;
            },
            None => {
                return None;
            },
        }
        proof {
            done = done + 1;
        }
        if rest < 10 {
            break ;
        }
        rest = rest / 10;
    }
    shifted.checked_add(b)
}

/// A power of ten with a sum as exponent is the product of the powers.
pub proof fn lemma_pow10_split(j: nat, k: nat)
    ensures
        pow10(j + k) == pow10(j) * pow10(k),
    decreases j,
{
    if j == 0 {
        assert(pow10(0) == 1);
        assert(1 * pow10(k) == pow10(k));
    } else {
        lemma_pow10_split((j - 1) as nat, k);
        assert(pow10(j + k) == 10 * pow10((j - 1 + k) as nat));
        assert(10 * (pow10((j - 1) as nat) * pow10(k)) == (10 * pow10((j - 1) as nat)) * pow10(k))
            by (nonlinear_arith);
    }
}

} // verus!
