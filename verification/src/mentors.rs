//! A line of people, each a letter: a capital letter is a mentor, the same letter in
//! lower case an apprentice of that mentor's kind.

use vstd::prelude::*;

verus! {

/// The capital letter that std gives for `c`: the first character of
/// `char::to_uppercase`.
pub uninterp spec fn upper_of(c: char) -> char;

/// Asks `char::to_uppercase` of std for the capital letter of `c` and takes its first
/// character; std always gives one to three characters. Nothing is proved of it: the
/// result is what std's tables hold for `c`.
#[verifier::external_body]
fn to_upper(c: char) -> (u: char)
    ensures
        u == upper_of(c),
{
    c.to_uppercase().next().unwrap_or(c)
}

/// The places in the line at which each letter stands.
pub struct CharMap {
    pub letters: Vec<char>,
    pub places: Vec<Vec<usize>>,
}

/// The places among the first `k` of `line` at which `c` stands, from the front.
pub open spec fn places_of(line: Seq<char>, c: char, k: nat) -> Seq<usize>
    decreases k,
{
    if k == 0 {
        Seq::empty()
    } else {
        let before = places_of(line, c, (k - 1) as nat);
        if line[k - 1] == c {
            before.push((k - 1) as usize)
        } else {
            before
        }
    }
}

impl CharMap {
    /// Each letter is listed once, with its places.
    pub open spec fn wf(&self) -> bool {
        self.letters@.len() == self.places@.len() && self.letters@.no_duplicates()
    }

    /// Whether the map holds `c`.
    pub open spec fn has(&self, c: char) -> bool {
        self.letters@.contains(c)
    }

    /// The places of `c`; none if the map does not hold it.
    pub open spec fn at(&self, c: char) -> Seq<usize> {
        if self.has(c) {
            self.places@[self.letters@.index_of(c)]@
        } else {
            Seq::empty()
        }
    }

    /// The map of the first `k` people of `line`.
    pub open spec fn maps(&self, line: Seq<char>, k: nat) -> bool {
        &&& self.wf()
        &&& forall|c: char| #[trigger] self.has(c) <==> places_of(line, c, k).len() > 0
        &&& forall|c: char| self.has(c) ==> #[trigger] self.at(c) == places_of(line, c, k)
    }

    /// Where `c` is listed, if it is.
    pub fn find(&self, c: char) -> (slot: Option<usize>)
        requires
            self.wf(),
        ensures
            slot is Some <==> self.has(c),
            slot matches Some(i) ==> i < self.letters@.len() && self.letters@[i as int] == c
                && self.at(c) == self.places@[i as int]@,
    {
        let mut i: usize = 0;
        while i < self.letters.len()
            invariant
                i <= self.letters@.len(),
                self.wf(),
                forall|k: int| 0 <= k < i ==> self.letters@[k] != c,
            decreases self.letters.len() - i,
        {
            if self.letters[i] == c {
                proof {
                    assert(self.letters@.contains(c));
                    let j = self.letters@.index_of(c);
                    assert(self.letters@[j] == c);
                    assert(j == i);
                }
                return Some(i);
            }
            i += 1;
        }
        None
    }
}

/// The places of a letter stand in ascending order and within the line looked at.
pub proof fn lemma_places_of(line: Seq<char>, c: char, k: nat)
    requires
        k <= line.len(),
        k <= usize::MAX,
    ensures
        forall|i: int|
            0 <= i < places_of(line, c, k).len() ==> (#[trigger] places_of(line, c, k)[i]) < k
                && line[places_of(line, c, k)[i] as int] == c,
        forall|i: int, j: int|
            0 <= i < j < places_of(line, c, k).len() ==> (#[trigger] places_of(line, c, k)[i]) < (
            #[trigger] places_of(line, c, k)[j]),
        places_of(line, c, k).len() <= k,
    decreases k,
{
    if k > 0 {
        lemma_places_of(line, c, (k - 1) as nat);
        let before = places_of(line, c, (k - 1) as nat);
        let now = places_of(line, c, k);
        assert forall|i: int| 0 <= i < now.len() implies (#[trigger] now[i]) < k && line[now[i] as int]
            == c by {
            if i < before.len() {
                assert(before[i] < k - 1);
            }
        }
        assert forall|i: int, j: int| 0 <= i < j < now.len() implies (#[trigger] now[i]) < (
        #[trigger] now[j]) by {
            if j < before.len() {
                assert(before[i] < before[j]);
            } else {
                assert(before[i] < k - 1);
            }
        }
    }
}

/// The places in `line` at which each letter stands.
pub fn collect_char_map(line: &[char]) -> (map: CharMap)
    ensures
        map.maps(line@, line@.len()),
        forall|c: char| ascending(#[trigger] map.at(c)),
{
    let mut map = CharMap { letters: Vec::new(), places: Vec::new() };
    let mut i: usize = 0;
    assert forall|c: char| #[trigger] map.has(c) <==> places_of(line@, c, 0).len() > 0 by {}
    while i < line.len()
        invariant
            i <= line@.len(),
            map.maps(line@, i as nat),
        decreases line.len() - i,
    {
        let c = line[i];
        let ghost before = map;
        match map.find(c) {
            Some(slot) => {
                let mut list: Vec<usize> = Vec::new();
                std::mem::swap(&mut list, &mut map.places[slot]);
                list.push(i);
                map.places.set(slot, list);
                proof {
                    assert(map.letters@ == before.letters@);
                    assert forall|x: char| map.has(x) implies #[trigger] map.at(x) == places_of(
                        line@,
                        x,
                        (i + 1) as nat,
                    ) by {
                        let j = map.letters@.index_of(x);
                        assert(before.has(x));
                        assert(before.at(x) == places_of(line@, x, i as nat));
                        if x == c {
                            assert(j == slot);
                        } else {
                            assert(j != slot);
                        }
                    }
                    assert forall|x: char| #[trigger]
                        map.has(x) <==> places_of(line@, x, (i + 1) as nat).len() > 0 by {
                        assert(before.has(x) <==> places_of(line@, x, i as nat).len() > 0);
                    }
                }
            },
            None => {
                let mut list: Vec<usize> = Vec::new();
                list.push(i);
                map.letters.push(c);
                map.places.push(list);
                proof {
                    assert(places_of(line@, c, i as nat).len() == 0) by {
                        assert(before.has(c) <==> places_of(line@, c, i as nat).len() > 0);
                    }
                    assert(places_of(line@, c, (i + 1) as nat) =~= seq![i]);
                    assert(map.letters@.no_duplicates());
                    assert forall|x: char| #[trigger]
                        map.has(x) <==> places_of(line@, x, (i + 1) as nat).len() > 0 by {
                        assert(before.has(x) <==> places_of(line@, x, i as nat).len() > 0);
                        if before.has(x) {
                            let j = before.letters@.index_of(x);
                            assert(map.letters@[j] == x);
                        }
                        if x == c {
                            assert(map.letters@[before.letters@.len() as int] == c);
                        }
                        if map.has(x) && x != c {
                            let j = map.letters@.index_of(x);
                            assert(before.letters@[j] == x);
                        }
                    }
                    assert forall|x: char| map.has(x) implies #[trigger] map.at(x) == places_of(
                        line@,
                        x,
                        (i + 1) as nat,
                    ) by {
                        let j = map.letters@.index_of(x);
                        if x == c {
                            assert(map.letters@[before.letters@.len() as int] == c);
                            assert(j == before.letters@.len());
                        } else {
                            assert(before.letters@[j] == x);
                            assert(before.has(x));
                            assert(before.letters@.index_of(x) == j);
                            assert(before.at(x) == places_of(line@, x, i as nat));
                        }
                    }
                }
            },
        }
        i += 1;
    }
    proof {
        assert forall|c: char| ascending(#[trigger] map.at(c)) by {
            if map.has(c) {
                lemma_places_of(line@, c, line@.len());
            }
        }
    }
    map
}

/// Strictly ascending order.
pub open spec fn ascending(s: Seq<usize>) -> bool {
    forall|i: int, j: int| 0 <= i < j < s.len() ==> #[trigger] s[i] < #[trigger] s[j]
}

/// How many of the first `k` mentors stand before place `p`.
pub open spec fn below(mentors: Seq<usize>, p: usize, k: nat) -> nat
    decreases k,
{
    if k == 0 {
        0
    } else {
        below(mentors, p, (k - 1) as nat) + (if mentors[k - 1] < p {
            1nat
        } else {
            0nat
        })
    }
}

/// The pairs of one of the first `k` apprentices and a mentor who stands before him.
pub open spec fn pairs_before(apprentices: Seq<usize>, mentors: Seq<usize>, k: nat) -> nat
    decreases k,
{
    if k == 0 {
        0
    } else {
        pairs_before(apprentices, mentors, (k - 1) as nat) + below(
            mentors,
            apprentices[k - 1],
            mentors.len(),
        )
    }
}

/// Whether places `a` and `m` are at most `d` apart.
pub open spec fn near(a: usize, m: usize, d: isize) -> bool {
    (if a >= m {
        a - m
    } else {
        m - a
    }) <= d
}

/// How many of the first `k` mentors stand at most `d` from place `a`.
pub open spec fn around(mentors: Seq<usize>, a: usize, d: isize, k: nat) -> nat
    decreases k,
{
    if k == 0 {
        0
    } else {
        around(mentors, a, d, (k - 1) as nat) + (if near(a, mentors[k - 1], d) {
            1nat
        } else {
            0nat
        })
    }
}

/// The pairs of one of the first `k` apprentices and a mentor at most `d` from him.
pub open spec fn pairs_near(apprentices: Seq<usize>, mentors: Seq<usize>, d: isize, k: nat) -> nat
    decreases k,
{
    if k == 0 {
        0
    } else {
        pairs_near(apprentices, mentors, d, (k - 1) as nat) + around(
            mentors,
            apprentices[k - 1],
            d,
            mentors.len(),
        )
    }
}

/// In ascending order the mentors before a place are those before the first one that
/// is not.
pub proof fn lemma_below_split(mentors: Seq<usize>, p: usize, t: int, k: nat)
    requires
        0 <= t <= mentors.len(),
        k <= mentors.len(),
        forall|i: int| 0 <= i < t ==> mentors[i] < p,
        forall|i: int| t <= i < mentors.len() ==> mentors[i] >= p,
    ensures
        below(mentors, p, k) == (if k <= t {
            k as int
        } else {
            t
        }),
    decreases k,
{
    if k > 0 {
        lemma_below_split(mentors, p, t, (k - 1) as nat);
    }
}

/// Counting grows with the number counted.
pub proof fn lemma_counts_grow(
    apprentices: Seq<usize>,
    mentors: Seq<usize>,
    d: isize,
    a: usize,
    k: nat,
    n: nat,
)
    requires
        k <= n,
    ensures
        pairs_before(apprentices, mentors, k) <= pairs_before(apprentices, mentors, n),
        pairs_near(apprentices, mentors, d, k) <= pairs_near(apprentices, mentors, d, n),
        around(mentors, a, d, k) <= around(mentors, a, d, n),
    decreases n - k,
{
    if k < n {
        lemma_counts_grow(apprentices, mentors, d, a, k, (n - 1) as nat);
    }
}

/// How many of the mentors stand before place `p`, found by halving.
pub fn rank(mentors: &[usize], p: usize) -> (count: usize)
    requires
        ascending(mentors@),
    ensures
        count == below(mentors@, p, mentors@.len()),
{
    let mut lo: usize = 0;
    let mut hi: usize = mentors.len();
    while lo < hi
        invariant
            lo <= hi <= mentors@.len(),
            ascending(mentors@),
            forall|i: int| 0 <= i < lo ==> mentors@[i] < p,
            forall|i: int| hi <= i < mentors@.len() ==> mentors@[i] >= p,
        decreases hi - lo,
    {
        let mid = lo + (hi - lo) / 2;
        if mentors[mid] < p {
            assert forall|i: int| 0 <= i < mid + 1 implies mentors@[i] < p by {
                if i < mid {
                    assert(mentors@[i] < mentors@[mid as int]);
                }
            }
            lo = mid + 1;
        } else {
            assert forall|i: int| mid <= i < mentors@.len() implies mentors@[i] >= p by {
                if i > mid {
                    assert(mentors@[mid as int] < mentors@[i]);
                }
            }
            hi = mid;
        }
    }
    proof {
        lemma_below_split(mentors@, p, lo as int, mentors@.len());
    }
    lo
}

/// The number of pairs of an apprentice of kind `char_type` and a mentor of his kind
/// who stands before him in the line.
pub fn count_possible_mentors(char_map: &CharMap, char_type: char) -> (count: usize)
    requires
        char_map.wf(),
        char_map.has(char_type),
        char_map.has(upper_of(char_type)),
        ascending(char_map.at(upper_of(char_type))),
        pairs_before(
            char_map.at(char_type),
            char_map.at(upper_of(char_type)),
            char_map.at(char_type).len(),
        ) <= usize::MAX,
    ensures
        count == pairs_before(
            char_map.at(char_type),
            char_map.at(upper_of(char_type)),
            char_map.at(char_type).len(),
        ),
{
    let mentor_char = to_upper(char_type);
    let a = char_map.find(char_type).unwrap();
    let m = char_map.find(mentor_char).unwrap();
    let apprentices = &char_map.places[a];
    let mentors = &char_map.places[m];
    let mut counts: usize = 0;
    let mut k: usize = 0;
    while k < apprentices.len()
        invariant
            k <= apprentices@.len(),
            ascending(mentors@),
            pairs_before(apprentices@, mentors@, apprentices@.len()) <= usize::MAX,
            counts == pairs_before(apprentices@, mentors@, k as nat),
        decreases apprentices.len() - k,
    {
        proof {
            lemma_counts_grow(apprentices@, mentors@, 0, 0, (k + 1) as nat, apprentices@.len());
        }
        counts = counts + rank(mentors.as_slice(), apprentices[k]);
        k += 1;
    }
    counts
}

/// The number of pairs of an apprentice of kind `char_type` and a mentor of his kind
/// who stands at most `max_distance` places from him, on either side. Without such
/// apprentices or such mentors in the line there are none.
pub fn count_possible_mentors_distance_wise(
    char_map: &CharMap,
    char_type: char,
    max_distance: isize,
) -> (count: usize)
    requires
        char_map.wf(),
        pairs_near(
            char_map.at(char_type),
            char_map.at(upper_of(char_type)),
            max_distance,
            char_map.at(char_type).len(),
        ) <= usize::MAX,
    ensures
        count == pairs_near(
            char_map.at(char_type),
            char_map.at(upper_of(char_type)),
            max_distance,
            char_map.at(char_type).len(),
        ),
{
    let mentor_char = to_upper(char_type);
    let (a, m) = match (char_map.find(char_type), char_map.find(mentor_char)) {
        (Some(a), Some(m)) => (a, m),
        _ => {
            proof {
                lemma_no_pairs(
                    char_map.at(char_type),
                    char_map.at(upper_of(char_type)),
                    max_distance,
                    char_map.at(char_type).len(),
                );
            }
            return 0;
        },
    };
    let apprentices = &char_map.places[a];
    let mentors = &char_map.places[m];
    let mut count: usize = 0;
    let mut k: usize = 0;
    while k < apprentices.len()
        invariant
            k <= apprentices@.len(),
            pairs_near(apprentices@, mentors@, max_distance, apprentices@.len()) <= usize::MAX,
            count == pairs_near(apprentices@, mentors@, max_distance, k as nat),
        decreases apprentices.len() - k,
    {
        let pos_ap = apprentices[k];
        proof {
            lemma_counts_grow(
                apprentices@,
                mentors@,
                max_distance,
                pos_ap,
                (k + 1) as nat,
                apprentices@.len(),
            );
        }
        let ghost start = count;
        let mut j: usize = 0;
        while j < mentors.len()
            invariant
                j <= mentors@.len(),
                k < apprentices@.len(),
                pos_ap == apprentices@[k as int],
                start == pairs_near(apprentices@, mentors@, max_distance, k as nat),
                start + around(mentors@, pos_ap, max_distance, mentors@.len()) <= usize::MAX,
                count == start + around(mentors@, pos_ap, max_distance, j as nat),
            decreases mentors.len() - j,
        {
            proof {
                lemma_counts_grow(
                    apprentices@,
                    mentors@,
                    max_distance,
                    pos_ap,
                    (j + 1) as nat,
                    mentors@.len(),
                );
            }
            let pos_men = mentors[j];
            let gap: usize = if pos_ap >= pos_men {
                pos_ap - pos_men
            } else {
                pos_men - pos_ap
            };
            if max_distance >= 0 && gap <= max_distance as usize {
                count = count + 1;
            }
            j += 1;
        }
        k += 1;
    }
    count
}

/// There are no more pairs than apprentices times mentors.
pub proof fn lemma_pairs_bound(apprentices: Seq<usize>, mentors: Seq<usize>, d: isize, k: nat)
    requires
        k <= apprentices.len(),
    ensures
        pairs_before(apprentices, mentors, k) <= k * mentors.len(),
        pairs_near(apprentices, mentors, d, k) <= k * mentors.len(),
    decreases k,
{
    if k > 0 {
        lemma_pairs_bound(apprentices, mentors, d, (k - 1) as nat);
        let a = apprentices[k - 1];
        lemma_count_bound(mentors, a, d, mentors.len());
        assert(k * mentors.len() == (k - 1) * mentors.len() + mentors.len()) by (nonlinear_arith);
    }
}

/// No more mentors are counted than looked at.
pub proof fn lemma_count_bound(mentors: Seq<usize>, a: usize, d: isize, k: nat)
    ensures
        below(mentors, a, k) <= k,
        around(mentors, a, d, k) <= k,
    decreases k,
{
    if k > 0 {
        lemma_count_bound(mentors, a, d, (k - 1) as nat);
    }
}

/// Whether `v` is in strictly ascending order.
pub fn is_ascending(v: &[usize]) -> (ok: bool)
    ensures
        ok == ascending(v@),
{
    let mut k: usize = 1;
    while k < v.len()
        invariant
            1 <= k,
            forall|i: int, j: int| 0 <= i < j < k && j < v@.len() ==> v@[i] < v@[j],
        decreases v.len() - k,
    {
        if v[k - 1] >= v[k] {
            return false;
        }
        assert forall|i: int, j: int| 0 <= i < j < k + 1 && j < v@.len() implies v@[i] < v@[j] by {
            if j == k && i < k - 1 {
                assert(v@[i] < v@[k - 1]);
            }
        }
        k += 1;
    }
    true
}

/// The number of pairs of an apprentice of kind `char_type` and a mentor of his kind
/// who stands before him, where the line holds both kinds, the mentors' places are in
/// ascending order, and the machine's word can hold as many pairs as there are
/// apprentices times mentors; else none.
pub fn mentors_before(char_map: &CharMap, char_type: char) -> (count: Option<usize>)
    requires
        char_map.wf(),
    ensures
        count matches Some(n) ==> n == pairs_before(
            char_map.at(char_type),
            char_map.at(upper_of(char_type)),
            char_map.at(char_type).len(),
        ),
        count is Some <==> char_map.has(char_type) && char_map.has(upper_of(char_type))
            && ascending(char_map.at(upper_of(char_type))) && char_map.at(char_type).len()
            * char_map.at(upper_of(char_type)).len() <= usize::MAX,
{
    let mentor_char = to_upper(char_type);
    match (char_map.find(char_type), char_map.find(mentor_char)) {
        (Some(a), Some(m)) => {
            if !is_ascending(char_map.places[m].as_slice()) {
                return None;
            }
            match char_map.places[a].len().checked_mul(char_map.places[m].len()) {
                Some(_) => {
                    proof {
                        lemma_pairs_bound(
                            char_map.at(char_type),
                            char_map.at(upper_of(char_type)),
                            0,
                            char_map.at(char_type).len(),
                        );
                    }
                    Some(count_possible_mentors(char_map, char_type))
                },
                None => None,
            }
        },
        _ => None,
    }
}

/// The number of pairs of an apprentice of kind `char_type` and a mentor of his kind
/// at most `max_distance` places from him, where the machine's word can hold as many
/// pairs as there are apprentices times mentors; else none.
pub fn mentors_near(char_map: &CharMap, char_type: char, max_distance: isize) -> (count: Option<
    usize,
>)
    requires
        char_map.wf(),
    ensures
        count matches Some(n) ==> n == pairs_near(
            char_map.at(char_type),
            char_map.at(upper_of(char_type)),
            max_distance,
            char_map.at(char_type).len(),
        ),
        count is Some <==> char_map.at(char_type).len() * char_map.at(upper_of(char_type)).len()
            <= usize::MAX,
{
    let mentor_char = to_upper(char_type);
    let fits = match (char_map.find(char_type), char_map.find(mentor_char)) {
        (Some(a), Some(m)) => char_map.places[a].len().checked_mul(
            char_map.places[m].len(),
        ).is_some(),
        _ => {
            assert(char_map.at(char_type).len() * char_map.at(upper_of(char_type)).len() == 0)
                by (nonlinear_arith)
                requires
                    char_map.at(char_type).len() == 0 || char_map.at(upper_of(char_type)).len()
                        == 0,
            {
            }
            true
        },
    };
    if fits {
        proof {
            lemma_pairs_bound(
                char_map.at(char_type),
                char_map.at(upper_of(char_type)),
                max_distance,
                char_map.at(char_type).len(),
            );
        }
        Some(count_possible_mentors_distance_wise(char_map, char_type, max_distance))
    } else {
        None
    }
}

/// Without apprentices or without mentors there are no pairs.
pub proof fn lemma_no_pairs(apprentices: Seq<usize>, mentors: Seq<usize>, d: isize, k: nat)
    requires
        apprentices.len() == 0 || mentors.len() == 0,
        k <= apprentices.len(),
    ensures
        pairs_near(apprentices, mentors, d, k) == 0,
    decreases k,
{
    if k > 0 {
        lemma_no_pairs(apprentices, mentors, d, (k - 1) as nat);
    }
}

} // verus!
