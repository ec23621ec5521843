//! Crates that go into each other: the sizes that occur, their sums, and how often the
//! most frequent size occurs.

use vstd::prelude::*;

verus! {

/// Strictly ascending order.
pub open spec fn rising(s: Seq<isize>) -> bool {
    forall|i: int, j: int| 0 <= i < j < s.len() ==> #[trigger] s[i] < #[trigger] s[j]
}

/// The sum of the first `k` sizes.
pub open spec fn sum_first(s: Seq<isize>, k: nat) -> int
    decreases k,
{
    if k == 0 {
        0
    } else {
        sum_first(s, (k - 1) as nat) + s[k - 1]
    }
}

/// Whether the machine's signed word holds the sum of the first sizes, for each number
/// of them up to `k`.
pub open spec fn sums_fit(s: Seq<isize>, k: nat) -> bool {
    forall|j: nat| j <= k ==> isize::MIN <= #[trigger] sum_first(s, j) <= isize::MAX
}

/// How often `v` occurs among the first `k` sizes.
pub open spec fn count_of(s: Seq<isize>, v: isize, k: nat) -> nat
    decreases k,
{
    if k == 0 {
        0
    } else {
        count_of(s, v, (k - 1) as nat) + (if s[k - 1] == v {
            1nat
        } else {
            0nat
        })
    }
}

/// The first index from `from` on at which `s` holds a size that is no smaller than
/// `v`, or the length of `s` if it holds none from there on.
pub open spec fn place(s: Seq<isize>, v: isize, from: int) -> int
    decreases s.len() - from,
{
    if from >= s.len() || s[from] >= v {
        from
    } else {
        place(s, v, from + 1)
    }
}

/// The ascending sizes `s` with `v` in its place, if it is not there yet.
pub open spec fn put(s: Seq<isize>, v: isize) -> Seq<isize> {
    let p = place(s, v, 0);
    if p < s.len() && s[p] == v {
        s
    } else {
        s.insert(p, v)
    }
}

/// The sizes that occur among the first `k` numbers, each once, in ascending order.
pub open spec fn sizes_of(numbers: Seq<isize>, k: nat) -> Seq<isize>
    decreases k,
{
    if k == 0 {
        Seq::empty()
    } else {
        put(sizes_of(numbers, (k - 1) as nat), numbers[k - 1])
    }
}

/// `place` finds the first size that is no smaller, and every size before it is
/// smaller.
pub proof fn lemma_place(s: Seq<isize>, v: isize, from: int)
    requires
        0 <= from <= s.len(),
    ensures
        from <= place(s, v, from) <= s.len(),
        place(s, v, from) < s.len() ==> s[place(s, v, from)] >= v,
        forall|k: int| from <= k < place(s, v, from) ==> s[k] < v,
    decreases s.len() - from,
{
    if from < s.len() && s[from] < v {
        lemma_place(s, v, from + 1);
    }
}

/// Putting a size into ascending sizes leaves them ascending, and adds that size and
/// no other.
pub proof fn lemma_put(s: Seq<isize>, v: isize)
    requires
        rising(s),
    ensures
        rising(put(s, v)),
        forall|x: isize| #[trigger] put(s, v).contains(x) <==> x == v || s.contains(x),
{
    lemma_place(s, v, 0);
    let p = place(s, v, 0);
    let out = put(s, v);
    if p < s.len() && s[p] == v {
        assert(s.contains(v));
    } else {
        assert forall|a: int, b: int| 0 <= a < b < out.len() implies #[trigger] out[a]
            < #[trigger] out[b] by {
            let sa = if a < p {
                a
            } else {
                a - 1
            };
            let sb = if b < p {
                b
            } else {
                b - 1
            };
            if a != p && b != p {
                assert(s[sa] < s[sb]);
            } else if a == p {
                if sb > p {
                    assert(s[p] < s[sb]);
                }
            }
        }
        assert forall|x: isize| #[trigger] out.contains(x) <==> x == v || s.contains(x) by {
            if out.contains(x) {
                let k = choose|k: int| 0 <= k < out.len() && out[k] == x;
                if k != p {
                    let sk = if k < p {
                        k
                    } else {
                        k - 1
                    };
                    assert(s[sk] == x);
                }
            }
            if s.contains(x) {
                let k = choose|k: int| 0 <= k < s.len() && s[k] == x;
                let nk = if k < p {
                    k
                } else {
                    k + 1
                };
                assert(out[nk] == x);
            }
            if x == v {
                assert(out[p] == v);
            }
        }
    }
}

/// The sizes that occur are ascending, and are those of the numbers.
pub proof fn lemma_sizes_of(numbers: Seq<isize>, k: nat)
    requires
        k <= numbers.len(),
    ensures
        rising(sizes_of(numbers, k)),
        forall|x: isize| #[trigger] sizes_of(numbers, k).contains(x) <==> numbers.take(
            k as int,
        ).contains(x),
    decreases k,
{
    if k > 0 {
        lemma_sizes_of(numbers, (k - 1) as nat);
        let before = sizes_of(numbers, (k - 1) as nat);
        let v = numbers[k - 1];
        lemma_put(before, v);
        let seen = numbers.take(k - 1);
        let now = numbers.take(k as int);
        assert(now =~= seen.push(v));
        assert forall|x: isize| #[trigger] sizes_of(numbers, k).contains(x) <==> now.contains(
            x,
        ) by {
            if now.contains(x) {
                let m = choose|m: int| 0 <= m < now.len() && now[m] == x;
                if m < k - 1 {
                    assert(seen[m] == x);
                    assert(seen.contains(x));
                }
            }
            if seen.contains(x) {
                let m = choose|m: int| 0 <= m < seen.len() && seen[m] == x;
                assert(now[m] == x);
            }
            if x == v {
                assert(now[k - 1] == x);
            }
        }
    }
}

/// The sizes that occur in `numbers`, each once, in ascending order.
pub fn distinct_sizes(numbers: &[isize]) -> (out: Vec<isize>)
    ensures
        out@ == sizes_of(numbers@, numbers@.len()),
        rising(out@),
        out@.to_set() == numbers@.to_set(),
{
    let mut out: Vec<isize> = Vec::new();
    let mut i: usize = 0;
    while i < numbers.len()
        invariant
            i <= numbers@.len(),
            out@ == sizes_of(numbers@, i as nat),
        decreases numbers.len() - i,
    {
        let v = numbers[i];
        let ghost before = out@;
        let mut at: usize = 0;
        while at < out.len() && out[at] < v
            invariant
                at <= out@.len(),
                out@ == before,
                place(before, v, 0) == place(before, v, at as int),
            decreases out.len() - at,
        {
            at += 1;
        }
        if !(at < out.len() && out[at] == v) {
            out.insert(at, v);
        }
        i += 1;
    }
    proof {
        lemma_sizes_of(numbers@, numbers@.len());
        assert(numbers@.take(numbers@.len() as int) =~= numbers@);
        assert(out@.to_set() =~= numbers@.to_set());
    }
    out
}

/// The sum of the first `k` of `sizes`, added up from the front. There is none where
/// there are fewer than `k` sizes, or the machine's word cannot hold a sum on the way.
pub fn sum_of_first(sizes: &[isize], k: usize) -> (sum: Option<isize>)
    ensures
        sum is Some <==> k <= sizes@.len() && sums_fit(sizes@, k as nat),
        sum matches Some(v) ==> v == sum_first(sizes@, k as nat),
{
    if k > sizes.len() {
        return None;
    }
    let mut sum: isize = 0;
    let mut i: usize = 0;
    while i < k
        invariant
            i <= k <= sizes@.len(),
            sum == sum_first(sizes@, i as nat),
            sums_fit(sizes@, i as nat),
        decreases k - i,
    {
        match sum.checked_add(sizes[i]) {
            Some(s) => {
                sum = s;
                assert forall|j: nat| j <= i + 1 implies isize::MIN <= #[trigger] sum_first(
                    sizes@,
                    j,
                ) <= isize::MAX by {
                    if j <= i {
                        assert(sums_fit(sizes@, i as nat));
                    }
                }
            },
            None => {
                assert(!(isize::MIN <= sum_first(sizes@, (i + 1) as nat) <= isize::MAX));
                return None;
            },
        }
        i += 1;
    }
    Some(sum)
}

/// The sum of the sizes that occur in `numbers`, each counted once and added up in
/// ascending order.
pub fn sum_of_sizes(numbers: &[isize]) -> (sum: Option<isize>)
    ensures
        sum is Some <==> sums_fit(
            sizes_of(numbers@, numbers@.len()),
            sizes_of(numbers@, numbers@.len()).len(),
        ),
        sum matches Some(v) ==> v == sum_first(
            sizes_of(numbers@, numbers@.len()),
            sizes_of(numbers@, numbers@.len()).len(),
        ),
{
    let sizes = distinct_sizes(numbers);
    sum_of_first(sizes.as_slice(), sizes.len())
}

/// The sum of the `k` smallest sizes that occur in `numbers`.
pub fn sum_of_smallest(numbers: &[isize], k: usize) -> (sum: Option<isize>)
    ensures
        sum is Some <==> k <= sizes_of(numbers@, numbers@.len()).len() && sums_fit(
            sizes_of(numbers@, numbers@.len()),
            k as nat,
        ),
        sum matches Some(v) ==> v == sum_first(sizes_of(numbers@, numbers@.len()), k as nat),
{
    let sizes = distinct_sizes(numbers);
    sum_of_first(sizes.as_slice(), k)
}

/// How often the most frequent size occurs; there is none without sizes.
pub fn most_frequent(numbers: &[isize]) -> (most: Option<usize>)
    ensures
        most is None <==> numbers@.len() == 0,
        most matches Some(m) ==> (exists|i: int|
            0 <= i < numbers@.len() && #[trigger] count_of(numbers@, numbers@[i], numbers@.len())
                == m) && forall|v: isize| #[trigger] count_of(numbers@, v, numbers@.len()) <= m,
{
    if numbers.len() == 0 {
        return None;
    }
    let mut most: usize = 0;
    let mut i: usize = 0;
    while i < numbers.len()
        invariant
            i <= numbers@.len(),
            numbers@.len() > 0,
            forall|a: int|
                0 <= a < i ==> #[trigger] count_of(numbers@, numbers@[a], numbers@.len()) <= most,
            i > 0 ==> exists|a: int|
                0 <= a < i && #[trigger] count_of(numbers@, numbers@[a], numbers@.len()) == most,
            i == 0 ==> most == 0,
        decreases numbers.len() - i,
    {
        let v = numbers[i];
        let mut count: usize = 0;
        let mut k: usize = 0;
        while k < numbers.len()
            invariant
                k <= numbers@.len(),
                count == count_of(numbers@, v, k as nat),
                count <= k,
            decreases numbers.len() - k,
        {
            if numbers[k] == v {
                count = count + 1;
            }
            k += 1;
        }
        if count > most || i == 0 {
            most = count;
        }
        i += 1;
    }
    proof {
        assert forall|v: isize| #[trigger] count_of(numbers@, v, numbers@.len()) <= most by {
            lemma_count_known(numbers@, v, numbers@.len());
            if count_of(numbers@, v, numbers@.len()) > 0 {
                let a = choose|a: int| 0 <= a < numbers@.len() && numbers@[a] == v;
                assert(count_of(numbers@, numbers@[a], numbers@.len()) <= most);
            }
        }
    }
    Some(most)
}

/// A size that is counted occurs.
pub proof fn lemma_count_known(s: Seq<isize>, v: isize, k: nat)
    requires
        k <= s.len(),
    ensures
        count_of(s, v, k) > 0 ==> exists|a: int| 0 <= a < k && s[a] == v,
    decreases k,
{
    if k > 0 {
        lemma_count_known(s, v, (k - 1) as nat);
        if s[k - 1] == v {
            assert(0 <= k - 1 < k && s[k - 1] == v);
        } else if count_of(s, v, k) > 0 {
            let a = choose|a: int| 0 <= a < k - 1 && s[a] == v;
            assert(0 <= a < k && s[a] == v);
        }
    }
}

} // verus!
