//! Threads between numbered nails on a circle, and where two of them cross.

use vstd::prelude::*;

verus! {

/// The smaller of two nails.
pub open spec fn low(a: int, b: int) -> int {
    if a <= b {
        a
    } else {
        b
    }
}

/// The larger of two nails.
pub open spec fn high(a: int, b: int) -> int {
    if a <= b {
        b
    } else {
        a
    }
}

/// Whether the thread between nails `a0` and `a1` crosses the thread between `b0` and
/// `b1`: exactly one end of the one lies strictly between the ends of the other. Two
/// threads between the same nails cross only if `include_identical`.
pub open spec fn crosses(a0: int, a1: int, b0: int, b1: int, include_identical: bool) -> bool {
    let (al, ah) = (low(a0, a1), high(a0, a1));
    let (bl, bh) = (low(b0, b1), high(b0, b1));
    ||| include_identical && al == bl && ah == bh
    ||| al < bl && bl < ah && ah < bh
    ||| bl < al && al < bh && bh < ah
}

/// 1 if the thread `line_0` crosses the thread `line_1`, else 0. A thread is given by
/// its two nails, in either order.
pub fn check_for_knot(line_0: &[isize], line_1: &[isize], include_identical: bool) -> (knots: usize)
    requires
        line_0@.len() >= 2,
        line_1@.len() >= 2,
    ensures
        knots == (if crosses(
            line_0@[0] as int,
            line_0@[1] as int,
            line_1@[0] as int,
            line_1@[1] as int,
            include_identical,
        ) {
            1usize
        } else {
            0usize
        }),
{
    let line_0 = if line_0[0] <= line_0[1] {
        (line_0[0], line_0[1])
    } else {
        (line_0[1], line_0[0])
    };
    let line_1 = if line_1[0] <= line_1[1] {
        (line_1[0], line_1[1])
    } else {
        (line_1[1], line_1[0])
    };

    if include_identical && line_0.0 == line_1.0 && line_0.1 == line_1.1 {
        return 1;
    }
    if line_0.0 < line_1.0 && line_0.1 > line_1.0 && line_0.1 < line_1.1 {
        return 1;
    }
    if line_1.0 < line_0.0 && line_1.1 > line_0.0 && line_1.1 < line_0.1 {
        return 1;
    }
    0
}

/// How often each thread of the path `nails` crosses a thread laid before it.
pub open spec fn knots_upto(nails: Seq<isize>, i: nat, j: nat) -> nat
    decreases i, j,
{
    if i == 0 {
        0
    } else if j == 0 {
        knots_upto(nails, (i - 1) as nat, (i - 1) as nat)
    } else {
        knots_upto(nails, i, (j - 1) as nat) + (if crosses(
            nails[i as int] as int,
            nails[i as int + 1] as int,
            nails[j as int - 1] as int,
            nails[j as int] as int,
            false,
        ) {
            1nat
        } else {
            0nat
        })
    }
}

/// The number of crossings in the path that runs from nail to nail through `nails`:
/// each thread against each thread laid before it.
pub fn count_knots(nails: &[isize]) -> (knots: usize)
    requires
        nails@.len() * nails@.len() <= usize::MAX,
    ensures
        nails@.len() >= 2 ==> knots == knots_upto(
            nails@,
            (nails@.len() - 2) as nat,
            (nails@.len() - 2) as nat,
        ),
        nails@.len() < 2 ==> knots == 0,
{
    if nails.len() < 2 {
        return 0;
    }
    let threads: usize = nails.len() - 1;
    let mut sum: usize = 0;
    let mut i: usize = 1;
    assert(knots_upto(nails@, 0, 0) == 0);
    while i < threads
        invariant
            1 <= i <= threads,
            threads == nails@.len() - 1,
            nails@.len() <= usize::MAX,
            nails@.len() * nails@.len() <= usize::MAX,
            sum == knots_upto(nails@, (i - 1) as nat, (i - 1) as nat),
            sum <= (i - 1) * nails@.len(),
        decreases threads - i,
    {
        let mut j: usize = 0;
        assert(knots_upto(nails@, i as nat, 0) == knots_upto(
            nails@,
            (i - 1) as nat,
            (i - 1) as nat,
        ));
        while j < i
            invariant
                j <= i,
                1 <= i < threads,
                threads == nails@.len() - 1,
                nails@.len() <= usize::MAX,
                nails@.len() * nails@.len() <= usize::MAX,
                sum == knots_upto(nails@, i as nat, j as nat),
                sum <= (i - 1) * nails@.len() + j,
            decreases i - j,
        {
            assert((i - 1) * nails@.len() + j + 1 <= nails@.len() * nails@.len())
                by (nonlinear_arith)
                requires
                    1 <= i,
                    j < i,
                    i < nails@.len(),
            {
            }
            let a: &[isize] = vstd::slice::slice_subrange(nails, i, i + 2);
            let b: &[isize] = vstd::slice::slice_subrange(nails, j, j + 2);
            sum = sum + check_for_knot(a, b, false);
            j += 1;
        }
        assert(i * nails@.len() == (i - 1) * nails@.len() + nails@.len()) by (nonlinear_arith);
        i += 1;
    }
    sum
}

/// Whether the thread between nails `a` and `b` spans `half` nails: on a circle of
/// twice as many nails it runs through the centre.
pub open spec fn spans(a: int, b: int, half: int) -> bool {
    a - b == half || b - a == half
}

/// How many of the first `k` threads of the path `nails` run through the centre.
pub open spec fn center_hits(nails: Seq<isize>, half: int, k: nat) -> nat
    decreases k,
{
    if k == 0 {
        0
    } else {
        center_hits(nails, half, (k - 1) as nat) + (if spans(
            nails[k - 1] as int,
            nails[k as int] as int,
            half,
        ) {
            1nat
        } else {
            0nat
        })
    }
}

/// The number of threads of the path that run through the centre of a circle with
/// `2 * half` nails.
pub fn count_center_hits(nails: &[isize], half: isize) -> (hits: usize)
    requires
        half >= 0,
    ensures
        hits == center_hits(
            nails@,
            half as int,
            (if nails@.len() > 0 {
                nails@.len() - 1
            } else {
                0
            }) as nat,
        ),
{
    if nails.len() < 2 {
        return 0;
    }
    let mut hits: usize = 0;
    let mut k: usize = 0;
    while k < nails.len() - 1
        invariant
            k <= nails@.len() - 1,
            nails@.len() >= 2,
            half >= 0,
            hits == center_hits(nails@, half as int, k as nat),
            hits <= k,
        decreases nails.len() - 1 - k,
    {
        let hit = match nails[k].checked_sub(nails[k + 1]) {
            Some(d) => d == half || (d > isize::MIN && -d == half),
            None => false,
        };
        if hit {
            hits = hits + 1;
        }
        k += 1;
    }
    hits
}

/// How many of the first `k` threads of the path `nails` the thread between nails
/// `s` and `e` crosses, or lies on.
pub open spec fn cut_knots(nails: Seq<isize>, s: int, e: int, k: nat) -> nat
    decreases k,
{
    if k == 0 {
        0
    } else {
        cut_knots(nails, s, e, (k - 1) as nat) + (if crosses(
            nails[k - 1] as int,
            nails[k as int] as int,
            s,
            e,
            true,
        ) {
            1nat
        } else {
            0nat
        })
    }
}

/// The number of threads in the path `nails`.
pub open spec fn thread_count(nails: Seq<isize>) -> nat {
    if nails.len() > 0 {
        (nails.len() - 1) as nat
    } else {
        0
    }
}

/// How many threads of the path `nails` the thread between nails `s` and `e` crosses,
/// or lies on.
pub open spec fn cut_total(nails: Seq<isize>, s: int, e: int) -> nat {
    cut_knots(nails, s, e, thread_count(nails))
}

/// The number of threads of the path that the thread between nails `s` and `e`
/// crosses, or lies on.
pub fn count_cut(nails: &[isize], s: isize, e: isize) -> (knots: usize)
    ensures
        knots == cut_total(nails@, s as int, e as int),
{
    if nails.len() < 2 {
        return 0;
    }
    let cut: [isize; 2] = [s, e];
    let mut knots: usize = 0;
    let mut k: usize = 0;
    while k < nails.len() - 1
        invariant
            k <= nails@.len() - 1,
            nails@.len() >= 2,
            cut@ == seq![s, e],
            knots == cut_knots(nails@, s as int, e as int, k as nat),
            knots <= k,
        decreases nails.len() - 1 - k,
    {
        let line: &[isize] = vstd::slice::slice_subrange(nails, k, k + 2);
        knots = knots + check_for_knot(line, cut.as_slice(), true);
        k += 1;
    }
    knots
}

/// The most threads of the path that one cut crosses, over all cuts between two
/// different nails from 1 to `num_nails`; 0 where there is no such cut.
pub fn best_cut(nails: &[isize], num_nails: isize) -> (most: usize)
    ensures
        forall|s: int, e: int|
            1 <= s < e <= num_nails ==> #[trigger] cut_total(nails@, s, e) <= most,
        most == 0 || exists|s: int, e: int|
            1 <= s < e <= num_nails && #[trigger] cut_total(nails@, s, e) == most,
{
    let mut most: usize = 0;
    let mut start: isize = 1;
    while start < num_nails
        invariant
            1 <= start,
            start <= num_nails || num_nails < 1,
            forall|s: int, e: int|
                1 <= s < start && s < e <= num_nails ==> #[trigger] cut_total(nails@, s, e) <= most,
            most == 0 || exists|s: int, e: int|
                1 <= s < e <= num_nails && #[trigger] cut_total(nails@, s, e) == most,
        decreases num_nails - start,
    {
        let mut end: isize = start + 1;
        loop
            invariant_except_break
                start < end <= num_nails,
                forall|e: int|
                    start < e < end ==> #[trigger] cut_total(nails@, start as int, e) <= most,
            invariant
                1 <= start < num_nails,
                forall|s: int, e: int|
                    1 <= s < start && s < e <= num_nails ==> #[trigger] cut_total(nails@, s, e)
                        <= most,
                most == 0 || exists|s: int, e: int|
                    1 <= s < e <= num_nails && #[trigger] cut_total(nails@, s, e) == most,
            ensures
                forall|e: int|
                    start < e <= num_nails ==> #[trigger] cut_total(nails@, start as int, e)
                        <= most,
            decreases num_nails - end,
        {
            let sum = count_cut(nails, start, end);
            if sum > most {
                most = sum;
                assert(cut_total(nails@, start as int, end as int) == most);
            }
            if end == num_nails {
                break ;
            }
            end = end + 1;
        }
        proof {
            assert forall|s: int, e: int|
                1 <= s < start + 1 && s < e <= num_nails implies #[trigger] cut_total(nails@, s, e) <= most by {
                if s == start {
                    assert(cut_total(nails@, start as int, e) <= most);
                }
            }
        }
        start = start + 1;
    }
    most
}

} // verus!
