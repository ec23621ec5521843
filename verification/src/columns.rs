//! Columns of ducks that even out: first a duck steps on to the next column where
//! that one holds fewer, then a duck steps back where the next column holds more.

use vstd::prelude::*;

verus! {

/// The columns after the first `k` pairs of neighbours were visited from the front,
/// a duck stepping from a column to the next one wherever the next one holds fewer.
pub open spec fn pass_down(s: Seq<usize>, k: nat) -> Seq<usize>
    decreases k,
{
    if k == 0 {
        s
    } else {
        let p = pass_down(s, (k - 1) as nat);
        if p[k as int] < p[k - 1] {
            p.update(k - 1, (p[k - 1] - 1) as usize).update(k as int, (p[k as int] + 1) as usize)
        } else {
            p
        }
    }
}

/// Whether a duck stepped on among the first `k` pairs.
pub open spec fn moved_down(s: Seq<usize>, k: nat) -> bool
    decreases k,
{
    k > 0 && (moved_down(s, (k - 1) as nat) || pass_down(s, (k - 1) as nat)[k as int] < pass_down(
        s,
        (k - 1) as nat,
    )[k - 1])
}

/// The columns after the first `k` pairs of neighbours were visited from the front,
/// a duck stepping back from the next column wherever that one holds more.
pub open spec fn pass_up(s: Seq<usize>, k: nat) -> Seq<usize>
    decreases k,
{
    if k == 0 {
        s
    } else {
        let p = pass_up(s, (k - 1) as nat);
        if p[k as int] > p[k - 1] {
            p.update(k - 1, (p[k - 1] + 1) as usize).update(k as int, (p[k as int] - 1) as usize)
        } else {
            p
        }
    }
}

/// Whether a duck stepped back among the first `k` pairs.
pub open spec fn moved_up(s: Seq<usize>, k: nat) -> bool
    decreases k,
{
    k > 0 && (moved_up(s, (k - 1) as nat) || pass_up(s, (k - 1) as nat)[k as int] > pass_up(
        s,
        (k - 1) as nat,
    )[k - 1])
}

/// The number of ducks in all columns.
pub open spec fn ducks(s: Seq<usize>) -> nat
    decreases s.len(),
{
    if s.len() == 0 {
        0
    } else {
        ducks(s.drop_last()) + s.last() as nat
    }
}

/// The ducks that the columns below `level` lack to reach it.
pub open spec fn shortfall(s: Seq<usize>, level: int) -> nat
    decreases s.len(),
{
    if s.len() == 0 {
        0
    } else {
        shortfall(s.drop_last(), level) + (if s.last() < level {
            (level - s.last()) as nat
        } else {
            0nat
        })
    }
}

/// The columns' checksum: each column's ducks times its place, counted from 1.
pub open spec fn checksum(s: Seq<usize>) -> nat
    decreases s.len(),
{
    if s.len() == 0 {
        0
    } else {
        checksum(s.drop_last()) + s.len() * (s.last() as nat)
    }
}

/// One pass from the front in which ducks step on. Says whether any did.
pub fn phase_1(columns: Vec<usize>) -> (out: (Vec<usize>, bool))
    requires
        columns@.len() >= 1,
    ensures
        out.0@ == pass_down(columns@, (columns@.len() - 1) as nat),
        out.0@.len() == columns@.len(),
        out.1 == moved_down(columns@, (columns@.len() - 1) as nat),
{
    let ghost given = columns@;
    let mut columns = columns;
    let mut changed = false;
    let mut i: usize = 0;
    while i < columns.len() - 1
        invariant
            columns@.len() == given.len(),
            given.len() >= 1,
            i <= columns@.len() - 1,
            columns@ == pass_down(given, i as nat),
            changed == moved_down(given, i as nat),
        decreases columns.len() - 1 - i,
    {
        if columns[i + 1] < columns[i] {
            changed = true;
            let next = columns[i + 1] + 1;
            let here = columns[i] - 1;
            columns.set(i, here);
            columns.set(i + 1, next);
        }
        i += 1;
    }
    (columns, changed)
}

/// One pass from the front in which ducks step back. Says whether any did.
pub fn phase_2(columns: Vec<usize>) -> (out: (Vec<usize>, bool))
    requires
        columns@.len() >= 1,
    ensures
        out.0@ == pass_up(columns@, (columns@.len() - 1) as nat),
        out.0@.len() == columns@.len(),
        out.1 == moved_up(columns@, (columns@.len() - 1) as nat),
{
    let ghost given = columns@;
    let mut columns = columns;
    let mut changed = false;
    let mut i: usize = 0;
    while i < columns.len() - 1
        invariant
            columns@.len() == given.len(),
            given.len() >= 1,
            i <= columns@.len() - 1,
            columns@ == pass_up(given, i as nat),
            changed == moved_up(given, i as nat),
        decreases columns.len() - 1 - i,
    {
        if columns[i + 1] > columns[i] {
            changed = true;
            let next = columns[i + 1] - 1;
            let here = columns[i] + 1;
            columns.set(i, here);
            columns.set(i + 1, next);
        }
        i += 1;
    }
    (columns, changed)
}

/// The ducks of the first columns are no more than the ducks of all.
pub proof fn lemma_ducks_take(s: Seq<usize>, i: int)
    requires
        0 <= i <= s.len(),
    ensures
        ducks(s.take(i)) <= ducks(s),
        i < s.len() ==> ducks(s.take(i + 1)) == ducks(s.take(i)) + s[i],
    decreases s.len() - i,
{
    if i < s.len() {
        assert(s.take(i + 1).drop_last() =~= s.take(i));
        lemma_ducks_take(s, i + 1);
    } else {
        assert(s.take(i) =~= s);
    }
}

/// What columns lack to reach a level is no more than the level for each column.
pub proof fn lemma_shortfall_bound(s: Seq<usize>, level: int)
    requires
        0 <= level,
    ensures
        shortfall(s, level) <= s.len() * level,
    decreases s.len(),
{
    if s.len() > 0 {
        lemma_shortfall_bound(s.drop_last(), level);
        assert(s.len() * level == (s.len() - 1) * level + level) by (nonlinear_arith);
    }
}

/// The number of rounds of stepping back that it takes to even the columns out: what
/// the columns below the mean lack to reach it. The mean is rounded down.
pub fn phase_2_rapid(columns: Vec<usize>) -> (rounds: usize)
    requires
        columns@.len() > 0,
        ducks(columns@) <= usize::MAX,
    ensures
        rounds == shortfall(columns@, ducks(columns@) as int / columns@.len() as int),
{
    let mut all: usize = 0;
    let mut i: usize = 0;
    while i < columns.len()
        invariant
            i <= columns.len(),
            ducks(columns@) <= usize::MAX,
            all == ducks(columns@.take(i as int)),
        decreases columns.len() - i,
    {
        proof {
            lemma_ducks_take(columns@, i as int);
            lemma_ducks_take(columns@, i + 1);
        }
        all = all + columns[i];
        i += 1;
    }
    assert(columns@.take(columns.len() as int) =~= columns@);
    let ducks_per_column: usize = all / columns.len();
    proof {
        let n = columns@.len() as int;
        let mean = all as int / n;
        assert(n * mean <= all as int) by (nonlinear_arith)
            requires
                n > 0,
                all >= 0,
                mean == all as int / n,
        {
        }
        lemma_shortfall_bound(columns@, mean);
    }
    let mut rounds: usize = 0;
    let mut k: usize = 0;
    while k < columns.len()
        invariant
            k <= columns.len(),
            rounds == shortfall(columns@.take(k as int), ducks_per_column as int),
            shortfall(columns@, ducks_per_column as int) <= usize::MAX,
        decreases columns.len() - k,
    {
        proof {
            lemma_shortfall_take(columns@, k as int, ducks_per_column as int);
            lemma_shortfall_take(columns@, k + 1, ducks_per_column as int);
        }
        if columns[k] < ducks_per_column {
            rounds = rounds + (ducks_per_column - columns[k]);
        }
        k += 1;
    }
    assert(columns@.take(columns.len() as int) =~= columns@);
    rounds
}

/// What the first columns lack is no more than what all lack.
pub proof fn lemma_shortfall_take(s: Seq<usize>, i: int, level: int)
    requires
        0 <= i <= s.len(),
    ensures
        shortfall(s.take(i), level) <= shortfall(s, level),
        i < s.len() ==> shortfall(s.take(i + 1), level) == shortfall(s.take(i), level) + (if s[i]
            < level {
            (level - s[i]) as nat
        } else {
            0nat
        }),
    decreases s.len() - i,
{
    if i < s.len() {
        assert(s.take(i + 1).drop_last() =~= s.take(i));
        lemma_shortfall_take(s, i + 1, level);
    } else {
        assert(s.take(i) =~= s);
    }
}

/// The checksum of the first columns is no more than the checksum of all.
pub proof fn lemma_checksum_take(s: Seq<usize>, i: int)
    requires
        0 <= i <= s.len(),
    ensures
        checksum(s.take(i)) <= checksum(s),
        i < s.len() ==> checksum(s.take(i + 1)) == checksum(s.take(i)) + (i + 1) * s[i],
    decreases s.len() - i,
{
    if i < s.len() {
        assert(s.take(i + 1).drop_last() =~= s.take(i));
        lemma_checksum_take(s, i + 1);
        assert((i + 1) * s[i] >= 0) by (nonlinear_arith)
            requires
                i >= 0,
                s[i] >= 0,
        {
        }
    } else {
        assert(s.take(i) =~= s);
    }
}

/// The columns' checksum: each column's ducks times its place, counted from 1.
pub fn get_checksum(column: &Vec<usize>) -> (sum: usize)
    requires
        checksum(column@) <= usize::MAX,
    ensures
        sum == checksum(column@),
{
    let mut sum: usize = 0;
    let mut i: usize = 0;
    while i < column.len()
        invariant
            i <= column.len(),
            checksum(column@) <= usize::MAX,
            sum == checksum(column@.take(i as int)),
        decreases column.len() - i,
    {
        proof {
            lemma_checksum_take(column@, i as int);
            lemma_checksum_take(column@, i + 1);
        }
        sum = sum + (i + 1) * column[i];
        i += 1;
    }
    assert(column@.take(column.len() as int) =~= column@);
    sum
}

/// Putting `v` ducks on column `i` changes the checksum by the change of that column
/// times its place, and the number of ducks by the change.
pub proof fn lemma_update(s: Seq<usize>, i: int, v: usize)
    requires
        0 <= i < s.len(),
    ensures
        checksum(s.update(i, v)) == checksum(s) + (i + 1) * (v - s[i]),
        ducks(s.update(i, v)) == ducks(s) + v - s[i],
    decreases s.len(),
{
    let t = s.update(i, v);
    if i == s.len() - 1 {
        assert(t.drop_last() =~= s.drop_last());
        assert(s.len() * (v as nat) - s.len() * (s[i] as nat) == (i + 1) * (v - s[i]))
            by (nonlinear_arith)
            requires
                i + 1 == s.len(),
        {
        }
    } else {
        lemma_update(s.drop_last(), i, v);
        assert(t.drop_last() =~= s.drop_last().update(i, v));
    }
}

/// The checksum is no more than the ducks times the number of columns.
pub proof fn lemma_checksum_bound(s: Seq<usize>)
    ensures
        checksum(s) <= s.len() * ducks(s),
    decreases s.len(),
{
    if s.len() > 0 {
        lemma_checksum_bound(s.drop_last());
        let n = s.len() as int;
        let d = ducks(s.drop_last()) as int;
        let l = s.last() as int;
        assert(n * (d + l) >= (n - 1) * d + n * l) by (nonlinear_arith)
            requires
                n >= 1,
                d >= 0,
                l >= 0,
        {
        }
    }
}

/// A pass in which ducks step on keeps the number of columns and of ducks, and raises
/// the checksum, by at least 1 if a duck stepped.
pub proof fn lemma_pass_down(s: Seq<usize>, k: nat)
    requires
        k < s.len(),
    ensures
        pass_down(s, k).len() == s.len(),
        ducks(pass_down(s, k)) == ducks(s),
        checksum(pass_down(s, k)) >= checksum(s),
        moved_down(s, k) ==> checksum(pass_down(s, k)) > checksum(s),
    decreases k,
{
    if k > 0 {
        lemma_pass_down(s, (k - 1) as nat);
        let p = pass_down(s, (k - 1) as nat);
        if p[k as int] < p[k - 1] {
            let q = p.update(k - 1, (p[k - 1] - 1) as usize);
            lemma_update(p, k - 1, (p[k - 1] - 1) as usize);
            lemma_update(q, k as int, (p[k as int] + 1) as usize);
            assert(checksum(q.update(k as int, (p[k as int] + 1) as usize)) == checksum(p) + 1)
                by (nonlinear_arith)
                requires
                    checksum(q) == checksum(p) + (k - 1 + 1) * ((p[k - 1] - 1) - p[k - 1]),
                    checksum(q.update(k as int, (p[k as int] + 1) as usize)) == checksum(q) + (k
                        + 1) * ((p[k as int] + 1) - q[k as int]),
                    q[k as int] == p[k as int],
            {
            }
        }
    }
}

/// A pass in which no duck steps leaves the columns as they are.
pub proof fn lemma_unmoved(s: Seq<usize>, k: nat)
    requires
        !moved_down(s, k),
    ensures
        pass_down(s, k) == s,
    decreases k,
{
    if k > 0 {
        lemma_unmoved(s, (k - 1) as nat);
    }
}

/// What the columns lack to have every duck in the last column: a bound on the rounds
/// in which ducks can still step on.
pub open spec fn slack(s: Seq<usize>) -> int {
    s.len() * ducks(s) - checksum(s)
}

/// The columns after rounds of ducks stepping on, until none steps, and the number of
/// rounds in which one did.
pub open spec fn settled(s: Seq<usize>) -> (Seq<usize>, nat)
    decreases slack(s),
{
    if s.len() >= 1 && moved_down(s, (s.len() - 1) as nat) {
        proof {
            lemma_pass_down(s, (s.len() - 1) as nat);
            lemma_checksum_bound(pass_down(s, (s.len() - 1) as nat));
        }
        let rest = settled(pass_down(s, (s.len() - 1) as nat));
        (rest.0, rest.1 + 1)
    } else {
        (s, 0nat)
    }
}

/// Lets ducks step on, round by round, until none steps. Gives the columns and the
/// number of rounds in which a duck stepped.
pub fn settle_down(columns: Vec<usize>) -> (out: (Vec<usize>, usize))
    requires
        columns@.len() >= 1,
        columns@.len() * ducks(columns@) <= usize::MAX,
    ensures
        out.0@ == settled(columns@).0,
        out.1 == settled(columns@).1,
{
    let ghost first = columns@;
    let mut current = columns;
    let mut rounds: usize = 0;
    proof {
        lemma_checksum_bound(first);
    }
    loop
        invariant
            first == columns@,
            current@.len() == first.len(),
            first.len() >= 1,
            ducks(current@) == ducks(first),
            first.len() * ducks(first) <= usize::MAX,
            rounds + slack(current@) <= first.len() * ducks(first),
            slack(current@) >= 0,
            settled(first).0 == settled(current@).0,
            settled(first).1 == settled(current@).1 + rounds,
        decreases slack(current@),
    {
        let ghost before = current@;
        proof {
            lemma_pass_down(before, (before.len() - 1) as nat);
            lemma_checksum_bound(pass_down(before, (before.len() - 1) as nat));
        }
        let (next, changed) = phase_1(current);
        current = next;
        if !changed {
            proof {
                lemma_unmoved(before, (before.len() - 1) as nat);
            }
            return (current, rounds);
        }
        rounds = rounds + 1;
    }
}

} // verus!
