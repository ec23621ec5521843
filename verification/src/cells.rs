//! Sequences of cells kept in ascending `(row, col)` order.

use crate::geometry::Cell;
use vstd::prelude::*;

verus! {

/// `a` comes no later than `b` in `(row, col)` order.
pub open spec fn cell_leq(a: Cell, b: Cell) -> bool {
    a.0 < b.0 || (a.0 == b.0 && a.1 <= b.1)
}

/// Ascending order; equal cells may repeat.
pub open spec fn sorted(s: Seq<Cell>) -> bool {
    forall|i: int, j: int| 0 <= i < j < s.len() ==> cell_leq(#[trigger] s[i], #[trigger] s[j])
}

/// Ascending order without repeats.
pub open spec fn strictly_sorted(s: Seq<Cell>) -> bool {
    forall|i: int, j: int|
        0 <= i < j < s.len() ==> cell_leq(#[trigger] s[i], #[trigger] s[j]) && s[i] != s[j]
}

/// `s` with `c` put behind the last cell that comes no later than `c`.
pub open spec fn sorted_insert(s: Seq<Cell>, c: Cell) -> Seq<Cell>
    decreases s.len(),
{
    if s.len() == 0 {
        seq![c]
    } else if cell_leq(s.last(), c) {
        s.push(c)
    } else {
        sorted_insert(s.drop_last(), c).push(s.last())
    }
}

/// The cells of `s` in ascending order.
pub open spec fn sort_cells(s: Seq<Cell>) -> Seq<Cell>
    decreases s.len(),
{
    if s.len() == 0 {
        s
    } else {
        sorted_insert(sort_cells(s.drop_last()), s.last())
    }
}

/// Where `sorted_insert` puts `c`: at `i`, if every cell from `i` on comes strictly
/// later than `c` and the cell before `i` does not.
pub proof fn lemma_sorted_insert_at(s: Seq<Cell>, c: Cell, i: int)
    requires
        0 <= i <= s.len(),
        i > 0 ==> cell_leq(s[i - 1], c),
        forall|k: int| i <= k < s.len() ==> !cell_leq(#[trigger] s[k], c),
    ensures
        sorted_insert(s, c) == s.insert(i, c),
    decreases s.len() - i,
{
    if s.len() == 0 {
        assert(s.insert(i, c) =~= seq![c]);
    } else if i == s.len() {
        assert(s.insert(i, c) =~= s.push(c));
    } else {
        assert(!cell_leq(s[s.len() - 1], c));
        lemma_sorted_insert_at(s.drop_last(), c, i);
        assert(s.drop_last().insert(i, c).push(s.last()) =~= s.insert(i, c));
    }
}

/// Inserting into an ascending sequence keeps it ascending and adds exactly `c`.
pub proof fn lemma_sorted_insert(s: Seq<Cell>, c: Cell)
    ensures
        sorted_insert(s, c).len() == s.len() + 1,
        sorted_insert(s, c).to_multiset() == s.to_multiset().insert(c),
        sorted(s) ==> sorted(sorted_insert(s, c)),
        forall|x: Cell| #[trigger] sorted_insert(s, c).contains(x) <==> x == c || s.contains(x),
    decreases s.len(),
{
    broadcast use vstd::seq_lib::group_to_multiset_ensures;

    let out = sorted_insert(s, c);
    if s.len() == 0 {
        assert(s =~= Seq::empty());
        assert(out =~= Seq::<Cell>::empty().push(c));
        assert(out[0] == c);
    } else if cell_leq(s.last(), c) {
        assert(out[s.len() as int] == c);
        assert forall|x: Cell| #[trigger] out.contains(x) implies x == c || s.contains(x) by {
            let k = choose|k: int| 0 <= k < out.len() && out[k] == x;
            if k < s.len() {
                assert(s[k] == x);
            }
        }
        assert forall|x: Cell| x == c || s.contains(x) implies #[trigger] out.contains(x) by {
            if s.contains(x) {
                let k = choose|k: int| 0 <= k < s.len() && s[k] == x;
                assert(out[k] == x);
            }
        }
        if sorted(s) {
            assert forall|i: int, j: int| 0 <= i < j < out.len() implies cell_leq(
                #[trigger] out[i],
                #[trigger] out[j],
            ) by {
                if j == s.len() {
                    if i < s.len() - 1 {
                        assert(cell_leq(s[i], s[s.len() - 1]));
                    }
                } else {
                    assert(cell_leq(s[i], s[j]));
                }
            }
        }
    } else {
        let head = s.drop_last();
        let mid = sorted_insert(head, c);
        lemma_sorted_insert(head, c);
        assert(head.push(s.last()) =~= s);
        assert(out == mid.push(s.last()));
        assert forall|x: Cell| #[trigger] out.contains(x) implies x == c || s.contains(x) by {
            let k = choose|k: int| 0 <= k < out.len() && out[k] == x;
            if k < mid.len() {
                assert(mid[k] == x);
                assert(mid.contains(x));
                if x != c {
                    let m = choose|m: int| 0 <= m < head.len() && head[m] == x;
                    assert(s[m] == x);
                }
            } else {
                assert(s[s.len() - 1] == x);
            }
        }
        assert forall|x: Cell| x == c || s.contains(x) implies #[trigger] out.contains(x) by {
            if x == c {
                assert(mid.contains(c));
                let m = choose|m: int| 0 <= m < mid.len() && mid[m] == c;
                assert(out[m] == c);
            } else {
                let k = choose|k: int| 0 <= k < s.len() && s[k] == x;
                if k < head.len() {
                    assert(head[k] == x);
                    assert(head.contains(x));
                    assert(mid.contains(x));
                    let m = choose|m: int| 0 <= m < mid.len() && mid[m] == x;
                    assert(out[m] == x);
                } else {
                    assert(out[mid.len() as int] == x);
                }
            }
        }
        if sorted(s) {
            assert forall|i: int, j: int| 0 <= i < j < head.len() implies cell_leq(
                #[trigger] head[i],
                #[trigger] head[j],
            ) by {
                assert(cell_leq(s[i], s[j]));
            }
            assert forall|i: int, j: int| 0 <= i < j < out.len() implies cell_leq(
                #[trigger] out[i],
                #[trigger] out[j],
            ) by {
                if j == mid.len() {
                    assert(mid.contains(mid[i]));
                    if mid[i] != c {
                        let m = choose|m: int| 0 <= m < head.len() && head[m] == mid[i];
                        assert(cell_leq(s[m], s[s.len() - 1]));
                    }
                } else {
                    assert(cell_leq(mid[i], mid[j]));
                }
            }
        }
    }
}

/// Inserting a cell that is not there yet brings no repeat.
pub proof fn lemma_sorted_insert_fresh(s: Seq<Cell>, c: Cell)
    requires
        s.no_duplicates(),
        !s.contains(c),
    ensures
        sorted_insert(s, c).no_duplicates(),
{
    broadcast use vstd::seq_lib::group_to_multiset_ensures;

    let out = sorted_insert(s, c);
    lemma_sorted_insert(s, c);
    s.lemma_multiset_has_no_duplicates();
    assert forall|x: Cell| out.to_multiset().contains(x) implies out.to_multiset().count(x)
        == 1 by {
        assert(s.contains(x) <==> s.to_multiset().count(x) > 0);
        assert(s.contains(c) <==> s.to_multiset().count(c) > 0);
    }
    out.lemma_multiset_has_no_duplicates_conv();
}

/// Sorting gives an ascending sequence that holds each cell as often as before.
pub proof fn lemma_sort_cells(s: Seq<Cell>)
    ensures
        sort_cells(s).len() == s.len(),
        sorted(sort_cells(s)),
        sort_cells(s).to_multiset() == s.to_multiset(),
        forall|x: Cell| #[trigger] sort_cells(s).contains(x) <==> s.contains(x),
    decreases s.len(),
{
    broadcast use vstd::seq_lib::group_to_multiset_ensures;

    if s.len() > 0 {
        let head = s.drop_last();
        lemma_sort_cells(head);
        lemma_sorted_insert(sort_cells(head), s.last());
        assert(head.push(s.last()) =~= s);
        assert forall|x: Cell| #[trigger] sort_cells(s).contains(x) <==> s.contains(x) by {
            if s.contains(x) {
                let k = choose|k: int| 0 <= k < s.len() && s[k] == x;
                if k < head.len() {
                    assert(head[k] == x);
                    assert(head.contains(x));
                }
            }
            if head.contains(x) {
                let k = choose|k: int| 0 <= k < head.len() && head[k] == x;
                assert(s[k] == x);
            }
            if x == s.last() {
                assert(s[s.len() - 1] == x);
            }
        }
    }
}

/// Sorting leaves an ascending sequence as it is.
pub proof fn lemma_sort_cells_of_sorted(s: Seq<Cell>)
    requires
        sorted(s),
    ensures
        sort_cells(s) == s,
    decreases s.len(),
{
    if s.len() > 0 {
        let head = s.drop_last();
        assert forall|i: int, j: int| 0 <= i < j < head.len() implies cell_leq(
            #[trigger] head[i],
            #[trigger] head[j],
        ) by {
            assert(cell_leq(s[i], s[j]));
        }
        lemma_sort_cells_of_sorted(head);
        if head.len() > 0 {
            assert(cell_leq(s[head.len() - 1], s[s.len() - 1]));
        }
        assert(head.push(s.last()) =~= s);
    }
}

/// Sorting twice gives what sorting once gives.
pub proof fn lemma_sort_cells_idempotent(s: Seq<Cell>)
    ensures
        sort_cells(sort_cells(s)) == sort_cells(s),
{
    lemma_sort_cells(s);
    lemma_sort_cells_of_sorted(sort_cells(s));
}

/// Two ascending sequences that hold each cell equally often are the same sequence.
pub proof fn lemma_sorted_unique(a: Seq<Cell>, b: Seq<Cell>)
    requires
        sorted(a),
        sorted(b),
        a.to_multiset() == b.to_multiset(),
    ensures
        a == b,
{
    let leq = |x: Cell, y: Cell| cell_leq(x, y);
    assert(vstd::relations::total_ordering(leq));
    assert(vstd::relations::sorted_by(a, leq)) by {
        assert forall|i: int, j: int| 0 <= i < j < a.len() implies #[trigger] leq(a[i], a[j]) by {
            assert(cell_leq(a[i], a[j]));
        }
    }
    assert(vstd::relations::sorted_by(b, leq)) by {
        assert forall|i: int, j: int| 0 <= i < j < b.len() implies #[trigger] leq(b[i], b[j]) by {
            assert(cell_leq(b[i], b[j]));
        }
    }
    vstd::seq_lib::lemma_sorted_unique(a, b, leq);
}

/// Two ascending sequences without repeats that hold the same cells are the same
/// sequence.
pub proof fn lemma_strictly_sorted_unique(a: Seq<Cell>, b: Seq<Cell>)
    requires
        strictly_sorted(a),
        strictly_sorted(b),
        a.to_set() == b.to_set(),
    ensures
        a == b,
{
    broadcast use vstd::seq_lib::group_to_multiset_ensures;

    assert(a.no_duplicates());
    assert(b.no_duplicates());
    a.lemma_multiset_has_no_duplicates();
    b.lemma_multiset_has_no_duplicates();
    assert forall|x: Cell| a.to_multiset().count(x) == b.to_multiset().count(x) by {
        assert(a.contains(x) <==> a.to_set().contains(x));
        assert(b.contains(x) <==> b.to_set().contains(x));
        assert(a.contains(x) <==> a.to_multiset().count(x) > 0);
        assert(b.contains(x) <==> b.to_multiset().count(x) > 0);
    }
    assert(a.to_multiset() =~= b.to_multiset());
    lemma_sorted_unique(a, b);
}

/// Whether `a` comes no later than `b`.
pub fn cell_le(a: Cell, b: Cell) -> (r: bool)
    ensures
        r == cell_leq(a, b),
{
    a.0 < b.0 || (a.0 == b.0 && a.1 <= b.1)
}

/// Whether `c` occurs in `v`.
pub fn contains_cell(v: &[Cell], c: Cell) -> (found: bool)
    ensures
        found == v@.contains(c),
{
    let mut i: usize = 0;
    while i < v.len()
        invariant
            i <= v.len(),
            forall|k: int| 0 <= k < i ==> v@[k] != c,
        decreases v.len() - i,
    {
        if v[i].0 == c.0 && v[i].1 == c.1 {
            return true;
        }
        i += 1;
    }
    false
}

/// A copy of `v`.
pub fn copy_cells(v: &Vec<Cell>) -> (out: Vec<Cell>)
    ensures
        out@ == v@,
{
    let mut out: Vec<Cell> = Vec::new();
    let mut i: usize = 0;
    while i < v.len()
        invariant
            i <= v.len(),
            out@ == v@.take(i as int),
        decreases v.len() - i,
    {
        out.push(v[i]);
        assert(v@.take(i + 1) =~= v@.take(i as int).push(v@[i as int]));
        i += 1;
    }
    assert(v@.take(v.len() as int) =~= v@);
    out
}

/// Whether two vectors hold the same cells in the same order.
pub fn same_cells(a: &Vec<Cell>, b: &Vec<Cell>) -> (same: bool)
    ensures
        same == (a@ == b@),
{
    if a.len() != b.len() {
        return false;
    }
    let mut i: usize = 0;
    while i < a.len()
        invariant
            i <= a.len(),
            a.len() == b.len(),
            forall|k: int| 0 <= k < i ==> a@[k] == b@[k],
        decreases a.len() - i,
    {
        if a[i].0 != b[i].0 || a[i].1 != b[i].1 {
            return false;
        }
        i += 1;
    }
    assert(a@ =~= b@);
    true
}

/// Whether `v` is in ascending order.
pub fn is_sorted(v: &Vec<Cell>) -> (ok: bool)
    ensures
        ok == sorted(v@),
{
    let mut k: usize = 1;
    while k < v.len()
        invariant
            1 <= k,
            forall|i: int, j: int| 0 <= i < j < k && j < v.len() ==> cell_leq(v@[i], v@[j]),
        decreases v.len() - k,
    {
        if !cell_le(v[k - 1], v[k]) {
            return false;
        }
        assert forall|i: int, j: int| 0 <= i < j < k + 1 && j < v.len() implies cell_leq(
            v@[i],
            v@[j],
        ) by {
            if j == k && i < k - 1 {
                assert(cell_leq(v@[i], v@[k - 1]));
            }
        }
        k += 1;
    }
    true
}

/// Whether `v` is in ascending order and holds no cell twice.
pub fn is_strictly_sorted(v: &Vec<Cell>) -> (ok: bool)
    ensures
        ok == strictly_sorted(v@),
{
    let mut k: usize = 1;
    while k < v.len()
        invariant
            1 <= k,
            forall|i: int, j: int|
                0 <= i < j < k && j < v.len() ==> cell_leq(v@[i], v@[j]) && v@[i] != v@[j],
        decreases v.len() - k,
    {
        if !cell_le(v[k - 1], v[k]) || (v[k - 1].0 == v[k].0 && v[k - 1].1 == v[k].1) {
            return false;
        }
        assert forall|i: int, j: int| 0 <= i < j < k + 1 && j < v.len() implies cell_leq(
            v@[i],
            v@[j],
        ) && v@[i] != v@[j] by {
            if j == k && i < k - 1 {
                assert(cell_leq(v@[i], v@[k - 1]) && v@[i] != v@[k - 1]);
            }
        }
        k += 1;
    }
    true
}

/// The cells of `v` in ascending order, each once.
pub fn sorted_set(v: &Vec<Cell>) -> (out: Vec<Cell>)
    ensures
        strictly_sorted(out@),
        out@.to_set() == v@.to_set(),
{
    let mut out: Vec<Cell> = Vec::new();
    let mut i: usize = 0;
    while i < v.len()
        invariant
            i <= v.len(),
            sorted(out@),
            out@.no_duplicates(),
            forall|x: Cell| #[trigger] out@.contains(x) <==> v@.take(i as int).contains(x),
        decreases v.len() - i,
    {
        let c = v[i];
        let ghost before = out@;
        if !contains_cell(out.as_slice(), c) {
            proof {
                lemma_sorted_insert(before, c);
            }
            insert_sorted(&mut out, c);
            proof {
                lemma_sorted_insert_fresh(before, c);
            }
        }
        proof {
            let seen = v@.take(i as int);
            let now = v@.take(i + 1);
            assert(now =~= seen.push(c));
            assert forall|x: Cell| #[trigger] out@.contains(x) <==> now.contains(x) by {
                if now.contains(x) {
                    let k = choose|k: int| 0 <= k < now.len() && now[k] == x;
                    if k < i {
                        assert(seen[k] == x);
                        assert(seen.contains(x));
                    }
                }
                if seen.contains(x) {
                    let k = choose|k: int| 0 <= k < seen.len() && seen[k] == x;
                    assert(now[k] == x);
                }
                if x == c {
                    assert(now[i as int] == x);
                }
            }
        }
        i += 1;
    }
    proof {
        assert(v@.take(v.len() as int) =~= v@);
        assert(out@.to_set() =~= v@.to_set());
    }
    out
}

/// Puts `c` into `v` behind the last cell that comes no later than `c`.
pub fn insert_sorted(v: &mut Vec<Cell>, c: Cell)
    ensures
        final(v)@ == sorted_insert(old(v)@, c),
{
    let mut i: usize = v.len();
    while i > 0 && !cell_le(v[i - 1], c)
        invariant
            i <= v.len(),
            v@ == old(v)@,
            forall|k: int| i <= k < v.len() ==> !cell_leq(#[trigger] v@[k], c),
        decreases i,
    {
        i -= 1;
    }
    proof {
        lemma_sorted_insert_at(v@, c, i as int);
    }
    v.insert(i, c);
}

/// The cells of `v` in ascending order.
pub fn sorted_copy(v: &Vec<Cell>) -> (out: Vec<Cell>)
    ensures
        out@ == sort_cells(v@),
{
    let mut out: Vec<Cell> = Vec::new();
    let mut i: usize = 0;
    while i < v.len()
        invariant
            i <= v.len(),
            out@ == sort_cells(v@.take(i as int)),
        decreases v.len() - i,
    {
        insert_sorted(&mut out, v[i]);
        assert(v@.take(i + 1).drop_last() =~= v@.take(i as int));
        i += 1;
    }
    assert(v@.take(v.len() as int) =~= v@);
    out
}

} // verus!
