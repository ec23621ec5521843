//! The danger zone: every cell that the dragon can stand on after one jump, or two,
//! up to a given number of jumps.

use crate::cells::contains_cell;
use crate::geometry::{in_bounds, is_jump, knight_moves, Cell};
use vstd::prelude::*;

verus! {

/// The cells on the grid that are one jump away from a cell of `from`.
pub open spec fn hop(from: Set<Cell>, width: isize, height: isize) -> Set<Cell> {
    Set::new(
        |q: Cell|
            in_bounds(q, width, height) && exists|p: Cell| from.contains(p) && #[trigger] is_jump(p, q),
    )
}

/// The cells that exactly `k` jumps lead to from `starts`, each jump landing on the
/// grid.
pub open spec fn frontier(starts: Set<Cell>, k: nat, width: isize, height: isize) -> Set<Cell>
    decreases k,
{
    if k == 0 {
        starts
    } else {
        hop(frontier(starts, (k - 1) as nat, width, height), width, height)
    }
}

/// The cells that one jump, or two, up to `k` jumps lead to from `starts`.
pub open spec fn reachable_within(starts: Set<Cell>, k: nat, width: isize, height: isize) -> Set<
    Cell,
>
    decreases k,
{
    if k == 0 {
        Set::empty()
    } else {
        reachable_within(starts, (k - 1) as nat, width, height).union(
            frontier(starts, k, width, height),
        )
    }
}

/// One more jump never takes a cell out of the danger zone.
pub proof fn lemma_reachable_monotonic(starts: Set<Cell>, k: nat, width: isize, height: isize)
    ensures
        reachable_within(starts, k, width, height).subset_of(
            reachable_within(starts, k + 1, width, height),
        ),
{
}

/// The danger zone for one jump is what one jump reaches.
pub proof fn lemma_one_hop(starts: Set<Cell>, width: isize, height: isize)
    ensures
        reachable_within(starts, 1, width, height) == hop(starts, width, height),
{
    assert(frontier(starts, 0, width, height) == starts);
    assert(frontier(starts, 1, width, height) == hop(
        frontier(starts, 0, width, height),
        width,
        height,
    ));
    assert(reachable_within(starts, 0, width, height) =~= Set::<Cell>::empty());
    assert(reachable_within(starts, 1, width, height) =~= hop(starts, width, height));
}

/// More jumps never give a smaller danger zone.
pub proof fn lemma_reachable_grows(
    starts: Set<Cell>,
    k: nat,
    more: nat,
    width: isize,
    height: isize,
)
    requires
        k <= more,
    ensures
        reachable_within(starts, k, width, height).subset_of(
            reachable_within(starts, more, width, height),
        ),
    decreases more - k,
{
    if k < more {
        lemma_reachable_grows(starts, k, (more - 1) as nat, width, height);
        lemma_reachable_monotonic(starts, (more - 1) as nat, width, height);
    }
}

/// A cell is in the danger zone exactly if some number of jumps from 1 to `k` leads to it.
pub proof fn lemma_reachable_is_union(
    starts: Set<Cell>,
    k: nat,
    width: isize,
    height: isize,
    q: Cell,
)
    ensures
        reachable_within(starts, k, width, height).contains(q) <==> exists|j: nat|
            1 <= j <= k && #[trigger] frontier(starts, j, width, height).contains(q),
    decreases k,
{
    if k > 0 {
        lemma_reachable_is_union(starts, (k - 1) as nat, width, height, q);
        if reachable_within(starts, (k - 1) as nat, width, height).contains(q) {
            let j = choose|j: nat|
                1 <= j <= k - 1 && #[trigger] frontier(starts, j, width, height).contains(q);
            assert(1 <= j <= k && frontier(starts, j, width, height).contains(q));
        }
        if exists|j: nat| 1 <= j <= k && #[trigger] frontier(starts, j, width, height).contains(q) {
            let j = choose|j: nat|
                1 <= j <= k && #[trigger] frontier(starts, j, width, height).contains(q);
            if j < k {
                assert(1 <= j <= k - 1 && frontier(starts, j, width, height).contains(q));
            }
        }
    }
}

/// Whether `q` is on the grid and one jump away from one of the first `i` cells of `f`.
pub open spec fn hop_of_prefix(f: Seq<Cell>, i: int, q: Cell, width: isize, height: isize) -> bool {
    in_bounds(q, width, height) && exists|m: int| 0 <= m < i && #[trigger] is_jump(f[m], q)
}

/// The cells on the grid that are one jump away from a cell of `from`, each once.
pub fn expand(from: &[Cell], width: isize, height: isize) -> (next: Vec<Cell>)
    ensures
        next@.no_duplicates(),
        next@.to_set() == hop(from@.to_set(), width, height),
{
    let mut next: Vec<Cell> = Vec::new();
    let mut i: usize = 0;
    while i < from.len()
        invariant
            i <= from.len(),
            next@.no_duplicates(),
            forall|q: Cell| #[trigger]
                next@.contains(q) <==> hop_of_prefix(from@, i as int, q, width, height),
        decreases from.len() - i,
    {
        let moves = knight_moves(from[i], width, height);
        let mut j: usize = 0;
        while j < moves.len()
            invariant
                j <= moves.len(),
                i < from.len(),
                next@.no_duplicates(),
                forall|q: Cell| #[trigger]
                    moves@.contains(q) <==> in_bounds(q, width, height) && is_jump(
                        from@[i as int],
                        q,
                    ),
                forall|q: Cell| #[trigger]
                    next@.contains(q) <==> hop_of_prefix(from@, i as int, q, width, height) || (
                    exists|t: int| 0 <= t < j && moves@[t] == q),
            decreases moves.len() - j,
        {
            let q = moves[j];
            let ghost before = next@;
            if !contains_cell(next.as_slice(), q) {
                next.push(q);
            }
            proof {
                assert forall|x: Cell| #[trigger]
                    next@.contains(x) <==> hop_of_prefix(from@, i as int, x, width, height) || (
                    exists|t: int| 0 <= t < j + 1 && moves@[t] == x) by {
                    if next@.contains(x) {
                        let k = choose|k: int| 0 <= k < next@.len() && next@[k] == x;
                        if k < before.len() {
                            assert(before[k] == x);
                            assert(before.contains(x));
                            if !hop_of_prefix(from@, i as int, x, width, height) {
                                let t = choose|t: int| 0 <= t < j && moves@[t] == x;
                                assert(0 <= t < j + 1 && moves@[t] == x);
                            }
                        } else {
                            assert(0 <= j < j + 1 && moves@[j as int] == x);
                        }
                    }
                    if hop_of_prefix(from@, i as int, x, width, height) {
                        assert(before.contains(x));
                        let k = choose|k: int| 0 <= k < before.len() && before[k] == x;
                        assert(next@[k] == x);
                    }
                    if exists|t: int| 0 <= t < j + 1 && moves@[t] == x {
                        let t = choose|t: int| 0 <= t < j + 1 && moves@[t] == x;
                        if t < j {
                            assert(before.contains(x));
                            let k = choose|k: int| 0 <= k < before.len() && before[k] == x;
                            assert(next@[k] == x);
                        } else if before.contains(x) {
                            let k = choose|k: int| 0 <= k < before.len() && before[k] == x;
                            assert(next@[k] == x);
                        } else {
                            assert(next@[before.len() as int] == x);
                        }
                    }
                }
            }
            j += 1;
        }
        proof {
            assert forall|q: Cell| #[trigger]
                next@.contains(q) <==> hop_of_prefix(from@, i + 1, q, width, height) by {
                if next@.contains(q) {
                    if hop_of_prefix(from@, i as int, q, width, height) {
                        let m = choose|m: int| 0 <= m < i && #[trigger] is_jump(from@[m], q);
                        assert(0 <= m < i + 1 && is_jump(from@[m], q));
                    } else {
                        let t = choose|t: int| 0 <= t < moves.len() && moves@[t] == q;
                        assert(moves@.contains(q));
                        assert(0 <= i < i + 1 && is_jump(from@[i as int], q));
                    }
                }
                if hop_of_prefix(from@, i + 1, q, width, height) {
                    let m = choose|m: int| 0 <= m < i + 1 && #[trigger] is_jump(from@[m], q);
                    if m < i {
                        assert(hop_of_prefix(from@, i as int, q, width, height));
                    } else {
                        assert(moves@.contains(q));
                        let t = choose|t: int| 0 <= t < moves@.len() && moves@[t] == q;
                        assert(0 <= t < moves.len() && moves@[t] == q);
                    }
                }
            }
        }
        i += 1;
    }
    proof {
        let goal = hop(from@.to_set(), width, height);
        assert forall|q: Cell| next@.to_set().contains(q) <==> goal.contains(q) by {
            if next@.contains(q) {
                let m = choose|m: int| 0 <= m < from.len() && #[trigger] is_jump(from@[m], q);
                assert(from@.contains(from@[m]));
                assert(from@.to_set().contains(from@[m]) && is_jump(from@[m], q));
            }
            if goal.contains(q) {
                let p = choose|p: Cell| from@.to_set().contains(p) && #[trigger] is_jump(p, q);
                assert(from@.contains(p));
                let m = choose|m: int| 0 <= m < from@.len() && from@[m] == p;
                assert(0 <= m < from.len() && is_jump(from@[m], q));
                assert(hop_of_prefix(from@, from.len() as int, q, width, height));
            }
        }
        assert(next@.to_set() =~= goal);
    }
    next
}

/// Adds to `zone` the cells of `more` that it does not hold yet.
pub fn absorb(zone: &mut Vec<Cell>, more: &[Cell])
    requires
        old(zone)@.no_duplicates(),
    ensures
        final(zone)@.no_duplicates(),
        final(zone)@.to_set() == old(zone)@.to_set().union(more@.to_set()),
{
    let mut j: usize = 0;
    while j < more.len()
        invariant
            j <= more.len(),
            zone@.no_duplicates(),
            forall|q: Cell| #[trigger]
                zone@.contains(q) <==> old(zone)@.contains(q) || (exists|t: int|
                    0 <= t < j && more@[t] == q),
        decreases more.len() - j,
    {
        let q = more[j];
        let ghost before = zone@;
        if !contains_cell(zone.as_slice(), q) {
            zone.push(q);
        }
        proof {
            assert forall|x: Cell| #[trigger]
                zone@.contains(x) <==> old(zone)@.contains(x) || (exists|t: int|
                    0 <= t < j + 1 && more@[t] == x) by {
                if zone@.contains(x) {
                    let k = choose|k: int| 0 <= k < zone@.len() && zone@[k] == x;
                    if k < before.len() {
                        assert(before[k] == x);
                        assert(before.contains(x));
                        if !old(zone)@.contains(x) {
                            let t = choose|t: int| 0 <= t < j && more@[t] == x;
                            assert(0 <= t < j + 1 && more@[t] == x);
                        }
                    } else {
                        assert(0 <= j < j + 1 && more@[j as int] == x);
                    }
                }
                if old(zone)@.contains(x) {
                    assert(before.contains(x));
                    let k = choose|k: int| 0 <= k < before.len() && before[k] == x;
                    assert(zone@[k] == x);
                }
                if exists|t: int| 0 <= t < j + 1 && more@[t] == x {
                    let t = choose|t: int| 0 <= t < j + 1 && more@[t] == x;
                    if t < j {
                        assert(before.contains(x));
                    }
                    if before.contains(x) {
                        let k = choose|k: int| 0 <= k < before.len() && before[k] == x;
                        assert(zone@[k] == x);
                    } else {
                        assert(zone@[before.len() as int] == x);
                    }
                }
            }
        }
        j += 1;
    }
    proof {
        let goal = old(zone)@.to_set().union(more@.to_set());
        assert forall|q: Cell| zone@.to_set().contains(q) <==> goal.contains(q) by {
            if zone@.contains(q) && !old(zone)@.contains(q) {
                let t = choose|t: int| 0 <= t < more.len() && more@[t] == q;
                assert(more@.contains(q));
            }
            if more@.contains(q) {
                let t = choose|t: int| 0 <= t < more@.len() && more@[t] == q;
                assert(0 <= t < more.len() && more@[t] == q);
            }
        }
        assert(zone@.to_set() =~= goal);
    }
}

/// The danger zone of `starts`: every cell, each once, that one jump, or two, up to
/// `max_hops` jumps lead to from one of them.
pub fn reachable_within_hops(starts: &[Cell], max_hops: usize, width: isize, height: isize) -> (zone:
    Vec<Cell>)
    ensures
        zone@.no_duplicates(),
        zone@.to_set() == reachable_within(starts@.to_set(), max_hops as nat, width, height),
{
    let mut zone: Vec<Cell> = Vec::new();
    if max_hops == 0 {
        assert(zone@.to_set() =~= Set::<Cell>::empty());
        return zone;
    }
    let mut edge = expand(starts, width, height);
    absorb(&mut zone, edge.as_slice());
    proof {
        let from = starts@.to_set();
        assert(frontier(from, 0, width, height) == from);
        assert(frontier(from, 1, width, height) == hop(
            frontier(from, 0, width, height),
            width,
            height,
        ));
        assert(reachable_within(from, 0, width, height) =~= Set::<Cell>::empty());
        assert(zone@.to_set() =~= reachable_within(from, 1, width, height));
    }
    let mut k: usize = 1;
    while k < max_hops
        invariant
            1 <= k <= max_hops,
            zone@.no_duplicates(),
            edge@.to_set() == frontier(starts@.to_set(), k as nat, width, height),
            zone@.to_set() == reachable_within(starts@.to_set(), k as nat, width, height),
        decreases max_hops - k,
    {
        edge = expand(edge.as_slice(), width, height);
        absorb(&mut zone, edge.as_slice());
        k += 1;
    }
    zone
}

/// The danger zone of a dragon on `dragon` that has made `n` of at most `max` jumps:
/// every cell, each once, that one jump, or two, up to `max - n` jumps lead to.
/// `dimensions` is the grid's width and height.
pub fn move_dragon_max_times(dragon: Cell, n: isize, max: isize, dimensions: (isize, isize)) -> (zone:
    Vec<Cell>)
    requires
        n <= max,
    ensures
        zone@.no_duplicates(),
        zone@.to_set() == reachable_within(
            set![dragon],
            (max - n) as nat,
            dimensions.0,
            dimensions.1,
        ),
{
    let hops: usize = if n < 0 && max >= 0 {
        (max as usize) + ((-(n + 1)) as usize) + 1
    } else {
        (max - n) as usize
    };
    let mut start: Vec<Cell> = Vec::new();
    start.push(dragon);
    proof {
        assert(start@[0] == dragon);
        assert forall|x: Cell| start@.to_set().contains(x) implies x == dragon by {
            assert(start@.contains(x));
        }
        assert(start@.to_set() =~= set![dragon]);
    }
    reachable_within_hops(start.as_slice(), hops, dimensions.0, dimensions.1)
}

} // verus!
