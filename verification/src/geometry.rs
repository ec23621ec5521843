//! The hunter's jump pattern and the grid's extent.

use vstd::prelude::*;

verus! {

/// A grid cell as `(row, col)`.
pub type Cell = (isize, isize);

/// Whether row `r`, column `c` lies on a grid of the given extent.
pub open spec fn on_grid(r: int, c: int, width: int, height: int) -> bool {
    0 <= r < height && 0 <= c < width
}

/// Whether `p` lies on a grid of the given extent.
pub open spec fn in_bounds(p: Cell, width: isize, height: isize) -> bool {
    on_grid(p.0 as int, p.1 as int, width as int, height as int)
}

/// The eight relative offsets of one jump, in the order in which they are tried.
pub open spec fn jump_offset(k: int) -> (int, int) {
    if k == 0 {
        (2, 1)
    } else if k == 1 {
        (2, -1)
    } else if k == 2 {
        (1, 2)
    } else if k == 3 {
        (1, -2)
    } else if k == 4 {
        (-1, 2)
    } else if k == 5 {
        (-1, -2)
    } else if k == 6 {
        (-2, 1)
    } else {
        (-2, -1)
    }
}

/// Whether the `k`-th offset leads from `from` to `to`.
pub open spec fn jump_lands(from: Cell, k: int, to: Cell) -> bool {
    to.0 == from.0 + jump_offset(k).0 && to.1 == from.1 + jump_offset(k).1
}

/// Whether `to` is exactly one jump away from `from`.
pub open spec fn is_jump(from: Cell, to: Cell) -> bool {
    exists|k: int| 0 <= k < 8 && #[trigger] jump_lands(from, k, to)
}

/// The cells on the grid that the first `k` offsets reach from `from`, in offset order.
pub open spec fn jump_targets(from: Cell, width: isize, height: isize, k: nat) -> Seq<Cell>
    decreases k,
{
    if k == 0 {
        Seq::empty()
    } else {
        let before = jump_targets(from, width, height, (k - 1) as nat);
        let r = from.0 + jump_offset(k - 1).0;
        let c = from.1 + jump_offset(k - 1).1;
        if on_grid(r, c, width as int, height as int) {
            before.push((r as isize, c as isize))
        } else {
            before
        }
    }
}

/// Every cell of `jump_targets` is on the grid, one jump away, and listed once; every
/// cell on the grid that is one jump away is listed.
pub proof fn lemma_jump_targets(from: Cell, width: isize, height: isize, k: nat)
    requires
        k <= 8,
    ensures
        jump_targets(from, width, height, k).len() <= k,
        jump_targets(from, width, height, k).no_duplicates(),
        forall|q: Cell| #[trigger]
            jump_targets(from, width, height, k).contains(q) <==> in_bounds(q, width, height) && exists|
                j: int,
            | 0 <= j < k && #[trigger] jump_lands(from, j, q),
    decreases k,
{
    if k > 0 {
        lemma_jump_targets(from, width, height, (k - 1) as nat);
        let before = jump_targets(from, width, height, (k - 1) as nat);
        let now = jump_targets(from, width, height, k);
        let r = from.0 + jump_offset(k - 1).0;
        let c = from.1 + jump_offset(k - 1).1;
        assert forall|q: Cell| #[trigger]
            now.contains(q) <==> in_bounds(q, width, height) && exists|j: int|
                0 <= j < k && #[trigger] jump_lands(from, j, q) by {
            if now.contains(q) {
                if before.contains(q) {
                    let j = choose|j: int| 0 <= j < k - 1 && #[trigger] jump_lands(from, j, q);
                    assert(0 <= j < k && jump_lands(from, j, q));
                } else {
                    let i = choose|i: int| 0 <= i < now.len() && now[i] == q;
                    assert(on_grid(r, c, width as int, height as int));
                    assert(i == before.len());
                    assert(jump_lands(from, k - 1, q));
                }
            }
            if in_bounds(q, width, height) && exists|j: int|
                0 <= j < k && #[trigger] jump_lands(from, j, q) {
                let j = choose|j: int| 0 <= j < k && #[trigger] jump_lands(from, j, q);
                if j < k - 1 {
                    assert(before.contains(q));
                    let i = choose|i: int| 0 <= i < before.len() && before[i] == q;
                    assert(now[i] == q);
                } else {
                    assert(now[before.len() as int] == q);
                }
            }
        }
        if on_grid(r, c, width as int, height as int) {
            let q = (r as isize, c as isize);
            if before.contains(q) {
                let j = choose|j: int| 0 <= j < k - 1 && #[trigger] jump_lands(from, j, q);
                assert(jump_offset(j) == jump_offset(k - 1));
            }
        }
    }
}

/// Tests whether `end` lies on the grid.
pub fn is_valid_move(end: &Cell, width: isize, height: isize) -> (ok: bool)
    ensures
        ok == in_bounds(*end, width, height),
{
    end.0 >= 0 && end.0 < height && end.1 >= 0 && end.1 < width
}

/// The `k`-th relative offset of a jump.
pub fn jump_delta(k: usize) -> (d: (isize, isize))
    requires
        k < 8,
    ensures
        d.0 == jump_offset(k as int).0,
        d.1 == jump_offset(k as int).1,
{
    if k == 0 {
        (2, 1)
    } else if k == 1 {
        (2, -1)
    } else if k == 2 {
        (1, 2)
    } else if k == 3 {
        (1, -2)
    } else if k == 4 {
        (-1, 2)
    } else if k == 5 {
        (-1, -2)
    } else if k == 6 {
        (-2, 1)
    } else {
        (-2, -1)
    }
}

/// The cell that the `k`-th offset reaches from `from`, if it lies on the grid.
pub fn jump_to(from: Cell, k: usize, width: isize, height: isize) -> (to: Option<Cell>)
    requires
        k < 8,
    ensures
        to is Some <==> on_grid(
            from.0 + jump_offset(k as int).0,
            from.1 + jump_offset(k as int).1,
            width as int,
            height as int,
        ),
        to matches Some(q) ==> jump_lands(from, k as int, q) && in_bounds(q, width, height),
{
    let d = jump_delta(k);
    match (from.0.checked_add(d.0), from.1.checked_add(d.1)) {
        (Some(r), Some(c)) => {
            let q: Cell = (r, c);
            if is_valid_move(&q, width, height) {
                Some(q)
            } else {
                None
            }
        },
        _ => None,
    }
}

/// All cells on the grid that are one jump away from `from`, in offset order.
pub fn knight_moves(from: Cell, width: isize, height: isize) -> (moves: Vec<Cell>)
    ensures
        moves@ == jump_targets(from, width, height, 8),
        moves@.no_duplicates(),
        forall|q: Cell| #[trigger]
            moves@.contains(q) <==> in_bounds(q, width, height) && is_jump(from, q),
{
    let mut moves: Vec<Cell> = Vec::new();
    let mut k: usize = 0;
    while k < 8
        invariant
            k <= 8,
            moves@ == jump_targets(from, width, height, k as nat),
        decreases 8 - k,
    {
        if let Some(q) = jump_to(from, k, width, height) {
            moves.push(q);
        }
        k += 1;
    }
    proof {
        lemma_jump_targets(from, width, height, 8);
    }
    moves
}

} // verus!
