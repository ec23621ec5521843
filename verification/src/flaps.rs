//! A bird that moves one column at a time, one row up with a flap and one row down
//! without, through the openings of walls.

use vstd::prelude::*;

verus! {

/// The heights that the bird can have after `dx` columns, the first `count` of them
/// from the lowest, that lie in the opening from `lo` up to but not including `hi`:
/// for each, the wall's column, the height, and the number of flaps that lead there.
pub open spec fn landings(column: isize, lo: int, hi: int, y_min: int, count: nat) -> Seq<
    Seq<isize>,
>
    decreases count,
{
    if count == 0 {
        Seq::empty()
    } else {
        let before = landings(column, lo, hi, y_min, (count - 1) as nat);
        let height = y_min + 2 * (count - 1);
        if lo <= height < hi {
            before.push(seq![column, height as isize, (count - 1) as isize])
        } else {
            before
        }
    }
}

/// The number of heights that the bird can have after `dx` columns: one for each
/// number of flaps from 0 to `dx`, none if the wall lies behind the bird.
pub open spec fn reach_count(dx: int) -> nat {
    if dx < 0 {
        0
    } else {
        (dx + 1) as nat
    }
}

/// What each vector of `v` holds.
pub open spec fn rows(v: Seq<Vec<isize>>) -> Seq<Seq<isize>> {
    Seq::new(v.len(), |i: int| v[i]@)
}

/// The ways through the opening of a wall for a bird at column `x` and height `y`.
/// `obstacle` holds the wall's column, the lowest height of its opening and the
/// opening's size. Each way is the wall's column, the height at which the bird passes,
/// and the number of flaps it takes; the ways come with the lowest height first. There
/// is none if no height in the bird's reach lies in the opening.
pub fn take_obstacle(obstacle: &[isize], x: isize, y: isize) -> (ways: Option<Vec<Vec<isize>>>)
    requires
        obstacle@.len() >= 3,
        isize::MIN <= obstacle@[0] - x <= isize::MAX,
        isize::MIN <= (obstacle@[0] - x) + y <= isize::MAX,
        isize::MIN < obstacle@[0] - x,
        isize::MIN <= y - (obstacle@[0] - x) <= isize::MAX,
        isize::MIN <= obstacle@[1] + obstacle@[2] <= isize::MAX,
    ensures
        ways matches Some(w) ==> w@.len() > 0 && rows(w@) == landings(
            obstacle@[0],
            obstacle@[1] as int,
            obstacle@[1] + obstacle@[2],
            y - (obstacle@[0] - x),
            reach_count(obstacle@[0] - x),
        ),
        ways is None ==> landings(
            obstacle@[0],
            obstacle@[1] as int,
            obstacle@[1] + obstacle@[2],
            y - (obstacle@[0] - x),
            reach_count(obstacle@[0] - x),
        ).len() == 0,
{
    let dx = obstacle[0] - x;
    let y_max = dx + y;
    let y_min = -dx + y;
    let lo = obstacle[1];
    let hi = obstacle[1] + obstacle[2];
    let mut ways: Vec<Vec<isize>> = Vec::new();
    assert(rows(ways@) =~= Seq::<Seq<isize>>::empty());
    if dx >= 0 {
        let mut flaps: isize = 0;
        let mut height: isize = y_min;
        loop
            invariant_except_break
                0 <= flaps <= dx,
                height == y_min + 2 * flaps,
                rows(ways@) == landings(
                    obstacle@[0],
                    lo as int,
                    hi as int,
                    y_min as int,
                    flaps as nat,
                ),
            invariant
                dx == obstacle@[0] - x,
                y_min == y - dx,
                y_max == y + dx,
                lo == obstacle@[1],
                hi == obstacle@[1] + obstacle@[2],
                obstacle@.len() >= 3,
            ensures
                rows(ways@) == landings(
                    obstacle@[0],
                    lo as int,
                    hi as int,
                    y_min as int,
                    (dx + 1) as nat,
                ),
            decreases dx - flaps,
        {
            let ghost before = ways@;
            if lo <= height && height < hi {
                let mut way: Vec<isize> = Vec::new();
                way.push(obstacle[0]);
                way.push(height);
                way.push(flaps);
                assert(way@ =~= seq![obstacle@[0], height, flaps]);
                ways.push(way);
                assert(rows(ways@) =~= rows(before).push(seq![obstacle@[0], height, flaps]));
            }
            assert(rows(ways@) == landings(
                obstacle@[0],
                lo as int,
                hi as int,
                y_min as int,
                (flaps + 1) as nat,
            ));
            if flaps == dx {
                break ;
            }
            flaps = flaps + 1;
            height = height + 2;
        }
    }
    if ways.len() == 0 {
        assert(rows(ways@).len() == 0);
        None
    } else {
        assert(rows(ways@).len() == ways@.len());
        Some(ways)
    }
}

} // verus!
