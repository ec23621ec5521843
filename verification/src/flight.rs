//! The fewest flaps that take a bird through the openings of a row of walls.

use crate::flaps::{landings, reach_count, rows, take_obstacle};
use vstd::prelude::*;

verus! {

/// The largest column, height or size that a wall may have for a flight to be counted.
pub const FAR: isize = 1000000000;

/// What each opening of each wall holds.
pub open spec fn openings(walls: Seq<Vec<Vec<isize>>>) -> Seq<Seq<Seq<isize>>> {
    Seq::new(walls.len(), |k: int| rows(walls[k]@))
}

/// The column of the `k`-th wall, counted from 1; the bird starts at column 0.
pub open spec fn wall_x(walls: Seq<Seq<Seq<isize>>>, k: int) -> int {
    if k <= 0 {
        0
    } else {
        walls[k - 1][0][0] as int
    }
}

/// Whether the walls stand in ascending columns after column 0, each with at least
/// one opening, each opening given as the wall's column, its lowest height and its
/// size, none of them beyond `FAR`.
pub open spec fn well_built(walls: Seq<Seq<Seq<isize>>>) -> bool {
    &&& forall|k: int|
        #![trigger walls[k]]
        0 <= k < walls.len() ==> walls[k].len() >= 1 && wall_x(walls, k) <= wall_x(walls, k + 1)
            <= FAR
    &&& forall|k: int, j: int|
        #![trigger walls[k][j]]
        0 <= k < walls.len() && 0 <= j < walls[k].len() ==> walls[k][j].len() >= 3
            && walls[k][j][0] == walls[k][0][0] && -FAR <= walls[k][j][1] <= FAR && 0
            <= walls[k][j][2] <= FAR
}

/// Whether a bird at height `from` gets through the opening `ob`, `dx` columns on, at
/// height `to` with `n` flaps: each column takes it one up with a flap and one down
/// without.
pub open spec fn passes(ob: Seq<isize>, dx: int, from: int, to: int, n: int) -> bool {
    &&& 0 <= n <= dx
    &&& to == from - dx + 2 * n
    &&& ob[1] <= to < ob[1] + ob[2]
}

/// Whether the bird can be at height `y` behind the `k`-th wall after `f` flaps in all.
pub open spec fn reaches(walls: Seq<Seq<Seq<isize>>>, k: nat, y: int, f: int) -> bool
    decreases k,
{
    if k == 0 {
        y == 0 && f == 0
    } else {
        exists|from: int, j: int, n: int|
            0 <= j < walls[k - 1].len() && #[trigger] passes(
                walls[k - 1][j],
                wall_x(walls, k as int) - wall_x(walls, k - 1),
                from,
                y,
                n,
            ) && reaches(walls, (k - 1) as nat, from, f - n)
    }
}

/// Whether `f` is the fewest flaps that take the bird behind the last wall.
pub open spec fn fewest(walls: Seq<Seq<Seq<isize>>>, f: int) -> bool {
    &&& exists|y: int| #[trigger] reaches(walls, walls.len(), y, f)
    &&& forall|y: int, g: int| #[trigger] reaches(walls, walls.len(), y, g) ==> f <= g
}

/// Whether the bird can get behind all the walls.
pub open spec fn passable(walls: Seq<Seq<Seq<isize>>>) -> bool {
    exists|y: int, f: int| #[trigger] reaches(walls, walls.len(), y, f)
}

/// Whether `states` holds the height `y` with at most `f` flaps.
pub open spec fn holds_way(states: Seq<(isize, isize)>, y: int, f: int) -> bool {
    exists|a: int| 0 <= a < states.len() && (#[trigger] states[a]).0 == y && states[a].1 <= f
}

/// Whether no height stands twice in `states`.
pub open spec fn distinct(states: Seq<(isize, isize)>) -> bool {
    forall|a: int, b: int|
        #![trigger states[a], states[b]]
        0 <= a < b < states.len() ==> states[a].0 != states[b].0
}

/// Whether the bird can be, behind the `k`-th wall, at each height of `states` with
/// the flaps that stand with it.
pub open spec fn sound(walls: Seq<Seq<Seq<isize>>>, k: nat, states: Seq<(isize, isize)>) -> bool {
    forall|a: int|
        #![trigger states[a]]
        0 <= a < states.len() ==> reaches(walls, k, states[a].0 as int, states[a].1 as int)
}

/// Whether `states` holds every height that the first `upto` openings of a wall let
/// the bird pass at, coming from height `from` with `flaps` flaps, with no more flaps
/// than that way takes.
pub open spec fn covers(
    wall: Seq<Seq<isize>>,
    upto: int,
    dx: int,
    from: int,
    flaps: int,
    states: Seq<(isize, isize)>,
) -> bool {
    forall|t: int, n: int, y: int|
        0 <= t < upto && #[trigger] passes(wall[t], dx, from, y, n) ==> holds_way(
            states,
            y,
            flaps + n,
        )
}

/// Whether `after` holds every height that `before` holds, with no more flaps.
pub open spec fn keeps(before: Seq<(isize, isize)>, after: Seq<(isize, isize)>) -> bool {
    forall|y: int, f: int| #[trigger] holds_way(before, y, f) ==> holds_way(after, y, f)
}

/// Whether `states` holds, for each height that the bird can have behind the `k`-th
/// wall, that height once with the fewest flaps that lead there, and nothing else.
pub open spec fn best_states(walls: Seq<Seq<Seq<isize>>>, k: nat, states: Seq<(isize, isize)>) -> bool {
    &&& sound(walls, k, states)
    &&& forall|y: int, f: int| #[trigger] reaches(walls, k, y, f) ==> holds_way(states, y, f)
    &&& distinct(states)
}

/// Heights and flaps stay within the columns flown.
pub proof fn lemma_reaches_bound(walls: Seq<Seq<Seq<isize>>>, k: nat, y: int, f: int)
    requires
        well_built(walls),
        k <= walls.len(),
        reaches(walls, k, y, f),
    ensures
        -wall_x(walls, k as int) <= y <= wall_x(walls, k as int),
        0 <= f <= wall_x(walls, k as int),
        0 <= wall_x(walls, k as int) <= FAR,
    decreases k,
{
    if k > 0 {
        let (from, j, n) = choose|from: int, j: int, n: int|
            0 <= j < walls[k - 1].len() && #[trigger] passes(
                walls[k - 1][j],
                wall_x(walls, k as int) - wall_x(walls, k - 1),
                from,
                y,
                n,
            ) && reaches(walls, (k - 1) as nat, from, f - n);
        lemma_reaches_bound(walls, (k - 1) as nat, from, f - n);
        assert(walls[k - 1].len() >= 1);
    }
}

/// Whether the height that `n` flaps lead to from the lowest one, `y_min`, lies in the
/// opening from `lo` up to but not including `hi`.
pub open spec fn in_opening(lo: int, hi: int, y_min: int, n: int) -> bool {
    lo <= y_min + 2 * n < hi
}

/// The ways through an opening are the heights in it that the bird can reach, each
/// with its number of flaps.
pub proof fn lemma_landings(column: isize, lo: int, hi: int, y_min: int, count: nat)
    requires
        isize::MIN <= y_min,
        y_min + 2 * count <= isize::MAX,
        count <= isize::MAX,
    ensures
        forall|i: int|
            0 <= i < landings(column, lo, hi, y_min, count).len() ==> {
                let way = #[trigger] landings(column, lo, hi, y_min, count)[i];
                &&& way.len() == 3
                &&& way[0] == column
                &&& 0 <= way[2] < count
                &&& way[1] == y_min + 2 * way[2]
                &&& lo <= way[1] < hi
            },
        forall|n: int|
            0 <= n < count && #[trigger] in_opening(lo, hi, y_min, n) ==> exists|i: int|
                0 <= i < landings(column, lo, hi, y_min, count).len() && (#[trigger] landings(
                    column,
                    lo,
                    hi,
                    y_min,
                    count,
                )[i])[2] == n,
    decreases count,
{
    if count > 0 {
        lemma_landings(column, lo, hi, y_min, (count - 1) as nat);
        let before = landings(column, lo, hi, y_min, (count - 1) as nat);
        let now = landings(column, lo, hi, y_min, count);
        assert forall|i: int| 0 <= i < now.len() implies {
            let way = #[trigger] now[i];
            &&& way.len() == 3
            &&& way[0] == column
            &&& 0 <= way[2] < count
            &&& way[1] == y_min + 2 * way[2]
            &&& lo <= way[1] < hi
        } by {
            if i < before.len() {
                assert(now[i] == before[i]);
            }
        }
        assert forall|n: int| 0 <= n < count && #[trigger] in_opening(
            lo,
            hi,
            y_min,
            n,
        ) implies exists|i: int| 0 <= i < now.len() && (#[trigger] now[i])[2] == n by {
            if n < count - 1 {
                assert(in_opening(lo, hi, y_min, n));
                let i = choose|i: int| 0 <= i < before.len() && (#[trigger] before[i])[2] == n;
                assert(now[i] == before[i]);
            } else {
                assert(now[now.len() - 1][2] == n);
            }
        }
    }
}

/// Puts the height `y` with `f` flaps into `states`, or lowers its flaps to `f` if it
/// is there with more.
fn keep_fewest(states: &mut Vec<(isize, isize)>, y: isize, f: isize)
    requires
        distinct(old(states)@),
    ensures
        distinct(final(states)@),
        keeps(old(states)@, final(states)@),
        holds_way(final(states)@, y as int, f as int),
        forall|a: int|
            #![trigger final(states)@[a]]
            0 <= a < final(states)@.len() ==> final(states)@[a] == (y, f) || old(states)@.contains(
                final(states)@[a],
            ),
{
    let mut i: usize = 0;
    while i < states.len()
        invariant
            i <= states@.len(),
            states@ == old(states)@,
            distinct(old(states)@),
            forall|a: int| 0 <= a < i ==> (#[trigger] states@[a]).0 != y,
        decreases states.len() - i,
    {
        if states[i].0 == y {
            if f < states[i].1 {
                states.set(i, (y, f));
            }
            proof {
                let before = old(states)@;
                let after = states@;
                assert(after[i as int].0 == y && after[i as int].1 <= f);
                assert forall|a: int, b: int|
                    #![trigger after[a], after[b]]
                    0 <= a < b < after.len() implies after[a].0 != after[b].0 by {
                    assert(before[a].0 == after[a].0);
                    assert(before[b].0 == after[b].0);
                }
                assert forall|y2: int, f2: int| #[trigger] holds_way(before, y2, f2) implies holds_way(
                    after,
                    y2,
                    f2,
                ) by {
                    let a = choose|a: int|
                        0 <= a < before.len() && (#[trigger] before[a]).0 == y2 && before[a].1
                            <= f2;
                    assert(after[a].0 == y2 && after[a].1 <= f2);
                }
                assert forall|a: int| #![trigger after[a]] 0 <= a < after.len() implies after[a]
                    == (y, f) || before.contains(after[a]) by {
                    if a != i || after[a] == before[a] {
                        assert(before[a] == after[a]);
                    }
                }
            }
            return ;
        }
        i += 1;
    }
    states.push((y, f));
    proof {
        let before = old(states)@;
        let after = states@;
        assert(after[after.len() - 1] == (y, f));
        assert forall|y2: int, f2: int| #[trigger] holds_way(before, y2, f2) implies holds_way(
            after,
            y2,
            f2,
        ) by {
            let a = choose|a: int|
                0 <= a < before.len() && (#[trigger] before[a]).0 == y2 && before[a].1 <= f2;
            assert(after[a].0 == y2 && after[a].1 <= f2);
        }
        assert forall|a: int| #![trigger after[a]] 0 <= a < after.len() implies after[a] == (y, f)
            || before.contains(after[a]) by {
            if a < before.len() {
                assert(before[a] == after[a]);
            }
        }
    }
}

/// Whether every way is a column, a height and a number of flaps that can be added
/// to `flaps`.
pub open spec fn ways_fit(ways: Seq<Seq<isize>>, flaps: int) -> bool {
    forall|e: int|
        #![trigger ways[e]]
        0 <= e < ways.len() ==> ways[e].len() == 3 && isize::MIN <= flaps + ways[e][2]
            <= isize::MAX
}

/// Puts each of the ways into `states`, with `flaps` more flaps than the way takes.
fn add_ways(states: &mut Vec<(isize, isize)>, options: &Vec<Vec<isize>>, flaps: isize)
    requires
        distinct(old(states)@),
        ways_fit(rows(options@), flaps as int),
    ensures
        distinct(final(states)@),
        keeps(old(states)@, final(states)@),
        forall|e: int|
            #![trigger rows(options@)[e]]
            0 <= e < options@.len() ==> holds_way(
                final(states)@,
                rows(options@)[e][1] as int,
                flaps + rows(options@)[e][2],
            ),
        forall|a: int|
            #![trigger final(states)@[a]]
            0 <= a < final(states)@.len() ==> old(states)@.contains(final(states)@[a]) || exists|
                e: int,
            |
                0 <= e < options@.len() && final(states)@[a] == (
                    (#[trigger] rows(options@)[e])[1],
                    (flaps + rows(options@)[e][2]) as isize,
                ),
{
    let ghost ways = rows(options@);
    let mut o: usize = 0;
    while o < options.len()
        invariant
            o <= options@.len(),
            ways == rows(options@),
            ways_fit(ways, flaps as int),
            distinct(states@),
            keeps(old(states)@, states@),
            forall|e: int|
                #![trigger ways[e]]
                0 <= e < o ==> holds_way(states@, ways[e][1] as int, flaps + ways[e][2]),
            forall|a: int|
                #![trigger states@[a]]
                0 <= a < states@.len() ==> old(states)@.contains(states@[a]) || exists|e: int|
                    0 <= e < options@.len() && states@[a] == (
                        (#[trigger] ways[e])[1],
                        (flaps + ways[e][2]) as isize,
                    ),
        decreases options.len() - o,
    {
        let option = &options[o];
        assert(ways[o as int] == option@);
        let ghost before = states@;
        keep_fewest(states, option[1], flaps + option[2]);
        proof {
            let after = states@;
            assert forall|y: int, f: int| #[trigger] holds_way(old(states)@, y, f) implies holds_way(
                after,
                y,
                f,
            ) by {
                assert(holds_way(before, y, f));
            }
            assert forall|e: int| #![trigger ways[e]] 0 <= e < o + 1 implies holds_way(
                after,
                ways[e][1] as int,
                flaps + ways[e][2],
            ) by {
                if e < o {
                    assert(holds_way(before, ways[e][1] as int, flaps + ways[e][2]));
                }
            }
            assert forall|a: int| #![trigger after[a]] 0 <= a < after.len() implies old(
                states,
            )@.contains(after[a]) || exists|e: int|
                0 <= e < options@.len() && after[a] == (
                    (#[trigger] ways[e])[1],
                    (flaps + ways[e][2]) as isize,
                ) by {
                if after[a] == (option@[1], (flaps + option@[2]) as isize) {
                    assert(after[a] == (ways[o as int][1], (flaps + ways[o as int][2]) as isize));
                } else {
                    assert(before.contains(after[a]));
                    let b = choose|b: int| 0 <= b < before.len() && before[b] == after[a];
                    assert(old(states)@.contains(before[b]) || exists|e: int|
                        0 <= e < options@.len() && before[b] == (
                            (#[trigger] ways[e])[1],
                            (flaps + ways[e][2]) as isize,
                        ));
                }
            }
        }
        o += 1;
    }
}

/// Puts into `states` the heights at which the openings of the `k`-th wall, counted
/// from 0, let a bird pass that comes from height `curr_y` with `curr_flaps` flaps.
fn ways_from(
    walls: &Vec<Vec<Vec<isize>>>,
    k: usize,
    x: isize,
    curr_y: isize,
    curr_flaps: isize,
    states: &mut Vec<(isize, isize)>,
)
    requires
        well_built(openings(walls@)),
        k < walls@.len(),
        x == wall_x(openings(walls@), k as int),
        reaches(openings(walls@), k as nat, curr_y as int, curr_flaps as int),
        distinct(old(states)@),
        sound(openings(walls@), (k + 1) as nat, old(states)@),
    ensures
        distinct(final(states)@),
        sound(openings(walls@), (k + 1) as nat, final(states)@),
        keeps(old(states)@, final(states)@),
        covers(
            openings(walls@)[k as int],
            openings(walls@)[k as int].len() as int,
            wall_x(openings(walls@), k + 1) - wall_x(openings(walls@), k as int),
            curr_y as int,
            curr_flaps as int,
            final(states)@,
        ),
{
    let ghost w = openings(walls@);
    let ghost dx = wall_x(w, k + 1) - wall_x(w, k as int);
    let wall = &walls[k];
    proof {
        assert(w[k as int] == rows(wall@));
        assert(w[k as int].len() >= 1);
        lemma_reaches_bound(w, k as nat, curr_y as int, curr_flaps as int);
        assert(wall_x(w, k as int) <= wall_x(w, k + 1) <= FAR);
    }
    let mut j: usize = 0;
    while j < wall.len()
        invariant
            j <= wall@.len(),
            w == openings(walls@),
            well_built(w),
            k < walls@.len(),
            wall == walls@[k as int],
            w[k as int] == rows(wall@),
            x == wall_x(w, k as int),
            dx == wall_x(w, k + 1) - wall_x(w, k as int),
            0 <= dx <= FAR,
            reaches(w, k as nat, curr_y as int, curr_flaps as int),
            -x <= curr_y <= x,
            0 <= curr_flaps <= x,
            0 <= x <= FAR,
            distinct(states@),
            sound(w, (k + 1) as nat, states@),
            keeps(old(states)@, states@),
            covers(w[k as int], j as int, dx, curr_y as int, curr_flaps as int, states@),
        decreases wall.len() - j,
    {
        let opening = &wall[j];
        proof {
            assert(w[k as int][j as int] == opening@);
            assert(w[k as int][0] == wall@[0]@);
            assert(opening@.len() >= 3);
            assert(opening@[0] == w[k as int][0][0]);
            assert(wall_x(w, k + 1) == opening@[0]);
        }
        let ghost before = states@;
        let ghost y_min = curr_y - dx;
        let ghost count = reach_count(dx);
        let ghost all = landings(
            opening@[0],
            opening@[1] as int,
            opening@[1] + opening@[2],
            y_min,
            count,
        );
        let found = take_obstacle(opening.as_slice(), x, curr_y);
        proof {
            lemma_landings(
                opening@[0],
                opening@[1] as int,
                opening@[1] + opening@[2],
                y_min,
                count,
            );
        }
        if let Some(options) = found {
            assert(rows(options@) == all);
            assert(rows(options@).len() == options@.len());
            add_ways(states, &options, curr_flaps);
            proof {
                lemma_ways_sound(w, k as nat, j as int, curr_y as int, curr_flaps as int, before, states@, all);
            }
        }
        proof {
            let after = states@;
            assert forall|y: int, f: int| #[trigger] holds_way(old(states)@, y, f) implies holds_way(
                after,
                y,
                f,
            ) by {
                assert(holds_way(before, y, f));
            }
            assert forall|t: int, n: int, y: int|
                0 <= t < j + 1 && #[trigger] passes(
                    w[k as int][t],
                    dx,
                    curr_y as int,
                    y,
                    n,
                ) implies holds_way(after, y, curr_flaps + n) by {
                if t < j {
                    assert(holds_way(before, y, curr_flaps + n));
                } else {
                    assert(in_opening(opening@[1] as int, opening@[1] + opening@[2], y_min, n));
                    let e = choose|e: int| 0 <= e < all.len() && (#[trigger] all[e])[2] == n;
                    assert(all[e][1] == y);
                    assert(found is Some);
                    assert(rows(found->0@)[e] == all[e]);
                }
            }
        }
        j += 1;
    }
}

/// Ways through an opening lead where the bird can be behind the wall.
pub proof fn lemma_ways_sound(
    w: Seq<Seq<Seq<isize>>>,
    k: nat,
    j: int,
    curr_y: int,
    curr_flaps: int,
    before: Seq<(isize, isize)>,
    after: Seq<(isize, isize)>,
    all: Seq<Seq<isize>>,
)
    requires
        k < w.len(),
        0 <= j < w[k as int].len(),
        reaches(w, k, curr_y, curr_flaps),
        sound(w, k + 1, before),
        forall|i: int|
            0 <= i < all.len() ==> {
                let way = #[trigger] all[i];
                &&& way.len() == 3
                &&& 0 <= way[2] <= wall_x(w, k as int + 1) - wall_x(w, k as int)
                &&& way[1] == curr_y - (wall_x(w, k as int + 1) - wall_x(w, k as int)) + 2 * way[2]
                &&& w[k as int][j][1] <= way[1] < w[k as int][j][1] + w[k as int][j][2]
            },
        isize::MIN <= curr_flaps,
        curr_flaps + (wall_x(w, k as int + 1) - wall_x(w, k as int)) <= isize::MAX,
        forall|a: int|
            #![trigger after[a]]
            0 <= a < after.len() ==> before.contains(after[a]) || exists|e: int|
                0 <= e < all.len() && after[a] == (
                    (#[trigger] all[e])[1],
                    (curr_flaps + all[e][2]) as isize,
                ),
    ensures
        sound(w, k + 1, after),
{
    assert forall|a: int| #![trigger after[a]] 0 <= a < after.len() implies reaches(
        w,
        k + 1,
        after[a].0 as int,
        after[a].1 as int,
    ) by {
        if before.contains(after[a]) {
            let b = choose|b: int| 0 <= b < before.len() && before[b] == after[a];
            assert(reaches(w, k + 1, before[b].0 as int, before[b].1 as int));
        } else {
            let e = choose|e: int|
                0 <= e < all.len() && after[a] == (
                    (#[trigger] all[e])[1],
                    (curr_flaps + all[e][2]) as isize,
                );
            let n = all[e][2] as int;
            assert(passes(
                w[k as int][j],
                wall_x(w, (k + 1) as int) - wall_x(w, k as int + 1 - 1),
                curr_y,
                after[a].0 as int,
                n,
            ));
            assert(reaches(w, ((k + 1) - 1) as nat, curr_y, after[a].1 - n));
        }
    }
}

/// The heights that the bird can have behind the next wall, each with the fewest
/// flaps, from those behind the wall before.
fn next_states(
    walls: &Vec<Vec<Vec<isize>>>,
    k: usize,
    x: isize,
    current: &Vec<(isize, isize)>,
) -> (new: Vec<(isize, isize)>)
    requires
        well_built(openings(walls@)),
        k < walls@.len(),
        x == wall_x(openings(walls@), k as int),
        best_states(openings(walls@), k as nat, current@),
    ensures
        best_states(openings(walls@), (k + 1) as nat, new@),
{
    let ghost w = openings(walls@);
    let ghost dx = wall_x(w, k + 1) - wall_x(w, k as int);
    let mut new: Vec<(isize, isize)> = Vec::new();
    let mut a: usize = 0;
    while a < current.len()
        invariant
            a <= current@.len(),
            w == openings(walls@),
            well_built(w),
            k < walls@.len(),
            x == wall_x(w, k as int),
            dx == wall_x(w, k + 1) - wall_x(w, k as int),
            best_states(w, k as nat, current@),
            distinct(new@),
            sound(w, (k + 1) as nat, new@),
            forall|c: int|
                #![trigger current@[c]]
                0 <= c < a ==> covers(
                    w[k as int],
                    w[k as int].len() as int,
                    dx,
                    current@[c].0 as int,
                    current@[c].1 as int,
                    new@,
                ),
        decreases current.len() - a,
    {
        let (curr_y, curr_flaps) = current[a];
        let ghost before = new@;
        assert(reaches(w, k as nat, current@[a as int].0 as int, current@[a as int].1 as int));
        ways_from(walls, k, x, curr_y, curr_flaps, &mut new);
        proof {
            let after = new@;
            assert forall|c: int| #![trigger current@[c]] 0 <= c < a + 1 implies covers(
                w[k as int],
                w[k as int].len() as int,
                dx,
                current@[c].0 as int,
                current@[c].1 as int,
                after,
            ) by {
                if c < a {
                    assert(covers(
                        w[k as int],
                        w[k as int].len() as int,
                        dx,
                        current@[c].0 as int,
                        current@[c].1 as int,
                        before,
                    ));
                    assert forall|t: int, n: int, y: int|
                        0 <= t < w[k as int].len() && #[trigger] passes(
                            w[k as int][t],
                            dx,
                            current@[c].0 as int,
                            y,
                            n,
                        ) implies holds_way(after, y, current@[c].1 + n) by {
                        assert(holds_way(before, y, current@[c].1 + n));
                    }
                }
            }
        }
        a += 1;
    }
    proof {
        assert forall|y: int, f: int| #[trigger] reaches(w, (k + 1) as nat, y, f) implies holds_way(
            new@,
            y,
            f,
        ) by {
            let (from, j, n) = choose|from: int, j: int, n: int|
                0 <= j < w[k as int].len() && #[trigger] passes(
                    w[k as int][j],
                    wall_x(w, (k + 1) as int) - wall_x(w, k as int),
                    from,
                    y,
                    n,
                ) && reaches(w, k as nat, from, f - n);
            assert(holds_way(current@, from, f - n));
            let c = choose|c: int|
                0 <= c < current@.len() && (#[trigger] current@[c]).0 == from && current@[c].1 <= f
                    - n;
            assert(covers(
                w[k as int],
                w[k as int].len() as int,
                dx,
                current@[c].0 as int,
                current@[c].1 as int,
                new@,
            ));
            assert(passes(w[k as int][j], dx, current@[c].0 as int, y, n));
            assert(holds_way(new@, y, current@[c].1 + n));
            let i = choose|i: int|
                0 <= i < new@.len() && (#[trigger] new@[i]).0 == y && new@[i].1 <= current@[c].1
                    + n;
            assert(new@[i].0 == y && new@[i].1 <= f);
        }
    }
    new
}

/// The fewest flaps that take the bird from height 0 at column 0 behind all the
/// walls; `walls` holds them in the order of their columns, each with its openings.
/// There is none where the bird cannot get through.
pub fn fewest_flaps(walls: &Vec<Vec<Vec<isize>>>) -> (flaps: Option<isize>)
    requires
        well_built(openings(walls@)),
    ensures
        flaps is Some <==> passable(openings(walls@)),
        flaps matches Some(f) ==> fewest(openings(walls@), f as int),
{
    let ghost w = openings(walls@);
    let mut current: Vec<(isize, isize)> = Vec::new();
    current.push((0, 0));
    let mut x: isize = 0;
    let mut k: usize = 0;
    assert(best_states(w, 0, current@)) by {
        assert(current@[0] == (0isize, 0isize));
    }
    while k < walls.len()
        invariant
            k <= walls@.len(),
            w == openings(walls@),
            well_built(w),
            x == wall_x(w, k as int),
            best_states(w, k as nat, current@),
        decreases walls.len() - k,
    {
        current = next_states(walls, k, x, &current);
        proof {
            assert(w[k as int] == rows(walls@[k as int]@));
            assert(w[k as int].len() >= 1);
            assert(w[k as int][0] == walls@[k as int]@[0]@);
            assert(w[k as int][0].len() >= 3);
        }
        x = walls[k][0][0];
        k += 1;
    }
    if current.len() == 0 {
        return None;
    }
    let mut best = current[0].1;
    let mut i: usize = 1;
    while i < current.len()
        invariant
            1 <= i <= current@.len(),
            w == openings(walls@),
            best_states(w, walls@.len(), current@),
            exists|a: int| 0 <= a < i && (#[trigger] current@[a]).1 == best,
            forall|a: int| 0 <= a < i ==> best <= (#[trigger] current@[a]).1,
        decreases current.len() - i,
    {
        if current[i].1 < best {
            best = current[i].1;
        }
        i += 1;
    }
    proof {
        let a = choose|a: int| 0 <= a < current@.len() && (#[trigger] current@[a]).1 == best;
        assert(reaches(w, walls@.len(), current@[a].0 as int, best as int));
        assert(w.len() == walls@.len());
        assert(reaches(w, w.len(), current@[a].0 as int, best as int));
        assert(passable(w));
        assert forall|y: int, g: int| #[trigger] reaches(w, w.len(), y, g) implies best <= g by {
            assert(holds_way(current@, y, g));
            let c = choose|c: int|
                0 <= c < current@.len() && (#[trigger] current@[c]).0 == y && current@[c].1 <= g;
        }
    }
    Some(best)
}

/// The fewest flaps that take the bird behind all the walls.
pub fn bfs(walls: &Vec<Vec<Vec<isize>>>) -> (flaps: isize)
    requires
        well_built(openings(walls@)),
        passable(openings(walls@)),
    ensures
        fewest(openings(walls@), flaps as int),
{
    fewest_flaps(walls).unwrap()
}

} // verus!
