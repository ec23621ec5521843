//! Barrels on a grid of heights: fire spreads from a barrel to each neighbour that is
//! no higher.

use vstd::prelude::*;

verus! {

/// A grid point as `(row, col)`.
pub type Point = (isize, isize);

/// The heights of the barrels, row by row.
pub type Grid = Vec<Vec<usize>>;

/// Whether the grid has a row, every row is as long as the first, and the machine's
/// signed word can count rows and columns.
pub open spec fn well_shaped(grid: Seq<Vec<usize>>) -> bool {
    &&& 0 < grid.len() <= isize::MAX
    &&& grid[0]@.len() <= isize::MAX
    &&& forall|i: int| 0 <= i < grid.len() ==> (#[trigger] grid[i])@.len() == grid[0]@.len()
}

/// Whether `p` lies on the grid.
pub open spec fn in_grid(grid: Seq<Vec<usize>>, p: Point) -> bool {
    0 <= p.0 < grid.len() && 0 <= p.1 < grid[0]@.len()
}

/// The height of the barrel on `p`.
pub open spec fn height_at(grid: Seq<Vec<usize>>, p: Point) -> usize {
    grid[p.0 as int]@[p.1 as int]
}

/// Whether `b` is the neighbour of `a` below, above, to the right or to the left.
pub open spec fn adjacent(a: Point, b: Point) -> bool {
    ||| (b.0 == a.0 + 1 && b.1 == a.1)
    ||| (b.0 == a.0 - 1 && b.1 == a.1)
    ||| (b.0 == a.0 && b.1 == a.1 + 1)
    ||| (b.0 == a.0 && b.1 == a.1 - 1)
}

/// Whether fire spreads from `a` to `b`: both lie on the grid, they are neighbours, and
/// `b` is no higher than `a`.
pub open spec fn spreads(grid: Seq<Vec<usize>>, a: Point, b: Point) -> bool {
    in_grid(grid, a) && in_grid(grid, b) && adjacent(a, b) && height_at(grid, a) >= height_at(
        grid,
        b,
    )
}

/// Whether fire spreads along `path`, from each point to the next.
pub open spec fn is_path(grid: Seq<Vec<usize>>, path: Seq<Point>) -> bool {
    forall|i: int| 0 <= i < path.len() - 1 ==> spreads(grid, #[trigger] path[i], path[i + 1])
}

/// Whether fire that starts on the points `starts` gets to `c`.
pub open spec fn burns(grid: Seq<Vec<usize>>, starts: Seq<Point>, c: Point) -> bool {
    exists|path: Seq<Point>|
        path.len() >= 1 && starts.contains(path[0]) && path.last() == c && #[trigger] is_path(
            grid,
            path,
        )
}

/// Whether everything that fire spreads to from a point of `visited` is in `visited`
/// or in `stack`.
pub open spec fn closed(grid: Seq<Vec<usize>>, visited: Seq<Point>, stack: Seq<Point>) -> bool {
    forall|v: Point, w: Point|
        visited.contains(v) && #[trigger] spreads(grid, v, w) ==> visited.contains(w)
            || stack.contains(w)
}

/// The cells among the first `k` of a row that are not marked.
pub open spec fn unmarked_in_row(row: Seq<bool>, k: nat) -> nat
    decreases k,
{
    if k == 0 {
        0
    } else {
        unmarked_in_row(row, (k - 1) as nat) + (if row[k - 1] {
            0nat
        } else {
            1nat
        })
    }
}

/// The cells of the first `n` rows that are not marked.
pub open spec fn unmarked(seen: Seq<Vec<bool>>, n: nat) -> nat
    decreases n,
{
    if n == 0 {
        0
    } else {
        unmarked(seen, (n - 1) as nat) + unmarked_in_row(seen[n - 1]@, seen[n - 1]@.len())
    }
}

/// Marking a cell of a row leaves one unmarked cell fewer.
pub proof fn lemma_mark_in_row(row: Seq<bool>, c: int, k: nat)
    requires
        0 <= c < row.len(),
        k <= row.len(),
        !row[c],
    ensures
        unmarked_in_row(row.update(c, true), k) == unmarked_in_row(row, k) - (if c < k {
            1int
        } else {
            0int
        }),
    decreases k,
{
    if k > 0 {
        lemma_mark_in_row(row, c, (k - 1) as nat);
    }
}

/// Marking a cell of a grid leaves one unmarked cell fewer.
pub proof fn lemma_mark(before: Seq<Vec<bool>>, after: Seq<Vec<bool>>, r: int, c: int, n: nat)
    requires
        0 <= r < before.len(),
        0 <= c < before[r]@.len(),
        !before[r]@[c],
        n <= before.len(),
        after.len() == before.len(),
        after[r]@ == before[r]@.update(c, true),
        forall|i: int| 0 <= i < before.len() && i != r ==> after[i]@ == before[i]@,
    ensures
        unmarked(after, n) == unmarked(before, n) - (if r < n {
            1int
        } else {
            0int
        }),
    decreases n,
{
    if n > 0 {
        lemma_mark(before, after, r, c, (n - 1) as nat);
        if n - 1 == r {
            lemma_mark_in_row(before[r]@, c, before[r]@.len());
        }
    }
}

/// Fire that gets to a point gets on to where it spreads from there.
pub proof fn lemma_burns_on(grid: Seq<Vec<usize>>, starts: Seq<Point>, a: Point, b: Point)
    requires
        burns(grid, starts, a),
        spreads(grid, a, b),
    ensures
        burns(grid, starts, b),
{
    let path = choose|path: Seq<Point>|
        path.len() >= 1 && starts.contains(path[0]) && path.last() == a && #[trigger] is_path(
            grid,
            path,
        );
    let longer = path.push(b);
    assert forall|i: int| 0 <= i < longer.len() - 1 implies spreads(
        grid,
        #[trigger] longer[i],
        longer[i + 1],
    ) by {
        if i < path.len() - 1 {
            assert(spreads(grid, path[i], path[i + 1]));
        }
    }
    assert(longer[0] == path[0]);
    assert(is_path(grid, longer));
}

/// A set of points that holds the starts, and everything that fire spreads to from
/// its points, holds every point of a path of fire.
pub proof fn lemma_closed_holds_path(
    grid: Seq<Vec<usize>>,
    starts: Seq<Point>,
    visited: Seq<Point>,
    path: Seq<Point>,
    k: int,
)
    requires
        closed(grid, visited, Seq::empty()),
        forall|i: int| 0 <= i < starts.len() ==> visited.contains(#[trigger] starts[i]),
        path.len() >= 1,
        starts.contains(path[0]),
        is_path(grid, path),
        0 <= k < path.len(),
    ensures
        visited.contains(path[k]),
    decreases k,
{
    if k == 0 {
        let i = choose|i: int| 0 <= i < starts.len() && starts[i] == path[0];
        assert(visited.contains(starts[i]));
    } else {
        lemma_closed_holds_path(grid, starts, visited, path, k - 1);
        assert(spreads(grid, path[k - 1], path[k - 1 + 1]));
        assert(!Seq::<Point>::empty().contains(path[k]));
    }
}

/// Whether fire spreads from `point_0`, a point of the grid, to `point_1`.
pub fn is_valid_move(grid: &Grid, point_0: &Point, point_1: &Point) -> (ok: bool)
    requires
        well_shaped(grid@),
        in_grid(grid@, *point_0),
    ensures
        ok == (in_grid(grid@, *point_1) && height_at(grid@, *point_0) >= height_at(
            grid@,
            *point_1,
        )),
{
    let width = grid[0].len();
    let height = grid.len();
    if point_1.0 >= 0 && point_1.0 < height as isize && point_1.1 >= 0 && point_1.1
        < width as isize {
        assert(grid@[point_0.0 as int]@.len() == grid@[0]@.len());
        assert(grid@[point_1.0 as int]@.len() == grid@[0]@.len());
        grid[point_0.0 as usize][point_0.1 as usize] >= grid[point_1.0 as usize][point_1.1 as usize]
    } else {
        false
    }
}

/// Puts `to` on the stack if fire spreads there from `from`.
fn push_if_spreads(grid: &Grid, stack: &mut Vec<Point>, from: Point, to: Point)
    requires
        well_shaped(grid@),
        in_grid(grid@, from),
        adjacent(from, to),
    ensures
        final(stack)@ == (if spreads(grid@, from, to) {
            old(stack)@.push(to)
        } else {
            old(stack)@
        }),
{
    if is_valid_move(grid, &from, &to) {
        stack.push(to);
    }
}

/// A grid of marks as large as `grid`, with no cell marked.
fn no_marks(grid: &Grid) -> (seen: Vec<Vec<bool>>)
    requires
        well_shaped(grid@),
    ensures
        seen@.len() == grid@.len(),
        forall|r: int| 0 <= r < seen@.len() ==> (#[trigger] seen@[r])@.len() == grid@[0]@.len(),
        forall|r: int, c: int|
            0 <= r < seen@.len() && 0 <= c < grid@[0]@.len() ==> !(#[trigger] seen@[r]@[c]),
{
    let width = grid[0].len();
    let mut seen: Vec<Vec<bool>> = Vec::new();
    let mut r: usize = 0;
    while r < grid.len()
        invariant
            r <= grid@.len(),
            width == grid@[0]@.len(),
            seen@.len() == r,
            forall|y: int| 0 <= y < seen@.len() ==> (#[trigger] seen@[y])@.len() == width,
            forall|y: int, x: int| 0 <= y < seen@.len() && 0 <= x < width ==> !(#[trigger] seen@[y]@[x]),
        decreases grid.len() - r,
    {
        let mut row: Vec<bool> = Vec::new();
        let mut c: usize = 0;
        while c < width
            invariant
                c <= width,
                row@.len() == c,
                forall|x: int| 0 <= x < c ==> !(#[trigger] row@[x]),
            decreases width - c,
        {
            row.push(false);
            c += 1;
        }
        seen.push(row);
        r += 1;
    }
    seen
}

/// The barrels that burn when fire starts on the points `start`: each point, once,
/// that fire gets to by spreading from barrel to barrel.
pub fn fire_from(grid: &Grid, start: &[Point]) -> (visited: Vec<Point>)
    requires
        well_shaped(grid@),
        forall|i: int| 0 <= i < start@.len() ==> in_grid(grid@, #[trigger] start@[i]),
    ensures
        visited@.no_duplicates(),
        forall|c: Point| #[trigger] visited@.contains(c) <==> burns(grid@, start@, c),
{
    let mut seen = no_marks(grid);
    let mut visited: Vec<Point> = Vec::new();
    let mut stack: Vec<Point> = Vec::new();
    let mut s: usize = 0;
    while s < start.len()
        invariant
            s <= start@.len(),
            stack@ == start@.take(s as int),
        decreases start.len() - s,
    {
        stack.push(start[s]);
        assert(start@.take(s + 1) =~= start@.take(s as int).push(start@[s as int]));
        s += 1;
    }
    proof {
        assert(start@.take(start@.len() as int) =~= start@);
        assert forall|c: Point| stack@.contains(c) implies burns(grid@, start@, c) by {
            let path = seq![c];
            assert(path[0] == c);
            assert(is_path(grid@, path));
        }
    }
    while stack.len() > 0
        invariant
            well_shaped(grid@),
            seen@.len() == grid@.len(),
            forall|r: int| 0 <= r < seen@.len() ==> (#[trigger] seen@[r])@.len() == grid@[0]@.len(),
            visited@.no_duplicates(),
            forall|c: Point| #[trigger] visited@.contains(c) ==> in_grid(grid@, c) && burns(grid@, start@, c),
            forall|c: Point| #[trigger] stack@.contains(c) ==> in_grid(grid@, c) && burns(grid@, start@, c),
            forall|c: Point|
                in_grid(grid@, c) ==> (#[trigger] visited@.contains(c) <==> seen@[c.0 as int]@[c.1 as int]),
            forall|i: int|
                0 <= i < start@.len() ==> visited@.contains(#[trigger] start@[i]) || stack@.contains(
                    start@[i],
                ),
            closed(grid@, visited@, stack@),
        decreases unmarked(seen@, seen@.len()), stack@.len(),
    {
        let ghost old_stack = stack@;
        let ghost old_visited = visited@;
        let ghost old_seen = seen@;
        let current = stack.pop().unwrap();
        assert(old_stack.contains(current)) by {
            assert(old_stack[old_stack.len() - 1] == current);
        }
        assert(old_stack =~= stack@.push(current));
        let row = current.0 as usize;
        let col = current.1 as usize;
        if seen[row][col] {
            proof {
                assert(visited@.contains(current));
                assert forall|v: Point, w: Point|
                    visited@.contains(v) && #[trigger] spreads(grid@, v, w) implies visited@.contains(
                    w,
                ) || stack@.contains(w) by {
                    if !visited@.contains(w) {
                        assert(old_stack.contains(w));
                        let k = choose|k: int| 0 <= k < old_stack.len() && old_stack[k] == w;
                        assert(stack@[k] == w);
                    }
                }
                assert forall|i: int| 0 <= i < start@.len() implies visited@.contains(
                    #[trigger] start@[i],
                ) || stack@.contains(start@[i]) by {
                    if !visited@.contains(start@[i]) {
                        assert(old_stack.contains(start@[i]));
                        let k = choose|k: int|
                            0 <= k < old_stack.len() && old_stack[k] == start@[i];
                        assert(stack@[k] == start@[i]);
                    }
                }
                assert forall|c: Point| #[trigger] stack@.contains(c) implies in_grid(grid@, c)
                    && burns(grid@, start@, c) by {
                    let k = choose|k: int| 0 <= k < stack@.len() && stack@[k] == c;
                    assert(old_stack[k] == c);
                    assert(old_stack.contains(c));
                }
            }
        } else {
            let mut marks: Vec<bool> = Vec::new();
            std::mem::swap(&mut marks, &mut seen[row]);
            marks.set(col, true);
            seen.set(row, marks);
            visited.push(current);
            let ghost popped = stack@;
            push_if_spreads(grid, &mut stack, current, (current.0 + 1, current.1));
            push_if_spreads(grid, &mut stack, current, (current.0 - 1, current.1));
            push_if_spreads(grid, &mut stack, current, (current.0, current.1 + 1));
            push_if_spreads(grid, &mut stack, current, (current.0, current.1 - 1));
            proof {
                lemma_mark(old_seen, seen@, row as int, col as int, old_seen.len());
                assert(!old_visited.contains(current));
                assert(visited@ == old_visited.push(current));
                assert forall|c: Point| popped.contains(c) implies stack@.contains(c) by {
                    let k = choose|k: int| 0 <= k < popped.len() && popped[k] == c;
                    assert(stack@[k] == c);
                }
                assert forall|c: Point| old_visited.contains(c) implies visited@.contains(c) by {
                    let k = choose|k: int| 0 <= k < old_visited.len() && old_visited[k] == c;
                    assert(visited@[k] == c);
                }
                assert(visited@[old_visited.len() as int] == current);
                assert(visited@.contains(current));
                assert forall|c: Point| #[trigger] visited@.contains(c) implies in_grid(grid@, c)
                    && burns(grid@, start@, c) by {
                    let k = choose|k: int| 0 <= k < visited@.len() && visited@[k] == c;
                    if k < old_visited.len() {
                        assert(old_visited[k] == c);
                        assert(old_visited.contains(c));
                    }
                }
                assert forall|c: Point| #[trigger] stack@.contains(c) implies in_grid(grid@, c)
                    && burns(grid@, start@, c) by {
                    let k = choose|k: int| 0 <= k < stack@.len() && stack@[k] == c;
                    if k < popped.len() {
                        assert(old_stack[k] == c);
                        assert(old_stack.contains(c));
                    } else {
                        assert(spreads(grid@, current, c));
                        lemma_burns_on(grid@, start@, current, c);
                    }
                }
                assert forall|c: Point| in_grid(grid@, c) implies (#[trigger] visited@.contains(c)
                    <==> seen@[c.0 as int]@[c.1 as int]) by {
                    assert(old_visited.contains(c) <==> old_seen[c.0 as int]@[c.1 as int]);
                    if visited@.contains(c) && c != current {
                        let k = choose|k: int| 0 <= k < visited@.len() && visited@[k] == c;
                        assert(old_visited[k] == c);
                        assert(old_visited.contains(c));
                    }
                }
                assert forall|v: Point, w: Point|
                    visited@.contains(v) && #[trigger] spreads(grid@, v, w) implies visited@.contains(
                    w,
                ) || stack@.contains(w) by {
                    if v == current {
                        let a: Point = ((current.0 + 1) as isize, current.1);
                        let b: Point = ((current.0 - 1) as isize, current.1);
                        let c: Point = (current.0, (current.1 + 1) as isize);
                        let d: Point = (current.0, (current.1 - 1) as isize);
                        assert(w == a || w == b || w == c || w == d);
                        assert(stack@[stack@.len() - 1] == w || stack@[stack@.len() - 2] == w
                            || stack@[stack@.len() - 3] == w || stack@[stack@.len() - 4] == w);
                    } else {
                        let k = choose|k: int| 0 <= k < visited@.len() && visited@[k] == v;
                        assert(old_visited[k] == v);
                        assert(old_visited.contains(v));
                        if old_visited.contains(w) {
                        } else {
                            assert(old_stack.contains(w));
                            if w != current {
                                let j = choose|j: int| 0 <= j < old_stack.len() && old_stack[j] == w;
                                assert(popped[j] == w);
                                assert(popped.contains(w));
                            }
                        }
                    }
                }
                assert forall|i: int| 0 <= i < start@.len() implies visited@.contains(
                    #[trigger] start@[i],
                ) || stack@.contains(start@[i]) by {
                    let c = start@[i];
                    if old_visited.contains(c) {
                    } else if c != current {
                        assert(old_stack.contains(c));
                        let j = choose|j: int| 0 <= j < old_stack.len() && old_stack[j] == c;
                        assert(popped[j] == c);
                        assert(popped.contains(c));
                    }
                }
            }
        }
    }
    proof {
        assert(stack@ =~= Seq::<Point>::empty());
        assert forall|c: Point| burns(grid@, start@, c) implies visited@.contains(c) by {
            let path = choose|path: Seq<Point>|
                path.len() >= 1 && start@.contains(path[0]) && path.last() == c
                    && #[trigger] is_path(grid@, path);
            assert forall|i: int| 0 <= i < start@.len() implies visited@.contains(
                #[trigger] start@[i],
            ) by {
                assert(!stack@.contains(start@[i]));
            }
            lemma_closed_holds_path(grid@, start@, visited@, path, path.len() - 1);
        }
    }
    visited
}

/// The barrels that burn when fire starts on the points `start`: each point, once,
/// that fire gets to by spreading from barrel to barrel.
pub fn dfs_connected_barrels(grid: Grid, start: Vec<Point>) -> (visited: Vec<Point>)
    requires
        well_shaped(grid@),
        forall|i: int| 0 <= i < start@.len() ==> in_grid(grid@, #[trigger] start@[i]),
    ensures
        visited@.no_duplicates(),
        forall|c: Point| #[trigger] visited@.contains(c) <==> burns(grid@, start@, c),
{
    fire_from(&grid, start.as_slice())
}

/// The barrels that burn when fire starts on `p`.
pub open spec fn fire_of(grid: Seq<Vec<usize>>, p: Point) -> Set<Point> {
    Set::new(|c: Point| burns(grid, seq![p], c))
}

/// How many barrels outside `exclude` burn when fire starts on `p`.
pub open spec fn gain(grid: Seq<Vec<usize>>, exclude: Set<Point>, p: Point) -> nat {
    fire_of(grid, p).difference(exclude).len()
}

/// Fire that starts on a barrel which another fire gets to burns nothing that the
/// other fire spares.
pub proof fn lemma_fire_within(grid: Seq<Vec<usize>>, p: Point, c: Point)
    requires
        burns(grid, seq![p], c),
    ensures
        fire_of(grid, c).subset_of(fire_of(grid, p)),
{
    assert forall|d: Point| fire_of(grid, c).contains(d) implies fire_of(grid, p).contains(d) by {
        let first = choose|path: Seq<Point>|
            path.len() >= 1 && seq![p].contains(path[0]) && path.last() == c
                && #[trigger] is_path(grid, path);
        let second = choose|path: Seq<Point>|
            path.len() >= 1 && seq![c].contains(path[0]) && path.last() == d
                && #[trigger] is_path(grid, path);
        assert(second[0] == c) by {
            let i = choose|i: int| 0 <= i < seq![c].len() && seq![c][i] == second[0];
        }
        let whole = first + second.skip(1);
        assert forall|i: int| 0 <= i < whole.len() - 1 implies spreads(
            grid,
            #[trigger] whole[i],
            whole[i + 1],
        ) by {
            if i < first.len() - 1 {
                assert(spreads(grid, first[i], first[i + 1]));
            } else {
                let j = i - first.len() + 1;
                assert(spreads(grid, second[j], second[j + 1]));
            }
        }
        assert(whole[0] == first[0]);
        assert(is_path(grid, whole));
        assert(whole.last() == d);
    }
}

/// Whether `p` is in `points`.
pub fn contains_point(points: &[Point], p: Point) -> (found: bool)
    ensures
        found == points@.contains(p),
{
    let mut i: usize = 0;
    while i < points.len()
        invariant
            i <= points@.len(),
            forall|k: int| 0 <= k < i ==> points@[k] != p,
        decreases points.len() - i,
    {
        if points[i].0 == p.0 && points[i].1 == p.1 {
            return true;
        }
        i += 1;
    }
    false
}

/// How many of `barrels` are not in `exclude`.
pub fn count_new(barrels: &[Point], exclude: &[Point]) -> (count: usize)
    requires
        barrels@.no_duplicates(),
    ensures
        count == barrels@.to_set().difference(exclude@.to_set()).len(),
{
    let mut new: Vec<Point> = Vec::new();
    let mut i: usize = 0;
    while i < barrels.len()
        invariant
            i <= barrels@.len(),
            barrels@.no_duplicates(),
            new@.no_duplicates(),
            forall|c: Point| #[trigger]
                new@.contains(c) <==> (exists|k: int| 0 <= k < i && barrels@[k] == c)
                    && !exclude@.contains(c),
        decreases barrels.len() - i,
    {
        let b = barrels[i];
        let ghost before = new@;
        if !contains_point(exclude, b) {
            new.push(b);
            proof {
                if before.contains(b) {
                    let k = choose|k: int| 0 <= k < i && barrels@[k] == b;
                    assert(barrels@[k] == barrels@[i as int]);
                }
            }
        }
        proof {
            assert forall|c: Point| #[trigger]
                new@.contains(c) <==> (exists|k: int| 0 <= k < i + 1 && barrels@[k] == c)
                    && !exclude@.contains(c) by {
                if new@.contains(c) {
                    let j = choose|j: int| 0 <= j < new@.len() && new@[j] == c;
                    if j < before.len() {
                        assert(before[j] == c);
                        assert(before.contains(c));
                        let k = choose|k: int| 0 <= k < i && barrels@[k] == c;
                        assert(0 <= k < i + 1 && barrels@[k] == c);
                    } else {
                        assert(0 <= i < i + 1 && barrels@[i as int] == c);
                    }
                }
                if (exists|k: int| 0 <= k < i + 1 && barrels@[k] == c) && !exclude@.contains(c) {
                    let k = choose|k: int| 0 <= k < i + 1 && barrels@[k] == c;
                    if k < i {
                        assert(before.contains(c));
                        let j = choose|j: int| 0 <= j < before.len() && before[j] == c;
                        assert(new@[j] == c);
                    } else {
                        assert(new@[before.len() as int] == c);
                    }
                }
            }
        }
        i += 1;
    }
    proof {
        let goal = barrels@.to_set().difference(exclude@.to_set());
        assert forall|c: Point| new@.to_set().contains(c) <==> goal.contains(c) by {
            if new@.contains(c) {
                let k = choose|k: int| 0 <= k < barrels@.len() && barrels@[k] == c;
                assert(barrels@.contains(c));
            }
            if goal.contains(c) {
                assert(barrels@.contains(c));
                let k = choose|k: int| 0 <= k < barrels@.len() && barrels@[k] == c;
                assert(0 <= k < barrels@.len() && barrels@[k] == c);
            }
        }
        assert(new@.to_set() =~= goal);
        new@.unique_seq_to_set();
    }
    new.len()
}

/// Adds to `all` the points of `more` that it does not hold yet.
pub fn add_points(all: &mut Vec<Point>, more: &[Point])
    ensures
        forall|c: Point| #[trigger]
            final(all)@.contains(c) <==> old(all)@.contains(c) || more@.contains(c),
{
    let mut j: usize = 0;
    while j < more.len()
        invariant
            j <= more@.len(),
            forall|c: Point| #[trigger]
                all@.contains(c) <==> old(all)@.contains(c) || (exists|t: int|
                    0 <= t < j && more@[t] == c),
        decreases more.len() - j,
    {
        let q = more[j];
        let ghost before = all@;
        if !contains_point(all.as_slice(), q) {
            all.push(q);
        }
        proof {
            assert forall|x: Point| #[trigger]
                all@.contains(x) <==> old(all)@.contains(x) || (exists|t: int|
                    0 <= t < j + 1 && more@[t] == x) by {
                if all@.contains(x) {
                    let k = choose|k: int| 0 <= k < all@.len() && all@[k] == x;
                    if k < before.len() {
                        assert(before[k] == x);
                        assert(before.contains(x));
                        if !old(all)@.contains(x) {
                            let t = choose|t: int| 0 <= t < j && more@[t] == x;
                            assert(0 <= t < j + 1 && more@[t] == x);
                        }
                    } else {
                        assert(0 <= j < j + 1 && more@[j as int] == x);
                    }
                }
                if old(all)@.contains(x) {
                    assert(before.contains(x));
                    let k = choose|k: int| 0 <= k < before.len() && before[k] == x;
                    assert(all@[k] == x);
                }
                if exists|t: int| 0 <= t < j + 1 && more@[t] == x {
                    let t = choose|t: int| 0 <= t < j + 1 && more@[t] == x;
                    if t < j {
                        assert(before.contains(x));
                    }
                    if before.contains(x) {
                        let k = choose|k: int| 0 <= k < before.len() && before[k] == x;
                        assert(all@[k] == x);
                    } else {
                        assert(all@[before.len() as int] == x);
                    }
                }
            }
        }
        j += 1;
    }
    proof {
        assert forall|c: Point| #[trigger]
            all@.contains(c) <==> old(all)@.contains(c) || more@.contains(c) by {
            if all@.contains(c) && !old(all)@.contains(c) {
                let t = choose|t: int| 0 <= t < more@.len() && more@[t] == c;
                assert(more@.contains(c));
            }
            if more@.contains(c) {
                let t = choose|t: int| 0 <= t < more@.len() && more@[t] == c;
                assert(0 <= t < more@.len() && more@[t] == c);
            }
        }
    }
}

/// Whether `q` comes before row `r`, column `c` when the grid is read row by row.
pub open spec fn comes_before(q: Point, r: int, c: int) -> bool {
    q.0 < r || (q.0 == r && q.1 < c)
}

/// A barrel outside `exclude` whose fire burns the most barrels outside `exclude`,
/// and the barrels that its fire burns.
pub fn greedy_check(grid: &Grid, exclude: &[Point]) -> (best: (Point, Vec<Point>))
    requires
        well_shaped(grid@),
        exists|q: Point| in_grid(grid@, q) && !exclude@.contains(q),
    ensures
        in_grid(grid@, best.0),
        !exclude@.contains(best.0),
        best.1@.no_duplicates(),
        forall|c: Point| #[trigger] best.1@.contains(c) <==> burns(grid@, seq![best.0], c),
        forall|q: Point|
            in_grid(grid@, q) && !exclude@.contains(q) ==> #[trigger] gain(
                grid@,
                exclude@.to_set(),
                q,
            ) <= gain(grid@, exclude@.to_set(), best.0),
{
    let height = grid.len();
    let width = grid[0].len();
    let mut visited: Vec<Point> = Vec::new();
    let mut best_point: Option<Point> = None;
    let mut best_count: usize = 0;
    let mut r: usize = 0;
    while r < height
        invariant
            r <= height,
            height == grid@.len(),
            width == grid@[0]@.len(),
            well_shaped(grid@),
            best_point matches Some(p) ==> in_grid(grid@, p) && !exclude@.contains(p)
                && best_count == gain(grid@, exclude@.to_set(), p),
            forall|c: Point| #[trigger]
                visited@.contains(c) ==> best_point is Some && gain(grid@, exclude@.to_set(), c)
                    <= best_count,
            forall|q: Point|
                in_grid(grid@, q) && comes_before(q, r as int, 0) && !exclude@.contains(q)
                    ==> #[trigger] visited@.contains(q),
        decreases height - r,
    {
        let mut c: usize = 0;
        while c < width
            invariant
                c <= width,
                r < height,
                height == grid@.len(),
                width == grid@[0]@.len(),
                well_shaped(grid@),
                best_point matches Some(p) ==> in_grid(grid@, p) && !exclude@.contains(p)
                    && best_count == gain(grid@, exclude@.to_set(), p),
                forall|x: Point| #[trigger]
                    visited@.contains(x) ==> best_point is Some && gain(
                        grid@,
                        exclude@.to_set(),
                        x,
                    ) <= best_count,
                forall|q: Point|
                    in_grid(grid@, q) && comes_before(q, r as int, c as int) && !exclude@.contains(
                        q,
                    ) ==> #[trigger] visited@.contains(q),
            decreases width - c,
        {
            let point: Point = (r as isize, c as isize);
            if !contains_point(visited.as_slice(), point) && !contains_point(exclude, point) {
                let mut start: Vec<Point> = Vec::new();
                start.push(point);
                assert(start@ =~= seq![point]);
                let barrels = fire_from(grid, start.as_slice());
                let new_count = count_new(barrels.as_slice(), exclude);
                let ghost old_visited = visited@;
                let ghost old_count = best_count;
                add_points(&mut visited, barrels.as_slice());
                proof {
                    assert(fire_of(grid@, point) =~= barrels@.to_set());
                    assert(new_count == gain(grid@, exclude@.to_set(), point));
                    assert forall|x: Point| barrels@.contains(x) implies gain(
                        grid@,
                        exclude@.to_set(),
                        x,
                    ) <= new_count by {
                        lemma_fire_within(grid@, point, x);
                        vstd::seq_lib::seq_to_set_is_finite(barrels@);
                        vstd::set_lib::lemma_len_subset(
                            fire_of(grid@, x).difference(exclude@.to_set()),
                            fire_of(grid@, point).difference(exclude@.to_set()),
                        );
                    }
                    assert(barrels@.contains(point)) by {
                        let path = seq![point];
                        assert(path[0] == point);
                        assert(seq![point].contains(path[0]));
                        assert(is_path(grid@, path));
                    }
                }
                if best_point.is_none() || new_count > best_count {
                    best_point = Some(point);
                    best_count = new_count;
                }
            }
            c += 1;
        }
        r += 1;
    }
    proof {
        let q = choose|q: Point| in_grid(grid@, q) && !exclude@.contains(q);
        assert(comes_before(q, height as int, 0));
        assert(visited@.contains(q));
    }
    let max_point = best_point.unwrap();
    let mut start: Vec<Point> = Vec::new();
    start.push(max_point);
    assert(start@ =~= seq![max_point]);
    let burned = fire_from(grid, start.as_slice());
    proof {
        assert forall|q: Point| in_grid(grid@, q) && !exclude@.contains(q) implies #[trigger] gain(
            grid@,
            exclude@.to_set(),
            q,
        ) <= gain(grid@, exclude@.to_set(), max_point) by {
            assert(comes_before(q, height as int, 0));
            assert(visited@.contains(q));
        }
    }
    (max_point, burned)
}

} // verus!
