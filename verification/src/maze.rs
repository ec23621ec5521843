//! The shortest walk around a wall: from where the builder started to where he ended,
//! step by step over cells that the wall leaves free.

use crate::barrels::{lemma_mark, unmarked};
use crate::text::views;
use crate::wall::{
    find_grid_corners, is_valid_point, parse_wall, span, walkable, wall_contains_point, wall_of,
    Line, Point,
};
use vstd::prelude::*;

verus! {

/// A wall, the frame around it from corner `lo` to corner `hi`, and the two ends of the
/// walk.
pub struct Maze {
    pub wall: Seq<Line>,
    pub lo: Point,
    pub hi: Point,
    pub start: Point,
    pub end: Point,
}

/// Whether `b` is the neighbour of `a` above, to the right, below or to the left.
pub open spec fn next_to(a: Point, b: Point) -> bool {
    ||| (b.0 == a.0 - 1 && b.1 == a.1)
    ||| (b.0 == a.0 && b.1 == a.1 + 1)
    ||| (b.0 == a.0 + 1 && b.1 == a.1)
    ||| (b.0 == a.0 && b.1 == a.1 - 1)
}

impl Maze {
    /// Whether `p` lies in the frame.
    pub open spec fn in_frame(self, p: Point) -> bool {
        self.lo.0 <= p.0 <= self.hi.0 && self.lo.1 <= p.1 <= self.hi.1
    }

    /// Whether the walk may step on `p`: it is the end of the walk, or it lies in the
    /// frame and on no segment of the wall.
    pub open spec fn free(self, p: Point) -> bool {
        p == self.end || (self.in_frame(p) && !wall_covered(self.wall, p))
    }

    /// The cells that the walk can be on after at most `k` steps.
    pub open spec fn within(self, k: nat) -> Set<Point>
        decreases k,
    {
        if k == 0 {
            set![self.start]
        } else {
            let before = self.within((k - 1) as nat);
            Set::new(
                |b: Point|
                    before.contains(b) || (self.free(b) && exists|a: Point|
                        before.contains(a) && #[trigger] next_to(a, b)),
            )
        }
    }

    /// Whether `steps` is the length of the shortest walk from the start to the end,
    /// or 0 where there is none, or the start is the end.
    pub open spec fn shortest(self, steps: nat) -> bool {
        if steps > 0 {
            self.within(steps).contains(self.end) && !self.within((steps - 1) as nat).contains(
                self.end,
            )
        } else {
            self.start == self.end || forall|k: nat| !self.within(k).contains(self.end)
        }
    }
}

/// More steps reach no fewer cells.
pub proof fn lemma_within_grows(m: Maze, k: nat, n: nat)
    requires
        k <= n,
    ensures
        m.within(k).subset_of(m.within(n)),
    decreases n - k,
{
    if k < n {
        lemma_within_grows(m, k, (n - 1) as nat);
    }
}

/// Once a step more reaches nothing new, no number of steps does.
pub proof fn lemma_within_settles(m: Maze, k: nat, n: nat)
    requires
        k <= n,
        m.within(k + 1) == m.within(k),
    ensures
        m.within(n) == m.within(k),
    decreases n - k,
{
    if k < n {
        lemma_within_settles(m, k, (n - 1) as nat);
        if n - 1 > k {
            assert(m.within((n - 1) as nat) == m.within(k));
        }
        assert(m.within(n) =~= m.within(k + 1));
    }
}

/// There is one length of the shortest walk.
pub proof fn lemma_shortest_is_one(m: Maze, a: nat, b: nat)
    requires
        m.shortest(a),
        m.shortest(b),
    ensures
        a == b,
{
    if a < b {
        lemma_within_grows(m, a, (b - 1) as nat);
        lemma_within_grows(m, 0, a);
        assert(m.within(0).contains(m.start));
    } else if b < a {
        lemma_within_grows(m, b, (a - 1) as nat);
        lemma_within_grows(m, 0, b);
        assert(m.within(0).contains(m.start));
    }
}

/// Whether `p` lies on a segment of `wall`.
pub open spec fn wall_covered(wall: Seq<Line>, p: Point) -> bool {
    exists|i: int| 0 <= i < wall.len() && (#[trigger] wall[i]).covers(p)
}

/// A grid of marks has no more unmarked cells than cells.
pub proof fn lemma_unmarked_bound(seen: Seq<Vec<bool>>, n: nat, cols: nat)
    requires
        n <= seen.len(),
        forall|r: int| 0 <= r < seen.len() ==> (#[trigger] seen[r])@.len() == cols,
    ensures
        unmarked(seen, n) <= n * cols,
    decreases n,
{
    if n > 0 {
        lemma_unmarked_bound(seen, (n - 1) as nat, cols);
        lemma_unmarked_row_bound(seen[n - 1]@, cols);
        assert(n * cols == (n - 1) * cols + cols) by (nonlinear_arith);
    }
}

/// A row of marks has no more unmarked cells than cells.
pub proof fn lemma_unmarked_row_bound(row: Seq<bool>, k: nat)
    ensures
        crate::barrels::unmarked_in_row(row, k) <= k,
    decreases k,
{
    if k > 0 {
        lemma_unmarked_row_bound(row, (k - 1) as nat);
    }
}

/// Whether the marks say which cells of the frame, besides the start, are in `reached`.
pub open spec fn marks_show(m: Maze, seen: Seq<Vec<bool>>, reached: Set<Point>) -> bool {
    &&& reached.contains(m.start)
    &&& forall|p: Point|
        #![trigger reached.contains(p)]
        p != m.start ==> (reached.contains(p) <==> m.in_frame(p) && seen[p.0 - m.lo.0]@[p.1
            - m.lo.1])
}

/// A grid of marks as large as the frame, with no cell marked.
fn blank_marks(rows: usize, cols: usize) -> (seen: Vec<Vec<bool>>)
    ensures
        seen@.len() == rows,
        forall|r: int| 0 <= r < rows ==> (#[trigger] seen@[r])@.len() == cols,
        forall|r: int, c: int| 0 <= r < rows && 0 <= c < cols ==> !(#[trigger] seen@[r]@[c]),
{
    let mut seen: Vec<Vec<bool>> = Vec::new();
    let mut r: usize = 0;
    while r < rows
        invariant
            r <= rows,
            seen@.len() == r,
            forall|y: int| 0 <= y < r ==> (#[trigger] seen@[y])@.len() == cols,
            forall|y: int, x: int| 0 <= y < r && 0 <= x < cols ==> !(#[trigger] seen@[y]@[x]),
        decreases rows - r,
    {
        let mut row: Vec<bool> = Vec::new();
        let mut c: usize = 0;
        while c < cols
            invariant
                c <= cols,
                row@.len() == c,
                forall|x: int| 0 <= x < c ==> !(#[trigger] row@[x]),
            decreases cols - c,
        {
            row.push(false);
            c += 1;
        }
        seen.push(row);
        r += 1;
    }
    seen
}

/// The four neighbours of `p` that the machine's word can hold.
fn neighbours(p: Point) -> (out: Vec<Point>)
    ensures
        forall|b: Point| #[trigger] out@.contains(b) <==> next_to(p, b),
{
    let mut out: Vec<Point> = Vec::new();
    if p.0 > isize::MIN {
        out.push((p.0 - 1, p.1));
    }
    if p.1 < isize::MAX {
        out.push((p.0, p.1 + 1));
    }
    if p.0 < isize::MAX {
        out.push((p.0 + 1, p.1));
    }
    if p.1 > isize::MIN {
        out.push((p.0, p.1 - 1));
    }
    proof {
        assert forall|b: Point| #[trigger] out@.contains(b) <==> next_to(p, b) by {
            if next_to(p, b) {
                assert(out@.len() <= 4);
                assert(exists|k: int| 0 <= k < out@.len() && out@[k] == b) by {
                    if b.0 == p.0 - 1 && b.1 == p.1 {
                        assert(out@[0] == b);
                    } else if b.0 == p.0 && b.1 == p.1 + 1 {
                        let k = if p.0 > isize::MIN {
                            1int
                        } else {
                            0int
                        };
                        assert(out@[k] == b);
                    } else if b.0 == p.0 + 1 && b.1 == p.1 {
                        let k = (if p.0 > isize::MIN {
                            1int
                        } else {
                            0int
                        }) + (if p.1 < isize::MAX {
                            1int
                        } else {
                            0int
                        });
                        assert(out@[k] == b);
                    } else {
                        assert(out@[out@.len() - 1] == b);
                    }
                }
            }
            if out@.contains(b) {
                let k = choose|k: int| 0 <= k < out@.len() && out@[k] == b;
            }
        }
    }
    out
}

/// The length of the shortest walk from `start` to `end` over free cells of the
/// frame between `corners[0]` and `corners[1]`, or 0 where there is none, or the start
/// is the end.
pub fn shortest_walk(wall: &[Line], corners: &[Point], start: Point, end: Point) -> (steps: usize)
    requires
        corners@.len() >= 2,
        corners@[1].0 - corners@[0].0 + 1 <= isize::MAX,
        corners@[1].1 - corners@[0].1 + 1 <= isize::MAX,
        (corners@[1].0 - corners@[0].0 + 1) * (corners@[1].1 - corners@[0].1 + 1) < usize::MAX,
    ensures
        (Maze { wall: wall@, lo: corners@[0], hi: corners@[1], start, end }).shortest(steps as nat),
{
    let ghost m = Maze { wall: wall@, lo: corners@[0], hi: corners@[1], start, end };
    if start.0 == end.0 && start.1 == end.1 {
        return 0;
    }
    let lo = corners[0];
    let hi = corners[1];
    let rows: usize = if hi.0 >= lo.0 {
        (hi.0 - lo.0 + 1) as usize
    } else {
        0
    };
    let cols: usize = if hi.1 >= lo.1 {
        (hi.1 - lo.1 + 1) as usize
    } else {
        0
    };
    let mut seen = blank_marks(rows, cols);
    let mut frontier: Vec<Point> = Vec::new();
    frontier.push(start);
    let mut depth: usize = 0;
    let mut marked: usize = 0;
    let ghost cells: int = if rows == 0 || cols == 0 {
        0
    } else {
        rows * cols
    };
    proof {
        assert(frontier@[0] == start);
        assert(m.within(0) =~= set![start]);
        lemma_unmarked_bound(seen@, seen@.len(), cols as nat);
        if rows > 0 && cols > 0 {
            assert(rows * cols == (hi.0 - lo.0 + 1) * (hi.1 - lo.1 + 1)) by (nonlinear_arith)
                requires
                    rows == hi.0 - lo.0 + 1,
                    cols == hi.1 - lo.1 + 1,
            {
            }
        } else {
            assert(rows * cols == 0) by (nonlinear_arith)
                requires
                    rows == 0 || cols == 0,
            {
            }
        }
    }
    while frontier.len() > 0
        invariant
            m == (Maze { wall: wall@, lo: corners@[0], hi: corners@[1], start, end }),
            lo == corners@[0],
            hi == corners@[1],
            corners@.len() >= 2,
            start != end,
            hi.0 - lo.0 + 1 <= isize::MAX,
            hi.1 - lo.1 + 1 <= isize::MAX,
            seen@.len() == rows,
            rows == (if hi.0 >= lo.0 {
                hi.0 - lo.0 + 1
            } else {
                0
            }),
            cols == (if hi.1 >= lo.1 {
                hi.1 - lo.1 + 1
            } else {
                0
            }),
            forall|r: int| 0 <= r < rows ==> (#[trigger] seen@[r])@.len() == cols,
            marks_show(m, seen@, m.within(depth as nat)),
            !m.within(depth as nat).contains(end),
            forall|p: Point| #[trigger]
                m.within(depth as nat).contains(p) ==> frontier@.contains(p) || (depth > 0
                    && m.within((depth - 1) as nat).contains(p)),
            forall|p: Point| #[trigger] frontier@.contains(p) ==> m.within(depth as nat).contains(p),
            depth <= marked,
            frontier@.len() > 0,
            marked + unmarked(seen@, seen@.len()) <= cells,
            cells < usize::MAX,
        decreases unmarked(seen@, seen@.len()), frontier@.len(),
    {
        let ghost reached = m.within(depth as nat);
        let ghost old_seen = seen@;
        let ghost old_marked = marked;
        let mut next: Vec<Point> = Vec::new();
        let mut i: usize = 0;
        while i < frontier.len()
            invariant
                i <= frontier@.len(),
                m == (Maze { wall: wall@, lo: corners@[0], hi: corners@[1], start, end }),
                lo == corners@[0],
                hi == corners@[1],
                corners@.len() >= 2,
                start != end,
                reached == m.within(depth as nat),
                hi.0 - lo.0 + 1 <= isize::MAX,
                hi.1 - lo.1 + 1 <= isize::MAX,
                seen@.len() == rows,
                rows == (if hi.0 >= lo.0 {
                    hi.0 - lo.0 + 1
                } else {
                    0
                }),
                cols == (if hi.1 >= lo.1 {
                    hi.1 - lo.1 + 1
                } else {
                    0
                }),
                forall|r: int| 0 <= r < rows ==> (#[trigger] seen@[r])@.len() == cols,
                !reached.contains(end),
                forall|p: Point| #[trigger] frontier@.contains(p) ==> reached.contains(p),
                forall|p: Point|
                    #![trigger reached.contains(p)]
                    p != start ==> ((reached.contains(p) || next@.contains(p)) <==> m.in_frame(p)
                        && seen@[p.0 - lo.0]@[p.1 - lo.1]),
                reached.contains(start),
                forall|p: Point| #[trigger]
                    next@.contains(p) ==> !reached.contains(p) && m.free(p) && p != end && exists|
                        a: Point,
                    |
                        reached.contains(a) && #[trigger] next_to(a, p),
                forall|a: Point, b: Point|
                    (exists|k: int| 0 <= k < i && frontier@[k] == a) && #[trigger] next_to(a, b)
                        && m.free(b) ==> reached.contains(b) || next@.contains(b),
                depth <= marked,
                marked + unmarked(seen@, seen@.len()) <= cells,
            cells < usize::MAX,
                unmarked(seen@, seen@.len()) + next@.len() == unmarked(old_seen, old_seen.len()),
                old_seen.len() == seen@.len(),
                marked == old_marked + next@.len(),
                depth <= old_marked,
            decreases frontier.len() - i,
        {
            let current = frontier[i];
            assert(frontier@.contains(current));
            let around = neighbours(current);
            let mut j: usize = 0;
            while j < around.len()
                invariant
                    j <= around@.len(),
                    i < frontier@.len(),
                    current == frontier@[i as int],
                    reached.contains(current),
                    forall|b: Point| #[trigger] around@.contains(b) <==> next_to(current, b),
                    m == (Maze { wall: wall@, lo: corners@[0], hi: corners@[1], start, end }),
                    lo == corners@[0],
                    hi == corners@[1],
                    corners@.len() >= 2,
                    start != end,
                    reached == m.within(depth as nat),
                    hi.0 - lo.0 + 1 <= isize::MAX,
                    hi.1 - lo.1 + 1 <= isize::MAX,
                    seen@.len() == rows,
                    rows == (if hi.0 >= lo.0 {
                        hi.0 - lo.0 + 1
                    } else {
                        0
                    }),
                    cols == (if hi.1 >= lo.1 {
                        hi.1 - lo.1 + 1
                    } else {
                        0
                    }),
                    forall|r: int| 0 <= r < rows ==> (#[trigger] seen@[r])@.len() == cols,
                    !reached.contains(end),
                    forall|p: Point|
                        #![trigger reached.contains(p)]
                        p != start ==> ((reached.contains(p) || next@.contains(p)) <==> m.in_frame(
                            p,
                        ) && seen@[p.0 - lo.0]@[p.1 - lo.1]),
                    reached.contains(start),
                    forall|p: Point| #[trigger]
                        next@.contains(p) ==> !reached.contains(p) && m.free(p) && p != end
                            && exists|a: Point| reached.contains(a) && #[trigger] next_to(a, p),
                    forall|a: Point, b: Point|
                        (exists|k: int| 0 <= k < i && frontier@[k] == a) && #[trigger] next_to(
                            a,
                            b,
                        ) && m.free(b) ==> reached.contains(b) || next@.contains(b),
                    forall|b: Point|
                        (exists|t: int| 0 <= t < j && around@[t] == b) && m.free(b)
                            ==> #[trigger] reached.contains(b) || next@.contains(b),
                    depth <= marked,
                    marked + unmarked(seen@, seen@.len()) <= cells,
            cells < usize::MAX,
                    unmarked(seen@, seen@.len()) + next@.len() == unmarked(
                        old_seen,
                        old_seen.len(),
                    ),
                    old_seen.len() == seen@.len(),
                    marked == old_marked + next@.len(),
                    depth <= old_marked,
                decreases around.len() - j,
            {
                let n = around[j];
                assert(around@.contains(n));
                assert(next_to(current, n));
                let ghost before_next = next@;
                let ghost before_seen = seen@;
                if n.0 == end.0 && n.1 == end.1 {
                    proof {
                        assert(m.free(n));
                        assert(m.within((depth + 1) as nat).contains(end));
                    }
                    return depth + 1;
                }
                let is_start = n.0 == start.0 && n.1 == start.1;
                if !is_start && is_valid_point(&n, corners) {
                    let r = (n.0 - lo.0) as usize;
                    let c = (n.1 - lo.1) as usize;
                    if !seen[r][c] && !wall_contains_point(wall, &n) {
                        let mut row: Vec<bool> = Vec::new();
                        std::mem::swap(&mut row, &mut seen[r]);
                        row.set(c, true);
                        seen.set(r, row);
                        next.push(n);
                        proof {
                            lemma_mark(before_seen, seen@, r as int, c as int, before_seen.len());
                            assert(next@[before_next.len() as int] == n);
                            assert(m.free(n));
                            assert forall|p: Point| before_next.contains(p) implies next@.contains(
                                p,
                            ) by {
                                let k = choose|k: int|
                                    0 <= k < before_next.len() && before_next[k] == p;
                                assert(next@[k] == p);
                            }
                            assert forall|p: Point| #[trigger] next@.contains(p) implies p == n
                                || before_next.contains(p) by {
                                let k = choose|k: int| 0 <= k < next@.len() && next@[k] == p;
                                if k < before_next.len() {
                                    assert(before_next[k] == p);
                                }
                            }
                        }
                        marked = marked + 1;
                    }
                }
                proof {
                    assert forall|b: Point|
                        (exists|t: int| 0 <= t < j + 1 && around@[t] == b) && m.free(
                            b,
                        ) implies #[trigger] reached.contains(b) || next@.contains(b) by {
                        let t = choose|t: int| 0 <= t < j + 1 && around@[t] == b;
                        if t == j {
                            assert(b == n);
                            if n != start {
                                assert(m.in_frame(n));
                                assert(!wall_covered(wall@, n));
                                if before_seen[n.0 - lo.0]@[n.1 - lo.1] {
                                    assert(reached.contains(n) || before_next.contains(n));
                                    if before_next.contains(n) {
                                        let k = choose|k: int|
                                            0 <= k < before_next.len() && before_next[k] == n;
                                        assert(next@[k] == n);
                                    }
                                } else {
                                    assert(next@[before_next.len() as int] == n);
                                }
                            }
                        }
                        if t < j {
                            assert(exists|t: int| 0 <= t < j && around@[t] == b);
                            if before_next.contains(b) {
                                assert(next@.contains(b)) by {
                                    let k = choose|k: int|
                                        0 <= k < before_next.len() && before_next[k] == b;
                                    assert(next@[k] == b);
                                }
                            }
                        }
                    }
                }
                j += 1;
            }
            proof {
                assert forall|a: Point, b: Point|
                    (exists|k: int| 0 <= k < i + 1 && frontier@[k] == a) && #[trigger] next_to(
                        a,
                        b,
                    ) && m.free(b) implies reached.contains(b) || next@.contains(b) by {
                    let k = choose|k: int| 0 <= k < i + 1 && frontier@[k] == a;
                    if k < i {
                        assert(exists|k: int| 0 <= k < i && frontier@[k] == a);
                    } else {
                        assert(around@.contains(b));
                        let t = choose|t: int| 0 <= t < around@.len() && around@[t] == b;
                        assert(exists|t: int| 0 <= t < around@.len() && around@[t] == b);
                    }
                }
            }
            i += 1;
        }
        proof {
            let after = m.within((depth + 1) as nat);
            assert forall|p: Point| #[trigger] after.contains(p) implies reached.contains(p)
                || next@.contains(p) by {
                if !reached.contains(p) {
                    let a = choose|a: Point| reached.contains(a) && #[trigger] next_to(a, p);
                    if frontier@.contains(a) {
                        let k = choose|k: int| 0 <= k < frontier@.len() && frontier@[k] == a;
                        assert(exists|k: int| 0 <= k < frontier@.len() && frontier@[k] == a);
                    } else {
                        assert(m.within((depth - 1) as nat).contains(a));
                        assert(m.within(depth as nat).contains(p));
                    }
                }
            }
            assert forall|p: Point| reached.contains(p) || next@.contains(p) implies #[trigger] after.contains(
                p,
            ) by {
                if !reached.contains(p) {
                    let a = choose|a: Point| reached.contains(a) && #[trigger] next_to(a, p);
                    assert(reached.contains(a) && next_to(a, p));
                }
            }
            assert(!after.contains(end));
            if next@.len() == 0 {
                assert(after =~= reached);
                assert forall|k: nat| !m.within(k).contains(end) by {
                    if k <= depth {
                        lemma_within_grows(m, k, depth as nat);
                    } else {
                        lemma_within_settles(m, depth as nat, k);
                    }
                }
            }
        }
        if next.len() == 0 {
            return 0;
        }
        frontier = next;
        depth = depth + 1;
    }
    0
}

/// The length of the shortest walk from where the builder of a wall starts to where he
/// ends, over cells that the wall leaves free and no more than two cells away from it,
/// or 0 where there is none.
pub fn calculate_end_point_distance(instructions: &[Vec<u8>]) -> (steps: usize)
    requires
        instructions@.len() > 0,
        walkable(views(instructions@), 0, (0isize, 0isize)),
        ({
            let wall = wall_of(Seq::empty(), views(instructions@), 0, (0isize, 0isize)).0;
            &&& isize::MIN <= span(wall, wall.len()).0 - 2
            &&& isize::MIN <= span(wall, wall.len()).1 - 2
            &&& span(wall, wall.len()).2 + 2 <= isize::MAX
            &&& span(wall, wall.len()).3 + 2 <= isize::MAX
            &&& span(wall, wall.len()).2 - span(wall, wall.len()).0 + 5 <= isize::MAX
            &&& span(wall, wall.len()).3 - span(wall, wall.len()).1 + 5 <= isize::MAX
            &&& (span(wall, wall.len()).2 - span(wall, wall.len()).0 + 5) * (span(
                wall,
                wall.len(),
            ).3 - span(wall, wall.len()).1 + 5) < usize::MAX
        }),
    ensures
        ({
            let built = wall_of(Seq::empty(), views(instructions@), 0, (0isize, 0isize));
            let s = span(built.0, built.0.len());
            (Maze {
                wall: built.0,
                lo: ((s.0 - 2) as isize, (s.1 - 2) as isize),
                hi: ((s.2 + 2) as isize, (s.3 + 2) as isize),
                start: (0isize, 0isize),
                end: built.1,
            }).shortest(steps as nat)
        }),
{
    let (wall, end) = parse_wall(Vec::new(), instructions, 0, (0, 0));
    proof {
        lemma_wall_not_empty(Seq::empty(), views(instructions@), 0, (0isize, 0isize));
    }
    let corners = find_grid_corners(wall.as_slice());
    shortest_walk(wall.as_slice(), corners.as_slice(), (0, 0), end)
}

/// A wall built from at least one instruction has a segment.
pub proof fn lemma_wall_not_empty(
    lines: Seq<Line>,
    instructions: Seq<Seq<u8>>,
    direction: int,
    last: Point,
)
    ensures
        wall_of(lines, instructions, direction, last).0.len() >= lines.len(),
        instructions.len() > 0 ==> wall_of(lines, instructions, direction, last).0.len() > 0,
    decreases instructions.len(),
{
    if instructions.len() > 0 {
        let first = instructions[0];
        let d = crate::wall::turned(direction, first[0]);
        let distance = crate::text::signed_of(first.skip(1))->0;
        let end = (
            (last.0 + distance * crate::wall::row_step(d)) as isize,
            (last.1 + distance * crate::wall::col_step(d)) as isize,
        );
        let line = Line { start: last, end };
        let grown = crate::wall::with_line(lines, line);
        assert(grown.len() > 0) by {
            if lines.contains(line) {
                let k = choose|k: int| 0 <= k < lines.len() && lines[k] == line;
            }
        }
        lemma_wall_not_empty(grown, instructions.skip(1), d, end);
    }
}

/// Whether a builder who stands on `last` and looks in `direction` can follow the
/// instructions.
pub fn can_walk(instructions: &[Vec<u8>], direction: usize, last: Point) -> (yes: bool)
    requires
        direction <= usize::MAX - 3,
    ensures
        yes == walkable(views(instructions@), direction as int, last),
{
    let ghost all = views(instructions@);
    let mut facing: usize = direction % 4;
    let mut here: Point = last;
    let mut i: usize = 0;
    proof {
        assert(all.skip(0) =~= all);
        lemma_walkable_turn(all, direction as int, facing as int, last);
    }
    while i < instructions.len()
        invariant
            i <= instructions@.len(),
            all == views(instructions@),
            facing < 4,
            walkable(all, direction as int, last) == walkable(
                all.skip(i as int),
                facing as int,
                here,
            ),
        decreases instructions.len() - i,
    {
        let instruction = &instructions[i];
        proof {
            assert(all.len() == instructions@.len());
            assert(all.skip(i as int)[0] == instruction@);
            assert(all.skip(i as int).skip(1) =~= all.skip(i + 1));
        }
        if instruction.len() < 1 {
            return false;
        }
        let letter = instruction[0];
        let number = vstd::slice::slice_subrange(instruction.as_slice(), 1, instruction.len());
        assert(number@ =~= instruction@.skip(1));
        let distance = match crate::text::parse_isize(number) {
            Some(d) => d,
            None => {
                return false;
            },
        };
        if distance == isize::MIN {
            return false;
        }
        facing = if letter == 76 {
            (facing + 3) % 4
        } else {
            (facing + 1) % 4
        };
        proof {
            let d = facing as int;
            assert(distance * crate::wall::row_step(d) == (if d == 0 {
                -distance
            } else if d == 2 {
                distance as int
            } else {
                0
            })) by (nonlinear_arith)
                requires
                    crate::wall::row_step(d) == (if d == 0 {
                        -1int
                    } else if d == 2 {
                        1int
                    } else {
                        0int
                    }),
            {
            }
            assert(distance * crate::wall::col_step(d) == (if d == 1 {
                distance as int
            } else if d == 3 {
                -distance
            } else {
                0
            })) by (nonlinear_arith)
                requires
                    crate::wall::col_step(d) == (if d == 1 {
                        1int
                    } else if d == 3 {
                        -1int
                    } else {
                        0int
                    }),
            {
            }
        }
        let end: Option<Point> = if facing == 0 {
            match here.0.checked_sub(distance) {
                Some(r) => Some((r, here.1)),
                None => None,
            }
        } else if facing == 1 {
            match here.1.checked_add(distance) {
                Some(c) => Some((here.0, c)),
                None => None,
            }
        } else if facing == 2 {
            match here.0.checked_add(distance) {
                Some(r) => Some((r, here.1)),
                None => None,
            }
        } else {
            match here.1.checked_sub(distance) {
                Some(c) => Some((here.0, c)),
                None => None,
            }
        };
        match end {
            Some(e) => {
                here = e;
            },
            None => {
                return false;
            },
        }
        i += 1;
    }
    true
}

/// Only the direction's remainder by four matters to a walk.
pub proof fn lemma_walkable_turn(
    instructions: Seq<Seq<u8>>,
    direction: int,
    other: int,
    last: Point,
)
    requires
        direction >= 0,
        other >= 0,
        direction % 4 == other % 4,
    ensures
        walkable(instructions, direction, last) == walkable(instructions, other, last),
        wall_of(Seq::empty(), instructions, direction, last) == wall_of(
            Seq::empty(),
            instructions,
            other,
            last,
        ),
{
    if instructions.len() > 0 {
        let first = instructions[0];
        assert(crate::wall::turned(direction, first[0]) == crate::wall::turned(other, first[0]));
    }
}

/// The rows and columns that `wall` spans.
pub fn wall_span(wall: &[Line]) -> (s: (isize, isize, isize, isize))
    requires
        wall@.len() > 0,
    ensures
        (s.0 as int, s.1 as int, s.2 as int, s.3 as int) == span(wall@, wall@.len()),
{
    let mut min_row = wall[0].get_min_row();
    let mut min_col = wall[0].get_min_col();
    let mut max_row = wall[0].get_max_row();
    let mut max_col = wall[0].get_max_col();
    let mut k: usize = 1;
    while k < wall.len()
        invariant
            1 <= k <= wall@.len(),
            (min_row as int, min_col as int, max_row as int, max_col as int) == span(
                wall@,
                k as nat,
            ),
        decreases wall.len() - k,
    {
        let line = &wall[k];
        if line.get_min_row() < min_row {
            min_row = line.get_min_row();
        }
        if line.get_min_col() < min_col {
            min_col = line.get_min_col();
        }
        if line.get_max_row() > max_row {
            max_row = line.get_max_row();
        }
        if line.get_max_col() > max_col {
            max_col = line.get_max_col();
        }
        k += 1;
    }
    (min_row, min_col, max_row, max_col)
}

/// Whether a wall can be built from the instructions and walked around: there is an
/// instruction, the builder can follow them, and the frame that leaves two cells free
/// around the wall has fewer cells than the machine's word can count.
pub open spec fn can_be_walked(instructions: Seq<Seq<u8>>) -> bool {
    let wall = wall_of(Seq::empty(), instructions, 0, (0isize, 0isize)).0;
    &&& instructions.len() > 0
    &&& walkable(instructions, 0, (0isize, 0isize))
    &&& isize::MIN <= span(wall, wall.len()).0 - 2
    &&& isize::MIN <= span(wall, wall.len()).1 - 2
    &&& span(wall, wall.len()).2 + 2 <= isize::MAX
    &&& span(wall, wall.len()).3 + 2 <= isize::MAX
    &&& span(wall, wall.len()).2 - span(wall, wall.len()).0 + 5 <= isize::MAX
    &&& span(wall, wall.len()).3 - span(wall, wall.len()).1 + 5 <= isize::MAX
    &&& (span(wall, wall.len()).2 - span(wall, wall.len()).0 + 5) * (span(wall, wall.len()).3
        - span(wall, wall.len()).1 + 5) < usize::MAX
}

/// The length of the shortest walk around the wall that the instructions build, where
/// such a wall can be built and walked around.
pub fn end_point_distance(instructions: &[Vec<u8>]) -> (steps: Option<usize>)
    ensures
        steps is Some <==> can_be_walked(views(instructions@)),
        steps matches Some(n) ==> {
            let built = wall_of(Seq::empty(), views(instructions@), 0, (0isize, 0isize));
            let s = span(built.0, built.0.len());
            (Maze {
                wall: built.0,
                lo: ((s.0 - 2) as isize, (s.1 - 2) as isize),
                hi: ((s.2 + 2) as isize, (s.3 + 2) as isize),
                start: (0isize, 0isize),
                end: built.1,
            }).shortest(n as nat)
        },
{
    if instructions.len() == 0 || !can_walk(instructions, 0, (0, 0)) {
        assert(views(instructions@).len() == instructions@.len());
        return None;
    }
    assert(views(instructions@).len() == instructions@.len());
    let (wall, _) = parse_wall(Vec::new(), instructions, 0, (0, 0));
    proof {
        lemma_wall_not_empty(Seq::empty(), views(instructions@), 0, (0isize, 0isize));
        crate::wall::lemma_span(wall@, wall@.len());
    }
    let s = wall_span(wall.as_slice());
    let fits = match (s.0.checked_sub(2), s.1.checked_sub(2), s.2.checked_add(2), s.3.checked_add(2)) {
        (Some(r0), Some(c0), Some(r1), Some(c1)) => match (r1.checked_sub(r0), c1.checked_sub(c0)) {
            (Some(h), Some(w)) => match (h.checked_add(1), w.checked_add(1)) {
                (Some(rows), Some(cols)) => match (rows as usize).checked_mul(cols as usize) {
                    Some(cells) => cells < usize::MAX,
                    None => false,
                },
                _ => false,
            },
            _ => false,
        },
        _ => false,
    };
    if fits {
        Some(calculate_end_point_distance(instructions))
    } else {
        None
    }
}

} // verus!
