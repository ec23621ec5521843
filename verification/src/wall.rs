//! A wall of straight segments on a grid, and the frame around it.

use crate::text::{parse_isize, signed_of, views};
use vstd::prelude::*;

verus! {

/// A grid point as `(row, col)`.
pub type Point = (isize, isize);

/// A straight segment of wall between two points, both included.
#[derive(Debug, Hash, PartialEq, Eq, Clone, Copy)]
pub struct Line {
    pub start: Point,
    pub end: Point,
}

/// `a` comes no later than `b`, by row and then by column.
pub open spec fn point_leq(a: Point, b: Point) -> bool {
    a.0 < b.0 || (a.0 == b.0 && a.1 <= b.1)
}

/// The larger of two numbers.
pub open spec fn larger(a: int, b: int) -> int {
    if a >= b {
        a
    } else {
        b
    }
}

/// The smaller of two numbers.
pub open spec fn smaller(a: int, b: int) -> int {
    if a <= b {
        a
    } else {
        b
    }
}

impl Line {
    /// The end of the segment that comes first, by row and then by column.
    pub open spec fn low(self) -> Point {
        if point_leq(self.start, self.end) {
            self.start
        } else {
            self.end
        }
    }

    /// The end of the segment that comes last, by row and then by column.
    pub open spec fn high(self) -> Point {
        if point_leq(self.start, self.end) {
            self.end
        } else {
            self.start
        }
    }

    /// Whether `point` lies in the box between the end that comes first and the end
    /// that comes last.
    pub open spec fn covers(self, point: Point) -> bool {
        self.low().0 <= point.0 <= self.high().0 && self.low().1 <= point.1 <= self.high().1
    }

    /// The segment from `start` to `end`.
    pub fn new(start: Point, end: Point) -> (line: Line)
        ensures
            line.start == start,
            line.end == end,
    {
        Line { start, end }
    }

    /// Whether `point` lies on the segment.
    pub fn contains_point(&self, point: &Point) -> (on: bool)
        ensures
            on == self.covers(*point),
    {
        let forward = self.start.0 < self.end.0 || (self.start.0 == self.end.0 && self.start.1
            <= self.end.1);
        let low = if forward {
            self.start
        } else {
            self.end
        };
        let high = if forward {
            self.end
        } else {
            self.start
        };
        point.0 >= low.0 && point.0 <= high.0 && point.1 >= low.1 && point.1 <= high.1
    }

    /// The largest row of the segment.
    pub fn get_max_row(&self) -> (row: isize)
        ensures
            row == larger(self.start.0 as int, self.end.0 as int),
    {
        if self.start.0 >= self.end.0 {
            self.start.0
        } else {
            self.end.0
        }
    }

    /// The smallest row of the segment.
    pub fn get_min_row(&self) -> (row: isize)
        ensures
            row == smaller(self.start.0 as int, self.end.0 as int),
    {
        if self.start.0 <= self.end.0 {
            self.start.0
        } else {
            self.end.0
        }
    }

    /// The largest column of the segment.
    pub fn get_max_col(&self) -> (col: isize)
        ensures
            col == larger(self.start.1 as int, self.end.1 as int),
    {
        if self.start.1 >= self.end.1 {
            self.start.1
        } else {
            self.end.1
        }
    }

    /// The smallest column of the segment.
    pub fn get_min_col(&self) -> (col: isize)
        ensures
            col == smaller(self.start.1 as int, self.end.1 as int),
    {
        if self.start.1 <= self.end.1 {
            self.start.1
        } else {
            self.end.1
        }
    }
}

/// Whether `point` lies on a segment of `wall`.
pub fn wall_contains_point(wall: &[Line], point: &Point) -> (on: bool)
    ensures
        on == exists|i: int| 0 <= i < wall@.len() && (#[trigger] wall@[i]).covers(*point),
{
    let mut i: usize = 0;
    while i < wall.len()
        invariant
            i <= wall.len(),
            forall|k: int| 0 <= k < i ==> !(#[trigger] wall@[k]).covers(*point),
        decreases wall.len() - i,
    {
        if wall[i].contains_point(point) {
            return true;
        }
        i += 1;
    }
    false
}

/// Whether `point` lies in the frame between `corners[0]`, the corner with the
/// smallest row and column, and `corners[1]`, the opposite one.
pub fn is_valid_point(point: &Point, corners: &[Point]) -> (inside: bool)
    requires
        corners@.len() >= 2,
    ensures
        inside == (corners@[0].0 <= point.0 <= corners@[1].0 && corners@[0].1 <= point.1
            <= corners@[1].1),
{
    point.0 >= corners[0].0 && point.0 <= corners[1].0 && point.1 >= corners[0].1 && point.1
        <= corners[1].1
}

/// The rows and columns that `wall` spans: smallest row, smallest column, largest row,
/// largest column of the first `k` segments.
pub open spec fn span(wall: Seq<Line>, k: nat) -> (int, int, int, int)
    decreases k,
{
    if k <= 1 {
        (
            smaller(wall[0].start.0 as int, wall[0].end.0 as int),
            smaller(wall[0].start.1 as int, wall[0].end.1 as int),
            larger(wall[0].start.0 as int, wall[0].end.0 as int),
            larger(wall[0].start.1 as int, wall[0].end.1 as int),
        )
    } else {
        let s = span(wall, (k - 1) as nat);
        let l = wall[k - 1];
        (
            smaller(s.0, smaller(l.start.0 as int, l.end.0 as int)),
            smaller(s.1, smaller(l.start.1 as int, l.end.1 as int)),
            larger(s.2, larger(l.start.0 as int, l.end.0 as int)),
            larger(s.3, larger(l.start.1 as int, l.end.1 as int)),
        )
    }
}

/// Every segment lies within the span, and the span is no wider than that.
pub proof fn lemma_span(wall: Seq<Line>, k: nat)
    requires
        1 <= k <= wall.len(),
    ensures
        forall|i: int|
            0 <= i < k ==> span(wall, k).0 <= (#[trigger] wall[i]).start.0 <= span(wall, k).2
                && span(wall, k).0 <= wall[i].end.0 <= span(wall, k).2 && span(wall, k).1
                <= wall[i].start.1 <= span(wall, k).3 && span(wall, k).1 <= wall[i].end.1 <= span(
                wall,
                k,
            ).3,
        isize::MIN <= span(wall, k).0 <= span(wall, k).2 <= isize::MAX,
        isize::MIN <= span(wall, k).1 <= span(wall, k).3 <= isize::MAX,
    decreases k,
{
    if k > 1 {
        lemma_span(wall, (k - 1) as nat);
    }
}

/// The corners of the frame that leaves two cells free around `wall` on every side:
/// first the corner with the smallest row and column, then the opposite one.
pub fn find_grid_corners(wall: &[Line]) -> (corners: [Point; 2])
    requires
        wall@.len() > 0,
        isize::MIN <= span(wall@, wall@.len()).0 - 2,
        isize::MIN <= span(wall@, wall@.len()).1 - 2,
        span(wall@, wall@.len()).2 + 2 <= isize::MAX,
        span(wall@, wall@.len()).3 + 2 <= isize::MAX,
    ensures
        corners@[0].0 == span(wall@, wall@.len()).0 - 2,
        corners@[0].1 == span(wall@, wall@.len()).1 - 2,
        corners@[1].0 == span(wall@, wall@.len()).2 + 2,
        corners@[1].1 == span(wall@, wall@.len()).3 + 2,
{
    let mut min_row = wall[0].get_min_row();
    let mut min_col = wall[0].get_min_col();
    let mut max_row = wall[0].get_max_row();
    let mut max_col = wall[0].get_max_col();
    let mut k: usize = 1;
    while k < wall.len()
        invariant
            1 <= k <= wall.len(),
            (min_row as int, min_col as int, max_row as int, max_col as int) == span(
                wall@,
                k as nat,
            ),
        decreases wall.len() - k,
    {
        let line = &wall[k];
        if line.get_min_row() < min_row {
            min_row = line.get_min_row();
        }
        if line.get_min_col() < min_col {
            min_col = line.get_min_col();
        }
        if line.get_max_row() > max_row {
            max_row = line.get_max_row();
        }
        if line.get_max_col() > max_col {
            max_col = line.get_max_col();
        }
        k += 1;
    }
    [(min_row - 2, min_col - 2), (max_row + 2, max_col + 2)]
}

/// The direction after a turn: to the left for the letter `L`, to the right for any
/// other. The directions are numbered 0 for up, 1 for right, 2 for down, 3 for left.
pub open spec fn turned(direction: int, letter: u8) -> int {
    if letter == 76 {
        (direction + 3) % 4
    } else {
        (direction + 1) % 4
    }
}

/// The rows that one step in `direction` goes down.
pub open spec fn row_step(direction: int) -> int {
    if direction == 0 {
        -1
    } else if direction == 2 {
        1
    } else {
        0
    }
}

/// The columns that one step in `direction` goes right.
pub open spec fn col_step(direction: int) -> int {
    if direction == 1 {
        1
    } else if direction == 3 {
        -1
    } else {
        0
    }
}

/// The wall with the segment `line`, if it does not hold it yet.
pub open spec fn with_line(lines: Seq<Line>, line: Line) -> Seq<Line> {
    if lines.contains(line) {
        lines
    } else {
        lines.push(line)
    }
}

/// Whether the machine's signed word holds `v`.
pub open spec fn fits(v: int) -> bool {
    isize::MIN <= v <= isize::MAX
}

/// Whether a builder who stands on `last` and looks in `direction` can follow the
/// instructions: each is a letter and a number, and no corner leaves the range of the
/// machine's word.
pub open spec fn walkable(instructions: Seq<Seq<u8>>, direction: int, last: Point) -> bool
    decreases instructions.len(),
{
    instructions.len() == 0 || {
        let first = instructions[0];
        let d = turned(direction, first[0]);
        &&& first.len() >= 1
        &&& signed_of(first.skip(1)) matches Some(distance)
        &&& fits(distance)
        &&& fits(-distance)
        &&& fits(last.0 + distance * row_step(d))
        &&& fits(last.1 + distance * col_step(d))
        &&& walkable(
            instructions.skip(1),
            d,
            (
                (last.0 + distance * row_step(d)) as isize,
                (last.1 + distance * col_step(d)) as isize,
            ),
        )
    }
}

/// The wall that the builder leaves, and where he stands in the end: for each
/// instruction he turns, walks the distance and leaves a segment from where he stood to
/// where he stands.
pub open spec fn wall_of(
    lines: Seq<Line>,
    instructions: Seq<Seq<u8>>,
    direction: int,
    last: Point,
) -> (Seq<Line>, Point)
    decreases instructions.len(),
{
    if instructions.len() == 0 {
        (lines, last)
    } else {
        let first = instructions[0];
        let d = turned(direction, first[0]);
        let distance = signed_of(first.skip(1))->0;
        let end = (
            (last.0 + distance * row_step(d)) as isize,
            (last.1 + distance * col_step(d)) as isize,
        );
        wall_of(
            with_line(lines, Line { start: last, end }),
            instructions.skip(1),
            d,
            end,
        )
    }
}

/// Whether `line` is a segment of `wall`.
pub fn wall_has(wall: &[Line], line: &Line) -> (found: bool)
    ensures
        found == wall@.contains(*line),
{
    let mut i: usize = 0;
    while i < wall.len()
        invariant
            i <= wall@.len(),
            forall|k: int| 0 <= k < i ==> wall@[k] != *line,
        decreases wall.len() - i,
    {
        if wall[i].start.0 == line.start.0 && wall[i].start.1 == line.start.1 && wall[i].end.0
            == line.end.0 && wall[i].end.1 == line.end.1 {
            return true;
        }
        i += 1;
    }
    false
}

/// Builds a wall from instructions, each a letter for the turn and the distance to
/// walk, starting on `last` and looking in `old_direction`. Gives the wall, each
/// segment once, and the point where the builder stands in the end.
pub fn parse_wall(
    lines: Vec<Line>,
    instructions: &[Vec<u8>],
    old_direction: usize,
    last: Point,
) -> (out: (Vec<Line>, Point))
    requires
        old_direction <= usize::MAX - 3,
        walkable(views(instructions@), old_direction as int, last),
    ensures
        out.0@ == wall_of(lines@, views(instructions@), old_direction as int, last).0,
        out.1 == wall_of(lines@, views(instructions@), old_direction as int, last).1,
{
    let ghost all = views(instructions@);
    let mut wall = lines;
    let mut direction: usize = old_direction;
    let mut here: Point = last;
    let mut i: usize = 0;
    assert(all.skip(0) =~= all);
    while i < instructions.len()
        invariant
            i <= instructions@.len(),
            all == views(instructions@),
            direction <= usize::MAX - 3,
            walkable(all.skip(i as int), direction as int, here),
            wall_of(lines@, all, old_direction as int, last) == wall_of(
                wall@,
                all.skip(i as int),
                direction as int,
                here,
            ),
        decreases instructions.len() - i,
    {
        let instruction = &instructions[i];
        proof {
            assert(all.len() == instructions@.len());
            assert(all.skip(i as int)[0] == instruction@);
            assert(all.skip(i as int).skip(1) =~= all.skip(i + 1));
        }
        let letter = instruction[0];
        let number = vstd::slice::slice_subrange(instruction.as_slice(), 1, instruction.len());
        assert(number@ =~= instruction@.skip(1));
        let distance = parse_isize(number).unwrap();
        direction = if letter == 76 {
            (direction + 3) % 4
        } else {
            (direction + 1) % 4
        };
        proof {
            let d = direction as int;
            assert(distance * row_step(d) == (if d == 0 {
                -distance
            } else if d == 2 {
                distance as int
            } else {
                0
            })) by (nonlinear_arith)
                requires
                    row_step(d) == (if d == 0 {
                        -1int
                    } else if d == 2 {
                        1int
                    } else {
                        0int
                    }),
            {
            }
            assert(distance * col_step(d) == (if d == 1 {
                distance as int
            } else if d == 3 {
                -distance
            } else {
                0
            })) by (nonlinear_arith)
                requires
                    col_step(d) == (if d == 1 {
                        1int
                    } else if d == 3 {
                        -1int
                    } else {
                        0int
                    }),
            {
            }
        }
        let end: Point = if direction == 0 {
            (here.0 - distance, here.1)
        } else if direction == 1 {
            (here.0, here.1 + distance)
        } else if direction == 2 {
            (here.0 + distance, here.1)
        } else {
            (here.0, here.1 - distance)
        };
        let line = Line::new(here, end);
        if !wall_has(wall.as_slice(), &line) {
            wall.push(line);
        }
        here = end;
        i += 1;
    }
    (wall, here)
}

} // verus!
