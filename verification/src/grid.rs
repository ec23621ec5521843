//! Boards as grids of characters: `S` for a sheep, `D` for the dragon, `#` for a
//! hideout, anything else for open ground.

use crate::board::{BoardModel, ChessBoard, MalformedBoard};
use crate::cells::{cell_leq, strictly_sorted};
use crate::geometry::Cell;
use vstd::prelude::*;

verus! {

/// The cells of row `r` that hold `mark` among the first `k` columns, from the left.
pub open spec fn marks_in_row(row: Seq<char>, r: int, mark: char, k: nat) -> Seq<Cell>
    decreases k,
{
    if k == 0 {
        Seq::empty()
    } else {
        let before = marks_in_row(row, r, mark, (k - 1) as nat);
        if row[k - 1] == mark {
            before.push((r as isize, (k - 1) as isize))
        } else {
            before
        }
    }
}

/// The cells of the first `n` rows that hold `mark`, row by row from the top.
pub open spec fn marks(rows: Seq<Vec<char>>, mark: char, n: nat) -> Seq<Cell>
    decreases n,
{
    if n == 0 {
        Seq::empty()
    } else {
        marks(rows, mark, (n - 1) as nat) + marks_in_row(
            rows[n - 1]@,
            n - 1,
            mark,
            rows[n - 1]@.len(),
        )
    }
}

/// Whether every row is as long as the first.
pub open spec fn rectangular(rows: Seq<Vec<char>>) -> bool {
    forall|i: int| 0 <= i < rows.len() ==> (#[trigger] rows[i])@.len() == rows[0]@.len()
}

/// The character that shows cell `c` of board `b`.
pub open spec fn symbol(b: BoardModel, c: Cell) -> char {
    if c == b.dragon {
        'D'
    } else if b.sheep.contains(c) {
        'S'
    } else if b.safe.contains(c) {
        '#'
    } else {
        '.'
    }
}

/// The marked cells of a row lie in that row, within the columns looked at, from left
/// to right.
pub proof fn lemma_marks_in_row(row: Seq<char>, r: int, mark: char, k: nat)
    requires
        0 <= r <= isize::MAX,
        k <= row.len(),
        k <= isize::MAX,
    ensures
        forall|i: int|
            0 <= i < marks_in_row(row, r, mark, k).len() ==> (#[trigger] marks_in_row(
                row,
                r,
                mark,
                k,
            )[i]).0 == r && 0 <= marks_in_row(row, r, mark, k)[i].1 < k,
        forall|i: int, j: int|
            0 <= i < j < marks_in_row(row, r, mark, k).len() ==> (#[trigger] marks_in_row(
                row,
                r,
                mark,
                k,
            )[i]).1 < (#[trigger] marks_in_row(row, r, mark, k)[j]).1,
    decreases k,
{
    if k > 0 {
        lemma_marks_in_row(row, r, mark, (k - 1) as nat);
        let before = marks_in_row(row, r, mark, (k - 1) as nat);
        let now = marks_in_row(row, r, mark, k);
        assert forall|i: int| 0 <= i < now.len() implies (#[trigger] now[i]).0 == r && 0
            <= now[i].1 < k by {
            if i < before.len() {
                assert(before[i].0 == r);
            }
        }
        assert forall|i: int, j: int| 0 <= i < j < now.len() implies (#[trigger] now[i]).1 < (
        #[trigger] now[j]).1 by {
            if j < before.len() {
                assert(before[i].1 < before[j].1);
            } else {
                assert(before[i].0 == r);
            }
        }
    }
}

/// The marked cells of a rectangular grid lie on it, in ascending order, each once.
pub proof fn lemma_marks(rows: Seq<Vec<char>>, mark: char, n: nat)
    requires
        n <= rows.len(),
        rows.len() <= isize::MAX,
        rectangular(rows),
        rows.len() > 0 ==> rows[0]@.len() <= isize::MAX,
    ensures
        forall|i: int|
            0 <= i < marks(rows, mark, n).len() ==> 0 <= (#[trigger] marks(rows, mark, n)[i]).0 < n
                && 0 <= marks(rows, mark, n)[i].1 < rows[0]@.len(),
        strictly_sorted(marks(rows, mark, n)),
    decreases n,
{
    if n > 0 {
        lemma_marks(rows, mark, (n - 1) as nat);
        let row = rows[n - 1]@;
        lemma_marks_in_row(row, n - 1, mark, row.len());
        let above = marks(rows, mark, (n - 1) as nat);
        let here = marks_in_row(row, n - 1, mark, row.len());
        let all = marks(rows, mark, n);
        assert(all == above + here);
        assert forall|i: int, j: int| 0 <= i < j < all.len() implies cell_leq(
            #[trigger] all[i],
            #[trigger] all[j],
        ) && all[i] != all[j] by {
            if j < above.len() {
                assert(cell_leq(above[i], above[j]) && above[i] != above[j]);
            } else if i < above.len() {
                assert(above[i].0 < n - 1);
                assert(here[j - above.len()].0 == n - 1);
            } else {
                assert(here[i - above.len()].1 < here[j - above.len()].1);
                assert(here[i - above.len()].0 == n - 1);
                assert(here[j - above.len()].0 == n - 1);
            }
        }
        assert forall|i: int| 0 <= i < all.len() implies 0 <= (#[trigger] all[i]).0 < n && 0
            <= all[i].1 < rows[0]@.len() by {
            if i < above.len() {
                assert(0 <= above[i].0 < n - 1);
            } else {
                assert(here[i - above.len()].0 == n - 1);
            }
        }
    }
}

impl ChessBoard {
    /// Reads a board from a grid of characters. The grid's height is the number of
    /// rows, its width the length of the first row. Where several cells hold a dragon,
    /// the last one counts. There is no board for a grid without rows, with rows of
    /// different lengths, or without a dragon.
    pub fn from_grid(rows: &Vec<Vec<char>>) -> (made: Result<ChessBoard, MalformedBoard>)
        requires
            rows@.len() <= isize::MAX,
            rows@.len() > 0 ==> rows@[0]@.len() <= isize::MAX,
        ensures
            made matches Err(e) ==> e == (if rows@.len() == 0 {
                MalformedBoard::EmptyGrid
            } else if !rectangular(rows@) {
                MalformedBoard::UnequalRows
            } else {
                MalformedBoard::NoDragon
            }),
            made is Ok <==> rows@.len() > 0 && rectangular(rows@) && marks(
                rows@,
                'D',
                rows@.len(),
            ).len() > 0,
            made matches Ok(board) ==> board.wf() && board.height == rows@.len() && board.width
                == rows@[0]@.len() && board.sheep@ == marks(rows@, 'S', rows@.len()) && board.safe@
                == marks(rows@, '#', rows@.len()) && board.dragon == marks(
                rows@,
                'D',
                rows@.len(),
            ).last(),
    {
        if rows.len() == 0 {
            return Err(MalformedBoard::EmptyGrid);
        }
        let width = rows[0].len();
        let mut i: usize = 0;
        while i < rows.len()
            invariant
                i <= rows.len(),
                width == rows@[0]@.len(),
                forall|k: int| 0 <= k < i ==> (#[trigger] rows@[k])@.len() == width,
            decreases rows.len() - i,
        {
            if rows[i].len() != width {
                return Err(MalformedBoard::UnequalRows);
            }
            i += 1;
        }
        let mut sheep: Vec<Cell> = Vec::new();
        let mut safe: Vec<Cell> = Vec::new();
        let mut dragon: Option<Cell> = None;
        let mut r: usize = 0;
        while r < rows.len()
            invariant
                r <= rows.len(),
                rows@.len() <= isize::MAX,
                width == rows@[0]@.len(),
                width <= isize::MAX,
                rectangular(rows@),
                sheep@ == marks(rows@, 'S', r as nat),
                safe@ == marks(rows@, '#', r as nat),
                dragon is Some <==> marks(rows@, 'D', r as nat).len() > 0,
                dragon matches Some(d) ==> d == marks(rows@, 'D', r as nat).last(),
            decreases rows.len() - r,
        {
            let row = &rows[r];
            let ghost sheep_above = sheep@;
            let ghost safe_above = safe@;
            let ghost dragons_above = marks(rows@, 'D', r as nat);
            let mut c: usize = 0;
            while c < row.len()
                invariant
                    c <= row@.len(),
                    r < rows@.len(),
                    rows@.len() <= isize::MAX,
                    row@.len() <= isize::MAX,
                    *row == rows@[r as int],
                    sheep_above == marks(rows@, 'S', r as nat),
                    safe_above == marks(rows@, '#', r as nat),
                    dragons_above == marks(rows@, 'D', r as nat),
                    sheep@ == sheep_above + marks_in_row(row@, r as int, 'S', c as nat),
                    safe@ == safe_above + marks_in_row(row@, r as int, '#', c as nat),
                    dragon is Some <==> (dragons_above + marks_in_row(
                        row@,
                        r as int,
                        'D',
                        c as nat,
                    )).len() > 0,
                    dragon matches Some(d) ==> d == (dragons_above + marks_in_row(
                        row@,
                        r as int,
                        'D',
                        c as nat,
                    )).last(),
                decreases row.len() - c,
            {
                let here: Cell = (r as isize, c as isize);
                let ch = row[c];
                proof {
                    let s = marks_in_row(row@, r as int, 'S', c as nat);
                    let h = marks_in_row(row@, r as int, '#', c as nat);
                    assert((sheep_above + s).push(here) =~= sheep_above + s.push(here));
                    assert((safe_above + h).push(here) =~= safe_above + h.push(here));
                }
                if ch == 'S' {
                    sheep.push(here);
                } else if ch == 'D' {
                    dragon = Some(here);
                } else if ch == '#' {
                    safe.push(here);
                }
                c += 1;
            }
            r += 1;
        }
        match dragon {
            None => Err(MalformedBoard::NoDragon),
            Some(d) => {
                proof {
                    lemma_marks(rows@, 'S', rows@.len());
                    lemma_marks(rows@, '#', rows@.len());
                    lemma_marks(rows@, 'D', rows@.len());
                    let ds = marks(rows@, 'D', rows@.len());
                    assert(d == ds[ds.len() - 1]);
                }
                Ok(
                    ChessBoard {
                        sheep,
                        dragon: d,
                        safe,
                        width: width as isize,
                        height: rows.len() as isize,
                    },
                )
            },
        }
    }

    /// Draws the board as a grid of characters, row by row: `D` for the dragon, `S`
    /// for a cell with a sheep, `#` for a hideout, `.` for open ground. The dragon hides
    /// what stands under it, and a sheep hides its hideout.
    pub fn render(&self) -> (rows: Vec<Vec<char>>)
        ensures
            rows@.len() == (if self.height > 0 {
                self.height as int
            } else {
                0
            }),
            forall|r: int|
                0 <= r < rows@.len() ==> (#[trigger] rows@[r])@.len() == (if self.width > 0 {
                    self.width as int
                } else {
                    0
                }),
            forall|r: int, c: int|
                0 <= r < rows@.len() && 0 <= c < rows@[r]@.len() ==> #[trigger] rows@[r]@[c]
                    == symbol(self@, (r as isize, c as isize)),
    {
        let height: isize = if self.height > 0 {
            self.height
        } else {
            0
        };
        let width: isize = if self.width > 0 {
            self.width
        } else {
            0
        };
        let mut rows: Vec<Vec<char>> = Vec::new();
        let mut r: isize = 0;
        while r < height
            invariant
                0 <= r <= height,
                0 <= width,
                rows@.len() == r,
                forall|y: int| 0 <= y < rows@.len() ==> (#[trigger] rows@[y])@.len() == width,
                forall|y: int, x: int|
                    0 <= y < rows@.len() && 0 <= x < rows@[y]@.len() ==> #[trigger] rows@[y]@[x]
                        == symbol(self@, (y as isize, x as isize)),
            decreases height - r,
        {
            let mut row: Vec<char> = Vec::new();
            let mut c: isize = 0;
            while c < width
                invariant
                    0 <= c <= width,
                    0 <= r < height,
                    row@.len() == c,
                    forall|x: int|
                        0 <= x < row@.len() ==> #[trigger] row@[x] == symbol(
                            self@,
                            (r, x as isize),
                        ),
                decreases width - c,
            {
                let pos: Cell = (r, c);
                let ch = if pos.0 == self.dragon.0 && pos.1 == self.dragon.1 {
                    'D'
                } else if crate::cells::contains_cell(self.sheep.as_slice(), pos) {
                    'S'
                } else if crate::cells::contains_cell(self.safe.as_slice(), pos) {
                    '#'
                } else {
                    '.'
                };
                row.push(ch);
                c += 1;
            }
            rows.push(row);
            r += 1;
        }
        rows
    }
}

} // verus!
