//! The board: one dragon, a flock of sheep kept in ascending order, and the hideouts
//! in which a sheep is safe from the dragon.

use crate::cells::{
    cell_leq, contains_cell, copy_cells, same_cells, sort_cells, sorted, sorted_copy, sorted_insert,
    strictly_sorted,
};
use crate::cells::{
    insert_sorted, is_sorted, is_strictly_sorted, lemma_sort_cells, lemma_sorted_insert, sorted_set,
};
use crate::geometry::{in_bounds, is_valid_move, on_grid, Cell};
use vstd::prelude::*;

verus! {

/// Why a board could not be built.
#[derive(Clone, Copy, Debug, PartialEq, Eq)]
pub enum MalformedBoard {
    /// The grid has no rows, or rows without columns.
    EmptyGrid,
    /// The rows differ in length.
    UnequalRows,
    /// No cell holds the dragon.
    NoDragon,
    /// The dragon or a sheep lies off the grid.
    OffGrid,
}

/// What a board is: the flock in order, the dragon, the set of hideouts, the extent.
pub struct BoardModel {
    pub sheep: Seq<Cell>,
    pub dragon: Cell,
    pub safe: Set<Cell>,
    pub width: isize,
    pub height: isize,
}

/// A board. `sheep` is kept ascending by `(row, col)`, so that two boards with the same
/// flock are the same value however the flock got there.
#[derive(Debug, PartialEq, Eq, Hash)]
pub struct ChessBoard {
    pub sheep: Vec<Cell>,
    pub dragon: Cell,
    pub safe: Vec<Cell>,
    pub width: isize,
    pub height: isize,
}

impl View for ChessBoard {
    type V = BoardModel;

    open spec fn view(&self) -> BoardModel {
        BoardModel {
            sheep: self.sheep@,
            dragon: self.dragon,
            safe: self.safe@.to_set(),
            width: self.width,
            height: self.height,
        }
    }
}

/// The cell one row further on.
pub open spec fn step_forward(c: Cell) -> Cell {
    ((c.0 + 1) as isize, c.1)
}

/// The cells that a dragon on `visited` does not catch: those it does not reach, and
/// those in a hideout.
pub open spec fn spared(visited: Set<Cell>, safe: Set<Cell>) -> spec_fn(Cell) -> bool {
    |c: Cell| !visited.contains(c) || safe.contains(c)
}

/// The cells that a dragon on `visited` catches.
pub open spec fn caught(visited: Set<Cell>, safe: Set<Cell>) -> spec_fn(Cell) -> bool {
    |c: Cell| visited.contains(c) && !safe.contains(c)
}

/// The cells that lie in a hideout.
pub open spec fn hidden(safe: Set<Cell>) -> spec_fn(Cell) -> bool {
    |c: Cell| safe.contains(c)
}

/// A capture leaves the sheep in hideouts as they are, wherever the dragons stand:
/// none of them is caught, and they keep their order.
pub proof fn lemma_capture_spares_hideouts(s: Seq<Cell>, visited: Set<Cell>, safe: Set<Cell>)
    ensures
        s.filter(spared(visited, safe)).filter(hidden(safe)) == s.filter(hidden(safe)),
        forall|i: int|
            0 <= i < s.filter(caught(visited, safe)).len() ==> !safe.contains(
                #[trigger] s.filter(caught(visited, safe))[i],
            ),
        s.filter(spared(visited, safe)).len() + s.filter(caught(visited, safe)).len() == s.len(),
    decreases s.len(),
{
    reveal(Seq::filter);
    if s.len() > 0 {
        let head = s.drop_last();
        let c = s.last();
        lemma_capture_spares_hideouts(head, visited, safe);
        head.filter(spared(visited, safe)).lemma_filter_push(c, hidden(safe));
    }
}

/// Every sheep one row further on, without those that leave the grid.
pub open spec fn advance_all(s: Seq<Cell>, width: isize, height: isize) -> Seq<Cell>
    decreases s.len(),
{
    if s.len() == 0 {
        s
    } else {
        let before = advance_all(s.drop_last(), width, height);
        if on_grid(s.last().0 + 1, s.last().1 as int, width as int, height as int) {
            before.push(step_forward(s.last()))
        } else {
            before
        }
    }
}

/// The index of the first `c` in `s`, or the length of `s` if there is none.
pub open spec fn first_index(s: Seq<Cell>, c: Cell) -> int
    decreases s.len(),
{
    if s.len() == 0 {
        0
    } else if s[0] == c {
        0
    } else {
        1 + first_index(s.drop_first(), c)
    }
}

/// The flock after the sheep at index `i` went one row further on.
pub open spec fn move_one(s: Seq<Cell>, i: int) -> Seq<Cell> {
    sorted_insert(s.remove(i), step_forward(s[i]))
}

/// The flock after the first sheep on `from` went one row further on.
pub open spec fn move_first(s: Seq<Cell>, from: Cell) -> Seq<Cell> {
    if s.contains(from) {
        move_one(s, first_index(s, from))
    } else {
        s
    }
}

/// Each sheep with the cell in front of it, without the sheep that would walk into a
/// dragon outside a hideout.
pub open spec fn possible_moves(s: Seq<Cell>, dragon: Cell, safe: Set<Cell>) -> Seq<(Cell, Cell)>
    decreases s.len(),
{
    if s.len() == 0 {
        Seq::empty()
    } else {
        let before = possible_moves(s.drop_last(), dragon, safe);
        let to = step_forward(s.last());
        if to != dragon || safe.contains(to) {
            before.push((s.last(), to))
        } else {
            before
        }
    }
}

/// `first_index` finds `c` where `s` holds it, and nowhere before.
pub proof fn lemma_first_index(s: Seq<Cell>, c: Cell)
    ensures
        0 <= first_index(s, c) <= s.len(),
        s.contains(c) <==> first_index(s, c) < s.len(),
        first_index(s, c) < s.len() ==> s[first_index(s, c)] == c,
        forall|k: int| 0 <= k < first_index(s, c) ==> s[k] != c,
    decreases s.len(),
{
    if s.len() > 0 {
        if s[0] == c {
            assert(s.contains(c));
        } else {
            let rest = s.drop_first();
            lemma_first_index(rest, c);
            if s.contains(c) {
                let k = choose|k: int| 0 <= k < s.len() && s[k] == c;
                assert(rest[k - 1] == c);
                assert(rest.contains(c));
            }
            if first_index(rest, c) < rest.len() {
                assert(s[first_index(rest, c) + 1] == c);
            }
            assert forall|k: int| 0 <= k < first_index(s, c) implies s[k] != c by {
                if k > 0 {
                    assert(rest[k - 1] != c);
                }
            }
        }
    }
}

/// What is kept of an ascending sequence is ascending, and was in it.
pub proof fn lemma_filter_sorted(s: Seq<Cell>, keep: spec_fn(Cell) -> bool)
    ensures
        forall|x: Cell| #[trigger] s.filter(keep).contains(x) <==> s.contains(x) && keep(x),
        sorted(s) ==> sorted(s.filter(keep)),
    decreases s.len(),
{
    reveal(Seq::filter);
    let out = s.filter(keep);
    if s.len() > 0 {
        let head = s.drop_last();
        let mid = head.filter(keep);
        lemma_filter_sorted(head, keep);
        assert forall|x: Cell| #[trigger] out.contains(x) <==> s.contains(x) && keep(x) by {
            if out.contains(x) {
                let k = choose|k: int| 0 <= k < out.len() && out[k] == x;
                if k < mid.len() {
                    assert(mid[k] == x);
                    assert(mid.contains(x));
                    let m = choose|m: int| 0 <= m < head.len() && head[m] == x;
                    assert(s[m] == x);
                } else {
                    assert(s[s.len() - 1] == x);
                }
            }
            if s.contains(x) && keep(x) {
                let k = choose|k: int| 0 <= k < s.len() && s[k] == x;
                if k < head.len() {
                    assert(head[k] == x);
                    assert(head.contains(x));
                    assert(mid.contains(x));
                    let m = choose|m: int| 0 <= m < mid.len() && mid[m] == x;
                    assert(out[m] == x);
                } else {
                    assert(out[mid.len() as int] == x);
                }
            }
        }
        if sorted(s) {
            assert forall|i: int, j: int| 0 <= i < j < head.len() implies cell_leq(
                #[trigger] head[i],
                #[trigger] head[j],
            ) by {
                assert(cell_leq(s[i], s[j]));
            }
            assert forall|i: int, j: int| 0 <= i < j < out.len() implies cell_leq(
                #[trigger] out[i],
                #[trigger] out[j],
            ) by {
                if j == mid.len() {
                    assert(mid.contains(mid[i]));
                    let m = choose|m: int| 0 <= m < head.len() && head[m] == mid[i];
                    assert(cell_leq(s[m], s[s.len() - 1]));
                } else {
                    assert(cell_leq(mid[i], mid[j]));
                }
            }
        }
    }
}

/// A flock that walked on is on the grid; it is ascending if it was; each of its sheep
/// stood one row back before.
pub proof fn lemma_advance_all(s: Seq<Cell>, width: isize, height: isize)
    ensures
        advance_all(s, width, height).len() <= s.len(),
        forall|k: int|
            0 <= k < advance_all(s, width, height).len() ==> in_bounds(
                #[trigger] advance_all(s, width, height)[k],
                width,
                height,
            ),
        forall|x: Cell| #[trigger]
            advance_all(s, width, height).contains(x) <==> in_bounds(x, width, height) && exists|
                m: int,
            |
                0 <= m < s.len() && x.0 == (#[trigger] s[m]).0 + 1 && x.1 == s[m].1,
        sorted(s) ==> sorted(advance_all(s, width, height)),
    decreases s.len(),
{
    let out = advance_all(s, width, height);
    if s.len() > 0 {
        let head = s.drop_last();
        let mid = advance_all(head, width, height);
        lemma_advance_all(head, width, height);
        let moves = on_grid(s.last().0 + 1, s.last().1 as int, width as int, height as int);
        assert forall|x: Cell| #[trigger]
            out.contains(x) <==> in_bounds(x, width, height) && exists|m: int|
                0 <= m < s.len() && x.0 == (#[trigger] s[m]).0 + 1 && x.1 == s[m].1 by {
            if out.contains(x) {
                let k = choose|k: int| 0 <= k < out.len() && out[k] == x;
                if k < mid.len() {
                    assert(mid[k] == x);
                    assert(mid.contains(x));
                    let m = choose|m: int|
                        0 <= m < head.len() && x.0 == (#[trigger] head[m]).0 + 1 && x.1
                            == head[m].1;
                    assert(x.0 == s[m].0 + 1 && x.1 == s[m].1);
                } else {
                    assert(x.0 == s[s.len() - 1].0 + 1 && x.1 == s[s.len() - 1].1);
                }
            }
            if in_bounds(x, width, height) && exists|m: int|
                0 <= m < s.len() && x.0 == (#[trigger] s[m]).0 + 1 && x.1 == s[m].1 {
                let m = choose|m: int|
                    0 <= m < s.len() && x.0 == (#[trigger] s[m]).0 + 1 && x.1 == s[m].1;
                if m < head.len() {
                    assert(x.0 == head[m].0 + 1 && x.1 == head[m].1);
                    assert(mid.contains(x));
                    let k = choose|k: int| 0 <= k < mid.len() && mid[k] == x;
                    assert(out[k] == x);
                } else {
                    assert(out[mid.len() as int] == x);
                }
            }
        }
        if sorted(s) {
            assert forall|i: int, j: int| 0 <= i < j < head.len() implies cell_leq(
                #[trigger] head[i],
                #[trigger] head[j],
            ) by {
                assert(cell_leq(s[i], s[j]));
            }
            assert forall|i: int, j: int| 0 <= i < j < out.len() implies cell_leq(
                #[trigger] out[i],
                #[trigger] out[j],
            ) by {
                if j == mid.len() {
                    assert(mid.contains(mid[i]));
                    let m = choose|m: int|
                        0 <= m < head.len() && mid[i].0 == (#[trigger] head[m]).0 + 1 && mid[i].1
                            == head[m].1;
                    assert(cell_leq(s[m], s[s.len() - 1]));
                } else {
                    assert(cell_leq(mid[i], mid[j]));
                }
            }
        }
    }
}

/// An ascending sequence without one of several equal cells is the same whichever of
/// them is left out, and is ascending.
pub proof fn lemma_remove_sorted(s: Seq<Cell>, i: int, j: int)
    requires
        sorted(s),
        0 <= i < s.len(),
        0 <= j < s.len(),
        s[i] == s[j],
    ensures
        s.remove(i) == s.remove(j),
        sorted(s.remove(i)),
{
    let a = s.remove(i);
    let b = s.remove(j);
    assert forall|k: int| 0 <= k < a.len() implies a[k] == b[k] by {
        if i <= k < j {
            assert(cell_leq(s[i], s[k]) || i == k);
            assert(cell_leq(s[k], s[j]));
            assert(cell_leq(s[i], s[k + 1]));
            assert(cell_leq(s[k + 1], s[j]) || k + 1 == j);
        } else if j <= k < i {
            assert(cell_leq(s[j], s[k]) || j == k);
            assert(cell_leq(s[k], s[i]));
            assert(cell_leq(s[j], s[k + 1]));
            assert(cell_leq(s[k + 1], s[i]) || k + 1 == i);
        }
    }
    assert(a =~= b);
    assert forall|x: int, y: int| 0 <= x < y < a.len() implies cell_leq(
        #[trigger] a[x],
        #[trigger] a[y],
    ) by {
        let sx = if x < i { x } else { x + 1 };
        let sy = if y < i { y } else { y + 1 };
        assert(cell_leq(s[sx], s[sy]));
    }
}

impl BoardModel {
    /// Whether the sheep at index `i` may walk on: it stays on the grid, and does not
    /// walk into the dragon outside a hideout.
    pub open spec fn can_move(self, i: int) -> bool {
        let to = step_forward(self.sheep[i]);
        self.sheep[i].0 + 1 < self.height && (to != self.dragon || self.safe.contains(to))
    }

    /// The board after the sheep at index `i` walked on.
    pub open spec fn after_move(self, i: int) -> BoardModel {
        BoardModel { sheep: move_one(self.sheep, i), ..self }
    }

    /// The boards that one step of one of the first `k` sheep leads to, in the order of
    /// the sheep.
    pub open spec fn sheep_successors(self, k: nat) -> Seq<BoardModel>
        decreases k,
    {
        if k == 0 {
            Seq::empty()
        } else {
            let before = self.sheep_successors((k - 1) as nat);
            if self.can_move(k - 1) {
                before.push(self.after_move(k - 1))
            } else {
                before
            }
        }
    }

    /// The board after the dragon jumped to `to` and caught what stood there outside a
    /// hideout.
    pub open spec fn after_jump(self, to: Cell) -> BoardModel {
        BoardModel { dragon: to, sheep: self.sheep.filter(spared(set![to], self.safe)), ..self }
    }
}

impl ChessBoard {
    /// The dragon and every sheep are on the grid, the flock is ascending, and the
    /// hideouts are listed in ascending order, each once.
    pub open spec fn wf(&self) -> bool {
        &&& in_bounds(self.dragon, self.width, self.height)
        &&& forall|i: int|
            0 <= i < self.sheep@.len() ==> in_bounds(
                #[trigger] self.sheep@[i],
                self.width,
                self.height,
            )
        &&& sorted(self.sheep@)
        &&& strictly_sorted(self.safe@)
    }

    /// Everything but the flock is the same in both boards.
    pub open spec fn same_frame(&self, other: &ChessBoard) -> bool {
        &&& self.dragon == other.dragon
        &&& self.safe@ == other.safe@
        &&& self.width == other.width
        &&& self.height == other.height
    }

    /// The two boards hold the same values field by field.
    pub open spec fn same_fields(&self, other: &ChessBoard) -> bool {
        self.sheep@ == other.sheep@ && self.same_frame(other)
    }

    /// Puts the flock in ascending order.
    pub fn sort_sheep(&mut self)
        ensures
            final(self).sheep@ == sort_cells(old(self).sheep@),
            final(self).same_frame(old(self)),
    {
        self.sheep = sorted_copy(&self.sheep);
    }

    /// A copy of the board.
    pub fn duplicate(&self) -> (copy: ChessBoard)
        ensures
            copy.same_fields(self),
            copy@ == self@,
    {
        ChessBoard {
            sheep: copy_cells(&self.sheep),
            dragon: self.dragon,
            safe: copy_cells(&self.safe),
            width: self.width,
            height: self.height,
        }
    }

    /// Whether the two boards hold the same values field by field.
    pub fn equals(&self, other: &ChessBoard) -> (same: bool)
        ensures
            same == self.same_fields(other),
    {
        self.dragon.0 == other.dragon.0 && self.dragon.1 == other.dragon.1 && self.width
            == other.width && self.height == other.height && same_cells(&self.sheep, &other.sheep)
            && same_cells(&self.safe, &other.safe)
    }

    /// Moves every sheep one row on. A sheep that leaves the grid is gone.
    pub fn move_all_sheep(&mut self)
        ensures
            final(self).sheep@ == advance_all(old(self).sheep@, old(self).width, old(self).height),
            final(self).same_frame(old(self)),
            old(self).wf() ==> final(self).wf(),
    {
        let mut moved: Vec<Cell> = Vec::new();
        let mut i: usize = 0;
        while i < self.sheep.len()
            invariant
                i <= self.sheep.len(),
                *self == *old(self),
                moved@ == advance_all(self.sheep@.take(i as int), self.width, self.height),
            decreases self.sheep.len() - i,
        {
            let c = self.sheep[i];
            assert(self.sheep@.take(i + 1).drop_last() =~= self.sheep@.take(i as int));
            if c.0 < isize::MAX {
                let to: Cell = (c.0 + 1, c.1);
                if is_valid_move(&to, self.width, self.height) {
                    moved.push(to);
                }
            }
            i += 1;
        }
        proof {
            assert(self.sheep@.take(self.sheep.len() as int) =~= self.sheep@);
            lemma_advance_all(self.sheep@, self.width, self.height);
        }
        self.sheep = moved;
    }

    /// Removes the sheep that stand on a cell of `visited` outside a hideout, and
    /// says how many were removed.
    pub fn remove_sheep(&mut self, visited: &[Cell]) -> (removed: usize)
        ensures
            final(self).sheep@ == old(self).sheep@.filter(
                spared(visited@.to_set(), old(self).safe@.to_set()),
            ),
            removed == old(self).sheep@.len() - final(self).sheep@.len(),
            final(self).sheep@.filter(hidden(old(self).safe@.to_set())) == old(self).sheep@.filter(
                hidden(old(self).safe@.to_set()),
            ),
            final(self).same_frame(old(self)),
            old(self).wf() ==> final(self).wf(),
    {
        let ghost keep = spared(visited@.to_set(), self.safe@.to_set());
        proof {
            lemma_capture_spares_hideouts(self.sheep@, visited@.to_set(), self.safe@.to_set());
        }
        let before = self.sheep.len();
        let mut kept: Vec<Cell> = Vec::new();
        let mut i: usize = 0;
        while i < self.sheep.len()
            invariant
                i <= self.sheep.len(),
                *self == *old(self),
                keep == spared(visited@.to_set(), self.safe@.to_set()),
                kept@ == self.sheep@.take(i as int).filter(keep),
            decreases self.sheep.len() - i,
        {
            let c = self.sheep[i];
            proof {
                assert(self.sheep@.take(i + 1) =~= self.sheep@.take(i as int).push(c));
                self.sheep@.take(i as int).lemma_filter_push(c, keep);
            }
            if !contains_cell(visited, c) || contains_cell(self.safe.as_slice(), c) {
                kept.push(c);
            }
            i += 1;
        }
        proof {
            assert(self.sheep@.take(self.sheep.len() as int) =~= self.sheep@);
            lemma_filter_sorted(self.sheep@, keep);
            self.sheep@.lemma_filter_len(keep);
            if self.wf() {
                assert forall|k: int| 0 <= k < kept@.len() implies in_bounds(
                    #[trigger] kept@[k],
                    self.width,
                    self.height,
                ) by {
                    assert(kept@.contains(kept@[k]));
                    let m = choose|m: int| 0 <= m < self.sheep@.len() && self.sheep@[m] == kept@[k];
                    assert(in_bounds(self.sheep@[m], self.width, self.height));
                }
            }
        }
        self.sheep = kept;
        before - self.sheep.len()
    }

    /// Removes the sheep that stand on the dragon's cell, unless it is a hideout.
    pub fn remove_sheep_current_dragon(&mut self)
        ensures
            final(self).sheep@ == old(self).sheep@.filter(
                spared(set![old(self).dragon], old(self).safe@.to_set()),
            ),
            final(self).same_frame(old(self)),
            old(self).wf() ==> final(self).wf(),
    {
        let mut here: Vec<Cell> = Vec::new();
        here.push(self.dragon);
        proof {
            assert(here@.to_set() =~= set![self.dragon]) by {
                assert(here@[0] == self.dragon);
                assert forall|x: Cell| here@.to_set().contains(x) implies x == self.dragon by {
                    assert(here@.contains(x));
                }
            }
        }
        self.remove_sheep(here.as_slice());
    }

    /// Whether a sheep on `sheep_pos` has left the grid by its far edge.
    pub fn sheep_escapes(&self, sheep_pos: &Cell) -> (gone: bool)
        ensures
            gone == (sheep_pos.0 >= self.height),
    {
        sheep_pos.0 >= self.height
    }

    /// Whether the dragon and every sheep are on the grid.
    pub fn all_on_grid(&self) -> (ok: bool)
        ensures
            ok == (in_bounds(self.dragon, self.width, self.height) && forall|i: int|
                0 <= i < self.sheep@.len() ==> in_bounds(
                    #[trigger] self.sheep@[i],
                    self.width,
                    self.height,
                )),
    {
        if !is_valid_move(&self.dragon, self.width, self.height) {
            return false;
        }
        let mut i: usize = 0;
        while i < self.sheep.len()
            invariant
                i <= self.sheep.len(),
                forall|k: int|
                    0 <= k < i ==> in_bounds(#[trigger] self.sheep@[k], self.width, self.height),
            decreases self.sheep.len() - i,
        {
            if !is_valid_move(&self.sheep[i], self.width, self.height) {
                return false;
            }
            i += 1;
        }
        true
    }

    /// Moves the first sheep on `old_pos` one row on and puts the flock back in order.
    /// Without a sheep on `old_pos` the board stays as it is.
    pub fn move_one_sheep(&mut self, old_pos: Cell)
        requires
            old(self).sheep@.contains(old_pos) ==> old_pos.0 < isize::MAX,
        ensures
            final(self).sheep@ == move_first(old(self).sheep@, old_pos),
            final(self).same_frame(old(self)),
            sorted(old(self).sheep@) ==> sorted(final(self).sheep@),
    {
        let mut i: usize = 0;
        while i < self.sheep.len() && !(self.sheep[i].0 == old_pos.0 && self.sheep[i].1
            == old_pos.1)
            invariant
                i <= self.sheep.len(),
                *self == *old(self),
                forall|k: int| 0 <= k < i ==> self.sheep@[k] != old_pos,
            decreases self.sheep.len() - i,
        {
            i += 1;
        }
        proof {
            lemma_first_index(self.sheep@, old_pos);
        }
        if i < self.sheep.len() {
            assert(self.sheep@[i as int] == old_pos);
            assert(i == first_index(self.sheep@, old_pos));
            let ghost before = self.sheep@;
            let to: Cell = (old_pos.0 + 1, old_pos.1);
            self.sheep.remove(i);
            proof {
                if sorted(before) {
                    lemma_remove_sorted(before, i as int, i as int);
                }
                lemma_sorted_insert(self.sheep@, to);
            }
            insert_sorted(&mut self.sheep, to);
        }
    }

    /// Each sheep with the cell in front of it, without the sheep that would walk into
    /// the dragon outside a hideout.
    pub fn get_possible_sheep_moves(&self) -> (moves: Vec<(Cell, Cell)>)
        requires
            forall|i: int| 0 <= i < self.sheep@.len() ==> (#[trigger] self.sheep@[i]).0 < isize::MAX,
        ensures
            moves@ == possible_moves(self.sheep@, self.dragon, self.safe@.to_set()),
    {
        let mut moves: Vec<(Cell, Cell)> = Vec::new();
        let mut i: usize = 0;
        while i < self.sheep.len()
            invariant
                i <= self.sheep.len(),
                forall|i: int|
                    0 <= i < self.sheep@.len() ==> (#[trigger] self.sheep@[i]).0 < isize::MAX,
                moves@ == possible_moves(
                    self.sheep@.take(i as int),
                    self.dragon,
                    self.safe@.to_set(),
                ),
            decreases self.sheep.len() - i,
        {
            let from = self.sheep[i];
            let to: Cell = (from.0 + 1, from.1);
            assert(self.sheep@.take(i + 1).drop_last() =~= self.sheep@.take(i as int));
            if !(to.0 == self.dragon.0 && to.1 == self.dragon.1) || contains_cell(
                self.safe.as_slice(),
                to,
            ) {
                moves.push((from, to));
            }
            i += 1;
        }
        assert(self.sheep@.take(self.sheep.len() as int) =~= self.sheep@);
        moves
    }

    /// The boards that one step of one sheep leads to, in the order of the sheep. A
    /// sheep does not walk off the grid, nor into the dragon outside a hideout; where no
    /// sheep can walk, there is no such board.
    pub fn move_sheep_get_boards(&self) -> (boards: Vec<ChessBoard>)
        requires
            self.wf(),
        ensures
            boards@.len() == self@.sheep_successors(self.sheep@.len()).len(),
            forall|j: int|
                0 <= j < boards@.len() ==> (#[trigger] boards@[j])@ == self@.sheep_successors(
                    self.sheep@.len(),
                )[j],
            forall|j: int| 0 <= j < boards@.len() ==> (#[trigger] boards@[j]).wf(),
    {
        let mut boards: Vec<ChessBoard> = Vec::new();
        let mut i: usize = 0;
        while i < self.sheep.len()
            invariant
                i <= self.sheep.len(),
                self.wf(),
                boards@.len() == self@.sheep_successors(i as nat).len(),
                forall|j: int|
                    0 <= j < boards@.len() ==> (#[trigger] boards@[j])@
                        == self@.sheep_successors(i as nat)[j],
                forall|j: int| 0 <= j < boards@.len() ==> (#[trigger] boards@[j]).wf(),
            decreases self.sheep.len() - i,
        {
            let from = self.sheep[i];
            assert(in_bounds(self.sheep@[i as int], self.width, self.height));
            let to: Cell = (from.0 + 1, from.1);
            if !self.sheep_escapes(&to) && (!(to.0 == self.dragon.0 && to.1 == self.dragon.1)
                || contains_cell(self.safe.as_slice(), to)) {
                let mut next = self.duplicate();
                assert(next.sheep@.contains(from)) by {
                    assert(next.sheep@[i as int] == from);
                }
                next.move_one_sheep(from);
                proof {
                    let s = self.sheep@;
                    lemma_first_index(s, from);
                    lemma_remove_sorted(s, first_index(s, from), i as int);
                    lemma_sorted_insert(s.remove(i as int), to);
                    assert forall|k: int| 0 <= k < next.sheep@.len() implies in_bounds(
                        #[trigger] next.sheep@[k],
                        next.width,
                        next.height,
                    ) by {
                        let x = next.sheep@[k];
                        assert(next.sheep@.contains(x));
                        if x != to {
                            assert(s.remove(i as int).contains(x));
                            let m = choose|m: int|
                                0 <= m < s.remove(i as int).len() && s.remove(i as int)[m] == x;
                            let sm = if m < i { m } else { m + 1 };
                            assert(in_bounds(s[sm], self.width, self.height));
                        }
                    }
                    assert(next@ == self@.after_move(i as int));
                }
                boards.push(next);
            }
            i += 1;
        }
        boards
    }

    /// Whether the board is well formed.
    pub fn is_well_formed(&self) -> (ok: bool)
        ensures
            ok == self.wf(),
    {
        self.all_on_grid() && is_sorted(&self.sheep) && is_strictly_sorted(&self.safe)
    }

    /// A board with the given flock, dragon and hideouts on a grid of the given extent.
    /// The flock is put in order; the hideouts are put in order, each listed once.
    /// There is no board if the dragon or a sheep is off the grid.
    pub fn new(
        sheep: Vec<Cell>,
        dragon: Cell,
        safe: Vec<Cell>,
        width: isize,
        height: isize,
    ) -> (made: Result<ChessBoard, MalformedBoard>)
        ensures
            made is Ok <==> in_bounds(dragon, width, height) && forall|i: int|
                0 <= i < sheep@.len() ==> in_bounds(#[trigger] sheep@[i], width, height),
            made matches Ok(board) ==> board.wf() && board.sheep@ == sort_cells(sheep@)
                && board.dragon == dragon && board.safe@.to_set() == safe@.to_set()
                && board.width == width && board.height == height,
            made matches Err(e) ==> e == MalformedBoard::OffGrid,
    {
        let mut board = ChessBoard { sheep, dragon, safe: Vec::new(), width, height };
        if !board.all_on_grid() {
            return Err(MalformedBoard::OffGrid);
        }
        board.safe = sorted_set(&safe);
        let ghost given = board.sheep@;
        board.sort_sheep();
        proof {
            lemma_sort_cells(given);
            assert forall|k: int| 0 <= k < board.sheep@.len() implies in_bounds(
                #[trigger] board.sheep@[k],
                width,
                height,
            ) by {
                assert(board.sheep@.contains(board.sheep@[k]));
                assert(given.contains(board.sheep@[k]));
                let m = choose|m: int| 0 <= m < given.len() && given[m] == board.sheep@[k];
                assert(in_bounds(given[m], width, height));
            }
        }
        Ok(board)
    }
}

} // verus!
