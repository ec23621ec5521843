//! Counting the ways in which the dragon, moving in turn with the flock, catches every
//! sheep.

use crate::board::{spared, step_forward, BoardModel, ChessBoard};
use crate::cells::sorted_insert;
use crate::geometry::{jump_targets, knight_moves, lemma_jump_targets, Cell};
use vstd::prelude::*;

verus! {

/// The rows that a sheep on `c` has left to walk before it leaves the grid.
pub open spec fn room(c: Cell, height: isize) -> nat {
    if c.0 < height {
        (height - c.0) as nat
    } else {
        0
    }
}

/// The rows that the whole flock has left to walk. No move makes it larger, and every
/// step of a sheep makes it smaller.
pub open spec fn weight(s: Seq<Cell>, height: isize) -> nat
    decreases s.len(),
{
    if s.len() == 0 {
        0
    } else {
        weight(s.drop_last(), height) + room(s.last(), height)
    }
}

/// What is kept of a flock weighs no more than the flock.
pub proof fn lemma_weight_filter(s: Seq<Cell>, keep: spec_fn(Cell) -> bool, height: isize)
    ensures
        weight(s.filter(keep), height) <= weight(s, height),
    decreases s.len(),
{
    reveal(Seq::filter);
    if s.len() > 0 {
        lemma_weight_filter(s.drop_last(), keep, height);
        let mid = s.drop_last().filter(keep);
        if keep(s.last()) {
            assert(mid.push(s.last()).drop_last() =~= mid);
        }
    }
}

/// A flock without one sheep weighs less by that sheep's room.
pub proof fn lemma_weight_remove(s: Seq<Cell>, i: int, height: isize)
    requires
        0 <= i < s.len(),
    ensures
        weight(s.remove(i), height) + room(s[i], height) == weight(s, height),
    decreases s.len(),
{
    if i == s.len() - 1 {
        assert(s.remove(i) =~= s.drop_last());
    } else {
        lemma_weight_remove(s.drop_last(), i, height);
        assert(s.remove(i).drop_last() =~= s.drop_last().remove(i));
        assert(s.remove(i).last() == s.last());
    }
}

/// A flock with one more sheep weighs more by that sheep's room.
pub proof fn lemma_weight_insert(s: Seq<Cell>, c: Cell, height: isize)
    ensures
        weight(sorted_insert(s, c), height) == weight(s, height) + room(c, height),
    decreases s.len(),
{
    if s.len() == 0 {
        assert(seq![c].drop_last() =~= s);
    } else if crate::cells::cell_leq(s.last(), c) {
        assert(s.push(c).drop_last() =~= s);
    } else {
        lemma_weight_insert(s.drop_last(), c, height);
        let mid = sorted_insert(s.drop_last(), c);
        assert(mid.push(s.last()).drop_last() =~= mid);
    }
}

/// A step of a sheep that stays on the grid makes the flock lighter.
pub proof fn lemma_weight_move(b: BoardModel, i: int)
    requires
        0 <= i < b.sheep.len(),
        b.can_move(i),
    ensures
        weight(b.after_move(i).sheep, b.height) < weight(b.sheep, b.height),
{
    lemma_weight_remove(b.sheep, i, b.height);
    lemma_weight_insert(b.sheep.remove(i), step_forward(b.sheep[i]), b.height);
}

/// The number of ways to play on from `b` until no sheep is left, the dragon moving
/// next if `dragon_turn` and a sheep otherwise. A board without sheep counts once,
/// whoever is to move. The dragon jumps to any cell on the grid and catches what stands
/// there outside a hideout; one sheep walks one row, not off the grid and not into the
/// dragon outside a hideout. Where nobody can move, there is no way.
pub open spec fn outcomes(b: BoardModel, dragon_turn: bool) -> nat
    decreases weight(b.sheep, b.height), (if dragon_turn { 3nat } else { 1nat }), 0nat,
{
    if b.sheep.len() == 0 {
        1
    } else if dragon_turn {
        dragon_sum(b, jump_targets(b.dragon, b.width, b.height, 8).len())
    } else {
        sheep_sum(b, b.sheep.len())
    }
}

/// The ways that start with a jump to one of the first `k` cells in the dragon's reach.
pub open spec fn dragon_sum(b: BoardModel, k: nat) -> nat
    decreases weight(b.sheep, b.height), 2nat, k,
{
    let targets = jump_targets(b.dragon, b.width, b.height, 8);
    if k == 0 {
        0
    } else if k > targets.len() {
        dragon_sum(b, (k - 1) as nat)
    } else {
        proof {
            lemma_weight_filter(b.sheep, spared(set![targets[k - 1]], b.safe), b.height);
        }
        dragon_sum(b, (k - 1) as nat) + outcomes(b.after_jump(targets[k - 1]), false)
    }
}

/// The ways that start with a step of one of the first `k` sheep.
pub open spec fn sheep_sum(b: BoardModel, k: nat) -> nat
    decreases weight(b.sheep, b.height), 0nat, k,
{
    if k == 0 {
        0
    } else if k <= b.sheep.len() && b.can_move(k - 1) {
        proof {
            lemma_weight_move(b, k - 1);
        }
        sheep_sum(b, (k - 1) as nat) + outcomes(b.after_move(k - 1), true)
    } else {
        sheep_sum(b, (k - 1) as nat)
    }
}

/// The sums grow with the number of moves counted.
pub proof fn lemma_sums_grow(b: BoardModel, k: nat, more: nat)
    requires
        k <= more,
    ensures
        dragon_sum(b, k) <= dragon_sum(b, more),
        sheep_sum(b, k) <= sheep_sum(b, more),
    decreases more - k,
{
    if k < more {
        lemma_sums_grow(b, k, (more - 1) as nat);
    }
}

/// The ways to play on from each board of `boards`, added up.
pub open spec fn total_of(boards: Seq<BoardModel>, dragon_turn: bool) -> nat
    decreases boards.len(),
{
    if boards.len() == 0 {
        0
    } else {
        total_of(boards.drop_last(), dragon_turn) + outcomes(boards.last(), dragon_turn)
    }
}

/// The total of the first boards is no more than the total of all, and grows board
/// by board.
pub proof fn lemma_total_of_take(boards: Seq<BoardModel>, j: int, dragon_turn: bool)
    requires
        0 <= j <= boards.len(),
    ensures
        total_of(boards.take(j), dragon_turn) <= total_of(boards, dragon_turn),
        j < boards.len() ==> total_of(boards.take(j + 1), dragon_turn) == total_of(
            boards.take(j),
            dragon_turn,
        ) + outcomes(boards[j], dragon_turn),
    decreases boards.len() - j,
{
    if j < boards.len() {
        assert(boards.take(j + 1).drop_last() =~= boards.take(j));
        lemma_total_of_take(boards, j + 1, dragon_turn);
    } else {
        assert(boards.take(j) =~= boards);
    }
}

/// The ways that start with a step of a sheep are the ways to play on from the boards
/// that such a step leads to; each of these boards is lighter.
pub proof fn lemma_sheep_successors(b: BoardModel, k: nat)
    requires
        k <= b.sheep.len(),
    ensures
        sheep_sum(b, k) == total_of(b.sheep_successors(k), true),
        forall|j: int|
            0 <= j < b.sheep_successors(k).len() ==> weight(
                (#[trigger] b.sheep_successors(k)[j]).sheep,
                b.height,
            ) < weight(b.sheep, b.height) && b.sheep_successors(k)[j].height == b.height,
    decreases k,
{
    if k > 0 {
        lemma_sheep_successors(b, (k - 1) as nat);
        let before = b.sheep_successors((k - 1) as nat);
        if b.can_move(k - 1) {
            lemma_weight_move(b, k - 1);
            assert(before.push(b.after_move(k - 1)).drop_last() =~= before);
        }
    }
}

/// The count of ways does not fit the machine's word.
#[derive(Clone, Copy, Debug, PartialEq, Eq)]
pub struct CountOverflow {}

/// A board, whose turn it is, and the number of ways to play on from there.
pub struct MemoEntry {
    board: ChessBoard,
    dragon_turn: bool,
    count: usize,
}

/// The counts found so far, by board and turn. It holds no count that is not the true
/// one.
pub struct MemoCache {
    entries: Vec<MemoEntry>,
}

impl MemoCache {
    /// Every board in the cache is well formed, and every count is the number of ways
    /// to play on from its board.
    pub closed spec fn wf(&self) -> bool {
        forall|i: int|
            0 <= i < self.entries@.len() ==> (#[trigger] self.entries@[i]).board.wf()
                && self.entries@[i].count == outcomes(
                self.entries@[i].board@,
                self.entries@[i].dragon_turn,
            )
    }

    /// Whether the cache holds a count for this board and turn.
    pub closed spec fn knows(&self, b: BoardModel, dragon_turn: bool) -> bool {
        exists|i: int|
            0 <= i < self.entries@.len() && (#[trigger] self.entries@[i]).board@ == b
                && self.entries@[i].dragon_turn == dragon_turn
    }

    /// The number of counts in the cache.
    pub closed spec fn size(&self) -> nat {
        self.entries@.len()
    }

    /// An empty cache.
    pub fn new() -> (memo: MemoCache)
        ensures
            memo.wf(),
            memo.size() == 0,
            forall|b: BoardModel, t: bool| !memo.knows(b, t),
    {
        MemoCache { entries: Vec::new() }
    }

    /// The number of counts in the cache.
    pub fn len(&self) -> (n: usize)
        ensures
            n == self.size(),
    {
        self.entries.len()
    }

    /// The count for this board and turn, if the cache holds one.
    pub fn get(&self, board: &ChessBoard, dragon_turn: bool) -> (found: Option<usize>)
        requires
            self.wf(),
            board.wf(),
        ensures
            found is Some <==> self.knows(board@, dragon_turn),
            found matches Some(n) ==> n == outcomes(board@, dragon_turn),
    {
        let mut i: usize = 0;
        while i < self.entries.len()
            invariant
                i <= self.entries.len(),
                self.wf(),
                board.wf(),
                forall|k: int|
                    0 <= k < i ==> !((#[trigger] self.entries@[k]).board@ == board@
                        && self.entries@[k].dragon_turn == dragon_turn),
            decreases self.entries.len() - i,
        {
            if self.entries[i].dragon_turn == dragon_turn && self.entries[i].board.equals(board) {
                assert(self.entries@[i as int].board@ == board@);
                return Some(self.entries[i].count);
            }
            proof {
                let e = self.entries@[i as int];
                if e.board@ == board@ {
                    crate::cells::lemma_strictly_sorted_unique(e.board.safe@, board.safe@);
                }
            }
            i += 1;
        }
        None
    }

    /// Puts a count into the cache.
    fn insert(&mut self, board: ChessBoard, dragon_turn: bool, count: usize)
        requires
            old(self).wf(),
            board.wf(),
            count == outcomes(board@, dragon_turn),
        ensures
            final(self).wf(),
            final(self).size() == old(self).size() + 1,
            forall|b: BoardModel, t: bool|
                final(self).knows(b, t) <==> old(self).knows(b, t) || (b == board@ && t
                    == dragon_turn),
    {
        let ghost before = self.entries@;
        let ghost key = board@;
        self.entries.push(MemoEntry { board, dragon_turn, count });
        proof {
            let after = self.entries@;
            assert forall|b: BoardModel, t: bool|
                self.knows(b, t) <==> old(self).knows(b, t) || (b == key && t == dragon_turn) by {
                if old(self).knows(b, t) {
                    let i = choose|i: int|
                        0 <= i < before.len() && (#[trigger] before[i]).board@ == b
                            && before[i].dragon_turn == t;
                    assert(after[i].board@ == b && after[i].dragon_turn == t);
                }
                if b == key && t == dragon_turn {
                    assert(after[before.len() as int].board@ == b);
                }
                if self.knows(b, t) {
                    let i = choose|i: int|
                        0 <= i < after.len() && (#[trigger] after[i]).board@ == b
                            && after[i].dragon_turn == t;
                    if i < before.len() {
                        assert(before[i].board@ == b && before[i].dragon_turn == t);
                    }
                }
            }
        }
    }
}

/// The boards that one jump of the dragon leads to, in the order of the jumps, before
/// anything is caught.
pub fn move_dragon_get_boards(board: ChessBoard) -> (boards: Vec<ChessBoard>)
    ensures
        boards@.len() == jump_targets(board.dragon, board.width, board.height, 8).len(),
        forall|j: int|
            0 <= j < boards@.len() ==> (#[trigger] boards@[j]).dragon == jump_targets(
                board.dragon,
                board.width,
                board.height,
                8,
            )[j] && boards@[j].sheep@ == board.sheep@ && boards@[j].safe@ == board.safe@
                && boards@[j].width == board.width && boards@[j].height == board.height,
{
    let moves = knight_moves(board.dragon, board.width, board.height);
    let mut boards: Vec<ChessBoard> = Vec::new();
    let mut j: usize = 0;
    while j < moves.len()
        invariant
            j <= moves.len(),
            boards@.len() == j,
            forall|k: int|
                0 <= k < j ==> (#[trigger] boards@[k]).dragon == moves@[k] && boards@[k].sheep@
                    == board.sheep@ && boards@[k].safe@ == board.safe@ && boards@[k].width
                    == board.width && boards@[k].height == board.height,
        decreases moves.len() - j,
    {
        let mut next = board.duplicate();
        next.dragon = moves[j];
        boards.push(next);
        j += 1;
    }
    boards
}

/// The number of ways to play on from `board` until no sheep is left, the dragon
/// moving next if `dragon_turn` and a sheep otherwise. Counts found on the way go into
/// `memo`, and counts that it holds are not computed again.
pub fn dfs_memo(board: ChessBoard, memo: &mut MemoCache, dragon_turn: bool) -> (count: Result<
    usize,
    CountOverflow,
>)
    requires
        board.wf(),
        old(memo).wf(),
    ensures
        final(memo).wf(),
        forall|b: BoardModel, t: bool| old(memo).knows(b, t) ==> final(memo).knows(b, t),
        count matches Ok(n) ==> n == outcomes(board@, dragon_turn) && final(memo).knows(
            board@,
            dragon_turn,
        ),
        count is Err <==> outcomes(board@, dragon_turn) > usize::MAX,
    decreases weight(board.sheep@, board.height), (if dragon_turn { 3nat } else { 1nat }),
{
    if let Some(n) = memo.get(&board, dragon_turn) {
        return Ok(n);
    }
    if board.sheep.len() == 0 {
        memo.insert(board, dragon_turn, 1);
        return Ok(1);
    }
    let ghost b = board@;
    let given = board.duplicate();
    let mut total: usize = 0;
    let mut j: usize = 0;
    if dragon_turn {
        let ghost targets = jump_targets(board.dragon, board.width, board.height, 8);
        let boards = move_dragon_get_boards(board);
        while j < boards.len()
            invariant
                j <= boards.len(),
                boards@.len() == targets.len(),
                targets == jump_targets(b.dragon, b.width, b.height, 8),
                given.wf(),
                given@ == b,
                forall|k: int|
                    0 <= k < boards@.len() ==> (#[trigger] boards@[k]).dragon == targets[k]
                        && boards@[k].sheep@ == given.sheep@ && boards@[k].safe@
                        == given.safe@ && boards@[k].width == given.width
                        && boards@[k].height == given.height,
                memo.wf(),
                forall|x: BoardModel, t: bool| old(memo).knows(x, t) ==> memo.knows(x, t),
                total == dragon_sum(b, j as nat),
                b == board@,
                b.sheep.len() > 0,
                dragon_turn,
            decreases boards.len() - j,
        {
            let mut next = boards[j].duplicate();
            proof {
                lemma_jump_targets(b.dragon, b.width, b.height, 8);
                assert(targets.contains(targets[j as int]));
                lemma_weight_filter(b.sheep, spared(set![targets[j as int]], b.safe), b.height);
                lemma_sums_grow(b, (j + 1) as nat, targets.len());
            }
            next.remove_sheep_current_dragon();
            assert(next@ == b.after_jump(targets[j as int]));
            match dfs_memo(next, memo, false) {
                Ok(n) => match total.checked_add(n) {
                    Some(sum) => {
                        total = sum;
                    },
                    None => {
                        return Err(CountOverflow {  });
                    },
                },
                Err(e) => {
                    return Err(e);
                },
            }
            j += 1;
        }
    } else {
        let boards = board.move_sheep_get_boards();
        let ghost next_boards = b.sheep_successors(b.sheep.len());
        proof {
            lemma_sheep_successors(b, b.sheep.len());
        }
        while j < boards.len()
            invariant
                j <= boards.len(),
                boards@.len() == next_boards.len(),
                next_boards == b.sheep_successors(b.sheep.len()),
                forall|k: int| 0 <= k < boards@.len() ==> (#[trigger] boards@[k])@ == next_boards[k],
                forall|k: int| 0 <= k < boards@.len() ==> (#[trigger] boards@[k]).wf(),
                forall|k: int|
                    0 <= k < next_boards.len() ==> weight(
                        (#[trigger] next_boards[k]).sheep,
                        b.height,
                    ) < weight(b.sheep, b.height) && next_boards[k].height == b.height,
                sheep_sum(b, b.sheep.len()) == total_of(next_boards, true),
                memo.wf(),
                forall|x: BoardModel, t: bool| old(memo).knows(x, t) ==> memo.knows(x, t),
                total == total_of(next_boards.take(j as int), true),
                b == board@,
                b.sheep.len() > 0,
                !dragon_turn,
            decreases boards.len() - j,
        {
            let next = boards[j].duplicate();
            proof {
                lemma_total_of_take(next_boards, j as int, true);
                lemma_total_of_take(next_boards, j + 1, true);
                assert(next@ == next_boards[j as int]);
            }
            match dfs_memo(next, memo, true) {
                Ok(n) => match total.checked_add(n) {
                    Some(sum) => {
                        total = sum;
                    },
                    None => {
                        return Err(CountOverflow {  });
                    },
                },
                Err(e) => {
                    return Err(e);
                },
            }
            j += 1;
        }
        assert(next_boards.take(boards.len() as int) =~= next_boards);
    }
    memo.insert(given, dragon_turn, total);
    Ok(total)
}

/// A board without sheep counts once, whoever is to move.
pub proof fn lemma_empty_flock_counts_once(b: BoardModel, dragon_turn: bool)
    requires
        b.sheep.len() == 0,
    ensures
        outcomes(b, dragon_turn) == 1,
{
}

/// Where it is the flock's turn and no sheep can walk, there is no way to play on: the
/// count is 0, not 1.
pub proof fn lemma_stuck_flock_counts_nothing(b: BoardModel)
    requires
        b.sheep.len() > 0,
        forall|i: int| 0 <= i < b.sheep.len() ==> !b.can_move(i),
    ensures
        outcomes(b, false) == 0,
{
    lemma_no_mover_no_sum(b, b.sheep.len());
}

/// Without a sheep that can walk among the first `k`, the sum over them is 0.
pub proof fn lemma_no_mover_no_sum(b: BoardModel, k: nat)
    requires
        k <= b.sheep.len(),
        forall|i: int| 0 <= i < k ==> !b.can_move(i),
    ensures
        sheep_sum(b, k) == 0,
    decreases k,
{
    if k > 0 {
        lemma_no_mover_no_sum(b, (k - 1) as nat);
    }
}

/// A single sheep on the last row would walk off the grid: on the flock's turn the
/// count is 0, whatever hideouts there are.
pub proof fn lemma_last_row_sheep_counts_nothing(b: BoardModel)
    requires
        b.sheep.len() == 1,
        b.sheep[0].0 + 1 >= b.height,
    ensures
        outcomes(b, false) == 0,
{
    lemma_stuck_flock_counts_nothing(b);
}

/// Two well-formed boards with the same dragon, the same set of hideouts, the same
/// extent, and flocks that hold each cell equally often are the same board field by
/// field: the cache holds a count for the one exactly if it holds it for the other,
/// and the counts are the same.
pub proof fn lemma_same_flock_same_key(a: ChessBoard, b: ChessBoard, memo: MemoCache, dragon_turn: bool)
    requires
        a.wf(),
        b.wf(),
        a.dragon == b.dragon,
        a.width == b.width,
        a.height == b.height,
        a.safe@.to_set() == b.safe@.to_set(),
        a.sheep@.to_multiset() == b.sheep@.to_multiset(),
    ensures
        a.same_fields(&b),
        a@ == b@,
        memo.knows(a@, dragon_turn) == memo.knows(b@, dragon_turn),
        outcomes(a@, dragon_turn) == outcomes(b@, dragon_turn),
{
    crate::cells::lemma_sorted_unique(a.sheep@, b.sheep@);
    crate::cells::lemma_strictly_sorted_unique(a.safe@, b.safe@);
}

/// The number of ways to play on from `board` until no sheep is left.
pub fn count_sequences(board: ChessBoard, dragon_turn: bool) -> (count: Result<
    usize,
    CountOverflow,
>)
    requires
        board.wf(),
    ensures
        count matches Ok(n) ==> n == outcomes(board@, dragon_turn),
        count is Err <==> outcomes(board@, dragon_turn) > usize::MAX,
{
    let mut memo = MemoCache::new();
    dfs_memo(board, &mut memo, dragon_turn)
}

} // verus!
