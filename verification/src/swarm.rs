//! Rounds of a dragon swarm against a walking flock: the swarm spreads by one jump,
//! catches what it lands on, the flock walks one row, and the swarm catches what
//! walked into it.

use crate::board::{
    advance_all, caught, hidden, lemma_advance_all, lemma_capture_spares_hideouts, spared,
    ChessBoard,
};
use crate::cells::contains_cell;
use crate::geometry::Cell;
use crate::reach::{expand, hop, move_dragon_max_times, reachable_within};
use vstd::prelude::*;

verus! {

/// The flock, the cells that the swarm stands on, and the sheep caught so far.
pub struct SwarmState {
    pub sheep: Seq<Cell>,
    pub swarm: Set<Cell>,
    pub captured: nat,
}

/// One round.
pub open spec fn round(st: SwarmState, safe: Set<Cell>, width: isize, height: isize) -> SwarmState {
    let visited = hop(st.swarm, width, height);
    let left = st.sheep.filter(spared(visited, safe));
    let walked = advance_all(left, width, height);
    let last = walked.filter(spared(visited, safe));
    SwarmState {
        sheep: last,
        swarm: visited,
        captured: (st.captured + (st.sheep.len() - left.len()) + (walked.len() - last.len())) as nat,
    }
}

/// `n` rounds, one after the other.
pub open spec fn after_rounds(
    st: SwarmState,
    n: nat,
    safe: Set<Cell>,
    width: isize,
    height: isize,
) -> SwarmState
    decreases n,
{
    if n == 0 {
        st
    } else {
        round(after_rounds(st, (n - 1) as nat, safe, width, height), safe, width, height)
    }
}

/// In every round the swarm spares the sheep in hideouts, wherever it stands: those
/// that stand in a hideout when the round begins are all there when the flock starts to
/// walk, and those that stand in a hideout after the walk are all there when the round
/// ends. The count of caught sheep never falls.
pub proof fn lemma_round_spares_hideouts(st: SwarmState, safe: Set<Cell>, width: isize, height: isize)
    ensures
        ({
            let visited = hop(st.swarm, width, height);
            let left = st.sheep.filter(spared(visited, safe));
            let walked = advance_all(left, width, height);
            &&& left.filter(hidden(safe)) == st.sheep.filter(hidden(safe))
            &&& round(st, safe, width, height).sheep.filter(hidden(safe)) == walked.filter(
                hidden(safe),
            )
            &&& round(st, safe, width, height).captured >= st.captured
        }),
{
    let visited = hop(st.swarm, width, height);
    let left = st.sheep.filter(spared(visited, safe));
    let walked = advance_all(left, width, height);
    lemma_capture_spares_hideouts(st.sheep, visited, safe);
    lemma_capture_spares_hideouts(walked, visited, safe);
    st.sheep.lemma_filter_len(spared(visited, safe));
    walked.lemma_filter_len(spared(visited, safe));
}

/// The sheep that stand on a cell of `visited` outside a hideout, in the flock's order.
pub fn get_killed_sheep(visited: &[Cell], board: &ChessBoard) -> (killed: Vec<Cell>)
    ensures
        killed@ == board.sheep@.filter(caught(visited@.to_set(), board.safe@.to_set())),
        forall|i: int| 0 <= i < killed@.len() ==> !board.safe@.contains(#[trigger] killed@[i]),
{
    let ghost hit = caught(visited@.to_set(), board.safe@.to_set());
    let mut killed: Vec<Cell> = Vec::new();
    let mut i: usize = 0;
    while i < board.sheep.len()
        invariant
            i <= board.sheep.len(),
            hit == caught(visited@.to_set(), board.safe@.to_set()),
            killed@ == board.sheep@.take(i as int).filter(hit),
        decreases board.sheep.len() - i,
    {
        let c = board.sheep[i];
        proof {
            assert(board.sheep@.take(i + 1) =~= board.sheep@.take(i as int).push(c));
            board.sheep@.take(i as int).lemma_filter_push(c, hit);
        }
        if contains_cell(visited, c) && !contains_cell(board.safe.as_slice(), c) {
            killed.push(c);
        }
        i += 1;
    }
    proof {
        assert(board.sheep@.take(board.sheep.len() as int) =~= board.sheep@);
        lemma_capture_spares_hideouts(board.sheep@, visited@.to_set(), board.safe@.to_set());
    }
    killed
}

/// How many sheep stand in the danger zone of the dragon, for at most `max` jumps,
/// outside a hideout.
pub fn count_sheep_in_reach(board: &ChessBoard, max: isize) -> (count: usize)
    requires
        0 <= max,
    ensures
        count == board.sheep@.filter(
            caught(
                reachable_within(set![board.dragon], max as nat, board.width, board.height),
                board.safe@.to_set(),
            ),
        ).len(),
{
    let visited = move_dragon_max_times(board.dragon, 0, max, (board.width, board.height));
    get_killed_sheep(visited.as_slice(), board).len()
}

/// Plays `rounds` rounds from `board`, the swarm starting as the dragon alone, and
/// gives the board that is left and the number of sheep caught. A sheep that walks off
/// the grid is gone and not counted. The dragon of the board stays where it was.
pub fn run_rounds(board: ChessBoard, rounds: usize) -> (end: (ChessBoard, usize))
    ensures
        end.0.same_frame(&board),
        end.0.sheep@ == after_rounds(
            SwarmState { sheep: board.sheep@, swarm: set![board.dragon], captured: 0 },
            rounds as nat,
            board.safe@.to_set(),
            board.width,
            board.height,
        ).sheep,
        end.1 == after_rounds(
            SwarmState { sheep: board.sheep@, swarm: set![board.dragon], captured: 0 },
            rounds as nat,
            board.safe@.to_set(),
            board.width,
            board.height,
        ).captured,
        board.wf() ==> end.0.wf(),
{
    let ghost start = SwarmState { sheep: board.sheep@, swarm: set![board.dragon], captured: 0 };
    let ghost safe = board.safe@.to_set();
    let ghost flock = board.sheep@.len();
    assert(board.sheep.len() <= usize::MAX);
    let ghost first = board;
    let mut swarm: Vec<Cell> = Vec::new();
    swarm.push(board.dragon);
    proof {
        assert(swarm@[0] == board.dragon);
        assert forall|x: Cell| swarm@.to_set().contains(x) implies x == board.dragon by {
            assert(swarm@.contains(x));
        }
        assert(swarm@.to_set() =~= set![board.dragon]);
    }
    let mut board = board;
    let mut total: usize = 0;
    let mut done: usize = 0;
    while done < rounds
        invariant
            done <= rounds,
            board.same_frame(&first),
            safe == first.safe@.to_set(),
            start == (SwarmState { sheep: first.sheep@, swarm: set![first.dragon], captured: 0 }),
            flock == first.sheep@.len(),
            flock <= usize::MAX,
            first.wf() ==> board.wf(),
            total + board.sheep@.len() <= flock,
            after_rounds(start, done as nat, safe, first.width, first.height) == (SwarmState {
                sheep: board.sheep@,
                swarm: swarm@.to_set(),
                captured: total as nat,
            }),
        decreases rounds - done,
    {
        let visited = expand(swarm.as_slice(), board.width, board.height);
        let ghost before = board.sheep@;
        let first_catch = board.remove_sheep(visited.as_slice());
        let ghost left = board.sheep@;
        board.move_all_sheep();
        let ghost walked = board.sheep@;
        proof {
            lemma_advance_all(left, board.width, board.height);
        }
        let second_catch = board.remove_sheep(visited.as_slice());
        proof {
            walked.lemma_filter_len(spared(visited@.to_set(), safe));
            before.lemma_filter_len(spared(visited@.to_set(), safe));
        }
        total = total + first_catch + second_catch;
        swarm = visited;
        done += 1;
    }
    (board, total)
}

} // verus!
