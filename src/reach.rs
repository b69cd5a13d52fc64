//! The mathematical model of the game: single jumps, jump paths, and what it
//! means for a board to be winnable from a cell.
use vstd::prelude::*;

verus! {

/// From cell `i`, one jump of `board[i]` cells to the left or to the right
/// lands on cell `j`, and both cells lie on the board.
pub open spec fn is_jump(board: Seq<usize>, i: int, j: int) -> bool {
    &&& 0 <= i < board.len()
    &&& 0 <= j < board.len()
    &&& (j == i + board[i] as int || j == i - board[i] as int)
}

/// `path` is a non-empty sequence of cells of the board, each one reached
/// from the one before it by a single jump.
pub open spec fn is_jump_path(board: Seq<usize>, path: Seq<int>) -> bool {
    &&& path.len() > 0
    &&& 0 <= path[0] < board.len()
    &&& forall|k: int| 0 <= k < path.len() - 1 ==> #[trigger] is_jump(board, path[k], path[k + 1])
}

/// Some jump path leads from cell `from` to cell `to`.
pub open spec fn reaches(board: Seq<usize>, from: int, to: int) -> bool {
    exists|path: Seq<int>| #[trigger] is_jump_path(board, path) && path[0] == from && path.last() == to
}

/// Starting on cell `start`, some sequence of jumps lands on a cell holding 0.
pub open spec fn winnable_from(board: Seq<usize>, start: int) -> bool {
    exists|path: Seq<int>| #[trigger] is_jump_path(board, path) && path[0] == start
        && board[path.last()] == 0
}

/// A cell on the board reaches itself by the path of no jumps.
pub proof fn lemma_reaches_self(board: Seq<usize>, i: int)
    requires
        0 <= i < board.len(),
    ensures
        reaches(board, i, i),
{
    let path = seq![i];
    assert(is_jump_path(board, path) && path[0] == i && path.last() == i);
}

/// A cell reached from `from` passes on to every cell one jump away from it.
pub proof fn lemma_reaches_extend(board: Seq<usize>, from: int, i: int, j: int)
    requires
        reaches(board, from, i),
        is_jump(board, i, j),
    ensures
        reaches(board, from, j),
{
    let path = choose|path: Seq<int>| is_jump_path(board, path) && path[0] == from && path.last() == i;
    let longer = path.push(j);
    assert forall|k: int| 0 <= k < longer.len() - 1 implies #[trigger] is_jump(board, longer[k], longer[k + 1]) by {
        if k < path.len() - 1 {
            assert(is_jump(board, path[k], path[k + 1]));
        }
    }
    assert(is_jump_path(board, longer) && longer[0] == from && longer.last() == j);
}

/// Reaching a cell that holds 0 wins the game.
pub proof fn lemma_reaches_zero_wins(board: Seq<usize>, start: int, t: int)
    requires
        reaches(board, start, t),
        0 <= t < board.len(),
        board[t] == 0,
    ensures
        winnable_from(board, start),
{
    let path = choose|path: Seq<int>| is_jump_path(board, path) && path[0] == start && path.last() == t;
    assert(is_jump_path(board, path) && path[0] == start && board[path.last()] == 0);
}

/// A set of cells that holds `start`, is closed under single jumps and holds
/// no cell with 0 shows that the game cannot be won from `start`.
pub proof fn lemma_closed_set_blocks_win(board: Seq<usize>, seen: Set<int>, start: int)
    requires
        seen.contains(start),
        forall|i: int| #[trigger] seen.contains(i) ==> 0 <= i < board.len() && board[i] != 0,
        forall|i: int, j: int| seen.contains(i) && #[trigger] is_jump(board, i, j) ==> seen.contains(j),
    ensures
        !winnable_from(board, start),
{
    assert forall|path: Seq<int>| #[trigger] is_jump_path(board, path) && path[0] == start
        implies board[path.last()] != 0 by {
        lemma_path_stays_in(board, seen, path, path.len() - 1);
    }
}

/// Every cell of a path that starts inside a jump-closed set lies in that set.
proof fn lemma_path_stays_in(board: Seq<usize>, seen: Set<int>, path: Seq<int>, k: int)
    requires
        is_jump_path(board, path),
        seen.contains(path[0]),
        forall|i: int, j: int| seen.contains(i) && #[trigger] is_jump(board, i, j) ==> seen.contains(j),
        0 <= k < path.len(),
    ensures
        seen.contains(path[k]),
    decreases k,
{
    if k > 0 {
        let j = k - 1;
        lemma_path_stays_in(board, seen, path, j);
        assert(is_jump(board, path[j], path[j + 1]));
    }
}

} // verus!
