//! A validated jump game and the search that decides whether it can be won.
use std::collections::HashSet;
use vstd::prelude::*;
use vstd::set_lib::set_int_range;

use crate::reach::{
    is_jump, lemma_closed_set_blocks_win, lemma_reaches_extend, lemma_reaches_self,
    lemma_reaches_zero_wins, reaches, winnable_from,
};

verus! {

/// Why a board and starting index do not make a game.
#[derive(Debug, Clone, Copy, PartialEq, Eq, Structural)]
pub enum JumpGameError {
    /// The board has no cells.
    EmptyBoard,
    /// The starting index does not name a cell of the board.
    StartingIndexOutOfBounds,
    /// No cell of the board holds 0, so the game can never be won.
    NoWinningCell,
}

/// The first rule that `board` and `start` break, checked in order: the board
/// is not empty, the start lies on it, and some cell holds 0.
pub open spec fn validation_error(board: Seq<usize>, start: int) -> Option<JumpGameError> {
    if board.len() == 0 {
        Some(JumpGameError::EmptyBoard)
    } else if start >= board.len() {
        Some(JumpGameError::StartingIndexOutOfBounds)
    } else if !board.contains(0) {
        Some(JumpGameError::NoWinningCell)
    } else {
        None
    }
}

/// A board with a 0 at cell `k` makes a valid game started on `k`, and that
/// game is won at once.
pub proof fn lemma_start_on_zero(board: Seq<usize>, k: int)
    requires
        0 <= k < board.len(),
        board[k] == 0,
    ensures
        validation_error(board, k) is None,
        winnable_from(board, k),
{
    assert(board.contains(board[k]));
    lemma_reaches_self(board, k);
    lemma_reaches_zero_wins(board, k, k);
}

/// A board of jump distances together with the cell the game starts on.
pub struct JumpGame {
    /// The board of the game.
    board: Vec<usize>,
    /// The starting position of the game.
    starting_index: usize,
}

impl View for JumpGame {
    type V = (Seq<usize>, int);

    /// The board's cells and the starting index.
    closed spec fn view(&self) -> (Seq<usize>, int) {
        (self.board@, self.starting_index as int)
    }
}

/// Whether some cell of `board` holds 0.
fn has_zero(board: &Vec<usize>) -> (r: bool)
    ensures
        r == board@.contains(0),
{
    let mut i: usize = 0;
    while i < board.len()
        invariant
            i <= board.len(),
            forall|k: int| 0 <= k < i ==> board@[k] != 0,
        decreases board.len() - i,
    {
        if board[i] == 0 {
            assert(board@[i as int] == 0);
            return true;
        }
        i = i + 1;
    }
    false
}

impl JumpGame {
    /// Every game holds a board and starting index that pass validation.
    #[verifier::type_invariant]
    spec fn well_formed(&self) -> bool {
        validation_error(self.board@, self.starting_index as int) is None
    }

    /// Creates a game on `board` that starts on cell `starting_index`.
    ///
    /// Fails with the first rule broken, in this order: an empty board, a
    /// starting index off the board, a board without any cell holding 0.
    pub fn new(board: Vec<usize>, starting_index: usize) -> (r: Result<JumpGame, JumpGameError>)
        ensures
            match r {
                Ok(game) => validation_error(board@, starting_index as int) is None
                    && game@ == (board@, starting_index as int),
                Err(e) => validation_error(board@, starting_index as int) == Some(e),
            },
    {
        if board.len() == 0 {
            return Err(JumpGameError::EmptyBoard);
        }
        if starting_index >= board.len() {
            return Err(JumpGameError::StartingIndexOutOfBounds);
        }
        if !has_zero(&board) {
            return Err(JumpGameError::NoWinningCell);
        }
        Ok(JumpGame { board, starting_index })
    }

    /// Whether some sequence of jumps from the starting cell lands on a cell
    /// holding 0.
    ///
    /// Searches depth first from the starting cell, jumping both ways from
    /// each cell, and marks each cell when its jumps are taken so that
    /// cycles of jumps end.
    pub fn is_winnable(&self) -> (r: bool)
        ensures
            r == winnable_from(self@.0, self@.1),
    {
        broadcast use vstd::std_specs::hash::group_hash_axioms;

        let board = &self.board;
        let start = self.starting_index;
        let len = board.len();
        let ghost b = board@;
        let mut stack: Vec<usize> = Vec::new();
        let mut visited: HashSet<usize> = HashSet::new();
        // the cells of the board whose jumps have not been taken yet
        let ghost mut unvisited: Set<int> = set_int_range(0, len as int);
        proof {
            vstd::set_lib::lemma_int_range(0, len as int);
        }
        stack.push(start);
        proof {
            assert(stack@[0] == start);
            if start < len {
                lemma_reaches_self(b, start as int);
            }
        }
        while stack.len() > 0
            invariant
                b == board@,
                self@ == (b, start as int),
                len == b.len(),
                unvisited.finite(),
                forall|i: int| #[trigger]
                    unvisited.contains(i) <==> 0 <= i < len && !visited@.contains(i as usize),
                forall|u: usize| #[trigger] visited@.contains(u) ==> u < len && b[u as int] != 0,
                forall|i: int, j: int|
                    #[trigger] is_jump(b, i, j) && visited@.contains(i as usize) ==> visited@.contains(
                        j as usize,
                    ) || stack@.contains(j as usize),
                start < len ==> visited@.contains(start) || stack@.contains(start),
                forall|k: int|
                    0 <= k < stack.len() && stack@[k] < len ==> reaches(
                        b,
                        start as int,
                        #[trigger] stack@[k] as int,
                    ),
            decreases unvisited.len(), stack.len(),
        {
            let ghost prev = stack@;
            let c = stack.pop().unwrap();
            assert(prev == stack@.push(c));
            assert forall|x: usize| prev.contains(x) implies x == c || stack@.contains(x) by {
                let k = choose|k: int| 0 <= k < prev.len() && prev[k] == x;
                if k < stack@.len() {
                    assert(stack@[k] == x);
                }
            }
            if visited.contains(&c) {
            } else if c >= len {
            } else if board[c] == 0 {
                proof {
                    assert(prev[prev.len() - 1] == c);
                    assert(reaches(b, start as int, c as int));
                    lemma_reaches_zero_wins(b, start as int, c as int);
                }
                return true;
            } else {
                let v = board[c];
                let ghost mid = stack@;
                proof {
                    assert(prev[prev.len() - 1] == c);
                    assert(reaches(b, start as int, c as int));
                }
                if v <= c {
                    stack.push(c - v);
                    proof {
                        if c - v < len {
                            lemma_reaches_extend(b, start as int, c as int, (c - v) as int);
                        }
                    }
                }
                if v <= usize::MAX - c {
                    stack.push(c + v);
                    proof {
                        if c + v < len {
                            lemma_reaches_extend(b, start as int, c as int, (c + v) as int);
                        }
                    }
                }
                assert(stack@.subrange(0, mid.len() as int) == mid);
                assert forall|x: usize| mid.contains(x) implies stack@.contains(x) by {
                    let k = choose|k: int| 0 <= k < mid.len() && mid[k] == x;
                    assert(stack@[k] == x);
                }
                if v <= c {
                    assert(stack@[mid.len() as int] == c - v);
                }
                if v <= usize::MAX - c {
                    assert(stack@[stack@.len() - 1] == c + v);
                }
                visited.insert(c);
                proof {
                    unvisited = unvisited.remove(c as int);
                }
            }
        }
        proof {
            if start < len {
                let seen = Set::new(|i: int| 0 <= i < len && visited@.contains(i as usize));
                assert forall|i: int, j: int| seen.contains(i) && #[trigger] is_jump(b, i, j) implies seen.contains(j) by {
                    assert(visited@.contains(i as usize));
                }
                assert(seen.contains(start as int));
                lemma_closed_set_blocks_win(b, seen, start as int);
            }
        }
        false
    }
}

} // verus!
