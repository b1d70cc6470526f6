//! A game: an append-only history of board snapshots.

use vstd::prelude::*;
use crate::board::Board;

verus! {

/// An ordered, append-only sequence of board snapshots. Its view is the
/// sequence of boards, oldest first; once a game exists the history is
/// never empty and earlier snapshots are never changed.
#[derive(Debug)]
pub struct Game {
    boards: Vec<Board>,
}

impl View for Game {
    type V = Seq<Board>;

    closed spec fn view(&self) -> Seq<Board> {
        self.boards@
    }
}

impl Game {
    /// A game whose history holds exactly the given starting board.
    pub fn new(starting_board: Board) -> (g: Game)
        ensures
            g@.len() == 1,
            g@[0] == starting_board,
    {
        let mut boards: Vec<Board> = Vec::new();
        boards.push(starting_board);
        Game { boards }
    }

    /// The game extended by one more snapshot; every earlier snapshot is
    /// kept unchanged, in order.
    pub fn apply(self, board: Board) -> (g: Game)
        ensures
            g@ == self@.push(board),
    {
        let mut boards = self.boards;
        boards.push(board);
        Game { boards }
    }

    /// How many snapshots the history holds.
    pub fn history_len(&self) -> (n: usize)
        ensures
            n == self@.len(),
    {
        self.boards.len()
    }

    /// The `i`-th snapshot, oldest first.
    pub fn board_at(&self, i: usize) -> (b: &Board)
        requires
            i < self@.len(),
        ensures
            *b == self@[i as int],
    {
        &self.boards[i]
    }

    /// The most recent snapshot.
    pub fn latest(&self) -> (b: &Board)
        requires
            self@.len() > 0,
        ensures
            *b == self@[self@.len() - 1],
    {
        &self.boards[self.boards.len() - 1]
    }
}

} // verus!
