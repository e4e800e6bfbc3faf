use vstd::prelude::*;

use crate::board::{ActionResult, Board};
use crate::difficulty::Difficulty;

verus! {

/// Tallies of the games played at one difficulty.
#[derive(Clone, Copy, PartialEq, Eq, Structural, Debug)]
pub struct Record {
    pub win: usize,
    pub loss: usize,
    pub dnf: usize,
    pub total_bombs_cleared: usize,
    pub total_bombs: usize,
    pub difficulty: Difficulty,
}

/// `a + b`, or the largest `usize` where that does not fit.
pub open spec fn capped_add(a: int, b: int) -> int {
    if a + b > usize::MAX {
        usize::MAX as int
    } else {
        a + b
    }
}

/// The bombs flagged when a game ended: the bombs of the game less those
/// left, and never fewer than none or more than all.
pub open spec fn cleared(total: int, left: int) -> int {
    if left <= 0 {
        total
    } else if left >= total {
        0
    } else {
        total - left
    }
}

impl Record {
    pub fn new(difficulty: Difficulty) -> (r: Record)
        ensures
            r == (Record {
                win: 0,
                loss: 0,
                dnf: 0,
                total_bombs_cleared: 0,
                total_bombs: 0,
                difficulty,
            }),
    {
        Record { win: 0, loss: 0, dnf: 0, total_bombs_cleared: 0, total_bombs: 0, difficulty }
    }

    /// Counts a game that ended with `result` on `board`.
    pub fn record_game(&mut self, result: ActionResult, board: &Board)
        ensures
            final(self).win == if result == ActionResult::Win {
                capped_add(old(self).win as int, 1)
            } else {
                old(self).win as int
            },
            final(self).loss == if result == ActionResult::Lose {
                capped_add(old(self).loss as int, 1)
            } else {
                old(self).loss as int
            },
            final(self).dnf == if result == ActionResult::Continue {
                capped_add(old(self).dnf as int, 1)
            } else {
                old(self).dnf as int
            },
            final(self).total_bombs_cleared == capped_add(
                old(self).total_bombs_cleared as int,
                cleared(board.total() as int, board.bombs_left()),
            ),
            final(self).total_bombs == capped_add(old(self).total_bombs as int, board.total() as int),
            final(self).difficulty == old(self).difficulty,
    {
        match result {
            ActionResult::Win => {
                self.win = add_capped(self.win, 1);
            },
            ActionResult::Lose => {
                self.loss = add_capped(self.loss, 1);
            },
            ActionResult::Continue => {
                self.dnf = add_capped(self.dnf, 1);
            },
        }
        let total = board.num_bombs_total();
        let left = board.num_bombs_left();
        let cleared_now: usize = if left <= 0 {
            total
        } else if left as usize >= total {
            0
        } else {
            total - left as usize
        };
        self.total_bombs_cleared = add_capped(self.total_bombs_cleared, cleared_now);
        self.total_bombs = add_capped(self.total_bombs, total);
    }
}

fn add_capped(a: usize, b: usize) -> (r: usize)
    ensures
        r == capped_add(a as int, b as int),
{
    match a.checked_add(b) {
        Some(v) => v,
        None => usize::MAX,
    }
}

} // verus!
