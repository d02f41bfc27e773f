//! Scoring a match between two engines that alternate sides.
use vstd::prelude::*;

verus! {

/// The score of a match, from the first player's point of view.
#[derive(Debug, Clone, Copy, PartialEq, Eq, Structural)]
pub struct MatchTally {
    pub wins: u32,
    pub draws: u32,
    pub losses: u32,
    /// Games won by whoever moved first.
    pub first_mover_wins: u32,
    /// Games won by whoever moved second.
    pub second_mover_wins: u32,
}

impl MatchTally {
    pub fn new() -> (r: Self)
        ensures
            r == (MatchTally { wins: 0, draws: 0, losses: 0, first_mover_wins: 0, second_mover_wins: 0 }),
    {
        MatchTally { wins: 0, draws: 0, losses: 0, first_mover_wins: 0, second_mover_wins: 0 }
    }

    /// The number of games recorded.
    pub open spec fn games(&self) -> int {
        self.wins + self.draws + self.losses
    }

    /// Records a game with result `result` (from the side that moved first);
    /// `flipped` says the first player took the second side.
    pub fn record(&mut self, result: i8, flipped: bool)
        requires
            -1 <= result <= 1,
            old(self).games() < u32::MAX,
            old(self).first_mover_wins + old(self).second_mover_wins <= old(self).games(),
        ensures
            final(self).games() == old(self).games() + 1,
            final(self).first_mover_wins + final(self).second_mover_wins <= final(self).games(),
            final(self).wins == old(self).wins + if result == (if flipped { -1i8 } else { 1i8 }) { 1int } else { 0int },
            final(self).losses == old(self).losses + if result == (if flipped { 1i8 } else { -1i8 }) { 1int } else { 0int },
            final(self).draws == old(self).draws + if result == 0 { 1int } else { 0int },
            final(self).first_mover_wins == old(self).first_mover_wins + if result == 1 { 1int } else { 0int },
            final(self).second_mover_wins == old(self).second_mover_wins + if result == -1 { 1int } else { 0int },
    {
        let ours: i8 = if flipped { -result } else { result };
        if ours == 1 {
            self.wins = self.wins + 1;
        } else if ours == 0 {
            self.draws = self.draws + 1;
        } else {
            self.losses = self.losses + 1;
        }
        if result == 1 {
            self.first_mover_wins = self.first_mover_wins + 1;
        } else if result == -1 {
            self.second_mover_wins = self.second_mover_wins + 1;
        }
    }
}

/// Which of the two players moves: `0` for the first, `1` for the second, when
/// the side to move is `turn` and `flipped` says the first player took the
/// second side.
pub fn player_to_move(turn: i8, flipped: bool) -> (r: usize)
    requires
        turn == 1 || turn == -1,
    ensures
        r == if (turn == 1) != flipped { 0usize } else { 1usize },
{
    if (turn == 1) != flipped {
        0
    } else {
        1
    }
}

} // verus!
