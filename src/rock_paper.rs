//! Rock-paper-scissors scoring. Opponent moves are `A`, `B`, `C` (rock, paper,
//! scissors); own moves are `X`, `Y`, `Z` in the same order.

use vstd::prelude::*;

verus! {

#[derive(Clone, Copy, Debug, PartialEq, Eq)]
pub enum ScoreError {
    /// The own move is none of `X`, `Y`, `Z`.
    InvalidOwnMove(char),
    /// The opponent's move is none of `A`, `B`, `C`, or the pair is not a valid round.
    InvalidMoves(char, char),
}

/// 0, 1, 2 for rock, paper, scissors.
pub open spec fn opp_shape(c: char) -> int {
    if c == 'A' { 0 } else if c == 'B' { 1 } else { 2 }
}

pub open spec fn own_shape(c: char) -> int {
    if c == 'X' { 0 } else if c == 'Y' { 1 } else { 2 }
}

pub open spec fn is_opp_move(c: char) -> bool {
    c == 'A' || c == 'B' || c == 'C'
}

pub open spec fn is_own_move(c: char) -> bool {
    c == 'X' || c == 'Y' || c == 'Z'
}

/// Shape score (1, 2, 3) plus outcome score (0 lost, 3 draw, 6 won).
pub open spec fn round_score(opp: int, my: int) -> int {
    let outcome: int = if my == opp {
        3
    } else if my == (opp + 1) % 3 {
        6
    } else {
        0
    };
    my + 1 + outcome
}

/// Score of a round where `my` is the shape to play.
pub fn calc_old_score(opp: char, my: char) -> (r: Result<i32, ScoreError>)
    ensures
        !is_own_move(my) ==> r == Err::<i32, ScoreError>(ScoreError::InvalidOwnMove(my)),
        is_own_move(my) && !is_opp_move(opp) ==> r == Err::<i32, ScoreError>(
            ScoreError::InvalidMoves(opp, my),
        ),
        is_own_move(my) && is_opp_move(opp) ==> r == Ok::<i32, ScoreError>(
            round_score(opp_shape(opp), own_shape(my)) as i32,
        ),
{
    let hand_score: i32 = match my {
        'X' => 1,
        'Y' => 2,
        'Z' => 3,
        _ => return Err(ScoreError::InvalidOwnMove(my)),
    };
    let outcome_score: i32 = match (opp, my) {
        ('A', 'X') => 3,
        ('A', 'Y') => 6,
        ('A', 'Z') => 0,
        ('B', 'X') => 0,
        ('B', 'Y') => 3,
        ('B', 'Z') => 6,
        ('C', 'X') => 6,
        ('C', 'Y') => 0,
        ('C', 'Z') => 3,
        _ => return Err(ScoreError::InvalidMoves(opp, my)),
    };
    Ok(hand_score + outcome_score)
}

/// Score of a round where `tactic` says how the round must end: `X` lose, `Y` draw,
/// `Z` win.
pub fn calc_new_score(opp: char, tactic: char) -> (r: Result<i32, ScoreError>)
    ensures
        !(is_opp_move(opp) && is_own_move(tactic)) ==> r == Err::<i32, ScoreError>(
            ScoreError::InvalidMoves(opp, tactic),
        ),
        is_opp_move(opp) && is_own_move(tactic) ==> r == Ok::<i32, ScoreError>(
            round_score(opp_shape(opp), (opp_shape(opp) + own_shape(tactic) + 2) % 3) as i32,
        ),
{
    let my_move: char = match (opp, tactic) {
        ('A', 'X') | ('B', 'Z') | ('C', 'Y') => 'Z',
        ('A', 'Y') | ('B', 'X') | ('C', 'Z') => 'X',
        ('A', 'Z') | ('B', 'Y') | ('C', 'X') => 'Y',
        _ => return Err(ScoreError::InvalidMoves(opp, tactic)),
    };
    calc_old_score(opp, my_move)
}

} // verus!
