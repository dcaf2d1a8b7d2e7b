//! The weights and settings that an engine is made with. Every weight counts
//! thousandths, as a finite score does.

use vstd::prelude::*;

verus! {

/// The weights of the evaluation of a position, and the price of depth.
#[derive(Clone, Copy, Debug, PartialEq, Eq, Structural)]
pub struct StaticEvaluationWeights {
    pub square_control_weight: i32,
    pub check_weight: i32,
    pub value_weight: i32,
    /// What one move of distance from the root takes off the interest of a
    /// pending expansion.
    pub depth_cost: i32,
    pub past_pawn_weight: i32,
}

#[derive(Clone, Copy, Debug, PartialEq, Eq, Structural)]
pub struct MinimaxSettings {
    /// The depth below which a numeric evaluation of a leaf does not count.
    pub min_depth: i32,
}

impl MinimaxSettings {
    pub fn new() -> (r: MinimaxSettings)
        ensures
            r.min_depth == 2,
    {
        MinimaxSettings { min_depth: 2 }
    }
}

/// The weights of the interest of a move.
#[derive(Clone, Copy, Debug, PartialEq, Eq, Structural)]
pub struct InterestEvaluationWeights {
    pub square_control_weight: i32,
    pub capture_weight: i32,
    pub home_row_pawn_weight: i32,
    pub check_weight: i32,
    pub king_moving_bonus: i32,
    pub queen_moving_bonus: i32,
    pub rook_moving_bonus: i32,
    pub minor_piece_moving_bouns: i32,
    pub attack_weight: i32,
}

impl InterestEvaluationWeights {
    pub fn new() -> (r: Self)
        ensures
            r.square_control_weight == 200,
            r.capture_weight == 2500,
            r.home_row_pawn_weight == 3500,
            r.check_weight == 10000,
            r.king_moving_bonus == -2000,
            r.queen_moving_bonus == 1500,
            r.rook_moving_bonus == 3000,
            r.minor_piece_moving_bouns == 7000,
            r.attack_weight == 750,
    {
        InterestEvaluationWeights {
            square_control_weight: 200,
            capture_weight: 2500,
            home_row_pawn_weight: 3500,
            check_weight: 10000,
            king_moving_bonus: -2000,
            queen_moving_bonus: 1500,
            rook_moving_bonus: 3000,
            minor_piece_moving_bouns: 7000,
            attack_weight: 750,
        }
    }
}

impl StaticEvaluationWeights {
    pub fn new() -> (r: StaticEvaluationWeights)
        ensures
            r.square_control_weight == 50,
            r.check_weight == 3000,
            r.value_weight == 1000,
            r.depth_cost == 15000,
            r.past_pawn_weight == 500,
    {
        StaticEvaluationWeights {
            square_control_weight: 50,
            check_weight: 3000,
            value_weight: 1000,
            depth_cost: 15000,
            past_pawn_weight: 500,
        }
    }
}

/// What an operation of the engine can fail with.
#[derive(Clone, Copy, Debug, PartialEq, Eq, Structural)]
pub enum EngineError {
    /// The path named leads to no node that awaits its moves.
    InvalidLocationError,
    /// No expansion is pending.
    NoValidMovesErrror,
    /// The move is not among the moves of the root, or cannot be played.
    IllegalMoveError,
}

} // verus!
