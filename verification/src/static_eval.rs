//! The evaluation of a position as it stands, which minimax reads at the
//! leaves of the tree.

use crate::board::{Board, SQUARES};
use crate::chess::{Color, GameEnd, PieceKind};
use crate::control::{control, controlling_squares, lemma_control_bounds};
use crate::eval::Eval;
use crate::features::{is_past_pawn, past_pawn, piece_worth_king_zero, worth_points};
use crate::interest::{lemma_weighed_bounds, weigh};
use crate::score::Score;
use crate::weights::StaticEvaluationWeights;
use vstd::prelude::*;

verus! {

/// How far a pawn on `row` has come: its row for White, and for Black the
/// rows from the far side.
pub open spec fn advancement(color: Color, row: int) -> int {
    match color {
        Color::White => row,
        Color::Black => 8 - row,
    }
}

/// What the piece on square number `s` is worth to White, in thousandths:
/// its points by the value weight, and for a passed pawn also its advancement
/// by the weight of passed pawns; the whole with a minus for a piece of
/// Black, and 0 for an empty square.
pub open spec fn piece_term(weights: StaticEvaluationWeights, board: Board, s: int) -> int {
    match board.piece_at(s / 8, s % 8) {
        None => 0,
        Some(piece) => {
            let bonus = if piece.kind == PieceKind::Pawn && past_pawn(
                board,
                s / 8,
                s % 8,
                piece.color,
            ) {
                advancement(piece.color, s / 8) * weights.past_pawn_weight
            } else {
                0
            };
            let worth = worth_points(piece.kind) * weights.value_weight + bonus;
            match piece.color {
                Color::White => worth,
                Color::Black => -worth,
            }
        },
    }
}

/// The sum of `piece_term` over the first `n` squares.
pub open spec fn material_upto(weights: StaticEvaluationWeights, board: Board, n: int) -> int
    decreases n,
{
    if n <= 0 {
        0
    } else {
        material_upto(weights, board, n - 1) + piece_term(weights, board, n - 1)
    }
}

/// What a check is worth to White: the check weight where Black is in
/// check, its negative where White is.
pub open spec fn check_balance(weights: StaticEvaluationWeights, board: Board) -> int {
    match board.check() {
        Some(Color::Black) => weights.check_weight as int,
        Some(Color::White) => -weights.check_weight,
        None => 0,
    }
}

/// The score of a position in which the game goes on, in thousandths: the
/// squares that White controls more than Black, by their weight; the check;
/// and the pieces.
pub open spec fn static_score(weights: StaticEvaluationWeights, board: Board) -> int {
    (control(board, Color::White) - control(board, Color::Black)) * weights.square_control_weight
        + check_balance(weights, board) + material_upto(weights, board, SQUARES as int)
}

/// The value of a position as it stands: a mate in 0 by the side that has
/// mated, the score 0 for a stalemate, else `static_score`.
pub open spec fn static_value(weights: StaticEvaluationWeights, board: Board) -> Eval {
    match board.end() {
        Some(GameEnd::Mated(Color::White)) => Eval::MateIn(Color::Black, 0),
        Some(GameEnd::Mated(Color::Black)) => Eval::MateIn(Color::White, 0),
        Some(GameEnd::StaleMate) => Eval::Numeric(Score::Finite(0)),
        None => Eval::Numeric(Score::Finite(static_score(weights, board) as i64)),
    }
}

/// The greatest size of the term of one piece.
pub const PIECE_LIMIT: i64 = 1125899906842624;

pub proof fn lemma_piece_term_bounds(weights: StaticEvaluationWeights, board: Board, s: int)
    requires
        0 <= s < SQUARES,
    ensures
        -PIECE_LIMIT <= piece_term(weights, board, s) <= PIECE_LIMIT,
{
    match board.piece_at(s / 8, s % 8) {
        None => {},
        Some(piece) => {
            lemma_weighed_bounds(worth_points(piece.kind), weights.value_weight as int);
            lemma_weighed_bounds(
                advancement(piece.color, s / 8),
                weights.past_pawn_weight as int,
            );
        },
    }
}

pub proof fn lemma_material_bounds(weights: StaticEvaluationWeights, board: Board, n: int)
    requires
        0 <= n <= SQUARES,
    ensures
        -1125899906842624 * n <= material_upto(weights, board, n) <= 1125899906842624 * n,
    decreases n,
{
    if n > 0 {
        lemma_material_bounds(weights, board, n - 1);
        lemma_piece_term_bounds(weights, board, n - 1);
    }
}

/// The greatest size of a static score.
pub const STATIC_LIMIT: i64 = 72620546138832896;

/// The static score of a position is within `STATIC_LIMIT`.
pub proof fn lemma_static_bounds(weights: StaticEvaluationWeights, board: Board)
    ensures
        -STATIC_LIMIT <= static_score(weights, board) <= STATIC_LIMIT,
{
    lemma_control_bounds(board, Color::White, 64);
    lemma_control_bounds(board, Color::Black, 64);
    lemma_weighed_bounds(
        control(board, Color::White) - control(board, Color::Black),
        weights.square_control_weight as int,
    );
    lemma_material_bounds(weights, board, 64);
}

/// Evaluates a position as it stands.
pub fn static_evaluation(weights: &StaticEvaluationWeights, board_state: &Board) -> (r: Eval)
    ensures
        r == static_value(*weights, *board_state),
        r matches Eval::Numeric(score) ==> score.rank() == 0 && (board_state.end().is_none()
            ==> score.amount() == static_score(*weights, *board_state)),
        r matches Eval::MateIn(_, counter) ==> counter == 0,
{
    match board_state.is_checkmate() {
        None => {},
        Some(GameEnd::Mated(Color::White)) => {
            return Eval::MateIn(Color::Black, 0);
        },
        Some(GameEnd::Mated(Color::Black)) => {
            return Eval::MateIn(Color::White, 0);
        },
        Some(GameEnd::StaleMate) => {
            return Eval::Numeric(Score::Finite(0));
        },
    }
    proof {
        lemma_static_bounds(*weights, *board_state);
    }
    let lead: i64 = (controlling_squares(board_state, Color::White) as i64) - (
    controlling_squares(board_state, Color::Black) as i64);
    let squares = weigh(lead, weights.square_control_weight);
    let check: i64 = match board_state.is_check() {
        Some(Color::Black) => weights.check_weight as i64,
        None => 0,
        Some(Color::White) => -(weights.check_weight as i64),
    };
    let mut material: i64 = 0;
    let mut s: usize = 0;
    while s < SQUARES
        invariant
            s <= SQUARES,
            material == material_upto(*weights, *board_state, s as int),
        decreases SQUARES - s,
    {
        proof {
            lemma_material_bounds(*weights, *board_state, s as int);
            lemma_material_bounds(*weights, *board_state, s as int + 1);
            lemma_piece_term_bounds(*weights, *board_state, s as int);
        }
        let row = s / 8;
        let col = s % 8;
        match board_state.get_piece(row, col) {
            Ok(Some(piece)) => {
                let mut worth = weigh(piece_worth_king_zero(piece.kind), weights.value_weight);
                if piece.kind == PieceKind::Pawn && is_past_pawn(row, col, board_state, piece.color) {
                    let advanced: i64 = match piece.color {
                        Color::Black => 8 - (row as i64),
                        Color::White => row as i64,
                    };
                    worth = worth + weigh(advanced, weights.past_pawn_weight);
                }
                match piece.color {
                    Color::White => {
                        material = material + worth;
                    },
                    Color::Black => {
                        material = material - worth;
                    },
                }
            },
            _ => {},
        }
        s += 1;
    }
    Eval::Numeric(Score::Finite(squares + check + material))
}

} // verus!
