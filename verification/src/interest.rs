//! The interest of a move: how much it changes the position. It decides
//! which node of the tree is grown next, and says nothing of how good the move
//! is.

use crate::attack::{evaluate_total_attack, total_attack};
use crate::board::Board;
use crate::chess::{BoardError, ChessMove, Color, NormalChessMove, Piece, PieceKind, BOARD_SIZE};
use crate::control::{control, controlling_squares};
use crate::features::{
    is_past_pawn, past_pawn, piece_worth_king_inf, piece_worth_king_zero, worth_points,
};
use crate::score::Score;
use crate::weights::InterestEvaluationWeights;
use vstd::prelude::*;

verus! {

/// The greatest count that `weigh` takes.
pub const COUNT_LIMIT: i64 = 262144;

/// The greatest size of what `weigh` returns.
pub const TERM_LIMIT: i64 = 562949953421312;

/// A product of a count and a weight is as large as the two allow.
pub proof fn lemma_weighed_bounds(count: int, weight: int)
    requires
        -COUNT_LIMIT <= count <= COUNT_LIMIT,
        -2147483648 <= weight <= 2147483647,
    ensures
        -TERM_LIMIT <= count * weight <= TERM_LIMIT,
{
    assert(-262144 * 2147483648 <= count * weight <= 262144 * 2147483648) by (nonlinear_arith)
        requires
            -262144 <= count <= 262144,
            -2147483648 <= weight <= 2147483647,
    ;
}

/// A count of points or squares, taken `weight` times.
pub(crate) fn weigh(count: i64, weight: i32) -> (r: i64)
    requires
        -COUNT_LIMIT <= count <= COUNT_LIMIT,
    ensures
        r == count * weight,
        -TERM_LIMIT <= r <= TERM_LIMIT,
{
    proof {
        lemma_weighed_bounds(count as int, weight as int);
    }
    count * (weight as i64)
}

/// The row on which the pawns of a colour start.
pub open spec fn home_row(color: Color) -> int {
    match color {
        Color::White => 1,
        Color::Black => 6,
    }
}

/// What the piece that moves adds to the interest. A pawn adds the row that it
/// reaches where it is passed there, and the home-row weight where it leaves
/// its home row; any other piece adds the bonus of its kind.
pub open spec fn moving_term(
    weights: InterestEvaluationWeights,
    m: NormalChessMove,
    piece: Piece,
    after: Board,
) -> int {
    match piece.kind {
        PieceKind::Pawn => (if past_pawn(
            after,
            m.destination_row as int,
            m.destination_col as int,
            piece.color,
        ) {
            m.destination_row * 1000
        } else {
            0
        }) + (if m.initial_row == home_row(piece.color) {
            weights.home_row_pawn_weight as int
        } else {
            0
        }),
        PieceKind::Bishop => weights.minor_piece_moving_bouns as int,
        PieceKind::Knight => weights.minor_piece_moving_bouns as int,
        PieceKind::Rook => weights.rook_moving_bonus as int,
        PieceKind::Queen => weights.queen_moving_bonus as int,
        PieceKind::King => weights.king_moving_bonus as int,
    }
}

/// Whether the position shows a side in check and the game ended.
pub open spec fn mates(after: Board) -> bool {
    after.check().is_some() && after.end().is_some()
}

/// What a check that does not end the game adds to the interest.
pub open spec fn check_term(weights: InterestEvaluationWeights, after: Board) -> int {
    if after.check().is_some() && after.end().is_none() {
        weights.check_weight as int
    } else {
        0
    }
}

/// The worth in whole points of what stands on a square, 0 for nothing.
pub open spec fn worth_of(target: Option<Piece>) -> int {
    match target {
        Some(piece) => worth_points(piece.kind),
        None => 0,
    }
}

/// Whether a king stands on the square.
pub open spec fn holds_king(target: Option<Piece>) -> bool {
    target matches Some(piece) && piece.kind == PieceKind::King
}

/// The interest of a move that takes no king and does not mate, in
/// thousandths: the term of the piece that moves; the worth of what it takes,
/// once plain and once by the capture weight; the check; the squares that the
/// mover gains, by their weight; and the pressure on the side to move after
/// it, by its weight.
pub open spec fn finite_interest(
    weights: InterestEvaluationWeights,
    m: NormalChessMove,
    piece: Piece,
    before: Board,
    after: Board,
) -> int {
    let target = before.piece_at(m.destination_row as int, m.destination_col as int);
    moving_term(weights, m, piece, after) + worth_of(target) * 1000 + check_term(weights, after)
        + worth_of(target) * weights.capture_weight + (control(after, before.turn()) - control(
        before,
        before.turn(),
    )) * weights.square_control_weight + total_attack(after) * weights.attack_weight
}

/// The interest of a normal move from `before` to `after`.
///
/// It fails with `OutOfBoundsError` where the move leaves the board, and with
/// `NoPieceError` where nothing stands on the square that it starts from. A
/// move that takes a king is beyond every finite interest, as is one that
/// mates; but where the capture weight is not positive, the sum for taking a
/// king is undefined.
pub open spec fn normal_interest(
    weights: InterestEvaluationWeights,
    m: NormalChessMove,
    before: Board,
    after: Board,
) -> Result<Score, BoardError> {
    if !(m.initial_row < BOARD_SIZE && m.initial_col < BOARD_SIZE) {
        Err(BoardError::OutOfBoundsError)
    } else {
        match before.piece_at(m.initial_row as int, m.initial_col as int) {
            None => Err(BoardError::NoPieceError),
            Some(piece) => if !(m.destination_row < BOARD_SIZE && m.destination_col
                < BOARD_SIZE) {
                Err(BoardError::OutOfBoundsError)
            } else {
                let target = before.piece_at(m.destination_row as int, m.destination_col as int);
                if holds_king(target) && weights.capture_weight <= 0 {
                    Err(BoardError::UndefinedScoreError)
                } else if holds_king(target) || mates(after) {
                    Ok(Score::PosInf)
                } else {
                    Ok(Score::Finite(finite_interest(weights, m, piece, before, after) as i64))
                }
            },
        }
    }
}

/// The interest of a move of any shape. Castling has the interest of twenty
/// points. A promotion has that of its move and the worth of the piece
/// promoted to, where the king is beyond price.
pub open spec fn interest(
    weights: InterestEvaluationWeights,
    m: ChessMove,
    before: Board,
    after: Board,
) -> Result<Score, BoardError> {
    match m {
        ChessMove::Normal(n) => normal_interest(weights, n, before, after),
        ChessMove::Promotion(n, kind) => match normal_interest(weights, n, before, after) {
            Ok(Score::Finite(x)) => if kind == PieceKind::King {
                Ok(Score::PosInf)
            } else {
                Ok(Score::Finite((x + worth_points(kind) * 1000) as i64))
            },
            other => other,
        },
        ChessMove::Castling(_) => Ok(Score::Finite(20000)),
    }
}

/// The greatest size of a finite interest of a normal move.
pub const INTEREST_LIMIT: i64 = 2251804108652544;

/// The finite interest of a move between well-formed positions is within
/// `INTEREST_LIMIT`.
pub proof fn lemma_interest_bounds(
    weights: InterestEvaluationWeights,
    m: NormalChessMove,
    piece: Piece,
    before: Board,
    after: Board,
)
    requires
        before.wf(),
        after.wf(),
        m.destination_row < BOARD_SIZE,
    ensures
        -INTEREST_LIMIT <= finite_interest(weights, m, piece, before, after) <= INTEREST_LIMIT,
{
    let target = before.piece_at(m.destination_row as int, m.destination_col as int);
    crate::control::lemma_control_bounds(after, before.turn(), 64);
    crate::control::lemma_control_bounds(before, before.turn(), 64);
    crate::attack::lemma_attack_bounds(after, 64);
    lemma_weighed_bounds(worth_of(target), weights.capture_weight as int);
    lemma_weighed_bounds(
        control(after, before.turn()) - control(before, before.turn()),
        weights.square_control_weight as int,
    );
    lemma_weighed_bounds(total_attack(after), weights.attack_weight as int);
}

/// Computes the interest of a normal move from `starting_board` to
/// `ending_board`.
pub fn evaluate_normal_move_interest(
    interest_eval_weights: &InterestEvaluationWeights,
    normal_move: &NormalChessMove,
    starting_board: &Board,
    ending_board: &Board,
) -> (r: Result<Score, BoardError>)
    ensures
        r == normal_interest(*interest_eval_weights, *normal_move, *starting_board, *ending_board),
        r matches Ok(Score::Finite(x)) ==> x == finite_interest(
            *interest_eval_weights,
            *normal_move,
            starting_board.piece_at(
                normal_move.initial_row as int,
                normal_move.initial_col as int,
            ).unwrap(),
            *starting_board,
            *ending_board,
        ),
        r is Ok ==> r.unwrap() != Score::NegInf,
{
    let piece = match starting_board.get_piece(normal_move.initial_row, normal_move.initial_col) {
        Err(e) => {
            return Err(e);
        },
        Ok(None) => {
            return Err(BoardError::NoPieceError);
        },
        Ok(Some(piece)) => piece,
    };
    let target = match starting_board.get_piece(
        normal_move.destination_row,
        normal_move.destination_col,
    ) {
        Err(e) => {
            return Err(e);
        },
        Ok(target) => target,
    };
    let mut takes_king = false;
    let mut worth: i64 = 0;
    match target {
        Some(taken) => {
            takes_king = !piece_worth_king_inf(taken.kind).is_finite();
            worth = piece_worth_king_zero(taken.kind);
        },
        None => {},
    }
    if takes_king && interest_eval_weights.capture_weight <= 0 {
        return Err(BoardError::UndefinedScoreError);
    }
    if takes_king || (ending_board.is_check().is_some() && ending_board.is_checkmate().is_some()) {
        return Ok(Score::PosInf);
    }
    proof {
        use_type_invariant(starting_board);
        use_type_invariant(ending_board);
        lemma_interest_bounds(
            *interest_eval_weights,
            *normal_move,
            piece,
            *starting_board,
            *ending_board,
        );
    }
    let moving: i64 = match piece.kind {
        PieceKind::Pawn => {
            let past = is_past_pawn(
                normal_move.destination_row,
                normal_move.destination_col,
                ending_board,
                piece.color,
            );
            let home: usize = match piece.color {
                Color::Black => 6,
                Color::White => 1,
            };
            let reached: i64 = if past {
                (normal_move.destination_row as i64) * 1000
            } else {
                0
            };
            let leaving: i64 = if normal_move.initial_row == home {
                interest_eval_weights.home_row_pawn_weight as i64
            } else {
                0
            };
            reached + leaving
        },
        PieceKind::Bishop => interest_eval_weights.minor_piece_moving_bouns as i64,
        PieceKind::Knight => interest_eval_weights.minor_piece_moving_bouns as i64,
        PieceKind::Rook => interest_eval_weights.rook_moving_bonus as i64,
        PieceKind::Queen => interest_eval_weights.queen_moving_bonus as i64,
        PieceKind::King => interest_eval_weights.king_moving_bonus as i64,
    };
    let check: i64 = if ending_board.is_check().is_some() {
        interest_eval_weights.check_weight as i64
    } else {
        0
    };
    let capture = weigh(worth, interest_eval_weights.capture_weight);
    let mover = starting_board.get_turn();
    let gained: i64 = (controlling_squares(ending_board, mover) as i64) - (controlling_squares(
        starting_board,
        mover,
    ) as i64);
    let squares = weigh(gained, interest_eval_weights.square_control_weight);
    let pressure = weigh(evaluate_total_attack(ending_board), interest_eval_weights.attack_weight);
    Ok(Score::Finite(moving + worth * 1000 + check + capture + squares + pressure))
}

/// Computes the interest of a move from `starting_board` to `ending_board`.
pub fn evaluate_interest(
    interest_eval_weights: &InterestEvaluationWeights,
    chess_move: &ChessMove,
    starting_board: &Board,
    ending_board: &Board,
) -> (r: Result<Score, BoardError>)
    ensures
        r == interest(*interest_eval_weights, *chess_move, *starting_board, *ending_board),
        r is Ok ==> r.unwrap() != Score::NegInf,
{
    match chess_move {
        ChessMove::Normal(normal_move) => evaluate_normal_move_interest(
            interest_eval_weights,
            normal_move,
            starting_board,
            ending_board,
        ),
        ChessMove::Promotion(normal_move, piece_kind) => {
            match evaluate_normal_move_interest(
                interest_eval_weights,
                normal_move,
                starting_board,
                ending_board,
            ) {
                Ok(Score::Finite(x)) => {
                    proof {
                        use_type_invariant(starting_board);
                        use_type_invariant(ending_board);
                        lemma_interest_bounds(
                            *interest_eval_weights,
                            *normal_move,
                            starting_board.piece_at(
                                normal_move.initial_row as int,
                                normal_move.initial_col as int,
                            ).unwrap(),
                            *starting_board,
                            *ending_board,
                        );
                    }
                    match piece_worth_king_inf(*piece_kind) {
                        Score::Finite(worth) => Ok(Score::Finite(x + worth)),
                        _ => Ok(Score::PosInf),
                    }
                },
                other => other,
            }
        },
        ChessMove::Castling(_) => Ok(Score::Finite(20000)),
    }
}

} // verus!
