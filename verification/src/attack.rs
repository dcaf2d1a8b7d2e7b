//! The pressure on the side to move: the worth of its pieces that the other
//! side's moves end on.

use crate::board::{Board, SQUARES};
use crate::chess::{ChessMove, MAX_REACH};
use crate::control::destination;
use crate::features::{piece_worth_king_zero, worth_points};
use vstd::prelude::*;

verus! {

/// The most that `total_attack` can come to.
pub const MAX_ATTACK: i64 = 147456;

/// The worth in whole points of the piece on which a move ends: 0 where it
/// ends on an empty square, on a king, or nowhere.
pub open spec fn target_worth(board: Board, m: ChessMove) -> int {
    match destination(m) {
        Some((row, col)) => match board.piece_at(row, col) {
            Some(piece) => worth_points(piece.kind),
            None => 0,
        },
        None => 0,
    }
}

/// The sum of `target_worth` over the first `n` of `moves`.
pub open spec fn list_attack(board: Board, moves: Seq<ChessMove>, n: int) -> int
    decreases n,
{
    if n <= 0 {
        0
    } else {
        list_attack(board, moves, n - 1) + target_worth(board, moves[n - 1])
    }
}

/// What the piece on square number `src` adds to the pressure: the sum over
/// its moves where it is not of the side to move, else 0.
pub open spec fn square_attack(board: Board, src: int) -> int {
    match board.piece_at(src / 8, src % 8) {
        Some(piece) => if piece.color != board.turn() {
            list_attack(
                board,
                board.reach_at(src / 8, src % 8),
                board.reach_at(src / 8, src % 8).len() as int,
            )
        } else {
            0
        },
        None => 0,
    }
}

/// The sum of `square_attack` over the first `n` squares.
pub open spec fn attack_upto(board: Board, n: int) -> int
    decreases n,
{
    if n <= 0 {
        0
    } else {
        attack_upto(board, n - 1) + square_attack(board, n - 1)
    }
}

/// The pressure on the side to move, in whole points: over every piece of the
/// other side and every move listed for it, the worth of the piece that the
/// move ends on. A move counts each time it is listed.
pub open spec fn total_attack(board: Board) -> int {
    attack_upto(board, SQUARES as int)
}

pub proof fn lemma_list_attack_bounds(board: Board, moves: Seq<ChessMove>, n: int)
    requires
        0 <= n,
    ensures
        0 <= list_attack(board, moves, n) <= 9 * n,
    decreases n,
{
    if n > 0 {
        lemma_list_attack_bounds(board, moves, n - 1);
    }
}

/// The pressure that a well-formed position shows is at most `MAX_ATTACK`.
pub proof fn lemma_attack_bounds(board: Board, n: int)
    requires
        board.wf(),
        0 <= n,
    ensures
        0 <= attack_upto(board, n) <= 2304 * n,
    decreases n,
{
    if n > 0 {
        lemma_attack_bounds(board, n - 1);
        let src = n - 1;
        board.lemma_reach_bounds(src / 8, src % 8);
        lemma_list_attack_bounds(
            board,
            board.reach_at(src / 8, src % 8),
            board.reach_at(src / 8, src % 8).len() as int,
        );
    }
}

/// Sums, over the pieces that are not of the side to move, the worth of what
/// their moves end on. The result counts whole points.
pub fn evaluate_total_attack(board: &Board) -> (sum: i64)
    ensures
        sum == total_attack(*board),
        0 <= sum <= MAX_ATTACK,
{
    proof {
        use_type_invariant(board);
    }
    let mut sum: i64 = 0;
    let mut src: usize = 0;
    while src < SQUARES
        invariant
            src <= SQUARES,
            board.wf(),
            sum == attack_upto(*board, src as int),
            0 <= sum <= 2304 * src,
        decreases SQUARES - src,
    {
        let row = src / 8;
        let col = src % 8;
        proof {
            lemma_attack_bounds(*board, src as int + 1);
        }
        let mut hostile = false;
        match board.get_piece(row, col) {
            Ok(Some(piece)) => {
                hostile = piece.color != board.get_turn();
            },
            _ => {},
        }
        if hostile {
            match board.generate_moves_ignore_turn(row, col) {
                Ok(moves) => {
                    let ghost base = sum;
                    proof {
                        board.lemma_reach_bounds(row as int, col as int);
                    }
                    let mut k: usize = 0;
                    while k < moves.len()
                        invariant
                            k <= moves.len(),
                            moves.len() <= MAX_REACH,
                            0 <= base <= 2304 * src,
                            src < SQUARES,
                            forall|j: int|
                                0 <= j < moves@.len() ==> (#[trigger] moves@[j]).on_board(),
                            sum == base + list_attack(*board, moves@, k as int),
                            0 <= list_attack(*board, moves@, k as int) <= 9 * k,
                        decreases moves.len() - k,
                    {
                        let chess_move = moves[k];
                        assert(chess_move.on_board());
                        let target = match chess_move {
                            ChessMove::Normal(normal_move) => board.get_piece(
                                normal_move.destination_row,
                                normal_move.destination_col,
                            ),
                            ChessMove::Castling(_) => Ok(None),
                            ChessMove::Promotion(normal_move, _) => board.get_piece(
                                normal_move.destination_row,
                                normal_move.destination_col,
                            ),
                        };
                        match target {
                            Ok(Some(attacked_piece)) => {
                                sum += piece_worth_king_zero(attacked_piece.kind);
                            },
                            _ => {},
                        }
                        k += 1;
                    }
                },
                Err(_) => {},
            }
        }
        src += 1;
    }
    sum
}

} // verus!
