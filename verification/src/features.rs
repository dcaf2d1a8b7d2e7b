//! What the evaluations read off a position: the worth of pieces, passed
//! pawns, the squares that a side controls, and the pressure on the side to
//! move.

use crate::board::Board;
use crate::chess::{Color, Piece, PieceKind, BOARD_SIZE};
use crate::score::Score;
use vstd::prelude::*;

verus! {

/// The worth of a piece in whole points; the king counts nothing.
pub open spec fn worth_points(kind: PieceKind) -> int {
    match kind {
        PieceKind::Pawn => 1,
        PieceKind::Knight => 3,
        PieceKind::Bishop => 3,
        PieceKind::Rook => 5,
        PieceKind::Queen => 9,
        PieceKind::King => 0,
    }
}

/// The worth of a piece where the king is beyond price: a finite score for
/// every other piece.
pub fn piece_worth_king_inf(piece: PieceKind) -> (r: Score)
    ensures
        piece == PieceKind::King ==> r == Score::PosInf,
        piece != PieceKind::King ==> r == Score::Finite((worth_points(piece) * 1000) as i64),
{
    match piece {
        PieceKind::Pawn => Score::Finite(1000),
        PieceKind::Knight => Score::Finite(3000),
        PieceKind::Bishop => Score::Finite(3000),
        PieceKind::Rook => Score::Finite(5000),
        PieceKind::Queen => Score::Finite(9000),
        PieceKind::King => Score::PosInf,
    }
}

/// The worth of a piece in whole points, where the king counts nothing.
pub fn piece_worth_king_zero(piece: PieceKind) -> (r: i64)
    ensures
        r == worth_points(piece),
        0 <= r <= 9,
{
    match piece {
        PieceKind::Pawn => 1,
        PieceKind::Knight => 3,
        PieceKind::Bishop => 3,
        PieceKind::Rook => 5,
        PieceKind::Queen => 9,
        PieceKind::King => 0,
    }
}

/// Whether row `i` lies ahead of a pawn of `color` on `row`: for White its own
/// row and those above, for Black the rows below.
pub open spec fn ahead(color: Color, row: int, i: int) -> bool {
    match color {
        Color::White => i >= row,
        Color::Black => i < row,
    }
}

/// Whether a pawn of the other colour stands on square (`i`, `j`) of the
/// board, ahead of (`row`, `col`) and at most one column aside.
pub open spec fn blocks(board: Board, row: int, col: int, color: Color, i: int, j: int) -> bool {
    &&& 0 <= i < BOARD_SIZE
    &&& 0 <= j < BOARD_SIZE
    &&& ahead(color, row, i)
    &&& col - 1 <= j <= col + 1
    &&& board.piece_at(i, j) == Some(Piece { kind: PieceKind::Pawn, color: color.opposite() })
}

/// Whether a pawn of `color` on (`row`, `col`) is passed: no pawn of the other
/// colour stands ahead of it on its own column or on one beside it.
pub open spec fn past_pawn(board: Board, row: int, col: int, color: Color) -> bool {
    forall|i: int, j: int| !#[trigger] blocks(board, row, col, color, i, j)
}

/// Whether a pawn of `color` on (`row`, `col`) is passed.
pub fn is_past_pawn(row: usize, col: usize, board: &Board, color: Color) -> (r: bool)
    ensures
        r == past_pawn(*board, row as int, col as int, color),
{
    let enemy = Piece { kind: PieceKind::Pawn, color: color.opposite() };
    let mut i: usize = 0;
    while i < BOARD_SIZE
        invariant
            i <= BOARD_SIZE,
            enemy == (Piece { kind: PieceKind::Pawn, color: color.opposite() }),
            forall|i2: int, j2: int|
                i2 < i ==> !#[trigger] blocks(*board, row as int, col as int, color, i2, j2),
        decreases BOARD_SIZE - i,
    {
        let is_ahead = match color {
            Color::White => i >= row,
            Color::Black => i < row,
        };
        let mut j: usize = 0;
        while j < BOARD_SIZE
            invariant
                i < BOARD_SIZE,
                j <= BOARD_SIZE,
                is_ahead == ahead(color, row as int, i as int),
                enemy == (Piece { kind: PieceKind::Pawn, color: color.opposite() }),
                forall|i2: int, j2: int|
                    i2 < i ==> !#[trigger] blocks(*board, row as int, col as int, color, i2, j2),
                forall|j2: int|
                    j2 < j ==> !#[trigger] blocks(
                        *board,
                        row as int,
                        col as int,
                        color,
                        i as int,
                        j2,
                    ),
            decreases BOARD_SIZE - j,
        {
            let near = if j <= col {
                col - j <= 1
            } else {
                j - col <= 1
            };
            if is_ahead && near {
                match board.get_piece(i, j) {
                    Ok(Some(piece)) => {
                        if piece == enemy {
                            assert(blocks(
                                *board,
                                row as int,
                                col as int,
                                color,
                                i as int,
                                j as int,
                            ));
                            return false;
                        }
                    },
                    _ => {},
                }
            }
            j += 1;
        }
        i += 1;
    }
    true
}

} // verus!
