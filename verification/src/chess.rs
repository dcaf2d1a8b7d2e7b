//! The chess vocabulary of the engine: colours, pieces, moves, and the record
//! of a position.

use vstd::prelude::*;

verus! {

/// The number of rows, and of columns, of the board.
pub const BOARD_SIZE: usize = 8;

/// The most moves that a position may list from one square.
pub const MAX_REACH: usize = 256;

#[derive(Clone, Copy, Debug, PartialEq, Eq, Structural, Hash)]
pub enum Color {
    White,
    Black,
}

impl Color {
    pub open spec fn spec_opposite(self) -> Color {
        match self {
            Color::White => Color::Black,
            Color::Black => Color::White,
        }
    }

    /// The other colour.
    #[verifier::when_used_as_spec(spec_opposite)]
    pub fn opposite(self) -> (r: Color)
        ensures
            r == self.spec_opposite(),
    {
        match self {
            Color::White => Color::Black,
            Color::Black => Color::White,
        }
    }
}

#[derive(Clone, Copy, Debug, PartialEq, Eq, Structural, Hash)]
pub enum PieceKind {
    Pawn,
    Knight,
    Bishop,
    Rook,
    Queen,
    King,
}

impl PieceKind {
    /// The place of the kind in the list of kinds, from pawn to king.
    pub open spec fn index(self) -> int {
        match self {
            PieceKind::Pawn => 0,
            PieceKind::Knight => 1,
            PieceKind::Bishop => 2,
            PieceKind::Rook => 3,
            PieceKind::Queen => 4,
            PieceKind::King => 5,
        }
    }

    pub fn ordinal(self) -> (r: usize)
        ensures
            r == self.index(),
    {
        match self {
            PieceKind::Pawn => 0,
            PieceKind::Knight => 1,
            PieceKind::Bishop => 2,
            PieceKind::Rook => 3,
            PieceKind::Queen => 4,
            PieceKind::King => 5,
        }
    }
}

#[derive(Clone, Copy, Debug, PartialEq, Eq, Structural, Hash)]
pub struct Piece {
    pub kind: PieceKind,
    pub color: Color,
}

/// How a game has ended.
#[derive(Clone, Copy, Debug, PartialEq, Eq, Structural, Hash)]
pub enum GameEnd {
    Mated(Color),
    StaleMate,
}

/// What a question to a position can fail with.
#[derive(Clone, Copy, Debug, PartialEq, Eq, Structural, Hash)]
pub enum BoardError {
    /// The square named is not on the board.
    OutOfBoundsError,
    /// The square named holds no piece.
    NoPieceError,
    /// The piece on the square named is not of the side to move.
    WrongTurnError,
    /// The sum asked for holds both infinities, or an infinity weighed by zero.
    UndefinedScoreError,
}

/// A move of one piece from a square to a square.
#[derive(Clone, Copy, Debug, PartialEq, Eq, Structural, Hash)]
pub struct NormalChessMove {
    pub initial_row: usize,
    pub initial_col: usize,
    pub destination_row: usize,
    pub destination_col: usize,
}

#[derive(Clone, Copy, Debug, PartialEq, Eq, Structural, Hash)]
pub enum CastlingType {
    KingSide,
    QueenSide,
}

#[derive(Clone, Copy, Debug, PartialEq, Eq, Structural, Hash)]
pub enum ChessMove {
    Normal(NormalChessMove),
    Promotion(NormalChessMove, PieceKind),
    Castling(CastlingType),
}

impl NormalChessMove {
    /// Whether both squares of the move are on the board.
    pub open spec fn on_board(self) -> bool {
        &&& self.initial_row < BOARD_SIZE
        &&& self.initial_col < BOARD_SIZE
        &&& self.destination_row < BOARD_SIZE
        &&& self.destination_col < BOARD_SIZE
    }

    /// The strict order on such moves: by the four coordinates in turn.
    pub open spec fn before(self, other: NormalChessMove) -> bool {
        if self.initial_row != other.initial_row {
            self.initial_row < other.initial_row
        } else if self.initial_col != other.initial_col {
            self.initial_col < other.initial_col
        } else if self.destination_row != other.destination_row {
            self.destination_row < other.destination_row
        } else {
            self.destination_col < other.destination_col
        }
    }

    pub fn is_on_board(&self) -> (r: bool)
        ensures
            r == self.on_board(),
    {
        self.initial_row < BOARD_SIZE && self.initial_col < BOARD_SIZE && self.destination_row
            < BOARD_SIZE && self.destination_col < BOARD_SIZE
    }

    pub fn is_before(&self, other: &NormalChessMove) -> (r: bool)
        ensures
            r == self.before(*other),
    {
        if self.initial_row != other.initial_row {
            self.initial_row < other.initial_row
        } else if self.initial_col != other.initial_col {
            self.initial_col < other.initial_col
        } else if self.destination_row != other.destination_row {
            self.destination_row < other.destination_row
        } else {
            self.destination_col < other.destination_col
        }
    }
}

impl ChessMove {
    /// 0 for a normal move, 1 for a promotion, 2 for castling.
    pub open spec fn shape(self) -> int {
        match self {
            ChessMove::Normal(_) => 0,
            ChessMove::Promotion(_, _) => 1,
            ChessMove::Castling(_) => 2,
        }
    }

    /// Whether the squares that the move names are on the board.
    pub open spec fn on_board(self) -> bool {
        match self {
            ChessMove::Normal(m) => m.on_board(),
            ChessMove::Promotion(m, _) => m.on_board(),
            ChessMove::Castling(_) => true,
        }
    }

    /// The strict order on moves: normal moves first, then promotions, then
    /// castling; within one shape by the squares, then by the piece promoted
    /// to, and the king's side before the queen's.
    pub open spec fn before(self, other: ChessMove) -> bool {
        match (self, other) {
            (ChessMove::Normal(a), ChessMove::Normal(b)) => a.before(b),
            (ChessMove::Promotion(a, j), ChessMove::Promotion(b, k)) => a.before(b) || (a == b
                && j.index() < k.index()),
            (ChessMove::Castling(s), ChessMove::Castling(t)) => s == CastlingType::KingSide && t
                == CastlingType::QueenSide,
            _ => self.shape() < other.shape(),
        }
    }

    pub fn is_on_board(&self) -> (r: bool)
        ensures
            r == self.on_board(),
    {
        match self {
            ChessMove::Normal(m) => m.is_on_board(),
            ChessMove::Promotion(m, _) => m.is_on_board(),
            ChessMove::Castling(_) => true,
        }
    }

    /// Whether `self` comes before `other` in the order of moves.
    pub fn is_before(&self, other: &ChessMove) -> (r: bool)
        ensures
            r == self.before(*other),
    {
        match (self, other) {
            (ChessMove::Normal(a), ChessMove::Normal(b)) => a.is_before(b),
            (ChessMove::Promotion(a, j), ChessMove::Promotion(b, k)) => a.is_before(b) || (*a == *b
                && j.ordinal() < k.ordinal()),
            (ChessMove::Castling(s), ChessMove::Castling(t)) => *s == CastlingType::KingSide && *t
                == CastlingType::QueenSide,
            (ChessMove::Normal(_), _) => true,
            (ChessMove::Promotion(_, _), ChessMove::Castling(_)) => true,
            _ => false,
        }
    }
}

/// The order on moves is total: of two moves exactly one of "before", "equal"
/// and "after" holds, and "before" is transitive.
pub proof fn move_order_is_total(a: ChessMove, b: ChessMove, c: ChessMove)
    ensures
        a.before(b) || a == b || b.before(a),
        !(a.before(b) && b.before(a)),
        !a.before(a),
        a.before(b) && b.before(c) ==> a.before(c),
{
}

} // verus!
