//! The record of a position: what stands on each square, whose turn it is,
//! whether a side is in check or the game has ended, and where the piece on
//! each square could go if it were its turn.

use crate::chess::{BoardError, ChessMove, Color, GameEnd, Piece, BOARD_SIZE, MAX_REACH};
use vstd::prelude::*;

verus! {

/// The number of squares of the board.
pub const SQUARES: usize = 64;

/// Whether `squares` and `reach` can make a position: one entry for each
/// square in both, at most `MAX_REACH` moves from a square, and every move
/// between squares of the board.
pub open spec fn parts_fit(squares: Seq<Option<Piece>>, reach: Seq<Vec<ChessMove>>) -> bool {
    &&& squares.len() == SQUARES
    &&& reach.len() == SQUARES
    &&& forall|i: int| 0 <= i < reach.len() ==> (#[trigger] reach[i]).len() <= MAX_REACH
    &&& forall|i: int, j: int|
        0 <= i < reach.len() && 0 <= j < reach[i].len() ==> (#[trigger] reach[i][j]).on_board()
}

/// A position. Rows and columns count from 0; row 0 is White's back rank.
#[derive(Debug)]
pub struct Board {
    squares: Vec<Option<Piece>>,
    reach: Vec<Vec<ChessMove>>,
    turn: Color,
    check: Option<Color>,
    end: Option<GameEnd>,
}

impl Board {
    #[verifier::type_invariant]
    pub closed spec fn wf(self) -> bool {
        parts_fit(self.squares@, self.reach@)
    }

    /// What stands on the square, `None` too for a square off the board.
    pub closed spec fn piece_at(self, row: int, col: int) -> Option<Piece> {
        if 0 <= row < BOARD_SIZE && 0 <= col < BOARD_SIZE {
            self.squares@[row * 8 + col]
        } else {
            None
        }
    }

    /// The moves listed from the square, in the order in which they were
    /// given; none for a square off the board.
    pub closed spec fn reach_at(self, row: int, col: int) -> Seq<ChessMove> {
        if 0 <= row < BOARD_SIZE && 0 <= col < BOARD_SIZE {
            self.reach@[row * 8 + col]@
        } else {
            Seq::empty()
        }
    }

    /// The side to move.
    pub closed spec fn turn(self) -> Color {
        self.turn
    }

    /// The side in check, if one is.
    pub closed spec fn check(self) -> Option<Color> {
        self.check
    }

    /// How the game has ended, if it has.
    pub closed spec fn end(self) -> Option<GameEnd> {
        self.end
    }

    /// A well-formed position lists at most `MAX_REACH` moves from a square,
    /// all of them between squares of the board.
    pub proof fn lemma_reach_bounds(self, row: int, col: int)
        requires
            self.wf(),
        ensures
            self.reach_at(row, col).len() <= MAX_REACH,
            forall|j: int|
                0 <= j < self.reach_at(row, col).len() ==> (#[trigger] self.reach_at(
                    row,
                    col,
                )[j]).on_board(),
    {
        if 0 <= row < BOARD_SIZE && 0 <= col < BOARD_SIZE {
            let i = row * 8 + col;
            assert(0 <= i < self.reach@.len());
            assert(self.reach@[i].len() <= MAX_REACH);
            assert forall|j: int| 0 <= j < self.reach_at(row, col).len() implies (
            #[trigger] self.reach_at(row, col)[j]).on_board() by {
                assert(self.reach@[i][j].on_board());
            }
        }
    }

    /// Makes a position of its parts. `squares` and `reach` go row by row,
    /// eight entries to a row, from row 0. The result is `None` exactly when
    /// the parts do not fit.
    pub fn from_parts(
        squares: Vec<Option<Piece>>,
        reach: Vec<Vec<ChessMove>>,
        turn: Color,
        check: Option<Color>,
        end: Option<GameEnd>,
    ) -> (r: Option<Board>)
        ensures
            r.is_some() == parts_fit(squares@, reach@),
            r matches Some(b) ==> {
                &&& b.wf()
                &&& b.turn() == turn
                &&& b.check() == check
                &&& b.end() == end
                &&& forall|row: int, col: int|
                    0 <= row < BOARD_SIZE && 0 <= col < BOARD_SIZE ==> #[trigger] b.piece_at(
                        row,
                        col,
                    ) == squares@[row * 8 + col]
                &&& forall|row: int, col: int|
                    0 <= row < BOARD_SIZE && 0 <= col < BOARD_SIZE ==> #[trigger] b.reach_at(
                        row,
                        col,
                    ) == reach@[row * 8 + col]@
            },
    {
        if squares.len() != SQUARES || reach.len() != SQUARES {
            return None;
        }
        let mut i: usize = 0;
        while i < SQUARES
            invariant
                i <= SQUARES,
                reach.len() == SQUARES,
                forall|k: int| 0 <= k < i ==> (#[trigger] reach@[k]).len() <= MAX_REACH,
                forall|k: int, j: int|
                    0 <= k < i && 0 <= j < reach@[k].len() ==> (#[trigger] reach@[k][j]).on_board(),
            decreases SQUARES - i,
        {
            let list = &reach[i];
            if list.len() > MAX_REACH {
                assert(reach@[i as int].len() > MAX_REACH);
                return None;
            }
            let mut j: usize = 0;
            while j < list.len()
                invariant
                    0 <= i < reach.len(),
                    list == &reach@[i as int],
                    j <= list.len(),
                    forall|n: int| 0 <= n < j ==> (#[trigger] list@[n]).on_board(),
                decreases list.len() - j,
            {
                if !list[j].is_on_board() {
                    assert(!reach@[i as int][j as int].on_board());
                    return None;
                }
                j += 1;
            }
            i += 1;
        }
        Some(Board { squares, reach, turn, check, end })
    }

    /// The piece on a square, or `OutOfBoundsError` for a square off the
    /// board.
    pub fn get_piece(&self, row: usize, col: usize) -> (r: Result<Option<Piece>, BoardError>)
        ensures
            r == if row < BOARD_SIZE && col < BOARD_SIZE {
                Ok::<Option<Piece>, BoardError>(self.piece_at(row as int, col as int))
            } else {
                Err::<Option<Piece>, BoardError>(BoardError::OutOfBoundsError)
            },
    {
        proof {
            use_type_invariant(self);
        }
        if row < BOARD_SIZE && col < BOARD_SIZE {
            Ok(self.squares[row * 8 + col])
        } else {
            Err(BoardError::OutOfBoundsError)
        }
    }

    /// The side to move.
    pub fn get_turn(&self) -> (r: Color)
        ensures
            r == self.turn(),
    {
        self.turn
    }

    /// The side in check, if one is.
    pub fn is_check(&self) -> (r: Option<Color>)
        ensures
            r == self.check(),
    {
        self.check
    }

    /// How the game has ended, if it has.
    pub fn is_checkmate(&self) -> (r: Option<GameEnd>)
        ensures
            r == self.end(),
    {
        self.end
    }

    /// The moves of the piece on a square, whoever is to move:
    /// `OutOfBoundsError` for a square off the board, `NoPieceError` for an
    /// empty one, else the moves listed from the square.
    pub fn generate_moves_ignore_turn(&self, row: usize, col: usize) -> (r: Result<
        &Vec<ChessMove>,
        BoardError,
    >)
        ensures
            !(row < BOARD_SIZE && col < BOARD_SIZE) ==> r == Err::<&Vec<ChessMove>, BoardError>(
                BoardError::OutOfBoundsError,
            ),
            row < BOARD_SIZE && col < BOARD_SIZE && self.piece_at(row as int, col as int).is_none()
                ==> r == Err::<&Vec<ChessMove>, BoardError>(BoardError::NoPieceError),
            row < BOARD_SIZE && col < BOARD_SIZE && self.piece_at(row as int, col as int).is_some()
                ==> r.is_ok() && r.unwrap()@ == self.reach_at(row as int, col as int),
    {
        proof {
            use_type_invariant(self);
        }
        if !(row < BOARD_SIZE && col < BOARD_SIZE) {
            return Err(BoardError::OutOfBoundsError);
        }
        match self.squares[row * 8 + col] {
            None => Err(BoardError::NoPieceError),
            Some(_) => Ok(&self.reach[row * 8 + col]),
        }
    }
}

} // verus!
