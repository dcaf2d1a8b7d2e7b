//! The squares that a side controls.

use crate::board::{Board, SQUARES};
use crate::chess::{ChessMove, Color};
use vstd::prelude::*;

verus! {

/// The square on which a move ends; castling names none.
pub open spec fn destination(m: ChessMove) -> Option<(int, int)> {
    match m {
        ChessMove::Normal(n) => Some((n.destination_row as int, n.destination_col as int)),
        ChessMove::Promotion(n, _) => Some((n.destination_row as int, n.destination_col as int)),
        ChessMove::Castling(_) => None,
    }
}

/// Whether the `k`-th move listed from square number `src` ends on
/// (`row`, `col`). Squares are numbered row by row, eight to a row.
pub open spec fn lands(board: Board, src: int, k: int, row: int, col: int) -> bool {
    &&& 0 <= k < board.reach_at(src / 8, src % 8).len()
    &&& destination(board.reach_at(src / 8, src % 8)[k]) == Some((row, col))
}

/// Whether a piece of `color` stands on square number `src` and one of its
/// moves ends on (`row`, `col`).
pub open spec fn reaches(board: Board, color: Color, src: int, row: int, col: int) -> bool {
    &&& 0 <= src < SQUARES
    &&& board.piece_at(src / 8, src % 8) matches Some(p) && p.color == color
    &&& exists|k: int| #[trigger] lands(board, src, k, row, col)
}

/// Whether some piece of `color` has a move that ends on (`row`, `col`).
pub open spec fn controls(board: Board, color: Color, row: int, col: int) -> bool {
    exists|src: int| #[trigger] reaches(board, color, src, row, col)
}

/// How many of the first `n` squares `color` controls.
pub open spec fn control_upto(board: Board, color: Color, n: int) -> int
    decreases n,
{
    if n <= 0 {
        0
    } else {
        control_upto(board, color, n - 1) + if controls(board, color, (n - 1) / 8, (n - 1) % 8) {
            1int
        } else {
            0int
        }
    }
}

/// The number of squares of the board that `color` controls: each square
/// counts once, however many moves end on it.
pub open spec fn control(board: Board, color: Color) -> int {
    control_upto(board, color, SQUARES as int)
}

/// A side controls no more squares than there are.
pub proof fn lemma_control_bounds(board: Board, color: Color, n: int)
    requires
        0 <= n,
    ensures
        0 <= control_upto(board, color, n) <= n,
    decreases n,
{
    if n > 0 {
        lemma_control_bounds(board, color, n - 1);
    }
}

spec fn reached_before(board: Board, color: Color, n: int, row: int, col: int) -> bool {
    exists|s: int| s < n && #[trigger] reaches(board, color, s, row, col)
}

spec fn landed_before(board: Board, src: int, n: int, row: int, col: int) -> bool {
    exists|k: int| k < n && #[trigger] lands(board, src, k, row, col)
}

proof fn lemma_square_done(board: Board, color: Color, src: int, row: int, col: int)
    requires
        0 <= src < SQUARES,
    ensures
        reached_before(board, color, src + 1, row, col) == (reached_before(
            board,
            color,
            src,
            row,
            col,
        ) || reaches(board, color, src, row, col)),
{
    if reached_before(board, color, src + 1, row, col) {
        let s = choose|s: int| s < src + 1 && #[trigger] reaches(board, color, s, row, col);
        if s < src {
            assert(reached_before(board, color, src, row, col));
        }
    }
    if reached_before(board, color, src, row, col) {
        let s = choose|s: int| s < src && #[trigger] reaches(board, color, s, row, col);
        assert(s < src + 1 && reaches(board, color, s, row, col));
    }
    if reaches(board, color, src, row, col) {
        assert(src < src + 1 && reaches(board, color, src, row, col));
    }
}

proof fn lemma_move_done(board: Board, src: int, k: int, row: int, col: int)
    ensures
        landed_before(board, src, k + 1, row, col) == (landed_before(board, src, k, row, col)
            || lands(board, src, k, row, col)),
{
    if landed_before(board, src, k + 1, row, col) {
        let j = choose|j: int| j < k + 1 && #[trigger] lands(board, src, j, row, col);
        if j < k {
            assert(landed_before(board, src, k, row, col));
        }
    }
    if landed_before(board, src, k, row, col) {
        let j = choose|j: int| j < k && #[trigger] lands(board, src, j, row, col);
        assert(j < k + 1 && lands(board, src, j, row, col));
    }
    if lands(board, src, k, row, col) {
        assert(k < k + 1 && lands(board, src, k, row, col));
    }
}

proof fn lemma_list_done(board: Board, color: Color, src: int, row: int, col: int)
    requires
        0 <= src < SQUARES,
        board.piece_at(src / 8, src % 8) matches Some(p) && p.color == color,
    ensures
        reaches(board, color, src, row, col) == landed_before(
            board,
            src,
            board.reach_at(src / 8, src % 8).len() as int,
            row,
            col,
        ),
{
    let n = board.reach_at(src / 8, src % 8).len() as int;
    if reaches(board, color, src, row, col) {
        let k = choose|k: int| #[trigger] lands(board, src, k, row, col);
        assert(k < n && lands(board, src, k, row, col));
    }
    if landed_before(board, src, n, row, col) {
        let k = choose|k: int| k < n && #[trigger] lands(board, src, k, row, col);
        assert(lands(board, src, k, row, col));
    }
}

proof fn lemma_all_done(board: Board, color: Color, row: int, col: int)
    ensures
        reached_before(board, color, SQUARES as int, row, col) == controls(board, color, row, col),
{
    if controls(board, color, row, col) {
        let s = choose|s: int| #[trigger] reaches(board, color, s, row, col);
        assert(s < SQUARES && reaches(board, color, s, row, col));
    }
    if reached_before(board, color, SQUARES as int, row, col) {
        let s = choose|s: int| s < SQUARES && #[trigger] reaches(board, color, s, row, col);
        assert(reaches(board, color, s, row, col));
    }
}

/// Counts the squares that the pieces of `color` could move to if it were
/// their turn. Castling counts for no square.
pub fn controlling_squares(board: &Board, color: Color) -> (r: i32)
    ensures
        r == control(*board, color),
        0 <= r <= SQUARES,
{
    let mut marks: Vec<bool> = Vec::new();
    while marks.len() < SQUARES
        invariant
            marks.len() <= SQUARES,
            forall|t: int| 0 <= t < marks.len() ==> !marks@[t],
        decreases SQUARES - marks.len(),
    {
        marks.push(false);
    }
    proof {
        use_type_invariant(board);
        assert forall|t: int| 0 <= t < SQUARES implies marks@[t] == reached_before(
            *board,
            color,
            0,
            t / 8,
            t % 8,
        ) by {
            if reached_before(*board, color, 0, t / 8, t % 8) {
                let s = choose|s: int| s < 0 && #[trigger] reaches(*board, color, s, t / 8, t % 8);
                assert(false);
            }
        }
    }
    let mut src: usize = 0;
    while src < SQUARES
        invariant
            src <= SQUARES,
            marks.len() == SQUARES,
            board.wf(),
            forall|t: int|
                0 <= t < SQUARES ==> #[trigger] marks@[t] == reached_before(
                    *board,
                    color,
                    src as int,
                    t / 8,
                    t % 8,
                ),
        decreases SQUARES - src,
    {
        let row = src / 8;
        let col = src % 8;
        let mut listed = false;
        match board.get_piece(row, col) {
            Ok(Some(piece)) => {
                if piece.color == color {
                    match board.generate_moves_ignore_turn(row, col) {
                        Ok(moves) => {
                            listed = true;
                            proof {
                                board.lemma_reach_bounds(row as int, col as int);
                                assert forall|t: int| 0 <= t < SQUARES implies #[trigger] marks@[t]
                                    == (reached_before(*board, color, src as int, t / 8, t % 8)
                                    || landed_before(*board, src as int, 0, t / 8, t % 8)) by {
                                    if landed_before(*board, src as int, 0, t / 8, t % 8) {
                                        let k = choose|k: int|
                                            k < 0 && #[trigger] lands(
                                                *board,
                                                src as int,
                                                k,
                                                t / 8,
                                                t % 8,
                                            );
                                        assert(false);
                                    }
                                }
                            }
                            let mut k: usize = 0;
                            while k < moves.len()
                                invariant
                                    k <= moves.len(),
                                    src < SQUARES,
                                    row == src / 8,
                                    col == src % 8,
                                    marks.len() == SQUARES,
                                    moves@ == board.reach_at(row as int, col as int),
                                    forall|j: int|
                                        0 <= j < moves@.len() ==> (#[trigger] moves@[j]).on_board(),
                                    forall|t: int|
                                        0 <= t < SQUARES ==> #[trigger] marks@[t] == (
                                        reached_before(*board, color, src as int, t / 8, t % 8)
                                            || landed_before(
                                            *board,
                                            src as int,
                                            k as int,
                                            t / 8,
                                            t % 8,
                                        )),
                                decreases moves.len() - k,
                            {
                                let ghost before = marks@;
                                let chess_move = moves[k];
                                assert(chess_move.on_board());
                                match chess_move {
                                    ChessMove::Normal(normal_move) => {
                                        marks.set(
                                            normal_move.destination_row * 8
                                                + normal_move.destination_col,
                                            true,
                                        );
                                    },
                                    ChessMove::Castling(_) => {},
                                    ChessMove::Promotion(normal_move, _) => {
                                        marks.set(
                                            normal_move.destination_row * 8
                                                + normal_move.destination_col,
                                            true,
                                        );
                                    },
                                }
                                proof {
                                    assert forall|t: int| 0 <= t < SQUARES implies #[trigger] marks@[t]
                                        == (reached_before(*board, color, src as int, t / 8, t % 8)
                                        || landed_before(
                                        *board,
                                        src as int,
                                        k as int + 1,
                                        t / 8,
                                        t % 8,
                                    )) by {
                                        lemma_move_done(*board, src as int, k as int, t / 8, t % 8);
                                        assert(before[t] == (reached_before(
                                            *board,
                                            color,
                                            src as int,
                                            t / 8,
                                            t % 8,
                                        ) || landed_before(
                                            *board,
                                            src as int,
                                            k as int,
                                            t / 8,
                                            t % 8,
                                        )));
                                        assert(lands(*board, src as int, k as int, t / 8, t % 8)
                                            == (destination(chess_move) == Some((t / 8, t % 8))));
                                    }
                                }
                                k += 1;
                            }
                        },
                        Err(_) => {},
                    }
                }
            },
            _ => {},
        }
        proof {
            assert forall|t: int| 0 <= t < SQUARES implies #[trigger] marks@[t] == reached_before(
                *board,
                color,
                src as int + 1,
                t / 8,
                t % 8,
            ) by {
                lemma_square_done(*board, color, src as int, t / 8, t % 8);
                if listed {
                    lemma_list_done(*board, color, src as int, t / 8, t % 8);
                } else {
                    assert(!reaches(*board, color, src as int, t / 8, t % 8));
                }
            }
        }
        src += 1;
    }
    let mut count: i32 = 0;
    let mut t: usize = 0;
    while t < SQUARES
        invariant
            t <= SQUARES,
            marks.len() == SQUARES,
            count == control_upto(*board, color, t as int),
            0 <= count <= t,
            forall|t: int|
                0 <= t < SQUARES ==> #[trigger] marks@[t] == reached_before(
                    *board,
                    color,
                    SQUARES as int,
                    t / 8,
                    t % 8,
                ),
        decreases SQUARES - t,
    {
        proof {
            lemma_all_done(*board, color, t as int / 8, t as int % 8);
        }
        if marks[t] {
            count += 1;
        }
        t += 1;
    }
    count
}

} // verus!
