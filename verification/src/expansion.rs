//! From the answers of move generation to the children of a node.

use crate::board::Board;
use crate::chess::{BoardError, ChessMove};
use vstd::prelude::*;

verus! {

/// A move that was tried on a position, with the position that it led to,
/// or `None` where the move was not legal.
#[derive(Debug)]
pub struct Tried {
    pub chess_move: ChessMove,
    pub outcome: Option<Board>,
}

/// Whether an error of move generation only says that a square has no moves
/// to give: it is empty, or its piece is not of the side to move.
pub open spec fn harmless(e: BoardError) -> bool {
    e == BoardError::NoPieceError || e == BoardError::WrongTurnError
}

/// Whether the answer for a square stops the expansion.
pub open spec fn fatal(answer: Result<Vec<Tried>, BoardError>) -> bool {
    answer matches Err(e) && !harmless(e)
}

/// The children that the first `n` of `moves` give: each legal move with its
/// position, in the order of `moves`.
pub open spec fn legal_upto(moves: Seq<Tried>, n: int) -> Seq<(ChessMove, Board)>
    decreases n,
{
    if n <= 0 || n > moves.len() {
        Seq::empty()
    } else {
        match moves[n - 1].outcome {
            Some(board) => legal_upto(moves, n - 1).push((moves[n - 1].chess_move, board)),
            None => legal_upto(moves, n - 1),
        }
    }
}

/// The children that the answer for one square gives: none for an error.
pub open spec fn children_of(answer: Result<Vec<Tried>, BoardError>) -> Seq<(ChessMove, Board)> {
    match answer {
        Ok(moves) => legal_upto(moves@, moves@.len() as int),
        Err(_) => Seq::empty(),
    }
}

/// The children that the first `n` answers give, square after square.
pub open spec fn gathered(answers: Seq<Result<Vec<Tried>, BoardError>>, n: int) -> Seq<
    (ChessMove, Board),
>
    decreases n,
{
    if n <= 0 || n > answers.len() {
        Seq::empty()
    } else {
        gathered(answers, n - 1) + children_of(answers[n - 1])
    }
}

/// Turns a vector round.
fn reversed<T>(v: Vec<T>) -> (r: Vec<T>)
    ensures
        r@ == v@.reverse(),
{
    let ghost given = v@;
    let mut v = v;
    let mut r: Vec<T> = Vec::new();
    while v.len() > 0
        invariant
            v@.len() <= given.len(),
            v@ == given.subrange(0, v@.len() as int),
            r@.len() == given.len() - v@.len(),
            forall|k: int| 0 <= k < r@.len() ==> r@[k] == given[given.len() - 1 - k],
        decreases v.len(),
    {
        let ghost n = v@.len() - 1;
        let x = v.pop().unwrap();
        assert(x == given.subrange(0, n + 1)[n]);
        r.push(x);
        assert(v@ =~= given.subrange(0, n));
    }
    assert(r@ =~= given.reverse());
    r
}

/// The legal moves among `moves`, each with its position.
fn legal_of(moves: Vec<Tried>) -> (r: Vec<(ChessMove, Board)>)
    ensures
        r@ == legal_upto(moves@, moves@.len() as int),
{
    let ghost given = moves@;
    let mut rest = reversed(moves);
    let mut out: Vec<(ChessMove, Board)> = Vec::new();
    while rest.len() > 0
        invariant
            rest@.len() <= given.len(),
            rest@ == given.reverse().subrange(0, rest@.len() as int),
            out@ == legal_upto(given, given.len() - rest@.len()),
        decreases rest.len(),
    {
        let ghost n = rest@.len() - 1;
        let tried = rest.pop().unwrap();
        assert(tried == given.reverse().subrange(0, n + 1)[n]);
        assert(tried == given[given.len() - 1 - n]);
        assert(rest@ =~= given.reverse().subrange(0, n));
        match tried.outcome {
            Some(board) => {
                out.push((tried.chess_move, board));
            },
            None => {},
        }
    }
    out
}

/// Gathers the children of a node from the answers of move generation, one
/// answer for each square that was asked.
///
/// A square that has no moves to give is passed over, and so is a move that
/// was not legal. Any other error stops the expansion: the result is the
/// first such error.
pub fn gather(answers: Vec<Result<Vec<Tried>, BoardError>>) -> (r: Result<
    Vec<(ChessMove, Board)>,
    BoardError,
>)
    ensures
        r.is_err() == exists|i: int| 0 <= i < answers@.len() && fatal(#[trigger] answers@[i]),
        r matches Err(e) ==> exists|i: int|
            {
                &&& 0 <= i < answers@.len()
                &&& #[trigger] answers@[i] == Err::<Vec<Tried>, BoardError>(e)
                &&& !harmless(e)
                &&& forall|j: int| 0 <= j < i ==> !fatal(#[trigger] answers@[j])
            },
        r matches Ok(children) ==> children@ == gathered(answers@, answers@.len() as int),
{
    let ghost given = answers@;
    let mut rest = reversed(answers);
    let mut out: Vec<(ChessMove, Board)> = Vec::new();
    while rest.len() > 0
        invariant
            rest@.len() <= given.len(),
            rest@ == given.reverse().subrange(0, rest@.len() as int),
            given == answers@,
            out@ == gathered(given, given.len() - rest@.len()),
            forall|j: int| 0 <= j < given.len() - rest@.len() ==> !fatal(#[trigger] given[j]),
        decreases rest.len(),
    {
        let ghost n = rest@.len() - 1;
        let ghost at = given.len() - 1 - n;
        let answer = rest.pop().unwrap();
        assert(answer == given.reverse().subrange(0, n + 1)[n]);
        assert(answer == given[at]);
        assert(rest@ =~= given.reverse().subrange(0, n));
        match answer {
            Ok(moves) => {
                let mut found = legal_of(moves);
                out.append(&mut found);
            },
            Err(BoardError::NoPieceError) => {
                assert(out@ + children_of(given[at]) =~= out@);
            },
            Err(BoardError::WrongTurnError) => {
                assert(out@ + children_of(given[at]) =~= out@);
            },
            Err(e) => {
                assert(fatal(given[at]));
                return Err(e);
            },
        }
    }
    Ok(out)
}

} // verus!
