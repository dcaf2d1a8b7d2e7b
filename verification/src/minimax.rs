//! Minimax over the grown tree.

use crate::board::Board;
use crate::chess::{ChessMove, Color};
use crate::eval::{eval_order_is_total, Eval};
use crate::score::Score;
use crate::static_eval::{static_evaluation, static_value};
use crate::tree::{MoveTree, TreeView};
use crate::weights::StaticEvaluationWeights;
use vstd::prelude::*;

verus! {

/// The value at which minimax stops: the value of the position as it stands;
/// but a score reached above the least depth does not count, and gives way to
/// the infinity that the side to choose likes least to pass by.
pub open spec fn leaf_value(
    weights: StaticEvaluationWeights,
    board: Board,
    depth: int,
    min_depth: int,
    maximizing: bool,
) -> Eval {
    let eval = static_value(weights, board);
    if eval is Numeric && depth < min_depth {
        if maximizing {
            Eval::Numeric(Score::PosInf)
        } else {
            Eval::Numeric(Score::NegInf)
        }
    } else {
        eval
    }
}

/// Whether the side that chooses likes `a` better than `b`.
pub open spec fn prefers(maximizing: bool, a: Eval, b: Eval) -> bool {
    if maximizing {
        b.below(a)
    } else {
        a.below(b)
    }
}

/// The value from which the choice starts: the mate that the side that
/// chooses likes less than any value of a position.
pub open spec fn worst(maximizing: bool) -> Eval {
    if maximizing {
        Eval::MateIn(Color::Black, -1i32)
    } else {
        Eval::MateIn(Color::White, -1i32)
    }
}

/// The value of a node and the move that minimax prefers at it.
///
/// At the greatest depth and at a node without children it is `leaf_value`,
/// with no move. Else it is the choice among the children, each valued at one
/// more depth by the other side and raised by one move.
pub open spec fn minimax_value(
    weights: StaticEvaluationWeights,
    tree: TreeView,
    depth: int,
    min_depth: int,
    max_depth: int,
    maximizing: bool,
) -> (Eval, Option<ChessMove>)
    decreases tree, 1int, 0int,
{
    if depth == max_depth || tree.leaf() {
        (leaf_value(weights, tree.board, depth, min_depth, maximizing), None)
    } else {
        best_of(weights, tree, depth, min_depth, max_depth, maximizing, tree.kids.len() as int)
    }
}

/// The value of the `i`-th child of a node at `depth`, as its parent sees
/// it.
pub open spec fn child_value(
    weights: StaticEvaluationWeights,
    tree: TreeView,
    depth: int,
    min_depth: int,
    max_depth: int,
    maximizing: bool,
    i: int,
) -> Eval
    decreases tree, 0int, 0int,
{
    if 0 <= i < tree.kids.len() {
        minimax_value(weights, tree.kids[i].1, depth + 1, min_depth, max_depth, !maximizing).0.raised()
    } else {
        worst(maximizing)
    }
}

/// The choice among the first `n` children of a node: the value that the
/// side likes best and the move of the first child that has it.
pub open spec fn best_of(
    weights: StaticEvaluationWeights,
    tree: TreeView,
    depth: int,
    min_depth: int,
    max_depth: int,
    maximizing: bool,
    n: int,
) -> (Eval, Option<ChessMove>)
    decreases tree, 0int, n,
{
    if n <= 0 || n > tree.kids.len() {
        (worst(maximizing), None)
    } else {
        let before = best_of(weights, tree, depth, min_depth, max_depth, maximizing, n - 1);
        let eval = child_value(weights, tree, depth, min_depth, max_depth, maximizing, n - 1);
        if prefers(maximizing, eval, before.0) {
            (eval, Some(tree.kids[n - 1].0))
        } else {
            before
        }
    }
}

/// Whether a value is one that minimax can return at `depth`: a score, or a
/// mate in no more moves than lie between `depth` and the greatest depth.
pub open spec fn in_range(eval: Eval, depth: int, max_depth: int) -> bool {
    0 <= eval.counter() <= max_depth - depth
}

/// Values a node by minimax.
pub fn minimax(
    weights: &StaticEvaluationWeights,
    tree: &MoveTree,
    depth: i32,
    min_depth: i32,
    max_depth: i32,
    maximizing_player: bool,
) -> (r: (Eval, Option<ChessMove>))
    requires
        0 <= depth <= max_depth,
    ensures
        r == minimax_value(
            *weights,
            tree@,
            depth as int,
            min_depth as int,
            max_depth as int,
            maximizing_player,
        ),
        in_range(r.0, depth as int, max_depth as int),
        r.1.is_some() == (depth != max_depth && !tree@.leaf()),
    decreases tree,
{
    proof {
        tree.lemma_view();
    }
    if depth == max_depth || tree.is_leaf() {
        let eval = static_evaluation(weights, &tree.board_state);
        if let Eval::Numeric(_) = eval {
            if depth < min_depth {
                return (
                    Eval::Numeric(
                        match maximizing_player {
                            true => Score::PosInf,
                            false => Score::NegInf,
                        },
                    ),
                    None,
                );
            }
        }
        return (eval, None);
    }
    let mut best_eval = if maximizing_player {
        Eval::MateIn(Color::Black, -1)
    } else {
        Eval::MateIn(Color::White, -1)
    };
    let mut best_move: Option<ChessMove> = None;
    let mut i: usize = 0;
    while i < tree.moves.len()
        invariant
            i <= tree.moves.len(),
            0 <= depth < max_depth,
            tree@.kids.len() == tree.moves@.len(),
            forall|k: int|
                0 <= k < tree.moves@.len() ==> #[trigger] tree@.kids[k] == (
                    tree.moves@[k].0,
                    tree.moves@[k].1@,
                ),
            (best_eval, best_move) == best_of(
                *weights,
                tree@,
                depth as int,
                min_depth as int,
                max_depth as int,
                maximizing_player,
                i as int,
            ),
            i == 0 ==> best_eval == worst(maximizing_player),
            i > 0 ==> in_range(best_eval, depth as int, max_depth as int) && best_eval.counter()
                >= 1 - (if best_eval is Numeric {
                1int
            } else {
                0int
            }) && best_move.is_some(),
        decreases tree.moves.len() - i,
    {
        let child = &tree.moves[i].1;
        let eval = minimax(
            weights,
            child,
            depth + 1,
            min_depth,
            max_depth,
            !maximizing_player,
        ).0.increase_mate_counter();
        assert(eval == child_value(
            *weights,
            tree@,
            depth as int,
            min_depth as int,
            max_depth as int,
            maximizing_player,
            i as int,
        ));
        let better = if maximizing_player {
            best_eval.is_below(&eval)
        } else {
            eval.is_below(&best_eval)
        };
        if better {
            best_eval = eval;
            best_move = Some(tree.moves[i].0);
        }
        i += 1;
    }
    (best_eval, best_move)
}

/// What the choice among the first `n` children of a node is: no child has a
/// value that the side likes better; where a move is chosen, it is the move
/// of the first child with the chosen value; and where none is chosen, no
/// child is liked better than the value from which the choice starts.
pub proof fn choice_is_best(
    weights: StaticEvaluationWeights,
    tree: TreeView,
    depth: int,
    min_depth: int,
    max_depth: int,
    maximizing: bool,
    n: int,
)
    requires
        0 <= n <= tree.kids.len(),
    ensures
        forall|i: int|
            0 <= i < n ==> !prefers(
                maximizing,
                #[trigger] child_value(weights, tree, depth, min_depth, max_depth, maximizing, i),
                best_of(weights, tree, depth, min_depth, max_depth, maximizing, n).0,
            ),
        best_of(weights, tree, depth, min_depth, max_depth, maximizing, n).1 is None ==> best_of(
            weights,
            tree,
            depth,
            min_depth,
            max_depth,
            maximizing,
            n,
        ).0 == worst(maximizing),
        best_of(weights, tree, depth, min_depth, max_depth, maximizing, n).1 matches Some(m)
            ==> exists|i: int|
            {
                &&& 0 <= i < n
                &&& (#[trigger] tree.kids[i]).0 == m
                &&& child_value(weights, tree, depth, min_depth, max_depth, maximizing, i)
                    == best_of(weights, tree, depth, min_depth, max_depth, maximizing, n).0
                &&& forall|j: int|
                    0 <= j < i ==> prefers(
                        maximizing,
                        best_of(weights, tree, depth, min_depth, max_depth, maximizing, n).0,
                        #[trigger] child_value(
                            weights,
                            tree,
                            depth,
                            min_depth,
                            max_depth,
                            maximizing,
                            j,
                        ),
                    )
            },
    decreases n,
{
    if n > 0 {
        choice_is_best(weights, tree, depth, min_depth, max_depth, maximizing, n - 1);
        let before = best_of(weights, tree, depth, min_depth, max_depth, maximizing, n - 1);
        let now = best_of(weights, tree, depth, min_depth, max_depth, maximizing, n);
        let eval = child_value(weights, tree, depth, min_depth, max_depth, maximizing, n - 1);
        assert forall|i: int| 0 <= i < n implies !prefers(
            maximizing,
            #[trigger] child_value(weights, tree, depth, min_depth, max_depth, maximizing, i),
            now.0,
        ) by {
            let c = child_value(weights, tree, depth, min_depth, max_depth, maximizing, i);
            eval_order_is_total(c, before.0, eval);
            eval_order_is_total(eval, before.0, c);
            eval_order_is_total(eval, eval, eval);
        }
        if prefers(maximizing, eval, before.0) {
            assert(tree.kids[n - 1].0 == now.1.unwrap());
            assert forall|j: int| 0 <= j < n - 1 implies prefers(
                maximizing,
                now.0,
                #[trigger] child_value(weights, tree, depth, min_depth, max_depth, maximizing, j),
            ) by {
                let c = child_value(weights, tree, depth, min_depth, max_depth, maximizing, j);
                eval_order_is_total(c, before.0, eval);
                eval_order_is_total(eval, before.0, c);
            }
        } else if now.1 is Some {
            let i = choose|i: int|
                {
                    &&& 0 <= i < n - 1
                    &&& (#[trigger] tree.kids[i]).0 == before.1.unwrap()
                    &&& child_value(weights, tree, depth, min_depth, max_depth, maximizing, i)
                        == before.0
                    &&& forall|j: int|
                        0 <= j < i ==> prefers(
                            maximizing,
                            before.0,
                            #[trigger] child_value(
                                weights,
                                tree,
                                depth,
                                min_depth,
                                max_depth,
                                maximizing,
                                j,
                            ),
                        )
                };
            assert(0 <= i < n && tree.kids[i].0 == now.1.unwrap());
        }
    }
}

/// The move that minimax prefers at a node is the move of one of its
/// children.
pub proof fn minimax_move_is_child(
    weights: StaticEvaluationWeights,
    tree: TreeView,
    depth: int,
    min_depth: int,
    max_depth: int,
    maximizing: bool,
)
    ensures
        minimax_value(weights, tree, depth, min_depth, max_depth, maximizing).1 matches Some(m)
            ==> exists|i: int| 0 <= i < tree.kids.len() && (#[trigger] tree.kids[i]).0 == m,
{
    if depth != max_depth && !tree.leaf() {
        choice_is_best(
            weights,
            tree,
            depth,
            min_depth,
            max_depth,
            maximizing,
            tree.kids.len() as int,
        );
    }
}

} // verus!
