//! The choice among values that were found apart, as by several workers.

use crate::chess::ChessMove;
use crate::eval::{eval_order_is_total, Eval};
use crate::minimax::{best_of, child_value, prefers, worst};
use crate::tree::TreeView;
use crate::weights::StaticEvaluationWeights;
use vstd::prelude::*;

verus! {

/// The choice among the first `n` of `evals`: the value that the side likes
/// best, and the move of the first that has it. It starts from `worst`, with
/// no move.
pub open spec fn pick(evals: Seq<(Eval, ChessMove)>, maximizing: bool, n: int) -> (
    Eval,
    Option<ChessMove>,
)
    decreases n,
{
    if n <= 0 || n > evals.len() {
        (worst(maximizing), None)
    } else {
        let before = pick(evals, maximizing, n - 1);
        if prefers(maximizing, evals[n - 1].0, before.0) {
            (evals[n - 1].0, Some(evals[n - 1].1))
        } else {
            before
        }
    }
}

/// Chooses among values with their moves.
pub fn pick_best(sub_evals: &Vec<(Eval, ChessMove)>, maximizing_player: bool) -> (r: (
    Eval,
    Option<ChessMove>,
))
    ensures
        r == pick(sub_evals@, maximizing_player, sub_evals@.len() as int),
{
    let mut best_eval = if maximizing_player {
        Eval::MateIn(crate::chess::Color::Black, -1)
    } else {
        Eval::MateIn(crate::chess::Color::White, -1)
    };
    let mut best_move: Option<ChessMove> = None;
    let mut i: usize = 0;
    while i < sub_evals.len()
        invariant
            i <= sub_evals.len(),
            (best_eval, best_move) == pick(sub_evals@, maximizing_player, i as int),
        decreases sub_evals.len() - i,
    {
        let eval = sub_evals[i].0;
        let better = if maximizing_player {
            best_eval.is_below(&eval)
        } else {
            eval.is_below(&best_eval)
        };
        if better {
            best_eval = eval;
            best_move = Some(sub_evals[i].1);
        }
        i += 1;
    }
    (best_eval, best_move)
}

/// The value chosen is liked at least as well as `worst` and as each of the
/// values, and it is `worst` or one of them.
pub proof fn pick_is_best(evals: Seq<(Eval, ChessMove)>, maximizing: bool, n: int)
    requires
        0 <= n <= evals.len(),
    ensures
        !prefers(maximizing, worst(maximizing), pick(evals, maximizing, n).0),
        forall|i: int|
            0 <= i < n ==> !prefers(
                maximizing,
                (#[trigger] evals[i]).0,
                pick(evals, maximizing, n).0,
            ),
        pick(evals, maximizing, n).0 == worst(maximizing) || exists|i: int|
            0 <= i < n && (#[trigger] evals[i]).0 == pick(evals, maximizing, n).0,
    decreases n,
{
    eval_order_is_total(worst(maximizing), worst(maximizing), worst(maximizing));
    if n > 0 {
        pick_is_best(evals, maximizing, n - 1);
        let before = pick(evals, maximizing, n - 1);
        let now = pick(evals, maximizing, n);
        let eval = evals[n - 1].0;
        eval_order_is_total(worst(maximizing), before.0, eval);
        eval_order_is_total(eval, before.0, worst(maximizing));
        assert forall|i: int| 0 <= i < n implies !prefers(
            maximizing,
            (#[trigger] evals[i]).0,
            now.0,
        ) by {
            eval_order_is_total(evals[i].0, before.0, eval);
            eval_order_is_total(eval, before.0, evals[i].0);
            eval_order_is_total(eval, eval, eval);
        }
        if !prefers(maximizing, eval, before.0) && before.0 != worst(maximizing) {
            let i = choose|i: int| 0 <= i < n - 1 && (#[trigger] evals[i]).0 == before.0;
            assert(0 <= i < n && evals[i].0 == now.0);
        }
    }
}

/// The value chosen does not depend on the order of the values: two lists
/// that hold the same values choose the same value.
pub proof fn pick_is_order_free(a: Seq<(Eval, ChessMove)>, b: Seq<(Eval, ChessMove)>, maximizing: bool)
    requires
        forall|i: int|
            0 <= i < a.len() ==> exists|j: int| 0 <= j < b.len() && (#[trigger] b[j]).0 == (
            #[trigger] a[i]).0,
        forall|j: int|
            0 <= j < b.len() ==> exists|i: int| 0 <= i < a.len() && (#[trigger] a[i]).0 == (
            #[trigger] b[j]).0,
    ensures
        pick(a, maximizing, a.len() as int).0 == pick(b, maximizing, b.len() as int).0,
{
    let va = pick(a, maximizing, a.len() as int).0;
    let vb = pick(b, maximizing, b.len() as int).0;
    pick_is_best(a, maximizing, a.len() as int);
    pick_is_best(b, maximizing, b.len() as int);
    eval_order_is_total(va, vb, va);
    if va != worst(maximizing) {
        let i = choose|i: int| 0 <= i < a.len() && (#[trigger] a[i]).0 == va;
        let j = choose|j: int| 0 <= j < b.len() && (#[trigger] b[j]).0 == a[i].0;
        assert(!prefers(maximizing, b[j].0, vb));
    }
    if vb != worst(maximizing) {
        let j = choose|j: int| 0 <= j < b.len() && (#[trigger] b[j]).0 == vb;
        let i = choose|i: int| 0 <= i < a.len() && (#[trigger] a[i]).0 == b[j].0;
        assert(!prefers(maximizing, a[i].0, va));
    }
}

/// Choosing among the values of the children of a node, each with its move
/// and in the order of the children, is what minimax chooses at the node.
pub proof fn pick_is_minimax(
    weights: StaticEvaluationWeights,
    tree: TreeView,
    depth: int,
    min_depth: int,
    max_depth: int,
    maximizing: bool,
    evals: Seq<(Eval, ChessMove)>,
    n: int,
)
    requires
        0 <= n <= tree.kids.len(),
        evals.len() == tree.kids.len(),
        forall|i: int|
            0 <= i < evals.len() ==> #[trigger] evals[i] == (
                child_value(weights, tree, depth, min_depth, max_depth, maximizing, i),
                tree.kids[i].0,
            ),
    ensures
        pick(evals, maximizing, n) == best_of(
            weights,
            tree,
            depth,
            min_depth,
            max_depth,
            maximizing,
            n,
        ),
    decreases n,
{
    if n > 0 {
        pick_is_minimax(weights, tree, depth, min_depth, max_depth, maximizing, evals, n - 1);
    }
}

} // verus!
