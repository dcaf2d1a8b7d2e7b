//! Putting the positions that follow from a node in the order of their moves.

use crate::board::Board;
use crate::chess::{move_order_is_total, ChessMove};
use crate::tree::{kid_views, MoveTree, TreeView};
use crate::tree_laws::{all_leaves, keys_in_order};
use vstd::prelude::*;

verus! {

/// Whether the `j`-th of `given` is the last that holds the move `m`.
pub open spec fn last_with(given: Seq<(ChessMove, Board)>, m: ChessMove, j: int) -> bool {
    &&& 0 <= j < given.len()
    &&& given[j].0 == m
    &&& forall|k: int| j < k < given.len() ==> (#[trigger] given[k]).0 != m
}

/// Whether `kid` is a node without children, made of the position that the
/// last of `given` from the `from`-th on with the move of `kid` holds.
pub open spec fn placed(given: Seq<(ChessMove, Board)>, from: int, kid: (ChessMove, MoveTree)) -> bool {
    exists|j: int|
        from <= j && #[trigger] last_with(given, kid.0, j) && kid.1@ == (TreeView {
            board: given[j].1,
            kids: Seq::empty(),
        })
}

/// Whether one of `kids` holds the move `m`.
pub open spec fn present(kids: Seq<(ChessMove, MoveTree)>, m: ChessMove) -> bool {
    exists|i: int| 0 <= i < kids.len() && (#[trigger] kids[i]).0 == m
}

/// Whether the moves of `kids` stand in their order, none twice.
pub open spec fn in_order(kids: Seq<(ChessMove, MoveTree)>) -> bool {
    forall|i: int, j: int|
        0 <= i < j < kids.len() ==> (#[trigger] kids[i]).0.before((#[trigger] kids[j]).0)
}

/// Whether `kid` is a node without children, of the position that the last
/// of `children` with its move holds.
pub open spec fn from_last(children: Seq<(ChessMove, Board)>, kid: (ChessMove, TreeView)) -> bool {
    exists|j: int| #[trigger]
        last_with(children, kid.0, j) && kid.1 == (TreeView {
            board: children[j].1,
            kids: Seq::empty(),
        })
}

/// Whether one of `kids` holds the move `m`.
pub open spec fn has_move(kids: Seq<(ChessMove, TreeView)>, m: ChessMove) -> bool {
    exists|i: int| 0 <= i < kids.len() && (#[trigger] kids[i]).0 == m
}

/// Whether `kids` are the children that a node gets of the positions
/// `children`: their moves stand in their order; each is a node without
/// children, of the last position that `children` gives for its move; and
/// every move of `children` has its child.
pub open spec fn made_of(children: Seq<(ChessMove, Board)>, kids: Seq<(ChessMove, TreeView)>) -> bool {
    &&& keys_in_order(kids)
    &&& all_leaves(kids)
    &&& forall|i: int| 0 <= i < kids.len() ==> from_last(children, #[trigger] kids[i])
    &&& forall|j: int| 0 <= j < children.len() ==> has_move(kids, (#[trigger] children[j]).0)
}

proof fn lemma_arranged(given: Seq<(ChessMove, Board)>, kids: Seq<(ChessMove, MoveTree)>)
    requires
        in_order(kids),
        forall|i: int| 0 <= i < kids.len() ==> placed(given, 0, #[trigger] kids[i]),
        forall|j: int| 0 <= j < given.len() ==> present(kids, (#[trigger] given[j]).0),
    ensures
        made_of(given, kid_views(kids)),
{
    let kv = kid_views(kids);
    assert forall|a: int, b: int| 0 <= a < b < kv.len() implies (#[trigger] kv[a]).0.before(
        (#[trigger] kv[b]).0,
    ) by {
        assert(kids[a].0.before(kids[b].0));
    }
    assert forall|k: int| 0 <= k < kv.len() implies from_last(given, #[trigger] kv[k])
        && kv[k].1.leaf() by {
        assert(placed(given, 0, kids[k]));
        let j = choose|j: int|
            0 <= j && #[trigger] last_with(given, kids[k].0, j) && kids[k].1@ == (TreeView {
                board: given[j].1,
                kids: Seq::empty(),
            });
        assert(last_with(given, kv[k].0, j));
    }
    assert forall|j: int| 0 <= j < given.len() implies has_move(kv, (#[trigger] given[j]).0) by {
        assert(present(kids, given[j].0));
        let k = choose|k: int| 0 <= k < kids.len() && (#[trigger] kids[k]).0 == given[j].0;
        assert(kv[k].0 == given[j].0);
    }
}

/// Makes the children of a node of the positions that follow from it. Each
/// move of `children` gets one node without children, the nodes stand in the
/// order of their moves, and where a move is given twice the later position
/// counts.
pub fn arrange(children: Vec<(ChessMove, Board)>) -> (kids: Vec<(ChessMove, MoveTree)>)
    ensures
        in_order(kids@),
        forall|i: int| 0 <= i < kids@.len() ==> placed(children@, 0, #[trigger] kids@[i]),
        forall|j: int| 0 <= j < children@.len() ==> present(kids@, (#[trigger] children@[j]).0),
        made_of(children@, kid_views(kids@)),
{
    let ghost given = children@;
    let mut children = children;
    let mut kids: Vec<(ChessMove, MoveTree)> = Vec::new();
    while children.len() > 0
        invariant
            children@.len() <= given.len(),
            children@ == given.subrange(0, children@.len() as int),
            in_order(kids@),
            forall|i: int|
                0 <= i < kids@.len() ==> placed(given, children@.len() as int, #[trigger] kids@[i]),
            forall|j: int|
                children@.len() <= j < given.len() ==> present(kids@, (#[trigger] given[j]).0),
        decreases children.len(),
    {
        let ghost n = children@.len() as int - 1;
        let ghost before = kids@;
        let (m, board) = children.pop().unwrap();
        assert(children@ =~= given.subrange(0, n));
        assert(given[n] == (m, board));
        let mut p: usize = 0;
        while p < kids.len() && kids[p].0.is_before(&m)
            invariant
                p <= kids.len(),
                kids@ == before,
                forall|i: int| 0 <= i < p ==> (#[trigger] kids@[i]).0.before(m),
            decreases kids.len() - p,
        {
            p += 1;
        }
        if p < kids.len() && kids[p].0 == m {
            proof {
                assert forall|i: int| 0 <= i < kids@.len() implies placed(
                    given,
                    n,
                    #[trigger] kids@[i],
                ) by {
                    let j = choose|j: int|
                        n + 1 <= j && #[trigger] last_with(given, kids@[i].0, j) && kids@[i].1@ == (
                        TreeView { board: given[j].1, kids: Seq::empty() });
                    assert(n <= j && last_with(given, kids@[i].0, j));
                }
                assert(present(kids@, given[n].0));
            }
        } else {
            let node = MoveTree::new(board);
            let ghost kid = (m, node);
            kids.insert(p, (m, node));
            proof {
                assert forall|j: int| n <= j < given.len() implies present(
                    kids@,
                    (#[trigger] given[j]).0,
                ) by {
                    if j == n {
                        assert(kids@[p as int].0 == m);
                    } else {
                        let i = choose|i: int|
                            0 <= i < before.len() && (#[trigger] before[i]).0 == given[j].0;
                        if i < p {
                            assert(kids@[i].0 == given[j].0);
                        } else {
                            assert(kids@[i + 1].0 == given[j].0);
                        }
                    }
                }
                assert forall|k: int| n < k < given.len() implies (#[trigger] given[k]).0 != m by {
                    assert(present(before, given[k].0));
                    let i = choose|i: int|
                        0 <= i < before.len() && (#[trigger] before[i]).0 == given[k].0;
                    if given[k].0 == m {
                        move_order_is_total(before[i].0, m, m);
                        if i < p {
                        } else {
                            if p < before.len() {
                                move_order_is_total(before[p as int].0, m, before[i].0);
                                if i > p {
                                    assert(before[p as int].0.before(before[i].0));
                                }
                            }
                        }
                    }
                }
                assert(last_with(given, m, n));
                assert forall|i: int| 0 <= i < kids@.len() implies placed(
                    given,
                    n,
                    #[trigger] kids@[i],
                ) by {
                    if i == p {
                        assert(n <= n && last_with(given, kids@[i].0, n));
                    } else {
                        let old_i = if i < p {
                            i
                        } else {
                            i - 1
                        };
                        assert(kids@[i] == before[old_i]);
                        let j = choose|j: int|
                            n + 1 <= j && #[trigger] last_with(given, before[old_i].0, j)
                                && before[old_i].1@ == (TreeView {
                                board: given[j].1,
                                kids: Seq::empty(),
                            });
                        assert(n <= j && last_with(given, kids@[i].0, j));
                    }
                }
                assert forall|i: int, j: int| 0 <= i < j < kids@.len() implies (
                #[trigger] kids@[i]).0.before((#[trigger] kids@[j]).0) by {
                    let a = if i < p {
                        i
                    } else {
                        i - 1
                    };
                    let b = if j < p {
                        j
                    } else {
                        j - 1
                    };
                    if i == p {
                        assert(kids@[j] == before[b]);
                        move_order_is_total(before[p as int].0, m, before[b].0);
                        if b > p {
                            assert(before[p as int].0.before(before[b].0));
                        }
                    } else if j == p {
                        assert(kids@[i] == before[a]);
                    } else {
                        assert(kids@[i] == before[a]);
                        assert(kids@[j] == before[b]);
                    }
                }
            }
        }
    }
    proof {
        assert(children@.len() == 0);
        lemma_arranged(given, kids@);
    }
    kids
}

} // verus!
