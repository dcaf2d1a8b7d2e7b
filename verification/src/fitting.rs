//! How the frontier, the awaited paths and the tree fit together, and why
//! the operations of the engine keep them so.

use crate::arrange::{from_last, has_move, last_with, made_of};
use crate::board::Board;
use crate::chess::{BoardError, ChessMove};
use crate::entry::EntryView;
use crate::interest::interest;
use crate::score::Score;
use crate::tree::TreeView;
use crate::tree_laws::{
    fill_order_is_free, lemma_fill_keeps_node,
    all_leaves, keys_in_order, lemma_descend_step, lemma_fill_keeps_leaves, lemma_fill_new_leaves,
    lemma_leaf_ends, lemma_sorted_index,
};
use crate::weights::InterestEvaluationWeights;
use vstd::multiset::Multiset;
use vstd::prelude::*;

verus! {

/// Whether every expansion of `bag` names a node of `tree` without children.
pub open spec fn names_leaves(tree: TreeView, bag: Multiset<EntryView>) -> bool {
    forall|e: EntryView| #[trigger] bag.count(e) > 0 ==> tree.leaf_at(e.path())
}

/// Whether no two expansions of `bag` name the same node.
pub open spec fn names_apart(bag: Multiset<EntryView>) -> bool {
    &&& forall|e: EntryView| #[trigger] bag.count(e) <= 1
    &&& forall|a: EntryView, b: EntryView|
        #[trigger] bag.count(a) > 0 && #[trigger] bag.count(b) > 0 && a.path() == b.path() ==> a
            == b
}

/// Whether every path of `awaited` leads to a node of `tree` without
/// children.
pub open spec fn paths_leaves(tree: TreeView, awaited: Seq<Seq<ChessMove>>) -> bool {
    forall|i: int| 0 <= i < awaited.len() ==> tree.leaf_at(#[trigger] awaited[i])
}

/// Whether no path stands twice in `awaited`.
pub open spec fn paths_apart(awaited: Seq<Seq<ChessMove>>) -> bool {
    forall|i: int, j: int|
        0 <= i < j < awaited.len() ==> #[trigger] awaited[i] != #[trigger] awaited[j]
}

/// Whether no expansion of `bag` names a node that a path of `awaited` leads
/// to.
pub open spec fn disjoint(bag: Multiset<EntryView>, awaited: Seq<Seq<ChessMove>>) -> bool {
    forall|e: EntryView, i: int|
        #[trigger] bag.count(e) > 0 && 0 <= i < awaited.len() ==> e.path() != #[trigger] awaited[i]
}

/// Whether a tree, a frontier and a list of awaited paths fit together.
pub open spec fn fits(
    tree: TreeView,
    bag: Multiset<EntryView>,
    awaited: Seq<Seq<ChessMove>>,
) -> bool {
    &&& tree.sorted()
    &&& names_leaves(tree, bag)
    &&& names_apart(bag)
    &&& paths_leaves(tree, awaited)
    &&& paths_apart(awaited)
    &&& disjoint(bag, awaited)
}

/// Taking an expansion out of the frontier and awaiting the node that it
/// names keeps tree, frontier and awaited paths fitting together.
pub proof fn lemma_take_fits(
    tree: TreeView,
    bag: Multiset<EntryView>,
    awaited: Seq<Seq<ChessMove>>,
    taken: EntryView,
)
    requires
        fits(tree, bag, awaited),
        bag.count(taken) > 0,
    ensures
        fits(tree, bag.remove(taken), awaited.push(taken.path())),
{
    broadcast use vstd::multiset::group_multiset_axioms;

    let after = bag.remove(taken);
    let more = awaited.push(taken.path());
    assert forall|e: EntryView| #[trigger] after.count(e) > 0 implies bag.count(e) > 0
        && e.path() != taken.path() by {
        if e.path() == taken.path() {
            assert(bag.count(e) > 0);
            assert(e == taken);
        }
    }
    assert forall|e: EntryView| #[trigger] after.count(e) <= 1 by {
        assert(bag.count(e) <= 1);
    }
    assert forall|i: int| 0 <= i < more.len() implies tree.leaf_at(#[trigger] more[i]) by {
        if i < awaited.len() {
            assert(more[i] == awaited[i]);
        }
    }
    assert forall|i: int, j: int| 0 <= i < j < more.len() implies #[trigger] more[i]
        != #[trigger] more[j] by {
        assert(more[i] == awaited[i]);
        if j < awaited.len() {
            assert(more[j] == awaited[j]);
        }
    }
    assert forall|e: EntryView, i: int| #[trigger]
        after.count(e) > 0 && 0 <= i < more.len() implies e.path() != #[trigger] more[i] by {
        if i < awaited.len() {
            assert(more[i] == awaited[i]);
        }
    }
}

/// Whether `x` is the expansion that is entered for one of the children
/// `kids` of the node at `location` with the position `parent`: it names the
/// child, holds the interest of the move that leads to it, and the price of
/// depth `depth_cost`.
pub open spec fn fresh(
    weights: InterestEvaluationWeights,
    depth_cost: int,
    parent: Board,
    location: Seq<ChessMove>,
    kids: Seq<(ChessMove, TreeView)>,
    x: EntryView,
) -> bool {
    &&& x.location == location
    &&& x.depth_cost == depth_cost
    &&& exists|i: int|
        0 <= i < kids.len() && (#[trigger] kids[i]).0 == x.chess_move && interest(
            weights,
            x.chess_move,
            parent,
            kids[i].1.board,
        ) == Ok::<Score, BoardError>(x.value)
}

/// The expansion that is entered for the child `kid` of the node at
/// `location` with the position `parent`.
pub open spec fn entry_for(
    weights: InterestEvaluationWeights,
    depth_cost: int,
    parent: Board,
    location: Seq<ChessMove>,
    kid: (ChessMove, TreeView),
) -> EntryView {
    EntryView {
        value: interest(weights, kid.0, parent, kid.1.board).unwrap(),
        chess_move: kid.0,
        location,
        depth_cost,
    }
}

/// The expansions that are entered for the children `kids`, in their order.
pub open spec fn entries_for(
    weights: InterestEvaluationWeights,
    depth_cost: int,
    parent: Board,
    location: Seq<ChessMove>,
    kids: Seq<(ChessMove, TreeView)>,
) -> Seq<EntryView> {
    Seq::new(kids.len(), |k: int| entry_for(weights, depth_cost, parent, location, kids[k]))
}

/// Whether every move of `kids` can be given its interest as a move from
/// `parent`.
pub open spec fn all_valued(
    weights: InterestEvaluationWeights,
    parent: Board,
    kids: Seq<(ChessMove, TreeView)>,
) -> bool {
    forall|k: int|
        0 <= k < kids.len() ==> interest(
            weights,
            (#[trigger] kids[k]).0,
            parent,
            kids[k].1.board,
        ) is Ok
}

/// Whether every move of `children` can be given its interest as a move from
/// `parent`. Where a move stands twice, the later position counts.
pub open spec fn playable(
    weights: InterestEvaluationWeights,
    parent: Board,
    children: Seq<(ChessMove, Board)>,
) -> bool {
    forall|j: int|
        0 <= j < children.len() && last_with(children, (#[trigger] children[j]).0, j) ==> interest(
            weights,
            children[j].0,
            parent,
            children[j].1,
        ) is Ok
}

/// The positions handed in are playable exactly when every child made of
/// them can be given its interest.
pub proof fn lemma_playable(
    weights: InterestEvaluationWeights,
    parent: Board,
    given: Seq<(ChessMove, Board)>,
    kids: Seq<(ChessMove, TreeView)>,
)
    requires
        made_of(given, kids),
    ensures
        playable(weights, parent, given) == all_valued(weights, parent, kids),
{
    if playable(weights, parent, given) {
        assert forall|k: int| 0 <= k < kids.len() implies interest(
            weights,
            (#[trigger] kids[k]).0,
            parent,
            kids[k].1.board,
        ) is Ok by {
            assert(from_last(given, kids[k]));
            let j = choose|j: int| #[trigger]
                last_with(given, kids[k].0, j) && kids[k].1 == (TreeView {
                    board: given[j].1,
                    kids: Seq::empty(),
                });
            assert(last_with(given, given[j].0, j));
        }
    }
    if all_valued(weights, parent, kids) {
        assert forall|j: int|
            0 <= j < given.len() && last_with(given, (#[trigger] given[j]).0, j) implies interest(
            weights,
            given[j].0,
            parent,
            given[j].1,
        ) is Ok by {
            assert(has_move(kids, given[j].0));
            let k = choose|k: int| 0 <= k < kids.len() && (#[trigger] kids[k]).0 == given[j].0;
            assert(from_last(given, kids[k]));
            let j2 = choose|j2: int| #[trigger]
                last_with(given, kids[k].0, j2) && kids[k].1 == (TreeView {
                    board: given[j2].1,
                    kids: Seq::empty(),
                });
            if j2 < j {
                assert(given[j].0 != kids[k].0);
            }
            if j < j2 {
                assert(given[j2].0 != given[j].0);
            }
        }
    }
}

/// Among the expansions entered for the children of a node, each expansion
/// that is fresh stands once and no other stands at all.
pub proof fn lemma_fresh_counts(
    weights: InterestEvaluationWeights,
    depth_cost: int,
    parent: Board,
    location: Seq<ChessMove>,
    kids: Seq<(ChessMove, TreeView)>,
    x: EntryView,
)
    requires
        keys_in_order(kids),
        all_valued(weights, parent, kids),
    ensures
        entries_for(weights, depth_cost, parent, location, kids).to_multiset().count(x) == if fresh(
            weights,
            depth_cost,
            parent,
            location,
            kids,
            x,
        ) {
            1int
        } else {
            0int
        },
{
    let ev = entries_for(weights, depth_cost, parent, location, kids);
    assert(ev.no_duplicates()) by {
        assert forall|a: int, b: int| 0 <= a < ev.len() && 0 <= b < ev.len() && a != b implies ev[a]
            != ev[b] by {
            if a < b {
                assert(kids[a].0.before(kids[b].0));
            } else {
                assert(kids[b].0.before(kids[a].0));
            }
            crate::chess::move_order_is_total(kids[a].0, kids[b].0, kids[a].0);
        }
    }
    ev.lemma_multiset_has_no_duplicates();
    vstd::seq_lib::to_multiset_contains(ev, x);
    if fresh(weights, depth_cost, parent, location, kids, x) {
        let k = choose|k: int|
            0 <= k < kids.len() && (#[trigger] kids[k]).0 == x.chess_move && interest(
                weights,
                x.chess_move,
                parent,
                kids[k].1.board,
            ) == Ok::<Score, BoardError>(x.value);
        assert(ev[k] == x);
        assert(ev.contains(x));
    }
    if ev.contains(x) {
        let k = choose|k: int| 0 <= k < ev.len() && ev[k] == x;
        assert(kids[k].0 == x.chess_move);
        assert(interest(weights, kids[k].0, parent, kids[k].1.board) is Ok);
    }
}

/// Giving the awaited node at `location` its children, and entering an
/// expansion for each child, keeps tree, frontier and awaited paths fitting
/// together.
pub proof fn lemma_expand_fits(
    tree: TreeView,
    bag: Multiset<EntryView>,
    awaited: Seq<Seq<ChessMove>>,
    at: int,
    kids: Seq<(ChessMove, TreeView)>,
    weights: InterestEvaluationWeights,
    depth_cost: int,
    after: Multiset<EntryView>,
)
    requires
        fits(tree, bag, awaited),
        0 <= at < awaited.len(),
        keys_in_order(kids),
        all_leaves(kids),
        forall|x: EntryView| #[trigger]
            after.count(x) == bag.count(x) + if fresh(
                weights,
                depth_cost,
                tree.descend(awaited[at]).unwrap().board,
                awaited[at],
                kids,
                x,
            ) {
                1int
            } else {
                0int
            },
    ensures
        fits(tree.with_children(awaited[at], kids), after, awaited.remove(at)),
{
    let location = awaited[at];
    let parent = tree.descend(location).unwrap().board;
    let grown = tree.with_children(location, kids);
    let rest = awaited.remove(at);
    assert(tree.leaf_at(location));
    crate::tree_laws::lemma_fill_sorted(tree, location, kids);
    assert forall|x: EntryView| fresh(weights, depth_cost, parent, location, kids, x) implies bag.count(
        x,
    ) == 0 && grown.leaf_at(x.path()) by {
        let i = choose|i: int|
            0 <= i < kids.len() && (#[trigger] kids[i]).0 == x.chess_move && interest(
                weights,
                x.chess_move,
                parent,
                kids[i].1.board,
            ) == Ok::<Score, BoardError>(x.value);
        lemma_fill_new_leaves(tree, location, kids, i);
        lemma_leaf_ends(tree, location, x.chess_move);
        if bag.count(x) > 0 {
            assert(tree.leaf_at(x.path()));
        }
    }
    assert forall|e: EntryView| #[trigger] after.count(e) > 0 implies grown.leaf_at(e.path()) by {
        if !fresh(weights, depth_cost, parent, location, kids, e) {
            assert(bag.count(e) > 0);
            assert(e.path() != awaited[at]);
            lemma_fill_keeps_leaves(tree, location, kids, e.path());
        }
    }
    assert forall|e: EntryView| #[trigger] after.count(e) <= 1 by {
        assert(bag.count(e) <= 1);
    }
    assert forall|a: EntryView, b: EntryView|
        #[trigger] after.count(a) > 0 && #[trigger] after.count(b) > 0 && a.path()
            == b.path() implies a == b by {
        let fa = fresh(weights, depth_cost, parent, location, kids, a);
        let fb = fresh(weights, depth_cost, parent, location, kids, b);
        assert(a.location == a.path().drop_last());
        assert(b.location == b.path().drop_last());
        assert(a.chess_move == a.path().last());
        assert(b.chess_move == b.path().last());
        if fa && fb {
            let i = choose|i: int|
                0 <= i < kids.len() && (#[trigger] kids[i]).0 == a.chess_move && interest(
                    weights,
                    a.chess_move,
                    parent,
                    kids[i].1.board,
                ) == Ok::<Score, BoardError>(a.value);
            let j = choose|j: int|
                0 <= j < kids.len() && (#[trigger] kids[j]).0 == b.chess_move && interest(
                    weights,
                    b.chess_move,
                    parent,
                    kids[j].1.board,
                ) == Ok::<Score, BoardError>(b.value);
            let node = TreeView { board: parent, kids };
            lemma_sorted_index(node, i);
            lemma_sorted_index(node, j);
            assert(i == j);
        } else if fa {
            assert(bag.count(b) > 0);
            lemma_leaf_ends(tree, location, a.chess_move);
            assert(tree.leaf_at(b.path()));
        } else if fb {
            assert(bag.count(a) > 0);
            lemma_leaf_ends(tree, location, b.chess_move);
            assert(tree.leaf_at(a.path()));
        } else {
            assert(bag.count(a) > 0 && bag.count(b) > 0);
        }
    }
    assert forall|i: int| 0 <= i < rest.len() implies grown.leaf_at(#[trigger] rest[i]) by {
        let k = if i < at {
            i
        } else {
            i + 1
        };
        assert(rest[i] == awaited[k]);
        assert(tree.leaf_at(awaited[k]));
        if k < at {
            assert(awaited[k] != awaited[at]);
        } else {
            assert(awaited[at] != awaited[k]);
        }
        lemma_fill_keeps_leaves(tree, location, kids, rest[i]);
    }
    assert forall|i: int, j: int| 0 <= i < j < rest.len() implies #[trigger] rest[i]
        != #[trigger] rest[j] by {
        let a = if i < at {
            i
        } else {
            i + 1
        };
        let b = if j < at {
            j
        } else {
            j + 1
        };
        assert(awaited[a] != awaited[b]);
    }
    assert forall|e: EntryView, i: int| #[trigger]
        after.count(e) > 0 && 0 <= i < rest.len() implies e.path() != #[trigger] rest[i] by {
        let k = if i < at {
            i
        } else {
            i + 1
        };
        assert(rest[i] == awaited[k]);
        if fresh(weights, depth_cost, parent, location, kids, e) {
            lemma_leaf_ends(tree, location, e.chess_move);
            assert(tree.leaf_at(awaited[k]));
        } else {
            assert(bag.count(e) > 0);
        }
    }
}

/// Whether `moved` holds what is left of `awaited` below the move `m`: the
/// paths that began with `m`, without it; and the empty path besides where
/// `root_awaited` says so.
pub open spec fn paths_advanced(
    awaited: Seq<Seq<ChessMove>>,
    m: ChessMove,
    root_awaited: bool,
    moved: Seq<Seq<ChessMove>>,
) -> bool {
    forall|p: Seq<ChessMove>| #[trigger]
        moved.contains(p) <==> (awaited.contains(seq![m] + p) || (p.len() == 0 && root_awaited))
}

/// Making the child that `m` leads to the root, and moving frontier and
/// awaited paths one move down, keeps the three fitting together.
pub proof fn lemma_commit_fits(
    tree: TreeView,
    bag: Multiset<EntryView>,
    awaited: Seq<Seq<ChessMove>>,
    m: ChessMove,
    after: Multiset<EntryView>,
    moved: Seq<Seq<ChessMove>>,
)
    requires
        fits(tree, bag, awaited),
        tree.has(m),
        forall|x: EntryView| #[trigger] after.count(x) == bag.count(x.prefixed(m)),
        paths_apart(moved),
        paths_advanced(awaited, m, tree.kids[tree.index_of(m)].1.leaf(), moved),
    ensures
        fits(tree.kids[tree.index_of(m)].1, after, moved),
{
    let k = tree.index_of(m);
    assert(tree.first_match(m, k));
    let root = tree.kids[k].1;
    assert(root.sorted());
    assert forall|x: EntryView| x.prefixed(m).path() == seq![m] + x.path() by {
        assert(x.prefixed(m).path() =~= seq![m] + x.path());
    }
    assert forall|x: EntryView| x.prefixed(m).stripped() == x by {
        assert(x.prefixed(m).location.drop_first() =~= x.location);
    }
    assert forall|e: EntryView| #[trigger] after.count(e) > 0 implies root.leaf_at(e.path()) by {
        assert(bag.count(e.prefixed(m)) > 0);
        lemma_descend_step(tree, m, e.path());
    }
    assert forall|e: EntryView| #[trigger] after.count(e) <= 1 by {
        assert(bag.count(e.prefixed(m)) <= 1);
    }
    assert forall|a: EntryView, b: EntryView|
        #[trigger] after.count(a) > 0 && #[trigger] after.count(b) > 0 && a.path()
            == b.path() implies a == b by {
        assert(bag.count(a.prefixed(m)) > 0 && bag.count(b.prefixed(m)) > 0);
        assert(a.prefixed(m) == b.prefixed(m));
        assert(a.prefixed(m).stripped() == a);
        assert(b.prefixed(m).stripped() == b);
    }
    assert forall|i: int| 0 <= i < moved.len() implies root.leaf_at(#[trigger] moved[i]) by {
        let p = moved[i];
        assert(moved.contains(p));
        if awaited.contains(seq![m] + p) {
            let j = choose|j: int| 0 <= j < awaited.len() && awaited[j] == seq![m] + p;
            assert(tree.leaf_at(awaited[j]));
            lemma_descend_step(tree, m, p);
        } else {
            assert(p.len() == 0 && root.leaf());
            assert(root.descend(p) == Some(root));
        }
    }
    assert forall|e: EntryView, i: int| #[trigger]
        after.count(e) > 0 && 0 <= i < moved.len() implies e.path() != #[trigger] moved[i] by {
        let p = moved[i];
        assert(moved.contains(p));
        assert(bag.count(e.prefixed(m)) > 0);
        if awaited.contains(seq![m] + p) {
            let j = choose|j: int| 0 <= j < awaited.len() && awaited[j] == seq![m] + p;
            assert(e.prefixed(m).path() != awaited[j]);
        } else {
            assert(e.path().len() > 0);
        }
    }
}

/// The frontier after the children `kids` of the node at `location` were
/// entered.
pub open spec fn entered(
    tree: TreeView,
    bag: Multiset<EntryView>,
    weights: InterestEvaluationWeights,
    depth_cost: int,
    location: Seq<ChessMove>,
    kids: Seq<(ChessMove, TreeView)>,
) -> Multiset<EntryView> {
    bag.add(
        entries_for(
            weights,
            depth_cost,
            tree.descend(location).unwrap().board,
            location,
            kids,
        ).to_multiset(),
    )
}

/// The order in which two awaited nodes are expanded does not matter: either
/// order grows the same tree and enters the same expansions. So workers that
/// expand different nodes side by side leave what one worker would leave.
pub proof fn expansion_order_is_free(
    tree: TreeView,
    bag: Multiset<EntryView>,
    weights: InterestEvaluationWeights,
    depth_cost: int,
    first: Seq<ChessMove>,
    first_kids: Seq<(ChessMove, TreeView)>,
    second: Seq<ChessMove>,
    second_kids: Seq<(ChessMove, TreeView)>,
)
    requires
        tree.leaf_at(first),
        tree.leaf_at(second),
        first != second,
    ensures
        tree.with_children(first, first_kids).with_children(second, second_kids)
            == tree.with_children(second, second_kids).with_children(first, first_kids),
        entered(
            tree.with_children(first, first_kids),
            entered(tree, bag, weights, depth_cost, first, first_kids),
            weights,
            depth_cost,
            second,
            second_kids,
        ) == entered(
            tree.with_children(second, second_kids),
            entered(tree, bag, weights, depth_cost, second, second_kids),
            weights,
            depth_cost,
            first,
            first_kids,
        ),
{
    broadcast use vstd::multiset::group_multiset_axioms;

    fill_order_is_free(tree, first, first_kids, second, second_kids);
    lemma_fill_keeps_node(tree, first, first_kids, second);
    lemma_fill_keeps_node(tree, second, second_kids, first);
    let a = entries_for(
        weights,
        depth_cost,
        tree.descend(first).unwrap().board,
        first,
        first_kids,
    ).to_multiset();
    let b = entries_for(
        weights,
        depth_cost,
        tree.descend(second).unwrap().board,
        second,
        second_kids,
    ).to_multiset();
    assert(bag.add(a).add(b) =~= bag.add(b).add(a));
}

} // verus!
