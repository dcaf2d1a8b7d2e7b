//! What giving a node its children changes in a tree, and what it leaves.

use crate::chess::{move_order_is_total, ChessMove};
use crate::tree::TreeView;
use vstd::prelude::*;

verus! {

/// Whether every one of `kids` is a node without children.
pub open spec fn all_leaves(kids: Seq<(ChessMove, TreeView)>) -> bool {
    forall|i: int| 0 <= i < kids.len() ==> (#[trigger] kids[i]).1.leaf()
}

/// Whether the moves of `kids` stand in their order, none twice.
pub open spec fn keys_in_order(kids: Seq<(ChessMove, TreeView)>) -> bool {
    forall|i: int, j: int|
        0 <= i < j < kids.len() ==> (#[trigger] kids[i]).0.before((#[trigger] kids[j]).0)
}

/// In a node whose moves stand in their order, each child is the first that
/// its move leads to.
pub proof fn lemma_sorted_index(t: TreeView, i: int)
    requires
        t.keys_sorted(),
        0 <= i < t.kids.len(),
    ensures
        t.first_match(t.kids[i].0, i),
        t.has(t.kids[i].0),
        t.index_of(t.kids[i].0) == i,
{
    assert forall|j: int| 0 <= j < i implies (#[trigger] t.kids[j]).0 != t.kids[i].0 by {
        move_order_is_total(t.kids[j].0, t.kids[i].0, t.kids[i].0);
    }
    assert(t.first_match(t.kids[i].0, i));
    let k = t.index_of(t.kids[i].0);
    assert(t.first_match(t.kids[i].0, k));
}

/// Replacing the subtree of one child leaves every move where it was.
pub proof fn lemma_update_keeps_index(t: TreeView, i: int, sub: TreeView, m: ChessMove)
    requires
        0 <= i < t.kids.len(),
    ensures
        (TreeView { board: t.board, kids: t.kids.update(i, (t.kids[i].0, sub)) }).has(m) == t.has(
            m,
        ),
        t.has(m) ==> (TreeView { board: t.board, kids: t.kids.update(i, (t.kids[i].0, sub)) }).index_of(
            m,
        ) == t.index_of(m),
{
    let u = TreeView { board: t.board, kids: t.kids.update(i, (t.kids[i].0, sub)) };
    assert forall|k: int| u.first_match(m, k) == t.first_match(m, k) by {
        if u.first_match(m, k) {
            assert forall|j: int| 0 <= j < k implies (#[trigger] t.kids[j]).0 != m by {
                assert(u.kids[j].0 != m);
            }
        }
        if t.first_match(m, k) {
            assert forall|j: int| 0 <= j < k implies (#[trigger] u.kids[j]).0 != m by {
                assert(t.kids[j].0 != m);
            }
        }
    }
    if t.has(m) {
        let a = t.index_of(m);
        let b = u.index_of(m);
        assert(t.first_match(m, a));
        assert(u.first_match(m, a));
        assert(u.first_match(m, b));
        assert(t.first_match(m, b));
    }
    if u.has(m) {
        let b = u.index_of(m);
        assert(u.first_match(m, b));
        assert(t.first_match(m, b));
    }
}

/// A tree in order stays in order when a node is given children in order.
pub proof fn lemma_fill_sorted(t: TreeView, path: Seq<ChessMove>, kids: Seq<(ChessMove, TreeView)>)
    requires
        t.sorted(),
        keys_in_order(kids),
        all_leaves(kids),
    ensures
        t.with_children(path, kids).sorted(),
    decreases path.len(),
{
    let u = t.with_children(path, kids);
    if path.len() == 0 {
        assert forall|i: int| 0 <= i < u.kids.len() implies (#[trigger] u.kids[i]).1.sorted() by {
            assert(kids[i].1.leaf());
        }
    } else if t.has(path[0]) {
        let i = t.index_of(path[0]);
        assert(t.first_match(path[0], i));
        assert(t.kids[i].1.sorted());
        lemma_fill_sorted(t.kids[i].1, path.drop_first(), kids);
        assert forall|a: int, b: int| 0 <= a < b < u.kids.len() implies (#[trigger] u.kids[a]).0.before(
            (#[trigger] u.kids[b]).0,
        ) by {
            assert(t.kids[a].0.before(t.kids[b].0));
        }
        assert forall|k: int| 0 <= k < u.kids.len() implies (#[trigger] u.kids[k]).1.sorted() by {
            if k != i {
                assert(t.kids[k].1.sorted());
            }
        }
    }
}

/// The node that was given children holds them, and its position as before.
pub proof fn lemma_fill_reads(t: TreeView, path: Seq<ChessMove>, kids: Seq<(ChessMove, TreeView)>)
    requires
        t.descend(path).is_some(),
    ensures
        t.with_children(path, kids).descend(path) == Some(
            TreeView { board: t.descend(path).unwrap().board, kids },
        ),
    decreases path.len(),
{
    if path.len() > 0 {
        let i = t.index_of(path[0]);
        assert(t.first_match(path[0], i));
        lemma_fill_reads(t.kids[i].1, path.drop_first(), kids);
        lemma_update_keeps_index(
            t,
            i,
            t.kids[i].1.with_children(path.drop_first(), kids),
            path[0],
        );
    }
}

/// No path leads on from a node without children.
pub proof fn lemma_leaf_ends(t: TreeView, path: Seq<ChessMove>, m: ChessMove)
    requires
        t.leaf_at(path),
    ensures
        t.descend(path.push(m)).is_none(),
    decreases path.len(),
{
    if path.len() == 0 {
        assert(path.push(m)[0] == m);
        if t.has(m) {
            assert(t.first_match(m, t.index_of(m)));
        }
    } else {
        let i = t.index_of(path[0]);
        assert(path.push(m)[0] == path[0]);
        assert(path.push(m).drop_first() == path.drop_first().push(m));
        lemma_leaf_ends(t.kids[i].1, path.drop_first(), m);
    }
}

/// Each child that a node was given is reached by its move and has no
/// children.
pub proof fn lemma_fill_new_leaves(
    t: TreeView,
    path: Seq<ChessMove>,
    kids: Seq<(ChessMove, TreeView)>,
    i: int,
)
    requires
        t.descend(path).is_some(),
        keys_in_order(kids),
        all_leaves(kids),
        0 <= i < kids.len(),
    ensures
        t.with_children(path, kids).leaf_at(path.push(kids[i].0)),
    decreases path.len(),
{
    let u = t.with_children(path, kids);
    let m = kids[i].0;
    if path.len() == 0 {
        assert(path.push(m)[0] == m);
        assert(path.push(m).drop_first() == Seq::<ChessMove>::empty());
        assert(u.keys_sorted());
        lemma_sorted_index(u, i);
        assert(kids[i].1.leaf());
        assert(kids[i].1.descend(Seq::<ChessMove>::empty()) == Some(kids[i].1));
        assert(u.descend(path.push(m)) == u.kids[i].1.descend(path.push(m).drop_first()));
    } else {
        let k = t.index_of(path[0]);
        assert(t.first_match(path[0], k));
        assert(path.push(m)[0] == path[0]);
        assert(path.push(m).drop_first() == path.drop_first().push(m));
        lemma_fill_new_leaves(t.kids[k].1, path.drop_first(), kids, i);
        lemma_update_keeps_index(
            t,
            k,
            t.kids[k].1.with_children(path.drop_first(), kids),
            path[0],
        );
        assert(u.has(path[0]) && u.index_of(path[0]) == k);
        assert(u.descend(path.push(m)) == u.kids[k].1.descend(path.push(m).drop_first()));
    }
}

/// Giving children to a node without children leaves every other node
/// without children as it was.
pub proof fn lemma_fill_keeps_leaves(
    t: TreeView,
    path: Seq<ChessMove>,
    kids: Seq<(ChessMove, TreeView)>,
    other: Seq<ChessMove>,
)
    requires
        t.leaf_at(path),
        t.leaf_at(other),
        other != path,
    ensures
        t.with_children(path, kids).leaf_at(other),
    decreases path.len(),
{
    let u = t.with_children(path, kids);
    if path.len() == 0 {
        assert(other.len() > 0) by {
            if other.len() == 0 {
                assert(other =~= path);
            }
        }
        if t.has(other[0]) {
            assert(t.first_match(other[0], t.index_of(other[0])));
        }
    } else if other.len() == 0 {
        assert(t.first_match(path[0], t.index_of(path[0])));
    } else {
        let k = t.index_of(path[0]);
        assert(t.first_match(path[0], k));
        let sub = t.kids[k].1.with_children(path.drop_first(), kids);
        lemma_update_keeps_index(t, k, sub, other[0]);
        let j = t.index_of(other[0]);
        assert(t.first_match(other[0], j));
        if other[0] == path[0] {
            assert(other.drop_first() != path.drop_first()) by {
                if other.drop_first() == path.drop_first() {
                    assert(other =~= seq![other[0]] + other.drop_first());
                    assert(path =~= seq![path[0]] + path.drop_first());
                }
            }
            lemma_fill_keeps_leaves(t.kids[k].1, path.drop_first(), kids, other.drop_first());
        } else {
            assert(j != k);
            assert(u.kids[j] == t.kids[j]);
        }
    }
}

/// The node that a path leads to from a child is the node that the path with
/// the child's move before it leads to from the parent.
pub proof fn lemma_descend_step(t: TreeView, m: ChessMove, path: Seq<ChessMove>)
    requires
        t.has(m),
    ensures
        t.descend(seq![m] + path) == t.kids[t.index_of(m)].1.descend(path),
{
    assert((seq![m] + path)[0] == m);
    assert((seq![m] + path).drop_first() == path);
}

/// Giving children to one node without children does not change what another
/// path leads to, as long as that path does not pass the node.
pub proof fn lemma_fill_keeps_node(
    t: TreeView,
    path: Seq<ChessMove>,
    kids: Seq<(ChessMove, TreeView)>,
    other: Seq<ChessMove>,
)
    requires
        t.leaf_at(path),
        t.leaf_at(other),
        other != path,
    ensures
        t.with_children(path, kids).descend(other) == t.descend(other),
    decreases path.len(),
{
    let u = t.with_children(path, kids);
    if path.len() == 0 {
        assert(other.len() > 0) by {
            if other.len() == 0 {
                assert(other =~= path);
            }
        }
        if t.has(other[0]) {
            assert(t.first_match(other[0], t.index_of(other[0])));
        }
    } else if other.len() == 0 {
        assert(t.first_match(path[0], t.index_of(path[0])));
    } else {
        let k = t.index_of(path[0]);
        assert(t.first_match(path[0], k));
        let sub = t.kids[k].1.with_children(path.drop_first(), kids);
        lemma_update_keeps_index(t, k, sub, other[0]);
        let j = t.index_of(other[0]);
        assert(t.first_match(other[0], j));
        if other[0] == path[0] {
            assert(other.drop_first() != path.drop_first()) by {
                if other.drop_first() == path.drop_first() {
                    assert(other =~= seq![other[0]] + other.drop_first());
                    assert(path =~= seq![path[0]] + path.drop_first());
                }
            }
            lemma_fill_keeps_node(t.kids[k].1, path.drop_first(), kids, other.drop_first());
        } else {
            assert(j != k);
            assert(u.kids[j] == t.kids[j]);
        }
    }
}

/// The order in which two nodes without children are given their children
/// does not matter: either order grows the same tree.
pub proof fn fill_order_is_free(
    t: TreeView,
    first: Seq<ChessMove>,
    first_kids: Seq<(ChessMove, TreeView)>,
    second: Seq<ChessMove>,
    second_kids: Seq<(ChessMove, TreeView)>,
)
    requires
        t.leaf_at(first),
        t.leaf_at(second),
        first != second,
    ensures
        t.with_children(first, first_kids).with_children(second, second_kids) == t.with_children(
            second,
            second_kids,
        ).with_children(first, first_kids),
    decreases first.len(),
{
    let a = t.with_children(first, first_kids);
    let b = t.with_children(second, second_kids);
    let ab = a.with_children(second, second_kids);
    let ba = b.with_children(first, first_kids);
    if first.len() == 0 {
        assert(second.len() > 0) by {
            if second.len() == 0 {
                assert(second =~= first);
            }
        }
        if t.has(second[0]) {
            assert(t.first_match(second[0], t.index_of(second[0])));
        }
    } else if second.len() == 0 {
        assert(t.first_match(first[0], t.index_of(first[0])));
    } else {
        let i = t.index_of(first[0]);
        let j = t.index_of(second[0]);
        assert(t.first_match(first[0], i));
        assert(t.first_match(second[0], j));
        let sub_a = t.kids[i].1.with_children(first.drop_first(), first_kids);
        let sub_b = t.kids[j].1.with_children(second.drop_first(), second_kids);
        lemma_update_keeps_index(t, i, sub_a, second[0]);
        lemma_update_keeps_index(t, j, sub_b, first[0]);
        if first[0] == second[0] {
            assert(first.drop_first() != second.drop_first()) by {
                if first.drop_first() == second.drop_first() {
                    assert(first =~= seq![first[0]] + first.drop_first());
                    assert(second =~= seq![second[0]] + second.drop_first());
                }
            }
            fill_order_is_free(
                t.kids[i].1,
                first.drop_first(),
                first_kids,
                second.drop_first(),
                second_kids,
            );
            assert(ab.kids =~= ba.kids);
        } else {
            assert(i != j);
            assert(ab.kids =~= ba.kids);
        }
    }
}

/// The number of nodes of a tree that have children.
pub open spec fn inner_count(t: TreeView) -> nat
    decreases t, 1int, 0int,
{
    if t.leaf() {
        0
    } else {
        1 + inner_upto(t, t.kids.len() as int)
    }
}

/// The number of nodes with children below the first `n` children of a
/// node.
pub open spec fn inner_upto(t: TreeView, n: int) -> nat
    decreases t, 0int, n,
{
    if n <= 0 || n > t.kids.len() {
        0
    } else {
        inner_upto(t, n - 1) + inner_count(t.kids[n - 1].1)
    }
}

proof fn lemma_leaves_count_nothing(t: TreeView, n: int)
    requires
        all_leaves(t.kids),
        0 <= n <= t.kids.len(),
    ensures
        inner_upto(t, n) == 0,
    decreases n,
{
    if n > 0 {
        lemma_leaves_count_nothing(t, n - 1);
        assert(t.kids[n - 1].1.leaf());
        assert(inner_count(t.kids[n - 1].1) == 0);
        assert(inner_upto(t, n) == inner_upto(t, n - 1) + inner_count(t.kids[n - 1].1));
    }
}

proof fn lemma_update_counts(t: TreeView, i: int, sub: TreeView, n: int)
    requires
        0 <= i < t.kids.len(),
        0 <= n <= t.kids.len(),
    ensures
        inner_upto(TreeView { board: t.board, kids: t.kids.update(i, (t.kids[i].0, sub)) }, n)
            + (if n > i {
            inner_count(t.kids[i].1)
        } else {
            0
        }) == inner_upto(t, n) + (if n > i {
            inner_count(sub)
        } else {
            0
        }),
    decreases n,
{
    if n > 0 {
        lemma_update_counts(t, i, sub, n - 1);
    }
}

/// Giving a node without children at least one child, each without children
/// of its own, adds exactly one to the nodes that have children.
pub proof fn fill_adds_one_inner(t: TreeView, path: Seq<ChessMove>, kids: Seq<(ChessMove, TreeView)>)
    requires
        t.leaf_at(path),
        kids.len() > 0,
        all_leaves(kids),
    ensures
        inner_count(t.with_children(path, kids)) == inner_count(t) + 1,
    decreases path.len(),
{
    let u = t.with_children(path, kids);
    if path.len() == 0 {
        lemma_leaves_count_nothing(u, kids.len() as int);
    } else {
        let i = t.index_of(path[0]);
        assert(t.first_match(path[0], i));
        let sub = t.kids[i].1.with_children(path.drop_first(), kids);
        fill_adds_one_inner(t.kids[i].1, path.drop_first(), kids);
        lemma_update_counts(t, i, sub, t.kids.len() as int);
    }
}

} // verus!
