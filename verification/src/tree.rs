//! The tree of positions that the engine has grown.

use crate::board::Board;
use crate::chess::ChessMove;
use std::collections::VecDeque;
use vstd::prelude::*;

verus! {

/// A node of the tree: a position, and the positions that follow from it by
/// one move, in the order of the moves.
#[derive(Debug)]
pub struct MoveTree {
    pub board_state: Board,
    pub moves: Vec<(ChessMove, MoveTree)>,
}

/// What a tree holds, as plain values.
pub struct TreeView {
    pub board: Board,
    pub kids: Seq<(ChessMove, TreeView)>,
}

impl TreeView {
    /// Whether the node has no children.
    pub open spec fn leaf(self) -> bool {
        self.kids.len() == 0
    }

    /// Whether the moves of the children stand in their order, none twice.
    pub open spec fn keys_sorted(self) -> bool {
        forall|i: int, j: int|
            0 <= i < j < self.kids.len() ==> (#[trigger] self.kids[i]).0.before(
                (#[trigger] self.kids[j]).0,
            )
    }

    /// Whether `keys_sorted` holds of every node of the tree.
    pub open spec fn sorted(self) -> bool
        decreases self,
    {
        &&& self.keys_sorted()
        &&& forall|i: int| 0 <= i < self.kids.len() ==> (#[trigger] self.kids[i]).1.sorted()
    }

    /// Whether the `i`-th child is the first that `m` leads to.
    pub open spec fn first_match(self, m: ChessMove, i: int) -> bool {
        &&& 0 <= i < self.kids.len()
        &&& self.kids[i].0 == m
        &&& forall|j: int| 0 <= j < i ==> (#[trigger] self.kids[j]).0 != m
    }

    /// Whether `m` leads to a child.
    pub open spec fn has(self, m: ChessMove) -> bool {
        exists|i: int| self.first_match(m, i)
    }

    /// The place of the child that `m` leads to.
    pub open spec fn index_of(self, m: ChessMove) -> int {
        choose|i: int| self.first_match(m, i)
    }

    /// The node that `path` leads to from this one, if it leads to one.
    pub open spec fn descend(self, path: Seq<ChessMove>) -> Option<TreeView>
        decreases path.len(),
    {
        if path.len() == 0 {
            Some(self)
        } else if self.has(path[0]) {
            self.kids[self.index_of(path[0])].1.descend(path.drop_first())
        } else {
            None
        }
    }

    /// Whether `path` leads to a node without children.
    pub open spec fn leaf_at(self, path: Seq<ChessMove>) -> bool {
        self.descend(path) matches Some(node) && node.leaf()
    }

    /// The tree in which the node at `path` has the children `kids`, and all
    /// else is as in this one. Where `path` leads nowhere, this tree.
    pub open spec fn with_children(
        self,
        path: Seq<ChessMove>,
        kids: Seq<(ChessMove, TreeView)>,
    ) -> TreeView
        decreases path.len(),
    {
        if path.len() == 0 {
            TreeView { board: self.board, kids }
        } else if self.has(path[0]) {
            let i = self.index_of(path[0]);
            TreeView {
                board: self.board,
                kids: self.kids.update(
                    i,
                    (self.kids[i].0, self.kids[i].1.with_children(path.drop_first(), kids)),
                ),
            }
        } else {
            self
        }
    }
}

/// The lines of a listing of the tree below a node at `depth`: for each
/// child, in their order, its depth and its move, then the lines of the tree
/// below the child. Nothing is listed beyond `max_depth`.
pub open spec fn lines(tree: TreeView, depth: int, max_depth: int) -> Seq<(i32, ChessMove)>
    decreases tree, 1int, 0int,
{
    if depth > max_depth {
        Seq::empty()
    } else {
        lines_upto(tree, depth, max_depth, tree.kids.len() as int)
    }
}

/// The lines of the first `n` children of a node.
pub open spec fn lines_upto(tree: TreeView, depth: int, max_depth: int, n: int) -> Seq<
    (i32, ChessMove),
>
    decreases tree, 0int, n,
{
    if n <= 0 || n > tree.kids.len() {
        Seq::empty()
    } else {
        lines_upto(tree, depth, max_depth, n - 1).push((depth as i32, tree.kids[n - 1].0)) + lines(
            tree.kids[n - 1].1,
            depth + 1,
            max_depth,
        )
    }
}

/// The views of the children of a node.
pub open spec fn kid_views(s: Seq<(ChessMove, MoveTree)>) -> Seq<(ChessMove, TreeView)> {
    Seq::new(s.len(), |i: int| (s[i].0, s[i].1@))
}

impl View for MoveTree {
    type V = TreeView;

    open spec fn view(&self) -> TreeView {
        self.model()
    }
}

impl MoveTree {
    /// What the tree holds, as plain values.
    pub open spec fn model(self) -> TreeView
        decreases self,
    {
        TreeView {
            board: self.board_state,
            kids: Seq::new(
                self.moves@.len(),
                |i: int|
                    if 0 <= i < self.moves@.len() {
                        (self.moves@[i].0, self.moves@[i].1.model())
                    } else {
                        arbitrary()
                    },
            ),
        }
    }

    /// What the view of a node holds: its position, and for each child its
    /// move and its view.
    pub proof fn lemma_view(self)
        ensures
            self@.board == self.board_state,
            self@.kids.len() == self.moves@.len(),
            forall|i: int|
                0 <= i < self.moves@.len() ==> #[trigger] self@.kids[i] == (
                    self.moves@[i].0,
                    self.moves@[i].1@,
                ),
    {
    }

    /// A node without children.
    pub fn new(board_state: Board) -> (r: MoveTree)
        ensures
            r@ == (TreeView { board: board_state, kids: Seq::empty() }),
    {
        let r = MoveTree { board_state, moves: Vec::new() };
        proof {
            r.lemma_view();
            assert(r@.kids =~= Seq::empty());
        }
        r
    }

    /// Whether the node has no children.
    pub fn is_leaf(&self) -> (r: bool)
        ensures
            r == self@.leaf(),
    {
        proof {
            self.lemma_view();
        }
        self.moves.len() == 0
    }

    /// The place of the child that `m` leads to, if it leads to one.
    pub fn find(&self, m: &ChessMove) -> (r: Option<usize>)
        ensures
            r.is_some() == self@.has(*m),
            r matches Some(i) ==> i == self@.index_of(*m) && self@.first_match(*m, i as int),
    {
        proof {
            self.lemma_view();
        }
        let mut i: usize = 0;
        while i < self.moves.len()
            invariant
                i <= self.moves.len(),
                self@.kids.len() == self.moves@.len(),
                forall|j: int|
                    0 <= j < self.moves@.len() ==> #[trigger] self@.kids[j] == (
                        self.moves@[j].0,
                        self.moves@[j].1@,
                    ),
                forall|j: int| 0 <= j < i ==> (#[trigger] self@.kids[j]).0 != *m,
            decreases self.moves.len() - i,
        {
            if self.moves[i].0 == *m {
                assert(self@.kids[i as int].0 == *m);
                assert(self@.first_match(*m, i as int));
                proof {
                    let k = self@.index_of(*m);
                    assert(self@.first_match(*m, k));
                    assert(k == i);
                }
                return Some(i);
            }
            assert(self@.kids[i as int].0 != *m);
            i += 1;
        }
        proof {
            if self@.has(*m) {
                let k = self@.index_of(*m);
                assert(self@.first_match(*m, k));
                assert(self@.kids[k].0 != *m);
            }
        }
        None
    }

    /// The node that `location` leads to, if it leads to one.
    pub fn node_at(&self, location: &VecDeque<ChessMove>) -> (r: Option<&MoveTree>)
        ensures
            r.is_some() == self@.descend(location@).is_some(),
            r matches Some(node) ==> self@.descend(location@) == Some(node@),
    {
        let mut current: &MoveTree = self;
        let mut i: usize = 0;
        assert(location@.subrange(0, location@.len() as int) == location@);
        while i < location.len()
            invariant
                i <= location.len(),
                self@.descend(location@) == current@.descend(
                    location@.subrange(i as int, location@.len() as int),
                ),
            decreases location.len() - i,
        {
            let ghost rest = location@.subrange(i as int, location@.len() as int);
            assert(rest.drop_first() == location@.subrange(i + 1, location@.len() as int));
            assert(rest[0] == location@[i as int]);
            match current.find(&location[i]) {
                Some(k) => {
                    proof {
                        current.lemma_view();
                    }
                    current = &current.moves[k].1;
                },
                None => {
                    return None;
                },
            }
            i += 1;
        }
        Some(current)
    }

    /// Gives the node that `location` leads to, from its `from`-th move on,
    /// the children `children`. Says whether the path led to a node; where it
    /// did not, the tree is as it was.
    pub(crate) fn fill(
        &mut self,
        location: &VecDeque<ChessMove>,
        from: usize,
        children: Vec<(ChessMove, MoveTree)>,
    ) -> (r: bool)
        requires
            from <= location.len(),
        ensures
            r == old(self)@.descend(
                location@.subrange(from as int, location@.len() as int),
            ).is_some(),
            final(self)@ == old(self)@.with_children(
                location@.subrange(from as int, location@.len() as int),
                kid_views(children@),
            ),
        decreases location.len() - from,
    {
        let ghost path = location@.subrange(from as int, location@.len() as int);
        proof {
            self.lemma_view();
        }
        if from == location.len() {
            self.moves = children;
            proof {
                self.lemma_view();
                assert(self@.kids =~= kid_views(children@));
            }
            return true;
        }
        assert(path.drop_first() == location@.subrange(from + 1, location@.len() as int));
        assert(path[0] == location@[from as int]);
        match self.find(&location[from]) {
            None => false,
            Some(i) => {
                let ghost before = *self;
                let r = self.moves[i].1.fill(location, from + 1, children);
                proof {
                    self.lemma_view();
                    before.lemma_view();
                    assert(self@.kids =~= before@.kids.update(
                        i as int,
                        (
                            before@.kids[i as int].0,
                            before@.kids[i as int].1.with_children(
                                path.drop_first(),
                                kid_views(children@),
                            ),
                        ),
                    ));
                }
                r
            },
        }
    }

    /// Lists the tree below this node for printing: each line holds the depth
    /// of a move, counted from `depth`, and the move.
    pub fn print_tree(&self, depth: i32, max_depth: i32) -> (r: Vec<(i32, ChessMove)>)
        ensures
            r@ == lines(self@, depth as int, max_depth as int),
    {
        let mut out: Vec<(i32, ChessMove)> = Vec::new();
        self.list(depth, max_depth, &mut out);
        assert(out@ =~= lines(self@, depth as int, max_depth as int));
        out
    }

    fn list(&self, depth: i32, max_depth: i32, out: &mut Vec<(i32, ChessMove)>)
        ensures
            final(out)@ == old(out)@ + lines(self@, depth as int, max_depth as int),
        decreases self,
    {
        proof {
            self.lemma_view();
        }
        if depth > max_depth {
            assert(out@ =~= old(out)@ + lines(self@, depth as int, max_depth as int));
            return ;
        }
        let mut i: usize = 0;
        assert(out@ =~= old(out)@ + lines_upto(self@, depth as int, max_depth as int, 0));
        while i < self.moves.len()
            invariant
                i <= self.moves.len(),
                depth <= max_depth,
                self@.kids.len() == self.moves@.len(),
                forall|k: int|
                    0 <= k < self.moves@.len() ==> #[trigger] self@.kids[k] == (
                        self.moves@[k].0,
                        self.moves@[k].1@,
                    ),
                out@ == old(out)@ + lines_upto(self@, depth as int, max_depth as int, i as int),
            decreases self.moves.len() - i,
        {
            let ghost before = out@;
            out.push((depth, self.moves[i].0));
            if depth < max_depth {
                self.moves[i].1.list(depth + 1, max_depth, out);
            }
            proof {
                let child = self@.kids[i as int].1;
                assert(depth == max_depth ==> lines(child, depth + 1, max_depth as int)
                    =~= Seq::<(i32, ChessMove)>::empty());
                assert(out@ =~= old(out)@ + lines_upto(
                    self@,
                    depth as int,
                    max_depth as int,
                    i + 1,
                ));
            }
            i += 1;
        }
    }
}

} // verus!
