//! The engine: the tree, the frontier, and the operations that keep the two
//! together.

use crate::arrange::{arrange, made_of};
use crate::board::Board;
use crate::chess::{ChessMove, Color};
use crate::entry::{
    copy_path, entry_order_is_total, same_path, views, EntryView, ValuedChessMove,
    ValuedMoveLocation,
};
use crate::eval::Eval;
use crate::fitting::{
    all_valued, entered, entries_for, entry_for, fits, fresh, lemma_commit_fits, lemma_expand_fits,
    lemma_fresh_counts, lemma_playable, lemma_take_fits, paths_advanced, paths_apart, playable,
};
use crate::frontier::Frontier;
use crate::interest::{evaluate_interest, interest};
use crate::minimax::{minimax_move_is_child, minimax_value};
use crate::tree::{kid_views, MoveTree, TreeView};
use crate::weights::{
    EngineError, InterestEvaluationWeights, MinimaxSettings, StaticEvaluationWeights,
};
use std::collections::VecDeque;
use vstd::multiset::Multiset;
use vstd::prelude::*;

verus! {

/// A chess engine that explores the most interesting positions first.
///
/// The engine does not know the rules of chess. Where a node is to be
/// expanded, it names the node (`think_next_move`, `make_move`), and its
/// caller hands in the positions that follow from it (`generate_all_moves`).
#[derive(Debug)]
pub struct Engine {
    moves: Frontier,
    move_tree: MoveTree,
    static_eval_weights: StaticEvaluationWeights,
    interest_eval_weights: InterestEvaluationWeights,
    minimax_settings: MinimaxSettings,
    pending: Vec<VecDeque<ChessMove>>,
}

/// The paths that a list of paths holds.
pub open spec fn paths_of(s: Seq<VecDeque<ChessMove>>) -> Seq<Seq<ChessMove>> {
    Seq::new(s.len(), |i: int| s[i]@)
}

/// Values the children of a node: for each child the expansion that is
/// entered for it, or `None` where the move of one cannot be given its
/// interest.
fn value_children(
    weights: &InterestEvaluationWeights,
    depth_cost: i32,
    parent: &Board,
    location: &VecDeque<ChessMove>,
    kids: &Vec<(ChessMove, MoveTree)>,
) -> (r: Option<Vec<ValuedMoveLocation>>)
    ensures
        r.is_some() == all_valued(*weights, *parent, kid_views(kids@)),
        r matches Some(entries) ==> views(entries@) == entries_for(
            *weights,
            depth_cost as int,
            *parent,
            location@,
            kid_views(kids@),
        ),
{
    let ghost kv = kid_views(kids@);
    let mut entries: Vec<ValuedMoveLocation> = Vec::new();
    let mut i: usize = 0;
    while i < kids.len()
        invariant
            i <= kids.len(),
            entries.len() == i,
            kv == kid_views(kids@),
            forall|k: int|
                0 <= k < i ==> (#[trigger] entries@[k])@ == entry_for(
                    *weights,
                    depth_cost as int,
                    *parent,
                    location@,
                    kv[k],
                ),
            forall|k: int|
                0 <= k < i ==> interest(*weights, (#[trigger] kv[k]).0, *parent, kv[k].1.board) is Ok,
        decreases kids.len() - i,
    {
        proof {
            kids@[i as int].1.lemma_view();
        }
        match evaluate_interest(weights, &kids[i].0, parent, &kids[i].1.board_state) {
            Ok(value) => {
                entries.push(
                    ValuedMoveLocation {
                        valued_move: ValuedChessMove { chess_move: kids[i].0, value },
                        location: copy_path(location),
                        depth_cost,
                    },
                );
            },
            Err(_) => {
                assert(!(interest(*weights, kv[i as int].0, *parent, kv[i as int].1.board) is Ok));
                return None;
            },
        }
        i += 1;
    }
    assert(views(entries@) =~= entries_for(*weights, depth_cost as int, *parent, location@, kv));
    Some(entries)
}

/// Moves a list of paths one move down: drops the paths that do not begin
/// with `m`, and takes `m` off the others.
fn advance_paths(pending: Vec<VecDeque<ChessMove>>, m: &ChessMove) -> (r: Vec<
    VecDeque<ChessMove>,
>)
    ensures
        forall|p: Seq<ChessMove>| #[trigger]
            paths_of(r@).contains(p) <==> paths_of(pending@).contains(seq![*m] + p),
        paths_apart(paths_of(pending@)) ==> paths_apart(paths_of(r@)),
{
    let ghost given = paths_of(pending@);
    let mut pending = pending;
    let mut kept: Vec<VecDeque<ChessMove>> = Vec::new();
    while pending.len() > 0
        invariant
            pending@.len() <= given.len(),
            paths_of(pending@) == given.subrange(0, pending@.len() as int),
            forall|p: Seq<ChessMove>| #[trigger]
                paths_of(kept@).contains(p) <==> exists|k: int|
                    pending@.len() <= k < given.len() && given[k] == seq![*m] + p,
            paths_apart(given) ==> paths_apart(paths_of(kept@)),
        decreases pending.len(),
    {
        let ghost n = pending@.len() - 1;
        let ghost before = paths_of(kept@);
        let mut path = pending.pop().unwrap();
        let ghost whole = path@;
        proof {
            assert(paths_of(pending@) =~= given.subrange(0, n));
            assert(whole == given.subrange(0, n + 1)[n]);
            assert(whole == given[n]);
        }
        if path.len() > 0 && path[0] == *m {
            path.pop_front();
            let ghost rest = path@;
            proof {
                assert(rest =~= whole.drop_first());
                assert(seq![*m] + rest =~= whole);
            }
            kept.push(path);
            proof {
                let after = paths_of(kept@);
                assert(after =~= before.push(rest));
                assert forall|p: Seq<ChessMove>| #[trigger]
                    after.contains(p) <==> exists|k: int|
                        n <= k < given.len() && given[k] == seq![*m] + p by {
                    if after.contains(p) {
                        let i = choose|i: int| 0 <= i < after.len() && after[i] == p;
                        if i < before.len() {
                            assert(before[i] == p);
                            assert(before.contains(p));
                            let k = choose|k: int|
                                n + 1 <= k < given.len() && given[k] == seq![*m] + p;
                            assert(n <= k < given.len() && given[k] == seq![*m] + p);
                        } else {
                            assert(p == rest);
                            assert(n <= n < given.len() && given[n] == seq![*m] + p);
                        }
                    }
                    if exists|k: int| n <= k < given.len() && given[k] == seq![*m] + p {
                        let k = choose|k: int| n <= k < given.len() && given[k] == seq![*m] + p;
                        if k == n {
                            assert(p =~= (seq![*m] + p).drop_first());
                            assert(after[before.len() as int] == p);
                        } else {
                            assert(n + 1 <= k < given.len() && given[k] == seq![*m] + p);
                            assert(before.contains(p));
                            let i = choose|i: int| 0 <= i < before.len() && before[i] == p;
                            assert(after[i] == p);
                        }
                    }
                }
                if paths_apart(given) {
                    assert forall|i: int, j: int| 0 <= i < j < after.len() implies #[trigger] after[i]
                        != #[trigger] after[j] by {
                        assert(after[i] == before[i]);
                        if j < before.len() {
                            assert(after[j] == before[j]);
                        } else {
                            assert(before.contains(before[i]));
                            let k = choose|k: int|
                                n + 1 <= k < given.len() && given[k] == seq![*m] + before[i];
                            assert(given[n] != given[k]);
                        }
                    }
                }
            }
        } else {
            proof {
                assert forall|p: Seq<ChessMove>| #[trigger]
                    before.contains(p) <==> exists|k: int|
                        n <= k < given.len() && given[k] == seq![*m] + p by {
                    if before.contains(p) {
                        let k = choose|k: int|
                            n + 1 <= k < given.len() && given[k] == seq![*m] + p;
                        assert(n <= k < given.len() && given[k] == seq![*m] + p);
                    }
                    if exists|k: int| n <= k < given.len() && given[k] == seq![*m] + p {
                        let k = choose|k: int| n <= k < given.len() && given[k] == seq![*m] + p;
                        assert((seq![*m] + p)[0] == *m);
                        assert(k != n);
                        assert(n + 1 <= k < given.len() && given[k] == seq![*m] + p);
                    }
                }
            }
        }
    }
    proof {
        assert forall|p: Seq<ChessMove>| #[trigger]
            paths_of(kept@).contains(p) <==> given.contains(seq![*m] + p) by {
            if paths_of(kept@).contains(p) {
                let k = choose|k: int| 0 <= k < given.len() && given[k] == seq![*m] + p;
                assert(given.contains(seq![*m] + p));
            }
            if given.contains(seq![*m] + p) {
                let k = choose|k: int| 0 <= k < given.len() && given[k] == seq![*m] + p;
                assert(0 <= k < given.len() && given[k] == seq![*m] + p);
            }
        }
    }
    kept
}

/// Whether `top` is one of `bag` and none of `bag` is above it.
pub open spec fn is_top(bag: Multiset<EntryView>, top: EntryView) -> bool {
    &&& bag.contains(top)
    &&& forall|x: EntryView| bag.contains(x) ==> !top.below(x)
}

impl Engine {
    /// The tree that the engine has grown.
    pub closed spec fn tree(self) -> TreeView {
        self.move_tree@
    }

    /// The pending expansions.
    pub closed spec fn frontier(self) -> Multiset<EntryView> {
        self.moves.bag()
    }

    /// The paths to the nodes whose moves the engine has asked for and not
    /// yet been given.
    pub closed spec fn awaited(self) -> Seq<Seq<ChessMove>> {
        paths_of(self.pending@)
    }

    pub closed spec fn static_weights(self) -> StaticEvaluationWeights {
        self.static_eval_weights
    }

    pub closed spec fn interest_weights(self) -> InterestEvaluationWeights {
        self.interest_eval_weights
    }

    pub closed spec fn settings(self) -> MinimaxSettings {
        self.minimax_settings
    }

    /// Whether the frontier, the awaited paths and the tree fit together.
    ///
    /// Every pending expansion names a node of the tree that has no children,
    /// and no two name the same node. The same holds of the awaited paths, and
    /// no pending expansion names an awaited node. The moves of every node
    /// stand in their order.
    pub open spec fn wf(self) -> bool {
        fits(self.tree(), self.frontier(), self.awaited())
    }

    /// The pending expansion that is taken next: one that none is above.
    pub open spec fn top(self) -> EntryView {
        choose|top: EntryView| is_top(self.frontier(), top)
    }

    /// Makes an engine for a position whose moves are yet to be generated.
    /// Its tree is the one node of the position, nothing is pending, and the
    /// moves of that node are awaited.
    pub fn unexpanded(
        board: Board,
        static_eval_weights: StaticEvaluationWeights,
        interest_eval_weights: InterestEvaluationWeights,
        minimax_settings: MinimaxSettings,
    ) -> (r: Engine)
        ensures
            r.wf(),
            r.tree() == (TreeView { board, kids: Seq::empty() }),
            r.frontier() == Multiset::<EntryView>::empty(),
            r.awaited() == seq![Seq::<ChessMove>::empty()],
            r.static_weights() == static_eval_weights,
            r.interest_weights() == interest_eval_weights,
            r.settings() == minimax_settings,
    {
        let mut pending: Vec<VecDeque<ChessMove>> = Vec::new();
        pending.push(VecDeque::new());
        let r = Engine {
            moves: Frontier::new(),
            move_tree: MoveTree::new(board),
            interest_eval_weights,
            static_eval_weights,
            minimax_settings,
            pending,
        };
        proof {
            assert(r.awaited() =~= seq![Seq::<ChessMove>::empty()]);
            assert(r.tree().descend(Seq::<ChessMove>::empty()) == Some(r.tree()));
        }
        r
    }

    /// The position at the root.
    pub fn get_board(&self) -> (r: &Board)
        ensures
            *r == self.tree().board,
    {
        proof {
            self.move_tree.lemma_view();
        }
        &self.move_tree.board_state
    }

    /// The number of pending expansions.
    pub fn frontier_len(&self) -> (r: usize)
        ensures
            r == self.frontier().len(),
    {
        self.moves.len()
    }

    /// The number of awaited paths.
    pub fn awaited_len(&self) -> (r: usize)
        ensures
            r == self.awaited().len(),
    {
        self.pending.len()
    }

    /// Whether the moves of the node at `location` are awaited.
    pub fn is_awaited(&self, location: &VecDeque<ChessMove>) -> (r: bool)
        ensures
            r == self.awaited().contains(location@),
    {
        self.find_pending(location).is_some()
    }

    /// The settings of minimax.
    pub fn get_settings(&self) -> (r: &MinimaxSettings)
        ensures
            *r == self.settings(),
    {
        &self.minimax_settings
    }

    /// The tree that the engine has grown.
    pub fn get_tree(&self) -> (r: &MoveTree)
        ensures
            r@ == self.tree(),
    {
        &self.move_tree
    }

    /// Takes the greatest pending expansion and asks for the moves of the
    /// node that it names: the result is the path to that node, which is
    /// awaited from then on. With nothing pending it fails with
    /// `NoValidMovesErrror` and changes nothing.
    pub fn think_next_move(&mut self) -> (r: Result<VecDeque<ChessMove>, EngineError>)
        requires
            old(self).wf(),
        ensures
            final(self).wf(),
            final(self).tree() == old(self).tree(),
            final(self).static_weights() == old(self).static_weights(),
            final(self).interest_weights() == old(self).interest_weights(),
            final(self).settings() == old(self).settings(),
            r.is_err() == (old(self).frontier().len() == 0),
            r matches Err(e) ==> {
                &&& e == EngineError::NoValidMovesErrror
                &&& final(self).frontier() == old(self).frontier()
                &&& final(self).awaited() == old(self).awaited()
            },
            r matches Ok(location) ==> {
                &&& is_top(old(self).frontier(), old(self).top())
                &&& location@ == old(self).top().path()
                &&& final(self).frontier() == old(self).frontier().remove(old(self).top())
                &&& final(self).awaited() == old(self).awaited().push(location@)
            },
    {
        let ghost bag = self.frontier();
        let next_move = match self.moves.pop() {
            None => {
                return Err(EngineError::NoValidMovesErrror);
            },
            Some(next_move) => next_move,
        };
        let ghost popped = next_move@;
        proof {
            assert(is_top(bag, popped));
            let chosen = old(self).top();
            assert(is_top(bag, chosen));
            entry_order_is_total(popped, chosen, popped);
            assert(popped.path() == chosen.path());
            assert(bag.count(popped) > 0 && bag.count(chosen) > 0);
            assert(popped == chosen);
        }
        let mut location = next_move.location;
        location.push_back(next_move.valued_move.chess_move);
        let ghost waiting = self.awaited();
        self.pending.push(copy_path(&location));
        proof {
            assert(self.awaited() =~= waiting.push(location@));
            lemma_take_fits(self.tree(), bag, waiting, popped);
        }
        Ok(location)
    }

    /// The place of `location` among the awaited paths, if it is awaited.
    fn find_pending(&self, location: &VecDeque<ChessMove>) -> (r: Option<usize>)
        ensures
            r.is_some() == self.awaited().contains(location@),
            r matches Some(at) ==> at < self.awaited().len() && self.awaited()[at as int]
                == location@,
    {
        let mut i: usize = 0;
        while i < self.pending.len()
            invariant
                i <= self.pending.len(),
                forall|k: int| 0 <= k < i ==> self.awaited()[k] != location@,
            decreases self.pending.len() - i,
        {
            if same_path(&self.pending[i], location) {
                assert(self.awaited()[i as int] == location@);
                return Some(i);
            }
            i += 1;
        }
        None
    }

    /// Gives the awaited node at `location` its children: the positions that
    /// follow from it, each with the move that leads to it.
    ///
    /// It fails with `InvalidLocationError` where `location` is not awaited,
    /// and with `IllegalMoveError` where one of the moves cannot be given its
    /// interest; both leave the engine as it was. Else the node gets one child
    /// for each move, an expansion is entered for each child with the
    /// interest of its move and the price of depth of the engine, and
    /// `location` is awaited no more.
    pub fn generate_all_moves(
        &mut self,
        location: &VecDeque<ChessMove>,
        children: Vec<(ChessMove, Board)>,
    ) -> (r: Result<(), EngineError>)
        requires
            old(self).wf(),
        ensures
            final(self).wf(),
            final(self).static_weights() == old(self).static_weights(),
            final(self).interest_weights() == old(self).interest_weights(),
            final(self).settings() == old(self).settings(),
            r is Err ==> {
                &&& final(self).tree() == old(self).tree()
                &&& final(self).frontier() == old(self).frontier()
                &&& final(self).awaited() == old(self).awaited()
            },
            !old(self).awaited().contains(location@) ==> r == Err::<(), EngineError>(
                EngineError::InvalidLocationError,
            ),
            old(self).awaited().contains(location@) && !playable(
                old(self).interest_weights(),
                old(self).tree().descend(location@).unwrap().board,
                children@,
            ) ==> r == Err::<(), EngineError>(EngineError::IllegalMoveError),
            old(self).awaited().contains(location@) && playable(
                old(self).interest_weights(),
                old(self).tree().descend(location@).unwrap().board,
                children@,
            ) ==> r is Ok,
            r is Ok ==> {
                let parent = old(self).tree().descend(location@).unwrap();
                let node = final(self).tree().descend(location@).unwrap();
                &&& old(self).tree().leaf_at(location@)
                &&& final(self).tree().descend(location@).is_some()
                &&& node.board == parent.board
                &&& made_of(children@, node.kids)
                &&& final(self).tree() == old(self).tree().with_children(location@, node.kids)
                &&& final(self).frontier() == entered(
                    old(self).tree(),
                    old(self).frontier(),
                    old(self).interest_weights(),
                    old(self).static_weights().depth_cost as int,
                    location@,
                    node.kids,
                )
                &&& exists|at: int|
                    0 <= at < old(self).awaited().len() && old(self).awaited()[at] == location@
                        && final(self).awaited() == old(self).awaited().remove(at)
            },
    {
        let at = match self.find_pending(location) {
            None => {
                return Err(EngineError::InvalidLocationError);
            },
            Some(at) => at,
        };
        let ghost tree = self.tree();
        let ghost bag = self.frontier();
        let ghost awaited = self.awaited();
        let ghost given = children@;
        let ghost weights = self.interest_eval_weights;
        let depth_cost = self.static_eval_weights.depth_cost;
        assert(tree.leaf_at(awaited[at as int]));
        let kids = arrange(children);
        let ghost kv = kid_views(kids@);
        let parent = match self.move_tree.node_at(location) {
            None => {
                return Err(EngineError::InvalidLocationError);
            },
            Some(parent) => parent,
        };
        let ghost parent_board = parent@.board;
        proof {
            parent.lemma_view();
            lemma_playable(weights, parent_board, given, kv);
        }
        let entries = match value_children(
            &self.interest_eval_weights,
            depth_cost,
            &parent.board_state,
            location,
            &kids,
        ) {
            None => {
                return Err(EngineError::IllegalMoveError);
            },
            Some(entries) => entries,
        };
        self.pending.remove(at);
        let filled = self.move_tree.fill(location, 0, kids);
        self.moves.push_all(entries);
        proof {
            broadcast use vstd::multiset::group_multiset_axioms;

            assert(location@.subrange(0, location@.len() as int) == location@);
            assert(self.awaited() =~= awaited.remove(at as int));
            crate::tree_laws::lemma_fill_reads(tree, location@, kv);
            assert forall|x: EntryView| #[trigger]
                self.frontier().count(x) == bag.count(x) + if fresh(
                    weights,
                    depth_cost as int,
                    parent_board,
                    location@,
                    kv,
                    x,
                ) {
                    1int
                } else {
                    0int
                } by {
                lemma_fresh_counts(weights, depth_cost as int, parent_board, location@, kv, x);
            }
            lemma_expand_fits(
                tree,
                bag,
                awaited,
                at as int,
                kv,
                weights,
                depth_cost as int,
                self.frontier(),
            );
        }
        Ok(())
    }

    /// Commits the move `chess_move`: the child that it leads to becomes the
    /// root, the rest of the tree is dropped, and the frontier and the awaited
    /// paths keep what lies below the move, seen from the new root.
    ///
    /// It fails with `IllegalMoveError`, and changes nothing, where the move
    /// leads to no child of the root. Else the result says whether the new
    /// root has no children; its moves are then awaited.
    pub fn make_move(&mut self, chess_move: &ChessMove) -> (r: Result<bool, EngineError>)
        requires
            old(self).wf(),
        ensures
            final(self).wf(),
            final(self).static_weights() == old(self).static_weights(),
            final(self).interest_weights() == old(self).interest_weights(),
            final(self).settings() == old(self).settings(),
            r.is_ok() == old(self).tree().has(*chess_move),
            r matches Err(e) ==> {
                &&& e == EngineError::IllegalMoveError
                &&& final(self).tree() == old(self).tree()
                &&& final(self).frontier() == old(self).frontier()
                &&& final(self).awaited() == old(self).awaited()
            },
            r matches Ok(root_awaited) ==> {
                &&& root_awaited == final(self).tree().leaf()
                &&& final(self).tree() == old(self).tree().kids[old(self).tree().index_of(
                    *chess_move,
                )].1
                &&& forall|x: EntryView| #[trigger]
                    final(self).frontier().count(x) == old(self).frontier().count(
                        x.prefixed(*chess_move),
                    )
                &&& paths_advanced(
                    old(self).awaited(),
                    *chess_move,
                    root_awaited,
                    final(self).awaited(),
                )
            },
    {
        let at = match self.move_tree.find(chess_move) {
            None => {
                return Err(EngineError::IllegalMoveError);
            },
            Some(at) => at,
        };
        let ghost tree = self.tree();
        let ghost bag = self.frontier();
        let ghost awaited = self.awaited();
        let ghost before = self.move_tree;
        proof {
            before.lemma_view();
        }
        let (_, child) = self.move_tree.moves.swap_remove(at);
        self.move_tree = child;
        assert(self.tree() == tree.kids[at as int].1);
        self.moves.advance(chess_move);
        let mut pending: Vec<VecDeque<ChessMove>> = Vec::new();
        std::mem::swap(&mut pending, &mut self.pending);
        let mut pending = advance_paths(pending, chess_move);
        let root_awaited = self.move_tree.is_leaf();
        if root_awaited {
            let root: VecDeque<ChessMove> = VecDeque::new();
            let ghost moved = paths_of(pending@);
            let mut found = false;
            let mut i: usize = 0;
            while i < pending.len()
                invariant
                    i <= pending.len(),
                    !found ==> forall|k: int| 0 <= k < i ==> (#[trigger] pending@[k])@.len() != 0,
                    found ==> exists|k: int| 0 <= k < pending.len() && (#[trigger] pending@[k])@.len() == 0,
                decreases pending.len() - i,
            {
                if pending[i].len() == 0 {
                    found = true;
                }
                i += 1;
            }
            if !found {
                pending.push(root);
                proof {
                    let more = paths_of(pending@);
                    assert(more =~= moved.push(Seq::<ChessMove>::empty()));
                    assert forall|i: int, j: int| 0 <= i < j < more.len() implies #[trigger] more[i]
                        != #[trigger] more[j] by {
                        assert(more[i] == moved[i]);
                        if j < moved.len() {
                            assert(more[j] == moved[j]);
                        } else {
                            assert(pending@[i]@.len() != 0);
                        }
                    }
                    assert forall|p: Seq<ChessMove>| #[trigger]
                        more.contains(p) <==> (awaited.contains(seq![*chess_move] + p) || p.len()
                            == 0) by {
                        if more.contains(p) {
                            let k = choose|k: int| 0 <= k < more.len() && more[k] == p;
                            if k < moved.len() {
                                assert(moved[k] == p);
                                assert(moved.contains(p));
                            }
                        }
                        if awaited.contains(seq![*chess_move] + p) {
                            assert(moved.contains(p));
                            let k = choose|k: int| 0 <= k < moved.len() && moved[k] == p;
                            assert(more[k] == p);
                        }
                        if p.len() == 0 {
                            assert(p =~= Seq::<ChessMove>::empty());
                            assert(more[moved.len() as int] == p);
                        }
                    }
                }
            } else {
                proof {
                    assert forall|p: Seq<ChessMove>| #[trigger]
                        moved.contains(p) <==> (awaited.contains(seq![*chess_move] + p) || p.len()
                            == 0) by {
                        if p.len() == 0 {
                            let k = choose|k: int|
                                0 <= k < pending.len() && (#[trigger] pending@[k])@.len() == 0;
                            assert(moved[k] =~= p);
                        }
                    }
                }
            }
        }
        self.pending = pending;
        proof {
            lemma_commit_fits(tree, bag, awaited, *chess_move, self.frontier(), self.awaited());
        }
        Ok(root_awaited)
    }

    /// Commits the move that a caller has read, where it has read one: with
    /// `None` it fails with `IllegalMoveError` and changes nothing, with a
    /// move it does what `make_move` does.
    pub fn interpret_and_make_move(&mut self, interpreted: Option<ChessMove>) -> (r: Result<
        bool,
        EngineError,
    >)
        requires
            old(self).wf(),
        ensures
            final(self).wf(),
            final(self).static_weights() == old(self).static_weights(),
            final(self).interest_weights() == old(self).interest_weights(),
            final(self).settings() == old(self).settings(),
            r.is_ok() == (interpreted matches Some(m) && old(self).tree().has(m)),
            r matches Err(e) ==> {
                &&& e == EngineError::IllegalMoveError
                &&& final(self).tree() == old(self).tree()
                &&& final(self).frontier() == old(self).frontier()
                &&& final(self).awaited() == old(self).awaited()
            },
            r matches Ok(root_awaited) ==> {
                let m = interpreted.unwrap();
                &&& root_awaited == final(self).tree().leaf()
                &&& final(self).tree() == old(self).tree().kids[old(self).tree().index_of(m)].1
                &&& forall|x: EntryView| #[trigger]
                    final(self).frontier().count(x) == old(self).frontier().count(x.prefixed(m))
                &&& paths_advanced(old(self).awaited(), m, root_awaited, final(self).awaited())
            },
    {
        match interpreted {
            None => Err(EngineError::IllegalMoveError),
            Some(chess_move) => self.make_move(&chess_move),
        }
    }

    /// Values a node of the tree by minimax, with the weights of the engine.
    pub fn minimax(
        &self,
        tree: &MoveTree,
        depth: i32,
        min_depth: i32,
        max_depth: i32,
        maximizing_player: bool,
    ) -> (r: (Eval, Option<ChessMove>))
        requires
            0 <= depth <= max_depth,
        ensures
            r == minimax_value(
                self.static_weights(),
                tree@,
                depth as int,
                min_depth as int,
                max_depth as int,
                maximizing_player,
            ),
            r.1.is_some() == (depth != max_depth && !tree@.leaf()),
    {
        crate::minimax::minimax(
            &self.static_eval_weights,
            tree,
            depth,
            min_depth,
            max_depth,
            maximizing_player,
        )
    }

    /// The value of the root and the move that minimax prefers there: White
    /// chooses the greatest value, Black the least. The search goes down to
    /// depth 1000 at most. A move is returned exactly when the root has
    /// children, and it is the move of one of them.
    pub fn eval_and_best_move(&self) -> (r: (Eval, Option<ChessMove>))
        ensures
            r == minimax_value(
                self.static_weights(),
                self.tree(),
                0,
                self.settings().min_depth as int,
                1000,
                self.tree().board.turn() == Color::White,
            ),
            r.1.is_some() == !self.tree().leaf(),
            r.1 matches Some(m) ==> exists|i: int|
                0 <= i < self.tree().kids.len() && (#[trigger] self.tree().kids[i]).0 == m,
    {
        proof {
            self.move_tree.lemma_view();
            minimax_move_is_child(
                self.static_weights(),
                self.tree(),
                0,
                self.settings().min_depth as int,
                1000,
                self.tree().board.turn() == Color::White,
            );
        }
        crate::minimax::minimax(
            &self.static_eval_weights,
            &self.move_tree,
            0,
            self.minimax_settings.min_depth,
            1000,
            self.move_tree.board_state.get_turn() == Color::White,
        )
    }

    /// Lists the tree for printing, down to `depth` moves below the root:
    /// each line holds the depth of a move and the move.
    pub fn print_tree(&self, depth: i32) -> (r: Vec<(i32, ChessMove)>)
        ensures
            r@ == crate::tree::lines(self.tree(), 0, depth as int),
    {
        self.move_tree.print_tree(0, depth)
    }

    /// Lists the pending expansions for printing, from the greatest down.
    pub fn print_moves(&self) -> (r: Vec<ValuedMoveLocation>)
        ensures
            views(r@).to_multiset() == self.frontier(),
            forall|i: int, j: int|
                0 <= i < j < r@.len() ==> !(#[trigger] r@[i])@.below((#[trigger] r@[j])@),
    {
        self.moves.in_order()
    }

    /// Makes an engine for a position, with the root expanded: `children`
    /// are the positions that follow from it, each with its move. The root
    /// has one child for each move, an expansion is pending for each child,
    /// with an empty location, and nothing is awaited. It fails with
    /// `IllegalMoveError` where one of the moves cannot be given its
    /// interest.
    pub fn new(
        board: Board,
        children: Vec<(ChessMove, Board)>,
        static_eval_weights: StaticEvaluationWeights,
        interest_eval_weights: InterestEvaluationWeights,
        minimax_settings: MinimaxSettings,
    ) -> (r: Result<Engine, EngineError>)
        ensures
            r.is_ok() == playable(interest_eval_weights, board, children@),
            r matches Err(e) ==> e == EngineError::IllegalMoveError,
            r matches Ok(engine) ==> {
                &&& engine.wf()
                &&& engine.static_weights() == static_eval_weights
                &&& engine.interest_weights() == interest_eval_weights
                &&& engine.settings() == minimax_settings
                &&& engine.tree().board == board
                &&& made_of(children@, engine.tree().kids)
                &&& engine.awaited().len() == 0
                &&& engine.frontier() == entries_for(
                    interest_eval_weights,
                    static_eval_weights.depth_cost as int,
                    board,
                    Seq::empty(),
                    engine.tree().kids,
                ).to_multiset()
                &&& engine.frontier().len() == engine.tree().kids.len()
            },
    {
        let mut engine = Engine::unexpanded(
            board,
            static_eval_weights,
            interest_eval_weights,
            minimax_settings,
        );
        let root: VecDeque<ChessMove> = VecDeque::new();
        let ghost before = engine;
        proof {
            assert(root@ =~= Seq::<ChessMove>::empty());
            assert(before.awaited()[0] == root@);
            assert(before.tree().descend(root@) == Some(before.tree()));
        }
        match engine.generate_all_moves(&root, children) {
            Err(e) => Err(e),
            Ok(()) => {
                proof {
                    broadcast use vstd::multiset::group_multiset_axioms;

                    let kids = engine.tree().descend(root@).unwrap().kids;
                    assert(engine.tree().descend(root@) == Some(engine.tree()));
                    let entries = entries_for(
                        interest_eval_weights,
                        static_eval_weights.depth_cost as int,
                        board,
                        Seq::empty(),
                        kids,
                    );
                    assert(engine.frontier() =~= entries.to_multiset());
                    vstd::seq_lib::to_multiset_len(entries);
                }
                Ok(engine)
            },
        }
    }
}

} // verus!
