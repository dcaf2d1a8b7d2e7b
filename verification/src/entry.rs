//! A pending expansion and the order in which pending expansions are taken.

use crate::chess::ChessMove;
use crate::score::Score;
use std::collections::VecDeque;
use vstd::prelude::*;

verus! {

/// A move with the interest that it was given.
#[derive(Clone, Copy, Debug, PartialEq, Eq, Structural, Hash)]
pub struct ValuedChessMove {
    pub value: Score,
    pub chess_move: ChessMove,
}

/// A pending expansion: the node reached by `valued_move.chess_move` from the
/// node at `location` awaits its moves.
#[derive(Debug)]
pub struct ValuedMoveLocation {
    pub valued_move: ValuedChessMove,
    /// The moves that lead from the root to the parent of the node.
    pub location: VecDeque<ChessMove>,
    /// What each move of `location` takes off the interest, as it was when
    /// the expansion was entered.
    pub depth_cost: i32,
}

/// What a pending expansion holds, as plain values.
pub struct EntryView {
    pub value: Score,
    pub chess_move: ChessMove,
    pub location: Seq<ChessMove>,
    pub depth_cost: int,
}

/// Whether path `a` comes before path `b` when both agree on their first `i`
/// moves: at the first place where they differ the move of `a` is the
/// earlier, or `a` ends there and `b` goes on.
pub open spec fn path_before_from(a: Seq<ChessMove>, b: Seq<ChessMove>, i: int) -> bool
    decreases a.len() - i,
{
    if i >= b.len() {
        false
    } else if i >= a.len() {
        true
    } else if a[i] != b[i] {
        a[i].before(b[i])
    } else {
        path_before_from(a, b, i + 1)
    }
}

/// The order of paths, move by move.
pub open spec fn path_before(a: Seq<ChessMove>, b: Seq<ChessMove>) -> bool {
    path_before_from(a, b, 0)
}

impl EntryView {
    /// The path to the node that awaits its moves.
    pub open spec fn path(self) -> Seq<ChessMove> {
        self.location.push(self.chess_move)
    }

    /// The interest less the price of the depth, in thousandths. It counts
    /// where the interest is finite.
    pub open spec fn effective(self) -> int {
        self.value.amount() - self.depth_cost * self.location.len()
    }

    /// Whether `self` has the smaller interest after the price of depth. An
    /// infinite interest stays infinite at any depth.
    pub open spec fn key_below(self, other: EntryView) -> bool {
        self.value.rank() < other.value.rank() || (self.value.rank() == 0 && other.value.rank()
            == 0 && self.effective() < other.effective())
    }

    /// The strict order of pending expansions: by the interest after the price
    /// of depth; where that is equal by the interest itself, then by the move,
    /// then by the location.
    pub open spec fn below(self, other: EntryView) -> bool {
        if self.key_below(other) {
            true
        } else if other.key_below(self) {
            false
        } else if self.value != other.value {
            self.value.below(other.value)
        } else if self.chess_move != other.chess_move {
            self.chess_move.before(other.chess_move)
        } else {
            path_before(self.location, other.location)
        }
    }

    /// The same expansion seen from one move further down: the location
    /// without its first move.
    pub open spec fn stripped(self) -> EntryView {
        EntryView { location: self.location.drop_first(), ..self }
    }

    /// The same expansion seen from one move further up: `m` before the
    /// location.
    pub open spec fn prefixed(self, m: ChessMove) -> EntryView {
        EntryView { location: seq![m] + self.location, ..self }
    }
}

impl View for ValuedMoveLocation {
    type V = EntryView;

    open spec fn view(&self) -> EntryView {
        EntryView {
            value: self.valued_move.value,
            chess_move: self.valued_move.chess_move,
            location: self.location@,
            depth_cost: self.depth_cost as int,
        }
    }
}

/// The views of a sequence of expansions.
pub open spec fn views(s: Seq<ValuedMoveLocation>) -> Seq<EntryView> {
    Seq::new(s.len(), |i: int| s[i]@)
}

/// Copies a path.
pub fn copy_path(path: &VecDeque<ChessMove>) -> (r: VecDeque<ChessMove>)
    ensures
        r@ == path@,
{
    let mut copy: VecDeque<ChessMove> = VecDeque::new();
    let mut i: usize = 0;
    while i < path.len()
        invariant
            i <= path.len(),
            copy@ == path@.subrange(0, i as int),
        decreases path.len() - i,
    {
        copy.push_back(path[i]);
        assert(path@.subrange(0, i + 1) == path@.subrange(0, i as int).push(path@[i as int]));
        i += 1;
    }
    assert(path@.subrange(0, path@.len() as int) == path@);
    copy
}

/// Whether two paths hold the same moves.
pub fn same_path(a: &VecDeque<ChessMove>, b: &VecDeque<ChessMove>) -> (r: bool)
    ensures
        r == (a@ == b@),
{
    if a.len() != b.len() {
        return false;
    }
    let mut i: usize = 0;
    while i < a.len()
        invariant
            i <= a.len(),
            a.len() == b.len(),
            forall|j: int| 0 <= j < i ==> a@[j] == b@[j],
        decreases a.len() - i,
    {
        if a[i] != b[i] {
            return false;
        }
        i += 1;
    }
    assert(a@ =~= b@);
    true
}

/// Whether path `a` comes before path `b`.
pub fn is_path_before(a: &VecDeque<ChessMove>, b: &VecDeque<ChessMove>) -> (r: bool)
    ensures
        r == path_before(a@, b@),
{
    let mut i: usize = 0;
    loop
        invariant
            i <= a.len(),
            i <= b.len(),
            path_before(a@, b@) == path_before_from(a@, b@, i as int),
        decreases a.len() - i,
    {
        if i >= b.len() {
            return false;
        }
        if i >= a.len() {
            return true;
        }
        if a[i] != b[i] {
            return a[i].is_before(&b[i]);
        }
        i += 1;
    }
}

impl ValuedMoveLocation {
    /// The interest less the price of the depth, in thousandths; `None` for
    /// an infinite interest, which no depth changes.
    pub fn value_accounted_for_distance(&self) -> (r: Option<i128>)
        ensures
            r.is_some() == (self@.value.rank() == 0),
            r matches Some(x) ==> x == self@.effective(),
    {
        match self.valued_move.value {
            Score::Finite(x) => {
                let cost: i128 = self.depth_cost as i128;
                let depth: i128 = self.location.len() as i128;
                assert(-39614081257132168796771975168 <= cost * depth
                    <= 39614081257132168796771975168) by (nonlinear_arith)
                    requires
                        -2147483648 <= cost <= 2147483647,
                        0 <= depth <= 18446744073709551615,
                ;
                Some((x as i128) - cost * depth)
            },
            _ => None,
        }
    }

    /// Whether `self` comes below `other` in the order of pending
    /// expansions.
    pub fn is_below(&self, other: &ValuedMoveLocation) -> (r: bool)
        ensures
            r == self@.below(other@),
    {
        let mine = self.value_accounted_for_distance();
        let theirs = other.value_accounted_for_distance();
        match (mine, theirs) {
            (Some(a), Some(b)) => {
                if a != b {
                    return a < b;
                }
            },
            _ => {
                if self.valued_move.value != other.valued_move.value {
                    return self.valued_move.value < other.valued_move.value;
                }
            },
        }
        if self.valued_move.value != other.valued_move.value {
            self.valued_move.value < other.valued_move.value
        } else if self.valued_move.chess_move != other.valued_move.chess_move {
            self.valued_move.chess_move.is_before(&other.valued_move.chess_move)
        } else {
            is_path_before(&self.location, &other.location)
        }
    }

    /// A copy of the expansion.
    pub fn duplicate(&self) -> (r: ValuedMoveLocation)
        ensures
            r@ == self@,
    {
        ValuedMoveLocation {
            valued_move: self.valued_move,
            location: copy_path(&self.location),
            depth_cost: self.depth_cost,
        }
    }
}

pub proof fn lemma_path_irreflexive(a: Seq<ChessMove>, i: int)
    requires
        0 <= i,
    ensures
        !path_before_from(a, a, i),
    decreases a.len() - i,
{
    if i < a.len() {
        lemma_path_irreflexive(a, i + 1);
    }
}

pub proof fn lemma_path_order(a: Seq<ChessMove>, b: Seq<ChessMove>, c: Seq<ChessMove>, i: int)
    requires
        0 <= i,
        i <= a.len() && i <= b.len() && i <= c.len(),
        a.subrange(0, i) == b.subrange(0, i),
        b.subrange(0, i) == c.subrange(0, i),
    ensures
        path_before_from(a, b, i) || a == b || path_before_from(b, a, i),
        !(path_before_from(a, b, i) && path_before_from(b, a, i)),
        path_before_from(a, b, i) && path_before_from(b, c, i) ==> path_before_from(a, c, i),
    decreases a.len() - i,
{
    if i < a.len() {
        assert(a.subrange(0, i + 1) == a.subrange(0, i).push(a[i]));
    }
    if i < b.len() {
        assert(b.subrange(0, i + 1) == b.subrange(0, i).push(b[i]));
    }
    if i < c.len() {
        assert(c.subrange(0, i + 1) == c.subrange(0, i).push(c[i]));
    }
    if i >= a.len() {
        if i >= b.len() {
            assert(a == a.subrange(0, i));
            assert(b == b.subrange(0, i));
        }
    } else if i >= b.len() {
    } else if a[i] != b[i] {
        crate::chess::move_order_is_total(a[i], b[i], a[i]);
        if i < c.len() {
            crate::chess::move_order_is_total(a[i], b[i], c[i]);
        }
    } else {
        if i < c.len() {
            crate::chess::move_order_is_total(a[i], b[i], c[i]);
            if b[i] == c[i] {
                lemma_path_order(a, b, c, i + 1);
            } else {
                lemma_path_order(a, b, b, i + 1);
            }
        } else {
            lemma_path_order(a, b, b, i + 1);
        }
    }
}

/// The order of pending expansions is total on what they name: of two
/// expansions one is below the other unless they hold the same interest, the
/// same move and the same location; no expansion is below itself, and "below"
/// is transitive.
pub proof fn entry_order_is_total(a: EntryView, b: EntryView, c: EntryView)
    ensures
        a.below(b) || b.below(a) || (a.value == b.value && a.chess_move == b.chess_move
            && a.location == b.location),
        !(a.below(b) && b.below(a)),
        !a.below(a),
        a.below(b) && b.below(c) ==> a.below(c),
{
    let e = Seq::<ChessMove>::empty();
    assert(a.location.subrange(0, 0) == e);
    assert(b.location.subrange(0, 0) == e);
    assert(c.location.subrange(0, 0) == e);
    lemma_path_order(a.location, b.location, c.location, 0);
    lemma_path_irreflexive(a.location, 0);
    crate::chess::move_order_is_total(a.chess_move, b.chess_move, c.chess_move);
    crate::score::score_order_is_total(a.value, b.value, c.value);
}

/// "Not below" is transitive: an expansion that is not below a second, which
/// is not below a third, is not below the third.
pub proof fn entry_order_is_weak(a: EntryView, b: EntryView, c: EntryView)
    requires
        !a.below(b),
        !b.below(c),
    ensures
        !a.below(c),
{
    entry_order_is_total(a, b, c);
    entry_order_is_total(b, c, a);
    entry_order_is_total(c, a, b);
    entry_order_is_total(a, c, b);
    entry_order_is_total(c, b, a);
    entry_order_is_total(b, a, c);
}

} // verus!
