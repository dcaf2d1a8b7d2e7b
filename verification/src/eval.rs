//! The value of a position: a score, or a forced mate in a number of moves.

use crate::chess::Color;
use crate::score::Score;
use std::cmp::Ordering;
use vstd::prelude::*;
use vstd::std_specs::cmp::PartialOrdSpecImpl;

verus! {

/// The value of a position, seen from White's side: greater is better for
/// White. `MateIn(side, n)` says that `side` mates in `n` moves.
#[derive(Clone, Copy, Debug, PartialEq, Eq, Structural, Hash)]
pub enum Eval {
    Numeric(Score),
    MateIn(Color, i32),
}

impl Eval {
    /// -1 for a mate by Black, 0 for a score, 1 for a mate by White.
    pub open spec fn side(self) -> int {
        match self {
            Eval::MateIn(Color::Black, _) => -1,
            Eval::Numeric(_) => 0,
            Eval::MateIn(Color::White, _) => 1,
        }
    }

    /// The strict order on values. A mate by White is above every score and a
    /// mate by Black below; scores go by their own order; of two mates by
    /// White the sooner is greater, of two by Black the later.
    pub open spec fn below(self, other: Eval) -> bool {
        match (self, other) {
            (Eval::Numeric(a), Eval::Numeric(b)) => a.below(b),
            (Eval::MateIn(Color::White, a), Eval::MateIn(Color::White, b)) => a > b,
            (Eval::MateIn(Color::Black, a), Eval::MateIn(Color::Black, b)) => a < b,
            _ => self.side() < other.side(),
        }
    }

    /// How `self` stands to `other` in the order.
    pub open spec fn order(self, other: Eval) -> Ordering {
        if self.below(other) {
            Ordering::Less
        } else if self == other {
            Ordering::Equal
        } else {
            Ordering::Greater
        }
    }

    /// The value one move further from the mate: a mate in `n` becomes a mate
    /// in `n + 1`, a score stays.
    pub open spec fn raised(self) -> Eval {
        match self {
            Eval::Numeric(_) => self,
            Eval::MateIn(color, counter) => Eval::MateIn(color, (counter + 1) as i32),
        }
    }

    /// The number of moves to the mate, 0 for a score.
    pub open spec fn counter(self) -> int {
        match self {
            Eval::Numeric(_) => 0,
            Eval::MateIn(_, counter) => counter as int,
        }
    }

    /// Moves a value one move up the tree.
    pub fn increase_mate_counter(self) -> (r: Eval)
        requires
            self.counter() < i32::MAX,
        ensures
            r == self.raised(),
            self matches Eval::MateIn(color, counter) ==> r == Eval::MateIn(
                color,
                (counter + 1) as i32,
            ) && r.counter() == counter + 1,
            self is Numeric ==> r == self,
    {
        match self {
            Eval::Numeric(_) => self,
            Eval::MateIn(color, counter) => Eval::MateIn(color, counter + 1),
        }
    }

    /// Whether `self` is below `other`.
    pub fn is_below(&self, other: &Eval) -> (r: bool)
        ensures
            r == self.below(*other),
    {
        match (*self, *other) {
            (Eval::Numeric(a), Eval::Numeric(b)) => a < b,
            (Eval::MateIn(Color::White, a), Eval::MateIn(Color::White, b)) => a > b,
            (Eval::MateIn(Color::Black, a), Eval::MateIn(Color::Black, b)) => a < b,
            (Eval::MateIn(Color::Black, _), _) => true,
            (Eval::Numeric(_), Eval::MateIn(Color::White, _)) => true,
            _ => false,
        }
    }
}

impl PartialOrdSpecImpl for Eval {
    open spec fn obeys_partial_cmp_spec() -> bool {
        true
    }

    open spec fn partial_cmp_spec(&self, other: &Eval) -> Option<Ordering> {
        Some(self.order(*other))
    }
}

impl PartialOrd for Eval {
    fn partial_cmp(&self, other: &Eval) -> (r: Option<Ordering>) {
        if self.is_below(other) {
            Some(Ordering::Less)
        } else if *self == *other {
            Some(Ordering::Equal)
        } else {
            Some(Ordering::Greater)
        }
    }
}

/// The order on values is total: of two values exactly one of "below",
/// "equal" and "above" holds, and "below" is transitive.
pub proof fn eval_order_is_total(a: Eval, b: Eval, c: Eval)
    ensures
        a.below(b) || a == b || b.below(a),
        !(a.below(b) && b.below(a)),
        !a.below(a),
        a.below(b) && b.below(c) ==> a.below(c),
{
}

/// Every mate by White is above every score, every score above every mate by
/// Black, and of two mates by White the sooner is the greater.
pub proof fn eval_order_of_mates(x: Score, m: i32, n: i32)
    ensures
        Eval::Numeric(x).below(Eval::MateIn(Color::White, n)),
        Eval::MateIn(Color::Black, n).below(Eval::Numeric(x)),
        Eval::MateIn(Color::Black, m).below(Eval::MateIn(Color::White, n)),
        m < n ==> Eval::MateIn(Color::White, n).below(Eval::MateIn(Color::White, m)),
        m < n ==> Eval::MateIn(Color::Black, m).below(Eval::MateIn(Color::Black, n)),
{
}

/// Raising a value keeps its place among the values of its side: it adds one
/// to the counter of a mate and leaves a score as it is.
pub proof fn raised_adds_one(color: Color, n: i32, x: Score)
    requires
        n < i32::MAX,
    ensures
        Eval::MateIn(color, n).raised() == Eval::MateIn(color, (n + 1) as i32),
        Eval::MateIn(color, n).raised().counter() == n + 1,
        Eval::Numeric(x).raised() == Eval::Numeric(x),
{
}

} // verus!
