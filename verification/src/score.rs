//! Scores: fixed-point numbers with two infinities, in a total order.

use std::cmp::Ordering;
use vstd::prelude::*;
use vstd::std_specs::cmp::PartialOrdSpecImpl;

verus! {

/// How many units of a finite score make one whole point.
pub const SCALE: i64 = 1000;

/// A score. A finite score counts thousandths of a point, so that
/// `Finite(1500)` is one and a half. The infinities stand below and above every
/// finite score.
#[derive(Clone, Copy, Debug, PartialEq, Eq, Structural, Hash)]
pub enum Score {
    NegInf,
    Finite(i64),
    PosInf,
}

impl Score {
    /// -1, 0 or 1 for the negative infinity, a finite score and the positive
    /// infinity.
    pub open spec fn rank(self) -> int {
        match self {
            Score::NegInf => -1,
            Score::Finite(_) => 0,
            Score::PosInf => 1,
        }
    }

    /// The thousandths of a finite score, and 0 for an infinity.
    pub open spec fn amount(self) -> int {
        match self {
            Score::Finite(x) => x as int,
            _ => 0,
        }
    }

    /// The strict order on scores.
    pub open spec fn below(self, other: Score) -> bool {
        self.rank() < other.rank() || (self.rank() == other.rank() && self.amount()
            < other.amount())
    }

    /// How `self` stands to `other` in the order.
    pub open spec fn order(self, other: Score) -> Ordering {
        if self.below(other) {
            Ordering::Less
        } else if self == other {
            Ordering::Equal
        } else {
            Ordering::Greater
        }
    }

    /// Whether the score is neither infinity.
    pub fn is_finite(&self) -> (r: bool)
        ensures
            r == (self.rank() == 0),
    {
        match self {
            Score::Finite(_) => true,
            _ => false,
        }
    }

    /// The score of `points` whole points.
    pub fn whole(points: i32) -> (r: Score)
        ensures
            r == Score::Finite((points * SCALE) as i64),
    {
        let wide: i64 = points.into();
        Score::Finite(wide * SCALE)
    }
}

impl PartialOrdSpecImpl for Score {
    open spec fn obeys_partial_cmp_spec() -> bool {
        true
    }

    open spec fn partial_cmp_spec(&self, other: &Score) -> Option<Ordering> {
        Some(self.order(*other))
    }
}

impl PartialOrd for Score {
    fn partial_cmp(&self, other: &Score) -> (r: Option<Ordering>) {
        match (*self, *other) {
            (Score::NegInf, Score::NegInf) => Some(Ordering::Equal),
            (Score::NegInf, _) => Some(Ordering::Less),
            (Score::Finite(_), Score::NegInf) => Some(Ordering::Greater),
            (Score::Finite(a), Score::Finite(b)) => if a < b {
                Some(Ordering::Less)
            } else if a == b {
                Some(Ordering::Equal)
            } else {
                Some(Ordering::Greater)
            },
            (Score::Finite(_), Score::PosInf) => Some(Ordering::Less),
            (Score::PosInf, Score::PosInf) => Some(Ordering::Equal),
            (Score::PosInf, _) => Some(Ordering::Greater),
        }
    }
}

/// The order on scores is total: of two scores exactly one of "less", "equal"
/// and "greater" holds, and "less" is transitive.
pub proof fn score_order_is_total(a: Score, b: Score, c: Score)
    ensures
        a.below(b) || a == b || b.below(a),
        !(a.below(b) && b.below(a)),
        !a.below(a),
        a.below(b) && b.below(c) ==> a.below(c),
{
}

} // verus!
