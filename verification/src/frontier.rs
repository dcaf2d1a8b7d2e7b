//! The frontier: the pending expansions, of which the greatest is taken
//! first.

use crate::chess::ChessMove;
use crate::entry::{views, EntryView, ValuedMoveLocation};
use crate::heap::{heap, lemma_exchange_bag, lemma_first_is_top, up};
use crate::heap::{exchange, sift_down, sift_up};
use vstd::multiset::Multiset;
use vstd::prelude::*;
use vstd::seq_lib::{to_multiset_build, to_multiset_contains, to_multiset_len, to_multiset_remove};

verus! {

/// The pending expansions, kept as a heap.
#[derive(Debug)]
pub struct Frontier {
    entries: Vec<ValuedMoveLocation>,
}

proof fn lemma_views_push(s: Seq<ValuedMoveLocation>, e: ValuedMoveLocation)
    ensures
        views(s.push(e)).to_multiset() == views(s).to_multiset().insert(e@),
{
    assert(views(s.push(e)) =~= views(s).push(e@));
    to_multiset_build(views(s), e@);
}

proof fn lemma_views_remove(s: Seq<ValuedMoveLocation>, i: int)
    requires
        0 <= i < s.len(),
    ensures
        views(s.remove(i)).to_multiset() == views(s).to_multiset().remove(s[i]@),
{
    assert(views(s.remove(i)) =~= views(s).remove(i));
    to_multiset_remove(views(s), i);
}

proof fn lemma_views_contains(s: Seq<ValuedMoveLocation>, x: EntryView)
    ensures
        views(s).to_multiset().contains(x) <==> exists|i: int|
            0 <= i < s.len() && (#[trigger] s[i])@ == x,
{
    to_multiset_contains(views(s), x);
    if views(s).contains(x) {
        let i = choose|i: int| 0 <= i < views(s).len() && views(s)[i] == x;
        assert(s[i]@ == x);
    }
    if exists|i: int| 0 <= i < s.len() && (#[trigger] s[i])@ == x {
        let i = choose|i: int| 0 <= i < s.len() && (#[trigger] s[i])@ == x;
        assert(views(s)[i] == x);
    }
}

proof fn lemma_views_empty(s: Seq<ValuedMoveLocation>)
    requires
        s.len() == 0,
    ensures
        views(s).to_multiset() == Multiset::<EntryView>::empty(),
{
    broadcast use vstd::multiset::group_multiset_axioms;

    assert forall|x: EntryView| views(s).to_multiset().count(x) == 0 by {
        to_multiset_contains(views(s), x);
    }
    assert(views(s).to_multiset() =~= Multiset::<EntryView>::empty());
}

/// Whether `e` stands no lower than any expansion of `bag`.
pub open spec fn over(e: EntryView, bag: Multiset<EntryView>) -> bool {
    forall|x: EntryView| #[trigger] bag.count(x) > 0 ==> !e.below(x)
}

impl Frontier {
    #[verifier::type_invariant]
    spec fn ordered(self) -> bool {
        heap(self.entries@)
    }

    /// The pending expansions, each as often as it was entered.
    pub closed spec fn bag(self) -> Multiset<EntryView> {
        views(self.entries@).to_multiset()
    }

    /// A frontier without expansions.
    pub fn new() -> (r: Frontier)
        ensures
            r.bag() == Multiset::<EntryView>::empty(),
    {
        let r = Frontier { entries: Vec::new() };
        proof {
            lemma_views_empty(r.entries@);
        }
        r
    }

    /// The number of pending expansions.
    pub fn len(&self) -> (r: usize)
        ensures
            r == self.bag().len(),
    {
        proof {
            to_multiset_len(views(self.entries@));
        }
        self.entries.len()
    }

    /// Whether nothing is pending.
    pub fn is_empty(&self) -> (r: bool)
        ensures
            r == (self.bag().len() == 0),
    {
        self.len() == 0
    }

    /// Enters an expansion.
    pub fn push(&mut self, entry: ValuedMoveLocation)
        ensures
            final(self).bag() == old(self).bag().insert(entry@),
    {
        proof {
            use_type_invariant(&*self);
            lemma_views_push(self.entries@, entry);
        }
        let mut entries: Vec<ValuedMoveLocation> = Vec::new();
        std::mem::swap(&mut entries, &mut self.entries);
        let ghost before = entries@;
        entries.push(entry);
        let last = entries.len() - 1;
        proof {
            assert forall|k: int| 0 < k < entries@.len() && k != last implies crate::heap::above(
                entries@,
                #[trigger] up(k),
                k,
            ) by {
                assert(crate::heap::above(before, up(k), k));
            }
        }
        sift_up(&mut entries, last);
        self.entries = entries;
    }

    /// Enters every expansion of `entries`.
    pub fn push_all(&mut self, entries: Vec<ValuedMoveLocation>)
        ensures
            final(self).bag() == old(self).bag().add(views(entries@).to_multiset()),
    {
        let ghost all = views(entries@);
        let mut entries = entries;
        proof {
            assert(all.subrange(0, all.len() as int) == all);
        }
        while entries.len() > 0
            invariant
                entries@.len() <= all.len(),
                views(entries@) == all.subrange(0, entries@.len() as int),
                self.bag().add(views(entries@).to_multiset()) == old(self).bag().add(
                    all.to_multiset(),
                ),
            decreases entries.len(),
        {
            let ghost before = entries@;
            let ghost bag_before = self.bag();
            let entry = entries.pop().unwrap();
            proof {
                assert(entries@ =~= before.remove(before.len() - 1));
                lemma_views_remove(before, before.len() - 1);
                lemma_views_contains(before, entry@);
                assert(views(entries@) =~= all.subrange(0, entries@.len() as int));
            }
            self.push(entry);
            proof {
                broadcast use vstd::multiset::group_multiset_axioms;

                assert(self.bag().add(views(entries@).to_multiset()) =~= bag_before.add(
                    views(before).to_multiset(),
                ));
            }
        }
        proof {
            broadcast use vstd::multiset::group_multiset_axioms;

            lemma_views_empty(entries@);
            assert(self.bag().add(views(entries@).to_multiset()) =~= self.bag());
        }
    }

    /// Takes out the greatest of the pending expansions, if any is pending.
    pub fn pop(&mut self) -> (r: Option<ValuedMoveLocation>)
        ensures
            r.is_none() == (old(self).bag().len() == 0),
            r.is_none() ==> final(self).bag() == old(self).bag(),
            r matches Some(top) ==> {
                &&& old(self).bag().contains(top@)
                &&& final(self).bag() == old(self).bag().remove(top@)
                &&& forall|x: EntryView| old(self).bag().contains(x) ==> !top@.below(x)
            },
    {
        proof {
            use_type_invariant(&*self);
            to_multiset_len(views(self.entries@));
        }
        if self.entries.len() == 0 {
            return None;
        }
        let mut entries: Vec<ValuedMoveLocation> = Vec::new();
        std::mem::swap(&mut entries, &mut self.entries);
        let ghost before = entries@;
        let last = entries.len() - 1;
        proof {
            lemma_views_contains(before, before[0]@);
            assert forall|x: EntryView| views(before).to_multiset().contains(x) implies !before[0]@.below(
                x,
            ) by {
                lemma_views_contains(before, x);
                let i = choose|i: int| 0 <= i < before.len() && (#[trigger] before[i])@ == x;
                lemma_first_is_top(before, i);
            }
        }
        if last > 0 {
            exchange(&mut entries, 0, last);
            proof {
                lemma_exchange_bag(before, 0, last as int);
            }
        }
        let ghost turned = entries@;
        let top = entries.pop().unwrap();
        proof {
            assert(top == before[0]);
            assert(entries@ =~= turned.remove(last as int));
            lemma_views_remove(turned, last as int);
        }
        if last > 0 {
            proof {
                assert forall|k: int|
                    0 < k < entries@.len() && #[trigger] up(k) != 0 implies crate::heap::above(
                    entries@,
                    up(k),
                    k,
                ) by {
                    assert(crate::heap::above(before, up(k), k));
                }
            }
            sift_down(&mut entries, 0);
        }
        self.entries = entries;
        Some(top)
    }

    /// Moves the frontier one move down: drops the expansions whose location
    /// does not begin with `m`, and takes `m` off the location of the
    /// others.
    pub fn advance(&mut self, m: &ChessMove)
        ensures
            forall|x: EntryView| #[trigger]
                final(self).bag().count(x) == old(self).bag().count(x.prefixed(*m)),
    {
        let mut entries: Vec<ValuedMoveLocation> = Vec::new();
        std::mem::swap(&mut entries, &mut self.entries);
        let ghost given = views(entries@).to_multiset();
        proof {
            lemma_views_empty(self.entries@);
        }
        while entries.len() > 0
            invariant
                forall|x: EntryView| #[trigger]
                    self.bag().count(x) + views(entries@).to_multiset().count(x.prefixed(*m))
                        == given.count(x.prefixed(*m)),
            decreases entries.len(),
        {
            let ghost before = entries@;
            let ghost kept = self.bag();
            let mut entry = entries.pop().unwrap();
            let ghost taken = entry@;
            proof {
                assert(entries@ =~= before.remove(before.len() - 1));
                lemma_views_remove(before, before.len() - 1);
                lemma_views_contains(before, taken);
                broadcast use vstd::multiset::group_multiset_axioms;

            }
            if entry.location.len() > 0 && entry.location[0] == *m {
                entry.location.pop_front();
                proof {
                    assert(entry@.location =~= taken.location.drop_first());
                    assert(entry@ == taken.stripped());
                }
                self.push(entry);
                proof {
                    broadcast use vstd::multiset::group_multiset_axioms;

                    assert forall|x: EntryView| #[trigger]
                        self.bag().count(x) + views(entries@).to_multiset().count(x.prefixed(*m))
                            == given.count(x.prefixed(*m)) by {
                        assert(kept.count(x) + views(before).to_multiset().count(x.prefixed(*m))
                            == given.count(x.prefixed(*m)));
                        if x == taken.stripped() {
                            assert(x.prefixed(*m).location =~= taken.location);
                            assert(x.prefixed(*m) == taken);
                        }
                        if x.prefixed(*m) == taken {
                            assert(x.location =~= taken.location.drop_first());
                            assert(x == taken.stripped());
                        }
                    }
                }
            } else {
                proof {
                    assert forall|x: EntryView| #[trigger]
                        self.bag().count(x) + views(entries@).to_multiset().count(x.prefixed(*m))
                            == given.count(x.prefixed(*m)) by {
                        assert(kept.count(x) + views(before).to_multiset().count(x.prefixed(*m))
                            == given.count(x.prefixed(*m)));
                        assert(x.prefixed(*m).location[0] == *m);
                        assert(x.prefixed(*m) != taken);
                    }
                }
            }
        }
        proof {
            lemma_views_empty(entries@);
        }
    }

    /// A copy of the frontier.
    pub fn duplicate(&self) -> (r: Frontier)
        ensures
            r.bag() == self.bag(),
    {
        proof {
            use_type_invariant(self);
        }
        let mut entries: Vec<ValuedMoveLocation> = Vec::new();
        let mut i: usize = 0;
        while i < self.entries.len()
            invariant
                i <= self.entries.len(),
                entries@.len() == i,
                forall|k: int| 0 <= k < i ==> (#[trigger] entries@[k])@ == self.entries@[k]@,
            decreases self.entries.len() - i,
        {
            entries.push(self.entries[i].duplicate());
            i += 1;
        }
        proof {
            assert(views(entries@) =~= views(self.entries@));
            assert forall|k: int| 0 < k < entries@.len() implies crate::heap::above(
                entries@,
                #[trigger] up(k),
                k,
            ) by {
                assert(crate::heap::above(self.entries@, up(k), k));
            }
        }
        Frontier { entries }
    }

    /// The pending expansions from the greatest down, as `pop` would take
    /// them.
    pub fn in_order(&self) -> (r: Vec<ValuedMoveLocation>)
        ensures
            views(r@).to_multiset() == self.bag(),
            forall|i: int, j: int|
                0 <= i < j < r@.len() ==> !(#[trigger] r@[i])@.below((#[trigger] r@[j])@),
    {
        let mut rest = self.duplicate();
        let mut out: Vec<ValuedMoveLocation> = Vec::new();
        proof {
            broadcast use vstd::multiset::group_multiset_axioms;

            lemma_views_empty(out@);
            assert(views(out@).to_multiset().add(rest.bag()) =~= self.bag());
        }
        loop
            invariant
                views(out@).to_multiset().add(rest.bag()) == self.bag(),
                forall|i: int, j: int|
                    0 <= i < j < out@.len() ==> !(#[trigger] out@[i])@.below((#[trigger] out@[j])@),
                forall|i: int| 0 <= i < out@.len() ==> over((#[trigger] out@[i])@, rest.bag()),
            ensures
                views(out@).to_multiset() == self.bag(),
            decreases rest.bag().len(),
        {
            let ghost before = out@;
            let ghost left = rest.bag();
            match rest.pop() {
                None => {
                    proof {
                        broadcast use vstd::multiset::group_multiset_axioms;

                        assert(left =~= Multiset::<EntryView>::empty());
                        assert(views(out@).to_multiset().add(left) =~= views(out@).to_multiset());
                    }
                    break ;
                },
                Some(top) => {
                    proof {
                        lemma_views_push(before, top);
                    }
                    out.push(top);
                    proof {
                        broadcast use vstd::multiset::group_multiset_axioms;

                        assert(views(out@).to_multiset().add(rest.bag()) =~= views(
                            before,
                        ).to_multiset().add(left));
                        assert forall|i: int| 0 <= i < out@.len() implies over(
                            (#[trigger] out@[i])@,
                            rest.bag(),
                        ) by {
                            if i < before.len() {
                                assert(over(before[i]@, left));
                            }
                            assert forall|x: EntryView| #[trigger]
                                rest.bag().count(x) > 0 implies !out@[i]@.below(x) by {
                                assert(left.count(x) > 0);
                            }
                        }
                        assert forall|i: int, j: int| 0 <= i < j < out@.len() implies !(
                        #[trigger] out@[i])@.below((#[trigger] out@[j])@) by {
                            if j == before.len() {
                                assert(over(before[i]@, left));
                                assert(left.count(top@) > 0);
                            }
                        }
                    }
                },
            }
        }
        out
    }
}

} // verus!
