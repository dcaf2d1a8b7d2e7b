//! A binary heap of pending expansions in a vector: the greatest stands
//! first, and each stands no lower than the two that follow from it.

use crate::entry::{
    entry_order_is_total, entry_order_is_weak, views, EntryView, ValuedMoveLocation,
};
use vstd::prelude::*;
use vstd::seq_lib::{to_multiset_insert, to_multiset_remove};

verus! {

/// The place above place `i` in the heap.
pub open spec fn up(i: int) -> int {
    (i - 1) / 2
}

/// Whether the expansion at `i` stands no lower than the one at `j`.
pub open spec fn above(s: Seq<ValuedMoveLocation>, i: int, j: int) -> bool {
    !s[i]@.below(s[j]@)
}

/// Whether each expansion but the one at `skip` stands no higher than the one
/// above it, and each below `skip` no higher than the one above `skip`.
pub open spec fn heap_but_up(s: Seq<ValuedMoveLocation>, skip: int) -> bool {
    &&& forall|k: int| 0 < k < s.len() && k != skip ==> above(s, #[trigger] up(k), k)
    &&& forall|k: int| 0 < k < s.len() && up(k) == skip && skip > 0 ==> above(s, up(skip), k)
}

/// Whether each expansion that does not stand right below `skip` stands no
/// higher than the one above it, and each right below `skip` no higher than
/// the one above `skip`.
pub open spec fn heap_but_down(s: Seq<ValuedMoveLocation>, skip: int) -> bool {
    &&& forall|k: int| 0 < k < s.len() && #[trigger] up(k) != skip ==> above(s, up(k), k)
    &&& forall|k: int| 0 < k < s.len() && #[trigger] up(k) == skip && skip > 0 ==> above(s, up(skip), k)
}

/// Whether the sequence is a heap.
pub open spec fn heap(s: Seq<ValuedMoveLocation>) -> bool {
    forall|k: int| 0 < k < s.len() ==> above(s, #[trigger] up(k), k)
}

/// The first expansion of a heap stands no lower than any other.
pub proof fn lemma_first_is_top(s: Seq<ValuedMoveLocation>, k: int)
    requires
        heap(s),
        0 <= k < s.len(),
    ensures
        above(s, 0, k),
    decreases k,
{
    if k == 0 {
        entry_order_is_total(s[0]@, s[0]@, s[0]@);
    } else {
        lemma_first_is_top(s, up(k));
        assert(above(s, up(k), k));
        entry_order_is_weak(s[0]@, s[up(k)]@, s[k]@);
    }
}

/// Exchanging two expansions leaves the same expansions.
pub proof fn lemma_exchange_bag(s: Seq<ValuedMoveLocation>, a: int, b: int)
    requires
        0 <= a < s.len(),
        0 <= b < s.len(),
    ensures
        views(s.update(a, s[b]).update(b, s[a])).to_multiset() == views(s).to_multiset(),
{
    broadcast use vstd::multiset::group_multiset_axioms;

    let v = views(s);
    let mid = v.update(a, v[b]);
    let end = mid.update(b, v[a]);
    assert(views(s.update(a, s[b]).update(b, s[a])) =~= end);
    assert(mid =~= v.remove(a).insert(a, v[b]));
    assert(end =~= mid.remove(b).insert(b, v[a]));
    to_multiset_remove(v, a);
    to_multiset_insert(v.remove(a), a, v[b]);
    to_multiset_remove(mid, b);
    to_multiset_insert(mid.remove(b), b, v[a]);
    vstd::seq_lib::to_multiset_contains(v, v[a]);
    vstd::seq_lib::to_multiset_contains(v, v[b]);
    vstd::seq_lib::to_multiset_contains(mid, mid[b]);
    assert(v.contains(v[a]));
    assert(v.contains(v[b]));
    assert(mid.contains(mid[b]));
    assert(end.to_multiset() =~= v.to_multiset());
}

/// Exchanges the expansions at `a` and `b`.
pub(crate) fn exchange(v: &mut Vec<ValuedMoveLocation>, a: usize, b: usize)
    requires
        a < b < old(v).len(),
    ensures
        final(v)@ == old(v)@.update(a as int, old(v)@[b as int]).update(
            b as int,
            old(v)@[a as int],
        ),
{
    let ghost before = v@;
    let last = v.len() - 1;
    let mut held = v.swap_remove(b);
    v.set_and_swap(a, &mut held);
    v.push(held);
    if b < last {
        let tail = v.swap_remove(b);
        v.push(tail);
    }
    assert(v@ =~= before.update(a as int, before[b as int]).update(b as int, before[a as int]));
}

/// Lets the expansion at `start` rise to its place.
pub(crate) fn sift_up(v: &mut Vec<ValuedMoveLocation>, start: usize)
    requires
        start < old(v).len(),
        heap_but_up(old(v)@, start as int),
    ensures
        heap(final(v)@),
        views(final(v)@).to_multiset() == views(old(v)@).to_multiset(),
{
    let mut i = start;
    while i > 0
        invariant
            i < v.len(),
            heap_but_up(v@, i as int),
            views(v@).to_multiset() == views(old(v)@).to_multiset(),
        ensures
            heap(v@),
        decreases i,
    {
        let p = (i - 1) / 2;
        assert(p == up(i as int));
        if !v[p].is_below(&v[i]) {
            assert(above(v@, up(i as int), i as int));
            break;
        }
        let ghost s = v@;
        exchange(v, p, i);
        proof {
            lemma_exchange_bag(s, p as int, i as int);
            let t = v@;
            assert forall|k: int| 0 < k < t.len() && k != p implies above(t, #[trigger] up(k), k) by {
                if k == i {
                    entry_order_is_total(s[p as int]@, s[i as int]@, s[p as int]@);
                } else if up(k) == i {
                    assert(above(s, up(i as int), k));
                } else if up(k) == p {
                    assert(above(s, up(k), k));
                    entry_order_is_total(s[p as int]@, s[i as int]@, s[k]@);
                } else {
                    assert(above(s, up(k), k));
                }
            }
            assert forall|k: int| 0 < k < t.len() && up(k) == p && p > 0 implies above(
                t,
                up(p as int),
                k,
            ) by {
                assert(above(s, up(p as int), p as int));
                if k == i {
                } else {
                    assert(above(s, up(k), k));
                    entry_order_is_weak(s[up(p as int)]@, s[p as int]@, s[k]@);
                }
            }
        }
        i = p;
    }
}

/// Lets the expansion at `start` sink to its place.
pub(crate) fn sift_down(v: &mut Vec<ValuedMoveLocation>, start: usize)
    requires
        start < old(v).len(),
        heap_but_down(old(v)@, start as int),
    ensures
        heap(final(v)@),
        views(final(v)@).to_multiset() == views(old(v)@).to_multiset(),
{
    let mut i = start;
    loop
        invariant
            i < v.len(),
            heap_but_down(v@, i as int),
            views(v@).to_multiset() == views(old(v)@).to_multiset(),
        ensures
            heap(v@),
        decreases v.len() - i,
    {
        if i >= (v.len() - 1) / 2 + 1 {
            assert forall|k: int| 0 < k < v@.len() implies above(v@, #[trigger] up(k), k) by {
                assert(up(k) != i);
            }
            break;
        }
        let left = 2 * i + 1;
        if left >= v.len() {
            assert forall|k: int| 0 < k < v@.len() implies above(v@, #[trigger] up(k), k) by {
                assert(up(k) != i);
            }
            break;
        }
        let right = left + 1;
        let mut c = left;
        if right < v.len() && v[left].is_below(&v[right]) {
            c = right;
        }
        let ghost other = if c == left {
            right as int
        } else {
            left as int
        };
        proof {
            if right < v.len() {
                entry_order_is_total(v@[left as int]@, v@[right as int]@, v@[left as int]@);
                assert(above(v@, c as int, other));
            }
        }
        if !v[i].is_below(&v[c]) {
            assert forall|k: int| 0 < k < v@.len() implies above(v@, #[trigger] up(k), k) by {
                if up(k) == i {
                    if k != c {
                        assert(k == other);
                        entry_order_is_weak(v@[i as int]@, v@[c as int]@, v@[k]@);
                    }
                }
            }
            break;
        }
        let ghost s = v@;
        exchange(v, i, c);
        proof {
            lemma_exchange_bag(s, i as int, c as int);
            let t = v@;
            assert forall|k: int| 0 < k < t.len() && #[trigger] up(k) != c implies above(
                t,
                up(k),
                k,
            ) by {
                if k == i {
                    assert(up(c as int) == i);
                    assert(above(s, up(i as int), c as int));
                } else if k == c {
                    entry_order_is_total(s[i as int]@, s[c as int]@, s[i as int]@);
                } else if up(k) == i {
                    assert(k == other);
                } else {
                    assert(above(s, up(k), k));
                }
            }
            assert forall|k: int| 0 < k < t.len() && #[trigger] up(k) == c && c > 0 implies above(
                t,
                up(c as int),
                k,
            ) by {
                assert(up(k) != i);
                assert(above(s, up(k), k));
            }
        }
        i = c;
    }
}

} // verus!
