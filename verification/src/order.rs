//! Ordering findings by the place they point at.

use crate::lang_api;
use vstd::prelude::*;

verus! {

/// A model that has a place in a document: a pair of offsets that is compared in order.
pub trait Placed {
    /// The place.
    spec fn place(&self) -> (int, int);
}

/// An item whose model has a place.
pub trait HasPlace: View + Sized where <Self as View>::V: Placed {
    /// The place of the model.
    fn place_of(&self) -> (r: (usize, usize))
        ensures
            (r.0 as int, r.1 as int) == self@.place(),
    ;
}

/// Whether place `a` does not come after place `b`.
pub open spec fn place_le(a: (int, int), b: (int, int)) -> bool {
    a.0 < b.0 || (a.0 == b.0 && a.1 <= b.1)
}

/// `items` with `x` put behind the last item that does not come after it.
pub open spec fn insert_sorted<V: Placed>(items: Seq<V>, x: V) -> Seq<V>
    decreases items.len(),
{
    if items.len() == 0 || place_le(items.last().place(), x.place()) {
        items.push(x)
    } else {
        insert_sorted(items.drop_last(), x).push(items.last())
    }
}

/// `items` ordered by place; items at the same place keep their order.
pub open spec fn stable_sort<V: Placed>(items: Seq<V>) -> Seq<V>
    decreases items.len(),
{
    if items.len() == 0 {
        items
    } else {
        insert_sorted(stable_sort(items.drop_last()), items.last())
    }
}

/// Whether `items` are ordered by place.
pub open spec fn is_sorted<V: Placed>(items: Seq<V>) -> bool {
    forall|i: int, j: int|
        #![trigger items[i], items[j]]
        0 <= i <= j < items.len() ==> place_le(items[i].place(), items[j].place())
}

proof fn lemma_insert_sorted<V: Placed>(items: Seq<V>, x: V)
    requires
        is_sorted(items),
    ensures
        is_sorted(insert_sorted(items, x)),
        insert_sorted(items, x).to_multiset() == items.to_multiset().insert(x),
        insert_sorted(items, x).len() == items.len() + 1,
        forall|i: int|
            0 <= i < items.len() + 1 ==> (#[trigger] insert_sorted(items, x)[i] == x || exists|j: int|
                0 <= j < items.len() && items[j] == insert_sorted(items, x)[i]),
    decreases items.len(),
{
    broadcast use vstd::seq_lib::group_to_multiset_ensures;

    let r = insert_sorted(items, x);
    if items.len() == 0 || place_le(items.last().place(), x.place()) {
        assert(r == items.push(x));
        assert forall|i: int| 0 <= i < items.len() + 1 implies (#[trigger] r[i] == x || exists|j: int|
            0 <= j < items.len() && items[j] == r[i]) by {
            if i < items.len() {
                assert(items[i] == r[i]);
            }
        }
    } else {
        let front = items.drop_last();
        assert(is_sorted(front)) by {
            assert forall|i: int, j: int| #![trigger front[i], front[j]] 0 <= i <= j
                < front.len() implies place_le(front[i].place(), front[j].place()) by {
                assert(front[i] == items[i] && front[j] == items[j]);
            }
        }
        lemma_insert_sorted(front, x);
        let rf = insert_sorted(front, x);
        assert(items == front.push(items.last()));
        assert forall|i: int| 0 <= i < rf.len() implies place_le(
            (#[trigger] rf[i]).place(),
            items.last().place(),
        ) by {
            if rf[i] != x {
                let j = choose|j: int| 0 <= j < front.len() && front[j] == rf[i];
                assert(items[j] == front[j]);
            }
        }
        assert forall|i: int| 0 <= i < items.len() + 1 implies (#[trigger] r[i] == x || exists|j: int|
            0 <= j < items.len() && items[j] == r[i]) by {
            if i < rf.len() {
                assert(r[i] == rf[i]);
                if rf[i] != x {
                    let j = choose|j: int| 0 <= j < front.len() && front[j] == rf[i];
                    assert(items[j] == front[j]);
                }
            } else {
                assert(items[items.len() - 1] == r[i]);
            }
        }
        assert(items.to_multiset() == front.to_multiset().insert(items.last()));
        assert(r.to_multiset() == rf.to_multiset().insert(items.last()));
        assert(r.to_multiset() =~= items.to_multiset().insert(x));
    }
}

/// Ordering by place yields an ordered list of the same items.
pub proof fn law_stable_sort<V: Placed>(items: Seq<V>)
    ensures
        is_sorted(stable_sort(items)),
        stable_sort(items).to_multiset() == items.to_multiset(),
        stable_sort(items).len() == items.len(),
    decreases items.len(),
{
    broadcast use vstd::seq_lib::group_to_multiset_ensures;

    if items.len() > 0 {
        law_stable_sort(items.drop_last());
        lemma_insert_sorted(stable_sort(items.drop_last()), items.last());
        assert(items == items.drop_last().push(items.last()));
    }
}

/// A list that is ordered already stays as it is.
pub proof fn law_sort_keeps_sorted<V: Placed>(items: Seq<V>)
    requires
        is_sorted(items),
    ensures
        stable_sort(items) == items,
    decreases items.len(),
{
    if items.len() > 0 {
        let front = items.drop_last();
        assert forall|i: int, j: int| #![trigger front[i], front[j]] 0 <= i <= j
            < front.len() implies place_le(front[i].place(), front[j].place()) by {
            assert(front[i] == items[i] && front[j] == items[j]);
        }
        law_sort_keeps_sorted(front);
        if front.len() > 0 {
            assert(front.last() == items[items.len() - 2]);
        }
        assert(front.push(items.last()) =~= items);
    }
}

/// Puts `x` behind the last item of `items` that does not come after it.
pub fn insert_by_place<T: HasPlace>(items: &mut Vec<T>, x: T) where <T as View>::V: Placed
    ensures
        lang_api::views(final(items)@) == insert_sorted(lang_api::views(old(items)@), x@),
{
    let ghost before = lang_api::views(items@);
    let p: (usize, usize) = x.place_of();
    let mut i: usize = items.len();
    let n: usize = items.len();
    assert(before.take(n as int) =~= before);
    assert(before.subrange(n as int, n as int) =~= Seq::empty());
    assert(insert_sorted(before.take(n as int), x@) + before.subrange(n as int, n as int)
        =~= insert_sorted(before, x@));
    while i > 0
        invariant_except_break
            i <= n,
        invariant
            i <= n,
            n == items@.len(),
            before == lang_api::views(items@),
            before.len() == n,
            (p.0 as int, p.1 as int) == x@.place(),
            insert_sorted(before.take(i as int), x@) + before.subrange(i as int, n as int)
                == insert_sorted(before, x@),
        ensures
            i == 0 || place_le(before[i - 1].place(), x@.place()),
        decreases i,
    {
        let q: (usize, usize) = items[i - 1].place_of();
        assert(before[i - 1] == items@[i - 1]@);
        if q.0 < p.0 || (q.0 == p.0 && q.1 <= p.1) {
            break;
        }
        proof {
            let front = before.take(i as int);
            assert(front.last() == before[i - 1]);
            assert(front.drop_last() =~= before.take(i - 1));
            assert((insert_sorted(before.take(i - 1), x@).push(front.last())) + before.subrange(
                i as int,
                n as int,
            ) =~= insert_sorted(before.take(i - 1), x@) + before.subrange(i - 1, n as int));
        }
        i -= 1;
    }
    proof {
        if i > 0 {
            assert(before.take(i as int).last() == before[i - 1]);
        }
        assert(insert_sorted(before.take(i as int), x@) == before.take(i as int).push(x@));
    }
    let ghost old_items = items@;
    let ghost xv = x;
    items.insert(i, x);
    proof {
        assert(lang_api::views(items@) =~= before.take(i as int).push(xv@) + before.subrange(
            i as int,
            n as int,
        ));
    }
}

/// Orders `items` by place; items at the same place keep their order.
pub fn sort_by_place<T: HasPlace>(items: Vec<T>) -> (r: Vec<T>) where <T as View>::V: Placed
    ensures
        lang_api::views(r@) == stable_sort(lang_api::views(items@)),
{
    let mut r: Vec<T> = Vec::new();
    let ghost all = lang_api::views(items@);
    let ghost whole = items@;
    assert(lang_api::views(r@) =~= all.take(0));
    for x in it: items
        invariant
            it.seq() == whole,
            all == lang_api::views(whole),
            lang_api::views(r@) == stable_sort(all.take(it.index() as int)),
    {
        proof {
            let k = it.index() as int;
            assert(all.take(k + 1).drop_last() =~= all.take(k));
            assert(all.take(k + 1).last() == x@);
        }
        insert_by_place(&mut r, x);
    }
    assert(all.take(all.len() as int) =~= all);
    r
}

} // verus!
