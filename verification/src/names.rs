//! Names in order: lists of texts that ascend by their bytes, each name once.

use crate::text;
use vstd::prelude::*;
use vstd::string::*;

verus! {

/// Whether `a` comes before `b` when they are compared byte by byte.
pub open spec fn before(a: Seq<u8>, b: Seq<u8>) -> bool
    decreases a.len(),
{
    if b.len() == 0 {
        false
    } else if a.len() == 0 {
        true
    } else if a[0] != b[0] {
        a[0] < b[0]
    } else {
        before(a.drop_first(), b.drop_first())
    }
}

/// The order is total and strict: exactly one of `a` before `b`, `b` before `a` and equality holds.
pub proof fn law_before_total(a: Seq<u8>, b: Seq<u8>)
    ensures
        before(a, b) || before(b, a) || a == b,
        !(before(a, b) && before(b, a)),
        !before(a, a),
        before(a, b) ==> a != b,
    decreases a.len(),
{
    if a.len() > 0 && b.len() > 0 {
        law_before_total(a.drop_first(), b.drop_first());
        law_before_total(a.drop_first(), a.drop_first());
        if a[0] == b[0] && a.drop_first() == b.drop_first() {
            assert(a =~= seq![a[0]] + a.drop_first());
            assert(b =~= seq![b[0]] + b.drop_first());
        }
    } else {
        if a.len() == 0 && b.len() == 0 {
            assert(a =~= b);
        }
        if a.len() > 0 {
            law_before_total(a.drop_first(), a.drop_first());
        }
    }
}

/// The order is transitive.
pub proof fn law_before_transitive(a: Seq<u8>, b: Seq<u8>, c: Seq<u8>)
    requires
        before(a, b),
        before(b, c),
    ensures
        before(a, c),
    decreases a.len(),
{
    if a.len() > 0 && b.len() > 0 && c.len() > 0 && a[0] == b[0] && b[0] == c[0] {
        law_before_transitive(a.drop_first(), b.drop_first(), c.drop_first());
    }
}

/// Whether `a` comes before `b` when they are compared byte by byte.
pub fn comes_before(a: &str, b: &str) -> (r: bool)
    ensures
        r == before(a.spec_bytes(), b.spec_bytes()),
{
    let x = a.as_bytes();
    let y = b.as_bytes();
    let mut i: usize = 0;
    assert(text::from(x@, 0) =~= x@);
    assert(text::from(y@, 0) =~= y@);
    while i < x.len() && i < y.len() && x[i] == y[i]
        invariant
            i <= x@.len(),
            i <= y@.len(),
            before(x@, y@) == before(text::from(x@, i as int), text::from(y@, i as int)),
        decreases x@.len() - i,
    {
        assert(text::from(x@, i as int).drop_first() =~= text::from(x@, i + 1));
        assert(text::from(y@, i as int).drop_first() =~= text::from(y@, i + 1));
        i += 1;
    }
    if i >= y.len() {
        false
    } else if i >= x.len() {
        true
    } else {
        x[i] < y[i]
    }
}

/// The bytes of each text of a list.
pub open spec fn spelled(names: Seq<String>) -> Seq<Seq<u8>> {
    names.map_values(|s: String| text::bytes_of(s@))
}

/// Whether the names ascend, so that none occurs twice.
pub open spec fn ascending(names: Seq<Seq<u8>>) -> bool {
    forall|i: int, j: int|
        #![trigger names[i], names[j]]
        0 <= i < j < names.len() ==> before(names[i], names[j])
}

/// The set of names that a list spells.
pub open spec fn name_set(names: Seq<String>) -> Set<Seq<u8>> {
    spelled(names).to_set()
}

/// The names of a set in ascending order.
pub open spec fn in_order(set: Set<Seq<u8>>) -> Seq<Seq<u8>> {
    choose|names: Seq<Seq<u8>>| ascending(names) && names.to_set() == set
}

/// An ascending list is its set in order.
pub proof fn law_in_order(names: Seq<Seq<u8>>)
    requires
        ascending(names),
    ensures
        in_order(names.to_set()) == names,
{
    let set = names.to_set();
    assert(ascending(names) && names.to_set() == set);
    law_ascending_unique(in_order(set), names);
}

/// Two ascending lists of the same names are equal.
pub proof fn law_ascending_unique(a: Seq<Seq<u8>>, b: Seq<Seq<u8>>)
    requires
        ascending(a),
        ascending(b),
        a.to_set() == b.to_set(),
    ensures
        a == b,
    decreases a.len(),
{
    if a.len() == 0 {
        if b.len() > 0 {
            assert(b.to_set().contains(b[0]));
            assert(a.to_set().contains(b[0]));
        }
        assert(a =~= b);
    } else {
        assert(a.to_set().contains(a[0]));
        assert(b.to_set().contains(a[0]));
        let k = choose|k: int| 0 <= k < b.len() && b[k] == a[0];
        assert(b.to_set().contains(b[0]));
        assert(a.to_set().contains(b[0]));
        let m = choose|m: int| 0 <= m < a.len() && a[m] == b[0];
        law_before_total(a[0], b[0]);
        assert(a[0] == b[0]) by {
            if k > 0 {
                assert(before(b[0], b[k]));
            }
            if m > 0 {
                assert(before(a[0], a[m]));
            }
        }
        let ta = a.drop_first();
        let tb = b.drop_first();
        assert forall|i: int, j: int|
            #![trigger ta[i], ta[j]]
            0 <= i < j < ta.len() implies before(ta[i], ta[j]) by {
            assert(before(a[i + 1], a[j + 1]));
        }
        assert forall|i: int, j: int|
            #![trigger tb[i], tb[j]]
            0 <= i < j < tb.len() implies before(tb[i], tb[j]) by {
            assert(before(b[i + 1], b[j + 1]));
        }
        assert(ta.to_set() =~= tb.to_set()) by {
            assert forall|x: Seq<u8>| ta.to_set().contains(x) == tb.to_set().contains(x) by {
                lemma_tail_member(a, x);
                lemma_tail_member(b, x);
            }
        }
        law_ascending_unique(ta, tb);
        assert(a =~= seq![a[0]] + ta);
        assert(b =~= seq![b[0]] + tb);
    }
}

proof fn lemma_tail_member(a: Seq<Seq<u8>>, x: Seq<u8>)
    requires
        ascending(a),
        a.len() > 0,
    ensures
        a.drop_first().to_set().contains(x) == (a.to_set().contains(x) && x != a[0]),
{
    let t = a.drop_first();
    if t.to_set().contains(x) {
        let i = choose|i: int| 0 <= i < t.len() && t[i] == x;
        assert(a[i + 1] == x);
        assert(before(a[0], a[i + 1]));
        law_before_total(a[0], x);
        assert(a.contains(x));
    }
    if a.to_set().contains(x) && x != a[0] {
        let i = choose|i: int| 0 <= i < a.len() && a[i] == x;
        assert(t[i - 1] == x);
    }
}

/// Whether `name` is in the list.
pub fn contains_name(names: &[String], name: &str) -> (r: bool)
    ensures
        r == name_set(names@).contains(name.spec_bytes()),
{
    let ghost all = spelled(names@);
    let mut i: usize = 0;
    while i < names.len()
        invariant
            i <= names@.len(),
            all == spelled(names@),
            forall|k: int| 0 <= k < i ==> #[trigger] all[k] != name.spec_bytes(),
        decreases names@.len() - i,
    {
        assert(all[i as int] == text::bytes_of(names@[i as int]@));
        if text::same_str(names[i].as_str(), name) {
            assert(all.contains(name.spec_bytes()));
            return true;
        }
        i += 1;
    }
    false
}

/// Puts `name` where it belongs, unless it is in the list already.
pub fn insert_name(names: &mut Vec<String>, name: String)
    requires
        ascending(spelled(old(names)@)),
    ensures
        ascending(spelled(final(names)@)),
        name_set(final(names)@) == name_set(old(names)@).insert(text::bytes_of(name@)),
{
    let ghost all = spelled(names@);
    let ghost x = text::bytes_of(name@);
    let mut i: usize = 0;
    while i < names.len() && comes_before(names[i].as_str(), name.as_str())
        invariant
            i <= names@.len(),
            all == spelled(names@),
            x == text::bytes_of(name@),
            forall|k: int| 0 <= k < i ==> before(#[trigger] all[k], x),
        decreases names@.len() - i,
    {
        i += 1;
    }
    if i < names.len() && text::same_str(names[i].as_str(), name.as_str()) {
        assert(all[i as int] == x);
        assert(all.contains(x));
        assert(all.to_set().insert(x) =~= all.to_set());
    } else {
        proof {
            if i < all.len() {
                text::lemma_bytes_injective(names@[i as int]@, name@);
                law_before_total(all[i as int], x);
            }
            assert forall|k: int| i <= k < all.len() implies before(x, #[trigger] all[k]) by {
                if k > i {
                    law_before_transitive(x, all[i as int], all[k]);
                }
            }
        }
        let ghost old_names = names@;
        names.insert(i, name);
        proof {
            let new = spelled(names@);
            assert(new =~= all.insert(i as int, x));
            assert forall|a: int, b: int|
                #![trigger new[a], new[b]]
                0 <= a < b < new.len() implies before(new[a], new[b]) by {
                let p = if a < i { a } else { a - 1 };
                let q = if b < i { b } else { b - 1 };
                if a != i && b != i {
                    assert(before(all[p], all[q]));
                } else if a == i {
                    assert(before(x, all[q]));
                } else {
                    assert(before(all[p], x));
                }
            }
            assert forall|y: Seq<u8>| new.to_set().contains(y) == all.to_set().insert(x).contains(
                y,
            ) by {
                if new.to_set().contains(y) {
                    let k = choose|k: int| 0 <= k < new.len() && new[k] == y;
                    if k != i {
                        let p = if k < i { k } else { k - 1 };
                        assert(all[p] == y);
                    }
                }
                if all.to_set().contains(y) {
                    let p = choose|p: int| 0 <= p < all.len() && all[p] == y;
                    let k = if p < i { p } else { p + 1 };
                    assert(new[k] == y);
                }
                assert(new[i as int] == x);
            }
            assert(new.to_set() =~= all.to_set().insert(x));
        }
    }
}

/// Puts every name of `more` into the list.
pub fn insert_names(names: &mut Vec<String>, more: &[String])
    requires
        ascending(spelled(old(names)@)),
    ensures
        ascending(spelled(final(names)@)),
        name_set(final(names)@) == name_set(old(names)@).union(name_set(more@)),
{
    let ghost start = name_set(names@);
    let ghost all = spelled(more@);
    let mut i: usize = 0;
    assert(start.union(all.take(0).to_set()) =~= start);
    while i < more.len()
        invariant
            i <= more@.len(),
            all == spelled(more@),
            ascending(spelled(names@)),
            name_set(names@) == start.union(all.take(i as int).to_set()),
        decreases more@.len() - i,
    {
        insert_name(names, more[i].clone());
        proof {
            let front = all.take(i as int);
            let next = all.take(i + 1);
            assert(next =~= front.push(all[i as int]));
            assert forall|y: Seq<u8>| next.to_set().contains(y) == front.to_set().insert(
                all[i as int],
            ).contains(y) by {
                if next.to_set().contains(y) {
                    let k = choose|k: int| 0 <= k < next.len() && next[k] == y;
                    if k < i {
                        assert(front[k] == y);
                    }
                }
                if front.to_set().contains(y) {
                    let k = choose|k: int| 0 <= k < front.len() && front[k] == y;
                    assert(next[k] == y);
                }
                assert(next[i as int] == all[i as int]);
            }
            assert(start.union(next.to_set()) =~= start.union(front.to_set()).insert(
                all[i as int],
            ));
        }
        i += 1;
    }
    assert(all.take(all.len() as int) =~= all);
}

/// A name can be put into an ascending list.
proof fn lemma_put(list: Seq<Seq<u8>>, x: Seq<u8>) -> (r: Seq<Seq<u8>>)
    requires
        ascending(list),
        !list.contains(x),
    ensures
        ascending(r),
        forall|y: Seq<u8>| r.contains(y) <==> list.contains(y) || y == x,
        r.len() == list.len() + 1,
    decreases list.len(),
{
    if list.len() == 0 || before(list.last(), x) {
        let r = list.push(x);
        assert forall|i: int, j: int| #![trigger r[i], r[j]] 0 <= i < j < r.len() implies before(
            r[i],
            r[j],
        ) by {
            if j == list.len() && i < list.len() - 1 {
                assert(before(list[i], list[list.len() - 1]));
                law_before_transitive(list[i], list.last(), x);
            }
        }
        assert forall|y: Seq<u8>| r.contains(y) <==> list.contains(y) || y == x by {
            if list.contains(y) {
                assert(r[list.index_of(y)] == y);
            }
            assert(r[list.len() as int] == x);
            if r.contains(y) && y != x {
                assert(list[r.index_of(y)] == y);
            }
        }
        r
    } else {
        let front = list.drop_last();
        let last = list.last();
        assert forall|i: int, j: int| #![trigger front[i], front[j]] 0 <= i < j
            < front.len() implies before(front[i], front[j]) by {
            assert(front[i] == list[i] && front[j] == list[j]);
        }
        assert(!front.contains(x)) by {
            if front.contains(x) {
                assert(list[front.index_of(x)] == x);
            }
        }
        assert(list[list.len() - 1] == last);
        law_before_total(last, x);
        let f = lemma_put(front, x);
        let r = f.push(last);
        assert forall|i: int, j: int| #![trigger r[i], r[j]] 0 <= i < j < r.len() implies before(
            r[i],
            r[j],
        ) by {
            if j == f.len() {
                assert(f.contains(f[i]));
                if f[i] != x {
                    let k = front.index_of(f[i]);
                    assert(before(list[k], list[list.len() - 1]));
                }
            }
        }
        assert forall|y: Seq<u8>| r.contains(y) <==> list.contains(y) || y == x by {
            if list.contains(y) {
                let k = list.index_of(y);
                if k < front.len() {
                    assert(front[k] == y);
                    assert(f.contains(y));
                    assert(r[f.index_of(y)] == y);
                } else {
                    assert(r[f.len() as int] == y);
                }
            }
            if y == x {
                assert(f.contains(y));
                assert(r[f.index_of(y)] == y);
            }
            if r.contains(y) {
                let k = r.index_of(y);
                if k < f.len() {
                    assert(f[k] == y);
                    assert(f.contains(y));
                    if y != x {
                        assert(list[front.index_of(y)] == y);
                    }
                } else {
                    assert(list[list.len() - 1] == y);
                }
            }
        }
        r
    }
}

proof fn lemma_listed(set: Set<Seq<u8>>) -> (r: Seq<Seq<u8>>)
    requires
        set.finite(),
    ensures
        ascending(r),
        r.to_set() == set,
    decreases set.len(),
{
    if set.len() == 0 {
        let r = Seq::<Seq<u8>>::empty();
        assert(set =~= Set::empty());
        assert(r.to_set() =~= set);
        r
    } else {
        let x = set.choose();
        let f = lemma_listed(set.remove(x));
        assert(!f.contains(x)) by {
            assert(!f.to_set().contains(x));
        }
        let r = lemma_put(f, x);
        assert forall|y: Seq<u8>| r.to_set().contains(y) == set.contains(y) by {
            assert(f.contains(y) == f.to_set().contains(y));
        }
        assert(r.to_set() =~= set);
        r
    }
}

/// A set in order ascends and has the names of the set, and no others.
pub proof fn law_in_order_lists_all(set: Set<Seq<u8>>)
    requires
        set.finite(),
    ensures
        ascending(in_order(set)),
        forall|x: Seq<u8>| in_order(set).contains(x) <==> #[trigger] set.contains(x),
{
    let r = lemma_listed(set);
    law_in_order(r);
    assert forall|x: Seq<u8>| in_order(set).contains(x) <==> #[trigger] set.contains(x) by {
        assert(r.contains(x) == r.to_set().contains(x));
    }
}

} // verus!
