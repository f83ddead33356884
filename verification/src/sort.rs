//! Sorting that keeps equal items in their order.
use vstd::prelude::*;

verus! {

/// A sorted sequence with one more item in it, behind those that it does not belong before.
pub open spec fn placed<V>(s: Seq<V>, x: V, lt: spec_fn(V, V) -> bool) -> Seq<V>
    decreases s.len(),
{
    if s.len() > 0 && lt(x, s.last()) {
        placed(s.drop_last(), x, lt).push(s.last())
    } else {
        s.push(x)
    }
}

/// The items in the order of `lt`, equal ones in the order in which they came.
pub open spec fn sorted<V>(s: Seq<V>, lt: spec_fn(V, V) -> bool) -> Seq<V>
    decreases s.len(),
{
    if s.len() == 0 {
        s
    } else {
        placed(sorted(s.drop_last(), lt), s.last(), lt)
    }
}

/// Whether `lt` orders the items of a sequence: of two at most one comes before the other, and
/// what comes before an item comes before all that the item does not follow.
pub open spec fn orders<V>(s: Seq<V>, lt: spec_fn(V, V) -> bool) -> bool {
    &&& forall|a: V, b: V|
        s.contains(a) && s.contains(b) && #[trigger] lt(a, b) ==> !lt(b, a)
    &&& forall|a: V, b: V, c: V|
        s.contains(a) && s.contains(b) && s.contains(c) && #[trigger] lt(a, b) && !#[trigger] lt(
            c,
            b,
        ) ==> lt(a, c)
}

/// Whether no item comes before an earlier one.
pub open spec fn in_order<V>(s: Seq<V>, lt: spec_fn(V, V) -> bool) -> bool {
    forall|i: int, j: int| 0 <= i < j < s.len() ==> !lt(#[trigger] s[j], #[trigger] s[i])
}

/// The items of a sequence that are equal to `x` in the order of `lt`.
pub open spec fn peers<V>(s: Seq<V>, x: V, lt: spec_fn(V, V) -> bool) -> Seq<V>
    decreases s.len(),
{
    if s.len() == 0 {
        s
    } else {
        let rest = peers(s.drop_last(), x, lt);
        if lt(s.last(), x) || lt(x, s.last()) {
            rest
        } else {
            rest.push(s.last())
        }
    }
}

proof fn lemma_placed<V>(s: Seq<V>, x: V, lt: spec_fn(V, V) -> bool)
    ensures
        placed(s, x, lt).len() == s.len() + 1,
        placed(s, x, lt).to_multiset() == s.to_multiset().insert(x),
        forall|y: V| #[trigger] placed(s, x, lt).contains(y) <==> s.contains(y) || y == x,
    decreases s.len(),
{
    broadcast use vstd::seq_lib::group_to_multiset_ensures;

    if s.len() > 0 && lt(x, s.last()) {
        let front = placed(s.drop_last(), x, lt);
        lemma_placed(s.drop_last(), x, lt);
        assert(s =~= s.drop_last().push(s.last()));
        assert(placed(s, x, lt).to_multiset() =~= s.to_multiset().insert(x));
        assert forall|y: V| #[trigger] placed(s, x, lt).contains(y) <==> s.contains(y) || y == x by {
            assert(front.contains(y) <==> s.drop_last().contains(y) || y == x);
            if placed(s, x, lt).contains(y) {
                let i = choose|i: int| 0 <= i < front.len() + 1 && front.push(s.last())[i] == y;
                if i < front.len() {
                    assert(front[i] == y);
                    assert(front.contains(y));
                    if y != x {
                        let j = choose|j: int| 0 <= j < s.len() - 1 && s.drop_last()[j] == y;
                        assert(s[j] == y);
                    }
                } else {
                    assert(s[s.len() - 1] == y);
                }
            }
            if s.contains(y) || y == x {
                if s.contains(y) {
                    let j = choose|j: int| 0 <= j < s.len() && s[j] == y;
                    if j < s.len() - 1 {
                        assert(s.drop_last()[j] == y);
                        assert(s.drop_last().contains(y));
                    }
                }
                if front.contains(y) {
                    let i = choose|i: int| 0 <= i < front.len() && front[i] == y;
                    assert(front.push(s.last())[i] == y);
                } else {
                    assert(front.push(s.last())[front.len() as int] == y);
                }
            }
        }
    } else {
        assert forall|y: V| #[trigger] placed(s, x, lt).contains(y) <==> s.contains(y) || y == x by {
            if s.contains(y) {
                let j = choose|j: int| 0 <= j < s.len() && s[j] == y;
                assert(s.push(x)[j] == y);
            }
            assert(s.push(x)[s.len() as int] == x);
        }
    }
}

/// Sorting keeps the items and how often each occurs.
pub proof fn law_sorting_keeps_items<V>(s: Seq<V>, lt: spec_fn(V, V) -> bool)
    ensures
        sorted(s, lt).len() == s.len(),
        sorted(s, lt).to_multiset() == s.to_multiset(),
        forall|y: V| #[trigger] sorted(s, lt).contains(y) <==> s.contains(y),
    decreases s.len(),
{
    broadcast use vstd::seq_lib::group_to_multiset_ensures;

    if s.len() > 0 {
        law_sorting_keeps_items(s.drop_last(), lt);
        lemma_placed(sorted(s.drop_last(), lt), s.last(), lt);
        assert(s =~= s.drop_last().push(s.last()));
        assert(sorted(s, lt).to_multiset() =~= s.to_multiset());
        assert forall|y: V| #[trigger] sorted(s, lt).contains(y) <==> s.contains(y) by {
            assert(sorted(s.drop_last(), lt).contains(y) <==> s.drop_last().contains(y));
            if s.contains(y) {
                let j = choose|j: int| 0 <= j < s.len() && s[j] == y;
                if j < s.len() - 1 {
                    assert(s.drop_last()[j] == y);
                }
            }
            if s.drop_last().contains(y) {
                let j = choose|j: int| 0 <= j < s.len() - 1 && s.drop_last()[j] == y;
                assert(s[j] == y);
            }
            assert(s[s.len() - 1] == s.last());
        }
    }
}

proof fn lemma_placed_in_order<V>(s: Seq<V>, x: V, lt: spec_fn(V, V) -> bool)
    requires
        orders(s.push(x), lt),
        in_order(s, lt),
    ensures
        in_order(placed(s, x, lt), lt),
    decreases s.len(),
{
    let t = placed(s, x, lt);
    lemma_placed(s, x, lt);
    assert forall|y: V| s.contains(y) implies s.push(x).contains(y) by {
        let j = choose|j: int| 0 <= j < s.len() && s[j] == y;
        assert(s.push(x)[j] == y);
    }
    assert(s.push(x)[s.len() as int] == x);
    assert(s.push(x).contains(x));
    if s.len() > 0 && lt(x, s.last()) {
        let front = s.drop_last();
        assert forall|y: V| front.push(x).contains(y) implies s.push(x).contains(y) by {
            let j = choose|j: int| 0 <= j < front.len() + 1 && front.push(x)[j] == y;
            if j < front.len() {
                assert(s.push(x)[j] == y);
            }
        }
        lemma_placed_in_order(front, x, lt);
        lemma_placed(front, x, lt);
        let p = placed(front, x, lt);
        assert forall|i: int, j: int| 0 <= i < j < t.len() implies !lt(
            #[trigger] t[j],
            #[trigger] t[i],
        ) by {
            if j < p.len() {
                assert(t[i] == p[i] && t[j] == p[j]);
            } else {
                assert(t[j] == s.last());
                assert(t[i] == p[i]);
                assert(p.contains(p[i]));
                assert(s[s.len() - 1] == s.last());
                assert(s.contains(s.last()));
                if p[i] != x {
                    assert(front.contains(p[i]));
                    let k = choose|k: int| 0 <= k < front.len() && front[k] == p[i];
                    assert(s[k] == p[i]);
                    assert(!lt(s[s.len() - 1], s[k]));
                }
            }
        }
    } else {
        assert forall|i: int, j: int| 0 <= i < j < t.len() implies !lt(
            #[trigger] t[j],
            #[trigger] t[i],
        ) by {
            if j < s.len() {
                assert(!lt(s[j], s[i]));
            } else {
                assert(t[j] == x);
                assert(s.contains(s[i]));
                let last = s[s.len() - 1];
                assert(s.contains(last));
                if i < s.len() - 1 {
                    assert(!lt(last, s[i]));
                }
                if lt(x, s[i]) {
                    assert(lt(x, last));
                }
            }
        }
    }
}

/// Sorting puts the items in order.
pub proof fn law_sorting_orders<V>(s: Seq<V>, lt: spec_fn(V, V) -> bool)
    requires
        orders(s, lt),
    ensures
        in_order(sorted(s, lt), lt),
    decreases s.len(),
{
    if s.len() > 0 {
        let front = s.drop_last();
        assert forall|y: V| front.contains(y) implies s.contains(y) by {
            let j = choose|j: int| 0 <= j < front.len() && front[j] == y;
            assert(s[j] == y);
        }
        law_sorting_orders(front, lt);
        law_sorting_keeps_items(front, lt);
        let t = sorted(front, lt);
        assert forall|y: V| t.push(s.last()).contains(y) implies s.contains(y) by {
            let j = choose|j: int| 0 <= j < t.len() + 1 && t.push(s.last())[j] == y;
            if j < t.len() {
                assert(t[j] == y);
                assert(t.contains(y));
                assert(front.contains(y));
            } else {
                assert(s[s.len() - 1] == y);
            }
        }
        lemma_placed_in_order(t, s.last(), lt);
    }
}

proof fn lemma_placed_peers<V>(s: Seq<V>, x: V, y: V, lt: spec_fn(V, V) -> bool)
    requires
        orders(s.push(x).push(y), lt),
    ensures
        peers(placed(s, x, lt), y, lt) == peers(s.push(x), y, lt),
    decreases s.len(),
{
    let all = s.push(x).push(y);
    assert(s.push(x).drop_last() =~= s);
    if s.len() > 0 && lt(x, s.last()) {
        let front = s.drop_last();
        assert forall|z: V| front.push(x).push(y).contains(z) implies all.contains(z) by {
            let few = front.push(x).push(y);
            let j = choose|j: int| 0 <= j < few.len() && few[j] == z;
            if j < front.len() {
                assert(all[j] == z);
            } else {
                assert(all[j + 1] == z);
            }
        }
        lemma_placed_peers(front, x, y, lt);
        let p = placed(front, x, lt);
        assert(p.push(s.last()).drop_last() =~= p);
        assert(front.push(x).drop_last() =~= front);
        assert(all[s.len() - 1] == s.last() && all[s.len() as int] == x && all[s.len() as int + 1] == y);
        assert(all.contains(s.last()) && all.contains(x) && all.contains(y));
        assert(placed(s, x, lt) == p.push(s.last()));
        let rest = peers(front, y, lt);
        let behind = !(lt(s.last(), y) || lt(y, s.last()));
        let mine = !(lt(x, y) || lt(y, x));
        assert(peers(s, y, lt) == if behind {
            rest.push(s.last())
        } else {
            rest
        });
        assert(peers(front.push(x), y, lt) == if mine {
            rest.push(x)
        } else {
            rest
        });
        // Not both x and the item behind it can be equal to y.
        if behind {
            assert(lt(x, s.last()) && !lt(y, s.last()));
            assert(lt(x, y));
        }
    } else {
        assert(placed(s, x, lt) == s.push(x));
    }
}

/// Sorting leaves equal items in the order in which they came.
pub proof fn law_sorting_is_stable<V>(s: Seq<V>, x: V, lt: spec_fn(V, V) -> bool)
    requires
        orders(s, lt),
        s.contains(x),
    ensures
        peers(sorted(s, lt), x, lt) == peers(s, x, lt),
{
    lemma_stable(s, x, lt, s);
}

proof fn lemma_stable<V>(s: Seq<V>, x: V, lt: spec_fn(V, V) -> bool, all: Seq<V>)
    requires
        orders(all, lt),
        all.contains(x),
        forall|y: V| s.contains(y) ==> all.contains(y),
    ensures
        peers(sorted(s, lt), x, lt) == peers(s, x, lt),
    decreases s.len(),
{
    if s.len() > 0 {
        let front = s.drop_last();
        assert forall|y: V| front.contains(y) implies all.contains(y) by {
            let j = choose|j: int| 0 <= j < front.len() && front[j] == y;
            assert(s[j] == y);
            assert(s.contains(y));
        }
        lemma_stable(front, x, lt, all);
        law_sorting_keeps_items(front, lt);
        let t = sorted(front, lt);
        let few = t.push(s.last()).push(x);
        assert forall|y: V| few.contains(y) implies all.contains(y) by {
            let j = choose|j: int| 0 <= j < few.len() && few[j] == y;
            if j < t.len() {
                assert(t[j] == y);
                assert(t.contains(y));
                assert(front.contains(y));
            } else if j == t.len() {
                assert(s[s.len() - 1] == y);
                assert(s.contains(y));
            }
        }
        lemma_placed_peers(t, s.last(), x, lt);
        assert(t.push(s.last()).drop_last() =~= t);
    }
}

/// Puts the items in the order of `less`, equal ones in the order in which they came.
pub(crate) fn sort_by<T: View, F: Fn(&T, &T) -> bool>(
    items: &mut Vec<T>,
    less: F,
    Ghost(lt): Ghost<spec_fn(T::V, T::V) -> bool>,
)
    requires
        forall|a: T, b: T| #[trigger] call_requires(less, (&a, &b)),
        forall|a: T, b: T, r: bool| #[trigger] call_ensures(less, (&a, &b), r) ==> r == lt(a@, b@),
    ensures
        crate::lists::models(final(items)@) == sorted(crate::lists::models(old(items)@), lt),
{
    let ghost start = items@;
    let mut done: usize = 0;
    proof {
        assert(crate::lists::models(items@.take(0)) =~= Seq::empty());
        assert(crate::lists::models(start).take(0) =~= Seq::empty());
    }
    while done < items.len()
        invariant
            forall|a: T, b: T| #[trigger] call_requires(less, (&a, &b)),
            forall|a: T, b: T, r: bool| #[trigger]
                call_ensures(less, (&a, &b), r) ==> r == lt(a@, b@),
            done <= items@.len(),
            items@.len() == start.len(),
            crate::lists::models(items@.take(done as int)) == sorted(
                crate::lists::models(start).take(done as int),
                lt,
            ),
            forall|i: int| done <= i < items@.len() ==> items@[i] == start[i],
        decreases items@.len() - done,
    {
        let ghost before = items@;
        let ghost front = crate::lists::models(before.take(done as int));
        let mut at: usize = done;
        proof {
            assert(front.take(done as int) =~= front);
            assert(placed(front, before[done as int]@, lt) + front.skip(done as int) =~= placed(
                front,
                before[done as int]@,
                lt,
            ));
        }
        while at > 0 && less(&items[done], &items[at - 1])
            invariant
                forall|a: T, b: T| #[trigger] call_requires(less, (&a, &b)),
                forall|a: T, b: T, r: bool| #[trigger]
                    call_ensures(less, (&a, &b), r) ==> r == lt(a@, b@),
                at <= done < items@.len(),
                items@ == before,
                front == crate::lists::models(before.take(done as int)),
                placed(front, before[done as int]@, lt) == placed(
                    front.take(at as int),
                    before[done as int]@,
                    lt,
                ) + front.skip(at as int),
            ensures
                at <= done,
                items@ == before,
                placed(front, before[done as int]@, lt) == front.take(at as int).push(
                    before[done as int]@,
                ) + front.skip(at as int),
            decreases at,
        {
            proof {
                let part = front.take(at as int);
                assert(part.drop_last() =~= front.take(at - 1));
                assert(part.last() == before[at - 1]@);
                assert(placed(front.take(at - 1), before[done as int]@, lt).push(part.last())
                    + front.skip(at as int) =~= placed(
                    front.take(at - 1),
                    before[done as int]@,
                    lt,
                ) + front.skip(at - 1));
            }
            at = at - 1;
        }
        let item: T = items.remove(done);
        items.insert(at, item);
        proof {
            let s = crate::lists::models(start);
            assert(s.take(done + 1).drop_last() =~= s.take(done as int));
            assert(s.take(done + 1).last() == before[done as int]@);
            assert(crate::lists::models(items@.take(done + 1)) =~= front.take(at as int).push(
                before[done as int]@,
            ) + front.skip(at as int));
        }
        done = done + 1;
    }
    proof {
        assert(items@.take(done as int) =~= items@);
        assert(crate::lists::models(start).take(done as int) =~= crate::lists::models(start));
    }
}

} // verus!
