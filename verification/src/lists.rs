//! Lists: their items' models, copies, filters and bounds.
use std::collections::VecDeque;

use vstd::prelude::*;

use crate::binary64::Binary64;

verus! {

/// The views of a sequence of values.
pub open spec fn models<T: View>(s: Seq<T>) -> Seq<T::V> {
    Seq::new(s.len(), |i: int| s[i]@)
}

/// A copy of every item.
pub fn copy_all<T: View + Clone>(items: &Vec<T>) -> (copy: Vec<T>)
    requires
        forall|a: T, b: T| #[trigger] call_ensures(T::clone, (&a,), b) ==> b@ == a@,
    ensures
        models(copy@) == models(items@),
{
    let mut copy: Vec<T> = Vec::new();
    let mut i: usize = 0;
    while i < items.len()
        invariant
            i <= items@.len(),
            forall|a: T, b: T| #[trigger] call_ensures(T::clone, (&a,), b) ==> b@ == a@,
            models(copy@) == models(items@).take(i as int),
        decreases items@.len() - i,
    {
        let ghost before = models(copy@);
        let item: T = items[i].clone();
        proof {
            assert(item@ == items@[i as int]@);
        }
        copy.push(item);
        proof {
            assert(models(copy@) =~= before.push(item@));
            assert(models(copy@) =~= models(items@).take(i + 1));
        }
        i = i + 1;
    }
    proof {
        assert(models(items@).take(i as int) =~= models(items@));
    }
    copy
}


/// Keeps the items that `keep` holds for.
pub(crate) fn retain_by<T: View, F: Fn(&T) -> bool>(
    items: &mut Vec<T>,
    keep: F,
    Ghost(kept): Ghost<spec_fn(T::V) -> bool>,
)
    requires
        forall|a: T| #[trigger] call_requires(keep, (&a,)),
        forall|a: T, r: bool| #[trigger] call_ensures(keep, (&a,), r) ==> r == kept(a@),
    ensures
        models(final(items)@) == models(old(items)@).filter(kept),
{
    let ghost all = models(items@);
    let ghost mut seen: int = 0;
    let mut i: usize = 0;
    proof {
        reveal(Seq::filter);
        assert(models(items@.take(0)) =~= all.take(0).filter(kept));
        assert(models(items@.skip(0)) =~= all.skip(0));
    }
    while i < items.len()
        invariant
            forall|a: T| #[trigger] call_requires(keep, (&a,)),
            forall|a: T, r: bool| #[trigger] call_ensures(keep, (&a,), r) ==> r == kept(a@),
            i <= items@.len(),
            0 <= seen <= all.len(),
            models(items@.take(i as int)) == all.take(seen).filter(kept),
            models(items@.skip(i as int)) == all.skip(seen),
        decreases items@.len() - i,
    {
        let ghost before = items@;
        proof {
            reveal(Seq::filter);
            assert(models(before.skip(i as int))[0] == before[i as int]@);
            assert(models(before.skip(i as int)).len() == before.len() - i);
            assert(all.skip(seen).len() == all.len() - seen);
            assert(all.skip(seen)[0] == all[seen]);
            assert(all.take(seen + 1).drop_last() =~= all.take(seen));
            assert(all.take(seen + 1).last() == all[seen]);
            assert(all.skip(seen + 1) =~= all.skip(seen).skip(1));
            assert(models(before.skip(i + 1)) =~= models(before.skip(i as int)).skip(1));
        }
        if keep(&items[i]) {
            proof {
                assert(models(before.take(i + 1)) =~= models(before.take(i as int)).push(
                    before[i as int]@,
                ));
            }
            i = i + 1;
        } else {
            let _ = items.remove(i);
            proof {
                assert(items@.take(i as int) =~= before.take(i as int));
                assert(items@.skip(i as int) =~= before.skip(i + 1));
            }
        }
        proof {
            seen = seen + 1;
        }
    }
    proof {
        assert(items@.take(i as int) =~= items@);
        assert(all.skip(seen).len() == 0);
        assert(all.take(seen) =~= all);
    }
}

/// The last `n` items.
pub open spec fn newest<V>(s: Seq<V>, n: nat) -> Seq<V> {
    if s.len() <= n {
        s
    } else {
        s.skip(s.len() - n)
    }
}

/// Drops the first items until at most `capacity` are left.
pub(crate) fn trim_vec_front<T>(values: &mut Vec<T>, capacity: usize)
    ensures
        final(values)@ == newest(old(values)@, capacity as nat),
{
    if values.len() <= capacity {
        return;
    }
    let from: usize = values.len() - capacity;
    let rest: Vec<T> = values.split_off(from);
    *values = rest;
}

/// Drops the oldest items until at most `capacity` are left.
pub(crate) fn trim_to_capacity<T>(deque: &mut VecDeque<T>, capacity: usize)
    ensures
        final(deque)@ == newest(old(deque)@, capacity as nat),
{
    let ghost all = deque@;
    while deque.len() > capacity
        invariant
            deque@.len() <= all.len(),
            deque@ == all.skip(all.len() - deque@.len()),
            deque@.len() >= capacity || deque@ == all,
        decreases deque@.len(),
    {
        let ghost before = deque@;
        let _ = deque.pop_front();
        proof {
            assert(deque@ =~= before.skip(1));
            assert(deque@ =~= all.skip(all.len() - deque@.len()));
        }
    }
}

/// The last items' models are the last of the models.
pub proof fn lemma_models_newest<T: View>(s: Seq<T>, n: nat)
    ensures
        models(newest(s, n)) == newest(models(s), n),
{
    assert(models(newest(s, n)) =~= newest(models(s), n));
}

/// A copy of every item of a queue.
pub(crate) fn copy_queue<T: View + Clone>(items: &VecDeque<T>) -> (copy: VecDeque<T>)
    requires
        forall|a: T, b: T| #[trigger] call_ensures(T::clone, (&a,), b) ==> b@ == a@,
    ensures
        models(copy@) == models(items@),
{
    let mut copy: VecDeque<T> = VecDeque::new();
    let mut i: usize = 0;
    while i < items.len()
        invariant
            i <= items@.len(),
            forall|a: T, b: T| #[trigger] call_ensures(T::clone, (&a,), b) ==> b@ == a@,
            models(copy@) == models(items@).take(i as int),
        decreases items@.len() - i,
    {
        let ghost before = models(copy@);
        let item: T = items[i].clone();
        proof {
            assert(item@ == items@[i as int]@);
        }
        copy.push_back(item);
        proof {
            assert(models(copy@) =~= before.push(item@));
            assert(models(copy@) =~= models(items@).take(i + 1));
        }
        i = i + 1;
    }
    proof {
        assert(models(items@).take(i as int) =~= models(items@));
    }
    copy
}

/// A filter keeps an item exactly where the item is there and satisfies it.
pub proof fn lemma_filtered<V>(s: Seq<V>, kept: spec_fn(V) -> bool, x: V)
    ensures
        s.filter(kept).contains(x) <==> s.contains(x) && kept(x),
    decreases s.len(),
{
    reveal(Seq::filter);
    if s.len() > 0 {
        let front = s.drop_last();
        lemma_filtered(front, kept, x);
        assert(s[s.len() - 1] == s.last());
        if s.contains(x) {
            let k = choose|k: int| 0 <= k < s.len() && s[k] == x;
            if k < front.len() {
                assert(front[k] == x);
            }
        }
        if front.contains(x) {
            let k = choose|k: int| 0 <= k < front.len() && front[k] == x;
            assert(s[k] == x);
        }
        let below = front.filter(kept);
        let after = s.filter(kept);
        if kept(s.last()) {
            assert(after == below.push(s.last()));
            assert(after[below.len() as int] == s.last());
            if below.contains(x) {
                let k = choose|k: int| 0 <= k < below.len() && below[k] == x;
                assert(after[k] == x);
            }
            if after.contains(x) {
                let k = choose|k: int| 0 <= k < after.len() && after[k] == x;
                if k < below.len() {
                    assert(below[k] == x);
                }
            }
        }
    }
}

/// The items as a queue.
pub(crate) fn queue_of<T>(items: Vec<T>) -> (queue: VecDeque<T>)
    ensures
        queue@ == items@,
{
    let mut items: Vec<T> = items;
    let ghost all = items@;
    let mut queue: VecDeque<T> = VecDeque::new();
    while items.len() > 0
        invariant
            items@ + queue@ == all,
        decreases items@.len(),
    {
        let ghost before = items@;
        let ghost behind = queue@;
        if let Some(item) = items.pop() {
            queue.push_front(item);
            proof {
                assert(items@ + queue@ =~= before + behind);
            }
        }
    }
    proof {
        assert(items@ + queue@ =~= queue@);
    }
    queue
}

/// The numbers of a queue.
pub(crate) fn copied_numbers(queue: &VecDeque<Binary64>) -> (out: Vec<Binary64>)
    ensures
        out@ == queue@,
{
    let mut out: Vec<Binary64> = Vec::new();
    let mut i: usize = 0;
    while i < queue.len()
        invariant
            i <= queue@.len(),
            out@ == queue@.take(i as int),
        decreases queue@.len() - i,
    {
        out.push(queue[i]);
        proof {
            assert(out@ =~= queue@.take(i + 1));
        }
        i = i + 1;
    }
    proof {
        assert(queue@.take(i as int) =~= queue@);
    }
    out
}

/// A copy of every item of a queue, in a list.
pub(crate) fn copied_queue<T: View + Clone>(queue: &VecDeque<T>) -> (out: Vec<T>)
    requires
        forall|a: T, b: T| #[trigger] call_ensures(T::clone, (&a,), b) ==> b@ == a@,
    ensures
        models(out@) == models(queue@),
{
    let mut out: Vec<T> = Vec::new();
    let mut i: usize = 0;
    while i < queue.len()
        invariant
            i <= queue@.len(),
            forall|a: T, b: T| #[trigger] call_ensures(T::clone, (&a,), b) ==> b@ == a@,
            models(out@) == models(queue@).take(i as int),
        decreases queue@.len() - i,
    {
        let ghost before = models(out@);
        let item: T = queue[i].clone();
        proof {
            assert(item@ == queue@[i as int]@);
        }
        out.push(item);
        proof {
            assert(models(out@) =~= before.push(item@));
            assert(models(out@) =~= models(queue@).take(i + 1));
        }
        i = i + 1;
    }
    proof {
        assert(models(queue@).take(i as int) =~= models(queue@));
    }
    out
}

} // verus!
