//! What holds of the heap model: pushes and pops keep the heap invariant and what the
//! heap holds, the root is a least item, and items come out in ascending order.

use crate::heap_model::{above_children, applied_all, ascending, drained, heap_ordered};
use crate::heap_model::{left, ordered_at, ordered_but_above, ordered_but_below, parent, peeked};
use crate::heap_model::{popped, popped_n, pops, pops_succeed, pushed, pushed_all, pushes};
use crate::heap_model::{right, sift_down, sift_up, smallest_child, swapped, HeapOp};
use crate::order::{le, lt, total_preorder};
use crate::order::{lemma_gt, lemma_le_reflexive, lemma_le_transitive, lemma_not_gt, lemma_not_lt};
use vstd::multiset::Multiset;
use vstd::prelude::*;
use vstd::seq_lib::to_multiset_update;

verus! {

/// Moving an item up from a state that is ordered but above it ends in a heap.
pub proof fn lemma_sift_up_orders<T: PartialOrd>(s: Seq<T>, i: int)
    requires
        total_preorder::<T>(),
        0 <= i < s.len(),
        ordered_but_above(s, i),
    ensures
        heap_ordered(sift_up(s, i)),
    decreases i,
{
    if i > 0 && lt(s[i], s[parent(i)]) {
        let p = parent(i);
        let t = swapped(s, i, p);
        assert(ordered_at(s, p));
        assert forall|k: int| 0 <= k < t.len() && k != p implies #[trigger] ordered_at(t, k) by {
            if k == i {
            } else if k > 0 && parent(k) == i {
                assert(k == left(i) || k == right(i));
            } else if k > 0 && parent(k) == p {
                assert(ordered_at(s, k));
                lemma_le_transitive(s[i], s[p], s[k]);
            } else {
                assert(ordered_at(s, k));
            }
        }
        assert(above_children(t, p)) by {
            if p > 0 {
                let other = if i == left(p) {
                    right(p)
                } else {
                    left(p)
                };
                if other < s.len() {
                    assert(ordered_at(s, other));
                    lemma_le_transitive(s[parent(p)], s[p], s[other]);
                }
            }
        }
        lemma_sift_up_orders(t, p);
    } else {
        assert forall|k: int| 0 <= k < s.len() implies #[trigger] ordered_at(s, k) by {
            if k == i && i > 0 {
                lemma_not_lt(s[i], s[parent(i)]);
            }
        }
    }
}

/// Moving an item down from a state that is ordered but below it ends in a heap.
pub proof fn lemma_sift_down_orders<T: PartialOrd>(s: Seq<T>, i: int)
    requires
        total_preorder::<T>(),
        0 <= i,
        ordered_but_below(s, i),
    ensures
        heap_ordered(sift_down(s, i)),
    decreases s.len() - i,
{
    if i < s.len() {
        match smallest_child(s, i) {
            Some(c) => {
                let other = if c == left(i) {
                    right(i)
                } else {
                    left(i)
                };
                assert(other < s.len() ==> le(s[c], s[other])) by {
                    if other < s.len() {
                        if c == right(i) {
                            lemma_gt(s[left(i)], s[right(i)]);
                        } else {
                            lemma_not_gt(s[left(i)], s[right(i)]);
                        }
                    }
                }
                if lt(s[i], s[c]) {
                    assert forall|k: int| 0 <= k < s.len() implies #[trigger] ordered_at(s, k) by {
                        if k == other {
                            lemma_le_transitive(s[i], s[c], s[other]);
                        }
                    }
                } else {
                    let t = swapped(s, i, c);
                    lemma_not_lt(s[i], s[c]);
                    assert forall|k: int| 0 <= k < t.len() && (k == 0 || parent(k) != c) implies
                        #[trigger] ordered_at(t, k) by {
                        if k == c || k == other {
                        } else if k == i {
                            if i > 0 {
                                assert(c == left(i) || c == right(i));
                            }
                        } else {
                            assert(ordered_at(s, k));
                        }
                    }
                    assert(above_children(t, c)) by {
                        if left(c) < s.len() {
                            assert(ordered_at(s, left(c)));
                        }
                        if right(c) < s.len() {
                            assert(ordered_at(s, right(c)));
                        }
                    }
                    lemma_sift_down_orders(t, c);
                }
            },
            None => {
                assert forall|k: int| 0 <= k < s.len() implies #[trigger] ordered_at(s, k) by {}
            },
        }
    } else {
        assert forall|k: int| 0 <= k < s.len() implies #[trigger] ordered_at(s, k) by {}
    }
}

/// A push keeps the heap invariant.
pub proof fn lemma_pushed_ordered<T: PartialOrd>(s: Seq<T>, v: T)
    requires
        total_preorder::<T>(),
        heap_ordered(s),
    ensures
        heap_ordered(pushed(s, v)),
{
    let t = s.push(v);
    let n = s.len() as int;
    assert forall|k: int| 0 <= k < t.len() && k != n implies #[trigger] ordered_at(t, k) by {
        assert(ordered_at(s, k));
    }
    lemma_sift_up_orders(t, n);
}

/// A pop keeps the heap invariant.
pub proof fn lemma_popped_ordered<T: PartialOrd>(s: Seq<T>)
    requires
        total_preorder::<T>(),
        heap_ordered(s),
        s.len() > 0,
    ensures
        heap_ordered(popped(s)),
{
    let t = s.update(0, s.last()).drop_last();
    assert forall|k: int|
        0 <= k < t.len() && (k == 0 || parent(k) != 0) implies #[trigger] ordered_at(t, k) by {
        assert(ordered_at(s, k));
    }
    lemma_sift_down_orders(t, 0);
}

/// The root of a heap is a least item.
pub proof fn lemma_root_least<T: PartialOrd>(s: Seq<T>, j: int)
    requires
        total_preorder::<T>(),
        heap_ordered(s),
        0 <= j < s.len(),
    ensures
        le(s[0], s[j]),
    decreases j,
{
    if j == 0 {
        lemma_le_reflexive(s[0]);
    } else {
        assert(ordered_at(s, j));
        lemma_root_least(s, parent(j));
        lemma_le_transitive(s[0], s[parent(j)], s[j]);
    }
}

/// Exchanging two items changes neither the length nor what the sequence holds.
pub proof fn lemma_swapped_holds<T>(s: Seq<T>, i: int, j: int)
    requires
        0 <= i < s.len(),
        0 <= j < s.len(),
    ensures
        swapped(s, i, j).len() == s.len(),
        swapped(s, i, j).to_multiset() == s.to_multiset(),
{
    let t = s.update(i, s[j]);
    to_multiset_update(s, i, s[j]);
    to_multiset_update(t, j, s[i]);
    s.to_multiset_ensures();
    assert(s.contains(s[i]) && s.contains(s[j]));
    assert(swapped(s, i, j).to_multiset() =~= s.to_multiset());
}

/// Moving an item up changes neither the length nor what the sequence holds.
pub proof fn lemma_sift_up_holds<T: PartialOrd>(s: Seq<T>, i: int)
    ensures
        sift_up(s, i).len() == s.len(),
        sift_up(s, i).to_multiset() == s.to_multiset(),
    decreases i,
{
    if 0 < i < s.len() && lt(s[i], s[parent(i)]) {
        lemma_swapped_holds(s, i, parent(i));
        lemma_sift_up_holds(swapped(s, i, parent(i)), parent(i));
    }
}

/// Moving an item down changes neither the length nor what the sequence holds.
pub proof fn lemma_sift_down_holds<T: PartialOrd>(s: Seq<T>, i: int)
    ensures
        sift_down(s, i).len() == s.len(),
        sift_down(s, i).to_multiset() == s.to_multiset(),
    decreases s.len() - i,
{
    if 0 <= i < s.len() {
        match smallest_child(s, i) {
            Some(c) => {
                if !lt(s[i], s[c]) {
                    lemma_swapped_holds(s, i, c);
                    lemma_sift_down_holds(swapped(s, i, c), c);
                }
            },
            None => {},
        }
    }
}

/// A push adds the pushed item and nothing else.
pub proof fn lemma_pushed_holds<T: PartialOrd>(s: Seq<T>, v: T)
    ensures
        pushed(s, v).len() == s.len() + 1,
        pushed(s, v).to_multiset() == s.to_multiset().insert(v),
{
    lemma_sift_up_holds(s.push(v), s.len() as int);
    s.to_multiset_ensures();
}

/// Putting the last item in the root's place removes one occurrence of the root.
pub proof fn lemma_root_replaced_holds<T>(s: Seq<T>)
    requires
        s.len() > 0,
    ensures
        s.update(0, s.last()).drop_last().len() == s.len() - 1,
        s.update(0, s.last()).drop_last().to_multiset() == s.to_multiset().remove(s[0]),
{
    let t = s.update(0, s.last());
    let n = s.len() - 1;
    to_multiset_update(s, 0, s.last());
    t.to_multiset_ensures();
    s.to_multiset_ensures();
    assert(t.drop_last() =~= t.remove(n));
    assert(t[n] == s.last());
    assert(s.contains(s[0]) && s.contains(s.last()));
    assert(t.drop_last().to_multiset() =~= s.to_multiset().remove(s[0]));
}

/// A pop removes one occurrence of the root and nothing else.
pub proof fn lemma_popped_holds<T: PartialOrd>(s: Seq<T>)
    requires
        s.len() > 0,
    ensures
        popped(s).len() == s.len() - 1,
        popped(s).to_multiset() == s.to_multiset().remove(s[0]),
{
    lemma_root_replaced_holds(s);
    lemma_sift_down_holds(s.update(0, s.last()).drop_last(), 0);
}

/// Pushing any items on a heap leaves a heap, which holds them besides what it held.
pub proof fn lemma_pushed_all<T: PartialOrd>(s: Seq<T>, items: Seq<T>)
    ensures
        pushed_all(s, items).len() == s.len() + items.len(),
        pushed_all(s, items).to_multiset() == s.to_multiset().add(items.to_multiset()),
        total_preorder::<T>() && heap_ordered(s) ==> heap_ordered(pushed_all(s, items)),
    decreases items.len(),
{
    if items.len() == 0 {
        assert(items.to_multiset() =~= Multiset::<T>::empty()) by {
            items.to_multiset_ensures();
        }
        assert(s.to_multiset().add(items.to_multiset()) =~= s.to_multiset());
    } else {
        let front = items.drop_last();
        let mid = pushed_all(s, front);
        lemma_pushed_all(s, front);
        lemma_pushed_holds(mid, items.last());
        if total_preorder::<T>() && heap_ordered(s) {
            lemma_pushed_ordered(mid, items.last());
        }
        assert(items.to_multiset() =~= front.to_multiset().insert(items.last())) by {
            front.to_multiset_ensures();
            assert(front.push(items.last()) =~= items);
        }
        assert(pushed_all(s, items).to_multiset() =~= s.to_multiset().add(items.to_multiset()));
    }
}

/// Popping `n` items from a heap that holds at least `n` returns them in ascending
/// order and leaves a heap. What was returned and what is left are together what the
/// heap held, and nothing returned is after anything left.
pub proof fn lemma_drained<T: PartialOrd>(s: Seq<T>, n: nat)
    requires
        n <= s.len(),
    ensures
        drained(s, n).len() == n,
        popped_n(s, n).len() == s.len() - n,
        drained(s, n).to_multiset().add(popped_n(s, n).to_multiset()) == s.to_multiset(),
        total_preorder::<T>() && heap_ordered(s) ==> {
            &&& heap_ordered(popped_n(s, n))
            &&& ascending(drained(s, n))
            &&& forall|i: int, j: int|
                0 <= i < n && 0 <= j < s.len() - n ==> le(
                    #[trigger] drained(s, n)[i],
                    #[trigger] popped_n(s, n)[j],
                )
        },
    decreases n,
{
    if n == 0 {
        assert(drained(s, n).to_multiset() =~= Multiset::<T>::empty()) by {
            drained(s, n).to_multiset_ensures();
        }
        assert(drained(s, n).to_multiset().add(s.to_multiset()) =~= s.to_multiset());
    } else {
        let m = (n - 1) as nat;
        let out = drained(s, m);
        let rest = popped_n(s, m);
        lemma_drained(s, m);
        lemma_popped_holds(rest);
        out.to_multiset_ensures();
        rest.to_multiset_ensures();
        assert(rest.contains(rest[0]));
        assert(drained(s, n).to_multiset().add(popped_n(s, n).to_multiset()) =~= s.to_multiset());
        if total_preorder::<T>() && heap_ordered(s) {
            lemma_popped_ordered(rest);
            let out2 = drained(s, n);
            let rest2 = popped_n(s, n);
            rest2.to_multiset_ensures();
            assert forall|i: int, j: int| 0 <= i < n && 0 <= j < s.len() - n implies le(
                #[trigger] out2[i],
                #[trigger] rest2[j],
            ) by {
                assert(rest.to_multiset().count(rest2[j]) > 0) by {
                    broadcast use vstd::multiset::group_multiset_axioms;

                    assert(rest2.contains(rest2[j]));
                    assert(rest2.to_multiset().count(rest2[j]) > 0);
                }
                let k = choose|k: int| 0 <= k < rest.len() && rest[k] == rest2[j];
                if i < m {
                    assert(le(out[i], rest[k]));
                } else {
                    lemma_root_least(rest, k);
                }
            }
            assert forall|i: int, j: int| 0 <= i <= j < out2.len() implies le(
                #[trigger] out2[i],
                #[trigger] out2[j],
            ) by {
                if j < m {
                    assert(le(out[i], out[j]));
                } else if i < m {
                    assert(le(out[i], rest[0]));
                } else {
                    lemma_le_reflexive(rest[0]);
                }
            }
        }
    }
}

/// Pushing any items on an empty heap and popping as many returns the same items in
/// ascending order.
pub proof fn lemma_sorted_extraction<T: PartialOrd>(items: Seq<T>)
    requires
        total_preorder::<T>(),
    ensures
        ascending(drained(pushed_all(Seq::empty(), items), items.len())),
        drained(pushed_all(Seq::empty(), items), items.len()).to_multiset()
            == items.to_multiset(),
        drained(pushed_all(Seq::empty(), items), items.len()).len() == items.len(),
{
    let heap = pushed_all(Seq::<T>::empty(), items);
    lemma_pushed_all(Seq::<T>::empty(), items);
    lemma_drained(heap, items.len());
    let left = popped_n(heap, items.len());
    assert(left =~= Seq::<T>::empty());
    assert(Seq::<T>::empty().to_multiset() =~= Multiset::<T>::empty()) by {
        Seq::<T>::empty().to_multiset_ensures();
    }
    assert(drained(heap, items.len()).to_multiset().add(Multiset::<T>::empty()) =~= drained(
        heap,
        items.len(),
    ).to_multiset());
    assert(Multiset::<T>::empty().add(items.to_multiset()) =~= items.to_multiset());
}

/// The heap invariant holds after every call of any sequence of pushes and pops made on
/// a new heap.
pub proof fn lemma_calls_keep_order<T: PartialOrd>(ops: Seq<HeapOp<T>>, n: int)
    requires
        total_preorder::<T>(),
        0 <= n <= ops.len(),
    ensures
        heap_ordered(applied_all(Seq::empty(), ops.take(n))),
    decreases n,
{
    let done = ops.take(n);
    if n > 0 {
        lemma_calls_keep_order(ops, n - 1);
        assert(done.drop_last() =~= ops.take(n - 1));
        let before = applied_all(Seq::<T>::empty(), done.drop_last());
        match done.last() {
            HeapOp::Push(v) => {
                lemma_pushed_ordered(before, v);
            },
            HeapOp::Pop => {
                if before.len() > 0 {
                    lemma_popped_ordered(before);
                }
            },
            HeapOp::Peek => {},
        }
    } else {
        assert forall|k: int| 0 <= k < 0 implies #[trigger] ordered_at(Seq::<T>::empty(), k) by {}
    }
}

/// After pushes and pops of which no pop met an empty heap, the heap holds as many items
/// more than before as there were pushes, less the pops.
pub proof fn lemma_size_accounting<T: PartialOrd>(s: Seq<T>, ops: Seq<HeapOp<T>>)
    requires
        pops_succeed(s, ops),
    ensures
        applied_all(s, ops).len() == s.len() + pushes(ops) - pops(ops),
    decreases ops.len(),
{
    if ops.len() > 0 {
        let front = ops.drop_last();
        assert forall|n: int| 0 <= n < front.len() && #[trigger] front[n] is Pop implies
            applied_all(s, front.take(n)).len() > 0 by {
            assert(front.take(n) =~= ops.take(n));
            assert(ops[n] is Pop);
        }
        lemma_size_accounting(s, front);
        let before = applied_all(s, front);
        match ops.last() {
            HeapOp::Push(v) => {
                lemma_pushed_holds(before, v);
            },
            HeapOp::Pop => {
                assert(ops[ops.len() - 1] is Pop);
                assert(ops.take(ops.len() - 1) =~= front);
                lemma_popped_holds(before);
            },
            HeapOp::Peek => {},
        }
    }
}

/// Peeks, however many, leave the heap as it is: each of them returns the same, and the
/// length stays.
pub proof fn lemma_peeks_change_nothing<T: PartialOrd>(s: Seq<T>, ops: Seq<HeapOp<T>>, n: int)
    requires
        forall|k: int| 0 <= k < ops.len() ==> #[trigger] ops[k] is Peek,
        0 <= n <= ops.len(),
    ensures
        applied_all(s, ops.take(n)) == s,
        peeked(applied_all(s, ops.take(n))) == peeked(s),
        applied_all(s, ops.take(n)).len() == s.len(),
    decreases n,
{
    if n > 0 {
        lemma_peeks_change_nothing(s, ops, n - 1);
        assert(ops.take(n).drop_last() =~= ops.take(n - 1));
        assert(ops.take(n).last() == ops[n - 1]);
    }
}

} // verus!
