//! The mathematical model of the binary min-heap: a sequence read as a complete binary
//! tree in level order, with the functions that say what pushes and pops do to it.

use crate::order::{gt, le, lt};
use vstd::prelude::*;

verus! {

/// Index of the parent of node `i`, for `i > 0`.
pub open spec fn parent(i: int) -> int {
    (i - 1) / 2
}

/// Index of the left child of node `i`.
pub open spec fn left(i: int) -> int {
    2 * i + 1
}

/// Index of the right child of node `i`.
pub open spec fn right(i: int) -> int {
    2 * i + 2
}

/// Node `i` is the root, or its parent is not after it.
pub open spec fn ordered_at<T: PartialOrd>(s: Seq<T>, i: int) -> bool {
    i == 0 || le(s[parent(i)], s[i])
}

/// The heap invariant: no node is before its parent.
pub open spec fn heap_ordered<T: PartialOrd>(s: Seq<T>) -> bool {
    forall|i: int| 0 <= i < s.len() ==> #[trigger] ordered_at(s, i)
}

/// `s` with the items at `i` and `j` exchanged.
pub open spec fn swapped<T>(s: Seq<T>, i: int, j: int) -> Seq<T> {
    s.update(i, s[j]).update(j, s[i])
}

/// `s` after the item at `i` has moved up: it changes places with its parent for as long
/// as it is strictly before that parent.
pub open spec fn sift_up<T: PartialOrd>(s: Seq<T>, i: int) -> Seq<T>
    decreases i,
{
    if 0 < i < s.len() && lt(s[i], s[parent(i)]) {
        sift_up(swapped(s, i, parent(i)), parent(i))
    } else {
        s
    }
}

/// The child of node `i` that a sinking item is compared with: the right child where it
/// is strictly before the left one, else the left child; `None` where `i` is a leaf.
pub open spec fn smallest_child<T: PartialOrd>(s: Seq<T>, i: int) -> Option<int> {
    if right(i) < s.len() {
        if gt(s[left(i)], s[right(i)]) {
            Some(right(i))
        } else {
            Some(left(i))
        }
    } else if left(i) < s.len() {
        Some(left(i))
    } else {
        None
    }
}

/// `s` after the item at `i` has moved down: it changes places with its smallest child
/// until it is a leaf or strictly before that child.
pub open spec fn sift_down<T: PartialOrd>(s: Seq<T>, i: int) -> Seq<T>
    decreases s.len() - i,
{
    if 0 <= i < s.len() {
        match smallest_child(s, i) {
            Some(c) => if lt(s[i], s[c]) {
                s
            } else {
                sift_down(swapped(s, i, c), c)
            },
            None => s,
        }
    } else {
        s
    }
}

/// The heap after `v` is pushed: `v` goes to the end and moves up.
pub open spec fn pushed<T: PartialOrd>(s: Seq<T>, v: T) -> Seq<T> {
    sift_up(s.push(v), s.len() as int)
}

/// The heap after a pop, for a heap that is not empty: the last item takes the root's
/// place and moves down.
pub open spec fn popped<T: PartialOrd>(s: Seq<T>) -> Seq<T> {
    sift_down(s.update(0, s.last()).drop_last(), 0)
}

/// The parent of node `i`, where it has one, is not after the children of `i`.
pub open spec fn above_children<T: PartialOrd>(s: Seq<T>, i: int) -> bool {
    &&& i > 0 && left(i) < s.len() ==> le(s[parent(i)], s[left(i)])
    &&& i > 0 && right(i) < s.len() ==> le(s[parent(i)], s[right(i)])
}

/// The heap invariant holds but between node `i` and its parent: the state while the
/// item at `i` moves up.
pub open spec fn ordered_but_above<T: PartialOrd>(s: Seq<T>, i: int) -> bool {
    &&& forall|k: int| 0 <= k < s.len() && k != i ==> #[trigger] ordered_at(s, k)
    &&& above_children(s, i)
}

/// The heap invariant holds but between node `i` and its children: the state while the
/// item at `i` moves down.
pub open spec fn ordered_but_below<T: PartialOrd>(s: Seq<T>, i: int) -> bool {
    &&& forall|k: int|
        0 <= k < s.len() && (k == 0 || parent(k) != i) ==> #[trigger] ordered_at(s, k)
    &&& above_children(s, i)
}

/// The heap after the items of `items` are pushed, first to last.
pub open spec fn pushed_all<T: PartialOrd>(s: Seq<T>, items: Seq<T>) -> Seq<T>
    decreases items.len(),
{
    if items.len() == 0 {
        s
    } else {
        pushed(pushed_all(s, items.drop_last()), items.last())
    }
}

/// The heap after `n` pops, each of which leaves an empty heap as it is.
pub open spec fn popped_n<T: PartialOrd>(s: Seq<T>, n: nat) -> Seq<T>
    decreases n,
{
    if n == 0 {
        s
    } else {
        let rest = popped_n(s, (n - 1) as nat);
        if rest.len() == 0 {
            rest
        } else {
            popped(rest)
        }
    }
}

/// The items that `n` pops return, first to last; a pop from an empty heap returns none.
pub open spec fn drained<T: PartialOrd>(s: Seq<T>, n: nat) -> Seq<T>
    decreases n,
{
    if n == 0 {
        Seq::empty()
    } else {
        let rest = popped_n(s, (n - 1) as nat);
        if rest.len() == 0 {
            drained(s, (n - 1) as nat)
        } else {
            drained(s, (n - 1) as nat).push(rest[0])
        }
    }
}

/// No item of `s` is after a later one.
pub open spec fn ascending<T: PartialOrd>(s: Seq<T>) -> bool {
    forall|i: int, j: int| 0 <= i <= j < s.len() ==> le(#[trigger] s[i], #[trigger] s[j])
}

/// One call on a heap: a push of an item, a pop, or a peek.
pub enum HeapOp<T> {
    Push(T),
    Pop,
    Peek,
}

/// The heap after one call. A pop leaves an empty heap as it is, and a peek any heap.
pub open spec fn applied<T: PartialOrd>(s: Seq<T>, op: HeapOp<T>) -> Seq<T> {
    match op {
        HeapOp::Push(v) => pushed(s, v),
        HeapOp::Pop => if s.len() == 0 {
            s
        } else {
            popped(s)
        },
        HeapOp::Peek => s,
    }
}

/// What a peek returns: the root, where there is one.
pub open spec fn peeked<T>(s: Seq<T>) -> Option<T> {
    if s.len() > 0 {
        Some(s[0])
    } else {
        None
    }
}

/// The heap after the calls of `ops`, first to last.
pub open spec fn applied_all<T: PartialOrd>(s: Seq<T>, ops: Seq<HeapOp<T>>) -> Seq<T>
    decreases ops.len(),
{
    if ops.len() == 0 {
        s
    } else {
        applied(applied_all(s, ops.drop_last()), ops.last())
    }
}

/// The number of pushes among `ops`.
pub open spec fn pushes<T>(ops: Seq<HeapOp<T>>) -> nat
    decreases ops.len(),
{
    if ops.len() == 0 {
        0
    } else if ops.last() is Push {
        pushes(ops.drop_last()) + 1
    } else {
        pushes(ops.drop_last())
    }
}

/// The number of pops among `ops`.
pub open spec fn pops<T>(ops: Seq<HeapOp<T>>) -> nat
    decreases ops.len(),
{
    if ops.len() == 0 {
        0
    } else if ops.last() is Pop {
        pops(ops.drop_last()) + 1
    } else {
        pops(ops.drop_last())
    }
}

/// No pop among `ops`, made from `s` on, meets an empty heap.
pub open spec fn pops_succeed<T: PartialOrd>(s: Seq<T>, ops: Seq<HeapOp<T>>) -> bool {
    forall|n: int|
        0 <= n < ops.len() && #[trigger] ops[n] is Pop ==> applied_all(s, ops.take(n)).len() > 0
}

} // verus!
