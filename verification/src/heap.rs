//! An array-backed binary min-heap.

use crate::heap_model::{heap_ordered, left, parent, peeked, popped, pushed, right, swapped};
use crate::heap_model::{sift_down, sift_up, smallest_child};
use crate::heap_laws::{lemma_popped_ordered, lemma_pushed_ordered, lemma_root_least};
use crate::heap_laws::{lemma_root_replaced_holds, lemma_swapped_holds};
use crate::order::{comparisons_agree, le, total_preorder};
use vstd::prelude::*;

verus! {

/// The error of a pop from a heap that holds nothing.
#[derive(Debug, Clone, Copy, PartialEq, Eq, Structural)]
pub struct EmptyHeapError;

/// A binary min-heap: a complete binary tree kept in a vector in level order, whose root
/// is a least item.
pub struct MinHeap<T: PartialOrd + Clone>(Vec<T>);

/// Index of the parent of node `i`.
pub fn parent_idx(i: usize) -> (p: usize)
    requires
        i > 0,
    ensures
        p == parent(i as int),
        p < i,
{
    (i - 1) / 2
}

/// Index of the left child of node `i`.
pub fn left_child_idx(i: usize) -> (c: usize)
    requires
        2 * i + 1 <= usize::MAX,
    ensures
        c == left(i as int),
{
    (2 * i) + 1
}

/// Index of the right child of node `i`.
pub fn right_child_idx(i: usize) -> (c: usize)
    requires
        2 * i + 2 <= usize::MAX,
    ensures
        c == right(i as int),
{
    (2 * i) + 2
}

impl<T: PartialOrd + Clone> View for MinHeap<T> {
    type V = Seq<T>;

    /// The backing sequence, in level order.
    closed spec fn view(&self) -> Seq<T> {
        self.0@
    }
}

impl<T: PartialOrd + Clone> MinHeap<T> {
    #[verifier::type_invariant]
    spec fn ordered(self) -> bool {
        total_preorder::<T>() ==> heap_ordered(self.0@)
    }

    /// An empty heap.
    pub fn new() -> (heap: Self)
        ensures
            heap@ == Seq::<T>::empty(),
    {
        Self(Vec::new())
    }

    /// The number of items held.
    pub fn len(&self) -> (n: usize)
        ensures
            n == self@.len(),
    {
        self.0.len()
    }

    /// The backing sequence, in level order.
    pub fn as_slice(&self) -> (items: &[T])
        ensures
            items@ == self@,
            total_preorder::<T>() ==> heap_ordered(self@),
    {
        proof {
            use_type_invariant(self);
        }
        self.0.as_slice()
    }

    /// Exchanges the items at `idx_a` and `idx_b`.
    fn swap(items: &mut Vec<T>, idx_a: usize, idx_b: usize)
        requires
            idx_a < old(items).len(),
            idx_b < old(items).len(),
        ensures
            final(items)@ == swapped(old(items)@, idx_a as int, idx_b as int),
    {
        if idx_a != idx_b {
            let (lo, hi) = if idx_a < idx_b {
                (idx_a, idx_b)
            } else {
                (idx_b, idx_a)
            };
            let (head, tail) = items.as_mut_slice().split_at_mut(hi);
            core::mem::swap(&mut head[lo], &mut tail[0]);
        }
    }

    /// The parent of node `i`.
    fn parent_of(items: &Vec<T>, i: usize) -> (item: &T)
        requires
            0 < i < items.len(),
        ensures
            *item == items@[parent(i as int)],
    {
        &items[(i - 1) / 2]
    }

    /// The left child of node `i`, where it has one.
    fn left_child_of(items: &Vec<T>, i: usize) -> (item: Option<&T>)
        ensures
            item == if left(i as int) < items.len() {
                Some(&items@[left(i as int)])
            } else {
                None
            },
    {
        if i >= items.len() / 2 {
            return Option::None;
        }
        let idx = (2 * i) + 1;
        return Option::Some(&items[idx]);
    }

    /// The right child of node `i`, where it has one.
    fn right_child_of(items: &Vec<T>, i: usize) -> (item: Option<&T>)
        ensures
            item == if right(i as int) < items.len() {
                Some(&items@[right(i as int)])
            } else {
                None
            },
    {
        if items.len() == 0 || i >= (items.len() - 1) / 2 {
            return Option::None;
        }
        let idx = (2 * i) + 2;
        return Option::Some(&items[idx]);
    }

    /// Index of the child of node `i` that a sinking item is compared with: the right
    /// child where it is strictly before the left one, else the left child.
    fn smallest_child_idx(items: &Vec<T>, i: usize) -> (child: Option<usize>)
        ensures
            child is None <==> left(i as int) >= items.len(),
            child matches Some(c) ==> c < items.len() && (c == left(i as int) || c == right(
                i as int,
            )),
            comparisons_agree::<T>() ==> match child {
                Some(c) => smallest_child(items@, i as int) == Some(c as int),
                None => smallest_child(items@, i as int) is None,
            },
    {
        match (Self::left_child_of(items, i), Self::right_child_of(items, i)) {
            (Some(left), Some(right)) => {
                if left > right {
                    Some(right_child_idx(i))
                } else {
                    Some(left_child_idx(i))
                }
            },
            (Some(_left), None) => Some(left_child_idx(i)),
            (None, None) => None,
            _ => None,
        }
    }

    /// Adds `val`: it goes to the end of the backing sequence and moves up past every
    /// parent that it is strictly before.
    pub fn hpush(&mut self, val: T)
        ensures
            final(self)@.len() == old(self)@.len() + 1,
            final(self)@.to_multiset() == old(self)@.to_multiset().insert(val),
            comparisons_agree::<T>() ==> final(self)@ == pushed(old(self)@, val),
            total_preorder::<T>() ==> heap_ordered(final(self)@),
    {
        proof {
            use_type_invariant(&*self);
        }
        let mut items = Vec::new();
        core::mem::swap(&mut items, &mut self.0);
        let ghost before = items@;
        items.push(val);  // put the value in the end
        let mut i: usize = items.len() - 1;
        proof {
            before.to_multiset_ensures();
        }
        while i >= 1 && items[i] < *Self::parent_of(&items, i)
            invariant
                i < items.len(),
                items@.len() == before.len() + 1,
                items@.to_multiset() == before.to_multiset().insert(val),
                comparisons_agree::<T>() ==> sift_up(items@, i as int) == pushed(before, val),
            decreases i,
        {
            proof {
                lemma_swapped_holds(items@, i as int, parent(i as int));
            }
            // swap with parent
            Self::swap(&mut items, i, parent_idx(i));
            i = parent_idx(i);
        }
        proof {
            if total_preorder::<T>() {
                lemma_pushed_ordered(before, val);
            }
        }
        self.0 = items;
    }

    /// Removes and returns the root, a least item. The last item takes its place and
    /// moves down: at each step it changes places with its smallest child, unless it is
    /// strictly before that child.
    pub fn hpop(&mut self) -> (least: Result<T, EmptyHeapError>)
        ensures
            least is Err <==> old(self)@.len() == 0,
            least is Err ==> final(self)@ == old(self)@,
            least matches Ok(item) ==> ({
                &&& item == old(self)@[0]
                &&& final(self)@.len() == old(self)@.len() - 1
                &&& final(self)@.to_multiset() == old(self)@.to_multiset().remove(item)
                &&& comparisons_agree::<T>() ==> final(self)@ == popped(old(self)@)
                &&& total_preorder::<T>() ==> forall|j: int|
                    0 <= j < old(self)@.len() ==> le(item, #[trigger] old(self)@[j])
            }),
            total_preorder::<T>() ==> heap_ordered(final(self)@),
    {
        proof {
            use_type_invariant(&*self);
            if total_preorder::<T>() {
                assert forall|j: int| 0 <= j < self@.len() implies le(
                    self@[0],
                    #[trigger] self@[j],
                ) by {
                    lemma_root_least(self@, j);
                }
            }
        }
        if self.0.len() == 0 {
            return Err(EmptyHeapError);
        }
        let mut items = Vec::new();
        core::mem::swap(&mut items, &mut self.0);
        let ghost before = items@;
        // the last element takes the place of the first
        let ans = items.swap_remove(0);
        proof {
            lemma_root_replaced_holds(before);
        }
        let mut i: usize = 0;
        loop
            invariant
                items@.len() == before.len() - 1,
                items@.to_multiset() == before.to_multiset().remove(before[0]),
                comparisons_agree::<T>() ==> sift_down(items@, i as int) == popped(before),
            ensures
                comparisons_agree::<T>() ==> items@ == popped(before),
            decreases items.len() - i,
        {
            let smallest_child_idx = Self::smallest_child_idx(&items, i);

            // if no child or smaller than the children, stop
            if smallest_child_idx.is_none() || items[i] < items[smallest_child_idx.unwrap()] {
                break ;
            }
            proof {
                lemma_swapped_holds(items@, i as int, smallest_child_idx.unwrap() as int);
            }
            // swap with smallest child
            Self::swap(&mut items, i, smallest_child_idx.unwrap());
            i = smallest_child_idx.unwrap();
        }
        proof {
            if total_preorder::<T>() {
                lemma_popped_ordered(before);
            }
        }
        self.0 = items;
        Ok(ans)
    }

    /// The root, a least item, without removing it.
    pub fn peek(&self) -> (least: Option<&T>)
        ensures
            match least {
                Some(item) => peeked(self@) == Some(*item),
                None => peeked(self@) is None,
            },
            total_preorder::<T>() ==> forall|j: int|
                0 <= j < self@.len() ==> le(self@[0], #[trigger] self@[j]),
    {
        proof {
            use_type_invariant(self);
            if total_preorder::<T>() {
                assert forall|j: int| 0 <= j < self@.len() implies le(
                    self@[0],
                    #[trigger] self@[j],
                ) by {
                    lemma_root_least(self@, j);
                }
            }
        }
        if self.0.len() == 0 {
            None
        } else {
            Some(&self.0[0])
        }
    }
}

} // verus!
