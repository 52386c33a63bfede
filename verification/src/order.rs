//! The order that heap items are compared by.
//!
//! Items are compared with `<` and `>` of `PartialOrd`, whose meaning in contracts is
//! `partial_cmp_spec`. The relations below name the outcomes that the heap uses, and
//! `total_preorder` says when they order a type well enough for a heap: any two items
//! are comparable, and ties are allowed.

use core::cmp::Ordering;
use vstd::prelude::*;
use vstd::std_specs::cmp::PartialOrdSpec;

verus! {

/// `a` is strictly before `b`.
pub open spec fn lt<T: PartialOrd>(a: T, b: T) -> bool {
    a.partial_cmp_spec(&b) == Some(Ordering::Less)
}

/// `a` is strictly after `b`.
pub open spec fn gt<T: PartialOrd>(a: T, b: T) -> bool {
    a.partial_cmp_spec(&b) == Some(Ordering::Greater)
}

/// `a` is before `b` or ties with it.
pub open spec fn le<T: PartialOrd>(a: T, b: T) -> bool {
    a.partial_cmp_spec(&b) == Some(Ordering::Less) || a.partial_cmp_spec(&b) == Some(
        Ordering::Equal,
    )
}

/// The executable comparisons of `T` compute what `lt` and `gt` say.
pub open spec fn comparisons_agree<T: PartialOrd>() -> bool {
    T::obeys_partial_cmp_spec()
}

/// `T` is totally preordered: its comparisons agree with their meaning in contracts, of
/// any two values one is before the other or they tie, `>` mirrors `<`, and `le` is
/// transitive.
pub open spec fn total_preorder<T: PartialOrd>() -> bool {
    &&& comparisons_agree::<T>()
    &&& forall|a: T, b: T| #[trigger] le(a, b) <==> !lt(b, a)
    &&& forall|a: T, b: T| #[trigger] gt(a, b) <==> lt(b, a)
    &&& forall|a: T, b: T, c: T| #[trigger] le(a, b) && #[trigger] le(b, c) ==> le(a, c)
}

/// In a total preorder every value ties with itself.
pub proof fn lemma_le_reflexive<T: PartialOrd>(a: T)
    requires
        total_preorder::<T>(),
    ensures
        le(a, a),
{
    assert(le(a, a) <==> !lt(a, a));
}

/// What the heap learns from a failed `<`: the other value is not after this one.
pub proof fn lemma_not_lt<T: PartialOrd>(a: T, b: T)
    requires
        total_preorder::<T>(),
        !lt(a, b),
    ensures
        le(b, a),
{
    assert(le(b, a) <==> !lt(a, b));
}

/// What the heap learns from a failed `>`: this value is not after the other one.
pub proof fn lemma_not_gt<T: PartialOrd>(a: T, b: T)
    requires
        total_preorder::<T>(),
        !gt(a, b),
    ensures
        le(a, b),
{
    assert(gt(a, b) <==> lt(b, a));
    assert(le(a, b) <==> !lt(b, a));
}

/// What the heap learns from a successful `>`: the other value is before this one.
pub proof fn lemma_gt<T: PartialOrd>(a: T, b: T)
    requires
        total_preorder::<T>(),
        gt(a, b),
    ensures
        le(b, a),
{
    assert(gt(a, b) <==> lt(b, a));
}

/// `le` is transitive in a total preorder.
pub proof fn lemma_le_transitive<T: PartialOrd>(a: T, b: T, c: T)
    requires
        total_preorder::<T>(),
        le(a, b),
        le(b, c),
    ensures
        le(a, c),
{
}

} // verus!
