//! Where a sequence first holds a given item.

use vstd::prelude::*;

verus! {

/// The number of items of `s` before the first one equal to `stop`: the length of `s`
/// where none is.
pub open spec fn until<A>(s: Seq<A>, stop: A) -> int
    decreases s.len(),
{
    if s.len() == 0 || s[0] == stop {
        0
    } else {
        1 + until(s.drop_first(), stop)
    }
}

/// `until(s, stop)` is a position of `s` or its end, with no `stop` before it and, where
/// it is a position, `stop` at it.
pub proof fn lemma_until_found<A>(s: Seq<A>, stop: A)
    ensures
        0 <= until(s, stop) <= s.len(),
        forall|j: int| 0 <= j < until(s, stop) ==> s[j] != stop,
        until(s, stop) < s.len() ==> s[until(s, stop)] == stop,
    decreases s.len(),
{
    if s.len() != 0 && s[0] != stop {
        let t = s.drop_first();
        lemma_until_found(t, stop);
        assert forall|j: int| 0 <= j < until(s, stop) implies s[j] != stop by {
            if j > 0 {
                assert(s[j] == t[j - 1]);
            }
        }
    }
}

/// `until(s, stop)` is the only such position.
pub proof fn lemma_until_is<A>(s: Seq<A>, stop: A, k: int)
    requires
        0 <= k <= s.len(),
        forall|j: int| 0 <= j < k ==> s[j] != stop,
        k == s.len() || s[k] == stop,
    ensures
        until(s, stop) == k,
    decreases s.len(),
{
    if k > 0 {
        let t = s.drop_first();
        assert forall|j: int| 0 <= j < k - 1 implies t[j] != stop by {
            assert(t[j] == s[j + 1]);
        }
        lemma_until_is(t, stop, k - 1);
    }
}

} // verus!
