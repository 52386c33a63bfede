//! Ranking candidates by their distance from a query.
//!
//! A candidate is scored on its short name, the part before its first `/`, and shown
//! by its full text.

use crate::distance::{distance, lemma_chars_within_bytes, str_dist};
use crate::heap::MinHeap;
use crate::heap_model::{ascending, drained, popped_n, pushed_all};
use crate::heap_laws::{lemma_drained, lemma_pushed_all};
use crate::order::le;
use crate::pkg::{lemma_pkg_order, lemma_pkg_total_preorder, Pkg};
use crate::scan::{lemma_until_is, until};
use vstd::prelude::*;
use vstd::std_specs::iter::IteratorSpec;
use vstd::string::{axiom_spec_iter, next_postcondition, StrSliceExecFns};

verus! {

/// The short name of a candidate: what stands before its first `/`, or all of it.
pub open spec fn short_name(s: Seq<char>) -> Seq<char> {
    s.take(until(s, '/'))
}

/// The short name of `candidate`.
pub fn short_name_of(candidate: &str) -> (name: &str)
    ensures
        name@ == short_name(candidate@),
{
    broadcast use {axiom_spec_iter, next_postcondition};

    let byte_len = candidate.as_bytes().len();
    proof {
        lemma_chars_within_bytes(candidate@);
    }
    let mut chars = candidate.chars();
    let mut end: usize = 0;
    loop
        invariant_except_break
            chars.remaining() == candidate@.skip(end as int),
        invariant
            0 <= end <= candidate@.len() <= byte_len,
            chars.obeys_prophetic_iter_laws(),
            forall|j: int| 0 <= j < end ==> candidate@[j] != '/',
        ensures
            end == candidate@.len() || candidate@[end as int] == '/',
        decreases candidate@.len() - end,
    {
        match chars.next() {
            Some(c) => {
                if c == '/' {
                    break ;
                }
                end += 1;
            },
            None => {
                break ;
            },
        }
    }
    proof {
        lemma_until_is(candidate@, '/', end as int);
    }
    candidate.substring_char(0, end)
}

/// A candidate with its distance from `query`.
pub open spec fn scored(query: Seq<char>, candidate: String) -> Pkg {
    Pkg { full_name: candidate, dist: distance(query, short_name(candidate@)) as i32 }
}

/// The candidates with their distances from `query`, in the order given.
pub open spec fn scored_all(query: Seq<char>, candidates: Seq<String>) -> Seq<Pkg> {
    Seq::new(candidates.len(), |i: int| scored(query, candidates[i]))
}

/// How many of `len` candidates a ranking of the `n` nearest holds.
pub open spec fn ranked_len(len: nat, n: nat) -> nat {
    if n < len {
        n
    } else {
        len
    }
}

/// The `n` candidates nearest to `query`, nearest first: every candidate is pushed on a
/// new heap with its distance, and `n` pops are made, or as many as there are candidates.
pub open spec fn ranked(query: Seq<char>, candidates: Seq<String>, n: nat) -> Seq<Pkg> {
    drained(
        pushed_all(Seq::empty(), scored_all(query, candidates)),
        ranked_len(candidates.len(), n),
    )
}

/// The candidates that a ranking of the `n` nearest leaves out.
pub open spec fn left_out(query: Seq<char>, candidates: Seq<String>, n: nat) -> Seq<Pkg> {
    popped_n(
        pushed_all(Seq::empty(), scored_all(query, candidates)),
        ranked_len(candidates.len(), n),
    )
}

/// `top` holds the nearest of `all`, nearest first, and `rest` the others: together they
/// hold every item of `all` as often as `all` does, the distances in `top` ascend, and
/// no item of `top` is farther from the query than an item of `rest`.
pub open spec fn nearest_first(top: Seq<Pkg>, rest: Seq<Pkg>, all: Seq<Pkg>) -> bool {
    &&& top.to_multiset().add(rest.to_multiset()) == all.to_multiset()
    &&& forall|i: int, j: int|
        0 <= i <= j < top.len() ==> #[trigger] top[i].dist <= #[trigger] top[j].dist
    &&& forall|i: int, j: int|
        0 <= i < top.len() && 0 <= j < rest.len() ==> #[trigger] top[i].dist
            <= #[trigger] rest[j].dist
}

/// A ranking holds `n` candidates, or all where there are fewer, and they are the
/// nearest, nearest first.
pub proof fn lemma_ranked(query: Seq<char>, candidates: Seq<String>, n: nat)
    ensures
        ranked(query, candidates, n).len() == ranked_len(candidates.len(), n),
        nearest_first(
            ranked(query, candidates, n),
            left_out(query, candidates, n),
            scored_all(query, candidates),
        ),
{
    let items = scored_all(query, candidates);
    let heap = pushed_all(Seq::<Pkg>::empty(), items);
    let top = ranked(query, candidates, n);
    let rest = left_out(query, candidates, n);
    lemma_pkg_total_preorder();
    lemma_pushed_all(Seq::<Pkg>::empty(), items);
    lemma_drained(heap, ranked_len(candidates.len(), n));
    assert(Seq::<Pkg>::empty().to_multiset().add(items.to_multiset()) =~= items.to_multiset())
        by {
        Seq::<Pkg>::empty().to_multiset_ensures();
    }
    assert(ascending(top));
    assert forall|i: int, j: int| 0 <= i <= j < top.len() implies #[trigger] top[i].dist
        <= #[trigger] top[j].dist by {
        assert(le(top[i], top[j]));
        lemma_pkg_order(top[i], top[j]);
    }
    assert forall|i: int, j: int|
        0 <= i < top.len() && 0 <= j < rest.len() implies #[trigger] top[i].dist
        <= #[trigger] rest[j].dist by {
        assert(le(top[i], rest[j]));
        lemma_pkg_order(top[i], rest[j]);
    }
}

/// Ranks `candidates` by their distance from `query` and returns the `n` nearest,
/// nearest first, or all of them where there are fewer.
pub fn rank(query: &String, candidates: &Vec<String>, n: usize) -> (top: Vec<Pkg>)
    requires
        query@.len() <= i32::MAX,
        forall|i: int|
            0 <= i < candidates.len() ==> short_name(#[trigger] candidates[i]@).len() <= i32::MAX,
    ensures
        top@ == ranked(query@, candidates@, n as nat),
        top.len() == ranked_len(candidates@.len(), n as nat),
        nearest_first(
            top@,
            left_out(query@, candidates@, n as nat),
            scored_all(query@, candidates@),
        ),
{
    let ghost items = scored_all(query@, candidates@);
    let mut mh: MinHeap<Pkg> = MinHeap::new();
    let mut i: usize = 0;
    while i < candidates.len()
        invariant
            i <= candidates.len(),
            query@.len() <= i32::MAX,
            forall|i: int|
                0 <= i < candidates.len() ==> short_name(#[trigger] candidates[i]@).len()
                    <= i32::MAX,
            items == scored_all(query@, candidates@),
            mh@ == pushed_all(Seq::empty(), items.take(i as int)),
        decreases candidates.len() - i,
    {
        let name = short_name_of(candidates[i].as_str());
        let ham_dist = str_dist(query.as_str(), name);
        proof {
            lemma_pkg_total_preorder();
            assert(items.take(i + 1).drop_last() =~= items.take(i as int));
        }
        mh.hpush(Pkg { full_name: candidates[i].clone(), dist: ham_dist });
        i += 1;
    }
    let ghost heap = mh@;
    proof {
        assert(items.take(i as int) =~= items);
        lemma_pushed_all(Seq::<Pkg>::empty(), items);
        lemma_ranked(query@, candidates@, n as nat);
    }
    let count = if n < mh.len() {
        n
    } else {
        mh.len()
    };
    let mut top: Vec<Pkg> = Vec::new();
    let mut k: usize = 0;
    while k < count
        invariant
            k <= count <= heap.len(),
            top@ == drained(heap, k as nat),
            mh@ == popped_n(heap, k as nat),
        decreases count - k,
    {
        proof {
            lemma_pkg_total_preorder();
            lemma_drained(heap, k as nat);
        }
        if let Ok(pkg) = mh.hpop() {
            top.push(pkg);
        }
        k += 1;
    }
    top
}

} // verus!
