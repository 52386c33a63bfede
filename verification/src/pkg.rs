//! A candidate name with its score, ordered by the score alone.

use crate::order::{le, lt, total_preorder};
use core::cmp::Ordering;
use vstd::prelude::*;
use vstd::std_specs::cmp::{PartialEqSpecImpl, PartialOrdSpecImpl};

verus! {

/// A candidate as it is shown, and its distance from the query. Two of them compare by
/// their distances: the name takes no part in `==`, `<` or `>`.
#[derive(Debug)]
pub struct Pkg {
    pub full_name: String,
    pub dist: i32,
}

impl Clone for Pkg {
    fn clone(&self) -> (copy: Self)
        ensures
            copy == *self,
    {
        Pkg { full_name: self.full_name.clone(), dist: self.dist }
    }
}

impl PartialOrd for Pkg {
    fn partial_cmp(&self, other: &Self) -> (order: Option<Ordering>) {
        if self.dist > other.dist {
            Option::Some(Ordering::Greater)
        } else if self.dist < other.dist {
            Option::Some(Ordering::Less)
        } else {
            Option::Some(Ordering::Equal)
        }
    }
}

impl PartialOrdSpecImpl for Pkg {
    open spec fn obeys_partial_cmp_spec() -> bool {
        true
    }

    open spec fn partial_cmp_spec(&self, other: &Self) -> Option<Ordering> {
        if self.dist > other.dist {
            Some(Ordering::Greater)
        } else if self.dist < other.dist {
            Some(Ordering::Less)
        } else {
            Some(Ordering::Equal)
        }
    }
}

impl PartialEq for Pkg {
    fn eq(&self, other: &Self) -> (same: bool) {
        self.dist == other.dist
    }
}

impl PartialEqSpecImpl for Pkg {
    open spec fn obeys_eq_spec() -> bool {
        true
    }

    open spec fn eq_spec(&self, other: &Self) -> bool {
        self.dist == other.dist
    }
}

/// One `Pkg` is before another where its distance is smaller, and before or tied with
/// it where its distance is not greater.
pub proof fn lemma_pkg_order(a: Pkg, b: Pkg)
    ensures
        lt(a, b) <==> a.dist < b.dist,
        le(a, b) <==> a.dist <= b.dist,
{
}

/// The order of `Pkg` by distance is a total preorder.
pub proof fn lemma_pkg_total_preorder()
    ensures
        total_preorder::<Pkg>(),
{
}

} // verus!
