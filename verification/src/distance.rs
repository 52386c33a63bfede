//! The distance between a query and a candidate name: the number of positions at which
//! the two differ, over the length they share, plus the difference of their lengths.
//! Positions and lengths count characters, not bytes.

use vstd::math::{abs, max, min};
use vstd::prelude::*;
use vstd::std_specs::iter::IteratorSpec;
use vstd::string::{axiom_spec_iter, next_postcondition};
use vstd::utf8::encode_utf8;

verus! {

/// Number of positions below `n` at which `a` and `b` hold different characters.
pub open spec fn mismatches(a: Seq<char>, b: Seq<char>, n: int) -> int
    decreases n,
{
    if n <= 0 {
        0
    } else {
        mismatches(a, b, n - 1) + if a[n - 1] != b[n - 1] {
            1int
        } else {
            0int
        }
    }
}

/// The distance between `a` and `b`: their mismatches over the length that they share,
/// and one more for each character that the longer has beyond it.
pub open spec fn distance(a: Seq<char>, b: Seq<char>) -> int {
    mismatches(a, b, min(a.len() as int, b.len() as int)) + abs(a.len() - b.len())
}

/// The mismatches below `n` are at least none and at most `n`.
pub proof fn lemma_mismatches_bounds(a: Seq<char>, b: Seq<char>, n: int)
    requires
        0 <= n,
    ensures
        0 <= mismatches(a, b, n) <= n,
    decreases n,
{
    if n > 0 {
        lemma_mismatches_bounds(a, b, n - 1);
    }
}

/// A sequence has no mismatch with itself.
pub proof fn lemma_mismatches_same(a: Seq<char>, n: int)
    ensures
        mismatches(a, a, n) == 0,
    decreases n,
{
    if n > 0 {
        lemma_mismatches_same(a, n - 1);
    }
}

/// The mismatches do not depend on which sequence comes first.
pub proof fn lemma_mismatches_symmetric(a: Seq<char>, b: Seq<char>, n: int)
    ensures
        mismatches(a, b, n) == mismatches(b, a, n),
    decreases n,
{
    if n > 0 {
        lemma_mismatches_symmetric(a, b, n - 1);
    }
}

/// Every string is at distance 0 from itself, the empty string too.
pub proof fn lemma_distance_identity(s: Seq<char>)
    ensures
        distance(s, s) == 0,
{
    lemma_mismatches_same(s, s.len() as int);
}

/// The distance does not depend on which string is the query and which the candidate.
pub proof fn lemma_distance_symmetric(a: Seq<char>, b: Seq<char>)
    ensures
        distance(a, b) == distance(b, a),
{
    lemma_mismatches_symmetric(a, b, a.len() as int);
    lemma_mismatches_symmetric(a, b, b.len() as int);
}

/// The distance between the empty string and `s` is the length of `s`.
pub proof fn lemma_distance_from_empty(s: Seq<char>)
    ensures
        distance(Seq::<char>::empty(), s) == s.len(),
        distance(s, Seq::<char>::empty()) == s.len(),
{
}

/// The distance is never negative and never more than the longer length.
pub proof fn lemma_distance_bounds(a: Seq<char>, b: Seq<char>)
    ensures
        0 <= distance(a, b) <= max(a.len() as int, b.len() as int),
{
    lemma_mismatches_bounds(a, b, a.len() as int);
    lemma_mismatches_bounds(a, b, b.len() as int);
}

/// A string has at most as many characters as its encoding has bytes: a string of at
/// most `i32::MAX` bytes can be measured.
pub proof fn lemma_chars_within_bytes(chars: Seq<char>)
    ensures
        chars.len() <= encode_utf8(chars).len(),
    decreases chars.len(),
{
    if chars.len() > 0 {
        lemma_chars_within_bytes(chars.drop_first());
    }
}

/// The distance between `str1` and `str2`.
pub fn hamming_dist(str1: &String, str2: &String) -> (dist: i32)
    requires
        str1@.len() <= i32::MAX,
        str2@.len() <= i32::MAX,
    ensures
        dist == distance(str1@, str2@),
{
    str_dist(str1.as_str(), str2.as_str())
}

/// The distance between two string slices.
pub fn str_dist(str1: &str, str2: &str) -> (dist: i32)
    requires
        str1@.len() <= i32::MAX,
        str2@.len() <= i32::MAX,
    ensures
        dist == distance(str1@, str2@),
{
    broadcast use {axiom_spec_iter, next_postcondition};

    let mut dist: i32 = 0;
    let mut chars1 = str1.chars();
    let mut chars2 = str2.chars();
    let ghost mut shared: int = 0;
    let ghost mut seen1: int = 0;
    let ghost mut seen2: int = 0;
    // compare position by position while both strings go on
    loop
        invariant_except_break
            seen1 == shared,
            seen2 == shared,
        invariant
            0 <= shared <= seen1 <= str1@.len() <= i32::MAX,
            shared <= seen2 <= str2@.len() <= i32::MAX,
            chars1.obeys_prophetic_iter_laws(),
            chars2.obeys_prophetic_iter_laws(),
            chars1.remaining() == str1@.skip(seen1),
            chars2.remaining() == str2@.skip(seen2),
            0 <= mismatches(str1@, str2@, shared) <= shared,
            dist == mismatches(str1@, str2@, shared) + (seen1 - shared) + (seen2 - shared),
        ensures
            shared == str1@.len() || shared == str2@.len(),
            seen1 == shared || seen2 == shared,
        decreases str1@.len() - shared,
    {
        match (chars1.next(), chars2.next()) {
            (Some(c1), Some(c2)) => {
                if c1 != c2 {
                    dist += 1;
                }
                proof {
                    shared = shared + 1;
                    seen1 = seen1 + 1;
                    seen2 = seen2 + 1;
                }
            },
            (Some(_c1), None) => {
                dist += 1;
                proof {
                    seen1 = seen1 + 1;
                }
                break ;
            },
            (None, Some(_c2)) => {
                dist += 1;
                proof {
                    seen2 = seen2 + 1;
                }
                break ;
            },
            (None, None) => {
                break ;
            },
        }
    }
    // also add the length difference to the distance
    loop
        invariant
            0 <= shared <= seen1 <= str1@.len() <= i32::MAX,
            shared <= seen2 <= str2@.len() <= i32::MAX,
            shared == str1@.len() || shared == str2@.len(),
            seen1 == shared || seen2 == shared,
            chars1.obeys_prophetic_iter_laws(),
            chars1.remaining() == str1@.skip(seen1),
            0 <= mismatches(str1@, str2@, shared) <= shared,
            dist == mismatches(str1@, str2@, shared) + (seen1 - shared) + (seen2 - shared),
        ensures
            seen1 == str1@.len(),
        decreases str1@.len() - seen1,
    {
        match chars1.next() {
            Some(_c1) => {
                dist += 1;
                proof {
                    seen1 = seen1 + 1;
                }
            },
            None => {
                break ;
            },
        }
    }
    loop
        invariant
            0 <= shared <= seen1 == str1@.len() <= i32::MAX,
            shared <= seen2 <= str2@.len() <= i32::MAX,
            shared == str1@.len() || shared == str2@.len(),
            seen1 == shared || seen2 == shared,
            chars2.obeys_prophetic_iter_laws(),
            chars2.remaining() == str2@.skip(seen2),
            0 <= mismatches(str1@, str2@, shared) <= shared,
            dist == mismatches(str1@, str2@, shared) + (seen1 - shared) + (seen2 - shared),
        ensures
            seen2 == str2@.len(),
        decreases str2@.len() - seen2,
    {
        match chars2.next() {
            Some(_c2) => {
                dist += 1;
                proof {
                    seen2 = seen2 + 1;
                }
            },
            None => {
                break ;
            },
        }
    }
    dist
}

} // verus!
