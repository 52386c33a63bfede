//! Ranking of candidate names by their distance from a query.
//!
//! - `distance`: the distance between two strings.
//! - `heap`: the binary min-heap that the ranking is made with, `heap_model` what its
//!   calls do to the sequence behind it, and `heap_laws` what holds of that.
//! - `order`: the order that a heap needs of its items.
//! - `pkg`: a candidate with its score.
//! - `rank`: the ranking itself.
//! - `listing`: the candidates in what `apt list` prints.
//! - `scan`: where a sequence first holds a given item.

pub mod distance;
pub mod heap;
pub mod heap_laws;
pub mod heap_model;
pub mod listing;
pub mod order;
pub mod pkg;
pub mod rank;
pub mod scan;
