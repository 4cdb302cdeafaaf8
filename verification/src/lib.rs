//! An impact-ordered inverted-index search engine with budgeted top-k
//! retrieval: posting lists are grouped into impact segments, block-compressed,
//! and processed in descending impact order until a caller-supplied postings
//! budget is exhausted.
#![allow(unused_imports)]

use vstd::prelude::*;

pub mod compress;
pub mod impact;
pub mod index;
pub mod list;
pub mod query;
pub mod score;
pub mod search;
pub mod util;
pub mod range;
pub mod svbyte;

verus! {

/// The type in which per-document scores are accumulated.
pub type ScoreType = u16;

} // verus!
