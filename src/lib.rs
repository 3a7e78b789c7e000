//! A singly-linked list whose nodes live in a slot arena and link to each
//! other by index, with a back-reference to the last node for O(1) append.

pub mod laws;
pub mod list;
pub mod safe_list;
pub mod unsafe_list;

use vstd::prelude::*;

verus! {

pub use crate::list::{Iter, List, Node};

} // verus!
