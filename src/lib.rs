use vstd::prelude::*;

pub mod sparse_vector;
pub mod posting_list;
pub mod inverted_index;
pub mod search;
pub mod sparse_index;
pub mod posting_format;
pub mod index_format;

verus! {

} // verus!
