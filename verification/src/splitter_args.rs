//! What a splitter is created from.
use crate::column::Field;
use vstd::prelude::*;

verus! {

/// What a splitter is created from.
pub struct CreateSplitterArgs<'a> {
    pub batch_size: usize,
    pub number_of_partitions: usize,
    pub field: &'a Field,
    pub column_index: usize,
}

} // verus!
