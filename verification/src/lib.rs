//! Splitting columnar record batches into partitions ("shuffle"), with the
//! bookkeeping of every step stated and proved.
pub mod arrow_batches_sink;
pub mod batch;
pub mod bench_fns;
pub mod buffers;
pub mod byte_array_splitter;
pub mod capacity_tracker;
pub mod column;
pub mod find_matching_splitter;
pub mod primitive_splitter;
pub mod shuffle_encoded_sink;
pub mod splitter_args;
pub mod splitter_nullable_helper;
pub mod take;
