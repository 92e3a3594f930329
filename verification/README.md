# bench_shuffle

Shuffling columnar record batches into partitions, with every step stated
and proved in Verus.

- `src/` is the library. Columns and batches are modelled by the library's
  own types (`column`, `batch`); fixed width values are held as 64 bit
  patterns. Two families of shuffles are built on them:
  - `take`: sinks that collect the rows an index column names, one sink per
    output column; finishing a sink hands out the column of exactly those
    rows, in the order of the indices.
  - the splitters (`primitive_splitter`, `byte_array_splitter`, with
    `capacity_tracker` and `splitter_nullable_helper`) and the sinks that
    assemble their output into batches (`arrow_batches_sink`,
    `shuffle_encoded_sink`); `find_matching_splitter::shuffle_by_splitters`
    gives every partition its rows, in order, cut into batches of at most
    the batch size.
  - `bench_fns` builds the benchmark inputs (an even, shuffled spread of rows
    over partitions) and runs both families over them.
  - `buffers` holds the trusted items over `arrow_buffer`'s builders and
    `hashbrown`'s set.
- `app/` is the benchmark program: random data generation, conversions to and
  from arrow arrays, and the approaches that only run arrow's own kernels
  (`take`, `concat`, `interleave`, the row format).
- `tests/` exercises the library on concrete values.
