//! The inputs of the shuffle benchmarks, and the ways of shuffling that are
//! built on this library's take sinks and splitters.
use crate::batch::{copy_schema, Batch};
use crate::column::{Column, DataType, Field, PrimitiveColumn};
use crate::take::{
    column_of_taken, column_positions, create_sink, gather, lemma_taken_column_row_values, native_value, taken_row_values, create_sinks, finish_sink, take_to_sink, finish_sinks, holds_taken, in_bounds, integer_indices,
    lemma_finished_column_of_taken, lemma_fresh_holds_taken, lemma_holds_taken_skip,
    lemma_holds_taken_step, lemma_taken_bytes_monotone, lemma_taken_bytes_step, lemma_taken_count_monotone, pairs,
    sink_batch_size_ok, sink_supported, sinks_ready, taken_byte_rows, taken_count, take_to_sinks, Sink,
};
use crate::capacity_tracker::{batch_limit, chunk_count};
use crate::find_matching_splitter::{
    batch_holds_chunk, column_holds, gathered_rows, partition_columns, partition_row_count, shuffle_args_ok,
    shuffle_by_splitters, shuffled_columns, supported_before, ShuffleArgs,
};
use rand::rngs::StdRng;
use rand::seq::SliceRandom;
use rand::SeedableRng;
use vstd::prelude::*;

verus! {

#[verifier::external_type_specification]
#[verifier::external_body]
pub struct ExStdRng(StdRng);

/// How many batches of how many rows to shuffle into how many partitions.
pub struct GenerateArgs {
    pub num_partitions: usize,
    pub num_rows: usize,
    pub num_batches: usize,
    pub seed: u64,
}

/// `StdRng::seed_from_u64`: a generator seeded from `seed`. Nothing is
/// stated of the numbers it will give.
#[verifier::external_body]
fn seeded_rng(seed: u64) -> StdRng {
    StdRng::seed_from_u64(seed)
}

/// `SliceRandom::shuffle`: reorders the entries at random. Its source only
/// swaps entries, so the result holds the same entries; which order comes
/// out is left unsaid.
#[verifier::external_body]
fn shuffle_partitions(partitions: &mut Vec<usize>, rng: &mut StdRng)
    ensures
        final(partitions)@.to_multiset() == old(partitions)@.to_multiset(),
{
    partitions.shuffle(rng)
}

/// Row `i` of `num_rows` rows goes to partition `i % num_partitions`: as
/// even a spread as the rows allow.
pub open spec fn round_robin(num_rows: nat, num_partitions: nat) -> Seq<usize> {
    Seq::new(num_rows, |i: int| (i % num_partitions as int) as usize)
}

/// The partition of each row before shuffling: row `i` goes to partition
/// `i % num_partitions`.
pub fn base_partitions(num_rows: usize, num_partitions: usize) -> (r: Vec<usize>)
    requires
        num_partitions > 0,
    ensures
        r@ == round_robin(num_rows as nat, num_partitions as nat),
{
    let mut r: Vec<usize> = Vec::with_capacity(num_rows);
    let mut i: usize = 0;
    while i < num_rows
        invariant
            i <= num_rows,
            num_partitions > 0,
            r@ == round_robin(num_rows as nat, num_partitions as nat).subrange(0, i as int),
        decreases num_rows - i,
    {
        r.push(i % num_partitions);
        proof {
            assert(r@ =~= round_robin(num_rows as nat, num_partitions as nat).subrange(0, i + 1));
        }
        i = i + 1;
    }
    proof {
        assert(r@ =~= round_robin(num_rows as nat, num_partitions as nat));
    }
    r
}

/// The partition of each row, as hash partitioning of spread out data gives
/// them: as many rows for each partition as `base_partitions` gives, in an
/// order drawn from a generator seeded with `seed`.
pub fn partitions_for_rows(num_rows: usize, num_partitions: usize, seed: u64) -> (r: Vec<usize>)
    requires
        num_partitions > 0,
    ensures
        r@.to_multiset() == round_robin(num_rows as nat, num_partitions as nat).to_multiset(),
        r@.len() == num_rows,
        forall|i: int| 0 <= i < r@.len() ==> #[trigger] r@[i] < num_partitions,
        forall|p: int|
            0 <= p < num_partitions ==> #[trigger] r@.to_multiset().count(p as usize) == round_robin_count(
                num_rows as nat,
                num_partitions as nat,
                p,
            ),
{
    let mut rng = seeded_rng(seed);
    let mut partitions = base_partitions(num_rows, num_partitions);
    shuffle_partitions(&mut partitions, &mut rng);
    proof {
        let base = round_robin(num_rows as nat, num_partitions as nat);
        base.to_multiset_ensures();
        partitions@.to_multiset_ensures();
        assert forall|i: int| 0 <= i < partitions@.len() implies #[trigger] partitions@[i] < num_partitions by {
            let x = partitions@[i];
            assert(partitions@.contains(x));
            assert(partitions@.to_multiset().count(x) > 0);
            assert(base.to_multiset().count(x) > 0);
            assert(base.contains(x));
            let j = choose|j: int| 0 <= j < base.len() && base[j] == x;
            assert(base[j] == (j % num_partitions as int) as usize);
        }
        assert forall|p: int| 0 <= p < num_partitions implies #[trigger] partitions@.to_multiset().count(p as usize)
            == round_robin_count(num_rows as nat, num_partitions as nat, p) by {
            lemma_round_robin_counts(num_rows as nat, num_partitions as nat, p);
        }
    }
    partitions
}

/// The rows among the first `n` whose partition is `p`, in order.
pub open spec fn rows_of_partition(partitions: Seq<usize>, p: int, n: nat) -> Seq<u64>
    decreases n,
{
    if n == 0 {
        Seq::empty()
    } else {
        let prev = rows_of_partition(partitions, p, (n - 1) as nat);
        if partitions[n - 1] == p {
            prev.push((n - 1) as u64)
        } else {
            prev
        }
    }
}

/// An index column of `u32` row numbers.
pub open spec fn is_u32_index_column(column: Column, rows: Seq<u64>) -> bool {
    column matches Column::Primitive(c) && c.data_type == DataType::UInt32 && c.validity is None
        && c.values@ == rows
}

/// For each partition, the rows that go to it, in order, as a `u32` index
/// column.
pub fn indices_per_partition(partitions: &Vec<usize>, num_partitions: usize) -> (r: Vec<Column>)
    requires
        partitions@.len() <= u32::MAX + 1,
        forall|i: int| 0 <= i < partitions@.len() ==> #[trigger] partitions@[i] < num_partitions,
    ensures
        r@.len() == num_partitions,
        forall|p: int|
            0 <= p < num_partitions ==> is_u32_index_column(
                #[trigger] r@[p],
                rows_of_partition(partitions@, p, partitions@.len()),
            ),
{
    let mut rows: Vec<Vec<u64>> = Vec::with_capacity(num_partitions);
    let mut p: usize = 0;
    while p < num_partitions
        invariant
            p <= num_partitions,
            rows@.len() == p,
            forall|q: int| 0 <= q < p ==> (#[trigger] rows@[q])@ == Seq::<u64>::empty(),
        decreases num_partitions - p,
    {
        rows.push(Vec::new());
        p = p + 1;
    }
    let mut index: usize = 0;
    while index < partitions.len()
        invariant
            index <= partitions@.len(),
            partitions@.len() <= u32::MAX + 1,
            forall|i: int| 0 <= i < partitions@.len() ==> #[trigger] partitions@[i] < num_partitions,
            rows@.len() == num_partitions,
            forall|q: int| 0 <= q < num_partitions ==> (#[trigger] rows@[q])@ == rows_of_partition(partitions@, q, index as nat),
        decreases partitions@.len() - index,
    {
        let partition = partitions[index];
        let ghost before = rows@;
        rows[partition].push(index as u64);
        proof {
            assert forall|q: int| 0 <= q < num_partitions implies (#[trigger] rows@[q])@ == rows_of_partition(
                partitions@,
                q,
                (index + 1) as nat,
            ) by {
                if q != partition {
                    assert(rows@[q] == before[q]);
                }
            }
        }
        index = index + 1;
    }
    let mut r: Vec<Column> = Vec::with_capacity(num_partitions);
    let mut rows = rows;
    let mut p: usize = 0;
    while p < num_partitions
        invariant
            p <= num_partitions,
            rows@.len() == num_partitions,
            r@.len() == p,
            forall|q: int| p <= q < num_partitions ==> (#[trigger] rows@[q])@ == rows_of_partition(partitions@, q, partitions@.len()),
            forall|q: int| 0 <= q < p ==> is_u32_index_column(#[trigger] r@[q], rows_of_partition(partitions@, q, partitions@.len())),
        decreases num_partitions - p,
    {
        let mut values: Vec<u64> = Vec::new();
        let ghost before = rows@;
        std::mem::swap(&mut values, &mut rows[p]);
        proof {
            assert forall|q: int| p + 1 <= q < num_partitions implies (#[trigger] rows@[q])@ == rows_of_partition(
                partitions@,
                q,
                partitions@.len(),
            ) by {
                assert(rows@[q] == before[q]);
            }
        }
        r.push(Column::Primitive(PrimitiveColumn { data_type: DataType::UInt32, values, validity: None }));
        p = p + 1;
    }
    r
}

/// One batch to shuffle, with the partition of each of its rows.
pub struct Input {
    pub batch: Batch,
    /// `partitions[row_index] = partition_index`
    pub partitions: Vec<usize>,
    /// `indices_per_partition[partition_index]` = the rows of the batch for
    /// that partition, as an index column.
    pub indices_per_partition: Vec<Column>,
}

/// A borrowed view of an `Input`.
pub struct InputRef<'a> {
    pub batch: &'a Batch,
    /// `partitions[row_index] = partition_index`
    pub partitions: &'a [usize],
    /// `indices_per_partition[partition_index]` = the rows of the batch for
    /// that partition, as an index column.
    pub indices_per_partition: &'a [Column],
}

impl Input {
    pub fn as_ref<'a>(&'a self) -> (r: InputRef<'a>)
        ensures
            *r.batch == self.batch,
            r.partitions@ == self.partitions@,
            r.indices_per_partition@ == self.indices_per_partition@,
    {
        InputRef {
            batch: &self.batch,
            partitions: self.partitions.as_slice(),
            indices_per_partition: self.indices_per_partition.as_slice(),
        }
    }
}

/// One column of one batch, with the rows of the batch for each partition.
#[derive(Clone, Copy)]
pub struct SingleColumnInput<'a> {
    pub column: &'a Column,
    /// `indices_per_partition[partition_index]` = the rows of the batch for
    /// that partition, as an index column.
    pub indices_per_partition: &'a [Column],
}

/// The inputs regrouped by column.
pub struct InputColumns<'a> {
    /// `columns[column_index][batch_index]` = that column of that batch,
    /// with the batch's rows for each partition.
    pub columns: Vec<Vec<SingleColumnInput<'a>>>,
}

impl<'a> InputColumns<'a> {
    /// Regroups the inputs by column: as many columns as the first batch has.
    pub fn from(inputs: &'a Vec<Input>) -> (r: Self)
        requires
            inputs@.len() > 0,
            forall|b: int|
                0 <= b < inputs@.len() ==> (#[trigger] inputs@[b]).batch.columns@.len() >= inputs@[0].batch.columns@.len(),
        ensures
            r.columns@.len() == inputs@[0].batch.columns@.len(),
            forall|c: int|
                0 <= c < r.columns@.len() ==> (#[trigger] r.columns@[c])@.len() == inputs@.len() && forall|b: int|
                    0 <= b < inputs@.len() ==> {
                        &&& *(#[trigger] r.columns@[c]@[b]).column == inputs@[b].batch.columns@[c]
                        &&& r.columns@[c]@[b].indices_per_partition@ == inputs@[b].indices_per_partition@
                    },
    {
        let number_of_columns = inputs[0].batch.columns.len();
        let mut columns: Vec<Vec<SingleColumnInput<'a>>> = Vec::with_capacity(number_of_columns);
        let mut column_index: usize = 0;
        while column_index < number_of_columns
            invariant
                column_index <= number_of_columns,
                number_of_columns == inputs@[0].batch.columns@.len(),
                forall|b: int|
                    0 <= b < inputs@.len() ==> (#[trigger] inputs@[b]).batch.columns@.len() >= number_of_columns,
                columns@.len() == column_index,
                forall|c: int|
                    0 <= c < column_index ==> (#[trigger] columns@[c])@.len() == inputs@.len() && forall|b: int|
                        0 <= b < inputs@.len() ==> {
                            &&& *(#[trigger] columns@[c]@[b]).column == inputs@[b].batch.columns@[c]
                            &&& columns@[c]@[b].indices_per_partition@ == inputs@[b].indices_per_partition@
                        },
            decreases number_of_columns - column_index,
        {
            let mut column: Vec<SingleColumnInput<'a>> = Vec::with_capacity(inputs.len());
            let mut batch_index: usize = 0;
            while batch_index < inputs.len()
                invariant
                    batch_index <= inputs@.len(),
                    column_index < number_of_columns,
                    forall|b: int|
                        0 <= b < inputs@.len() ==> (#[trigger] inputs@[b]).batch.columns@.len() >= number_of_columns,
                    column@.len() == batch_index,
                    forall|b: int|
                        0 <= b < batch_index ==> {
                            &&& *(#[trigger] column@[b]).column == inputs@[b].batch.columns@[column_index as int]
                            &&& column@[b].indices_per_partition@ == inputs@[b].indices_per_partition@
                        },
                decreases inputs@.len() - batch_index,
            {
                let input = &inputs[batch_index];
                column.push(
                    SingleColumnInput {
                        column: &input.batch.columns[column_index],
                        indices_per_partition: input.indices_per_partition.as_slice(),
                    },
                );
                batch_index = batch_index + 1;
            }
            columns.push(column);
            column_index = column_index + 1;
        }
        InputColumns { columns }
    }
}

/// The partition of each row as a `u32`.
pub open spec fn partitions_as_u32(partitions: Seq<usize>) -> Seq<u32> {
    Seq::new(partitions.len(), |i: int| partitions[i] as u32)
}

/// Each partition number keeps its low 32 bits as a `u32`, so any partition
/// below `2^32` keeps its value.
pub proof fn lemma_partitions_as_u32(partitions: Seq<usize>, i: int)
    requires
        0 <= i < partitions.len(),
    ensures
        partitions_as_u32(partitions).len() == partitions.len(),
        partitions_as_u32(partitions)[i] as int == partitions[i] as int % 0x1_0000_0000,
        partitions[i] <= u32::MAX ==> partitions_as_u32(partitions)[i] as int == partitions[i] as int,
{
    let x = partitions[i];
    assert(x as u32 as int == x as int % 0x1_0000_0000) by (bit_vector);
}

/// The inputs in the form the splitters take them.
pub struct SplittersInput {
    pub schema: Vec<Field>,
    /// `columns[column_index][batch_index]` = that column of that batch.
    pub columns: Vec<Vec<Column>>,
    /// `indices[batch_index][row_index]` = the partition of that row.
    pub indices: Vec<Vec<u32>>,
}

impl SplittersInput {
    pub fn as_ref(&self) -> (r: SplittersInputRef<'_>)
        ensures
            *r.schema == self.schema,
            r.columns@ == self.columns@,
            r.indices@ == self.indices@,
    {
        SplittersInputRef::from(self)
    }

    /// Regroups the inputs by column (each column copied), with the
    /// partitions of each batch's rows as `u32` (cast as the language casts,
    /// keeping the low 32 bits); the schema is that of the first batch.
    pub fn from(inputs: &Vec<Input>) -> (r: Self)
        requires
            inputs@.len() > 0,
            forall|b: int|
                0 <= b < inputs@.len() ==> (#[trigger] inputs@[b]).batch.columns@.len() >= inputs@[0].batch.columns@.len(),
        ensures
            r.schema@ == inputs@[0].batch.schema@,
            r.indices@.len() == inputs@.len(),
            forall|b: int| 0 <= b < inputs@.len() ==> (#[trigger] r.indices@[b])@ == partitions_as_u32(inputs@[b].partitions@),
            r.columns@.len() == inputs@[0].batch.columns@.len(),
            forall|c: int|
                0 <= c < r.columns@.len() ==> (#[trigger] r.columns@[c])@.len() == inputs@.len() && forall|b: int|
                    0 <= b < inputs@.len() ==> (#[trigger] r.columns@[c]@[b]).same_as(inputs@[b].batch.columns@[c]),
    {
        let number_of_columns = inputs[0].batch.columns.len();
        let mut indices: Vec<Vec<u32>> = Vec::with_capacity(inputs.len());
        let mut batch_index: usize = 0;
        while batch_index < inputs.len()
            invariant
                batch_index <= inputs@.len(),
                indices@.len() == batch_index,
                forall|b: int| 0 <= b < batch_index ==> (#[trigger] indices@[b])@ == partitions_as_u32(inputs@[b].partitions@),
            decreases inputs@.len() - batch_index,
        {
            let partitions = &inputs[batch_index].partitions;
            let mut batch_indices: Vec<u32> = Vec::with_capacity(partitions.len());
            let mut i: usize = 0;
            while i < partitions.len()
                invariant
                    i <= partitions@.len(),
                    *partitions == inputs@[batch_index as int].partitions,
                    batch_indices@ == partitions_as_u32(partitions@).subrange(0, i as int),
                decreases partitions@.len() - i,
            {
                batch_indices.push(#[verifier::truncate] (partitions[i] as u32));
                proof {
                    assert(batch_indices@ =~= partitions_as_u32(partitions@).subrange(0, i + 1));
                }
                i = i + 1;
            }
            proof {
                assert(batch_indices@ =~= partitions_as_u32(partitions@));
            }
            indices.push(batch_indices);
            batch_index = batch_index + 1;
        }
        let mut columns: Vec<Vec<Column>> = Vec::with_capacity(number_of_columns);
        let mut column_index: usize = 0;
        while column_index < number_of_columns
            invariant
                column_index <= number_of_columns,
                number_of_columns == inputs@[0].batch.columns@.len(),
                forall|b: int|
                    0 <= b < inputs@.len() ==> (#[trigger] inputs@[b]).batch.columns@.len() >= number_of_columns,
                columns@.len() == column_index,
                forall|c: int|
                    0 <= c < column_index ==> (#[trigger] columns@[c])@.len() == inputs@.len() && forall|b: int|
                        0 <= b < inputs@.len() ==> (#[trigger] columns@[c]@[b]).same_as(inputs@[b].batch.columns@[c]),
            decreases number_of_columns - column_index,
        {
            let mut column: Vec<Column> = Vec::with_capacity(inputs.len());
            let mut batch_index: usize = 0;
            while batch_index < inputs.len()
                invariant
                    batch_index <= inputs@.len(),
                    column_index < number_of_columns,
                    forall|b: int|
                        0 <= b < inputs@.len() ==> (#[trigger] inputs@[b]).batch.columns@.len() >= number_of_columns,
                    column@.len() == batch_index,
                    forall|b: int|
                        0 <= b < batch_index ==> (#[trigger] column@[b]).same_as(inputs@[b].batch.columns@[column_index as int]),
                decreases inputs@.len() - batch_index,
            {
                column.push(inputs[batch_index].batch.columns[column_index].copy());
                batch_index = batch_index + 1;
            }
            columns.push(column);
            column_index = column_index + 1;
        }
        SplittersInput { schema: copy_schema(&inputs[0].batch.schema), indices, columns }
    }
}

/// A borrowed view of a `SplittersInput`.
pub struct SplittersInputRef<'a> {
    pub schema: &'a Vec<Field>,
    pub columns: &'a [Vec<Column>],
    pub indices: &'a [Vec<u32>],
}

impl<'a> SplittersInputRef<'a> {
    pub fn from(splitter_args: &'a SplittersInput) -> (r: Self)
        ensures
            *r.schema == splitter_args.schema,
            r.columns@ == splitter_args.columns@,
            r.indices@ == splitter_args.indices@,
    {
        SplittersInputRef {
            schema: &splitter_args.schema,
            columns: splitter_args.columns.as_slice(),
            indices: splitter_args.indices.as_slice(),
        }
    }

    /// The arguments of a shuffle of this input.
    pub open spec fn shuffle_args(&self, batch_size: usize, number_of_partitions: usize) -> ShuffleArgs<'a> {
        ShuffleArgs { batch_size, number_of_partitions, schema: self.schema, indices: self.indices, columns: self.columns }
    }
}

/// Shuffles the input with the splitters: the rows of each partition, in
/// their order, batch after batch, are cut into batches of at most
/// `batch_size` rows (one row when it is 0), each carrying the schema.
pub fn splitters_approach<'a>(input: &'a SplittersInputRef<'a>, batch_size: usize, number_of_partitions: usize) -> (r: Vec<
    Vec<Batch>,
>)
    requires
        shuffle_args_ok(input.shuffle_args(batch_size, number_of_partitions)),
        supported_before(
            input.schema@,
            shuffled_columns(input.shuffle_args(batch_size, number_of_partitions)) as int,
        ),
    ensures
        ({
            let args = input.shuffle_args(batch_size, number_of_partitions);
            &&& r@.len() == number_of_partitions
            &&& forall|p: int|
                0 <= p < number_of_partitions ==> if shuffled_columns(args) == args.schema@.len() {
                    &&& (#[trigger] r@[p])@.len() == chunk_count(
                        partition_row_count(args.columns@, args.indices@, p),
                        batch_limit(batch_size as nat),
                    )
                    &&& forall|i: int| 0 <= i < r@[p]@.len() ==> #[trigger] batch_holds_chunk(
                        r@[p]@[i],
                        partition_columns(args, p),
                        args.schema@,
                        batch_limit(batch_size as nat),
                        i,
                    )
                } else {
                    r@[p]@.len() == 0
                }
        }),
{
    let schema = input.schema;
    shuffle_by_splitters(
        ShuffleArgs { batch_size, number_of_partitions, schema, indices: input.indices, columns: input.columns },
    ).unwrap()
}

/// The row numbers an index column holds.
pub open spec fn index_rows(column: Column) -> Seq<u64> {
    match column {
        Column::Primitive(c) => c.values@,
        _ => Seq::empty(),
    }
}

/// The rows of partition `p` in the first `k` inputs, as (batch, row)
/// pairs: batch after batch, each in the order of its index column.
pub open spec fn interleave_rows(inputs: Seq<Input>, p: int, k: nat) -> Seq<(usize, usize)>
    decreases k,
{
    if k == 0 {
        Seq::empty()
    } else {
        let b = k - 1;
        let rows = index_rows(inputs[b].indices_per_partition@[p]);
        interleave_rows(inputs, p, (k - 1) as nat) + Seq::new(rows.len(), |i: int| (b as usize, rows[i] as usize))
    }
}

/// For each partition, its rows as (batch, row) pairs, batch after batch,
/// each batch in the order of its index column for that partition.
pub fn interleave_indices(inputs: &Vec<Input>, number_of_partitions: usize) -> (r: Vec<Vec<(usize, usize)>>)
    requires
        forall|b: int|
            0 <= b < inputs@.len() ==> (#[trigger] inputs@[b]).indices_per_partition@.len() >= number_of_partitions,
        forall|b: int, p: int|
            0 <= b < inputs@.len() && 0 <= p < number_of_partitions ==> (#[trigger] inputs@[b].indices_per_partition@[p]) is Primitive,
        forall|b: int, p: int, i: int|
            0 <= b < inputs@.len() && 0 <= p < number_of_partitions && 0 <= i < index_rows(
                inputs@[b].indices_per_partition@[p],
            ).len() ==> #[trigger] index_rows(inputs@[b].indices_per_partition@[p])[i] <= u32::MAX,
    ensures
        r@.len() == number_of_partitions,
        forall|p: int| 0 <= p < number_of_partitions ==> (#[trigger] r@[p])@ == interleave_rows(inputs@, p, inputs@.len()),
{
    let mut r: Vec<Vec<(usize, usize)>> = Vec::with_capacity(number_of_partitions);
    let mut partition_index: usize = 0;
    while partition_index < number_of_partitions
        invariant
            partition_index <= number_of_partitions,
            forall|b: int|
                0 <= b < inputs@.len() ==> (#[trigger] inputs@[b]).indices_per_partition@.len() >= number_of_partitions,
            forall|b: int, p: int|
                0 <= b < inputs@.len() && 0 <= p < number_of_partitions ==> (#[trigger] inputs@[b].indices_per_partition@[p]) is Primitive,
            forall|b: int, p: int, i: int|
                0 <= b < inputs@.len() && 0 <= p < number_of_partitions && 0 <= i < index_rows(
                    inputs@[b].indices_per_partition@[p],
                ).len() ==> #[trigger] index_rows(inputs@[b].indices_per_partition@[p])[i] <= u32::MAX,
            r@.len() == partition_index,
            forall|p: int| 0 <= p < partition_index ==> (#[trigger] r@[p])@ == interleave_rows(inputs@, p, inputs@.len()),
        decreases number_of_partitions - partition_index,
    {
        let ghost p = partition_index as int;
        let mut indices: Vec<(usize, usize)> = Vec::new();
        let mut batch_index: usize = 0;
        while batch_index < inputs.len()
            invariant
                batch_index <= inputs@.len(),
                partition_index < number_of_partitions,
                p == partition_index,
                forall|b: int|
                    0 <= b < inputs@.len() ==> (#[trigger] inputs@[b]).indices_per_partition@.len() >= number_of_partitions,
                forall|b: int, q: int|
                    0 <= b < inputs@.len() && 0 <= q < number_of_partitions ==> (#[trigger] inputs@[b].indices_per_partition@[q]) is Primitive,
                forall|b: int, q: int, i: int|
                    0 <= b < inputs@.len() && 0 <= q < number_of_partitions && 0 <= i < index_rows(
                        inputs@[b].indices_per_partition@[q],
                    ).len() ==> #[trigger] index_rows(inputs@[b].indices_per_partition@[q])[i] <= u32::MAX,
                indices@ == interleave_rows(inputs@, p, batch_index as nat),
            decreases inputs@.len() - batch_index,
        {
            let column = &inputs[batch_index].indices_per_partition[partition_index];
            let ghost start = indices@;
            let ghost rows = index_rows(*column);
            match column {
                Column::Primitive(c) => {
                    let mut i: usize = 0;
                    while i < c.values.len()
                        invariant
                            i <= c.values@.len(),
                            rows == c.values@,
                            forall|j: int| 0 <= j < rows.len() ==> #[trigger] rows[j] <= u32::MAX,
                            indices@ == start + Seq::new(i as nat, |j: int| (batch_index, rows[j] as usize)),
                        decreases c.values@.len() - i,
                    {
                        proof {
                            assert(rows[i as int] <= u32::MAX);
                        }
                        indices.push((batch_index, c.values[i] as usize));
                        proof {
                            assert(indices@ =~= start + Seq::new((i + 1) as nat, |j: int| (batch_index, rows[j] as usize)));
                        }
                        i = i + 1;
                    }
                },
                _ => {},
            }
            proof {
                assert(indices@ =~= interleave_rows(inputs@, p, (batch_index + 1) as nat));
            }
            batch_index = batch_index + 1;
        }
        r.push(indices);
        partition_index = partition_index + 1;
    }
    r
}

/// The rows of input `b` that go to partition `p`: those its index column
/// for `p` names, none when it has no index column for `p`.
pub open spec fn input_positions(inputs: Seq<InputRef>, b: int, p: int) -> Seq<int> {
    if p < inputs[b].indices_per_partition@.len() {
        column_positions(inputs[b].indices_per_partition@[p])
    } else {
        Seq::empty()
    }
}

/// The rows of each input that go to partition `p`.
pub open spec fn partition_positions(inputs: Seq<InputRef>, p: int) -> Seq<Seq<int>> {
    Seq::new(inputs.len(), |b: int| input_positions(inputs, b, p))
}

/// Column `c` of each input.
pub open spec fn column_across(inputs: Seq<InputRef>, c: int) -> Seq<Column> {
    Seq::new(inputs.len(), |b: int| inputs[b].batch.columns@[c])
}

/// The bytes that partition `p` gets of column `c` fit in a column of its
/// type.
pub open spec fn partition_bytes_fit(inputs: Seq<InputRef>, p: int, c: int) -> bool {
    let fields = inputs[0].batch.schema@;
    let n = taken_byte_rows(column_across(inputs, c), partition_positions(inputs, p), inputs.len()).flatten_alt().len();
    fields[c].data_type.spec_is_byte_type() ==> n <= fields[c].data_type.spec_offset_limit() && n <= usize::MAX
}

/// What taking the rows of the inputs into sinks for each partition asks:
/// the fields of the first input's schema all have sinks, and every input
/// has a column of each field's type, without nulls where the field is not
/// nullable; for each input and
/// partition, an integer index column without nulls naming rows of the
/// input's batch; at most `batch_size` rows for each partition, and for
/// each byte column no more bytes than its type can address.
pub open spec fn take_inputs_ok(inputs: Seq<InputRef>, batch_size: usize, number_of_partitions: usize) -> bool {
    let fields = inputs[0].batch.schema@;
    &&& inputs.len() > 0
    &&& fields.len() > 0
    &&& forall|c: int|
        0 <= c < fields.len() ==> sink_supported(#[trigger] fields[c].data_type) && sink_batch_size_ok(
            fields[c].data_type,
            batch_size,
        )
    &&& forall|b: int|
        0 <= b < inputs.len() ==> (#[trigger] inputs[b]).batch.wf() && inputs[b].batch.columns@.len() >= fields.len()
    &&& forall|b: int, c: int|
        0 <= b < inputs.len() && 0 <= c < fields.len() ==> {
            &&& (#[trigger] inputs[b].batch.columns@[c]).spec_data_type() == fields[c].data_type
            &&& !fields[c].nullable ==> inputs[b].batch.columns@[c].spec_null_count() == 0
        }
    &&& forall|b: int, p: int|
        0 <= b < inputs.len() && 0 <= p < number_of_partitions && p < inputs[b].indices_per_partition@.len() ==> {
            &&& integer_indices(#[trigger] inputs[b].indices_per_partition@[p])
            &&& inputs[b].indices_per_partition@[p].spec_null_count() == 0
            &&& in_bounds(column_positions(inputs[b].indices_per_partition@[p]), inputs[b].batch.num_rows as nat)
        }
    &&& forall|p: int|
        0 <= p < number_of_partitions ==> taken_count(#[trigger] partition_positions(inputs, p), inputs.len()) <= batch_size
    &&& forall|p: int, c: int|
        0 <= p < number_of_partitions && 0 <= c < fields.len() ==> #[trigger] partition_bytes_fit(inputs, p, c)
}

/// The sinks of partition `p` hold what taking its rows of the first `k`
/// inputs leaves.
pub open spec fn partition_sinks_hold(sinks: Seq<Sink>, inputs: Seq<InputRef>, p: int, k: nat) -> bool {
    let fields = inputs[0].batch.schema@;
    &&& sinks.len() == fields.len()
    &&& forall|c: int|
        0 <= c < fields.len() ==> holds_taken(
            #[trigger] sinks[c],
            fields[c],
            column_across(inputs, c),
            partition_positions(inputs, p),
            k,
        )
}

/// A sink of partition `p` for column `c` that holds what the first `b`
/// inputs gave can take the rows of input `b`.
proof fn lemma_can_take_input(
    inputs: Seq<InputRef>,
    batch_size: usize,
    number_of_partitions: usize,
    sink: Sink,
    p: int,
    c: int,
    b: int,
)
    requires
        take_inputs_ok(inputs, batch_size, number_of_partitions),
        0 <= p < number_of_partitions,
        0 <= c < inputs[0].batch.schema@.len(),
        0 <= b < inputs.len(),
        p < inputs[b].indices_per_partition@.len(),
        holds_taken(
            sink,
            inputs[0].batch.schema@[c],
            column_across(inputs, c),
            partition_positions(inputs, p),
            b as nat,
        ),
    ensures
        sink.can_take(inputs[b].batch.columns@[c], column_positions(inputs[b].indices_per_partition@[p])),
{
    let fields = inputs[0].batch.schema@;
    let field = fields[c];
    let columns = column_across(inputs, c);
    let idx = partition_positions(inputs, p);
    let batch = inputs[b].batch;
    let column = batch.columns@[c];
    assert(batch.wf() && batch.columns@.len() >= fields.len());
    assert(columns[b] == column);
    assert(idx[b] == column_positions(inputs[b].indices_per_partition@[p]));
    assert(column.wf());
    assert(column.spec_data_type() == field.data_type);
    assert(column.spec_len() == batch.num_rows);
    assert(!field.nullable ==> column.spec_null_count() == 0);
    assert(sink_supported(field.data_type));
    lemma_taken_count_monotone(idx, (b + 1) as nat, inputs.len());
    assert(taken_count(idx, (b + 1) as nat) == taken_count(idx, b as nat) + idx[b].len());
    assert(taken_count(idx, inputs.len()) <= batch_size);
    assert(partition_bytes_fit(inputs, p, c));
    match (sink, column) {
        (Sink::Bytes(s), Column::Bytes(col)) => {
            lemma_taken_bytes_step(columns, idx, b as nat);
            lemma_taken_bytes_monotone(columns, idx, (b + 1) as nat, inputs.len());
        },
        _ => {},
    }
}

/// Shuffles the inputs by taking, for each input and partition, the rows its
/// index column names into sinks of that partition, one per column; each
/// partition's sinks are then finished into one batch.
pub fn take_to_builders_approach<'a>(input: &'a [InputRef<'a>], batch_size: usize, number_of_partitions: usize) -> (r: Vec<
    Vec<Batch>,
>)
    requires
        take_inputs_ok(input@, batch_size, number_of_partitions),
    ensures
        r@.len() == number_of_partitions,
        forall|p: int|
            0 <= p < number_of_partitions ==> {
                let fields = input@[0].batch.schema@;
                &&& (#[trigger] r@[p])@.len() == 1
                &&& r@[p]@[0].schema@ == fields
                &&& r@[p]@[0].num_rows == taken_count(partition_positions(input@, p), input@.len())
                &&& r@[p]@[0].num_rows <= batch_size
                &&& r@[p]@[0].columns@.len() == fields.len()
                &&& forall|c: int|
                    0 <= c < fields.len() ==> column_of_taken(
                        #[trigger] r@[p]@[0].columns@[c],
                        fields[c],
                        column_across(input@, c),
                        partition_positions(input@, p),
                        input@.len(),
                    )
            },
{
    let ghost inputs = input@;
    let ghost fields = input@[0].batch.schema@;
    let fields_ref = &input[0].batch.schema;
    let mut partitions_sink: Vec<Vec<Sink>> = Vec::with_capacity(number_of_partitions);
    let mut p: usize = 0;
    while p < number_of_partitions
        invariant
            p <= number_of_partitions,
            inputs == input@,
            fields == inputs[0].batch.schema@,
            fields_ref@ == fields,
            take_inputs_ok(inputs, batch_size, number_of_partitions),
            partitions_sink@.len() == p,
            forall|q: int| 0 <= q < p ==> partition_sinks_hold(#[trigger] partitions_sink@[q]@, inputs, q, 0),
        decreases number_of_partitions - p,
    {
        let sinks = create_sinks(fields_ref, batch_size);
        proof {
            assert forall|c: int| 0 <= c < fields.len() implies holds_taken(
                #[trigger] sinks@[c],
                fields[c],
                column_across(inputs, c),
                partition_positions(inputs, p as int),
                0,
            ) by {
                lemma_fresh_holds_taken(sinks@[c], fields[c], column_across(inputs, c), partition_positions(inputs, p as int));
            }
        }
        partitions_sink.push(sinks);
        p = p + 1;
    }
    let mut b: usize = 0;
    while b < input.len()
        invariant
            b <= inputs.len(),
            inputs == input@,
            fields == inputs[0].batch.schema@,
            fields_ref@ == fields,
            take_inputs_ok(inputs, batch_size, number_of_partitions),
            partitions_sink@.len() == number_of_partitions,
            forall|q: int|
                0 <= q < number_of_partitions ==> partition_sinks_hold(#[trigger] partitions_sink@[q]@, inputs, q, b as nat),
        decreases inputs.len() - b,
    {
        let current = &input[b];
        let m = if current.indices_per_partition.len() <= number_of_partitions {
            current.indices_per_partition.len()
        } else {
            number_of_partitions
        };
        let mut p: usize = 0;
        while p < m
            invariant
                b < inputs.len(),
                *current == inputs[b as int],
                p <= m,
                m <= number_of_partitions,
                m <= current.indices_per_partition@.len(),
                inputs == input@,
                fields == inputs[0].batch.schema@,
                take_inputs_ok(inputs, batch_size, number_of_partitions),
                partitions_sink@.len() == number_of_partitions,
                forall|q: int|
                    0 <= q < p ==> partition_sinks_hold(#[trigger] partitions_sink@[q]@, inputs, q, (b + 1) as nat),
                forall|q: int|
                    p <= q < number_of_partitions ==> partition_sinks_hold(#[trigger] partitions_sink@[q]@, inputs, q, b as nat),
            decreases m - p,
        {
            let ghost before = partitions_sink@[p as int]@;
            let ghost ix = current.indices_per_partition@[p as int];
            let ghost positions = column_positions(ix);
            proof {
                assert(partition_sinks_hold(before, inputs, p as int, b as nat));
                assert(current.batch.wf() && current.batch.columns@.len() >= fields.len());
                assert(integer_indices(ix));
                assert forall|i: int| 0 <= i < pairs(before.len(), current.batch.columns@.len()) implies {
                    &&& (#[trigger] before[i]).can_take(current.batch.columns@[i], positions)
                    &&& ix.spec_null_count() == 0
                } by {
                    assert(holds_taken(
                        before[i],
                        fields[i],
                        column_across(inputs, i),
                        partition_positions(inputs, p as int),
                        b as nat,
                    ));
                    lemma_can_take_input(inputs, batch_size, number_of_partitions, before[i], p as int, i, b as int);
                }
            }
            take_to_sinks(&current.batch.columns, &mut partitions_sink[p], &current.indices_per_partition[p]).expect(
                "should be able to take",
            );
            proof {
                let after = partitions_sink@[p as int]@;
                assert forall|c: int| 0 <= c < fields.len() implies holds_taken(
                    #[trigger] after[c],
                    fields[c],
                    column_across(inputs, c),
                    partition_positions(inputs, p as int),
                    (b + 1) as nat,
                ) by {
                    let columns = column_across(inputs, c);
                    let idx = partition_positions(inputs, p as int);
                    assert(holds_taken(before[c], fields[c], columns, idx, b as nat));
                    assert(columns[b as int] == current.batch.columns@[c]);
                    assert(idx[b as int] == positions);
                    lemma_can_take_input(inputs, batch_size, number_of_partitions, before[c], p as int, c, b as int);
                    lemma_holds_taken_step(before[c], after[c], fields[c], columns, idx, b as nat);
                }
                assert(partition_sinks_hold(after, inputs, p as int, (b + 1) as nat));
            }
            p = p + 1;
        }
        proof {
            assert forall|q: int| m <= q < number_of_partitions implies partition_sinks_hold(
                #[trigger] partitions_sink@[q]@,
                inputs,
                q,
                (b + 1) as nat,
            ) by {
                let sinks = partitions_sink@[q]@;
                assert(partition_sinks_hold(sinks, inputs, q, b as nat));
                assert(q >= inputs[b as int].indices_per_partition@.len());
                assert forall|c: int| 0 <= c < fields.len() implies holds_taken(
                    #[trigger] sinks[c],
                    fields[c],
                    column_across(inputs, c),
                    partition_positions(inputs, q),
                    (b + 1) as nat,
                ) by {
                    let idx = partition_positions(inputs, q);
                    assert(idx[b as int] == Seq::<int>::empty());
                    lemma_holds_taken_skip(sinks[c], fields[c], column_across(inputs, c), idx, b as nat);
                }
            }
        }
        b = b + 1;
    }
    let mut output: Vec<Vec<Batch>> = Vec::with_capacity(number_of_partitions);
    let mut p: usize = 0;
    while p < number_of_partitions
        invariant
            p <= number_of_partitions,
            inputs == input@,
            fields == inputs[0].batch.schema@,
            fields_ref@ == fields,
            take_inputs_ok(inputs, batch_size, number_of_partitions),
            partitions_sink@.len() == number_of_partitions,
            forall|q: int|
                p <= q < number_of_partitions ==> partition_sinks_hold(#[trigger] partitions_sink@[q]@, inputs, q, inputs.len()),
            output@.len() == p,
            forall|q: int|
                0 <= q < p ==> {
                    &&& (#[trigger] output@[q])@.len() == 1
                    &&& output@[q]@[0].schema@ == fields
                    &&& output@[q]@[0].num_rows == taken_count(partition_positions(inputs, q), inputs.len())
                    &&& output@[q]@[0].num_rows <= batch_size
                    &&& output@[q]@[0].columns@.len() == fields.len()
                    &&& forall|c: int|
                        0 <= c < fields.len() ==> column_of_taken(
                            #[trigger] output@[q]@[0].columns@[c],
                            fields[c],
                            column_across(inputs, c),
                            partition_positions(inputs, q),
                            inputs.len(),
                        )
                },
        decreases number_of_partitions - p,
    {
        let ghost sinks = partitions_sink@[p as int]@;
        let ghost idx = partition_positions(inputs, p as int);
        proof {
            assert(partition_sinks_hold(sinks, inputs, p as int, inputs.len()));
            assert(taken_count(idx, inputs.len()) <= batch_size);
            assert forall|c: int| 0 <= c < fields.len() implies {
                &&& sink_supported(#[trigger] fields[c].data_type)
                &&& sinks[c].wf()
                &&& sinks[c].spec_data_type() == fields[c].data_type
                &&& sinks[c].spec_len() == sinks[0].spec_len()
                &&& !fields[c].nullable ==> sinks[c].spec_null_count() == 0
            } by {
                assert(holds_taken(sinks[c], fields[c], column_across(inputs, c), idx, inputs.len()));
                assert(holds_taken(sinks[0], fields[0], column_across(inputs, 0), idx, inputs.len()));
            }
            assert(sinks_ready(fields, sinks));
        }
        let ghost all_before = partitions_sink@;
        let batch = finish_sinks(fields_ref, &mut partitions_sink[p], batch_size);
        proof {
            assert(holds_taken(sinks[0], fields[0], column_across(inputs, 0), idx, inputs.len()));
            assert forall|c: int| 0 <= c < fields.len() implies column_of_taken(
                #[trigger] batch.columns@[c],
                fields[c],
                column_across(inputs, c),
                idx,
                inputs.len(),
            ) by {
                assert(holds_taken(sinks[c], fields[c], column_across(inputs, c), idx, inputs.len()));
                lemma_finished_column_of_taken(sinks[c], batch.columns@[c], fields[c], column_across(inputs, c), idx, inputs.len());
            }
        }
        let mut partition_output: Vec<Batch> = Vec::with_capacity(1);
        partition_output.push(batch);
        output.push(partition_output);
        proof {
            assert forall|q: int| p + 1 <= q < number_of_partitions implies partition_sinks_hold(
                #[trigger] partitions_sink@[q]@,
                inputs,
                q,
                inputs.len(),
            ) by {
                assert(partitions_sink@[q] == all_before[q]);
            }
        }
        p = p + 1;
    }
    output
}

/// The rows of a column input that go to partition `p`: those its index
/// column for `p` names, none when it has no index column for `p`.
pub open spec fn single_positions(input: SingleColumnInput, p: int) -> Seq<int> {
    if p < input.indices_per_partition@.len() {
        column_positions(input.indices_per_partition@[p])
    } else {
        Seq::empty()
    }
}

/// Column `c` of each batch.
pub open spec fn column_inputs(columns: InputColumns, c: int) -> Seq<Column> {
    Seq::new(columns.columns@[c]@.len(), |b: int| *columns.columns@[c]@[b].column)
}

/// The rows of each batch of column `c` that go to partition `p`.
pub open spec fn column_partition_positions(columns: InputColumns, c: int, p: int) -> Seq<Seq<int>> {
    Seq::new(columns.columns@[c]@.len(), |b: int| single_positions(columns.columns@[c]@[b], p))
}

/// The bytes that partition `p` gets of column `c` fit in a column of the
/// field's type.
pub open spec fn column_bytes_fit(fields: Seq<Field>, columns: InputColumns, p: int, c: int) -> bool {
    let n = taken_byte_rows(
        column_inputs(columns, c),
        column_partition_positions(columns, c, p),
        columns.columns@[c]@.len(),
    ).flatten_alt().len();
    fields[c].data_type.spec_is_byte_type() ==> n <= fields[c].data_type.spec_offset_limit() && n <= usize::MAX
}

/// Column `c` gives partition `p` as many rows as column 0 does, and at most
/// `batch_size`.
pub open spec fn column_count_ok(columns: InputColumns, batch_size: usize, p: int, c: int) -> bool {
    let n = taken_count(column_partition_positions(columns, c, p), columns.columns@[c]@.len());
    &&& n == taken_count(column_partition_positions(columns, 0, p), columns.columns@[0]@.len())
    &&& n <= batch_size
}

/// What taking the inputs column by column asks: a column of inputs for
/// each field, each batch of it of the field's type, without nulls where the
/// field is not nullable, and with a sink for the field; integer index
/// columns without nulls naming rows of their batch; each column giving each
/// partition as many rows as the first, at most `batch_size`, and for a byte
/// column no more bytes than its type can address.
pub open spec fn column_wise_inputs_ok(
    fields: Seq<Field>,
    columns: InputColumns,
    batch_size: usize,
    number_of_partitions: usize,
) -> bool {
    &&& fields.len() > 0
    &&& columns.columns@.len() >= fields.len()
    &&& forall|c: int|
        0 <= c < fields.len() ==> sink_supported(#[trigger] fields[c].data_type) && sink_batch_size_ok(
            fields[c].data_type,
            batch_size,
        )
    &&& forall|c: int, b: int|
        0 <= c < fields.len() && 0 <= b < columns.columns@[c]@.len() ==> {
            let single = #[trigger] columns.columns@[c]@[b];
            &&& single.column.wf()
            &&& single.column.spec_data_type() == fields[c].data_type
            &&& !fields[c].nullable ==> single.column.spec_null_count() == 0
        }
    &&& forall|c: int, b: int, p: int|
        0 <= c < fields.len() && 0 <= b < columns.columns@[c]@.len() && 0 <= p < number_of_partitions && p
            < columns.columns@[c]@[b].indices_per_partition@.len() ==> {
            let ix = #[trigger] columns.columns@[c]@[b].indices_per_partition@[p];
            &&& integer_indices(ix)
            &&& ix.spec_null_count() == 0
            &&& in_bounds(column_positions(ix), columns.columns@[c]@[b].column.spec_len())
        }
    &&& forall|p: int, c: int|
        0 <= p < number_of_partitions && 0 <= c < fields.len() ==> #[trigger] column_count_ok(columns, batch_size, p, c)
    &&& forall|p: int, c: int|
        0 <= p < number_of_partitions && 0 <= c < fields.len() ==> #[trigger] column_bytes_fit(fields, columns, p, c)
}

/// The sink of column `c` for partition `p` holds what the first `k`
/// batches of that column gave it.
pub open spec fn cell_holds(sink: Sink, fields: Seq<Field>, columns: InputColumns, c: int, p: int, k: nat) -> bool {
    holds_taken(sink, fields[c], column_inputs(columns, c), column_partition_positions(columns, c, p), k)
}

/// A sink of column `c` for partition `p` that holds what the first `b`
/// batches gave can take the rows of batch `b`.
proof fn lemma_can_take_column_input(
    fields: Seq<Field>,
    columns: InputColumns,
    batch_size: usize,
    number_of_partitions: usize,
    sink: Sink,
    c: int,
    b: int,
    p: int,
)
    requires
        column_wise_inputs_ok(fields, columns, batch_size, number_of_partitions),
        0 <= c < fields.len(),
        0 <= b < columns.columns@[c]@.len(),
        0 <= p < number_of_partitions,
        p < columns.columns@[c]@[b].indices_per_partition@.len(),
        cell_holds(sink, fields, columns, c, p, b as nat),
    ensures
        sink.can_take(
            *columns.columns@[c]@[b].column,
            column_positions(columns.columns@[c]@[b].indices_per_partition@[p]),
        ),
{
    let batches = columns.columns@[c]@.len();
    let inputs = column_inputs(columns, c);
    let idx = column_partition_positions(columns, c, p);
    let single = columns.columns@[c]@[b];
    assert(inputs[b] == *single.column);
    assert(idx[b] == column_positions(single.indices_per_partition@[p]));
    assert(single.column.wf());
    assert(sink_supported(fields[c].data_type));
    lemma_taken_count_monotone(idx, (b + 1) as nat, batches);
    assert(taken_count(idx, (b + 1) as nat) == taken_count(idx, b as nat) + idx[b].len());
    assert(column_count_ok(columns, batch_size, p, c));
    assert(column_bytes_fit(fields, columns, p, c));
    match (sink, *single.column) {
        (Sink::Bytes(s), Column::Bytes(col)) => {
            lemma_taken_bytes_step(inputs, idx, b as nat);
            lemma_taken_bytes_monotone(inputs, idx, (b + 1) as nat, batches);
        },
        _ => {},
    }
}

/// Shuffles the inputs column by column: for each column, each batch and
/// each partition, the rows the batch's index column names are taken into
/// the sink of that column and partition; the sinks are then finished and
/// each partition's columns assembled into one batch.
pub fn take_to_builders_column_wise_approach<'a>(
    input: &'a [InputRef<'a>],
    columns_based: &'a InputColumns<'a>,
    batch_size: usize,
    number_of_partitions: usize,
) -> (r: Vec<Vec<Batch>>)
    requires
        input@.len() > 0,
        column_wise_inputs_ok(input@[0].batch.schema@, *columns_based, batch_size, number_of_partitions),
    ensures
        r@.len() == number_of_partitions,
        forall|p: int|
            0 <= p < number_of_partitions ==> {
                let fields = input@[0].batch.schema@;
                &&& (#[trigger] r@[p])@.len() == 1
                &&& r@[p]@[0].schema@ == fields
                &&& r@[p]@[0].num_rows == taken_count(
                    column_partition_positions(*columns_based, 0, p),
                    columns_based.columns@[0]@.len(),
                )
                &&& r@[p]@[0].num_rows <= batch_size
                &&& r@[p]@[0].columns@.len() == fields.len()
                &&& forall|c: int|
                    0 <= c < fields.len() ==> column_of_taken(
                        #[trigger] r@[p]@[0].columns@[c],
                        fields[c],
                        column_inputs(*columns_based, c),
                        column_partition_positions(*columns_based, c, p),
                        columns_based.columns@[c]@.len(),
                    )
            },
{
    let fields = &input[0].batch.schema;
    let ghost fs = fields@;
    let ghost cb = *columns_based;
    let ghost batches = columns_based.columns@[0]@.len();
    let nf = fields.len();
    // columns_sink[column_index][partition_index] = sink for that column in that partition
    let mut columns_sink: Vec<Vec<Sink>> = Vec::with_capacity(nf);
    let mut c: usize = 0;
    while c < nf
        invariant
            c <= nf,
            nf == fs.len(),
            fs == fields@,
            cb == *columns_based,
            column_wise_inputs_ok(fs, cb, batch_size, number_of_partitions),
            columns_sink@.len() == c,
            forall|k: int|
                0 <= k < c ==> (#[trigger] columns_sink@[k])@.len() == number_of_partitions && forall|p: int|
                    0 <= p < number_of_partitions ==> cell_holds(#[trigger] columns_sink@[k]@[p], fs, cb, k, p, 0),
        decreases nf - c,
    {
        let mut partitions: Vec<Sink> = Vec::with_capacity(number_of_partitions);
        let mut p: usize = 0;
        while p < number_of_partitions
            invariant
                c < nf,
                nf == fs.len(),
                fs == fields@,
                cb == *columns_based,
                column_wise_inputs_ok(fs, cb, batch_size, number_of_partitions),
                p <= number_of_partitions,
                partitions@.len() == p,
                forall|q: int| 0 <= q < p ==> cell_holds(#[trigger] partitions@[q], fs, cb, c as int, q, 0),
            decreases number_of_partitions - p,
        {
            proof {
                assert(sink_supported(fs[c as int].data_type));
            }
            let sink = create_sink(&fields[c], batch_size);
            proof {
                lemma_fresh_holds_taken(
                    sink,
                    fs[c as int],
                    column_inputs(cb, c as int),
                    column_partition_positions(cb, c as int, p as int),
                );
            }
            partitions.push(sink);
            p = p + 1;
        }
        columns_sink.push(partitions);
        c = c + 1;
    }
    let mut c: usize = 0;
    while c < nf
        invariant
            c <= nf,
            nf == fs.len(),
            fs == fields@,
            cb == *columns_based,
            column_wise_inputs_ok(fs, cb, batch_size, number_of_partitions),
            columns_sink@.len() == nf,
            forall|k: int| 0 <= k < nf ==> (#[trigger] columns_sink@[k])@.len() == number_of_partitions,
            forall|k: int, p: int|
                0 <= k < c && 0 <= p < number_of_partitions ==> cell_holds(
                    #[trigger] columns_sink@[k]@[p],
                    fs,
                    cb,
                    k,
                    p,
                    cb.columns@[k]@.len(),
                ),
            forall|k: int, p: int|
                c <= k < nf && 0 <= p < number_of_partitions ==> cell_holds(#[trigger] columns_sink@[k]@[p], fs, cb, k, p, 0),
        decreases nf - c,
    {
        let column_and_indices = &columns_based.columns[c];
        let mut b: usize = 0;
        while b < column_and_indices.len()
            invariant
                c < nf,
                nf == fs.len(),
                cb == *columns_based,
                *column_and_indices == cb.columns@[c as int],
                column_wise_inputs_ok(fs, cb, batch_size, number_of_partitions),
                b <= column_and_indices@.len(),
                columns_sink@.len() == nf,
                forall|k: int| 0 <= k < nf ==> (#[trigger] columns_sink@[k])@.len() == number_of_partitions,
                forall|k: int, p: int|
                    0 <= k < c && 0 <= p < number_of_partitions ==> cell_holds(
                        #[trigger] columns_sink@[k]@[p],
                        fs,
                        cb,
                        k,
                        p,
                        cb.columns@[k]@.len(),
                    ),
                forall|p: int|
                    0 <= p < number_of_partitions ==> cell_holds(
                        #[trigger] columns_sink@[c as int]@[p],
                        fs,
                        cb,
                        c as int,
                        p,
                        b as nat,
                    ),
                forall|k: int, p: int|
                    c < k < nf && 0 <= p < number_of_partitions ==> cell_holds(
                        #[trigger] columns_sink@[k]@[p],
                        fs,
                        cb,
                        k,
                        p,
                        0,
                    ),
            decreases column_and_indices@.len() - b,
        {
            let single = column_and_indices[b];
            let m = if single.indices_per_partition.len() <= number_of_partitions {
                single.indices_per_partition.len()
            } else {
                number_of_partitions
            };
            let mut p: usize = 0;
            while p < m
                invariant
                    c < nf,
                    nf == fs.len(),
                    cb == *columns_based,
                    b < cb.columns@[c as int]@.len(),
                    single == cb.columns@[c as int]@[b as int],
                    p <= m,
                    m <= number_of_partitions,
                    m <= single.indices_per_partition@.len(),
                    column_wise_inputs_ok(fs, cb, batch_size, number_of_partitions),
                    columns_sink@.len() == nf,
                    forall|k: int| 0 <= k < nf ==> (#[trigger] columns_sink@[k])@.len() == number_of_partitions,
                    forall|k: int, q: int|
                        0 <= k < c && 0 <= q < number_of_partitions ==> cell_holds(
                            #[trigger] columns_sink@[k]@[q],
                            fs,
                            cb,
                            k,
                            q,
                            cb.columns@[k]@.len(),
                        ),
                    forall|q: int|
                        0 <= q < p ==> cell_holds(
                            #[trigger] columns_sink@[c as int]@[q],
                            fs,
                            cb,
                            c as int,
                            q,
                            (b + 1) as nat,
                        ),
                    forall|q: int|
                        p <= q < number_of_partitions ==> cell_holds(
                            #[trigger] columns_sink@[c as int]@[q],
                            fs,
                            cb,
                            c as int,
                            q,
                            b as nat,
                        ),
                    forall|k: int, q: int|
                        c < k < nf && 0 <= q < number_of_partitions ==> cell_holds(
                            #[trigger] columns_sink@[k]@[q],
                            fs,
                            cb,
                            k,
                            q,
                            0,
                        ),
                decreases m - p,
            {
                let ghost all_before = columns_sink@;
                let ghost before = columns_sink@[c as int]@[p as int];
                let ghost ix = single.indices_per_partition@[p as int];
                proof {
                    assert(cell_holds(before, fs, cb, c as int, p as int, b as nat));
                    lemma_can_take_column_input(fs, cb, batch_size, number_of_partitions, before, c as int, b as int, p as int);
                    assert(integer_indices(ix));
                }
                take_to_sink(single.column, &mut columns_sink[c][p], &single.indices_per_partition[p]).expect(
                    "should be able to take",
                );
                proof {
                    let after = columns_sink@[c as int]@[p as int];
                    let inputs = column_inputs(cb, c as int);
                    let idx = column_partition_positions(cb, c as int, p as int);
                    assert(inputs[b as int] == *single.column);
                    assert(idx[b as int] == column_positions(ix));
                    lemma_holds_taken_step(before, after, fs[c as int], inputs, idx, b as nat);
                    assert forall|k: int, q: int|
                        0 <= k < nf && 0 <= q < number_of_partitions && (k != c || q != p) implies #[trigger] columns_sink@[k]@[q]
                        == all_before[k]@[q] by {
                        if k != c {
                            assert(columns_sink@[k] == all_before[k]);
                        }
                    }
                }
                p = p + 1;
            }
            proof {
                assert forall|q: int| m <= q < number_of_partitions implies cell_holds(
                    #[trigger] columns_sink@[c as int]@[q],
                    fs,
                    cb,
                    c as int,
                    q,
                    (b + 1) as nat,
                ) by {
                    let idx = column_partition_positions(cb, c as int, q);
                    assert(cell_holds(columns_sink@[c as int]@[q], fs, cb, c as int, q, b as nat));
                    assert(idx[b as int] == Seq::<int>::empty());
                    lemma_holds_taken_skip(columns_sink@[c as int]@[q], fs[c as int], column_inputs(cb, c as int), idx, b as nat);
                }
            }
            b = b + 1;
        }
        c = c + 1;
    }
    // output_partitions[partition_index][column_index] = that column for that partition
    let mut output_partitions: Vec<Vec<Column>> = Vec::with_capacity(number_of_partitions);
    let mut p: usize = 0;
    while p < number_of_partitions
        invariant
            p <= number_of_partitions,
            output_partitions@.len() == p,
            forall|q: int| 0 <= q < p ==> (#[trigger] output_partitions@[q])@.len() == 0,
        decreases number_of_partitions - p,
    {
        output_partitions.push(Vec::with_capacity(nf));
        p = p + 1;
    }
    let mut c: usize = 0;
    while c < nf
        invariant
            c <= nf,
            nf == fs.len(),
            fs == fields@,
            cb == *columns_based,
            column_wise_inputs_ok(fs, cb, batch_size, number_of_partitions),
            columns_sink@.len() == nf,
            forall|k: int| 0 <= k < nf ==> (#[trigger] columns_sink@[k])@.len() == number_of_partitions,
            forall|k: int, p: int|
                c <= k < nf && 0 <= p < number_of_partitions ==> cell_holds(
                    #[trigger] columns_sink@[k]@[p],
                    fs,
                    cb,
                    k,
                    p,
                    cb.columns@[k]@.len(),
                ),
            output_partitions@.len() == number_of_partitions,
            forall|q: int| 0 <= q < number_of_partitions ==> (#[trigger] output_partitions@[q])@.len() == c,
            forall|q: int, k: int|
                0 <= q < number_of_partitions && 0 <= k < c ==> column_of_taken(
                    #[trigger] output_partitions@[q]@[k],
                    fs[k],
                    column_inputs(cb, k),
                    column_partition_positions(cb, k, q),
                    cb.columns@[k]@.len(),
                ),
        decreases nf - c,
    {
        let mut p: usize = 0;
        while p < number_of_partitions
            invariant
                c < nf,
                nf == fs.len(),
                fs == fields@,
                cb == *columns_based,
                column_wise_inputs_ok(fs, cb, batch_size, number_of_partitions),
                p <= number_of_partitions,
                columns_sink@.len() == nf,
                forall|k: int| 0 <= k < nf ==> (#[trigger] columns_sink@[k])@.len() == number_of_partitions,
                forall|k: int, q: int|
                    c < k < nf && 0 <= q < number_of_partitions ==> cell_holds(
                        #[trigger] columns_sink@[k]@[q],
                        fs,
                        cb,
                        k,
                        q,
                        cb.columns@[k]@.len(),
                    ),
                forall|q: int|
                    p <= q < number_of_partitions ==> cell_holds(
                        #[trigger] columns_sink@[c as int]@[q],
                        fs,
                        cb,
                        c as int,
                        q,
                        cb.columns@[c as int]@.len(),
                    ),
                output_partitions@.len() == number_of_partitions,
                forall|q: int| 0 <= q < p ==> (#[trigger] output_partitions@[q])@.len() == c + 1,
                forall|q: int| p <= q < number_of_partitions ==> (#[trigger] output_partitions@[q])@.len() == c,
                forall|q: int, k: int|
                    0 <= q < number_of_partitions && 0 <= k < c ==> column_of_taken(
                        #[trigger] output_partitions@[q]@[k],
                        fs[k],
                        column_inputs(cb, k),
                        column_partition_positions(cb, k, q),
                        cb.columns@[k]@.len(),
                    ),
                forall|q: int|
                    0 <= q < p ==> column_of_taken(
                        #[trigger] output_partitions@[q]@[c as int],
                        fs[c as int],
                        column_inputs(cb, c as int),
                        column_partition_positions(cb, c as int, q),
                        cb.columns@[c as int]@.len(),
                    ),
            decreases number_of_partitions - p,
        {
            let ghost sinks_before = columns_sink@;
            let ghost outputs_before = output_partitions@;
            let ghost sink = columns_sink@[c as int]@[p as int];
            proof {
                assert(cell_holds(sink, fs, cb, c as int, p as int, cb.columns@[c as int]@.len()));
                assert(sink_supported(fs[c as int].data_type));
            }
            let column = finish_sink(&fields[c], &mut columns_sink[c][p], batch_size);
            proof {
                lemma_finished_column_of_taken(
                    sink,
                    column,
                    fs[c as int],
                    column_inputs(cb, c as int),
                    column_partition_positions(cb, c as int, p as int),
                    cb.columns@[c as int]@.len(),
                );
                assert forall|k: int, q: int|
                    c < k < nf && 0 <= q < number_of_partitions implies #[trigger] columns_sink@[k]@[q] == sinks_before[k]@[q] by {
                    assert(columns_sink@[k] == sinks_before[k]);
                }
            }
            output_partitions[p].push(column);
            proof {
                assert forall|q: int| 0 <= q < number_of_partitions && q != p implies #[trigger] output_partitions@[q]
                    == outputs_before[q] by {}
                assert(output_partitions@[p as int]@ == outputs_before[p as int]@.push(column));
            }
            p = p + 1;
        }
        c = c + 1;
    }
    let mut output: Vec<Vec<Batch>> = Vec::with_capacity(number_of_partitions);
    let mut p: usize = 0;
    while p < number_of_partitions
        invariant
            p <= number_of_partitions,
            nf == fs.len(),
            fs == fields@,
            cb == *columns_based,
            batches == cb.columns@[0]@.len(),
            column_wise_inputs_ok(fs, cb, batch_size, number_of_partitions),
            output_partitions@.len() == number_of_partitions,
            forall|q: int| p <= q < number_of_partitions ==> (#[trigger] output_partitions@[q])@.len() == nf,
            forall|q: int, k: int|
                p <= q < number_of_partitions && 0 <= k < nf ==> column_of_taken(
                    #[trigger] output_partitions@[q]@[k],
                    fs[k],
                    column_inputs(cb, k),
                    column_partition_positions(cb, k, q),
                    cb.columns@[k]@.len(),
                ),
            output@.len() == p,
            forall|q: int|
                0 <= q < p ==> {
                    &&& (#[trigger] output@[q])@.len() == 1
                    &&& output@[q]@[0].schema@ == fs
                    &&& output@[q]@[0].num_rows == taken_count(column_partition_positions(cb, 0, q), batches)
                    &&& output@[q]@[0].num_rows <= batch_size
                    &&& output@[q]@[0].columns@.len() == fs.len()
                    &&& forall|k: int|
                        0 <= k < fs.len() ==> column_of_taken(
                            #[trigger] output@[q]@[0].columns@[k],
                            fs[k],
                            column_inputs(cb, k),
                            column_partition_positions(cb, k, q),
                            cb.columns@[k]@.len(),
                        )
                },
        decreases number_of_partitions - p,
    {
        let ghost outputs_before = output_partitions@;
        let mut partition: Vec<Column> = Vec::new();
        std::mem::swap(&mut partition, &mut output_partitions[p]);
        proof {
            assert forall|q: int| p < q < number_of_partitions implies #[trigger] output_partitions@[q] == outputs_before[q] by {}
            assert(column_of_taken(
                partition@[0],
                fs[0],
                column_inputs(cb, 0),
                column_partition_positions(cb, 0, p as int),
                batches,
            ));
        }
        let num_rows = partition[0].len();
        proof {
            assert forall|k: int| 0 <= k < partition@.len() implies (#[trigger] partition@[k]).wf() && partition@[k].spec_len()
                == num_rows && partition@[k].spec_data_type() == fs[k].data_type && !crate::batch::nulls_not_allowed(
                fs,
                partition@,
                k,
            ) by {
                assert(column_of_taken(
                    partition@[k],
                    fs[k],
                    column_inputs(cb, k),
                    column_partition_positions(cb, k, p as int),
                    cb.columns@[k]@.len(),
                ));
                assert(column_count_ok(cb, batch_size, p as int, k));
            }
            assert(column_count_ok(cb, batch_size, p as int, 0));
        }
        let ghost columns = partition@;
        let batch = Batch::try_new_with_row_count(fields, partition, num_rows).expect("should be able to create batch");
        let mut partition_output: Vec<Batch> = Vec::with_capacity(1);
        partition_output.push(batch);
        output.push(partition_output);
        proof {
            assert forall|k: int| 0 <= k < fs.len() implies column_of_taken(
                #[trigger] batch.columns@[k],
                fs[k],
                column_inputs(cb, k),
                column_partition_positions(cb, k, p as int),
                cb.columns@[k]@.len(),
            ) by {
                assert(batch.columns@[k] == columns[k]);
            }
        }
        p = p + 1;
    }
    output
}

/// Every row goes to exactly one partition: the rows listed for partition
/// `p` are those whose partition is `p`, in increasing order.
pub proof fn lemma_rows_of_partition(partitions: Seq<usize>, p: int, n: nat)
    requires
        n <= partitions.len(),
        n <= u64::MAX + 1,
    ensures
        forall|i: int| 0 <= i < n ==> (rows_of_partition(partitions, p, n).contains(i as u64) <==> partitions[i] == p),
        forall|a: int, b: int|
            0 <= a < b < rows_of_partition(partitions, p, n).len() ==> rows_of_partition(partitions, p, n)[a]
                < rows_of_partition(partitions, p, n)[b],
        forall|k: int|
            0 <= k < rows_of_partition(partitions, p, n).len() ==> #[trigger] rows_of_partition(partitions, p, n)[k] < n,
    decreases n,
{
    if n > 0 {
        let m = (n - 1) as nat;
        lemma_rows_of_partition(partitions, p, m);
        let prev = rows_of_partition(partitions, p, m);
        let cur = rows_of_partition(partitions, p, n);
        assert forall|i: int| 0 <= i < n implies (cur.contains(i as u64) <==> partitions[i] == p) by {
            if partitions[m as int] == p {
                assert(cur == prev.push(m as u64));
                if i < m {
                    if cur.contains(i as u64) {
                        let k = choose|k: int| 0 <= k < cur.len() && cur[k] == i as u64;
                        if k < prev.len() {
                            assert(prev[k] == i as u64);
                        }
                    }
                    if prev.contains(i as u64) {
                        let k = choose|k: int| 0 <= k < prev.len() && prev[k] == i as u64;
                        assert(cur[k] == i as u64);
                    }
                } else {
                    assert(cur[prev.len() as int] == m as u64);
                }
            } else {
                assert(cur == prev);
                if i == m {
                    if cur.contains(i as u64) {
                        let k = choose|k: int| 0 <= k < cur.len() && cur[k] == i as u64;
                        assert(prev[k] < m);
                    }
                }
            }
        }
    }
}

/// Round robin deals the rows out in turn: the first row goes to partition
/// 0, and each next row to the next partition, back to 0 after the last.
pub proof fn lemma_round_robin_turns(num_rows: nat, num_partitions: nat, i: int)
    requires
        num_partitions > 0,
        num_partitions <= usize::MAX,
        0 <= i < num_rows,
    ensures
        round_robin(num_rows, num_partitions).len() == num_rows,
        i == 0 ==> round_robin(num_rows, num_partitions)[i] == 0,
        i + 1 < num_rows ==> round_robin(num_rows, num_partitions)[i + 1] == if round_robin(
            num_rows,
            num_partitions,
        )[i] + 1 == num_partitions {
            0
        } else {
            round_robin(num_rows, num_partitions)[i] + 1
        },
{
    let n = num_partitions as int;
    vstd::arithmetic::div_mod::lemma_mod_pos_bound(i, n);
    vstd::arithmetic::div_mod::lemma_fundamental_div_mod(i, n);
    vstd::arithmetic::div_mod::lemma_fundamental_div_mod(i + 1, n);
    vstd::arithmetic::div_mod::lemma_mod_pos_bound(i + 1, n);
    let q = i / n;
    let r = i % n;
    if r + 1 == n {
        assert((i + 1) % n == 0) by (nonlinear_arith)
            requires
                i == n * q + r,
                r + 1 == n,
                n > 0,
                0 <= (i + 1) % n < n,
                i + 1 == n * ((i + 1) / n) + (i + 1) % n,
        ;
    } else {
        assert((i + 1) % n == r + 1) by (nonlinear_arith)
            requires
                i == n * q + r,
                0 <= r,
                r + 1 < n,
                0 <= (i + 1) % n < n,
                i + 1 == n * ((i + 1) / n) + (i + 1) % n,
        ;
    }
}

/// How many rows `round_robin` gives partition `p`: `num_rows /
/// num_partitions`, and one more for each of the first `num_rows %
/// num_partitions` partitions.
pub open spec fn round_robin_count(num_rows: nat, num_partitions: nat, p: int) -> nat {
    num_rows / num_partitions + if p < num_rows % num_partitions {
        1nat
    } else {
        0nat
    }
}

/// The rows are spread as evenly as they can be: each partition gets
/// `round_robin_count` of them.
pub proof fn lemma_round_robin_counts(num_rows: nat, num_partitions: nat, p: int)
    requires
        num_partitions > 0,
        0 <= p < num_partitions,
        num_partitions <= usize::MAX,
    ensures
        round_robin(num_rows, num_partitions).to_multiset().count(p as usize) == round_robin_count(
            num_rows,
            num_partitions,
            p,
        ),
    decreases num_rows,
{
    let np = num_partitions as int;
    if num_rows == 0 {
        assert(round_robin(0, num_partitions) =~= Seq::<usize>::empty());
        Seq::<usize>::empty().to_multiset_ensures();
        assert(!Seq::<usize>::empty().contains(p as usize));
        assert(Seq::<usize>::empty().to_multiset().count(p as usize) == 0);
        assert(0nat / num_partitions == 0) by (nonlinear_arith)
            requires
                num_partitions > 0,
        ;
        assert(0nat % num_partitions == 0) by (nonlinear_arith)
            requires
                num_partitions > 0,
        ;
    } else {
        let n = (num_rows - 1) as nat;
        lemma_round_robin_counts(n, num_partitions, p);
        let prev = round_robin(n, num_partitions);
        let last = (n as int % np) as usize;
        assert(round_robin(num_rows, num_partitions) =~= prev.push(last));
        prev.to_multiset_ensures();
        vstd::arithmetic::div_mod::lemma_fundamental_div_mod(n as int, np);
        let q = n as int / np;
        let r = n as int % np;
        assert(0 <= r < np);
        if r == np - 1 {
            assert(num_rows as int == (q + 1) * np + 0) by (nonlinear_arith)
                requires
                    n == np * q + r,
                    r == np - 1,
                    num_rows == n + 1,
            ;
            vstd::arithmetic::div_mod::lemma_fundamental_div_mod_converse(num_rows as int, np, q + 1, 0);
        } else {
            assert(num_rows as int == q * np + (r + 1)) by (nonlinear_arith)
                requires
                    n == np * q + r,
                    num_rows == n + 1,
            ;
            vstd::arithmetic::div_mod::lemma_fundamental_div_mod_converse(num_rows as int, np, q, r + 1);
        }
        assert((p as usize) == last <==> p == r);
    }
}

/// The rows as positions.
pub open spec fn as_positions(rows: Seq<u64>) -> Seq<int> {
    rows.map_values(|v: u64| v as int)
}

/// Splitting and taking agree: the rows of a column that a splitter sends to
/// partition `p`, going by each row's partition, are the rows that taking
/// partition `p`'s index column gives.
pub proof fn lemma_split_matches_take<X>(rows: Seq<X>, partitions: Seq<usize>, p: int, n: nat)
    requires
        n <= rows.len(),
        n <= partitions.len(),
        n <= u64::MAX + 1,
        forall|i: int| 0 <= i < n ==> #[trigger] partitions[i] <= u32::MAX,
    ensures
        crate::column::select_partition(rows, partitions_as_u32(partitions), p, n) == gather(
            rows,
            as_positions(rows_of_partition(partitions, p, n)),
        ),
    decreases n,
{
    if n == 0 {
        assert(as_positions(rows_of_partition(partitions, p, 0)) =~= Seq::<int>::empty());
        assert(gather(rows, Seq::<int>::empty()) =~= Seq::<X>::empty());
    } else {
        let m = (n - 1) as nat;
        lemma_split_matches_take(rows, partitions, p, m);
        let prev = rows_of_partition(partitions, p, m);
        assert(partitions[m as int] <= u32::MAX);
        assert(partitions_as_u32(partitions)[m as int] == partitions[m as int] as u32);
        if partitions[m as int] == p {
            assert(as_positions(prev.push(m as u64)) =~= as_positions(prev).push(m as int));
            assert(gather(rows, as_positions(prev).push(m as int)) =~= gather(rows, as_positions(prev)).push(rows[m as int]));
        }
    }
}

/// The index column of partition `p` for a batch whose rows go to
/// `partitions` names the rows that `rows_of_partition` lists.
proof fn lemma_index_column_positions(ix: Column, partitions: Seq<usize>, p: int)
    requires
        partitions.len() <= u32::MAX + 1,
        is_u32_index_column(ix, rows_of_partition(partitions, p, partitions.len())),
    ensures
        column_positions(ix) == as_positions(rows_of_partition(partitions, p, partitions.len())),
{
    let rows = rows_of_partition(partitions, p, partitions.len());
    lemma_rows_of_partition(partitions, p, partitions.len());
    let c = ix->Primitive_0;
    assert forall|k: int| 0 <= k < rows.len() implies #[trigger] column_positions(ix)[k] == as_positions(rows)[k] by {
        assert(rows[k] < partitions.len());
        assert(c.values@[k] == rows[k]);
        assert(native_value(DataType::UInt32, rows[k]) == rows[k] as int % 0x1_0000_0000);
    }
    assert(column_positions(ix) =~= as_positions(rows));
}

/// Splitting and taking agree on whole inputs: when each batch's index
/// column for partition `p` lists the rows whose partition is `p`, and the
/// splitters go by those partitions, the rows of a byte column that the
/// splitters give partition `p` are the rows the take sinks give it, batch
/// after batch.
pub proof fn lemma_split_and_take_agree(
    inputs: Seq<InputRef>,
    batches: Seq<Column>,
    indices: Seq<Vec<u32>>,
    c: int,
    p: int,
    k: nat,
)
    requires
        k <= inputs.len(),
        k <= batches.len(),
        k <= indices.len(),
        0 <= p,
        forall|b: int|
            0 <= b < k ==> {
                let input = #[trigger] inputs[b];
                let column = input.batch.columns@[c];
                &&& 0 <= c < input.batch.columns@.len()
                &&& column is Bytes
                &&& column.wf()
                &&& batches[b].same_as(column)
                &&& input.partitions@.len() == column.spec_len()
                &&& input.partitions@.len() <= u32::MAX + 1
                &&& forall|i: int| 0 <= i < input.partitions@.len() ==> #[trigger] input.partitions@[i] <= u32::MAX
                &&& indices[b]@ == partitions_as_u32(input.partitions@)
                &&& p < input.indices_per_partition@.len()
                &&& is_u32_index_column(
                    input.indices_per_partition@[p],
                    rows_of_partition(input.partitions@, p, input.partitions@.len()),
                )
            },
    ensures
        gathered_rows(batches, indices, p, k) == taken_row_values(column_across(inputs, c), partition_positions(inputs, p), k),
    decreases k,
{
    if k > 0 {
        let b = k - 1;
        lemma_split_and_take_agree(inputs, batches, indices, c, p, (k - 1) as nat);
        let input = inputs[b];
        let column = input.batch.columns@[c];
        let parts = input.partitions@;
        let n = parts.len();
        assert(batches[b].same_as(column));
        let values = column->Bytes_0.row_values();
        assert(batches[b]->Bytes_0.row_values() =~= values);
        assert(batches[b].spec_len() == n);
        assert(indices[b]@.len() == n);
        lemma_split_matches_take(values, parts, p, n);
        lemma_index_column_positions(input.indices_per_partition@[p], parts, p);
        assert(partition_positions(inputs, p)[b] == as_positions(rows_of_partition(parts, p, n)));
        assert(column_across(inputs, c)[b] == column);
    }
}

/// The take approach and the splitters approach give a partition the same
/// byte column: a column that holds the rows the take sinks took for
/// partition `p` and one that holds the rows the splitters gave it hold the
/// same rows, when the index columns and the partitions of the rows agree.
pub proof fn lemma_approaches_agree(
    inputs: Seq<InputRef>,
    batches: Seq<Column>,
    indices: Seq<Vec<u32>>,
    field: Field,
    c: int,
    p: int,
    taken: Column,
    split: Column,
)
    requires
        batches.len() == inputs.len(),
        indices.len() == inputs.len(),
        0 <= p,
        forall|b: int|
            0 <= b < inputs.len() ==> {
                let input = #[trigger] inputs[b];
                let column = input.batch.columns@[c];
                &&& 0 <= c < input.batch.columns@.len()
                &&& column is Bytes
                &&& column.wf()
                &&& !field.nullable ==> column.spec_null_count() == 0
                &&& batches[b].same_as(column)
                &&& input.partitions@.len() == column.spec_len()
                &&& input.partitions@.len() <= u32::MAX + 1
                &&& forall|i: int| 0 <= i < input.partitions@.len() ==> #[trigger] input.partitions@[i] <= u32::MAX
                &&& indices[b]@ == partitions_as_u32(input.partitions@)
                &&& p < input.indices_per_partition@.len()
                &&& is_u32_index_column(
                    input.indices_per_partition@[p],
                    rows_of_partition(input.partitions@, p, input.partitions@.len()),
                )
            },
        column_of_taken(taken, field, column_across(inputs, c), partition_positions(inputs, p), inputs.len()),
        taken is Bytes,
        column_holds(split, gathered_rows(batches, indices, p, inputs.len()), field),
    ensures
        taken->Bytes_0.row_values() == split->Bytes_0.row_values(),
{
    let columns = column_across(inputs, c);
    let idx = partition_positions(inputs, p);
    assert forall|j: int| 0 <= j < inputs.len() implies {
        &&& (#[trigger] columns[j]) is Bytes
        &&& columns[j].wf()
        &&& in_bounds(idx[j], columns[j].spec_len())
        &&& !field.nullable ==> columns[j].spec_null_count() == 0
    } by {
        let input = inputs[j];
        let parts = input.partitions@;
        assert(columns[j] == input.batch.columns@[c]);
        lemma_index_column_positions(input.indices_per_partition@[p], parts, p);
        lemma_rows_of_partition(parts, p, parts.len());
        assert(idx[j] == as_positions(rows_of_partition(parts, p, parts.len())));
    }
    lemma_taken_column_row_values(taken, field, columns, idx, inputs.len());
    lemma_split_and_take_agree(inputs, batches, indices, c, p, inputs.len());
}

/// Regrouping the inputs by column changes nothing the take approaches see:
/// for every column and partition, the column-wise approach takes from the
/// same columns, and the same rows of each, as the approach that goes batch
/// by batch, so both give a partition the same rows.
pub proof fn lemma_column_wise_takes_same_rows(inputs: Seq<InputRef>, columns: InputColumns, c: int, p: int)
    requires
        0 <= c < columns.columns@.len(),
        columns.columns@[c]@.len() == inputs.len(),
        forall|b: int|
            0 <= b < inputs.len() ==> {
                &&& *(#[trigger] columns.columns@[c]@[b]).column == inputs[b].batch.columns@[c]
                &&& columns.columns@[c]@[b].indices_per_partition@ == inputs[b].indices_per_partition@
            },
    ensures
        column_inputs(columns, c) == column_across(inputs, c),
        column_partition_positions(columns, c, p) == partition_positions(inputs, p),
{
    assert(column_inputs(columns, c) =~= column_across(inputs, c));
    assert forall|b: int| 0 <= b < inputs.len() implies #[trigger] column_partition_positions(columns, c, p)[b]
        == partition_positions(inputs, p)[b] by {
        assert(columns.columns@[c]@[b].indices_per_partition@ == inputs[b].indices_per_partition@);
    }
    assert(column_partition_positions(columns, c, p) =~= partition_positions(inputs, p));
}

} // verus!
