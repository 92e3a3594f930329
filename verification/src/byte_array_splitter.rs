//! Splitting a column of variable length byte values into partitions.
use crate::buffers::{
    null_buffer_to_vec, null_builder_append, null_builder_bits, null_builder_finish, null_builder_new,
    offset_builder_finish, offset_builder_len, offset_builder_new, offset_builder_offsets,
    offset_builder_push_length, offset_builder_reserve, touched_insert, touched_into_vec, touched_set,
    touched_with_capacity, OffsetsBuilder,
};
use crate::capacity_tracker::{
    batch_limit, chunk, chunk_count, lemma_chunk, lemma_queue_after_rows_nonempty, queue_after_next, queue_after_rows, queue_wf,
    BatchCapacity, CapacityTracker,
};
use crate::column::{
    lemma_count_nulls, lemma_select_partition_len, lemma_select_partition_prefix, paired_len, select_partition, slot_is_valid, ByteColumn, Column, DataType,
};
use crate::splitter_args::CreateSplitterArgs;
use arrow_buffer::NullBufferBuilder;
use vstd::prelude::*;

verus! {

/// The size of a batch of byte values: its number of bytes and of items.
#[derive(Clone, Copy, Debug)]
pub struct BytesArrayBatchCapacity {
    pub total_bytes: usize,
    pub num_of_items: usize,
}

impl BatchCapacity for BytesArrayBatchCapacity {
    open spec fn rows(&self) -> nat {
        self.num_of_items as nat
    }

    open spec fn spec_empty() -> Self {
        BytesArrayBatchCapacity { total_bytes: 0, num_of_items: 0 }
    }

    /// The bytes add up wrapping around at `usize::MAX`, as `+=` does in a
    /// build without overflow checks; they only size a reservation.
    open spec fn sum(&self, other: Self) -> Self {
        BytesArrayBatchCapacity {
            total_bytes: vstd::wrapping::usize_specs::wrapping_add(self.total_bytes, other.total_bytes),
            num_of_items: (self.num_of_items + other.num_of_items) as usize,
        }
    }

    open spec fn can_add(&self, other: Self) -> bool {
        self.num_of_items + other.num_of_items <= usize::MAX
    }

    fn empty() -> (r: Self) {
        BytesArrayBatchCapacity { total_bytes: 0, num_of_items: 0 }
    }

    fn num_rows(&self) -> (r: usize) {
        self.num_of_items
    }

    fn add_assign(&mut self, rhs: Self) {
        self.total_bytes = self.total_bytes.wrapping_add(rhs.total_bytes);
        self.num_of_items = self.num_of_items + rhs.num_of_items;
    }

    proof fn lemma_empty_rows() {
    }

    proof fn lemma_sum_rows(a: Self, b: Self) {
    }
}

/// The capacity of one row of `length` bytes.
pub open spec fn row_capacity(length: int) -> BytesArrayBatchCapacity {
    BytesArrayBatchCapacity { total_bytes: length as usize, num_of_items: 1 }
}

/// The rows of the columns handed out for partition `p`, in order.
pub open spec fn emitted_rows(ready: Seq<(usize, Column)>, p: int) -> Seq<Option<Seq<u8>>>
    decreases ready.len(),
{
    if ready.len() == 0 {
        Seq::empty()
    } else {
        let prev = emitted_rows(ready.drop_last(), p);
        if ready.last().0 == p {
            prev + ready.last().1->Bytes_0.row_values()
        } else {
            prev
        }
    }
}

/// How many columns were handed out for partition `p`.
pub open spec fn emitted_count(ready: Seq<(usize, Column)>, p: int) -> nat
    decreases ready.len(),
{
    if ready.len() == 0 {
        0
    } else {
        emitted_count(ready.drop_last(), p) + if ready.last().0 == p {
            1nat
        } else {
            0nat
        }
    }
}

/// Handing out one more column adds its rows, and one to the count, to its
/// partition and to no other.
pub proof fn lemma_emitted_push(ready: Seq<(usize, Column)>, entry: (usize, Column), p: int)
    ensures
        emitted_rows(ready.push(entry), p) == if entry.0 == p {
            emitted_rows(ready, p) + entry.1->Bytes_0.row_values()
        } else {
            emitted_rows(ready, p)
        },
        emitted_count(ready.push(entry), p) == emitted_count(ready, p) + if entry.0 == p {
            1nat
        } else {
            0nat
        },
{
    assert(ready.push(entry).drop_last() =~= ready);
}

/// The columns handed out by two runs, one after the other, give each
/// partition the rows of the first run followed by those of the second.
pub proof fn lemma_emitted_concat(s1: Seq<(usize, Column)>, s2: Seq<(usize, Column)>, p: int)
    ensures
        emitted_rows(s1 + s2, p) == emitted_rows(s1, p) + emitted_rows(s2, p),
        emitted_count(s1 + s2, p) == emitted_count(s1, p) + emitted_count(s2, p),
    decreases s2.len(),
{
    if s2.len() == 0 {
        assert(s1 + s2 =~= s1);
        assert(emitted_rows(s1, p) + emitted_rows(s2, p) =~= emitted_rows(s1, p));
    } else {
        lemma_emitted_concat(s1, s2.drop_last(), p);
        assert((s1 + s2).drop_last() =~= s1 + s2.drop_last());
        assert((s1 + s2).last() == s2.last());
        let a = emitted_rows(s1, p);
        let b = emitted_rows(s2.drop_last(), p);
        let x = s2.last().1->Bytes_0.row_values();
        assert(a + b + x =~= a + (b + x));
    }
}

/// When every column handed out holds `m` rows, a partition got `m` rows
/// per column.
pub proof fn lemma_emitted_full_len(s: Seq<(usize, Column)>, p: int, m: nat)
    requires
        forall|k: int| 0 <= k < s.len() ==> (#[trigger] s[k]).1->Bytes_0.row_values().len() == m,
    ensures
        emitted_rows(s, p).len() == emitted_count(s, p) * m,
    decreases s.len(),
{
    if s.len() > 0 {
        assert forall|k: int| 0 <= k < s.drop_last().len() implies (#[trigger] s.drop_last()[k]).1->Bytes_0.row_values().len() == m by {
            assert(s.drop_last()[k] == s[k]);
        }
        lemma_emitted_full_len(s.drop_last(), p, m);
        assert(s.last() == s[s.len() - 1]);
        let c = emitted_count(s.drop_last(), p);
        let prev = emitted_rows(s.drop_last(), p);
        assert(prev.len() == c * m);
        if s.last().0 == p {
            assert(emitted_count(s, p) == c + 1);
            assert(emitted_rows(s, p) == prev + s.last().1->Bytes_0.row_values());
            assert((c + 1) * m == c * m + m) by (nonlinear_arith);
            assert(emitted_rows(s, p).len() == c * m + m);
        } else {
            assert(emitted_count(s, p) == c);
            assert(emitted_rows(s, p) == prev);
        }
    } else {
        assert(emitted_count(s, p) == 0);
        assert(emitted_rows(s, p).len() == 0);
        assert(0 * m == 0);
    }
}

/// The queue after `next_capacity` took `k` batches from it.
pub open spec fn queue_after_nexts<T>(queue: Seq<T>, k: nat) -> Seq<T>
    decreases k,
{
    if k == 0 {
        queue
    } else {
        queue_after_next(queue_after_nexts(queue, (k - 1) as nat))
    }
}

/// A column handed out by a byte splitter: a well formed byte column of the
/// splitter's type for one of its partitions, without validity when the
/// field is not nullable, holding at least one row and at most
/// `batch_limit(max_array_length)` of them.
pub open spec fn byte_entry_ok(
    entry: (usize, Column),
    num_partitions: nat,
    data_type: DataType,
    nullable: bool,
    max_array_length: nat,
) -> bool {
    &&& entry.0 < num_partitions
    &&& entry.1 matches Column::Bytes(c) && c.wf() && c.data_type == data_type && (!nullable ==> c.validity is None)
        && 0 < c.row_values().len() <= batch_limit(max_array_length)
}

/// The most bytes one array of this type holds: its end offset must fit the
/// type's offsets, and a length must fit `usize`.
pub open spec fn byte_budget(data_type: DataType) -> nat {
    if data_type.spec_offset_limit() <= usize::MAX {
        data_type.spec_offset_limit()
    } else {
        usize::MAX as nat
    }
}

/// The bytes of rows: each row's bytes, none for a null row.
pub open spec fn valid_bytes(rows: Seq<Option<Seq<u8>>>) -> nat
    decreases rows.len(),
{
    if rows.len() == 0 {
        0
    } else {
        valid_bytes(rows.drop_last()) + match rows.last() {
            Some(b) => b.len(),
            None => 0nat,
        }
    }
}

/// The bytes of rows one after the other are the bytes of each.
pub proof fn lemma_valid_bytes_concat(a: Seq<Option<Seq<u8>>>, b: Seq<Option<Seq<u8>>>)
    ensures
        valid_bytes(a + b) == valid_bytes(a) + valid_bytes(b),
    decreases b.len(),
{
    if b.len() == 0 {
        assert(a + b =~= a);
    } else {
        lemma_valid_bytes_concat(a, b.drop_last());
        assert((a + b).drop_last() =~= a + b.drop_last());
        assert((a + b).last() == b.last());
    }
}

/// Every array that the rows of a partition are cut into, `m` rows to an
/// array, holds at most `budget` bytes.
pub open spec fn arrays_fit(rows: Seq<Option<Seq<u8>>>, m: nat, budget: nat) -> bool {
    forall|j: int| 0 <= j < chunk_count(rows.len(), m) ==> valid_bytes(#[trigger] chunk(rows, m, j)) <= budget
}

/// When the arrays of some rows fit, so do those of the rows before any
/// point, counted from any array boundary `k * m` on.
pub proof fn lemma_arrays_fit_suffix(
    whole: Seq<Option<Seq<u8>>>,
    part: Seq<Option<Seq<u8>>>,
    m: nat,
    k: nat,
    budget: nat,
)
    requires
        m >= 1,
        part.is_prefix_of(whole),
        k * m <= part.len(),
        arrays_fit(whole, m, budget),
    ensures
        arrays_fit(part.subrange((k * m) as int, part.len() as int), m, budget),
{
    let start = (k * m) as int;
    let suffix = part.subrange(start, part.len() as int);
    assert forall|j: int| 0 <= j < chunk_count(suffix.len(), m) implies valid_bytes(#[trigger] chunk(suffix, m, j))
        <= budget by {
        lemma_chunk(suffix.len(), m, j);
        let t = k + j;
        assert((k + j) * m == k * m + j * m) by (nonlinear_arith);
        lemma_chunk(whole.len(), m, t);
        let c1 = chunk(suffix, m, j);
        let c2 = chunk(whole, m, t);
        assert(t * m == start + j * m);
        assert(c1.len() <= c2.len());
        assert forall|i: int| 0 <= i < c1.len() implies #[trigger] c1[i] == c2[i] by {
            assert(c1[i] == suffix[j * m + i]);
            assert(suffix[j * m + i] == part[start + j * m + i]);
            assert(part[start + j * m + i] == part.subrange(0, part.len() as int)[start + j * m + i]);
            assert(c2[i] == whole[t * m + i]);
        }
        let rest = c2.subrange(c1.len() as int, c2.len() as int);
        assert(c2 =~= c1 + rest);
        lemma_valid_bytes_concat(c1, rest);
    }
}

/// A row that joins the array in progress of a partition keeps that array
/// within the budget, when every array of the partition's rows fits: the
/// partition held `held`, got `sel_i` and then `x` of the `sel_n` it gets,
/// handed `c` full arrays `e` out and holds `cur`.
pub proof fn lemma_grown_fits(
    held: Seq<Option<Seq<u8>>>,
    sel_i: Seq<Option<Seq<u8>>>,
    x: Option<Seq<u8>>,
    sel_n: Seq<Option<Seq<u8>>>,
    e: Seq<Option<Seq<u8>>>,
    cur: Seq<Option<Seq<u8>>>,
    c: nat,
    m: nat,
    budget: nat,
)
    requires
        m >= 1,
        e.len() == c * m,
        e + cur == held + sel_i,
        cur.len() < m,
        sel_i.push(x).is_prefix_of(sel_n),
        arrays_fit(held + sel_n, m, budget),
    ensures
        valid_bytes(cur.push(x)) <= budget,
{
    let upto = held + sel_i.push(x);
    let whole = held + sel_n;
    assert(upto =~= e + cur.push(x)) by {
        assert(held + sel_i.push(x) =~= (held + sel_i).push(x));
        assert(e + cur.push(x) =~= (e + cur).push(x));
    }
    assert(upto.is_prefix_of(whole)) by {
        assert forall|t: int| 0 <= t < upto.len() implies #[trigger] upto[t] == whole.subrange(0, upto.len() as int)[t] by {
            if t >= held.len() {
                let u = t - held.len();
                assert(sel_i.push(x)[u] == sel_n.subrange(0, sel_i.push(x).len() as int)[u]);
            }
        }
        assert(upto =~= whole.subrange(0, upto.len() as int));
    }
    lemma_arrays_fit_suffix(whole, upto, m, c, budget);
    assert(upto.subrange((c * m) as int, upto.len() as int) =~= cur.push(x));
    lemma_one_array_fits(cur.push(x), m, budget);
}

/// Rows that are no more than an array hold at most `budget` bytes when
/// their arrays fit.
pub proof fn lemma_one_array_fits(rows: Seq<Option<Seq<u8>>>, m: nat, budget: nat)
    requires
        m >= 1,
        0 < rows.len() <= m,
        arrays_fit(rows, m, budget),
    ensures
        valid_bytes(rows) <= budget,
{
    lemma_chunk(rows.len(), m, 0);
    assert(0 * m == 0) by (nonlinear_arith);
    assert((0 + 1) * m == m) by (nonlinear_arith);
    assert(chunk(rows, m, 0) =~= rows);
}

/// The rows held by a partition's buffers: row `i` is the bytes between
/// offsets `i` and `i + 1`, or `None` when the field is nullable and its
/// validity bit is unset.
pub open spec fn buffered_rows(bytes: Seq<u8>, offsets: Seq<i64>, nulls: Seq<bool>, nullable: bool) -> Seq<
    Option<Seq<u8>>,
> {
    Seq::new(
        (offsets.len() - 1) as nat,
        |i: int|
            if !nullable || nulls[i] {
                Some(bytes.subrange(offsets[i] as int, offsets[i + 1] as int))
            } else {
                None
            },
    )
}

/// Buffers of one partition in their proper shape: offsets from zero, never
/// decreasing, ending at the number of bytes; one validity bit per row when
/// the field is nullable, none otherwise.
pub open spec fn buffers_wf(bytes: Seq<u8>, offsets: Seq<i64>, nulls: Seq<bool>, nullable: bool) -> bool {
    &&& offsets.len() >= 1
    &&& offsets[0] == 0
    &&& forall|i: int, j: int| 0 <= i <= j < offsets.len() ==> offsets[i] <= offsets[j]
    &&& offsets.last() == bytes.len()
    &&& if nullable {
        nulls.len() == offsets.len() - 1
    } else {
        nulls.len() == 0
    }
}

/// Appending one row to well formed buffers keeps them well formed and adds
/// that row to the rows they hold.
pub proof fn lemma_buffered_rows_push(
    bytes: Seq<u8>,
    offsets: Seq<i64>,
    nulls: Seq<bool>,
    nullable: bool,
    data: Seq<u8>,
    valid: bool,
)
    requires
        buffers_wf(bytes, offsets, nulls, nullable),
        nullable || valid,
        !valid ==> data.len() == 0,
        offsets.last() + data.len() <= i64::MAX,
    ensures
        ({
            let new_bytes = bytes + data;
            let new_offsets = offsets.push((offsets.last() + data.len()) as i64);
            let new_nulls = if nullable { nulls.push(valid) } else { nulls };
            &&& buffers_wf(new_bytes, new_offsets, new_nulls, nullable)
            &&& buffered_rows(new_bytes, new_offsets, new_nulls, nullable) == buffered_rows(bytes, offsets, nulls, nullable).push(
                if valid { Some(data) } else { None },
            )
        }),
{
    let new_bytes = bytes + data;
    let new_offsets = offsets.push((offsets.last() + data.len()) as i64);
    let new_nulls = if nullable { nulls.push(valid) } else { nulls };
    let old_rows = buffered_rows(bytes, offsets, nulls, nullable);
    let new_rows = buffered_rows(new_bytes, new_offsets, new_nulls, nullable);
    let expected = old_rows.push(if valid { Some(data) } else { None });
    assert forall|i: int, j: int| 0 <= i <= j < new_offsets.len() implies new_offsets[i] <= new_offsets[j] by {
        if j < offsets.len() {
            assert(offsets[i] <= offsets[j]);
        } else if i < j {
            assert(offsets[i] <= offsets[offsets.len() - 1]);
        }
    }
    assert forall|i: int| 0 <= i < new_rows.len() implies #[trigger] new_rows[i] == expected[i] by {
        if i < old_rows.len() {
            assert(offsets[i] <= offsets[i + 1]);
            assert(offsets[i + 1] <= offsets[offsets.len() - 1]);
            assert(new_bytes.subrange(offsets[i] as int, offsets[i + 1] as int) =~= bytes.subrange(
                offsets[i] as int,
                offsets[i + 1] as int,
            ));
        } else {
            assert(new_bytes.subrange(offsets.last() as int, offsets.last() + data.len()) =~= data);
        }
    }
    assert(new_rows =~= expected);
}

/// Splits columns of byte values (strings or binary) into partitions,
/// handing a partition's rows out as a column whenever `max_array_length` of
/// them are collected (one row when it is 0).
pub struct ByteArrayColumnSplitter {
    /// The maximum length for a partition array.
    max_array_length: usize,
    /// The type of the column.
    data_type: DataType,
    /// For each partition: its bytes, the offsets of its rows, and their
    /// validity bits (kept empty when the field is not nullable).
    partitions: Vec<(Vec<u8>, OffsetsBuilder, NullBufferBuilder)>,
    is_nullable: bool,
    /// The index of the column in the schema this splitter is for.
    column_index: usize,
    /// Tracks capacity requirements to enable efficient preallocation.
    capacity_tracker: CapacityTracker<BytesArrayBatchCapacity>,
    /// The number of rows handed in so far.
    received_rows: Ghost<nat>,
}

impl ByteArrayColumnSplitter {
    pub closed spec fn spec_data_type(&self) -> DataType {
        self.data_type
    }

    pub closed spec fn spec_is_nullable(&self) -> bool {
        self.is_nullable
    }

    pub closed spec fn spec_column_index(&self) -> usize {
        self.column_index
    }

    pub closed spec fn spec_max_array_length(&self) -> usize {
        self.max_array_length
    }

    pub closed spec fn num_partitions(&self) -> nat {
        self.partitions@.len()
    }

    pub closed spec fn spec_received_rows(&self) -> nat {
        self.received_rows@
    }

    /// The capacity queues of the partitions.
    pub closed spec fn pending(&self) -> Seq<Seq<BytesArrayBatchCapacity>> {
        self.capacity_tracker.pending()
    }

    pub closed spec fn part_bytes(&self, p: int) -> Seq<u8> {
        self.partitions@[p].0@
    }

    pub closed spec fn part_offsets(&self, p: int) -> Seq<i64> {
        offset_builder_offsets(self.partitions@[p].1)
    }

    pub closed spec fn part_nulls(&self, p: int) -> Seq<bool> {
        null_builder_bits(self.partitions@[p].2)
    }

    /// The rows collected for partition `p` and not yet finished.
    pub open spec fn partition_rows(&self, p: int) -> Seq<Option<Seq<u8>>> {
        buffered_rows(self.part_bytes(p), self.part_offsets(p), self.part_nulls(p), self.spec_is_nullable())
    }

    /// The internal invariant.
    pub closed spec fn wf(&self) -> bool {
        self.wf_with_pending(0) && self.rows_bounded()
    }

    /// Every partition holds fewer rows than make a full array.
    closed spec fn rows_bounded(&self) -> bool {
        forall|p: int| 0 <= p < self.partitions@.len() ==> (#[trigger] self.partition_rows(p)).len() < batch_limit(
            self.max_array_length as nat,
        )
    }

    /// A well formed splitter never holds a full array for a partition: a
    /// partition that reaches `max_array_length` rows is handed out at once.
    pub proof fn lemma_partitions_below_max(&self)
        requires
            self.wf(),
        ensures
            forall|p: int| 0 <= p < self.num_partitions() ==> (#[trigger] self.partition_rows(p)).len() < batch_limit(
                self.spec_max_array_length() as nat,
            ),
    {
    }

    /// The internal invariant, except that the capacities in the tracker may
    /// count `extra_rows` rows more than were received.
    closed spec fn wf_with_pending(&self, extra_rows: nat) -> bool {
        &&& self.data_type.spec_is_byte_type()
        &&& self.partitions@.len() == self.capacity_tracker.pending().len()
        &&& self.capacity_tracker.wf()
        &&& self.capacity_tracker.max_batch_size() == self.max_array_length
        &&& self.received_rows@ + extra_rows < usize::MAX
        &&& forall|p: int| 0 <= p < self.partitions@.len() ==> #[trigger] self.partition_wf(p, extra_rows)
    }

    /// The buffers of partition `p` are well formed and hold the bytes of its
    /// rows, no more than its type's offsets allow.
    closed spec fn partition_wf(&self, p: int, extra_rows: nat) -> bool {
        &&& buffers_wf(self.part_bytes(p), self.part_offsets(p), self.part_nulls(p), self.is_nullable)
        &&& self.part_bytes(p).len() == valid_bytes(self.partition_rows(p))
        &&& self.part_bytes(p).len() <= byte_budget(self.data_type)
        &&& self.part_offsets(p).len() - 1 <= self.received_rows@
        &&& forall|i: int| 0 <= i < self.capacity_tracker.pending()[p].len() ==>
            (#[trigger] self.capacity_tracker.pending()[p][i]).num_of_items <= self.received_rows@ + extra_rows
    }

    /// A splitter with no rows in any partition.
    pub fn new(args: CreateSplitterArgs<'_>) -> (r: Self)
        requires
            args.field.data_type.spec_is_byte_type(),
        ensures
            r.wf(),
            r.num_partitions() == args.number_of_partitions,
            r.spec_data_type() == args.field.data_type,
            r.spec_is_nullable() == args.field.nullable,
            r.spec_column_index() == args.column_index,
            r.spec_max_array_length() == args.batch_size,
            r.spec_received_rows() == 0,
            forall|p: int| 0 <= p < args.number_of_partitions ==> (#[trigger] r.partition_rows(p)).len() == 0,
    {
        let is_nullable = args.field.nullable;
        let mut partitions: Vec<(Vec<u8>, OffsetsBuilder, NullBufferBuilder)> = Vec::new();
        let mut k: usize = 0;
        while k < args.number_of_partitions
            invariant
                k <= args.number_of_partitions,
                partitions@.len() == k,
                forall|p: int| 0 <= p < k ==> #[trigger] buffers_wf(
                    partitions@[p].0@,
                    offset_builder_offsets(partitions@[p].1),
                    null_builder_bits(partitions@[p].2),
                    is_nullable,
                ),
                forall|p: int| 0 <= p < k ==> (#[trigger] partitions@[p]).0@.len() == 0,
                forall|p: int| 0 <= p < k ==> offset_builder_offsets((#[trigger] partitions@[p]).1).len() == 1,
            decreases args.number_of_partitions - k,
        {
            let nulls = if is_nullable {
                null_builder_new(args.batch_size)
            } else {
                null_builder_new(0)
            };
            partitions.push((Vec::with_capacity(0), offset_builder_new(0), nulls));
            k = k + 1;
        }
        let r = ByteArrayColumnSplitter {
            max_array_length: args.batch_size,
            data_type: args.field.data_type,
            partitions,
            is_nullable,
            column_index: args.column_index,
            capacity_tracker: CapacityTracker::new(args.batch_size, args.number_of_partitions),
            received_rows: Ghost(0),
        };
        assert forall|p: int| 0 <= p < r.partitions@.len() implies #[trigger] r.partition_wf(p, 0) by {
            assert(r.capacity_tracker.pending()[p].len() == 0);
        }
        assert forall|p: int| 0 <= p < r.partitions@.len() implies (#[trigger] r.partition_rows(p)).len() < batch_limit(
            r.max_array_length as nat,
        ) by {
            assert(r.partitions@[p] == partitions@[p]);
        }
        r
    }

    /// The capacity of each row of a column, as it is recorded.
    pub open spec fn row_capacities(column: ByteColumn) -> Seq<BytesArrayBatchCapacity> {
        Seq::new(column.spec_len(), |i: int| row_capacity(column.row_length(i)))
    }

    /// Records every row of the column in the capacity tracker, then, for
    /// every partition that got rows, takes the capacity of its next batch
    /// and reserves room for it.
    fn preallocate(&mut self, indices: &[u32], input_column: &ByteColumn)
        requires
            old(self).wf(),
            input_column.wf(),
            forall|i: int|
                0 <= i < paired_len(input_column.spec_len(), indices@.len()) ==> (#[trigger] indices@[i])
                    < old(self).num_partitions(),
            old(self).received_rows@ + paired_len(input_column.spec_len(), indices@.len()) < usize::MAX,
        ensures
            final(self).partitions@.len() == old(self).partitions@.len(),
            forall|p: int| 0 <= p < old(self).num_partitions() ==> #[trigger] final(self).part_bytes(p) == old(self).part_bytes(p)
                && final(self).part_offsets(p) == old(self).part_offsets(p) && final(self).part_nulls(p) == old(self).part_nulls(p),
            final(self).data_type == old(self).data_type,
            final(self).is_nullable == old(self).is_nullable,
            final(self).column_index == old(self).column_index,
            final(self).max_array_length == old(self).max_array_length,
            final(self).received_rows == old(self).received_rows,
            final(self).capacity_tracker.wf(),
            final(self).capacity_tracker.max_batch_size() == old(self).max_array_length,
            final(self).pending().len() == old(self).pending().len(),
            forall|p: int| 0 <= p < old(self).num_partitions() ==> {
                let sizes = select_partition(
                    Self::row_capacities(*input_column),
                    indices@,
                    p,
                    paired_len(input_column.spec_len(), indices@.len()),
                );
                #[trigger] final(self).pending()[p] == if sizes.len() > 0 {
                    queue_after_next(queue_after_rows(old(self).pending()[p], sizes, old(self).max_array_length as nat))
                } else {
                    old(self).pending()[p]
                }
            },
            final(self).wf_with_pending(paired_len(input_column.spec_len(), indices@.len())),
            final(self).rows_bounded(),
    {
        let ghost old_pending = self.pending();
        let ghost m = self.max_array_length as nat;
        let ghost sizes = Self::row_capacities(*input_column);
        let ghost num_parts = self.partitions@.len();
        let ghost rows0 = self.received_rows@;
        proof {
            assert forall|p: int| 0 <= p < num_parts implies #[trigger] self.partition_wf(p, 0) by {
                assert(self.wf());
            }
        }
        proof {
            assert forall|p: int, j: int|
                0 <= p < num_parts && 0 <= j < self.pending()[p].len() implies (
                #[trigger] self.pending()[p][j]).num_of_items <= rows0 + 0 by {
                assert(self.partition_wf(p, 0));
            }
        }
        let n = if input_column.len() <= indices.len() {
            input_column.len()
        } else {
            indices.len()
        };
        let mut touched = touched_with_capacity(self.partitions.len());
        let mut i: usize = 0;
        while i < n
            invariant
                old(self).wf(),
                input_column.wf(),
                n == paired_len(input_column.spec_len(), indices@.len()),
                i <= n,
                forall|k: int| 0 <= k < n ==> (#[trigger] indices@[k]) < num_parts,
                rows0 == old(self).received_rows@,
                rows0 + n < usize::MAX,
                old_pending == old(self).pending(),
                m == old(self).max_array_length,
                num_parts == old(self).partitions@.len(),
                sizes == Self::row_capacities(*input_column),
                self.partitions@ == old(self).partitions@,
                self.data_type == old(self).data_type,
                self.is_nullable == old(self).is_nullable,
                self.column_index == old(self).column_index,
                self.max_array_length == old(self).max_array_length,
                self.received_rows == old(self).received_rows,
                self.capacity_tracker.wf(),
                self.capacity_tracker.max_batch_size() == m,
                self.pending().len() == num_parts,
                forall|p: int| 0 <= p < num_parts ==> #[trigger] self.pending()[p] == queue_after_rows(
                    old_pending[p],
                    select_partition(sizes, indices@, p, i as nat),
                    m,
                ),
                forall|p: int, j: int|
                    0 <= p < num_parts && 0 <= j < self.pending()[p].len() ==> (
                    #[trigger] self.pending()[p][j]).num_of_items <= rows0 + i,
                forall|x: u32| #[trigger] touched_set(touched).contains(x) <==> (exists|k: int| 0 <= k < i && #[trigger] indices@[k] == x),
            decreases n - i,
        {
            let partition_index = indices[i];
            let length = input_column.offsets[i + 1] - input_column.offsets[i];
            touched_insert(&mut touched, partition_index);
            let ghost before = self.pending();
            let ghost p = partition_index as int;
            let ghost size = row_capacity(length as int);
            proof {
                assert(input_column.offsets@[0] <= input_column.offsets@[i as int]);
                assert(input_column.offsets@[i + 1] <= input_column.offsets@.last());
                assert(queue_wf(before[p], m));
                let q = before[p];
                if q.len() > 0 {
                    assert(q.last() == q[q.len() - 1]);
                }
                assert(sizes[i as int] == size);
            }
            self.capacity_tracker.record_row(
                partition_index,
                BytesArrayBatchCapacity { total_bytes: length, num_of_items: 1 },
            );
            proof {
                assert forall|pp: int| 0 <= pp < num_parts implies #[trigger] self.pending()[pp] == queue_after_rows(
                    old_pending[pp],
                    select_partition(sizes, indices@, pp, (i + 1) as nat),
                    m,
                ) by {
                    let prev_sel = select_partition(sizes, indices@, pp, i as nat);
                    if pp == p {
                        assert(prev_sel.push(size).drop_last() =~= prev_sel);
                    }
                }
                assert forall|pp: int, j: int|
                    0 <= pp < num_parts && 0 <= j < self.pending()[pp].len() implies (
                    #[trigger] self.pending()[pp][j]).num_of_items <= rows0 + i + 1 by {
                    if pp == p {
                        let q = before[p];
                        let base = if q.len() == 0 { seq![BytesArrayBatchCapacity::spec_empty()] } else { q };
                        if j < base.len() - 1 {
                            assert(self.pending()[pp][j] == base[j]);
                        }
                    }
                }
            }
            i = i + 1;
        }
        let ghost recorded = self.pending();
        proof {
            assert forall|p: int| 0 <= p < num_parts implies (#[trigger] select_partition(sizes, indices@, p, n as nat)).len()
                > 0 <==> Self::touched_in(touched_set(touched), p) by {
                lemma_select_partition_len(sizes, indices@, p, n as nat);
                if Self::touched_in(touched_set(touched), p) {
                    let k = choose|k: int| 0 <= k < n && #[trigger] indices@[k] == p as u32;
                    assert(indices@[k] == p);
                }
                if select_partition(sizes, indices@, p, n as nat).len() > 0 {
                    let k = choose|k: int| 0 <= k < n && #[trigger] indices@[k] == p;
                    assert(indices@[k] == p as u32);
                }
            }
            assert forall|x: u32| #[trigger] touched_set(touched).contains(x) implies (x as int) < num_parts by {
                let k = choose|k: int| 0 <= k < n && #[trigger] indices@[k] == x;
            }
        }
        let touched_partitions = touched_into_vec(touched);
        proof {
            assert(touched_partitions@.to_set() == touched_set(touched));
            assert forall|x: u32| #[trigger] touched_partitions@.contains(x) implies (x as int) < num_parts by {
                assert(touched_partitions@.to_set().contains(x));
            }
            assert forall|p: int| 0 <= p < num_parts implies (#[trigger] select_partition(sizes, indices@, p, n as nat)).len()
                > 0 <==> Self::touched_in(touched_partitions@.to_set(), p) by {
                assert(select_partition(sizes, indices@, p, n as nat).len() > 0 <==> Self::touched_in(touched_set(touched), p));
            }
        }
        let mut k: usize = 0;
        while k < touched_partitions.len()
            invariant
                k <= touched_partitions@.len(),
                touched_partitions@.no_duplicates(),
                forall|x: u32| #[trigger] touched_partitions@.contains(x) ==> (x as int) < num_parts,
                forall|p: int| 0 <= p < num_parts ==> ((#[trigger] select_partition(sizes, indices@, p, n as nat)).len()
                    > 0 <==> Self::touched_in(touched_partitions@.to_set(), p)),
                num_parts == old(self).partitions@.len(),
                recorded.len() == num_parts,
                forall|p: int| 0 <= p < num_parts ==> #[trigger] recorded[p] == queue_after_rows(
                    old_pending[p],
                    select_partition(sizes, indices@, p, n as nat),
                    m,
                ),
                self.partitions@.len() == old(self).partitions@.len(),
                forall|p: int| 0 <= p < num_parts ==> (#[trigger] self.partitions@[p]).0@ == old(self).partitions@[p].0@,
                forall|p: int| 0 <= p < num_parts ==> offset_builder_offsets((#[trigger] self.partitions@[p]).1) == offset_builder_offsets(old(self).partitions@[p].1),
                forall|p: int| 0 <= p < num_parts ==> (#[trigger] self.partitions@[p]).2 == old(self).partitions@[p].2,
                self.data_type == old(self).data_type,
                self.is_nullable == old(self).is_nullable,
                self.column_index == old(self).column_index,
                self.max_array_length == old(self).max_array_length,
                self.received_rows == old(self).received_rows,
                self.capacity_tracker.wf(),
                self.capacity_tracker.max_batch_size() == m,
                self.pending().len() == num_parts,
                forall|p: int| 0 <= p < num_parts ==> #[trigger] self.pending()[p] == if Self::touched_in(touched_partitions@.subrange(0, k as int).to_set(), p) {
                    queue_after_next(recorded[p])
                } else {
                    recorded[p]
                },
                forall|p: int, j: int|
                    0 <= p < num_parts && 0 <= j < self.pending()[p].len() ==> (
                    #[trigger] self.pending()[p][j]).num_of_items <= rows0 + n,
                rows0 == old(self).received_rows@,
            decreases touched_partitions@.len() - k,
        {
            let partition_index = touched_partitions[k];
            proof {
                assert(touched_partitions@.contains(partition_index));
                assert(touched_partitions@.to_set().contains(partition_index));
                let p = partition_index as int;
                assert(select_partition(sizes, indices@, p, n as nat).len() > 0);
                lemma_queue_after_rows_nonempty(old_pending[p], select_partition(sizes, indices@, p, n as nat), m);
                assert(!touched_partitions@.subrange(0, k as int).contains(partition_index)) by {
                    if touched_partitions@.subrange(0, k as int).contains(partition_index) {
                        let j = choose|j: int| 0 <= j < k && #[trigger] touched_partitions@.subrange(0, k as int)[j] == partition_index;
                        assert(touched_partitions@[j] == touched_partitions@[k as int]);
                    }
                }
            }
            let capacity = self.capacity_tracker.next_capacity(partition_index as usize).unwrap();
            let BytesArrayBatchCapacity { num_of_items, total_bytes } = capacity;
            self.partitions[partition_index as usize].0.reserve(total_bytes);
            offset_builder_reserve(&mut self.partitions[partition_index as usize].1, num_of_items);
            proof {
                let p = partition_index as int;
                let before_set = touched_partitions@.subrange(0, k as int).to_set();
                let after_set = touched_partitions@.subrange(0, k + 1).to_set();
                assert(touched_partitions@.subrange(0, k + 1) =~= touched_partitions@.subrange(0, k as int).push(partition_index));
                touched_partitions@.subrange(0, k as int).lemma_push_to_set_commute(partition_index);
                assert(after_set =~= before_set.insert(partition_index));
                assert forall|pp: int| 0 <= pp < num_parts implies #[trigger] self.pending()[pp] == if Self::touched_in(after_set, pp) {
                    queue_after_next(recorded[pp])
                } else {
                    recorded[pp]
                } by {
                    if pp == p {
                        assert(Self::touched_in(after_set, pp));
                        assert(!Self::touched_in(before_set, pp));
                    } else if 0 <= pp <= u32::MAX {
                        assert(pp as u32 != partition_index);
                    }
                }
            }
            k = k + 1;
        }
        proof {
            assert(touched_partitions@.subrange(0, k as int) =~= touched_partitions@);
            assert forall|p: int| 0 <= p < num_parts implies #[trigger] self.partition_wf(
                p,
                paired_len(input_column.spec_len(), indices@.len()),
            ) by {
                assert(old(self).partition_wf(p, 0));
                assert(self.part_bytes(p) == old(self).part_bytes(p));
                assert(self.part_offsets(p) == old(self).part_offsets(p));
                assert(self.part_nulls(p) == old(self).part_nulls(p));
            }
            assert forall|p: int| 0 <= p < num_parts implies (#[trigger] self.partition_rows(p)).len() < batch_limit(
                self.max_array_length as nat,
            ) by {
                assert(old(self).rows_bounded());
                assert(old(self).partition_rows(p).len() < batch_limit(m));
                assert(self.part_bytes(p) == old(self).part_bytes(p));
                assert(self.part_offsets(p) == old(self).part_offsets(p));
                assert(self.part_nulls(p) == old(self).part_nulls(p));
            }
        }
    }

    /// Adding the first `n` rows that `indices` send to the partitions keeps
    /// every array within the bytes its type's offsets allow: for each
    /// partition, the rows it holds followed by those it gets, cut into
    /// arrays of `batch_limit(max_array_length)` rows as they are handed out.
    pub open spec fn arrays_fit_after(&self, rows: Seq<Option<Seq<u8>>>, indices: Seq<u32>, n: nat) -> bool {
        forall|p: int| 0 <= p < self.num_partitions() ==> arrays_fit(
            #[trigger] self.partition_rows(p) + select_partition(rows, indices, p, n),
            batch_limit(self.spec_max_array_length() as nat),
            byte_budget(self.spec_data_type()),
        )
    }

    /// Whether partition `p` is among a set of partition indices.
    pub open spec fn touched_in(set: Set<u32>, p: int) -> bool {
        0 <= p <= u32::MAX && set.contains(p as u32)
    }

    /// Appends every row of the column to the buffers of its partition: its
    /// bytes (none for a null row), its end offset and, when the field is
    /// nullable, its validity bit. A partition that reaches
    /// `max_array_length` rows is handed out as a column at once; the
    /// columns handed out are returned with their partitions, in order.
    fn inner_add_values<const IS_FIELD_NULLABLE: bool, const HAS_NULLS: bool>(
        &mut self,
        input_column: &ByteColumn,
        indices: &[u32],
    ) -> (r: Vec<(usize, Column)>)
        requires
            old(self).wf_with_pending(paired_len(input_column.spec_len(), indices@.len())),
            old(self).rows_bounded(),
            input_column.wf(),
            forall|i: int|
                0 <= i < paired_len(input_column.spec_len(), indices@.len()) ==> (#[trigger] indices@[i])
                    < old(self).num_partitions(),
            old(self).arrays_fit_after(input_column.row_values(), indices@, paired_len(input_column.spec_len(), indices@.len())),
            old(self).received_rows@ + paired_len(input_column.spec_len(), indices@.len()) < usize::MAX,
            IS_FIELD_NULLABLE == old(self).is_nullable,
            HAS_NULLS ==> IS_FIELD_NULLABLE,
            HAS_NULLS <==> crate::column::optional_null_count(input_column.validity) > 0,
        ensures
            final(self).data_type == old(self).data_type,
            final(self).is_nullable == old(self).is_nullable,
            final(self).column_index == old(self).column_index,
            final(self).max_array_length == old(self).max_array_length,
            final(self).received_rows@ == old(self).received_rows@ + paired_len(input_column.spec_len(), indices@.len()),
            final(self).partitions@.len() == old(self).partitions@.len(),
            final(self).pending().len() == old(self).pending().len(),
            forall|p: int| 0 <= p < old(self).num_partitions() ==> #[trigger] final(self).pending()[p] == queue_after_nexts(
                old(self).pending()[p],
                emitted_count(r@, p),
            ),
            forall|k: int| 0 <= k < r@.len() ==> #[trigger] byte_entry_ok(
                r@[k],
                old(self).num_partitions(),
                old(self).data_type,
                old(self).is_nullable,
                old(self).max_array_length as nat,
            ),
            forall|k: int| 0 <= k < r@.len() ==> (#[trigger] r@[k]).1.spec_len() == batch_limit(old(self).max_array_length as nat),
            forall|p: int| 0 <= p < old(self).num_partitions() ==> #[trigger] emitted_rows(r@, p) + final(self).partition_rows(p)
                == old(self).partition_rows(p) + select_partition(
                input_column.row_values(),
                indices@,
                p,
                paired_len(input_column.spec_len(), indices@.len()),
            ),
            final(self).wf(),
    {
        let mut ready: Vec<(usize, Column)> = Vec::new();
        let ghost num_parts = self.partitions@.len();
        let ghost rows0 = self.received_rows@;
        let ghost budget = byte_budget(self.data_type);
        let ghost values = input_column.row_values();
        let ghost old_self = *self;
        let ghost limit = batch_limit(self.max_array_length as nat);
        proof {
            if !HAS_NULLS {
                if input_column.validity is Some {
                    lemma_count_nulls(input_column.validity->0@);
                }
            }
            assert forall|p: int| 0 <= p < num_parts implies #[trigger] emitted_rows(ready@, p) + self.partition_rows(p)
                == old_self.partition_rows(p) + select_partition(values, indices@, p, 0) by {
                assert(emitted_rows(ready@, p) + self.partition_rows(p) =~= self.partition_rows(p));
                assert(old_self.partition_rows(p) + select_partition(values, indices@, p, 0) =~= old_self.partition_rows(p));
            }
            assert(self.wf_with_pending((rows0 + paired_len(input_column.spec_len(), indices@.len()) - (rows0 + 0)) as nat));
        }
        let n = if input_column.len() <= indices.len() {
            input_column.len()
        } else {
            indices.len()
        };
        let mut i: usize = 0;
        while i < n
            invariant
                input_column.wf(),
                n == paired_len(input_column.spec_len(), indices@.len()),
                i <= n,
                forall|k: int| 0 <= k < n ==> (#[trigger] indices@[k]) < num_parts,
                rows0 + n < usize::MAX,
                rows0 == old(self).received_rows@,
                budget == byte_budget(old(self).data_type),
                old_self.arrays_fit_after(values, indices@, n as nat),
                values == input_column.row_values(),
                old_self == *old(self),
                num_parts == old(self).partitions@.len(),
                limit == batch_limit(old(self).max_array_length as nat),
                IS_FIELD_NULLABLE == old(self).is_nullable,
                HAS_NULLS ==> IS_FIELD_NULLABLE,
                !HAS_NULLS ==> forall|k: int| 0 <= k < input_column.spec_len() ==> #[trigger] slot_is_valid(input_column.validity, k),
                self.data_type == old(self).data_type,
                self.is_nullable == old(self).is_nullable,
                self.column_index == old(self).column_index,
                self.max_array_length == old(self).max_array_length,
                self.received_rows@ == rows0 + i,
                self.partitions@.len() == num_parts,
                self.wf_with_pending((rows0 + n - self.received_rows@) as nat),
                self.rows_bounded(),
                self.pending().len() == num_parts,
                forall|p: int| 0 <= p < num_parts ==> #[trigger] self.pending()[p] == queue_after_nexts(
                    old_self.pending()[p],
                    emitted_count(ready@, p),
                ),
                forall|k: int| 0 <= k < ready@.len() ==> #[trigger] byte_entry_ok(
                    ready@[k],
                    num_parts,
                    old_self.data_type,
                    old_self.is_nullable,
                    old_self.max_array_length as nat,
                ),
                forall|k: int| 0 <= k < ready@.len() ==> (#[trigger] ready@[k]).1.spec_len() == limit,
                forall|p: int| 0 <= p < num_parts ==> #[trigger] emitted_rows(ready@, p) + self.partition_rows(p)
                    == old_self.partition_rows(p) + select_partition(values, indices@, p, i as nat),
            decreases n - i,
        {
            let partition_index = indices[i];
            let start = input_column.offsets[i];
            let end = input_column.offsets[i + 1];
            let is_valid = if HAS_NULLS {
                match &input_column.validity {
                    Some(v) => v[i],
                    None => true,
                }
            } else {
                true
            };
            let length = if is_valid {
                end - start
            } else {
                0
            };
            let ghost p = partition_index as int;
            let ghost old_bytes = self.part_bytes(p);
            let ghost old_offsets = self.part_offsets(p);
            let ghost old_nulls = self.part_nulls(p);
            let ghost data = if is_valid { input_column.values@.subrange(start as int, end as int) } else { Seq::<u8>::empty() };
            let ghost before = *self;
            let ghost extra_rows = (rows0 + n - self.received_rows@) as nat;
            let ghost x = values[i as int];
            let ghost grown = before.partition_rows(p).push(x);
            proof {
                assert(self.partition_wf(p, extra_rows));
                assert(slot_is_valid(input_column.validity, i as int) == is_valid);
                assert(x == if is_valid { Some(data) } else { None::<Seq<u8>> });
                // The row joins the array in progress, which must stay within the budget.
                assert forall|k: int| 0 <= k < ready@.len() implies (#[trigger] ready@[k]).1->Bytes_0.row_values().len()
                    == limit by {
                    assert(byte_entry_ok(
                        ready@[k],
                        num_parts,
                        old_self.data_type,
                        old_self.is_nullable,
                        old_self.max_array_length as nat,
                    ));
                }
                lemma_emitted_full_len(ready@, p, limit);
                assert(indices@[i as int] == p);
                assert(select_partition(values, indices@, p, (i + 1) as nat) == select_partition(values, indices@, p, i as nat).push(x));
                lemma_select_partition_prefix(values, indices@, p, (i + 1) as nat, n as nat);
                assert(arrays_fit(
                    old_self.partition_rows(p) + select_partition(values, indices@, p, n as nat),
                    limit,
                    budget,
                ));
                assert(before.rows_bounded());
                lemma_grown_fits(
                    old_self.partition_rows(p),
                    select_partition(values, indices@, p, i as nat),
                    x,
                    select_partition(values, indices@, p, n as nat),
                    emitted_rows(ready@, p),
                    before.partition_rows(p),
                    emitted_count(ready@, p),
                    limit,
                    budget,
                );
                assert(grown.drop_last() =~= before.partition_rows(p));
                assert(valid_bytes(grown) == old_bytes.len() + data.len());
                assert(budget <= 0x7fff_ffff_ffff_ffff);
                assert(input_column.offsets@[0] <= input_column.offsets@[i as int]);
                assert(input_column.offsets@[i as int] <= input_column.offsets@[i + 1]);
                assert(input_column.offsets@[i + 1] <= input_column.offsets@.last());
                assert(slot_is_valid(input_column.validity, i as int) == is_valid);
                lemma_buffered_rows_push(old_bytes, old_offsets, old_nulls, self.is_nullable, data, is_valid);
            }
            if is_valid {
                self.partitions[partition_index as usize].0.extend_from_slice(&input_column.values.as_slice()[start..end]);
            }
            offset_builder_push_length(&mut self.partitions[partition_index as usize].1, length);
            if IS_FIELD_NULLABLE {
                null_builder_append(&mut self.partitions[partition_index as usize].2, is_valid);
            }
            self.received_rows = Ghost((rows0 + i + 1) as nat);
            let ghost next_extra_rows = (rows0 + n - self.received_rows@) as nat;
            proof {
                assert(self.part_bytes(p) =~= old_bytes + data);
                assert(data.len() == length);
                assert(self.part_offsets(p) == old_offsets.push((old_offsets.last() + data.len()) as i64));
                assert(self.part_nulls(p) == if self.is_nullable { old_nulls.push(is_valid) } else { old_nulls });
                assert(self.partition_rows(p) == before.partition_rows(p).push(if is_valid { Some(data) } else { None }));
                assert(values[i as int] == if is_valid { Some(data) } else { None::<Seq<u8>> });
                assert(self.capacity_tracker == before.capacity_tracker);
                assert(self.partition_rows(p) == grown);
                assert forall|pp: int| 0 <= pp < num_parts implies #[trigger] self.partition_wf(pp, next_extra_rows) by {
                    assert(before.partition_wf(pp, extra_rows));
                    if pp != p {
                        assert(self.partitions@[pp] == before.partitions@[pp]);
                    }
                }
                assert(self.wf_with_pending(next_extra_rows));
                assert forall|pp: int| 0 <= pp < num_parts implies #[trigger] emitted_rows(ready@, pp) + self.partition_rows(pp)
                    == old_self.partition_rows(pp) + select_partition(values, indices@, pp, (i + 1) as nat) by {
                    assert(emitted_rows(ready@, pp) + before.partition_rows(pp) == old_self.partition_rows(pp)
                        + select_partition(values, indices@, pp, i as nat));
                    if pp == p {
                        assert(indices@[i as int] == pp);
                        assert(select_partition(values, indices@, pp, (i + 1) as nat) == select_partition(values, indices@, pp, i as nat).push(values[i as int]));
                        assert(emitted_rows(ready@, pp) + before.partition_rows(pp).push(values[i as int])
                            =~= (emitted_rows(ready@, pp) + before.partition_rows(pp)).push(values[i as int]));
                        assert(old_self.partition_rows(pp) + select_partition(values, indices@, pp, i as nat).push(values[i as int])
                            =~= (old_self.partition_rows(pp) + select_partition(values, indices@, pp, i as nat)).push(values[i as int]));
                    } else {
                        assert(self.partitions@[pp] == before.partitions@[pp]);
                        assert(select_partition(values, indices@, pp, (i + 1) as nat) == select_partition(values, indices@, pp, i as nat));
                    }
                }
                assert(before.partition_rows(p).len() < limit);
                assert forall|pp: int| 0 <= pp < num_parts && pp != p implies (#[trigger] self.partition_rows(pp)).len() < limit by {
                    assert(self.partitions@[pp] == before.partitions@[pp]);
                    assert(before.partition_rows(pp).len() < limit);
                }
            }
            let partition_length = self.array_length(partition_index as usize);
            if partition_length >= self.max_array_length {
                let ghost before_flush = *self;
                let ghost ready_before = ready@;
                let finished = self.finish_in_progress(partition_index as usize, Ghost(next_extra_rows));
                match finished {
                    Some(array) => {
                        ready.push((partition_index as usize, array));
                        proof {
                            let entry = (partition_index as usize, array);
                            assert(ready@ == ready_before.push(entry));
                            assert forall|pp: int| 0 <= pp < num_parts implies #[trigger] emitted_rows(ready@, pp)
                                + self.partition_rows(pp) == old_self.partition_rows(pp) + select_partition(
                                values,
                                indices@,
                                pp,
                                (i + 1) as nat,
                            ) by {
                                lemma_emitted_push(ready_before, entry, pp);
                                if pp == p {
                                    assert(self.partition_rows(pp).len() == 0);
                                    assert(emitted_rows(ready@, pp) + self.partition_rows(pp) =~= emitted_rows(ready_before, pp)
                                        + before_flush.partition_rows(pp));
                                }
                            }
                            assert forall|pp: int| 0 <= pp < num_parts implies #[trigger] self.pending()[pp] == queue_after_nexts(
                                old_self.pending()[pp],
                                emitted_count(ready@, pp),
                            ) by {
                                lemma_emitted_push(ready_before, entry, pp);
                            }
                            assert forall|k: int| 0 <= k < ready@.len() implies #[trigger] byte_entry_ok(
                                ready@[k],
                                num_parts,
                                old_self.data_type,
                                old_self.is_nullable,
                                old_self.max_array_length as nat,
                            ) && ready@[k].1.spec_len() == limit by {
                                if k < ready_before.len() {
                                    assert(ready@[k] == ready_before[k]);
                                }
                            }
                            assert forall|pp: int| 0 <= pp < num_parts implies (#[trigger] self.partition_rows(pp)).len() < limit by {
                            }
                        }
                    },
                    None => {
                        proof {
                            assert(false);
                        }
                    },
                }
            } else {
                proof {
                    assert forall|pp: int| 0 <= pp < num_parts implies (#[trigger] self.partition_rows(pp)).len() < limit by {
                    }
                }
            }
            i = i + 1;
        }
        let ghost s1 = *self;
        let ghost extra_rows_end = (rows0 + n - self.received_rows@) as nat;
        proof {
            assert forall|p: int| 0 <= p < num_parts implies #[trigger] self.partition_wf(p, 0) by {
                assert(s1.partition_wf(p, extra_rows_end));
                assert(self.partitions == s1.partitions);
            }
            assert forall|p: int| 0 <= p < num_parts implies (#[trigger] self.partition_rows(p)).len() < limit by {
                assert(s1.partition_rows(p).len() < limit);
            }
            assert forall|p: int| 0 <= p < num_parts implies #[trigger] emitted_rows(ready@, p) + self.partition_rows(p)
                == old(self).partition_rows(p) + select_partition(values, indices@, p, n as nat) by {
                assert(s1.partition_rows(p) == self.partition_rows(p));
            }
        }
        ready
    }

    /// Adds the rows of `input_column` to the partitions that `indices` name:
    /// row `i` goes to partition `indices[i]`, after the rows it already has.
    /// The capacity of each row is recorded first, and room is reserved for
    /// the next batch of every partition that gets rows. A partition that
    /// reaches `max_array_length` rows is handed out as a column at once;
    /// the columns handed out are returned with their partitions, in order.
    pub fn add_values(&mut self, input_column: &Column, indices: &[u32]) -> (r: Vec<(usize, Column)>)
        requires
            old(self).wf(),
            input_column.wf(),
            input_column is Bytes,
            input_column.spec_data_type() == old(self).spec_data_type(),
            forall|i: int|
                0 <= i < paired_len(input_column.spec_len(), indices@.len()) ==> (#[trigger] indices@[i])
                    < old(self).num_partitions(),
            old(self).arrays_fit_after(
                input_column->Bytes_0.row_values(),
                indices@,
                paired_len(input_column.spec_len(), indices@.len()),
            ),
            old(self).spec_received_rows() + paired_len(input_column.spec_len(), indices@.len()) < usize::MAX,
            old(self).spec_is_nullable() || input_column.spec_null_count() == 0,
        ensures
            final(self).wf(),
            final(self).spec_data_type() == old(self).spec_data_type(),
            final(self).spec_is_nullable() == old(self).spec_is_nullable(),
            final(self).spec_column_index() == old(self).spec_column_index(),
            final(self).spec_max_array_length() == old(self).spec_max_array_length(),
            final(self).num_partitions() == old(self).num_partitions(),
            final(self).spec_received_rows() == old(self).spec_received_rows() + paired_len(
                input_column.spec_len(),
                indices@.len(),
            ),
            forall|k: int| 0 <= k < r@.len() ==> #[trigger] byte_entry_ok(
                r@[k],
                old(self).num_partitions(),
                old(self).spec_data_type(),
                old(self).spec_is_nullable(),
                old(self).spec_max_array_length() as nat,
            ),
            forall|k: int| 0 <= k < r@.len() ==> (#[trigger] r@[k]).1.spec_len() == batch_limit(
                old(self).spec_max_array_length() as nat,
            ),
            forall|p: int| 0 <= p < old(self).num_partitions() ==> #[trigger] emitted_rows(r@, p) + final(self).partition_rows(p)
                == old(self).partition_rows(p) + select_partition(
                input_column->Bytes_0.row_values(),
                indices@,
                p,
                paired_len(input_column.spec_len(), indices@.len()),
            ),
            forall|p: int| 0 <= p < old(self).num_partitions() ==> {
                let sizes = select_partition(
                    Self::row_capacities(input_column->Bytes_0),
                    indices@,
                    p,
                    paired_len(input_column.spec_len(), indices@.len()),
                );
                let reserved = if sizes.len() > 0 {
                    queue_after_next(queue_after_rows(old(self).pending()[p], sizes, old(self).spec_max_array_length() as nat))
                } else {
                    old(self).pending()[p]
                };
                #[trigger] final(self).pending()[p] == queue_after_nexts(reserved, emitted_count(r@, p))
            },
    {
        let input_column = match input_column {
            Column::Bytes(c) => c,
            _ => {
                return Vec::new();
            },
        };
        self.preallocate(indices, input_column);
        let has_nulls = crate::column::null_count_of(&input_column.validity) > 0;
        let ghost prealloc = *self;
        proof {
            assert forall|p: int| 0 <= p < self.num_partitions() implies #[trigger] arrays_fit(
                self.partition_rows(p) + select_partition(
                    input_column.row_values(),
                    indices@,
                    p,
                    paired_len(input_column.spec_len(), indices@.len()),
                ),
                batch_limit(self.spec_max_array_length() as nat),
                byte_budget(self.spec_data_type()),
            ) by {
                assert(self.partition_rows(p) == old(self).partition_rows(p));
                assert(old(self).arrays_fit_after(
                    input_column.row_values(),
                    indices@,
                    paired_len(input_column.spec_len(), indices@.len()),
                ));
            }
        }
        let ready = if self.is_nullable {
            if has_nulls {
                self.inner_add_values::<true, true>(input_column, indices)
            } else {
                self.inner_add_values::<true, false>(input_column, indices)
            }
        } else {
            self.inner_add_values::<false, false>(input_column, indices)
        };
        proof {
            assert forall|p: int| 0 <= p < old(self).num_partitions() implies #[trigger] emitted_rows(ready@, p)
                + self.partition_rows(p) == old(self).partition_rows(p) + select_partition(
                input_column.row_values(),
                indices@,
                p,
                paired_len(input_column.spec_len(), indices@.len()),
            ) by {
                assert(prealloc.partition_rows(p) == old(self).partition_rows(p));
            }
            assert(prealloc.num_partitions() == old(self).num_partitions());
            assert forall|k: int| 0 <= k < ready@.len() implies #[trigger] byte_entry_ok(
                ready@[k],
                old(self).num_partitions(),
                old(self).spec_data_type(),
                old(self).spec_is_nullable(),
                old(self).spec_max_array_length() as nat,
            ) by {
                assert(byte_entry_ok(
                    ready@[k],
                    prealloc.num_partitions(),
                    prealloc.data_type,
                    prealloc.is_nullable,
                    prealloc.max_array_length as nat,
                ));
            }
        }
        ready
    }

    /// Hands out the rows collected for a partition as one column and starts
    /// the partition afresh, with room reserved for its next batch. A
    /// partition with no rows is left as it is and gives `None`.
    fn finish_in_progress(
        &mut self,
        partition_index: usize,
        Ghost(extra_rows): Ghost<nat>,
    ) -> (r: Option<Column>)
        requires
            old(self).wf_with_pending(extra_rows),
            partition_index < old(self).num_partitions(),
        ensures
            final(self).wf_with_pending(extra_rows),
            final(self).data_type == old(self).data_type,
            final(self).is_nullable == old(self).is_nullable,
            final(self).column_index == old(self).column_index,
            final(self).max_array_length == old(self).max_array_length,
            final(self).received_rows == old(self).received_rows,
            final(self).num_partitions() == old(self).num_partitions(),
            forall|q: int| 0 <= q < old(self).num_partitions() && q != partition_index ==> #[trigger] final(self).partition_rows(q)
                == old(self).partition_rows(q),
            forall|q: int| 0 <= q < old(self).num_partitions() && q != partition_index ==> #[trigger] final(self).pending()[q]
                == old(self).pending()[q],
            final(self).pending().len() == old(self).pending().len(),
            if old(self).partition_rows(partition_index as int).len() == 0 {
                &&& r is None
                &&& final(self).partition_rows(partition_index as int) == old(self).partition_rows(partition_index as int)
                &&& final(self).pending()[partition_index as int] == old(self).pending()[partition_index as int]
            } else {
                &&& r matches Some(Column::Bytes(c)) && c.wf() && c.data_type == old(self).spec_data_type()
                    && c.row_values() == old(self).partition_rows(partition_index as int)
                    && (!old(self).spec_is_nullable() ==> c.validity is None)
                &&& final(self).partition_rows(partition_index as int).len() == 0
                &&& final(self).pending()[partition_index as int] == queue_after_next(old(self).pending()[partition_index as int])
            },
    {
        let ghost p = partition_index as int;
        proof {
            assert(self.partition_wf(p, extra_rows));
        }
        let partition_length = self.array_length(partition_index);
        if partition_length == 0 {
            return None;
        }
        let ghost old_bytes = self.part_bytes(p);
        let ghost old_offsets = self.part_offsets(p);
        let ghost old_nulls = self.part_nulls(p);
        let output_nulls = if self.is_nullable {
            match null_builder_finish(&mut self.partitions[partition_index].2) {
                Some(n) => Some(null_buffer_to_vec(&n)),
                None => None,
            }
        } else {
            None
        };
        let ghost before_next = self.pending();
        let capacity = match self.capacity_tracker.next_capacity(partition_index) {
            Some(c) => c,
            None => BytesArrayBatchCapacity::empty(),
        };
        proof {
            let q = before_next[p];
            assert(queue_wf(q, self.max_array_length as nat));
            if q.len() > 0 {
                assert(q[0].rows() <= batch_limit(self.max_array_length as nat));
            }
        }
        let mut taken_offsets = offset_builder_new(capacity.num_of_items);
        std::mem::swap(&mut taken_offsets, &mut self.partitions[partition_index].1);
        let output_offsets = offset_builder_finish(taken_offsets);
        let mut current: Vec<u8> = Vec::with_capacity(capacity.total_bytes);
        std::mem::swap(&mut current, &mut self.partitions[partition_index].0);
        proof {
            assert(current@ == old_bytes);
            assert(output_offsets@ == old_offsets);
        }
        let total = current.len();
        let mut offsets: Vec<usize> = Vec::with_capacity(output_offsets.len());
        let mut k: usize = 0;
        while k < output_offsets.len()
            invariant
                k <= output_offsets@.len(),
                output_offsets@ == old_offsets,
                buffers_wf(old_bytes, old_offsets, old_nulls, old(self).is_nullable),
                current@ == old_bytes,
                old_bytes.len() == total,
                offsets@.len() == k,
                forall|j: int| 0 <= j < k ==> #[trigger] offsets@[j] == old_offsets[j],
            decreases output_offsets@.len() - k,
        {
            proof {
                assert(old_offsets[k as int] <= old_offsets[old_offsets.len() - 1]);
                assert(old_offsets[0] <= old_offsets[k as int]);
            }
            offsets.push(output_offsets[k] as usize);
            k = k + 1;
        }
        let array = ByteColumn { data_type: self.data_type, offsets, values: current, validity: output_nulls };
        proof {
            assert(old(self).partition_wf(p, extra_rows));
            assert forall|i: int, j: int| 0 <= i <= j < array.offsets@.len() implies array.offsets@[i] <= array.offsets@[j] by {
                assert(old_offsets[i] <= old_offsets[j]);
            }
            assert(array.offsets@.last() == old_offsets.last());
            assert(array.row_values() =~= old(self).partition_rows(p));
            assert forall|q: int| 0 <= q < self.partitions@.len() implies #[trigger] self.partition_wf(q, extra_rows) by {
                assert(old(self).partition_wf(q, extra_rows));
                if q == p {
                    let qq = self.capacity_tracker.pending()[p];
                    assert forall|i: int| 0 <= i < qq.len() implies (#[trigger] qq[i]).num_of_items <= self.received_rows@ + extra_rows by {
                        if before_next[p].len() > 1 {
                            assert(qq[i] == before_next[p][i + 1]);
                        }
                    }
                } else {
                    assert(self.partitions@[q] == old(self).partitions@[q]);
                }
            }
            assert forall|q: int| 0 <= q < old(self).num_partitions() && q != partition_index implies #[trigger] self.partition_rows(q)
                == old(self).partition_rows(q) by {
                assert(self.partitions@[q] == old(self).partitions@[q]);
            }
            assert(self.partition_rows(p) =~= Seq::<Option<Seq<u8>>>::empty());
        }
        Some(Column::Bytes(array))
    }

    /// Finishes every partition that holds rows, in the order of the
    /// partitions: each gives one column of its rows, paired with its index.
    /// Afterwards no partition holds rows.
    pub fn finish_and_reset(&mut self) -> (r: Vec<(usize, Column)>)
        requires
            old(self).wf(),
        ensures
            final(self).wf(),
            final(self).spec_data_type() == old(self).spec_data_type(),
            final(self).spec_is_nullable() == old(self).spec_is_nullable(),
            final(self).spec_column_index() == old(self).spec_column_index(),
            final(self).spec_max_array_length() == old(self).spec_max_array_length(),
            final(self).num_partitions() == old(self).num_partitions(),
            final(self).spec_received_rows() == old(self).spec_received_rows(),
            forall|p: int| 0 <= p < old(self).num_partitions() ==> (#[trigger] final(self).partition_rows(p)).len() == 0,
            forall|p: int| 0 <= p < old(self).num_partitions() ==> #[trigger] final(self).pending()[p] == if old(self).partition_rows(p).len() > 0 {
                queue_after_next(old(self).pending()[p])
            } else {
                old(self).pending()[p]
            },
            forall|k: int| 0 <= k < r@.len() ==> {
                &&& (#[trigger] r@[k]).0 < old(self).num_partitions()
                &&& old(self).partition_rows(r@[k].0 as int).len() > 0
                &&& r@[k].1 matches Column::Bytes(c) && c.wf() && c.data_type == old(self).spec_data_type()
                    && c.row_values() == old(self).partition_rows(r@[k].0 as int)
                    && (!old(self).spec_is_nullable() ==> c.validity is None)
            },
            forall|k: int| 0 <= k < r@.len() ==> #[trigger] byte_entry_ok(
                r@[k],
                old(self).num_partitions(),
                old(self).spec_data_type(),
                old(self).spec_is_nullable(),
                old(self).spec_max_array_length() as nat,
            ),
            forall|k: int| 0 <= k < r@.len() ==> (#[trigger] r@[k]).1.spec_len() < batch_limit(
                old(self).spec_max_array_length() as nat,
            ),
            forall|k1: int, k2: int| 0 <= k1 < k2 < r@.len() ==> (#[trigger] r@[k1]).0 < (#[trigger] r@[k2]).0,
            forall|p: int| 0 <= p < old(self).num_partitions() && (#[trigger] old(self).partition_rows(p)).len() > 0 ==> exists|k: int|
                0 <= k < r@.len() && (#[trigger] r@[k]).0 == p,
    {
        let mut ready: Vec<(usize, Column)> = Vec::new();
        let mut partition_index: usize = 0;
        while partition_index < self.partitions.len()
            invariant
                self.wf(),
                partition_index <= self.num_partitions(),
                self.num_partitions() == old(self).num_partitions(),
                self.data_type == old(self).data_type,
                self.is_nullable == old(self).is_nullable,
                self.column_index == old(self).column_index,
                self.max_array_length == old(self).max_array_length,
                self.received_rows == old(self).received_rows,
                self.pending().len() == old(self).pending().len(),
                forall|p: int| 0 <= p < partition_index ==> (#[trigger] self.partition_rows(p)).len() == 0,
                forall|p: int| partition_index <= p < self.num_partitions() ==> #[trigger] self.partition_rows(p) == old(self).partition_rows(p),
                forall|p: int| 0 <= p < self.num_partitions() ==> #[trigger] self.pending()[p] == if p < partition_index && old(self).partition_rows(p).len() > 0 {
                    queue_after_next(old(self).pending()[p])
                } else {
                    old(self).pending()[p]
                },
                forall|k: int| 0 <= k < ready@.len() ==> (#[trigger] ready@[k]).1.spec_len() < batch_limit(
                    old(self).max_array_length as nat,
                ),
                old(self).rows_bounded(),
                forall|k: int| 0 <= k < ready@.len() ==> {
                    &&& (#[trigger] ready@[k]).0 < partition_index
                    &&& old(self).partition_rows(ready@[k].0 as int).len() > 0
                    &&& ready@[k].1 matches Column::Bytes(c) && c.wf() && c.data_type == old(self).spec_data_type()
                        && c.row_values() == old(self).partition_rows(ready@[k].0 as int)
                        && (!old(self).spec_is_nullable() ==> c.validity is None)
                },
                forall|k1: int, k2: int| 0 <= k1 < k2 < ready@.len() ==> (#[trigger] ready@[k1]).0 < (#[trigger] ready@[k2]).0,
                forall|p: int| 0 <= p < partition_index && (#[trigger] old(self).partition_rows(p)).len() > 0 ==> exists|k: int|
                    0 <= k < ready@.len() && (#[trigger] ready@[k]).0 == p,
            decreases self.num_partitions() - partition_index,
        {
            let ghost ready_before = ready@;
            let ghost before = *self;
            proof {
                assert(self.partition_wf(partition_index as int, 0));
                assert(old(self).rows_bounded());
            }
            if self.array_length(partition_index) > 0 {
                let finished = self.finish_in_progress(partition_index, Ghost(0));
                if let Some(array) = finished {
                    ready.push((partition_index, array));
                    proof {
                        let k = ready@.len() - 1;
                        assert(ready@[k].0 == partition_index);
                        assert(old(self).partition_rows(partition_index as int).len() < batch_limit(old(self).max_array_length as nat));
                    }
                }
                proof {
                    assert forall|q: int| 0 <= q < self.num_partitions() implies (#[trigger] self.partition_rows(q)).len()
                        < batch_limit(self.max_array_length as nat) by {
                        assert(before.rows_bounded());
                        assert(before.partition_rows(q).len() < batch_limit(self.max_array_length as nat));
                    }
                }
            }
            proof {
                assert forall|p: int| 0 <= p < partition_index + 1 && (#[trigger] old(self).partition_rows(p)).len() > 0 implies exists|k: int|
                    0 <= k < ready@.len() && (#[trigger] ready@[k]).0 == p by {
                    if p == partition_index {
                        let k = ready@.len() - 1;
                        assert(ready@[k].0 == p);
                    } else {
                        let k = choose|k: int| 0 <= k < ready_before.len() && (#[trigger] ready_before[k]).0 == p;
                        assert(ready@[k] == ready_before[k]);
                    }
                }
            }
            partition_index = partition_index + 1;
        }
        ready
    }

    /// The number of rows collected for a partition.
    fn array_length(&self, partition_index: usize) -> (r: usize)
        requires
            partition_index < self.num_partitions(),
            buffers_wf(
                self.part_bytes(partition_index as int),
                self.part_offsets(partition_index as int),
                self.part_nulls(partition_index as int),
                self.is_nullable,
            ),
        ensures
            r == self.partition_rows(partition_index as int).len(),
    {
        offset_builder_len(&self.partitions[partition_index].1) - 1
    }
}

} // verus!
