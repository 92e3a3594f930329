//! Shuffling a sequence of batches into partitions, column by column.
use crate::batch::{batch_error, copy_schema, nulls_not_allowed, Batch, ShuffleError};
use crate::byte_array_splitter::{
    arrays_fit, byte_budget, byte_entry_ok, emitted_count, emitted_rows, lemma_arrays_fit_suffix, lemma_emitted_concat,
    lemma_emitted_full_len, lemma_emitted_push, ByteArrayColumnSplitter,
};
use crate::capacity_tracker::{batch_limit, chunk, chunk_count, lemma_chunk};
use crate::column::{
    paired_len, select_partition, Column, DataType, Field,
};
use crate::shuffle_encoded_sink::ShuffleEncodedSink;
use crate::splitter_args::CreateSplitterArgs;
use vstd::prelude::*;

verus! {

/// The rows of partition `p` in the first `k` batches of a column: the rows
/// of each batch that `indices` assigns to `p`, batch after batch.
pub open spec fn gathered_rows(batches: Seq<Column>, indices: Seq<Vec<u32>>, p: int, k: nat) -> Seq<Option<Seq<u8>>>
    decreases k,
{
    if k == 0 {
        Seq::empty()
    } else {
        gathered_rows(batches, indices, p, (k - 1) as nat) + select_partition(
            batches[k - 1]->Bytes_0.row_values(),
            indices[k - 1]@,
            p,
            paired_len(batches[k - 1].spec_len(), indices[k - 1]@.len()),
        )
    }
}

/// The number of rows the first `k` batches of a column contribute.
pub open spec fn gathered_row_count(batches: Seq<Column>, indices: Seq<Vec<u32>>, k: nat) -> nat
    decreases k,
{
    if k == 0 {
        0
    } else {
        gathered_row_count(batches, indices, (k - 1) as nat) + paired_len(
            batches[k - 1].spec_len(),
            indices[k - 1]@.len(),
        )
    }
}

/// The batches of a column can be split by a splitter for `field` that cuts
/// arrays of `m` rows: each is a well formed byte column of the field's
/// type, with no nulls when the field does not allow them, whose rows name
/// existing partitions; every array a partition's rows are cut into fits
/// the offsets of the type; and the rows fit the splitter's row counter.
pub open spec fn column_batches_ok(
    field: Field,
    batches: Seq<Column>,
    indices: Seq<Vec<u32>>,
    num_partitions: nat,
    m: nat,
) -> bool {
    let nb = paired_len(batches.len(), indices.len());
    &&& forall|b: int| 0 <= b < nb ==> {
        &&& (#[trigger] batches[b]).wf()
        &&& batches[b] is Bytes
        &&& batches[b].spec_data_type() == field.data_type
        &&& (field.nullable || batches[b].spec_null_count() == 0)
        &&& forall|i: int|
            0 <= i < paired_len(batches[b].spec_len(), indices[b]@.len()) ==> (#[trigger] indices[b]@[i])
                < num_partitions
    }
    &&& forall|p: int| 0 <= p < num_partitions ==> #[trigger] arrays_fit(
        gathered_rows(batches, indices, p, nb),
        m,
        byte_budget(field.data_type),
    )
    &&& gathered_row_count(batches, indices, nb) < usize::MAX
}

/// The column `col` holds exactly `rows`, as a column of `field`.
pub open spec fn column_holds(col: Column, rows: Seq<Option<Seq<u8>>>, field: Field) -> bool {
    &&& col is Bytes
    &&& col.wf()
    &&& col.spec_data_type() == field.data_type
    &&& col->Bytes_0.row_values() == rows
    &&& (!field.nullable ==> col->Bytes_0.validity is None)
}

/// What a splitter for one column is filled from.
pub struct FillSingleSplitterArgs<'a> {
    /// The largest array a splitter builds.
    pub batch_size: usize,
    /// The index of the column in the schema.
    pub column_index: usize,
    /// The schema field of this column.
    pub field: &'a Field,
    /// How many partitions there are.
    pub number_of_partitions: usize,
    /// The column in each batch: `column_in_all_batches[b]` is the column in batch `b`.
    pub column_in_all_batches: &'a [Column],
    /// `indices[b][i]` is the partition of row `i` of batch `b`.
    pub indices: &'a [Vec<u32>],
}

/// More rows are gathered from more batches.
pub proof fn lemma_gathered_row_count_monotone(batches: Seq<Column>, indices: Seq<Vec<u32>>, k1: nat, k2: nat)
    requires
        k1 <= k2,
    ensures
        gathered_row_count(batches, indices, k1) <= gathered_row_count(batches, indices, k2),
    decreases k2,
{
    if k1 < k2 {
        lemma_gathered_row_count_monotone(batches, indices, k1, (k2 - 1) as nat);
    }
}

/// The rows of the first `k1` batches come first among those of the first
/// `k2`.
pub proof fn lemma_gathered_prefix(batches: Seq<Column>, indices: Seq<Vec<u32>>, p: int, k1: nat, k2: nat)
    requires
        k1 <= k2,
    ensures
        gathered_rows(batches, indices, p, k1).is_prefix_of(gathered_rows(batches, indices, p, k2)),
    decreases k2,
{
    if k1 < k2 {
        lemma_gathered_prefix(batches, indices, p, k1, (k2 - 1) as nat);
        let g1 = gathered_rows(batches, indices, p, k1);
        let g = gathered_rows(batches, indices, p, (k2 - 1) as nat);
        let g2 = gathered_rows(batches, indices, p, k2);
        assert(g2.subrange(0, g1.len() as int) =~= g.subrange(0, g1.len() as int));
    } else {
        let g1 = gathered_rows(batches, indices, p, k1);
        assert(g1.subrange(0, g1.len() as int) =~= g1);
    }
}

/// An array that exists holds at least one row and at most `m`.
pub proof fn lemma_chunk_len<T>(rows: Seq<T>, m: nat, j: int)
    requires
        m >= 1,
        0 <= j < chunk_count(rows.len(), m),
    ensures
        0 < chunk(rows, m, j).len() <= m,
{
    lemma_chunk(rows.len(), m, j);
}

/// The first `k` arrays `rows` are cut into, one after the other.
pub open spec fn joined_chunks<T>(rows: Seq<T>, m: nat, k: nat) -> Seq<T>
    decreases k,
{
    if k == 0 {
        Seq::empty()
    } else {
        joined_chunks(rows, m, (k - 1) as nat) + chunk(rows, m, k - 1)
    }
}

/// Cutting rows into arrays of at most `m` rows and joining the arrays, in
/// order, gives the rows back: every row is in exactly one array, and the
/// arrays keep the rows' order.
pub proof fn lemma_chunks_join<T>(rows: Seq<T>, m: nat)
    requires
        m >= 1,
    ensures
        joined_chunks(rows, m, chunk_count(rows.len(), m)) == rows,
{
    let total = chunk_count(rows.len(), m);
    lemma_chunks_join_prefix(rows, m, total);
    if total > 0 {
        lemma_chunk(rows.len(), m, (total - 1) as int);
        lemma_chunk(rows.len(), m, total as int);
    } else {
        lemma_chunk(rows.len(), m, 0);
    }
    assert(rows.subrange(0, rows.len() as int) =~= rows);
}

/// The first `k` arrays, joined, are the rows before array `k`.
proof fn lemma_chunks_join_prefix<T>(rows: Seq<T>, m: nat, k: nat)
    requires
        m >= 1,
        k <= chunk_count(rows.len(), m),
    ensures
        joined_chunks(rows, m, k) == rows.subrange(
            0,
            if k * m <= rows.len() {
                (k * m) as int
            } else {
                rows.len() as int
            },
        ),
    decreases k,
{
    lemma_chunk(rows.len(), m, k as int);
    if k == 0 {
        assert(k * m == 0) by (nonlinear_arith)
            requires
                k == 0,
        ;
        assert(rows.subrange(0, 0) =~= Seq::<T>::empty());
    } else {
        let j = (k - 1) as nat;
        lemma_chunks_join_prefix(rows, m, j);
        lemma_chunk(rows.len(), m, j as int);
        assert(joined_chunks(rows, m, j) + chunk(rows, m, j as int) =~= rows.subrange(
            0,
            if k * m <= rows.len() {
                (k * m) as int
            } else {
                rows.len() as int
            },
        ));
    }
}

/// `k` arrays of `m` rows hold `k * m` rows exactly.
pub proof fn lemma_chunk_count_exact(len: nat, m: nat, k: nat)
    requires
        m >= 1,
        k * m == len,
    ensures
        chunk_count(len, m) == k,
{
    vstd::arithmetic::div_mod::lemma_fundamental_div_mod_converse((len + m - 1) as int, m as int, k as int, (m - 1) as int);
}

/// Rows past `k` full arrays and fewer than one more make `k + 1` arrays.
pub proof fn lemma_chunk_count_partial(len: nat, m: nat, k: nat)
    requires
        m >= 1,
        k * m < len < k * m + m,
    ensures
        chunk_count(len, m) == k + 1,
{
    assert((k + 1) * m == k * m + m) by (nonlinear_arith);
    vstd::arithmetic::div_mod::lemma_fundamental_div_mod_converse(
        (len + m - 1) as int,
        m as int,
        (k + 1) as int,
        (len - k * m - 1) as int,
    );
}

/// The arrays `q` are `len` columns of `field` holding arrays `from`,
/// `from + 1`, ... of `rows`.
pub open spec fn queue_holds(q: Seq<Column>, rows: Seq<Option<Seq<u8>>>, field: Field, m: nat, from: int, len: int) -> bool {
    &&& q.len() == len
    &&& forall|i: int| 0 <= i < len ==> column_holds(#[trigger] q[i], chunk(rows, m, from + i), field)
}

/// A batch of the schema made of array `i` of every column of a partition,
/// `cols[k]` being the rows of the partition in column `k`.
pub open spec fn batch_holds_chunk(
    batch: Batch,
    cols: Seq<Seq<Option<Seq<u8>>>>,
    schema: Seq<Field>,
    m: nat,
    i: int,
) -> bool {
    &&& batch.schema@ == schema
    &&& batch.num_rows == chunk(cols[0], m, i).len()
    &&& batch.columns@.len() == schema.len()
    &&& forall|k: int| 0 <= k < schema.len() ==> #[trigger] column_holds(
        batch.columns@[k],
        chunk(cols[k], m, i),
        schema[k],
    )
}

/// The arrays of column `k` that wait in a partition while column `c` is
/// handed in, `j` arrays of it so far and `done` batches complete: for a
/// column before `c`, its arrays after the one in progress; for column `c`,
/// its arrays after the first; none for the others.
pub open spec fn waiting_ok(
    q: Seq<Column>,
    rows: Seq<Option<Seq<u8>>>,
    field: Field,
    m: nat,
    k: int,
    c: int,
    done: nat,
    j: nat,
    total: nat,
) -> bool {
    if k < c {
        queue_holds(
            q,
            rows,
            field,
            m,
            done as int + 1,
            if done < total {
                total - 1 - done
            } else {
                0
            },
        )
    } else if k == c && j > 0 {
        queue_holds(q, rows, field, m, 1, j - 1)
    } else {
        q.len() == 0
    }
}

/// The rows of column `k` of the first `n` batches, batch after batch.
pub open spec fn joined_column_rows(batches: Seq<Batch>, k: int, n: nat) -> Seq<Option<Seq<u8>>>
    decreases n,
{
    if n == 0 {
        Seq::empty()
    } else {
        joined_column_rows(batches, k, (n - 1) as nat) + batches[n - 1].columns@[k]->Bytes_0.row_values()
    }
}

/// The batches a shuffle gives a partition hold, column by column and batch
/// after batch, exactly the partition's rows of that column, in order.
pub proof fn lemma_shuffled_partition_rows(
    batches: Seq<Batch>,
    cols: Seq<Seq<Option<Seq<u8>>>>,
    schema: Seq<Field>,
    m: nat,
    k: int,
)
    requires
        m >= 1,
        0 <= k < schema.len(),
        cols[k].len() == cols[0].len(),
        batches.len() == chunk_count(cols[0].len(), m),
        forall|i: int| 0 <= i < batches.len() ==> #[trigger] batch_holds_chunk(batches[i], cols, schema, m, i),
    ensures
        joined_column_rows(batches, k, batches.len()) == cols[k],
{
    lemma_joined_column_rows(batches, cols, schema, m, k, batches.len());
    lemma_chunks_join(cols[k], m);
}

/// Joining the columns `k` of the first `n` batches joins the first `n`
/// arrays of the column's rows.
proof fn lemma_joined_column_rows(
    batches: Seq<Batch>,
    cols: Seq<Seq<Option<Seq<u8>>>>,
    schema: Seq<Field>,
    m: nat,
    k: int,
    n: nat,
)
    requires
        0 <= k < schema.len(),
        n <= batches.len(),
        forall|i: int| 0 <= i < batches.len() ==> #[trigger] batch_holds_chunk(batches[i], cols, schema, m, i),
    ensures
        joined_column_rows(batches, k, n) == joined_chunks(cols[k], m, n),
    decreases n,
{
    if n > 0 {
        lemma_joined_column_rows(batches, cols, schema, m, k, (n - 1) as nat);
        assert(batch_holds_chunk(batches[n - 1], cols, schema, m, n - 1));
        assert(column_holds(batches[n - 1].columns@[k], chunk(cols[k], m, n - 1), schema[k]));
    }
}

/// Partition `p` of the sink when its rows in column `k` are `cols[k]`, cut
/// into arrays of `m` rows; the columns before `c` were handed in whole and
/// the first `j` arrays of column `c` too.
///
/// Before the last column, the first array of each column handed in is
/// written to the batch in progress and the arrays after it wait. Each array
/// of the last column completes a batch: the batch of array `i` of every
/// column.
pub open spec fn partition_state(
    sink: ShuffleEncodedSink,
    p: int,
    cols: Seq<Seq<Option<Seq<u8>>>>,
    m: nat,
    c: int,
    j: nat,
) -> bool {
    let schema = sink.schema();
    let n = schema.len();
    let total = chunk_count(cols[0].len(), m);
    let last = c == n - 1;
    let done: nat = if last {
        j
    } else {
        0
    };
    let written: int = if last {
        n - 1
    } else if j > 0 {
        c + 1
    } else {
        c
    };
    &&& j <= total
    &&& sink.batches(p).len() == done
    &&& forall|i: int| 0 <= i < done ==> #[trigger] batch_holds_chunk(sink.batches(p)[i], cols, schema, m, i)
    &&& sink.waiting(p).len() == n - 1
    &&& forall|k: int| 0 <= k < n - 1 ==> waiting_ok(#[trigger] sink.waiting(p)[k], cols[k], schema[k], m, k, c, done, j, total)
    &&& if done < total {
        &&& sink.next_column(p) == written
        &&& sink.in_progress(p).len() == written
        &&& forall|k: int| 0 <= k < written ==> column_holds(
            #[trigger] sink.in_progress(p)[k],
            chunk(cols[k], m, done as int),
            schema[k],
        )
        &&& sink.rows_in_progress(p) == if written > 0 {
            Some(chunk(cols[0], m, done as int).len() as usize)
        } else {
            None::<usize>
        }
    } else {
        &&& sink.next_column(p) == 0
        &&& sink.in_progress(p) == Seq::<Column>::empty()
        &&& sink.rows_in_progress(p) is None
    }
}

/// Partition `q` is the same in both sinks.
pub open spec fn same_partition(a: ShuffleEncodedSink, b: ShuffleEncodedSink, q: int) -> bool {
    &&& b.batches(q) == a.batches(q)
    &&& b.next_column(q) == a.next_column(q)
    &&& b.waiting(q) == a.waiting(q)
    &&& b.in_progress(q) == a.in_progress(q)
    &&& b.rows_in_progress(q) == a.rows_in_progress(q)
}

/// A partition left as it was keeps its state.
pub proof fn lemma_state_frame(
    a: ShuffleEncodedSink,
    b: ShuffleEncodedSink,
    q: int,
    cols: Seq<Seq<Option<Seq<u8>>>>,
    m: nat,
    c: int,
    j: nat,
)
    requires
        same_partition(a, b, q),
        a.schema() == b.schema(),
        partition_state(a, q, cols, m, c, j),
    ensures
        partition_state(b, q, cols, m, c, j),
{
}

/// All arrays of column `c` handed in is the state before column `c + 1`.
pub proof fn lemma_state_next_column(sink: ShuffleEncodedSink, p: int, cols: Seq<Seq<Option<Seq<u8>>>>, m: nat, c: int)
    requires
        0 <= c < sink.schema().len() - 1,
        partition_state(sink, p, cols, m, c, chunk_count(cols[0].len(), m)),
    ensures
        partition_state(sink, p, cols, m, c + 1, 0),
{
    let schema = sink.schema();
    let n = schema.len();
    let total = chunk_count(cols[0].len(), m);
    assert forall|k: int| 0 <= k < n - 1 implies waiting_ok(
        #[trigger] sink.waiting(p)[k],
        cols[k],
        schema[k],
        m,
        k,
        c + 1,
        0,
        0,
        total,
    ) by {
        assert(waiting_ok(sink.waiting(p)[k], cols[k], schema[k], m, k, c, 0, total, total));
    }
}

/// Hands array `j` of column `c` of partition `p` to the sink.
fn deliver_chunk(
    sink: &mut ShuffleEncodedSink,
    c: usize,
    p: usize,
    array: Column,
    Ghost(cols): Ghost<Seq<Seq<Option<Seq<u8>>>>>,
    Ghost(m): Ghost<nat>,
    Ghost(j): Ghost<nat>,
)
    requires
        old(sink).wf(),
        p < old(sink).num_partitions(),
        c < old(sink).schema().len(),
        1 <= m <= usize::MAX,
        cols.len() == old(sink).schema().len(),
        forall|k: int| 0 <= k <= c ==> (#[trigger] cols[k]).len() == cols[0].len(),
        partition_state(*old(sink), p as int, cols, m, c as int, j),
        j < chunk_count(cols[0].len(), m),
        column_holds(array, chunk(cols[c as int], m, j as int), old(sink).schema()[c as int]),
    ensures
        final(sink).wf(),
        final(sink).schema() == old(sink).schema(),
        final(sink).num_partitions() == old(sink).num_partitions(),
        partition_state(*final(sink), p as int, cols, m, c as int, j + 1),
        forall|q: int| 0 <= q < old(sink).num_partitions() && q != p ==> #[trigger] same_partition(
            *old(sink),
            *final(sink),
            q,
        ),
{
    let ghost before = *sink;
    let ghost ji: int = j as int;
    let ghost schema = sink.schema();
    let ghost n = schema.len();
    let ghost total = chunk_count(cols[0].len(), m);
    let ghost pp = p as int;
    let ghost cc = c as int;
    proof {
        lemma_chunk(cols[0].len(), m, j as int);
        assert forall|k: int, i: int| 0 <= k <= c && 0 <= i < total implies #[trigger] chunk(cols[k], m, i).len()
            == chunk(cols[0], m, i).len() && 0 < chunk(cols[0], m, i).len() <= m by {
            lemma_chunk(cols[0].len(), m, i);
            lemma_chunk_len(cols[0], m, i);
        }
        assert(chunk(cols[cc], m, j as int).len() == chunk(cols[0], m, j as int).len());
        assert(array.spec_len() == chunk(cols[cc], m, j as int).len());
        if c + 1 < n {
            if j == 0 {
                if c >= 2 {
                    assert(queue_holds(before.waiting(pp)[cc - 1], cols[cc - 1], schema[cc - 1], m, 1, total - 1));
                    assert(queue_holds(before.waiting(pp)[cc - 2], cols[cc - 2], schema[cc - 2], m, 1, total - 1));
                }
            }
        } else {
            if n > 1 {
                assert forall|k: int| 0 <= k < n - 1 implies (#[trigger] before.waiting(pp)[k]).len() == total - 1 - j by {
                    assert(queue_holds(before.waiting(pp)[k], cols[k], schema[k], m, ji + 1, total - 1 - j));
                }
            }
            let columns = before.in_progress(pp).push(array);
            let rows = if n == 1 {
                array.spec_len() as usize
            } else {
                before.rows_in_progress(pp)->0
            };
            assert(rows == chunk(cols[0], m, j as int).len());
            assert forall|i: int| 0 <= i < columns.len() implies #[trigger] column_holds(
                columns[i],
                chunk(cols[i], m, j as int),
                schema[i],
            ) by {
                if i < n - 1 {
                    assert(columns[i] == before.in_progress(pp)[i]);
                }
            }
            assert forall|i: int| 0 <= i < columns.len() implies !#[trigger] nulls_not_allowed(schema, columns, i) by {
                assert(column_holds(columns[i], chunk(cols[i], m, j as int), schema[i]));
            }
            assert forall|i: int| 0 <= i < columns.len() implies (#[trigger] columns[i]).spec_len() == rows by {
                assert(column_holds(columns[i], chunk(cols[i], m, j as int), schema[i]));
                assert(columns[i]->Bytes_0.row_values().len() == chunk(cols[i], m, j as int).len());
            }
            assert forall|i: int| 0 <= i < columns.len() implies (#[trigger] columns[i]).spec_data_type()
                == schema[i].data_type by {
                assert(column_holds(columns[i], chunk(cols[i], m, j as int), schema[i]));
            }
            assert(batch_error(schema, columns, rows as nat) is None);
        }
    }
    let added = sink.add_column_to_partition(c, p, array);
    proof {
        assert(added is Ok);
        let after = *sink;
        if c + 1 < n {
            if j == 0 {
                assert forall|k: int| 0 <= k < cc + 1 implies #[trigger] column_holds(
                    after.in_progress(pp)[k],
                    chunk(cols[k], m, 0),
                    schema[k],
                ) by {
                    if k < cc {
                        assert(after.in_progress(pp)[k] == before.in_progress(pp)[k]);
                    }
                }
            } else {
                assert forall|k: int| 0 <= k < n - 1 implies waiting_ok(
                    #[trigger] after.waiting(pp)[k],
                    cols[k],
                    schema[k],
                    m,
                    k,
                    cc,
                    0,
                    (ji + 1) as nat,
                    total,
                ) by {
                    assert(waiting_ok(before.waiting(pp)[k], cols[k], schema[k], m, k, cc, 0, j, total));
                    if k == cc {
                        let q = after.waiting(pp)[k];
                        assert(q == before.waiting(pp)[k].push(array));
                        assert forall|i: int| 0 <= i < j implies column_holds(#[trigger] q[i], chunk(cols[k], m, 1 + i), schema[k]) by {
                            if i < j - 1 {
                                assert(q[i] == before.waiting(pp)[k][i]);
                            } else {
                                assert(q[i] == array);
                                assert(1 + i == j);
                            }
                        }
                    }
                }
            }
        } else {
            let new_batch = after.batches(pp).last();
            assert(after.batches(pp)[j as int] == new_batch);
            assert forall|i: int| 0 <= i < ji + 1 implies #[trigger] batch_holds_chunk(after.batches(pp)[i], cols, schema, m, i) by {
                if i < j {
                    assert(after.batches(pp)[i] == after.batches(pp).subrange(0, j as int)[i]);
                } else {
                    let columns = before.in_progress(pp).push(array);
                    assert(new_batch.columns@ == columns);
                    assert forall|k: int| 0 <= k < n implies #[trigger] column_holds(
                        new_batch.columns@[k],
                        chunk(cols[k], m, i),
                        schema[k],
                    ) by {
                        if k < n - 1 {
                            assert(columns[k] == before.in_progress(pp)[k]);
                        }
                    }
                }
            }
            if n > 1 && before.waiting(pp)[0].len() > 0 {
                assert forall|k: int| 0 <= k < n - 1 implies waiting_ok(
                    #[trigger] after.waiting(pp)[k],
                    cols[k],
                    schema[k],
                    m,
                    k,
                    cc,
                    (ji + 1) as nat,
                    (ji + 1) as nat,
                    total,
                ) by {
                    let q0 = before.waiting(pp)[k];
                    let d = (ji + 1) as nat;
                    let q1 = after.waiting(pp)[k];
                    assert(d == ji + 1);
                    assert(waiting_ok(q0, cols[k], schema[k], m, k, cc, j, j, total));
                    assert(q1 == q0.drop_first());
                    assert(d < total);
                    assert forall|i: int| 0 <= i < total - 1 - d implies column_holds(
                        #[trigger] q1[i],
                        chunk(cols[k], m, d + 1 + i),
                        schema[k],
                    ) by {
                        assert(q1[i] == q0[i + 1]);
                        assert(column_holds(q0[i + 1], chunk(cols[k], m, j + 1 + (i + 1)), schema[k]));
                        assert(d + 1 + i == j + 1 + (i + 1));
                    }
                    assert(queue_holds(q1, cols[k], schema[k], m, d as int + 1, total - 1 - d));
                }
                assert forall|k: int| 0 <= k < n - 1 implies #[trigger] column_holds(
                    after.in_progress(pp)[k],
                    chunk(cols[k], m, ji + 1),
                    schema[k],
                ) by {
                    let q0 = before.waiting(pp)[k];
                    assert(queue_holds(q0, cols[k], schema[k], m, ji + 1, total - 1 - j));
                    assert(column_holds(q0[0], chunk(cols[k], m, ji + 1 + 0), schema[k]));
                }
                assert(queue_holds(before.waiting(pp)[0], cols[0], schema[0], m, ji + 1, total - 1 - j));
                assert(column_holds(before.waiting(pp)[0][0], chunk(cols[0], m, ji + 1 + 0), schema[0]));
            } else {
                assert forall|k: int| 0 <= k < n - 1 implies waiting_ok(
                    #[trigger] after.waiting(pp)[k],
                    cols[k],
                    schema[k],
                    m,
                    k,
                    cc,
                    (ji + 1) as nat,
                    (ji + 1) as nat,
                    total,
                ) by {
                    assert(waiting_ok(before.waiting(pp)[k], cols[k], schema[k], m, k, cc, j, j, total));
                    assert(waiting_ok(before.waiting(pp)[0], cols[0], schema[0], m, 0, cc, j, j, total));
                }
            }
        }
        assert forall|q: int| 0 <= q < before.num_partitions() && q != p implies #[trigger] same_partition(before, after, q) by {
        }
    }
}

/// Splits one column of every batch and hands each array the splitter
/// finishes to the sink, in the order the splitter finishes them: the full
/// arrays while the batches are added, then what is left of each partition.
fn inner_fill_all_data_for_single_column_in_all_partitions(
    args: FillSingleSplitterArgs<'_>,
    ready_partitions_sink: &mut ShuffleEncodedSink,
    Ghost(all_cols): Ghost<Seq<Seq<Seq<Option<Seq<u8>>>>>>,
) -> (r: Result<(), ShuffleError>)
    requires
        old(ready_partitions_sink).wf(),
        args.field.data_type.spec_is_byte_type(),
        args.number_of_partitions == old(ready_partitions_sink).num_partitions(),
        (args.column_index as int) < old(ready_partitions_sink).schema().len(),
        *args.field == old(ready_partitions_sink).schema()[args.column_index as int],
        column_batches_ok(
            *args.field,
            args.column_in_all_batches@,
            args.indices@,
            args.number_of_partitions as nat,
            batch_limit(args.batch_size as nat),
        ),
        all_cols.len() == args.number_of_partitions,
        forall|p: int| 0 <= p < args.number_of_partitions ==> #[trigger] cols_fit(
            all_cols[p],
            old(ready_partitions_sink).schema().len(),
            args.column_index as int,
            gathered_rows(
                args.column_in_all_batches@,
                args.indices@,
                p,
                paired_len(args.column_in_all_batches@.len(), args.indices@.len()),
            ),
        ),
        forall|p: int| 0 <= p < args.number_of_partitions ==> #[trigger] partition_state(
            *old(ready_partitions_sink),
            p,
            all_cols[p],
            batch_limit(args.batch_size as nat),
            args.column_index as int,
            0,
        ),
    ensures
        r is Ok,
        final(ready_partitions_sink).wf(),
        final(ready_partitions_sink).schema() == old(ready_partitions_sink).schema(),
        final(ready_partitions_sink).num_partitions() == old(ready_partitions_sink).num_partitions(),
        forall|p: int| 0 <= p < args.number_of_partitions ==> #[trigger] partition_state(
            *final(ready_partitions_sink),
            p,
            all_cols[p],
            batch_limit(args.batch_size as nat),
            args.column_index as int,
            chunk_count(all_cols[p][0].len(), batch_limit(args.batch_size as nat)),
        ),
{
    let batches = args.column_in_all_batches;
    let indices = args.indices;
    let ghost nparts = args.number_of_partitions as nat;
    let ghost c = args.column_index as int;
    let ghost m = batch_limit(args.batch_size as nat);
    let ghost schema = ready_partitions_sink.schema();
    let mut splitter = ByteArrayColumnSplitter::new(
        CreateSplitterArgs {
            batch_size: args.batch_size,
            field: args.field,
            column_index: args.column_index,
            number_of_partitions: args.number_of_partitions,
        },
    );
    let nb = if batches.len() <= indices.len() {
        batches.len()
    } else {
        indices.len()
    };
    let ghost mut log: Seq<(usize, Column)> = Seq::empty();
    proof {
        assert forall|q: int| 0 <= q < nparts implies #[trigger] emitted_rows(log, q) + splitter.partition_rows(q)
            == gathered_rows(batches@, indices@, q, 0) by {
            assert(emitted_rows(log, q) + splitter.partition_rows(q) =~= Seq::<Option<Seq<u8>>>::empty());
        }
        assert forall|q: int| 0 <= q < nparts implies #[trigger] partition_state(
            *ready_partitions_sink,
            q,
            all_cols[q],
            m,
            c,
            emitted_count(log, q),
        ) by {
            assert(partition_state(*old(ready_partitions_sink), q, all_cols[q], m, c, 0));
        }
    }
    let mut b: usize = 0;
    while b < nb
        invariant
            b <= nb,
            nb == paired_len(batches@.len(), indices@.len()),
            column_batches_ok(*args.field, batches@, indices@, nparts, m),
            args.field.data_type.spec_is_byte_type(),
            nparts == args.number_of_partitions,
            c == args.column_index,
            m == batch_limit(args.batch_size as nat),
            m >= 1,
            schema == old(ready_partitions_sink).schema(),
            c < schema.len(),
            *args.field == schema[c],
            all_cols.len() == nparts,
            forall|p: int| 0 <= p < nparts ==> #[trigger] cols_fit(
                all_cols[p],
                schema.len(),
                c,
                gathered_rows(batches@, indices@, p, nb as nat),
            ),
            splitter.wf(),
            splitter.num_partitions() == nparts,
            splitter.spec_data_type() == args.field.data_type,
            splitter.spec_is_nullable() == args.field.nullable,
            splitter.spec_column_index() == args.column_index,
            splitter.spec_max_array_length() == args.batch_size,
            splitter.spec_received_rows() == gathered_row_count(batches@, indices@, b as nat),
            forall|q: int| 0 <= q < nparts ==> #[trigger] emitted_rows(log, q) + splitter.partition_rows(q)
                == gathered_rows(batches@, indices@, q, b as nat),
            forall|t: int| 0 <= t < log.len() ==> (#[trigger] log[t]).1->Bytes_0.row_values().len() == m,
            ready_partitions_sink.wf(),
            ready_partitions_sink.schema() == schema,
            ready_partitions_sink.num_partitions() == nparts,
            forall|q: int| 0 <= q < nparts ==> #[trigger] partition_state(
                *ready_partitions_sink,
                q,
                all_cols[q],
                m,
                c,
                emitted_count(log, q),
            ),
        decreases nb - b,
    {
        proof {
            lemma_gathered_row_count_monotone(batches@, indices@, (b + 1) as nat, nb as nat);
            assert(batches@[b as int].wf());
            let col = batches@[b as int]->Bytes_0;
            let n_b = paired_len(batches@[b as int].spec_len(), indices@[b as int]@.len());
            assert forall|q: int| 0 <= q < splitter.num_partitions() implies #[trigger] arrays_fit(
                splitter.partition_rows(q) + select_partition(col.row_values(), indices@[b as int]@, q, n_b),
                batch_limit(splitter.spec_max_array_length() as nat),
                byte_budget(splitter.spec_data_type()),
            ) by {
                let e = emitted_rows(log, q);
                let next = gathered_rows(batches@, indices@, q, (b + 1) as nat);
                let whole = gathered_rows(batches@, indices@, q, nb as nat);
                let sel = select_partition(col.row_values(), indices@[b as int]@, q, n_b);
                lemma_emitted_full_len(log, q, m);
                assert(e + splitter.partition_rows(q) == gathered_rows(batches@, indices@, q, b as nat));
                assert(next == gathered_rows(batches@, indices@, q, b as nat) + sel);
                lemma_gathered_prefix(batches@, indices@, q, (b + 1) as nat, nb as nat);
                assert(arrays_fit(whole, m, byte_budget(args.field.data_type)));
                lemma_arrays_fit_suffix(whole, next, m, emitted_count(log, q), byte_budget(args.field.data_type));
                assert(next.subrange((emitted_count(log, q) * m) as int, next.len() as int) =~= splitter.partition_rows(q)
                    + sel);
            }
        }
        let ghost before_add = splitter;
        let ready = splitter.add_values(&batches[b], indices[b].as_slice());
        let ghost log0 = log;
        let ghost all = ready@;
        proof {
            assert forall|q: int| 0 <= q < nparts implies #[trigger] emitted_rows(log0 + all, q) + splitter.partition_rows(q)
                == gathered_rows(batches@, indices@, q, (b + 1) as nat) by {
                lemma_emitted_concat(log0, all, q);
                let e0 = emitted_rows(log0, q);
                let e1 = emitted_rows(all, q);
                let sel = select_partition(
                    batches@[b as int]->Bytes_0.row_values(),
                    indices@[b as int]@,
                    q,
                    paired_len(batches@[b as int].spec_len(), indices@[b as int]@.len()),
                );
                assert(e1 + splitter.partition_rows(q) == before_add.partition_rows(q) + sel);
                assert(e0 + before_add.partition_rows(q) == gathered_rows(batches@, indices@, q, b as nat));
                assert(e0 + e1 + splitter.partition_rows(q) =~= e0 + (e1 + splitter.partition_rows(q)));
                assert(e0 + (before_add.partition_rows(q) + sel) =~= (e0 + before_add.partition_rows(q)) + sel);
            }
        }
        let mut ready = ready;
        let total = ready.len();
        let mut t: usize = 0;
        while 0 < ready.len()
            invariant
                t <= all.len(),
                all.len() == total,
                ready@ == all.subrange(t as int, all.len() as int),
                log == log0 + all.subrange(0, t as int),
                b < nb,
                nb == paired_len(batches@.len(), indices@.len()),
                nparts == args.number_of_partitions,
                c == args.column_index,
                m == batch_limit(args.batch_size as nat),
                m >= 1,
                schema == old(ready_partitions_sink).schema(),
                c < schema.len(),
                *args.field == schema[c],
                all_cols.len() == nparts,
                forall|p: int| 0 <= p < nparts ==> #[trigger] cols_fit(
                    all_cols[p],
                    schema.len(),
                    c,
                    gathered_rows(batches@, indices@, p, nb as nat),
                ),
                forall|k: int| 0 <= k < all.len() ==> #[trigger] byte_entry_ok(
                    all[k],
                    nparts,
                    args.field.data_type,
                    args.field.nullable,
                    args.batch_size as nat,
                ),
                forall|k: int| 0 <= k < all.len() ==> (#[trigger] all[k]).1.spec_len() == m,
                forall|q: int| 0 <= q < nparts ==> #[trigger] emitted_rows(log0 + all, q) + splitter.partition_rows(q)
                    == gathered_rows(batches@, indices@, q, (b + 1) as nat),
                forall|k: int| 0 <= k < log0.len() ==> (#[trigger] log0[k]).1->Bytes_0.row_values().len() == m,
                ready_partitions_sink.wf(),
                ready_partitions_sink.schema() == schema,
                ready_partitions_sink.num_partitions() == nparts,
                forall|q: int| 0 <= q < nparts ==> #[trigger] partition_state(
                    *ready_partitions_sink,
                    q,
                    all_cols[q],
                    m,
                    c,
                    emitted_count(log, q),
                ),
            decreases ready@.len(),
        {
            let (partition_index, array) = ready.remove(0);
            let ghost q = partition_index as int;
            let ghost entry = all[t as int];
            let ghost count = emitted_count(log, q);
            let ghost rows = gathered_rows(batches@, indices@, q, nb as nat);
            let ghost before = *ready_partitions_sink;
            proof {
                assert(entry == (partition_index, array));
                assert(byte_entry_ok(entry, nparts, args.field.data_type, args.field.nullable, args.batch_size as nat));
                assert forall|k: int| 0 <= k < log.len() implies (#[trigger] log[k]).1->Bytes_0.row_values().len() == m by {
                    if k < log0.len() {
                        assert(log[k] == log0[k]);
                    } else {
                        assert(log[k] == all[k - log0.len()]);
                        assert(all[k - log0.len()].1.spec_len() == m);
                        assert(byte_entry_ok(all[k - log0.len()], nparts, args.field.data_type, args.field.nullable, args.batch_size as nat));
                    }
                }
                lemma_emitted_full_len(log, q, m);
                let rest = all.subrange(t + 1, all.len() as int);
                assert(log0 + all =~= log + (seq![entry] + rest));
                lemma_emitted_concat(log, seq![entry] + rest, q);
                lemma_emitted_concat(seq![entry], rest, q);
                lemma_emitted_push(Seq::empty(), entry, q);
                assert(Seq::<(usize, Column)>::empty().push(entry) =~= seq![entry]);
                assert(emitted_rows(Seq::<(usize, Column)>::empty(), q) =~= Seq::<Option<Seq<u8>>>::empty());
                let e = emitted_rows(log, q);
                let x = array->Bytes_0.row_values();
                let g = gathered_rows(batches@, indices@, q, (b + 1) as nat);
                assert(x.len() == m);
                assert(g == e + (x + emitted_rows(rest, q)) + splitter.partition_rows(q));
                lemma_gathered_prefix(batches@, indices@, q, (b + 1) as nat, nb as nat);
                assert(cols_fit(all_cols[q], schema.len(), c, rows));
                lemma_chunk(rows.len(), m, count as int);
                assert(e.len() == count * m);
                assert(g.len() <= rows.len());
                assert(count * m + m <= g.len());
                assert(g.is_prefix_of(rows));
                assert((count + 1) * m <= rows.len());
                assert(chunk(rows, m, count as int) =~= x) by {
                    let xr = x + emitted_rows(rest, q);
                    assert forall|i: int| 0 <= i < m implies #[trigger] rows[count * m + i] == x[i] by {
                        assert(rows.subrange(0, g.len() as int)[count * m + i] == rows[count * m + i]);
                        assert(rows[count * m + i] == g[count * m + i]);
                        assert((e + xr)[count * m + i] == xr[i]);
                        assert(xr[i] == x[i]);
                        assert(g[count * m + i] == (e + xr)[count * m + i]);
                    }
                    assert forall|i: int| 0 <= i < m implies #[trigger] chunk(rows, m, count as int)[i] == x[i] by {
                        assert(chunk(rows, m, count as int)[i] == rows[count * m + i]);
                    }
                }
                assert(all_cols[q][c] == rows);
                assert(count < chunk_count(all_cols[q][0].len(), m));
                assert(column_holds(array, chunk(all_cols[q][c], m, count as int), schema[c]));
            }
            deliver_chunk(ready_partitions_sink, args.column_index, partition_index, array, Ghost(all_cols[q]), Ghost(m), Ghost(count));
            proof {
                let new_log = log.push(entry);
                assert(new_log =~= log0 + all.subrange(0, t + 1));
                assert forall|qq: int| 0 <= qq < nparts implies #[trigger] partition_state(
                    *ready_partitions_sink,
                    qq,
                    all_cols[qq],
                    m,
                    c,
                    emitted_count(new_log, qq),
                ) by {
                    lemma_emitted_push(log, entry, qq);
                    if qq != q {
                        assert(same_partition(before, *ready_partitions_sink, qq));
                        lemma_state_frame(before, *ready_partitions_sink, qq, all_cols[qq], m, c, emitted_count(log, qq));
                    }
                }
                log = new_log;
                assert(ready@ =~= all.subrange(t + 1, all.len() as int));
            }
            t = t + 1;
        }
        proof {
            assert(all.subrange(0, t as int) =~= all);
            assert forall|k: int| 0 <= k < log.len() implies (#[trigger] log[k]).1->Bytes_0.row_values().len() == m by {
                if k < log0.len() {
                    assert(log[k] == log0[k]);
                } else {
                    assert(log[k] == all[k - log0.len()]);
                    assert(all[k - log0.len()].1.spec_len() == m);
                    assert(byte_entry_ok(all[k - log0.len()], nparts, args.field.data_type, args.field.nullable, args.batch_size as nat));
                }
            }
        }
        b = b + 1;
    }
    let ghost pre_finish = splitter;
    let mut fin = splitter.finish_and_reset();
    let ghost fin_all = fin@;
    let total = fin.len();
    let mut k: usize = 0;
    while 0 < fin.len()
        invariant
            k <= fin_all.len(),
            fin_all.len() == total,
            fin@ == fin_all.subrange(k as int, fin_all.len() as int),
            nb == paired_len(batches@.len(), indices@.len()),
            nparts == args.number_of_partitions,
            c == args.column_index,
            m == batch_limit(args.batch_size as nat),
            m >= 1,
            schema == old(ready_partitions_sink).schema(),
            c < schema.len(),
            *args.field == schema[c],
            all_cols.len() == nparts,
            forall|p: int| 0 <= p < nparts ==> #[trigger] cols_fit(
                all_cols[p],
                schema.len(),
                c,
                gathered_rows(batches@, indices@, p, nb as nat),
            ),
            forall|q: int| 0 <= q < nparts ==> #[trigger] emitted_rows(log, q) + pre_finish.partition_rows(q)
                == gathered_rows(batches@, indices@, q, nb as nat),
            forall|t: int| 0 <= t < log.len() ==> (#[trigger] log[t]).1->Bytes_0.row_values().len() == m,
            forall|j: int| 0 <= j < fin_all.len() ==> #[trigger] byte_entry_ok(
                fin_all[j],
                nparts,
                args.field.data_type,
                args.field.nullable,
                args.batch_size as nat,
            ),
            forall|j: int| 0 <= j < fin_all.len() ==> (#[trigger] fin_all[j]).1.spec_len() < m,
            forall|j: int| 0 <= j < fin_all.len() ==> (#[trigger] fin_all[j]).1->Bytes_0.row_values()
                == pre_finish.partition_rows(fin_all[j].0 as int),
            forall|j1: int, j2: int| 0 <= j1 < j2 < fin_all.len() ==> (#[trigger] fin_all[j1]).0 < (#[trigger] fin_all[j2]).0,
            forall|p: int| 0 <= p < nparts && (#[trigger] pre_finish.partition_rows(p)).len() > 0 ==> exists|j: int|
                0 <= j < fin_all.len() && (#[trigger] fin_all[j]).0 == p,
            ready_partitions_sink.wf(),
            ready_partitions_sink.schema() == schema,
            ready_partitions_sink.num_partitions() == nparts,
            forall|q: int| 0 <= q < nparts ==> #[trigger] partition_state(
                *ready_partitions_sink,
                q,
                all_cols[q],
                m,
                c,
                fin_progress(log, fin_all, k as int, q),
            ),
        decreases fin@.len(),
    {
        let (partition_index, array) = fin.remove(0);
        let ghost q = partition_index as int;
        let ghost count = emitted_count(log, q);
        let ghost rows = gathered_rows(batches@, indices@, q, nb as nat);
        let ghost before = *ready_partitions_sink;
        proof {
            assert(fin_all[k as int] == (partition_index, array));
            assert(!finished_before(fin_all, k as int, q)) by {
                if finished_before(fin_all, k as int, q) {
                    let j = choose|j: int| 0 <= j < k && (#[trigger] fin_all[j]).0 == q;
                    assert(fin_all[j].0 < fin_all[k as int].0);
                }
            }
            assert(byte_entry_ok(fin_all[k as int], nparts, args.field.data_type, args.field.nullable, args.batch_size as nat));
            assert(fin_progress(log, fin_all, k as int, q) == count);
            let e = emitted_rows(log, q);
            let x = array->Bytes_0.row_values();
            lemma_emitted_full_len(log, q, m);
            assert(e + x == rows);
            assert(e.len() == count * m);
            assert(0 < x.len() < m);
            assert(cols_fit(all_cols[q], schema.len(), c, rows));
            lemma_chunk(rows.len(), m, count as int);
            assert(rows.len() < (count + 1) * m);
            assert(chunk(rows, m, count as int) =~= x) by {
                assert forall|i: int| 0 <= i < x.len() implies #[trigger] rows[count * m + i] == x[i] by {
                    assert(rows[count * m + i] == (e + x)[count * m + i]);
                }
                assert forall|i: int| 0 <= i < x.len() implies #[trigger] chunk(rows, m, count as int)[i] == x[i] by {
                    assert(chunk(rows, m, count as int)[i] == rows[count * m + i]);
                }
            }
            assert(count < chunk_count(all_cols[q][0].len(), m));
        }
        deliver_chunk(ready_partitions_sink, args.column_index, partition_index, array, Ghost(all_cols[q]), Ghost(m), Ghost(count));
        proof {
            assert forall|qq: int| 0 <= qq < nparts implies #[trigger] partition_state(
                *ready_partitions_sink,
                qq,
                all_cols[qq],
                m,
                c,
                fin_progress(log, fin_all, k + 1, qq),
            ) by {
                if qq == q {
                    assert(finished_before(fin_all, k + 1, qq)) by {
                        assert(fin_all[k as int].0 == qq);
                    }
                } else {
                    assert(finished_before(fin_all, k + 1, qq) == finished_before(fin_all, k as int, qq)) by {
                        if finished_before(fin_all, k + 1, qq) {
                            let j = choose|j: int| 0 <= j < k + 1 && (#[trigger] fin_all[j]).0 == qq;
                            assert(j < k);
                        }
                    }
                    assert(same_partition(before, *ready_partitions_sink, qq));
                    lemma_state_frame(
                        before,
                        *ready_partitions_sink,
                        qq,
                        all_cols[qq],
                        m,
                        c,
                        fin_progress(log, fin_all, k as int, qq),
                    );
                }
            }
            assert(fin@ =~= fin_all.subrange(k + 1, fin_all.len() as int));
        }
        k = k + 1;
    }
    proof {
        assert(k == fin_all.len());
        assert forall|p: int| 0 <= p < nparts implies #[trigger] partition_state(
            *ready_partitions_sink,
            p,
            all_cols[p],
            m,
            c,
            chunk_count(all_cols[p][0].len(), m),
        ) by {
            assert(partition_state(*ready_partitions_sink, p, all_cols[p], m, c, fin_progress(log, fin_all, k as int, p)));
            let rows = gathered_rows(batches@, indices@, p, nb as nat);
            let count = emitted_count(log, p);
            let e = emitted_rows(log, p);
            assert(cols_fit(all_cols[p], schema.len(), c, rows));
            lemma_emitted_full_len(log, p, m);
            assert(e + pre_finish.partition_rows(p) == rows);
            if pre_finish.partition_rows(p).len() > 0 {
                let j = choose|j: int| 0 <= j < fin_all.len() && (#[trigger] fin_all[j]).0 == p;
                assert(finished_before(fin_all, k as int, p));
                assert(fin_all[j].1.spec_len() < m);
                assert(fin_all[j].1->Bytes_0.row_values() == pre_finish.partition_rows(p));
                lemma_chunk_count_partial(rows.len(), m, count);
            } else {
                assert(!finished_before(fin_all, k as int, p)) by {
                    if finished_before(fin_all, k as int, p) {
                        let j = choose|j: int| 0 <= j < k && (#[trigger] fin_all[j]).0 == p;
                        assert(byte_entry_ok(fin_all[j], nparts, args.field.data_type, args.field.nullable, args.batch_size as nat));
                    }
                }
                assert(e =~= rows);
                lemma_chunk_count_exact(rows.len(), m, count);
            }
        }
    }
    Ok(())
}

/// The arrays partition `q` got: those handed out while the batches were
/// added, and its last one once it is among the first `k` finished.
pub open spec fn fin_progress(log: Seq<(usize, Column)>, entries: Seq<(usize, Column)>, k: int, q: int) -> nat {
    emitted_count(log, q) + if finished_before(entries, k, q) {
        1nat
    } else {
        0nat
    }
}

/// Whether partition `q` is among the first `k` entries of `entries`.
pub open spec fn finished_before(entries: Seq<(usize, Column)>, k: int, q: int) -> bool {
    exists|j: int| 0 <= j < k && (#[trigger] entries[j]).0 == q
}

/// The rows of a partition per column, `cols`, fit a schema of `n` columns
/// whose column `c` is being split: one sequence per column, those up to
/// `c` equally long, and column `c`'s being `rows`.
pub open spec fn cols_fit(cols: Seq<Seq<Option<Seq<u8>>>>, n: nat, c: int, rows: Seq<Option<Seq<u8>>>) -> bool {
    &&& cols.len() == n
    &&& cols[c] == rows
    &&& forall|k: int| 0 <= k <= c ==> (#[trigger] cols[k]).len() == cols[0].len()
}

/// Fills the sink with one column of every batch, split into partitions;
/// refused for a column of a type no splitter handles.
fn fill_all_data_for_single_column_in_all_partitions(
    args: FillSingleSplitterArgs<'_>,
    ready_partitions_sink: &mut ShuffleEncodedSink,
    Ghost(all_cols): Ghost<Seq<Seq<Seq<Option<Seq<u8>>>>>>,
) -> (r: Result<(), ShuffleError>)
    requires
        old(ready_partitions_sink).wf(),
        args.number_of_partitions == old(ready_partitions_sink).num_partitions(),
        (args.column_index as int) < old(ready_partitions_sink).schema().len(),
        *args.field == old(ready_partitions_sink).schema()[args.column_index as int],
        all_cols.len() == args.number_of_partitions,
        args.field.data_type.spec_is_byte_type() ==> column_batches_ok(
            *args.field,
            args.column_in_all_batches@,
            args.indices@,
            args.number_of_partitions as nat,
            batch_limit(args.batch_size as nat),
        ),
        args.field.data_type.spec_is_byte_type() ==> forall|p: int|
            0 <= p < args.number_of_partitions ==> #[trigger] cols_fit(
                all_cols[p],
                old(ready_partitions_sink).schema().len(),
                args.column_index as int,
                gathered_rows(
                    args.column_in_all_batches@,
                    args.indices@,
                    p,
                    paired_len(args.column_in_all_batches@.len(), args.indices@.len()),
                ),
            ),
        forall|p: int| 0 <= p < args.number_of_partitions ==> #[trigger] partition_state(
            *old(ready_partitions_sink),
            p,
            all_cols[p],
            batch_limit(args.batch_size as nat),
            args.column_index as int,
            0,
        ),
    ensures
        !args.field.data_type.spec_is_byte_type() ==> {
            &&& r == Err::<(), ShuffleError>(
                ShuffleError::UnsupportedDataType { column_index: args.column_index, data_type: args.field.data_type },
            )
            &&& *final(ready_partitions_sink) == *old(ready_partitions_sink)
        },
        args.field.data_type.spec_is_byte_type() ==> {
            &&& r is Ok
            &&& final(ready_partitions_sink).wf()
            &&& final(ready_partitions_sink).schema() == old(ready_partitions_sink).schema()
            &&& final(ready_partitions_sink).num_partitions() == old(ready_partitions_sink).num_partitions()
            &&& forall|p: int| 0 <= p < args.number_of_partitions ==> #[trigger] partition_state(
                *final(ready_partitions_sink),
                p,
                all_cols[p],
                batch_limit(args.batch_size as nat),
                args.column_index as int,
                chunk_count(all_cols[p][0].len(), batch_limit(args.batch_size as nat)),
            )
        },
{
    match args.field.data_type {
        DataType::Utf8 => inner_fill_all_data_for_single_column_in_all_partitions(args, ready_partitions_sink, Ghost(all_cols)),
        DataType::LargeUtf8 => inner_fill_all_data_for_single_column_in_all_partitions(args, ready_partitions_sink, Ghost(all_cols)),
        DataType::Binary => inner_fill_all_data_for_single_column_in_all_partitions(args, ready_partitions_sink, Ghost(all_cols)),
        DataType::LargeBinary => inner_fill_all_data_for_single_column_in_all_partitions(args, ready_partitions_sink, Ghost(all_cols)),
        dt => Err(ShuffleError::UnsupportedDataType { column_index: args.column_index, data_type: dt }),
    }
}

/// What a shuffle takes.
pub struct ShuffleArgs<'a> {
    pub number_of_partitions: usize,
    pub batch_size: usize,
    pub schema: &'a Vec<Field>,
    /// `columns[c][b]` is column `c` of batch `b`.
    pub columns: &'a [Vec<Column>],
    /// `indices[b][i]` is the partition of row `i` of batch `b`.
    pub indices: &'a [Vec<u32>],
}

/// The rows of partition `p` in column `c`, over all batches.
pub open spec fn partition_column_rows(columns: Seq<Vec<Column>>, indices: Seq<Vec<u32>>, c: int, p: int) -> Seq<
    Option<Seq<u8>>,
> {
    gathered_rows(columns[c]@, indices, p, paired_len(columns[c]@.len(), indices.len()))
}

/// The rows of partition `p` in each column of the schema.
pub open spec fn partition_columns(args: ShuffleArgs, p: int) -> Seq<Seq<Option<Seq<u8>>>> {
    Seq::new(args.schema@.len(), |k: int| partition_column_rows(args.columns@, args.indices@, k, p))
}

/// The number of rows of partition `p`.
pub open spec fn partition_row_count(columns: Seq<Vec<Column>>, indices: Seq<Vec<u32>>, p: int) -> nat {
    partition_column_rows(columns, indices, 0, p).len()
}

/// The number of columns a shuffle splits: columns and fields are paired up.
pub open spec fn shuffled_columns(args: ShuffleArgs) -> nat {
    paired_len(args.columns@.len(), args.schema@.len())
}

/// The fields before column `c` all have a splitter.
pub open spec fn supported_before(schema: Seq<Field>, c: int) -> bool {
    forall|k: int| 0 <= k < c ==> (#[trigger] schema[k]).data_type.spec_is_byte_type()
}

/// The input of a shuffle is consistent: every column that is reached can
/// be split, and gives every partition as many rows as the first column
/// does.
pub open spec fn shuffle_args_ok(args: ShuffleArgs) -> bool {
    let m = shuffled_columns(args);
    &&& args.schema@.len() > 0
    &&& forall|c: int|
        0 <= c < m && #[trigger] supported_before(args.schema@, c + 1) ==> column_batches_ok(
            args.schema@[c],
            args.columns@[c]@,
            args.indices@,
            args.number_of_partitions as nat,
            batch_limit(args.batch_size as nat),
        )
    &&& forall|c: int, p: int|
        0 <= c < m && supported_before(args.schema@, c + 1) && 0 <= p < args.number_of_partitions ==> (
        #[trigger] partition_column_rows(args.columns@, args.indices@, c, p)).len() == partition_row_count(
            args.columns@,
            args.indices@,
            p,
        )
}

/// Splits every column of a sequence of batches into partitions and
/// assembles, for every partition, the batches of its rows.
///
/// Row `i` of batch `b` goes to partition `indices[b][i]`; the rows of a
/// partition keep their order, batch after batch. They are cut into arrays
/// of at most `batch_size` rows (one row when `batch_size` is 0): a
/// partition gets one batch per array, in order, each carrying the schema
/// and a column per field; one that gets no rows gets no batch. A column of
/// a type that no splitter handles is refused, with the first such column
/// named.
pub fn shuffle_by_splitters(args: ShuffleArgs<'_>) -> (r: Result<Vec<Vec<Batch>>, ShuffleError>)
    requires
        shuffle_args_ok(args),
    ensures
        match r {
            Err(e) => {
                &&& e matches ShuffleError::UnsupportedDataType { column_index, data_type } && {
                    &&& column_index < shuffled_columns(args)
                    &&& supported_before(args.schema@, column_index as int)
                    &&& !args.schema@[column_index as int].data_type.spec_is_byte_type()
                    &&& data_type == args.schema@[column_index as int].data_type
                }
            },
            Ok(out) => {
                &&& supported_before(args.schema@, shuffled_columns(args) as int)
                &&& out@.len() == args.number_of_partitions
                &&& forall|p: int| 0 <= p < args.number_of_partitions ==> if shuffled_columns(args) == args.schema@.len() {
                    &&& (#[trigger] out@[p])@.len() == chunk_count(
                        partition_row_count(args.columns@, args.indices@, p),
                        batch_limit(args.batch_size as nat),
                    )
                    &&& forall|i: int| 0 <= i < out@[p]@.len() ==> #[trigger] batch_holds_chunk(
                        out@[p]@[i],
                        partition_columns(args, p),
                        args.schema@,
                        batch_limit(args.batch_size as nat),
                        i,
                    )
                } else {
                    out@[p]@.len() == 0
                }
            },
        },
{
    let mut ready_partitions_sink = ShuffleEncodedSink::new(args.number_of_partitions, copy_schema(args.schema));
    let m = if args.columns.len() <= args.schema.len() {
        args.columns.len()
    } else {
        args.schema.len()
    };
    let ghost nparts = args.number_of_partitions as nat;
    let ghost lim = batch_limit(args.batch_size as nat);
    let ghost all_cols = Seq::new(nparts, |p: int| partition_columns(args, p));
    proof {
        assert forall|p: int| 0 <= p < nparts implies #[trigger] partition_state(
            ready_partitions_sink,
            p,
            all_cols[p],
            lim,
            0,
            0,
        ) by {
            assert(ready_partitions_sink.batches(p) == Seq::<Batch>::empty());
        }
    }
    let mut column_index: usize = 0;
    while column_index < m
        invariant
            shuffle_args_ok(args),
            m == shuffled_columns(args),
            column_index <= m,
            column_index < m || m == 0,
            supported_before(args.schema@, column_index as int),
            ready_partitions_sink.wf(),
            ready_partitions_sink.schema() == args.schema@,
            ready_partitions_sink.num_partitions() == nparts,
            nparts == args.number_of_partitions,
            lim == batch_limit(args.batch_size as nat),
            all_cols == Seq::new(nparts, |p: int| partition_columns(args, p)),
            forall|p: int| 0 <= p < nparts ==> #[trigger] partition_state(
                ready_partitions_sink,
                p,
                all_cols[p],
                lim,
                column_index as int,
                0,
            ),
        decreases m - column_index,
    {
        let ghost c = column_index as int;
        let ghost before = ready_partitions_sink;
        let field = &args.schema[column_index];
        let fill_args = FillSingleSplitterArgs {
            batch_size: args.batch_size,
            column_index,
            field,
            number_of_partitions: args.number_of_partitions,
            column_in_all_batches: args.columns[column_index].as_slice(),
            indices: args.indices,
        };
        let ghost fill_batches = fill_args.column_in_all_batches@;
        let ghost ga = fill_args;
        proof {
            assert(fill_batches == args.columns@[c]@);
            assert(*fill_args.field == args.schema@[c]);
            if field.data_type.spec_is_byte_type() {
                assert(supported_before(args.schema@, c + 1));
                assert(column_batches_ok(args.schema@[c], args.columns@[c]@, args.indices@, nparts, lim));
                assert forall|p: int| 0 <= p < nparts implies #[trigger] cols_fit(
                    all_cols[p],
                    args.schema@.len(),
                    c,
                    gathered_rows(fill_batches, args.indices@, p, paired_len(fill_batches.len(), args.indices@.len())),
                ) by {
                    assert forall|k: int| 0 <= k <= c implies (#[trigger] all_cols[p][k]).len() == all_cols[p][0].len() by {
                        assert(partition_column_rows(args.columns@, args.indices@, k, p).len() == partition_row_count(
                            args.columns@,
                            args.indices@,
                            p,
                        ));
                    }
                }
            }
        }
        let filled = fill_all_data_for_single_column_in_all_partitions(fill_args, &mut ready_partitions_sink, Ghost(all_cols));
        if filled.is_err() {
            return Err(filled.unwrap_err());
        }
        proof {
            assert(ga.column_index == column_index);
            assert(ga.batch_size == args.batch_size);
            assert forall|p: int| 0 <= p < nparts implies #[trigger] partition_state(
                ready_partitions_sink,
                p,
                all_cols[p],
                lim,
                c + 1,
                0,
            ) || c + 1 == m by {
                if c + 1 < m {
                    lemma_state_next_column(ready_partitions_sink, p, all_cols[p], lim, c);
                }
            }
        }
        if column_index + 1 == m {
            let output = ready_partitions_sink.into_inner();
            proof {
                assert forall|p: int| 0 <= p < args.number_of_partitions implies if shuffled_columns(args) == args.schema@.len() {
                    &&& (#[trigger] output@[p])@.len() == chunk_count(
                        partition_row_count(args.columns@, args.indices@, p),
                        batch_limit(args.batch_size as nat),
                    )
                    &&& forall|i: int| 0 <= i < output@[p]@.len() ==> #[trigger] batch_holds_chunk(
                        output@[p]@[i],
                        partition_columns(args, p),
                        args.schema@,
                        batch_limit(args.batch_size as nat),
                        i,
                    )
                } else {
                    output@[p]@.len() == 0
                } by {
                    assert(partition_state(
                        ready_partitions_sink,
                        p,
                        all_cols[p],
                        lim,
                        c,
                        chunk_count(all_cols[p][0].len(), lim),
                    ));
                    assert(all_cols[p] == partition_columns(args, p));
                }
                assert(supported_before(args.schema@, c + 1));
            }
            return Ok(output);
        }
        column_index = column_index + 1;
    }
    let output = ready_partitions_sink.into_inner();
    proof {
        assert forall|p: int| 0 <= p < args.number_of_partitions implies (#[trigger] output@[p])@.len() == 0 by {
            assert(partition_state(ready_partitions_sink, p, all_cols[p], lim, column_index as int, 0));
        }
    }
    Ok(output)
}

} // verus!
