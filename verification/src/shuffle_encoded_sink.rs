//! Builds the batches of every partition from columns that arrive already
//! split into partitions, column after column.
use crate::arrow_batches_sink::ArrowBatchesSink;
use crate::batch::{batch_error, Batch, ShuffleError};
use crate::column::{Column, Field};
use std::collections::VecDeque;
use vstd::prelude::*;

verus! {

/// The columns of one partition that wait for their turn.
///
/// Columns arrive in the order of the schema: all the arrays of column 0,
/// then all those of column 1, and so on. The first array of each column is
/// written right away (completing the batch when it is the last column);
/// the arrays after it wait here until the last column's array that
/// completes the batch before them arrives.
struct PendingPartition {
    /// `columns[c]` holds the waiting arrays of column `c`; the last column
    /// never waits.
    columns: Vec<VecDeque<Column>>,
    /// The column whose array is written next.
    next_column_index_to_write_to_shuffle: usize,
    /// How many columns the schema has.
    number_of_columns: usize,
}

impl PendingPartition {
    closed spec fn buffered(&self) -> Seq<Seq<Column>> {
        self.columns@.map_values(|q: VecDeque<Column>| q@)
    }

    closed spec fn next(&self) -> nat {
        self.next_column_index_to_write_to_shuffle as nat
    }

    closed spec fn n(&self) -> nat {
        self.number_of_columns as nat
    }

    closed spec fn wf(&self) -> bool {
        &&& self.number_of_columns > 0
        &&& self.columns@.len() == self.number_of_columns - 1
        &&& self.next_column_index_to_write_to_shuffle < self.number_of_columns
        &&& forall|c: int, k: int| 0 <= c < self.buffered().len() && 0 <= k < self.buffered()[c].len() ==> (
        #[trigger] self.buffered()[c][k]).wf()
    }

    /// The partition and its writer agree: the writer holds exactly the
    /// columns written for the batch in progress, and knows its number of
    /// rows once one is written.
    closed spec fn synced(&self, writer: ArrowBatchesSink) -> bool {
        &&& self.wf()
        &&& writer.schema().len() == self.number_of_columns
        &&& writer.columns().len() == self.next_column_index_to_write_to_shuffle
        &&& (writer.number_of_rows() is Some <==> self.next_column_index_to_write_to_shuffle > 0)
        &&& forall|i: int| 0 <= i < writer.columns().len() ==> (#[trigger] writer.columns()[i]).wf()
    }

    fn new(number_of_columns: usize) -> (r: Self)
        requires
            number_of_columns != 0,
        ensures
            r.wf(),
            r.n() == number_of_columns,
            r.next() == 0,
            r.buffered() == Seq::new((number_of_columns - 1) as nat, |c: int| Seq::<Column>::empty()),
    {
        let mut columns: Vec<VecDeque<Column>> = Vec::new();
        let mut i: usize = 0;
        while i < number_of_columns - 1
            invariant
                i <= number_of_columns - 1,
                columns@.len() == i,
                forall|c: int| 0 <= c < i ==> (#[trigger] columns@[c])@ == Seq::<Column>::empty(),
            decreases number_of_columns - 1 - i,
        {
            columns.push(VecDeque::new());
            i = i + 1;
        }
        let r = PendingPartition { number_of_columns, columns, next_column_index_to_write_to_shuffle: 0 };
        assert(r.buffered() =~= Seq::new((number_of_columns - 1) as nat, |c: int| Seq::<Column>::empty()));
        r
    }

    fn should_write_column(&self, column_index: usize) -> (r: bool)
        ensures
            r == (self.next() == column_index),
    {
        self.next_column_index_to_write_to_shuffle == column_index
    }

    fn advance_for_next_column(&mut self)
        requires
            old(self).wf(),
        ensures
            final(self).wf(),
            final(self).columns == old(self).columns,
            final(self).number_of_columns == old(self).number_of_columns,
            final(self).next() as int == ((old(self).next() as int) + 1) % (old(self).n() as int),
            final(self).next() == if old(self).next() + 1 == old(self).n() {
                0
            } else {
                old(self).next() + 1
            },
    {
        let ghost before = self.buffered();
        let x = self.next_column_index_to_write_to_shuffle + 1;
        let n = self.number_of_columns;
        proof {
            assert(x % n < n && x % n == (if x == n { 0 } else { x })) by (nonlinear_arith)
                requires
                    n > 0,
                    0 < x <= n,
            ;
        }
        self.next_column_index_to_write_to_shuffle = x % n;
        proof {
            assert(self.buffered() =~= before);
        }
    }

    /// Adds an array of a column other than the last: it is written when it
    /// is that column's turn, and waits otherwise.
    fn add_column(&mut self, column_index: usize, array: Column, shuffle_writer: &mut ArrowBatchesSink) -> (r: Result<
        (),
        ShuffleError,
    >)
        requires
            old(self).synced(*old(shuffle_writer)),
            array.wf(),
            column_index != old(self).n() - 1,
            column_index == old(self).next() || column_index + 1 == old(self).next(),
            column_index == old(self).next() && column_index >= 2 ==> old(self).buffered()[column_index - 1].len()
                == old(self).buffered()[column_index - 2].len(),
        ensures
            r is Ok,
            final(self).synced(*final(shuffle_writer)),
            final(self).n() == old(self).n(),
            final(shuffle_writer).schema() == old(shuffle_writer).schema(),
            final(shuffle_writer).ready() == old(shuffle_writer).ready(),
            if column_index == old(self).next() {
                &&& final(self).buffered() == old(self).buffered()
                &&& final(self).next() == column_index + 1
                &&& final(shuffle_writer).columns() == old(shuffle_writer).columns().push(array)
                &&& final(shuffle_writer).number_of_rows() == if column_index == 0 {
                    Some(array.spec_len() as usize)
                } else {
                    old(shuffle_writer).number_of_rows()
                }
            } else {
                &&& final(self).buffered() == old(self).buffered().update(
                    column_index as int,
                    old(self).buffered()[column_index as int].push(array),
                )
                &&& final(self).next() == old(self).next()
                &&& final(shuffle_writer).columns() == old(shuffle_writer).columns()
                &&& final(shuffle_writer).number_of_rows() == old(shuffle_writer).number_of_rows()
            },
    {
        if column_index == 0 && self.next_column_index_to_write_to_shuffle == 0 {
            let started = shuffle_writer.start_batch(array.len());
            if started.is_err() {
                return started;
            }
        }
        if !self.should_write_column(column_index) {
            let ghost before = self.buffered();
            self.columns[column_index].push_back(array);
            proof {
                assert(self.buffered() =~= before.update(column_index as int, before[column_index as int].push(array)));
                assert forall|c: int, k: int| 0 <= c < self.buffered().len() && 0 <= k < self.buffered()[c].len() implies (
                #[trigger] self.buffered()[c][k]).wf() by {
                    if c != column_index || k < before[c].len() {
                        assert(self.buffered()[c][k] == before[c][k]);
                    }
                }
            }
            return Ok(());
        }
        let written = shuffle_writer.write_column(column_index, array);
        if written.is_err() {
            return written;
        }
        self.advance_for_next_column();
        Ok(())
    }

    /// Adds the array of the last column, which completes the batch in
    /// progress; then, if arrays wait, starts the next batch and writes the
    /// first waiting array of every other column to it.
    fn finish_with_last_column(&mut self, last_column_array: Column, shuffle_writer: &mut ArrowBatchesSink) -> (r: Result<
        (),
        ShuffleError,
    >)
        requires
            old(self).synced(*old(shuffle_writer)),
            last_column_array.wf(),
            old(self).next() == old(self).n() - 1,
            old(self).n() > 1 && old(self).buffered()[0].len() > 0 ==> forall|c: int|
                0 <= c < old(self).n() - 1 ==> (#[trigger] old(self).buffered()[c]).len() > 0,
        ensures
            final(self).n() == old(self).n(),
            final(shuffle_writer).schema() == old(shuffle_writer).schema(),
            ({
                let columns = old(shuffle_writer).columns().push(last_column_array);
                let rows = if old(self).n() == 1 {
                    last_column_array.spec_len() as usize
                } else {
                    old(shuffle_writer).number_of_rows()->0
                };
                match batch_error(old(shuffle_writer).schema(), columns, rows as nat) {
                    Some(e) => r == Err::<(), ShuffleError>(e),
                    None => {
                        &&& r is Ok
                        &&& final(self).synced(*final(shuffle_writer))
                        &&& final(shuffle_writer).ready().len() == old(shuffle_writer).ready().len() + 1
                        &&& final(shuffle_writer).ready().subrange(0, old(shuffle_writer).ready().len() as int)
                            == old(shuffle_writer).ready()
                        &&& final(shuffle_writer).ready().last().num_rows == rows
                        &&& final(shuffle_writer).ready().last().columns@ == columns
                        &&& final(shuffle_writer).ready().last().schema@ == old(shuffle_writer).schema()
                        &&& if old(self).n() > 1 && old(self).buffered()[0].len() > 0 {
                            &&& final(self).next() == old(self).n() - 1
                            &&& final(self).buffered() == old(self).buffered().map_values(|q: Seq<Column>| q.drop_first())
                            &&& final(shuffle_writer).columns() == old(self).buffered().map_values(|q: Seq<Column>| q[0])
                            &&& final(shuffle_writer).number_of_rows() == Some(old(self).buffered()[0][0].spec_len() as usize)
                        } else {
                            &&& final(self).next() == 0
                            &&& final(self).buffered() == old(self).buffered()
                            &&& final(shuffle_writer).columns() == Seq::<Column>::empty()
                            &&& final(shuffle_writer).number_of_rows() is None
                        }
                    },
                }
            }),
    {
        if self.number_of_columns == 1 {
            let started = shuffle_writer.start_batch(last_column_array.len());
            if started.is_err() {
                return started;
            }
        }
        let last_column_index = self.number_of_columns - 1;
        let written = shuffle_writer.write_column(last_column_index, last_column_array);
        if written.is_err() {
            return written;
        }
        self.advance_for_next_column();
        if self.number_of_columns == 1 {
            return Ok(());
        }
        if self.columns[0].len() == 0 {
            return Ok(());
        }
        let ghost old_buffered = self.buffered();
        let ghost ready_after = shuffle_writer.ready();
        let first_rows = self.columns[0][0].len();
        let started = shuffle_writer.start_batch(first_rows);
        if started.is_err() {
            return started;
        }
        while self.next_column_index_to_write_to_shuffle < last_column_index
            invariant
                self.wf(),
                self.number_of_columns == old(self).number_of_columns,
                last_column_index == self.number_of_columns - 1,
                self.next() <= last_column_index,
                old_buffered.len() == last_column_index,
                forall|c: int| 0 <= c < last_column_index ==> (#[trigger] old_buffered[c]).len() > 0,
                forall|c: int, k: int| 0 <= c < old_buffered.len() && 0 <= k < old_buffered[c].len() ==> (
                #[trigger] old_buffered[c][k]).wf(),
                self.buffered().len() == last_column_index,
                forall|c: int| 0 <= c < self.next() ==> #[trigger] self.buffered()[c] == old_buffered[c].drop_first(),
                forall|c: int| self.next() <= c < last_column_index ==> #[trigger] self.buffered()[c] == old_buffered[c],
                shuffle_writer.schema().len() == self.number_of_columns,
                shuffle_writer.columns().len() == self.next(),
                forall|c: int| 0 <= c < self.next() ==> #[trigger] shuffle_writer.columns()[c] == old_buffered[c][0],
                shuffle_writer.number_of_rows() == Some(first_rows),
                first_rows == old_buffered[0][0].spec_len(),
                shuffle_writer.ready() == ready_after,
                shuffle_writer.schema() == old(shuffle_writer).schema(),
            decreases last_column_index - self.next(),
        {
            let next = self.next_column_index_to_write_to_shuffle;
            let ghost before = self.buffered();
            proof {
                assert(self.columns@[next as int]@ == self.buffered()[next as int]);
                assert(self.buffered()[next as int] == old_buffered[next as int]);
            }
            let col = self.columns[next].pop_front().unwrap();
            proof {
                assert(col == old_buffered[next as int][0]);
                assert(self.buffered() =~= before.update(next as int, old_buffered[next as int].drop_first()));
            }
            let written = shuffle_writer.write_column(next, col);
            if written.is_err() {
                return written;
            }
            self.advance_for_next_column();
            proof {
                assert forall|c: int, k: int| 0 <= c < self.buffered().len() && 0 <= k < self.buffered()[c].len() implies (
                #[trigger] self.buffered()[c][k]).wf() by {
                    if c == next {
                        assert(self.buffered()[c][k] == old_buffered[c][k + 1]);
                    } else if c < next {
                        assert(self.buffered()[c][k] == old_buffered[c][k + 1]);
                    } else {
                        assert(self.buffered()[c][k] == old_buffered[c][k]);
                    }
                }
            }
        }
        proof {
            assert(self.buffered() =~= old_buffered.map_values(|q: Seq<Column>| q.drop_first()));
            assert(shuffle_writer.columns() =~= old_buffered.map_values(|q: Seq<Column>| q[0]));
        }
        Ok(())
    }
}

/// Adds columns that are already split into partitions, and builds the
/// batches of every partition from them.
pub struct ShuffleEncodedSink {
    pending_columns_per_partitions: Vec<PendingPartition>,
    shuffle_writer_per_partition: Vec<ArrowBatchesSink>,
    schema: Vec<Field>,
}

impl ShuffleEncodedSink {
    pub closed spec fn num_partitions(&self) -> nat {
        self.pending_columns_per_partitions@.len()
    }

    pub closed spec fn schema(&self) -> Seq<Field> {
        self.schema@
    }

    /// The batches completed for partition `p`.
    pub closed spec fn batches(&self, p: int) -> Seq<Batch> {
        self.shuffle_writer_per_partition@[p].ready()
    }

    /// The column of partition `p` whose array is written next.
    pub closed spec fn next_column(&self, p: int) -> nat {
        self.pending_columns_per_partitions@[p].next()
    }

    /// The arrays of partition `p` that wait, per column.
    pub closed spec fn waiting(&self, p: int) -> Seq<Seq<Column>> {
        self.pending_columns_per_partitions@[p].buffered()
    }

    /// The columns written for the batch in progress of partition `p`.
    pub closed spec fn in_progress(&self, p: int) -> Seq<Column> {
        self.shuffle_writer_per_partition@[p].columns()
    }

    /// The number of rows of the batch in progress of partition `p`.
    pub closed spec fn rows_in_progress(&self, p: int) -> Option<usize> {
        self.shuffle_writer_per_partition@[p].number_of_rows()
    }

    pub closed spec fn wf(&self) -> bool {
        &&& self.schema@.len() > 0
        &&& self.shuffle_writer_per_partition@.len() == self.pending_columns_per_partitions@.len()
        &&& forall|p: int| 0 <= p < self.pending_columns_per_partitions@.len() ==> {
            &&& (#[trigger] self.pending_columns_per_partitions@[p]).synced(self.shuffle_writer_per_partition@[p])
            &&& self.pending_columns_per_partitions@[p].n() == self.schema@.len()
            &&& self.shuffle_writer_per_partition@[p].schema() == self.schema@
        }
    }

    /// A sink for `number_of_partitions` partitions, with nothing written.
    pub fn new(number_of_partitions: usize, schema: Vec<Field>) -> (r: Self)
        requires
            schema@.len() > 0,
        ensures
            r.wf(),
            r.num_partitions() == number_of_partitions,
            r.schema() == schema@,
            forall|p: int| 0 <= p < number_of_partitions ==> {
                &&& #[trigger] r.batches(p) == Seq::<Batch>::empty()
                &&& r.next_column(p) == 0
                &&& r.waiting(p) == Seq::new((schema@.len() - 1) as nat, |c: int| Seq::<Column>::empty())
                &&& r.in_progress(p) == Seq::<Column>::empty()
                &&& r.rows_in_progress(p) is None
            },
    {
        let mut pending_columns_per_partitions: Vec<PendingPartition> = Vec::new();
        let mut shuffle_writer_per_partition: Vec<ArrowBatchesSink> = Vec::new();
        let mut i: usize = 0;
        while i < number_of_partitions
            invariant
                i <= number_of_partitions,
                schema@.len() > 0,
                pending_columns_per_partitions@.len() == i,
                shuffle_writer_per_partition@.len() == i,
                forall|p: int| 0 <= p < i ==> {
                    &&& (#[trigger] pending_columns_per_partitions@[p]).synced(shuffle_writer_per_partition@[p])
                    &&& pending_columns_per_partitions@[p].n() == schema@.len()
                    &&& pending_columns_per_partitions@[p].next() == 0
                    &&& pending_columns_per_partitions@[p].buffered() == Seq::new((schema@.len() - 1) as nat, |c: int| Seq::<Column>::empty())
                    &&& shuffle_writer_per_partition@[p].schema() == schema@
                    &&& shuffle_writer_per_partition@[p].ready() == Seq::<Batch>::empty()
                    &&& shuffle_writer_per_partition@[p].columns() == Seq::<Column>::empty()
                    &&& shuffle_writer_per_partition@[p].number_of_rows() is None
                },
            decreases number_of_partitions - i,
        {
            pending_columns_per_partitions.push(PendingPartition::new(schema.len()));
            shuffle_writer_per_partition.push(ArrowBatchesSink::new(&schema));
            i = i + 1;
        }
        let r = ShuffleEncodedSink { pending_columns_per_partitions, shuffle_writer_per_partition, schema };
        assert forall|p: int| 0 <= p < number_of_partitions implies {
            &&& #[trigger] r.batches(p) == Seq::<Batch>::empty()
            &&& r.next_column(p) == 0
            &&& r.waiting(p) == Seq::new((schema@.len() - 1) as nat, |c: int| Seq::<Column>::empty())
            &&& r.in_progress(p) == Seq::<Column>::empty()
            &&& r.rows_in_progress(p) is None
        } by {
            assert(r.pending_columns_per_partitions@[p].synced(r.shuffle_writer_per_partition@[p]));
        }
        r
    }

    /// The batches of every partition.
    pub fn into_inner(self) -> (r: Vec<Vec<Batch>>)
        requires
            self.wf(),
        ensures
            r@.len() == self.num_partitions(),
            forall|p: int| 0 <= p < r@.len() ==> (#[trigger] r@[p])@ == self.batches(p),
    {
        let ShuffleEncodedSink { pending_columns_per_partitions, shuffle_writer_per_partition, schema } = self;
        let mut writers = shuffle_writer_per_partition;
        let ghost all = writers@;
        let mut r: Vec<Vec<Batch>> = Vec::new();
        let mut i: usize = 0;
        let n = writers.len();
        while i < n
            invariant
                n == all.len(),
                i <= n,
                writers@ == all.subrange(i as int, n as int),
                r@.len() == i,
                forall|p: int| 0 <= p < i ==> (#[trigger] r@[p])@ == all[p].ready(),
            decreases n - i,
        {
            let writer = writers.remove(0);
            r.push(writer.finish());
            proof {
                assert(writers@ =~= all.subrange(i + 1, n as int));
            }
            i = i + 1;
        }
        r
    }

    /// Whether partition `p` can take an array of column `c` now: an array
    /// of the last column completes a batch, so every other column must have
    /// been written; any other array is written in turn or waits behind the
    /// array of its column that was just written.
    pub open spec fn accepts(&self, c: int, p: int) -> bool {
        let n = self.schema().len();
        &&& 0 <= p < self.num_partitions()
        &&& 0 <= c < n
        &&& if c == n - 1 {
            &&& self.next_column(p) == n - 1
            &&& n > 1 && self.waiting(p)[0].len() > 0 ==> forall|k: int|
                0 <= k < n - 1 ==> (#[trigger] self.waiting(p)[k]).len() > 0
        } else {
            &&& c == self.next_column(p) || c + 1 == self.next_column(p)
            &&& c == self.next_column(p) && c >= 2 ==> self.waiting(p)[c - 1].len() == self.waiting(p)[c - 2].len()
        }
    }

    /// Adds the array of column `column_index` for partition `partition_index`.
    pub fn add_column_to_partition(&mut self, column_index: usize, partition_index: usize, array: Column) -> (r: Result<
        (),
        ShuffleError,
    >)
        requires
            old(self).wf(),
            array.wf(),
            array.spec_len() != 0,
            old(self).accepts(column_index as int, partition_index as int),
        ensures
            column_added_to(*old(self), *final(self), column_index as int, partition_index as int, array, r),
    {
        let ghost p = partition_index as int;
        proof {
            assert(self.pending_columns_per_partitions@[p].synced(self.shuffle_writer_per_partition@[p]));
            assert(self.pending_columns_per_partitions@[p].buffered() == self.waiting(p));
        }
        let last = self.schema.len() - 1;
        let current_partition = &mut self.pending_columns_per_partitions[partition_index];
        let shuffle_writer = &mut self.shuffle_writer_per_partition[partition_index];
        let r = if column_index == last {
            current_partition.finish_with_last_column(array, shuffle_writer)
        } else {
            current_partition.add_column(column_index, array, shuffle_writer)
        };
        proof {
            assert forall|q: int| 0 <= q < old(self).num_partitions() && q != partition_index implies {
                &&& #[trigger] self.batches(q) == old(self).batches(q)
                &&& self.next_column(q) == old(self).next_column(q)
                &&& self.waiting(q) == old(self).waiting(q)
                &&& self.in_progress(q) == old(self).in_progress(q)
                &&& self.rows_in_progress(q) == old(self).rows_in_progress(q)
            } by {
                assert(self.pending_columns_per_partitions@[q] == old(self).pending_columns_per_partitions@[q]);
                assert(self.shuffle_writer_per_partition@[q] == old(self).shuffle_writer_per_partition@[q]);
            }
            if r is Ok {
                assert forall|q: int| 0 <= q < self.pending_columns_per_partitions@.len() implies {
                    &&& (#[trigger] self.pending_columns_per_partitions@[q]).synced(self.shuffle_writer_per_partition@[q])
                    &&& self.pending_columns_per_partitions@[q].n() == self.schema@.len()
                    &&& self.shuffle_writer_per_partition@[q].schema() == self.schema@
                } by {
                    if q != p {
                        assert(self.pending_columns_per_partitions@[q] == old(self).pending_columns_per_partitions@[q]);
                        assert(self.shuffle_writer_per_partition@[q] == old(self).shuffle_writer_per_partition@[q]);
                    }
                }
            }
        }
        r
    }
}

/// What a call `add_column_to_partition(c, p, array)` that answers `r` does
/// to a sink: `before` is the sink before the call, `after` the sink after it.
pub open spec fn column_added_to(
    before: ShuffleEncodedSink,
    after: ShuffleEncodedSink,
    c: int,
    p: int,
    array: Column,
    r: Result<(), ShuffleError>,
) -> bool {
    let n = before.schema().len();
    &&& after.num_partitions() == before.num_partitions()
    &&& after.schema() == before.schema()
    &&& forall|q: int| 0 <= q < before.num_partitions() && q != p ==> {
        &&& #[trigger] after.batches(q) == before.batches(q)
        &&& after.next_column(q) == before.next_column(q)
        &&& after.waiting(q) == before.waiting(q)
        &&& after.in_progress(q) == before.in_progress(q)
        &&& after.rows_in_progress(q) == before.rows_in_progress(q)
    }
    &&& if c == n - 1 {
        let columns = before.in_progress(p).push(array);
        let rows = if n == 1 { array.spec_len() as usize } else { before.rows_in_progress(p)->0 };
        match batch_error(before.schema(), columns, rows as nat) {
            Some(e) => r == Err::<(), ShuffleError>(e),
            None => {
                &&& r is Ok
                &&& after.wf()
                &&& after.batches(p).len() == before.batches(p).len() + 1
                &&& after.batches(p).subrange(0, before.batches(p).len() as int) == before.batches(p)
                &&& after.batches(p).last().num_rows == rows
                &&& after.batches(p).last().columns@ == columns
                &&& after.batches(p).last().schema@ == before.schema()
                &&& if n > 1 && before.waiting(p)[0].len() > 0 {
                    &&& after.next_column(p) == n - 1
                    &&& after.waiting(p) == before.waiting(p).map_values(|q: Seq<Column>| q.drop_first())
                    &&& after.in_progress(p) == before.waiting(p).map_values(|q: Seq<Column>| q[0])
                    &&& after.rows_in_progress(p) == Some(before.waiting(p)[0][0].spec_len() as usize)
                } else {
                    &&& after.next_column(p) == 0
                    &&& after.waiting(p) == before.waiting(p)
                    &&& after.in_progress(p) == Seq::<Column>::empty()
                    &&& after.rows_in_progress(p) is None
                }
            },
        }
    } else {
        &&& r is Ok
        &&& after.wf()
        &&& after.batches(p) == before.batches(p)
        &&& if c == before.next_column(p) {
            &&& after.waiting(p) == before.waiting(p)
            &&& after.next_column(p) == c + 1
            &&& after.in_progress(p) == before.in_progress(p).push(array)
            &&& after.rows_in_progress(p) == if c == 0 {
                Some(array.spec_len() as usize)
            } else {
                before.rows_in_progress(p)
            }
        } else {
            &&& after.waiting(p) == before.waiting(p).update(
                c,
                before.waiting(p)[c].push(array),
            )
            &&& after.next_column(p) == before.next_column(p)
            &&& after.in_progress(p) == before.in_progress(p)
            &&& after.rows_in_progress(p) == before.rows_in_progress(p)
        }
    }
}

/// What partition `p` of a sink holds, with the sink's number of partitions
/// and schema: calls for other partitions leave it as it is.
pub open spec fn partition_state(s: ShuffleEncodedSink, p: int) -> (
    nat,
    Seq<Field>,
    Seq<Batch>,
    nat,
    Seq<Seq<Column>>,
    Seq<Column>,
    Option<usize>,
) {
    (s.num_partitions(), s.schema(), s.batches(p), s.next_column(p), s.waiting(p), s.in_progress(p), s.rows_in_progress(p))
}

/// `n` columns with no array waiting.
pub open spec fn no_waiting(n: nat) -> Seq<Seq<Column>> {
    Seq::new(n, |c: int| Seq::<Column>::empty())
}

/// Partition `p` has no batch in progress and no array waiting.
pub open spec fn partition_idle(s: ShuffleEncodedSink, p: int) -> bool {
    &&& s.next_column(p) == 0
    &&& s.waiting(p) == no_waiting((s.schema().len() - 1) as nat)
    &&& s.in_progress(p) == Seq::<Column>::empty()
    &&& s.rows_in_progress(p) is None
}

/// A call of `add_column_to_partition(c, p, array)` took the sink from
/// `before` to `after` and answered `Ok`: what its contract says of such a
/// call.
pub open spec fn added_ok(before: ShuffleEncodedSink, after: ShuffleEncodedSink, c: int, p: int, array: Column) -> bool {
    before.wf() && array.wf() && array.spec_len() != 0 && before.accepts(c, p) ==> column_added_to(
        before,
        after,
        c,
        p,
        array,
        Ok(()),
    )
}

/// `b` is the batch of row group `j`: the arrays `arrays[0][j]`, ...,
/// `arrays[k - 1][j]` in column order, with their number of rows and the
/// schema.
pub open spec fn assembled_batch(b: Batch, arrays: Seq<Seq<Column>>, j: int, schema: Seq<Field>) -> bool {
    &&& b.num_rows == arrays[0][j].spec_len()
    &&& b.columns@ == row_group(arrays, arrays.len() as int, j)
    &&& b.schema@ == schema
}

/// Partition `p` holds `b0` and then the batches of row groups `0..j`.
pub open spec fn holds_groups(s: ShuffleEncodedSink, p: int, b0: Seq<Batch>, arrays: Seq<Seq<Column>>, j: int) -> bool {
    &&& s.batches(p).len() == b0.len() + j
    &&& s.batches(p).subrange(0, b0.len() as int) == b0
    &&& forall|i: int| 0 <= i < j ==> #[trigger] assembled_batch(s.batches(p)[b0.len() + i], arrays, i, s.schema())
}

/// The arrays `arrays[0][j]`, ..., `arrays[w - 1][j]`.
pub open spec fn row_group(arrays: Seq<Seq<Column>>, w: int, j: int) -> Seq<Column> {
    Seq::new(w as nat, |x: int| arrays[x][j])
}

/// What waits, per column other than the last, before the call that takes
/// `arrays[c][j]` of a column `c` other than the last.
spec fn waiting_while_columns_arrive(arrays: Seq<Seq<Column>>, c: int, j: int) -> Seq<Seq<Column>> {
    Seq::new(
        (arrays.len() - 1) as nat,
        |x: int|
            if x < c {
                arrays[x].drop_first()
            } else if x == c && j > 0 {
                arrays[c].subrange(1, j)
            } else {
                Seq::<Column>::empty()
            },
    )
}

/// What waits, per column other than the last, before the call that takes
/// `arrays[k - 1][j]` of the last column.
spec fn waiting_while_last_column_arrives(arrays: Seq<Seq<Column>>, j: int, m: int) -> Seq<Seq<Column>> {
    Seq::new((arrays.len() - 1) as nat, |x: int| arrays[x].subrange(j + 1, m))
}

/// The state of partition `p` before the call that takes `arrays[c][j]`
/// (or, for `j == m`, after the last call of column `c`), when the columns
/// arrive in order.
spec fn expected_state(s: ShuffleEncodedSink, p: int, b0: Seq<Batch>, arrays: Seq<Seq<Column>>, m: int, c: int, j: int) -> bool {
    let k = arrays.len() as int;
    if c < k - 1 {
        let w = if j > 0 { c + 1 } else { c };
        &&& s.batches(p) == b0
        &&& s.next_column(p) == w
        &&& s.in_progress(p) == row_group(arrays, w, 0)
        &&& s.rows_in_progress(p) == if w == 0 { None } else { Some(arrays[0][0].spec_len() as usize) }
        &&& s.waiting(p) == waiting_while_columns_arrive(arrays, c, j)
    } else {
        &&& holds_groups(s, p, b0, arrays, j)
        &&& if j < m {
            &&& s.next_column(p) == k - 1
            &&& s.in_progress(p) == row_group(arrays, k - 1, j)
            &&& s.rows_in_progress(p) == if k == 1 { None } else { Some(arrays[0][j].spec_len() as usize) }
            &&& s.waiting(p) == waiting_while_last_column_arrives(arrays, j, m)
        } else {
            partition_idle(s, p)
        }
    }
}

/// The call for `arrays[c][j]` in the expected state is accepted, and leads
/// to the expected state after it.
proof fn lemma_expected_step(
    before: ShuffleEncodedSink,
    after: ShuffleEncodedSink,
    p: int,
    b0: Seq<Batch>,
    arrays: Seq<Seq<Column>>,
    m: int,
    c: int,
    j: int,
)
    requires
        before.wf(),
        0 <= p < before.num_partitions(),
        arrays.len() == before.schema().len(),
        0 <= c < arrays.len(),
        0 <= j < m,
        forall|x: int| 0 <= x < arrays.len() ==> (#[trigger] arrays[x]).len() == m,
        arrays[c][j].wf(),
        arrays[c][j].spec_len() != 0,
        expected_state(before, p, b0, arrays, m, c, j),
        added_ok(before, after, c, p, arrays[c][j]),
    ensures
        before.accepts(c, p),
        after.schema() == before.schema(),
        after.num_partitions() == before.num_partitions(),
        after.wf(),
        expected_state(after, p, b0, arrays, m, c, j + 1),
{
    let k = arrays.len() as int;
    let a = arrays[c][j];
    if c < k - 1 {
        if j == 0 && c >= 2 {
            assert(before.waiting(p)[c - 1] == arrays[c - 1].drop_first());
            assert(before.waiting(p)[c - 2] == arrays[c - 2].drop_first());
        }
        assert(before.accepts(c, p));
        assert(column_added_to(before, after, c, p, a, Ok(())));
        if j == 0 {
            assert(after.in_progress(p) =~= row_group(arrays, c + 1, 0));
            assert(after.waiting(p) =~~= waiting_while_columns_arrive(arrays, c, j + 1));
        } else {
            assert(after.waiting(p) =~~= waiting_while_columns_arrive(arrays, c, j + 1));
        }
    } else {
        if k > 1 && before.waiting(p)[0].len() > 0 {
            assert forall|x: int| 0 <= x < k - 1 implies (#[trigger] before.waiting(p)[x]).len() > 0 by {
                assert(before.waiting(p)[x] == arrays[x].subrange(j + 1, m));
            }
        }
        assert(before.accepts(c, p));
        assert(column_added_to(before, after, c, p, a, Ok(())));
        let columns = before.in_progress(p).push(a);
        assert(columns =~= row_group(arrays, k, j));
        let rows = if k == 1 { a.spec_len() as usize } else { before.rows_in_progress(p)->0 };
        assert(batch_error(before.schema(), columns, rows as nat) is None);
        assert(columns[0] == arrays[0][j]);
        assert(columns[0].spec_len() == rows as nat);
        let n0 = b0.len() as int;
        assert(after.batches(p).subrange(0, n0) =~= b0) by {
            assert forall|i: int| 0 <= i < n0 implies after.batches(p)[i] == b0[i] by {
                assert(after.batches(p)[i] == after.batches(p).subrange(0, before.batches(p).len() as int)[i]);
                assert(before.batches(p)[i] == before.batches(p).subrange(0, n0)[i]);
            }
        }
        assert forall|i: int| 0 <= i < j + 1 implies #[trigger] assembled_batch(
            after.batches(p)[n0 + i],
            arrays,
            i,
            after.schema(),
        ) by {
            if i < j {
                assert(after.batches(p)[n0 + i] == after.batches(p).subrange(0, before.batches(p).len() as int)[n0 + i]);
                assert(assembled_batch(before.batches(p)[n0 + i], arrays, i, before.schema()));
            } else {
                assert(after.batches(p)[n0 + i] == after.batches(p).last());
            }
        }
        if j + 1 < m {
            if k > 1 {
                assert(before.waiting(p)[0].len() > 0);
                assert(after.waiting(p) =~~= waiting_while_last_column_arrives(arrays, j + 1, m));
                assert(after.in_progress(p) =~= row_group(arrays, k - 1, j + 1));
            } else {
                assert(after.waiting(p) =~~= waiting_while_last_column_arrives(arrays, j + 1, m));
                assert(after.in_progress(p) =~= row_group(arrays, k - 1, j + 1));
            }
        } else {
            if k > 1 {
                assert(before.waiting(p)[0].len() == 0);
            }
            assert(after.waiting(p) =~~= no_waiting((k - 1) as nat));
        }
    }
}


/// `befores[c][j]` and `afters[c][j]` are the sink just before and just
/// after the call that gives partition `p` the array `arrays[c][j]`, and
/// every such call answers `Ok`. The partition starts with nothing in
/// progress and takes the `m` arrays of each column in turn, in the order of
/// the schema; between two of its calls it is left as it is, though calls
/// for other partitions may come in between.
pub open spec fn calls_in_column_order(
    befores: Seq<Seq<ShuffleEncodedSink>>,
    afters: Seq<Seq<ShuffleEncodedSink>>,
    p: int,
    arrays: Seq<Seq<Column>>,
    m: int,
) -> bool {
    let k = arrays.len() as int;
    &&& m > 0
    &&& k > 0
    &&& befores.len() == k
    &&& afters.len() == k
    &&& befores[0].len() > 0
    &&& k == befores[0][0].schema().len()
    &&& 0 <= p < befores[0][0].num_partitions()
    &&& partition_idle(befores[0][0], p)
    &&& forall|c: int|
        0 <= c < k ==> {
            &&& (#[trigger] arrays[c]).len() == m
            &&& befores[c].len() == m
            &&& afters[c].len() == m
        }
    &&& forall|c: int, j: int|
        0 <= c < k && 0 <= j < m ==> {
            &&& (#[trigger] befores[c][j]).wf()
            &&& arrays[c][j].wf()
            &&& arrays[c][j].spec_len() != 0
            &&& added_ok(befores[c][j], afters[c][j], c, p, arrays[c][j])
        }
    &&& forall|c: int, j: int|
        0 <= c < k && 1 <= j < m ==> partition_state(#[trigger] befores[c][j], p) == partition_state(afters[c][j - 1], p)
    &&& forall|c: int|
        1 <= c < k ==> partition_state(#[trigger] befores[c][0], p) == partition_state(afters[c - 1][m - 1], p)
}

/// After the last array of column `c - 1`, the partition is as it should be
/// before the first array of column `c`.
proof fn lemma_column_boundary(s: ShuffleEncodedSink, p: int, b0: Seq<Batch>, arrays: Seq<Seq<Column>>, m: int, c: int)
    requires
        1 <= c < arrays.len(),
        m > 0,
        forall|x: int| 0 <= x < arrays.len() ==> (#[trigger] arrays[x]).len() == m,
        expected_state(s, p, b0, arrays, m, c - 1, m),
    ensures
        expected_state(s, p, b0, arrays, m, c, 0),
{
    let k = arrays.len() as int;
    if c < k - 1 {
        assert(waiting_while_columns_arrive(arrays, c - 1, m) =~~= waiting_while_columns_arrive(arrays, c, 0));
    } else {
        assert(waiting_while_columns_arrive(arrays, c - 1, m) =~~= waiting_while_last_column_arrives(arrays, 0, m));
        assert(s.batches(p).subrange(0, b0.len() as int) =~= b0);
    }
}

/// The state of partition `p` before the call that takes `arrays[c][j]`.
proof fn lemma_state_before_call(
    befores: Seq<Seq<ShuffleEncodedSink>>,
    afters: Seq<Seq<ShuffleEncodedSink>>,
    p: int,
    arrays: Seq<Seq<Column>>,
    m: int,
    c: int,
    j: int,
)
    requires
        calls_in_column_order(befores, afters, p, arrays, m),
        0 <= c < arrays.len(),
        0 <= j < m,
    ensures
        expected_state(befores[c][j], p, befores[0][0].batches(p), arrays, m, c, j),
        befores[c][j].schema() == befores[0][0].schema(),
        befores[c][j].num_partitions() == befores[0][0].num_partitions(),
    decreases c, j,
{
    let b0 = befores[0][0].batches(p);
    let k = arrays.len() as int;
    if c == 0 && j == 0 {
        if k - 1 > 0 {
            assert(waiting_while_columns_arrive(arrays, 0, 0) =~~= no_waiting((k - 1) as nat));
            assert(row_group(arrays, 0, 0) =~= Seq::<Column>::empty());
        } else {
            assert(b0.subrange(0, b0.len() as int) =~= b0);
            assert(row_group(arrays, 0, 0) =~= Seq::<Column>::empty());
            assert(waiting_while_last_column_arrives(arrays, 0, m) =~= no_waiting(0));
        }
    } else if j > 0 {
        lemma_state_before_call(befores, afters, p, arrays, m, c, j - 1);
        assert(befores[c][j - 1].wf());
        lemma_expected_step(befores[c][j - 1], afters[c][j - 1], p, b0, arrays, m, c, j - 1);
        assert(partition_state(befores[c][j], p) == partition_state(afters[c][j - 1], p));
    } else {
        lemma_state_before_call(befores, afters, p, arrays, m, c - 1, m - 1);
        assert(befores[c - 1][m - 1].wf());
        lemma_expected_step(befores[c - 1][m - 1], afters[c - 1][m - 1], p, b0, arrays, m, c - 1, m - 1);
        assert(partition_state(befores[c][0], p) == partition_state(afters[c - 1][m - 1], p));
        lemma_column_boundary(befores[c][0], p, b0, arrays, m, c);
    }
}

/// Partition `p` of a sink, with nothing in progress, takes the arrays of
/// its columns in the order of the schema, `m` arrays per column (row group
/// `j` being the `j`-th array of every column), and every call answers
/// `Ok`. Then the sink accepted every one of those calls, the partition has
/// gained one batch per row group, in order, made of the row group's arrays
/// in column order with the schema and the first array's number of rows,
/// and it has nothing in progress again.
pub proof fn lemma_partition_batches(
    befores: Seq<Seq<ShuffleEncodedSink>>,
    afters: Seq<Seq<ShuffleEncodedSink>>,
    p: int,
    arrays: Seq<Seq<Column>>,
    m: int,
)
    requires
        calls_in_column_order(befores, afters, p, arrays, m),
    ensures
        forall|c: int, j: int| 0 <= c < arrays.len() && 0 <= j < m ==> (#[trigger] befores[c][j]).accepts(c, p),
        ({
            let last = afters[arrays.len() - 1][m - 1];
            &&& last.schema() == befores[0][0].schema()
            &&& partition_idle(last, p)
            &&& holds_groups(last, p, befores[0][0].batches(p), arrays, m)
        }),
{
    let b0 = befores[0][0].batches(p);
    let k = arrays.len() as int;
    assert forall|c: int, j: int| 0 <= c < arrays.len() && 0 <= j < m implies (#[trigger] befores[c][j]).accepts(c, p) by {
        lemma_state_before_call(befores, afters, p, arrays, m, c, j);
        lemma_expected_step(befores[c][j], afters[c][j], p, b0, arrays, m, c, j);
    }
    lemma_state_before_call(befores, afters, p, arrays, m, k - 1, m - 1);
    assert(befores[k - 1][m - 1].wf());
    lemma_expected_step(befores[k - 1][m - 1], afters[k - 1][m - 1], p, b0, arrays, m, k - 1, m - 1);
}


} // verus!
