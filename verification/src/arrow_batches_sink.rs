//! Assembles the columns of a partition into batches, one column at a time.
use crate::batch::{batch_error, copy_schema, Batch, ShuffleError};
use crate::column::{Column, Field};
use vstd::prelude::*;

verus! {

/// Collects columns in the order of the schema and turns each complete set
/// into a batch.
pub struct ArrowBatchesSink {
    ready_batches: Vec<Batch>,
    schema: Vec<Field>,
    columns: Vec<Column>,
    number_of_rows: Option<usize>,
}

impl ArrowBatchesSink {
    /// The batches completed so far.
    pub closed spec fn ready(&self) -> Seq<Batch> {
        self.ready_batches@
    }

    pub closed spec fn schema(&self) -> Seq<Field> {
        self.schema@
    }

    /// The columns written for the batch in progress.
    pub closed spec fn columns(&self) -> Seq<Column> {
        self.columns@
    }

    /// The number of rows of the batch in progress, once it is set.
    pub closed spec fn number_of_rows(&self) -> Option<usize> {
        self.number_of_rows
    }

    /// A sink with no batch and no column.
    pub fn new(schema: &Vec<Field>) -> (r: Self)
        ensures
            r.ready() == Seq::<Batch>::empty(),
            r.schema() == schema@,
            r.columns() == Seq::<Column>::empty(),
            r.number_of_rows() is None,
    {
        ArrowBatchesSink {
            ready_batches: Vec::new(),
            schema: copy_schema(schema),
            columns: Vec::with_capacity(schema.len()),
            number_of_rows: None,
        }
    }

    /// Starts a batch of `number_of_rows` rows.
    pub fn start_batch(&mut self, number_of_rows: usize) -> (r: Result<(), ShuffleError>)
        ensures
            final(self).ready() == old(self).ready(),
            final(self).schema() == old(self).schema(),
            final(self).columns() == old(self).columns(),
            match old(self).number_of_rows() {
                Some(rows) => r == Err::<(), ShuffleError>(ShuffleError::RowCountAlreadySet { rows }) && final(self).number_of_rows()
                    == old(self).number_of_rows(),
                None => r is Ok && final(self).number_of_rows() == Some(number_of_rows),
            },
    {
        self.write_number_of_rows(number_of_rows)
    }

    /// Sets the number of rows of the batch in progress; refused when it is
    /// already set.
    pub fn write_number_of_rows(&mut self, number_of_rows: usize) -> (r: Result<(), ShuffleError>)
        ensures
            final(self).ready() == old(self).ready(),
            final(self).schema() == old(self).schema(),
            final(self).columns() == old(self).columns(),
            match old(self).number_of_rows() {
                Some(rows) => r == Err::<(), ShuffleError>(ShuffleError::RowCountAlreadySet { rows }) && final(self).number_of_rows()
                    == old(self).number_of_rows(),
                None => r is Ok && final(self).number_of_rows() == Some(number_of_rows),
            },
    {
        if let Some(rows) = self.number_of_rows {
            return Err(ShuffleError::RowCountAlreadySet { rows });
        }
        self.number_of_rows = Some(number_of_rows);
        Ok(())
    }

    /// Writes the next column of the batch in progress. Once a column for
    /// every field is written, the batch is built from them, and the sink
    /// is ready for the next batch (also when building the batch failed).
    pub fn write_column(&mut self, column_index: usize, column: Column) -> (r: Result<(), ShuffleError>)
        requires
            column.wf(),
            forall|i: int| 0 <= i < old(self).columns().len() ==> (#[trigger] old(self).columns()[i]).wf(),
        ensures
            final(self).schema() == old(self).schema(),
            forall|i: int| 0 <= i < final(self).columns().len() ==> (#[trigger] final(self).columns()[i]).wf(),
            old(self).number_of_rows() is None ==> {
                &&& r == Err::<(), ShuffleError>(ShuffleError::RowCountNotWritten)
                &&& final(self).ready() == old(self).ready()
                &&& final(self).columns() == old(self).columns()
                &&& final(self).number_of_rows() == old(self).number_of_rows()
            },
            old(self).number_of_rows() is Some && old(self).columns().len() != column_index ==> {
                &&& r == Err::<(), ShuffleError>(
                    ShuffleError::ColumnOutOfOrder { expected: old(self).columns().len() as usize, got: column_index },
                )
                &&& final(self).ready() == old(self).ready()
                &&& final(self).columns() == old(self).columns()
                &&& final(self).number_of_rows() == old(self).number_of_rows()
            },
            old(self).number_of_rows() is Some && old(self).columns().len() == column_index ==> {
                let columns = old(self).columns().push(column);
                let rows = old(self).number_of_rows()->0;
                if columns.len() >= old(self).schema().len() {
                    &&& final(self).columns() == Seq::<Column>::empty()
                    &&& final(self).number_of_rows() is None
                    &&& match batch_error(old(self).schema(), columns, rows as nat) {
                        None => r is Ok && final(self).ready() == old(self).ready().push(
                            Batch {
                                schema: final(self).ready().last().schema,
                                num_rows: rows,
                                columns: final(self).ready().last().columns,
                            },
                        ) && final(self).ready().last().columns@ == columns && final(self).ready().last().schema@
                            == old(self).schema(),
                        Some(e) => r == Err::<(), ShuffleError>(e) && final(self).ready() == old(self).ready(),
                    }
                } else {
                    &&& r is Ok
                    &&& final(self).columns() == columns
                    &&& final(self).number_of_rows() == old(self).number_of_rows()
                    &&& final(self).ready() == old(self).ready()
                }
            },
    {
        let number_of_rows = match self.number_of_rows {
            Some(n) => n,
            None => {
                return Err(ShuffleError::RowCountNotWritten);
            },
        };
        if self.columns.len() != column_index {
            return Err(ShuffleError::ColumnOutOfOrder { expected: self.columns.len(), got: column_index });
        }
        self.columns.push(column);
        if self.columns.len() >= self.schema.len() {
            self.number_of_rows = None;
            let mut columns: Vec<Column> = Vec::with_capacity(self.schema.len());
            std::mem::swap(&mut columns, &mut self.columns);
            let batch = Batch::try_new_with_row_count(&self.schema, columns, number_of_rows);
            match batch {
                Ok(b) => {
                    self.ready_batches.push(b);
                },
                Err(e) => {
                    return Err(e);
                },
            }
        }
        Ok(())
    }

    /// The batches completed.
    pub fn finish(self) -> (r: Vec<Batch>)
        ensures
            r@ == self.ready(),
    {
        self.ready_batches
    }
}

} // verus!
