//! Record batches: columns of equal length that match a schema.
use crate::column::{Column, DataType, Field};
use vstd::prelude::*;

verus! {

/// Why an operation was refused.
#[derive(Clone, Copy, Debug, PartialEq, Eq, Structural)]
pub enum ShuffleError {
    /// The number of columns differs from the number of schema fields.
    ColumnCountMismatch,
    /// A field that is not nullable got a column with nulls.
    NullsInNonNullableColumn,
    /// A column's length differs from the batch's number of rows.
    ColumnLengthMismatch,
    /// A column's type differs from its field's type.
    ColumnTypeMismatch,
    /// The number of rows of the batch being written was already set, to
    /// `rows`.
    RowCountAlreadySet { rows: usize },
    /// A column was written before the number of rows of its batch.
    RowCountNotWritten,
    /// Columns must be written in the order of the schema: column `expected`
    /// was due, column `got` came.
    ColumnOutOfOrder { expected: usize, got: usize },
    /// There is no splitter for this type of column.
    UnsupportedDataType { column_index: usize, data_type: DataType },
    /// Rows can only be taken by an integer index column.
    IndicesNotInteger { data_type: DataType },
    /// An index names no row: `index` is the entry as the index column
    /// holds it, `len` the number of rows.
    IndexOutOfBounds { index: u64, len: usize },
    /// The number of rows cannot be compared with indices of this type.
    IndexCastFailed,
}

/// Columns of equal length, one per field of a schema.
#[derive(Debug)]
pub struct Batch {
    pub schema: Vec<Field>,
    pub num_rows: usize,
    pub columns: Vec<Column>,
}

/// Whether column `i` holds nulls that its field does not allow.
pub open spec fn nulls_not_allowed(schema: Seq<Field>, columns: Seq<Column>, i: int) -> bool {
    !schema[i].nullable && columns[i].spec_null_count() > 0
}

/// Why these columns cannot form a batch of `row_count` rows of this schema:
/// the checks of a record batch, in their order.
pub open spec fn batch_error(schema: Seq<Field>, columns: Seq<Column>, row_count: nat) -> Option<ShuffleError> {
    if columns.len() != schema.len() {
        Some(ShuffleError::ColumnCountMismatch)
    } else if exists|i: int| 0 <= i < columns.len() && #[trigger] nulls_not_allowed(schema, columns, i) {
        Some(ShuffleError::NullsInNonNullableColumn)
    } else if exists|i: int| 0 <= i < columns.len() && (#[trigger] columns[i]).spec_len() != row_count {
        Some(ShuffleError::ColumnLengthMismatch)
    } else if exists|i: int| 0 <= i < columns.len() && (#[trigger] columns[i]).spec_data_type() != schema[i].data_type {
        Some(ShuffleError::ColumnTypeMismatch)
    } else {
        None
    }
}

impl Batch {
    /// The columns match the schema and the number of rows, and each is well
    /// formed.
    pub open spec fn wf(&self) -> bool {
        &&& batch_error(self.schema@, self.columns@, self.num_rows as nat) is None
        &&& forall|i: int| 0 <= i < self.columns@.len() ==> (#[trigger] self.columns@[i]).wf()
    }

    /// A batch of `row_count` rows from these columns, when they match the
    /// schema: one column per field, no nulls where the field forbids them,
    /// each of `row_count` rows and of its field's type.
    pub fn try_new_with_row_count(schema: &Vec<Field>, columns: Vec<Column>, row_count: usize) -> (r: Result<
        Batch,
        ShuffleError,
    >)
        requires
            forall|i: int| 0 <= i < columns@.len() ==> (#[trigger] columns@[i]).wf(),
        ensures
            match r {
                Ok(b) => {
                    &&& batch_error(schema@, columns@, row_count as nat) is None
                    &&& b.schema@ == schema@
                    &&& b.num_rows == row_count
                    &&& b.columns@ == columns@
                },
                Err(e) => batch_error(schema@, columns@, row_count as nat) == Some(e),
            },
    {
        if schema.len() != columns.len() {
            return Err(ShuffleError::ColumnCountMismatch);
        }
        let mut i: usize = 0;
        while i < columns.len()
            invariant
                i <= columns@.len(),
                columns@.len() == schema@.len(),
                forall|k: int| 0 <= k < i ==> !#[trigger] nulls_not_allowed(schema@, columns@, k),
            decreases columns@.len() - i,
        {
            if !schema[i].nullable && columns[i].null_count() > 0 {
                proof {
                    assert(nulls_not_allowed(schema@, columns@, i as int));
                }
                return Err(ShuffleError::NullsInNonNullableColumn);
            }
            i = i + 1;
        }
        let mut i: usize = 0;
        while i < columns.len()
            invariant
                i <= columns@.len(),
                columns@.len() == schema@.len(),
                forall|k: int| 0 <= k < columns@.len() ==> (#[trigger] columns@[k]).wf(),
                forall|k: int| 0 <= k < columns@.len() ==> !#[trigger] nulls_not_allowed(schema@, columns@, k),
                forall|k: int| 0 <= k < i ==> (#[trigger] columns@[k]).spec_len() == row_count,
            decreases columns@.len() - i,
        {
            if columns[i].len() != row_count {
                proof {
                    assert(columns@[i as int].spec_len() != row_count);
                }
                return Err(ShuffleError::ColumnLengthMismatch);
            }
            i = i + 1;
        }
        let mut i: usize = 0;
        while i < columns.len()
            invariant
                i <= columns@.len(),
                columns@.len() == schema@.len(),
                forall|k: int| 0 <= k < columns@.len() ==> !#[trigger] nulls_not_allowed(schema@, columns@, k),
                forall|k: int| 0 <= k < columns@.len() ==> (#[trigger] columns@[k]).spec_len() == row_count,
                forall|k: int| 0 <= k < i ==> (#[trigger] columns@[k]).spec_data_type() == schema@[k].data_type,
            decreases columns@.len() - i,
        {
            if columns[i].data_type() != schema[i].data_type {
                proof {
                    assert(columns@[i as int].spec_data_type() != schema@[i as int].data_type);
                }
                return Err(ShuffleError::ColumnTypeMismatch);
            }
            i = i + 1;
        }
        Ok(Batch { schema: copy_schema(schema), num_rows: row_count, columns })
    }
}

/// A copy of a schema.
pub fn copy_schema(schema: &Vec<Field>) -> (r: Vec<Field>)
    ensures
        r@ == schema@,
{
    let mut r: Vec<Field> = Vec::with_capacity(schema.len());
    let mut i: usize = 0;
    while i < schema.len()
        invariant
            i <= schema@.len(),
            r@ == schema@.subrange(0, i as int),
        decreases schema@.len() - i,
    {
        let field = Field { name: schema[i].name.clone(), data_type: schema[i].data_type, nullable: schema[i].nullable };
        proof {
            assert(field == schema@[i as int]);
        }
        r.push(field);
        proof {
            assert(r@ =~= schema@.subrange(0, i + 1));
        }
        i = i + 1;
    }
    proof {
        assert(r@ =~= schema@);
    }
    r
}

} // verus!
