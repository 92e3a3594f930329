use bench_shuffle::arrow_batches_sink::ArrowBatchesSink;
use bench_shuffle::batch::{Batch, ShuffleError};
use bench_shuffle::byte_array_splitter::{ByteArrayColumnSplitter, BytesArrayBatchCapacity};
use bench_shuffle::capacity_tracker::CapacityTracker;
use bench_shuffle::column::{ByteColumn, Column, DataType, Field, PrimitiveColumn};
use bench_shuffle::find_matching_splitter::{shuffle_by_splitters, ShuffleArgs};
use bench_shuffle::primitive_splitter::PrimitiveColumnSplitter;
use bench_shuffle::shuffle_encoded_sink::ShuffleEncodedSink;
use bench_shuffle::splitter_args::CreateSplitterArgs;
use bench_shuffle::splitter_nullable_helper::SplitterNullableHelper;

fn field(name: &str, data_type: DataType, nullable: bool) -> Field {
    Field { name: name.to_string(), data_type, nullable }
}

fn utf8(values: &[Option<&str>]) -> Column {
    utf8_as(DataType::Utf8, values)
}

fn utf8_as(data_type: DataType, values: &[Option<&str>]) -> Column {
    let mut offsets = vec![0usize];
    let mut bytes = Vec::new();
    for v in values {
        if let Some(s) = v {
            bytes.extend_from_slice(s.as_bytes());
        }
        offsets.push(bytes.len());
    }
    let validity = if values.iter().any(|v| v.is_none()) {
        Some(values.iter().map(|v| v.is_some()).collect())
    } else {
        None
    };
    Column::Bytes(ByteColumn { data_type, offsets, values: bytes, validity })
}

fn int64(values: &[Option<i64>]) -> Column {
    let validity = if values.iter().any(|v| v.is_none()) {
        Some(values.iter().map(|v| v.is_some()).collect())
    } else {
        None
    };
    Column::Primitive(PrimitiveColumn {
        data_type: DataType::Int64,
        values: values.iter().map(|v| v.unwrap_or(0) as u64).collect(),
        validity,
    })
}

/// The rows of a byte column as strings, `None` for a null row.
fn strings(column: &Column) -> Vec<Option<String>> {
    match column {
        Column::Bytes(c) => (0..c.offsets.len() - 1)
            .map(|i| {
                let valid = c.validity.as_ref().map_or(true, |v| v[i]);
                if valid {
                    Some(String::from_utf8(c.values[c.offsets[i]..c.offsets[i + 1]].to_vec()).unwrap())
                } else {
                    None
                }
            })
            .collect(),
        other => panic!("expected a byte column, got {other:?}"),
    }
}

/// The values of a primitive column.
fn int_values(column: &Column) -> Vec<u64> {
    match column {
        Column::Primitive(c) => c.values.clone(),
        other => panic!("expected a primitive column, got {other:?}"),
    }
}

fn cap(rows: usize, bytes: usize) -> BytesArrayBatchCapacity {
    BytesArrayBatchCapacity { total_bytes: bytes, num_of_items: rows }
}

#[test]
fn capacity_tracker_closes_batch_at_max_size() {
    let mut tracker = CapacityTracker::<BytesArrayBatchCapacity>::new(2, 2);
    tracker.record_row(1, cap(1, 3));
    tracker.record_row(1, cap(1, 4));
    tracker.record_row(1, cap(1, 5));
    let first = tracker.next_capacity(1).unwrap();
    assert_eq!((first.num_of_items, first.total_bytes), (2, 7));
    let second = tracker.next_capacity(1).unwrap();
    assert_eq!((second.num_of_items, second.total_bytes), (1, 5));
    let again = tracker.next_capacity(1).unwrap();
    assert_eq!((again.num_of_items, again.total_bytes), (1, 5));
    assert!(tracker.next_capacity(0).is_none());
}

#[test]
fn capacity_tracker_queue_after_many_rows_has_one_batch_per_limit() {
    let mut tracker = CapacityTracker::<BytesArrayBatchCapacity>::new(2, 1);
    for bytes in 1..=4 {
        tracker.record_row(0, cap(1, bytes));
    }
    let first = tracker.next_capacity(0).unwrap();
    assert_eq!((first.num_of_items, first.total_bytes), (2, 3));
    let second = tracker.next_capacity(0).unwrap();
    assert_eq!((second.num_of_items, second.total_bytes), (2, 7));
    let open = tracker.next_capacity(0).unwrap();
    assert_eq!((open.num_of_items, open.total_bytes), (0, 0));
}

#[test]
fn capacity_tracker_with_zero_limit_closes_every_row() {
    let mut tracker = CapacityTracker::<BytesArrayBatchCapacity>::new(0, 1);
    tracker.record_row(0, cap(1, 9));
    tracker.record_row(0, cap(1, 1));
    let first = tracker.next_capacity(0).unwrap();
    assert_eq!((first.num_of_items, first.total_bytes), (1, 9));
    let second = tracker.next_capacity(0).unwrap();
    assert_eq!((second.num_of_items, second.total_bytes), (1, 1));
    let open = tracker.next_capacity(0).unwrap();
    assert_eq!((open.num_of_items, open.total_bytes), (0, 0));
}

#[test]
fn byte_splitter_sends_each_row_to_its_partition() {
    let f = field("s", DataType::Utf8, true);
    let mut splitter = ByteArrayColumnSplitter::new(CreateSplitterArgs {
        batch_size: 16,
        number_of_partitions: 3,
        field: &f,
        column_index: 0,
    });
    assert!(splitter.add_values(&utf8(&[Some("a"), Some("bb"), None, Some("ccc")]), &[2, 0, 2, 2]).is_empty());
    assert!(splitter.add_values(&utf8(&[Some("d")]), &[0]).is_empty());
    let out = splitter.finish_and_reset();
    let mut by_partition: Vec<(usize, Vec<Option<String>>)> = out.iter().map(|(p, c)| (*p, strings(c))).collect();
    by_partition.sort();
    assert_eq!(
        by_partition,
        vec![
            (0, vec![Some("bb".to_string()), Some("d".to_string())]),
            (2, vec![Some("a".to_string()), None, Some("ccc".to_string())]),
        ]
    );
    assert!(splitter.finish_and_reset().is_empty());
}

#[test]
fn byte_splitter_hands_out_arrays_of_at_most_max_rows() {
    let f = field("s", DataType::Utf8, false);
    let mut splitter = ByteArrayColumnSplitter::new(CreateSplitterArgs {
        batch_size: 2,
        number_of_partitions: 2,
        field: &f,
        column_index: 0,
    });
    let flushed = splitter.add_values(&utf8(&[Some("x"), Some("yz"), Some("a"), Some("w")]), &[1, 1, 0, 1]);
    assert_eq!(flushed.len(), 1);
    assert_eq!(flushed[0].0, 1);
    assert_eq!(strings(&flushed[0].1), vec![Some("x".to_string()), Some("yz".to_string())]);
    match &flushed[0].1 {
        Column::Bytes(c) => assert!(c.validity.is_none()),
        other => panic!("expected a byte column, got {other:?}"),
    }
    let flushed = splitter.add_values(&utf8(&[Some("v"), Some("b")]), &[1, 0]);
    let by_partition: Vec<(usize, Vec<Option<String>>)> = flushed.iter().map(|(p, c)| (*p, strings(c))).collect();
    assert_eq!(
        by_partition,
        vec![
            (1, vec![Some("w".to_string()), Some("v".to_string())]),
            (0, vec![Some("a".to_string()), Some("b".to_string())]),
        ]
    );
    assert!(splitter.finish_and_reset().is_empty());
    assert!(splitter.add_values(&utf8(&[Some("z")]), &[0]).is_empty());
    let rest = splitter.finish_and_reset();
    assert_eq!(rest.len(), 1);
    assert_eq!((rest[0].0, strings(&rest[0].1)), (0, vec![Some("z".to_string())]));
}

#[test]
fn byte_splitter_with_zero_max_hands_out_every_row_alone() {
    let f = field("s", DataType::Binary, true);
    let mut splitter = ByteArrayColumnSplitter::new(CreateSplitterArgs {
        batch_size: 0,
        number_of_partitions: 2,
        field: &f,
        column_index: 0,
    });
    let flushed = splitter.add_values(&utf8_as(DataType::Binary, &[Some("p"), None, Some("q")]), &[0, 1, 0]);
    let by_partition: Vec<(usize, Vec<Option<String>>)> = flushed.iter().map(|(p, c)| (*p, strings(c))).collect();
    assert_eq!(
        by_partition,
        vec![(0, vec![Some("p".to_string())]), (1, vec![None]), (0, vec![Some("q".to_string())])]
    );
    assert!(splitter.finish_and_reset().is_empty());
}

#[test]
fn primitive_splitter_hands_out_full_arrays() {
    let f = field("n", DataType::Int64, true);
    let mut splitter = PrimitiveColumnSplitter::new(CreateSplitterArgs {
        batch_size: 2,
        number_of_partitions: 2,
        field: &f,
        column_index: 0,
    });
    let emitted = splitter.add_values(&int64(&[Some(1), None, Some(3), Some(4)]), &[0, 0, 1, 0]);
    assert_eq!(emitted.len(), 1);
    assert_eq!(emitted[0].0, 0);
    match &emitted[0].1 {
        Column::Primitive(c) => {
            assert_eq!(c.values, vec![1, 0]);
            assert_eq!(c.validity, Some(vec![true, false]));
        }
        other => panic!("expected a primitive column, got {other:?}"),
    }
    let mut rest = splitter.finish_and_reset();
    rest.sort_by_key(|(p, _)| *p);
    assert_eq!(rest.len(), 2);
    match (&rest[0].1, &rest[1].1) {
        (Column::Primitive(a), Column::Primitive(b)) => {
            assert_eq!((rest[0].0, a.values.clone(), a.validity.clone()), (0, vec![4], None));
            assert_eq!((rest[1].0, b.values.clone(), b.validity.clone()), (1, vec![3], None));
        }
        other => panic!("expected primitive columns, got {other:?}"),
    }
}

#[test]
fn nullable_helper_hands_out_bits_in_order() {
    let mut helper = SplitterNullableHelper::new(true, 2, 4);
    helper.add_nulls(&int64(&[Some(1), None, Some(2), None]), &[1, 1, 0, 1]);
    assert_eq!(helper.build_nulls_for_partition(1, 2), Some(vec![true, false]));
    assert_eq!(helper.build_nulls_for_partition(0, 1), None);
    assert_eq!(helper.build_nulls_for_partition(1, 1), Some(vec![false]));
    let mut not_nullable = SplitterNullableHelper::new(false, 2, 4);
    not_nullable.add_nulls(&int64(&[Some(1)]), &[0]);
    assert_eq!(not_nullable.build_nulls_for_partition(0, 1), None);
}

#[test]
fn batch_checks_columns_against_schema() {
    let schema = vec![field("a", DataType::Int64, false), field("s", DataType::Utf8, true)];
    let ok = Batch::try_new_with_row_count(&schema, vec![int64(&[Some(1)]), utf8(&[None])], 1).unwrap();
    assert_eq!(ok.num_rows, 1);
    assert_eq!(ok.schema.len(), 2);
    assert_eq!(
        Batch::try_new_with_row_count(&schema, vec![int64(&[Some(1)])], 1).err(),
        Some(ShuffleError::ColumnCountMismatch)
    );
    assert_eq!(
        Batch::try_new_with_row_count(&schema, vec![int64(&[None]), utf8(&[Some("x")])], 1).err(),
        Some(ShuffleError::NullsInNonNullableColumn)
    );
    assert_eq!(
        Batch::try_new_with_row_count(&schema, vec![int64(&[Some(1)]), utf8(&[Some("x"), Some("y")])], 1).err(),
        Some(ShuffleError::ColumnLengthMismatch)
    );
    assert_eq!(
        Batch::try_new_with_row_count(&schema, vec![utf8(&[Some("x")]), utf8(&[Some("y")])], 1).err(),
        Some(ShuffleError::ColumnTypeMismatch)
    );
}

#[test]
fn arrow_batches_sink_builds_batch_from_columns_in_order() {
    let schema = vec![field("a", DataType::Int64, false), field("s", DataType::Utf8, false)];
    let mut sink = ArrowBatchesSink::new(&schema);
    assert_eq!(sink.write_column(0, int64(&[Some(1)])), Err(ShuffleError::RowCountNotWritten));
    sink.start_batch(1).unwrap();
    assert_eq!(sink.write_number_of_rows(1), Err(ShuffleError::RowCountAlreadySet { rows: 1 }));
    assert_eq!(sink.write_column(1, utf8(&[Some("x")])), Err(ShuffleError::ColumnOutOfOrder { expected: 0, got: 1 }));
    sink.write_column(0, int64(&[Some(7)])).unwrap();
    sink.write_column(1, utf8(&[Some("x")])).unwrap();
    sink.start_batch(2).unwrap();
    sink.write_column(0, int64(&[Some(8), Some(9)])).unwrap();
    assert_eq!(sink.write_column(1, utf8(&[Some("y")])), Err(ShuffleError::ColumnLengthMismatch));
    let batches = sink.finish();
    assert_eq!(batches.len(), 1);
    assert_eq!(batches[0].num_rows, 1);
    assert_eq!(strings(&batches[0].columns[1]), vec![Some("x".to_string())]);
}

#[test]
fn shuffle_encoded_sink_completes_batch_with_last_column() {
    let schema = vec![field("a", DataType::Int64, false), field("s", DataType::Utf8, false)];
    let mut sink = ShuffleEncodedSink::new(2, schema);
    sink.add_column_to_partition(0, 1, int64(&[Some(5), Some(6)])).unwrap();
    sink.add_column_to_partition(1, 1, utf8(&[Some("p"), Some("q")])).unwrap();
    let out = sink.into_inner();
    assert_eq!(out.len(), 2);
    assert!(out[0].is_empty());
    assert_eq!(out[1].len(), 1);
    assert_eq!(out[1][0].num_rows, 2);
    assert_eq!(strings(&out[1][0].columns[1]), vec![Some("p".to_string()), Some("q".to_string())]);
}

#[test]
fn shuffle_by_splitters_gathers_rows_of_each_partition() {
    let schema = vec![field("s", DataType::Utf8, true), field("t", DataType::Utf8, false)];
    let columns = vec![
        vec![utf8(&[Some("a"), None, Some("c")]), utf8(&[Some("d")])],
        vec![utf8(&[Some("1"), Some("2"), Some("3")]), utf8(&[Some("4")])],
    ];
    let indices = vec![vec![1u32, 0, 1], vec![1u32]];
    let out = shuffle_by_splitters(ShuffleArgs {
        number_of_partitions: 3,
        batch_size: 16,
        schema: &schema,
        columns: &columns,
        indices: &indices,
    })
    .unwrap();
    assert_eq!(out.len(), 3);
    assert_eq!(out[0].len(), 1);
    assert_eq!(out[0][0].num_rows, 1);
    assert_eq!(strings(&out[0][0].columns[0]), vec![None]);
    assert_eq!(strings(&out[0][0].columns[1]), vec![Some("2".to_string())]);
    assert_eq!(out[1].len(), 1);
    assert_eq!(out[1][0].num_rows, 3);
    assert_eq!(
        strings(&out[1][0].columns[0]),
        vec![Some("a".to_string()), Some("c".to_string()), Some("d".to_string())]
    );
    assert_eq!(
        strings(&out[1][0].columns[1]),
        vec![Some("1".to_string()), Some("3".to_string()), Some("4".to_string())]
    );
    assert!(out[2].is_empty());
}

#[test]
fn shuffle_by_splitters_cuts_partitions_into_batches() {
    let schema = vec![field("s", DataType::Utf8, true), field("t", DataType::LargeUtf8, false)];
    let columns = vec![
        vec![utf8(&[Some("a"), None, Some("c")]), utf8(&[Some("d"), Some("e")])],
        vec![
            utf8_as(DataType::LargeUtf8, &[Some("1"), Some("2"), Some("3")]),
            utf8_as(DataType::LargeUtf8, &[Some("4"), Some("5")]),
        ],
    ];
    let indices = vec![vec![1u32, 0, 1], vec![1u32, 1]];
    let out = shuffle_by_splitters(ShuffleArgs {
        number_of_partitions: 2,
        batch_size: 2,
        schema: &schema,
        columns: &columns,
        indices: &indices,
    })
    .unwrap();
    assert_eq!(out.len(), 2);
    assert_eq!(out[0].len(), 1);
    assert_eq!(strings(&out[0][0].columns[1]), vec![Some("2".to_string())]);
    assert_eq!(out[1].len(), 2);
    assert_eq!(out[1][0].num_rows, 2);
    assert_eq!(strings(&out[1][0].columns[0]), vec![Some("a".to_string()), Some("c".to_string())]);
    assert_eq!(strings(&out[1][0].columns[1]), vec![Some("1".to_string()), Some("3".to_string())]);
    assert_eq!(out[1][1].num_rows, 2);
    assert_eq!(strings(&out[1][1].columns[0]), vec![Some("d".to_string()), Some("e".to_string())]);
    assert_eq!(strings(&out[1][1].columns[1]), vec![Some("4".to_string()), Some("5".to_string())]);
    for batches in &out {
        for batch in batches {
            let names: Vec<&str> = batch.schema.iter().map(|f| f.name.as_str()).collect();
            assert_eq!(names, vec!["s", "t"]);
        }
    }
}

#[test]
fn shuffle_by_splitters_with_largest_batch_size_keeps_one_batch() {
    let schema = vec![field("s", DataType::Utf8, false)];
    let columns = vec![vec![utf8(&[Some("a"), Some("b"), Some("c")])]];
    let indices = vec![vec![0u32, 0, 0]];
    let out = shuffle_by_splitters(ShuffleArgs {
        number_of_partitions: 1,
        batch_size: usize::MAX,
        schema: &schema,
        columns: &columns,
        indices: &indices,
    })
    .unwrap();
    assert_eq!(out[0].len(), 1);
    assert_eq!(out[0][0].num_rows, 3);
}

#[test]
fn shuffle_by_splitters_refuses_unsupported_column() {
    let schema = vec![field("s", DataType::Utf8, false), field("n", DataType::Int64, false)];
    let columns = vec![vec![utf8(&[Some("a")])], vec![int64(&[Some(1)])]];
    let indices = vec![vec![0u32]];
    let out = shuffle_by_splitters(ShuffleArgs {
        number_of_partitions: 1,
        batch_size: 16,
        schema: &schema,
        columns: &columns,
        indices: &indices,
    });
    assert_eq!(out.err(), Some(ShuffleError::UnsupportedDataType { column_index: 1, data_type: DataType::Int64 }));
}

#[test]
fn shuffle_encoded_sink_assembles_row_groups_column_by_column() {
    let schema = vec![
        field("a", DataType::Int64, false),
        field("s", DataType::Utf8, false),
        field("t", DataType::Utf8, true),
    ];
    let mut sink = ShuffleEncodedSink::new(2, schema);
    sink.add_column_to_partition(0, 0, int64(&[Some(1), Some(2)])).unwrap();
    sink.add_column_to_partition(0, 1, int64(&[Some(9)])).unwrap();
    sink.add_column_to_partition(0, 0, int64(&[Some(3)])).unwrap();
    sink.add_column_to_partition(1, 0, utf8(&[Some("a"), Some("b")])).unwrap();
    sink.add_column_to_partition(1, 0, utf8(&[Some("c")])).unwrap();
    sink.add_column_to_partition(1, 1, utf8(&[Some("z")])).unwrap();
    sink.add_column_to_partition(2, 0, utf8(&[None, Some("y")])).unwrap();
    sink.add_column_to_partition(2, 1, utf8(&[Some("w")])).unwrap();
    sink.add_column_to_partition(2, 0, utf8(&[Some("x")])).unwrap();
    let out = sink.into_inner();
    assert_eq!(out.len(), 2);
    assert_eq!(out[0].len(), 2);
    assert_eq!(out[0][0].num_rows, 2);
    assert_eq!(int_values(&out[0][0].columns[0]), vec![1, 2]);
    assert_eq!(strings(&out[0][0].columns[1]), vec![Some("a".to_string()), Some("b".to_string())]);
    assert_eq!(strings(&out[0][0].columns[2]), vec![None, Some("y".to_string())]);
    assert_eq!(out[0][1].num_rows, 1);
    assert_eq!(int_values(&out[0][1].columns[0]), vec![3]);
    assert_eq!(strings(&out[0][1].columns[1]), vec![Some("c".to_string())]);
    assert_eq!(strings(&out[0][1].columns[2]), vec![Some("x".to_string())]);
    assert_eq!(out[1].len(), 1);
    assert_eq!(int_values(&out[1][0].columns[0]), vec![9]);
    assert_eq!(strings(&out[1][0].columns[2]), vec![Some("w".to_string())]);
}

#[test]
fn capacity_tracker_keeps_rows_of_interleaved_partitions_apart() {
    let mut tracker = CapacityTracker::<BytesArrayBatchCapacity>::new(2, 2);
    tracker.record_row(0, cap(1, 1));
    tracker.record_row(1, cap(1, 10));
    tracker.record_row(0, cap(1, 2));
    tracker.record_row(0, cap(1, 4));
    tracker.record_row(1, cap(1, 20));
    let first = tracker.next_capacity(0).unwrap();
    assert_eq!((first.num_of_items, first.total_bytes), (2, 3));
    let open = tracker.next_capacity(0).unwrap();
    assert_eq!((open.num_of_items, open.total_bytes), (1, 4));
    let other = tracker.next_capacity(1).unwrap();
    assert_eq!((other.num_of_items, other.total_bytes), (2, 30));
    let other_open = tracker.next_capacity(1).unwrap();
    assert_eq!((other_open.num_of_items, other_open.total_bytes), (0, 0));
}
