use bench_shuffle::batch::ShuffleError;
use bench_shuffle::column::{BooleanColumn, ByteColumn, Column, DataType, Field, PrimitiveColumn};
use bench_shuffle::take::{
    check_bounds, create_sink, create_sinks, finish_sink, finish_sinks, take_to_sink, take_to_sinks, Sink, TakeOptions,
};

fn field(name: &str, data_type: DataType, nullable: bool) -> Field {
    Field { name: name.to_string(), data_type, nullable }
}

fn int32(values: &[Option<i32>]) -> Column {
    let validity = if values.iter().any(|v| v.is_none()) {
        Some(values.iter().map(|v| v.is_some()).collect())
    } else {
        None
    };
    Column::Primitive(PrimitiveColumn {
        data_type: DataType::Int32,
        values: values.iter().map(|v| v.unwrap_or(0) as i64 as u64).collect(),
        validity,
    })
}

fn indices(data_type: DataType, values: &[u64]) -> Column {
    Column::Primitive(PrimitiveColumn { data_type, values: values.to_vec(), validity: None })
}

fn utf8(values: &[Option<&str>]) -> Column {
    let mut offsets = vec![0usize];
    let mut bytes = Vec::new();
    for v in values {
        if let Some(s) = v {
            bytes.extend_from_slice(s.as_bytes());
        }
        offsets.push(bytes.len());
    }
    let validity = if values.iter().any(|v| v.is_none()) {
        Some(values.iter().map(|v| v.is_some()).collect())
    } else {
        None
    };
    Column::Bytes(ByteColumn { data_type: DataType::Utf8, offsets, values: bytes, validity })
}

fn primitive(column: &Column) -> &PrimitiveColumn {
    match column {
        Column::Primitive(c) => c,
        other => panic!("expected a primitive column, got {other:?}"),
    }
}

fn bytes(column: &Column) -> &ByteColumn {
    match column {
        Column::Bytes(c) => c,
        other => panic!("expected a byte column, got {other:?}"),
    }
}

#[test]
fn take_primitive_rows_in_index_order() {
    let f = field("a", DataType::Int32, false);
    let mut sink = create_sink(&f, 8);
    let values = int32(&[Some(10), Some(20), Some(30), Some(-1)]);
    take_to_sink(&values, &mut sink, &indices(DataType::UInt32, &[3, 0, 2, 0])).unwrap();
    let out = finish_sink(&f, &mut sink, 8);
    let out = primitive(&out);
    assert_eq!(out.data_type, DataType::Int32);
    assert_eq!(out.values, vec![u64::MAX, 10, 30, 10]);
    assert!(out.validity.is_none());
}

#[test]
fn take_keeps_validity_of_rows_taken() {
    let f = field("a", DataType::Int32, true);
    let mut sink = create_sink(&f, 8);
    let values = int32(&[Some(1), None, Some(3)]);
    take_to_sink(&values, &mut sink, &indices(DataType::Int64, &[1, 2])).unwrap();
    let out = finish_sink(&f, &mut sink, 8);
    let out = primitive(&out);
    assert_eq!(out.values, vec![0, 3]);
    assert_eq!(out.validity, Some(vec![false, true]));
}

#[test]
fn take_drops_validity_without_nulls_taken() {
    let f = field("a", DataType::Int32, true);
    let mut sink = create_sink(&f, 8);
    let values = int32(&[Some(1), None, Some(3)]);
    take_to_sink(&values, &mut sink, &indices(DataType::UInt8, &[2, 0])).unwrap();
    let out = finish_sink(&f, &mut sink, 8);
    let out = primitive(&out);
    assert_eq!(out.values, vec![3, 1]);
    assert_eq!(out.validity, None);
}

#[test]
fn take_appends_batch_after_batch() {
    let f = field("a", DataType::Int32, false);
    let mut sink = create_sink(&f, 8);
    take_to_sink(&int32(&[Some(5), Some(6)]), &mut sink, &indices(DataType::UInt32, &[1])).unwrap();
    take_to_sink(&int32(&[Some(7), Some(8), Some(9)]), &mut sink, &indices(DataType::UInt32, &[2, 0])).unwrap();
    let out = finish_sink(&f, &mut sink, 8);
    assert_eq!(primitive(&out).values, vec![6, 9, 7]);
}

#[test]
fn finish_empties_the_sink() {
    let f = field("a", DataType::Int32, false);
    let mut sink = create_sink(&f, 8);
    take_to_sink(&int32(&[Some(5), Some(6)]), &mut sink, &indices(DataType::UInt32, &[1])).unwrap();
    let first = finish_sink(&f, &mut sink, 8);
    assert_eq!(primitive(&first).values, vec![6]);
    let second = finish_sink(&f, &mut sink, 8);
    assert_eq!(primitive(&second).values, Vec::<u64>::new());
}

#[test]
fn take_boolean_rows() {
    let f = field("b", DataType::Boolean, true);
    let mut sink = create_sink(&f, 4);
    let values = Column::Boolean(BooleanColumn {
        values: vec![true, false, true],
        validity: Some(vec![true, true, false]),
    });
    take_to_sink(&values, &mut sink, &indices(DataType::UInt16, &[2, 1, 1, 0])).unwrap();
    let out = finish_sink(&f, &mut sink, 4);
    match out {
        Column::Boolean(c) => {
            assert_eq!(c.values, vec![true, false, false, true]);
            assert_eq!(c.validity, Some(vec![false, true, true, true]));
        }
        other => panic!("expected a boolean column, got {other:?}"),
    }
}

#[test]
fn take_string_rows_with_null_rows_empty() {
    let f = field("s", DataType::Utf8, true);
    let mut sink = create_sink(&f, 4);
    let values = utf8(&[Some("ab"), None, Some("cde"), Some("")]);
    take_to_sink(&values, &mut sink, &indices(DataType::UInt32, &[2, 1, 0, 3, 2])).unwrap();
    let out = finish_sink(&f, &mut sink, 4);
    let out = bytes(&out);
    assert_eq!(out.data_type, DataType::Utf8);
    assert_eq!(out.offsets, vec![0, 3, 3, 5, 5, 8]);
    assert_eq!(out.values, b"cdeabcde".to_vec());
    assert_eq!(out.validity, Some(vec![true, false, true, true, true]));
}

#[test]
fn take_refuses_indices_that_are_not_integers() {
    let f = field("a", DataType::Int32, false);
    let mut sink = create_sink(&f, 8);
    let values = int32(&[Some(1)]);
    let float_indices = Column::Primitive(PrimitiveColumn { data_type: DataType::Float64, values: vec![0], validity: None });
    assert_eq!(
        take_to_sink(&values, &mut sink, &float_indices),
        Err(ShuffleError::IndicesNotInteger { data_type: DataType::Float64 })
    );
    let string_indices = utf8(&[Some("0")]);
    assert_eq!(
        take_to_sink(&values, &mut sink, &string_indices),
        Err(ShuffleError::IndicesNotInteger { data_type: DataType::Utf8 })
    );
    let out = finish_sink(&f, &mut sink, 8);
    assert!(primitive(&out).values.is_empty());
}

#[test]
fn take_to_sinks_fills_each_column() {
    let fields = vec![field("a", DataType::Int32, false), field("s", DataType::Utf8, false)];
    let mut sinks = create_sinks(&fields, 4);
    let columns = vec![int32(&[Some(1), Some(2), Some(3)]), utf8(&[Some("x"), Some("yy"), Some("zzz")])];
    take_to_sinks(&columns, &mut sinks, &indices(DataType::UInt64, &[2, 0])).unwrap();
    let batch = finish_sinks(&fields, &mut sinks, 4);
    assert_eq!(batch.num_rows, 2);
    assert_eq!(batch.schema.len(), 2);
    assert_eq!(batch.schema[1].name, "s");
    assert_eq!(primitive(&batch.columns[0]).values, vec![3, 1]);
    let s = bytes(&batch.columns[1]);
    assert_eq!(s.offsets, vec![0, 3, 4]);
    assert_eq!(s.values, b"zzzx".to_vec());
    assert!(s.validity.is_none());
}

#[test]
fn take_to_sinks_refuses_non_integer_indices() {
    let fields = vec![field("a", DataType::Int32, false)];
    let mut sinks = create_sinks(&fields, 4);
    let columns = vec![int32(&[Some(1)])];
    let bool_indices = Column::Boolean(BooleanColumn { values: vec![true], validity: None });
    assert_eq!(
        take_to_sinks(&columns, &mut sinks, &bool_indices),
        Err(ShuffleError::IndicesNotInteger { data_type: DataType::Boolean })
    );
    let batch = finish_sinks(&fields, &mut sinks, 4);
    assert_eq!(batch.num_rows, 0);
}

#[test]
fn create_sink_matches_field_type() {
    assert!(matches!(create_sink(&field("a", DataType::Float64, true), 2), Sink::Primitive(_)));
    assert!(matches!(create_sink(&field("b", DataType::Boolean, true), 2), Sink::Boolean(_)));
    assert!(matches!(create_sink(&field("c", DataType::Utf8, false), 2), Sink::Bytes(_)));
}

#[test]
fn take_options_default_does_not_check_bounds() {
    assert!(!TakeOptions::default().check_bounds);
}

#[test]
fn check_bounds_accepts_indices_in_range() {
    let idx = PrimitiveColumn { data_type: DataType::Int32, values: vec![0, 1, 2], validity: None };
    assert_eq!(check_bounds(3, &idx), Ok(()));
}

#[test]
fn check_bounds_reports_first_index_out_of_range() {
    let idx = PrimitiveColumn { data_type: DataType::UInt32, values: vec![0, 5, 7], validity: None };
    assert_eq!(check_bounds(3, &idx), Err(ShuffleError::IndexOutOfBounds { index: 5, len: 3 }));
}

#[test]
fn check_bounds_refuses_negative_index() {
    let minus_one = (-1i8) as i64 as u64;
    let idx = PrimitiveColumn { data_type: DataType::Int8, values: vec![1, minus_one], validity: None };
    assert_eq!(check_bounds(3, &idx), Err(ShuffleError::IndexOutOfBounds { index: minus_one, len: 3 }));
}

#[test]
fn check_bounds_with_nulls_checks_valid_entries_only() {
    let minus_one = (-1i16) as i64 as u64;
    let idx = PrimitiveColumn {
        data_type: DataType::Int16,
        values: vec![9, minus_one, 1],
        validity: Some(vec![false, true, true]),
    };
    assert_eq!(check_bounds(3, &idx), Ok(()));
    let idx = PrimitiveColumn { data_type: DataType::Int16, values: vec![9, 4], validity: Some(vec![false, true]) };
    assert_eq!(check_bounds(3, &idx), Err(ShuffleError::IndexOutOfBounds { index: 4, len: 3 }));
}

#[test]
fn check_bounds_skips_when_type_cannot_reach_length() {
    let idx = PrimitiveColumn { data_type: DataType::UInt8, values: vec![255], validity: None };
    assert_eq!(check_bounds(512, &idx), Ok(()));
}

#[test]
fn check_bounds_refuses_float_indices() {
    let idx = PrimitiveColumn { data_type: DataType::Float32, values: vec![0], validity: None };
    assert_eq!(check_bounds(3, &idx), Err(ShuffleError::IndexCastFailed));
}

#[test]
fn take_primitive_null_index_gives_null_row() {
    let f = field("a", DataType::Int32, true);
    let mut sink = create_sink(&f, 4);
    let values = int32(&[Some(1), Some(2), Some(3), None, Some(5)]);
    let index_column = Column::Primitive(PrimitiveColumn {
        data_type: DataType::UInt32,
        values: vec![0, 0, 4, 3],
        validity: Some(vec![true, false, true, true]),
    });
    take_to_sink(&values, &mut sink, &index_column).unwrap();
    let out = finish_sink(&f, &mut sink, 4);
    let out = primitive(&out);
    assert_eq!(out.validity, Some(vec![true, false, true, false]));
    assert_eq!(out.values[0], 1);
    assert_eq!(out.values[2], 5);
}

#[test]
fn take_to_sinks_null_index_out_of_range_gives_null_row() {
    let fields = vec![field("a", DataType::Int32, true)];
    let mut sinks = create_sinks(&fields, 4);
    let arrays = vec![int32(&[Some(7), Some(8)])];
    let index_column = Column::Primitive(PrimitiveColumn {
        data_type: DataType::UInt32,
        values: vec![1, 99],
        validity: Some(vec![true, false]),
    });
    take_to_sinks(&arrays, &mut sinks, &index_column).unwrap();
    let out = finish_sink(&fields[0], &mut sinks[0], 4);
    let out = primitive(&out);
    assert_eq!(out.values, vec![8, 0]);
    assert_eq!(out.validity, Some(vec![true, false]));
}
