use bench_shuffle::batch::Batch;
use bench_shuffle::bench_fns::{
    base_partitions, indices_per_partition, interleave_indices, partitions_for_rows, splitters_approach,
    take_to_builders_approach, take_to_builders_column_wise_approach, GenerateArgs, Input, InputColumns, InputRef,
    SplittersInput,
};
use bench_shuffle::column::{ByteColumn, Column, DataType, Field};

fn field(name: &str, data_type: DataType, nullable: bool) -> Field {
    Field { name: name.to_string(), data_type, nullable }
}

fn utf8(values: &[Option<&str>]) -> Column {
    let mut offsets = vec![0usize];
    let mut bytes = Vec::new();
    for v in values {
        if let Some(s) = v {
            bytes.extend_from_slice(s.as_bytes());
        }
        offsets.push(bytes.len());
    }
    let validity = if values.iter().any(|v| v.is_none()) {
        Some(values.iter().map(|v| v.is_some()).collect())
    } else {
        None
    };
    Column::Bytes(ByteColumn { data_type: DataType::Utf8, offsets, values: bytes, validity })
}

fn strings(column: &Column) -> Vec<Option<String>> {
    match column {
        Column::Bytes(c) => (0..c.offsets.len() - 1)
            .map(|i| {
                let valid = c.validity.as_ref().map_or(true, |v| v[i]);
                if valid {
                    Some(String::from_utf8(c.values[c.offsets[i]..c.offsets[i + 1]].to_vec()).unwrap())
                } else {
                    None
                }
            })
            .collect(),
        other => panic!("expected a byte column, got {other:?}"),
    }
}

fn index_values(column: &Column) -> Vec<u64> {
    match column {
        Column::Primitive(c) => {
            assert_eq!(c.data_type, DataType::UInt32);
            assert!(c.validity.is_none());
            c.values.clone()
        }
        other => panic!("expected an index column, got {other:?}"),
    }
}

/// Two batches of one string column, with the partition of each row.
fn inputs() -> Vec<Input> {
    let schema = vec![field("s", DataType::Utf8, true)];
    let batches = vec![
        (utf8(&[Some("a"), None, Some("cc"), Some("d")]), vec![1usize, 0, 1, 1]),
        (utf8(&[Some("e"), Some("ff")]), vec![0usize, 1]),
    ];
    batches
        .into_iter()
        .map(|(column, partitions)| {
            let indices = indices_per_partition(&partitions, 2);
            Input {
                batch: Batch::try_new_with_row_count(&schema, vec![column], partitions.len()).unwrap(),
                partitions,
                indices_per_partition: indices,
            }
        })
        .collect()
}

#[test]
fn generate_args_holds_its_values() {
    let args = GenerateArgs { num_partitions: 3, num_rows: 10, num_batches: 2, seed: 42 };
    assert_eq!((args.num_partitions, args.num_rows, args.num_batches, args.seed), (3, 10, 2, 42));
}

#[test]
fn base_partitions_go_round_robin() {
    assert_eq!(base_partitions(7, 3), vec![0, 1, 2, 0, 1, 2, 0]);
    assert!(base_partitions(0, 3).is_empty());
}

#[test]
fn partitions_for_rows_are_a_shuffle_of_round_robin() {
    let shuffled = partitions_for_rows(100, 7, 42);
    let base = base_partitions(100, 7);
    assert_ne!(shuffled, base);
    let mut sorted = shuffled.clone();
    sorted.sort();
    let mut expected = base.clone();
    expected.sort();
    assert_eq!(sorted, expected);
    assert_eq!(partitions_for_rows(100, 7, 42), shuffled);
}

#[test]
fn indices_per_partition_lists_rows_in_order() {
    let partitions = vec![2usize, 0, 2, 1, 0];
    let indices = indices_per_partition(&partitions, 4);
    assert_eq!(indices.len(), 4);
    assert_eq!(index_values(&indices[0]), vec![1, 4]);
    assert_eq!(index_values(&indices[1]), vec![3]);
    assert_eq!(index_values(&indices[2]), vec![0, 2]);
    assert_eq!(index_values(&indices[3]), Vec::<u64>::new());
}

#[test]
fn interleave_indices_pair_batches_and_rows() {
    let inputs = inputs();
    let pairs = interleave_indices(&inputs, 2);
    assert_eq!(pairs, vec![vec![(0, 1), (1, 0)], vec![(0, 0), (0, 2), (0, 3), (1, 1)]]);
}

#[test]
fn take_to_builders_approach_gathers_partitions() {
    let inputs = inputs();
    let refs: Vec<InputRef> = inputs.iter().map(|i| i.as_ref()).collect();
    let out = take_to_builders_approach(&refs, 8, 2);
    assert_eq!(out.len(), 2);
    assert_eq!(out[0].len(), 1);
    assert_eq!(out[0][0].num_rows, 2);
    assert_eq!(strings(&out[0][0].columns[0]), vec![None, Some("e".to_string())]);
    assert_eq!(out[1][0].num_rows, 4);
    assert_eq!(
        strings(&out[1][0].columns[0]),
        vec![Some("a".to_string()), Some("cc".to_string()), Some("d".to_string()), Some("ff".to_string())]
    );
}

#[test]
fn take_to_builders_column_wise_approach_gathers_partitions() {
    let inputs = inputs();
    let refs: Vec<InputRef> = inputs.iter().map(|i| i.as_ref()).collect();
    let columns = InputColumns::from(&inputs);
    let out = take_to_builders_column_wise_approach(&refs, &columns, 8, 2);
    assert_eq!(out.len(), 2);
    assert_eq!(strings(&out[0][0].columns[0]), vec![None, Some("e".to_string())]);
    assert_eq!(
        strings(&out[1][0].columns[0]),
        vec![Some("a".to_string()), Some("cc".to_string()), Some("d".to_string()), Some("ff".to_string())]
    );
    assert_eq!(out[1][0].schema[0].name, "s");
}

#[test]
fn splitters_approach_agrees_with_take_approach() {
    let inputs = inputs();
    let splitters_input = SplittersInput::from(&inputs);
    assert_eq!(splitters_input.indices, vec![vec![1u32, 0, 1, 1], vec![0u32, 1]]);
    let out = splitters_approach(&splitters_input.as_ref(), 8, 2);
    let refs: Vec<InputRef> = inputs.iter().map(|i| i.as_ref()).collect();
    let taken = take_to_builders_approach(&refs, 8, 2);
    for p in 0..2 {
        assert_eq!(out[p].len(), 1);
        assert_eq!(out[p][0].num_rows, taken[p][0].num_rows);
        assert_eq!(strings(&out[p][0].columns[0]), strings(&taken[p][0].columns[0]));
    }
}

#[test]
fn input_columns_regroup_by_column() {
    let inputs = inputs();
    let columns = InputColumns::from(&inputs);
    assert_eq!(columns.columns.len(), 1);
    assert_eq!(columns.columns[0].len(), 2);
    assert_eq!(strings(columns.columns[0][1].column), vec![Some("e".to_string()), Some("ff".to_string())]);
    assert_eq!(columns.columns[0][1].indices_per_partition.len(), 2);
}

#[test]
fn partitions_for_rows_spread_rows_evenly() {
    let partitions = partitions_for_rows(10, 3, 7);
    let counts: Vec<usize> = (0..3).map(|p| partitions.iter().filter(|x| **x == p).count()).collect();
    assert_eq!(counts, vec![4, 3, 3]);
}

#[test]
fn column_wise_and_batch_wise_take_give_same_rows() {
    let inputs = inputs();
    let refs: Vec<InputRef> = inputs.iter().map(|i| i.as_ref()).collect();
    let columns = InputColumns::from(&inputs);
    let by_batch = take_to_builders_approach(&refs, 8, 2);
    let by_column = take_to_builders_column_wise_approach(&refs, &columns, 8, 2);
    for p in 0..2 {
        assert_eq!(by_batch[p][0].num_rows, by_column[p][0].num_rows);
        assert_eq!(strings(&by_batch[p][0].columns[0]), strings(&by_column[p][0].columns[0]));
    }
}
