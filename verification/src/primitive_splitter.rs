//! Splitting a column of fixed width values into partitions.
use crate::capacity_tracker::batch_limit;
use crate::column::{all_valid, paired_len, select_partition, validity_bits, Column, DataType, PrimitiveColumn};
use crate::splitter_args::CreateSplitterArgs;
use crate::splitter_nullable_helper::SplitterNullableHelper;
use vstd::prelude::*;

verus! {

/// The values of the columns handed out for partition `p`, in order.
pub open spec fn emitted_values(ready: Seq<(usize, Column)>, p: int) -> Seq<u64>
    decreases ready.len(),
{
    if ready.len() == 0 {
        Seq::empty()
    } else {
        let prev = emitted_values(ready.drop_last(), p);
        if ready.last().0 == p {
            prev + ready.last().1->Primitive_0.values@
        } else {
            prev
        }
    }
}

/// The validity bits of the columns handed out for partition `p`, in order
/// (all `true` for a column without validity).
pub open spec fn emitted_bits(ready: Seq<(usize, Column)>, p: int) -> Seq<bool>
    decreases ready.len(),
{
    if ready.len() == 0 {
        Seq::empty()
    } else {
        let prev = emitted_bits(ready.drop_last(), p);
        if ready.last().0 == p {
            prev + validity_bits(
                ready.last().1->Primitive_0.validity,
                ready.last().1->Primitive_0.values@.len(),
            )
        } else {
            prev
        }
    }
}

/// A column handed out by a splitter: a well formed column of fixed width
/// values of the splitter's type, without validity when the field is not
/// nullable.
pub open spec fn emitted_ok(entry: (usize, Column), num_partitions: nat, data_type: DataType, nullable: bool) -> bool {
    &&& entry.0 < num_partitions
    &&& entry.1 is Primitive
    &&& entry.1.wf()
    &&& entry.1->Primitive_0.data_type == data_type
    &&& (!nullable ==> entry.1->Primitive_0.validity is None)
}

/// Every partition's values and validity bits, handed out, are equally many.
pub proof fn lemma_emitted_lengths(ready: Seq<(usize, Column)>, p: int)
    requires
        forall|k: int| 0 <= k < ready.len() ==> (#[trigger] ready[k]).1 is Primitive && ready[k].1.wf(),
    ensures
        emitted_values(ready, p).len() == emitted_bits(ready, p).len(),
    decreases ready.len(),
{
    if ready.len() > 0 {
        assert forall|k: int| 0 <= k < ready.drop_last().len() implies (#[trigger] ready.drop_last()[k]).1 is Primitive
            && ready.drop_last()[k].1.wf() by {
            assert(ready.drop_last()[k] == ready[k]);
        }
        lemma_emitted_lengths(ready.drop_last(), p);
        assert(ready.last() == ready[ready.len() - 1]);
    }
}

/// Fewer rows give a partition no more entries, whatever the rows hold.
pub proof fn lemma_select_len_monotone<X, Y>(rows1: Seq<X>, rows2: Seq<Y>, indices: Seq<u32>, p: int, n1: nat, n2: nat)
    requires
        n1 <= n2,
    ensures
        select_partition(rows1, indices, p, n1).len() <= select_partition(rows2, indices, p, n2).len(),
    decreases n2,
{
    if n1 < n2 {
        lemma_select_len_monotone(rows1, rows2, indices, p, n1, (n2 - 1) as nat);
    } else if n1 > 0 {
        lemma_select_len_monotone(rows1, rows2, indices, p, (n1 - 1) as nat, (n2 - 1) as nat);
    }
}

/// Splits columns of fixed width values into partitions, handing a
/// partition's values out as a column whenever `max_array_length` of them
/// are collected.
pub struct PrimitiveColumnSplitter {
    /// The maximum length for a partition array.
    max_array_length: usize,
    /// The values collected for each partition.
    partitions: Vec<Vec<u64>>,
    nulls: SplitterNullableHelper,
    /// The index of the column in the schema this splitter is for.
    column_index: usize,
    /// The type of the column.
    data_type: DataType,
    /// The number of rows handed in so far.
    received_rows: Ghost<nat>,
}

impl PrimitiveColumnSplitter {
    pub closed spec fn values(&self, p: int) -> Seq<u64> {
        self.partitions@[p]@
    }

    /// The validity bits collected for partition `p` (when the field is nullable).
    pub closed spec fn bits(&self, p: int) -> Seq<bool> {
        self.nulls.bits(p)
    }

    pub closed spec fn nullable(&self) -> bool {
        self.nulls.nullable()
    }

    pub closed spec fn num_partitions(&self) -> nat {
        self.partitions@.len()
    }

    pub closed spec fn spec_max_array_length(&self) -> nat {
        self.max_array_length as nat
    }

    pub closed spec fn spec_data_type(&self) -> DataType {
        self.data_type
    }

    pub closed spec fn spec_column_index(&self) -> usize {
        self.column_index
    }

    pub closed spec fn spec_received_rows(&self) -> nat {
        self.received_rows@
    }

    pub closed spec fn wf(&self) -> bool {
        &&& self.wf_loose()
        &&& forall|p: int| 0 <= p < self.partitions@.len() ==> (#[trigger] self.partitions@[p])@.len() < self.max_array_length
            || (self.partitions@[p]@.len() == 0)
    }

    /// Partition `p` has a validity bit for each of its values, and no more
    /// bits than rows were received.
    closed spec fn bits_cover(&self, p: int) -> bool {
        &&& self.values(p).len() <= self.bits(p).len()
        &&& self.bits(p).len() <= self.received_rows@
    }

    /// The invariant, but for the bound on the number of values.
    closed spec fn wf_loose(&self) -> bool {
        &&& self.data_type.spec_is_primitive()
        &&& self.received_rows@ < usize::MAX
        &&& self.nulls.nullable() ==> self.nulls.num_partitions() == self.partitions@.len()
        &&& forall|p: int| 0 <= p < self.partitions@.len() && self.nulls.nullable() ==> #[trigger] self.bits_cover(p)
    }

    /// A splitter with no values in any partition.
    pub fn new(args: CreateSplitterArgs<'_>) -> (r: Self)
        requires
            args.field.data_type.spec_is_primitive(),
        ensures
            r.wf(),
            r.num_partitions() == args.number_of_partitions,
            r.nullable() == args.field.nullable,
            r.spec_max_array_length() == args.batch_size,
            r.spec_data_type() == args.field.data_type,
            r.spec_column_index() == args.column_index,
            r.spec_received_rows() == 0,
            forall|p: int| 0 <= p < args.number_of_partitions ==> (#[trigger] r.values(p)).len() == 0,
            forall|p: int| 0 <= p < args.number_of_partitions && r.nullable() ==> (#[trigger] r.bits(p)).len() == 0,
    {
        let mut partitions: Vec<Vec<u64>> = Vec::new();
        let mut i: usize = 0;
        while i < args.number_of_partitions
            invariant
                i <= args.number_of_partitions,
                partitions@.len() == i,
                forall|p: int| 0 <= p < i ==> (#[trigger] partitions@[p])@.len() == 0,
            decreases args.number_of_partitions - i,
        {
            partitions.push(Vec::with_capacity(args.batch_size));
            i = i + 1;
        }
        let nulls = SplitterNullableHelper::new(args.field.nullable, args.number_of_partitions, args.batch_size);
        PrimitiveColumnSplitter {
            max_array_length: args.batch_size,
            partitions,
            nulls,
            column_index: args.column_index,
            data_type: args.field.data_type,
            received_rows: Ghost(0),
        }
    }

    /// The rows whose partition index must name a partition: all indices when
    /// validity bits are appended for every index, else the paired rows.
    pub open spec fn indexed_rows(&self, input_column: Column, indices: Seq<u32>) -> nat {
        if self.nullable() && input_column.spec_null_count() == 0 {
            indices.len()
        } else {
            paired_len(input_column.spec_len(), indices.len())
        }
    }

    /// Adds the rows of the column to the partitions that `indices` name:
    /// their validity bits first, then their values; a partition that
    /// reaches `max_array_length` values is handed out as a column at once.
    /// Returns the columns handed out, with their partitions, in order.
    pub fn add_values(&mut self, input_column: &Column, indices: &[u32]) -> (r: Vec<(usize, Column)>)
        requires
            old(self).wf(),
            input_column.wf(),
            input_column is Primitive,
            input_column.spec_data_type() == old(self).spec_data_type(),
            old(self).nullable() || input_column.spec_null_count() == 0,
            forall|i: int| 0 <= i < old(self).indexed_rows(*input_column, indices@) ==> (#[trigger] indices@[i])
                < old(self).num_partitions(),
            old(self).spec_received_rows() + indices@.len() < usize::MAX,
        ensures
            final(self).wf(),
            final(self).num_partitions() == old(self).num_partitions(),
            final(self).nullable() == old(self).nullable(),
            final(self).spec_max_array_length() == old(self).spec_max_array_length(),
            final(self).spec_data_type() == old(self).spec_data_type(),
            final(self).spec_column_index() == old(self).spec_column_index(),
            final(self).spec_received_rows() == old(self).spec_received_rows() + indices@.len(),
            forall|k: int| 0 <= k < r@.len() ==> #[trigger] emitted_ok(
                r@[k],
                old(self).num_partitions(),
                old(self).spec_data_type(),
                old(self).nullable(),
            ),
            forall|k: int| 0 <= k < r@.len() ==> (#[trigger] r@[k]).1.spec_len() == batch_limit(old(self).spec_max_array_length()),
            forall|p: int| 0 <= p < old(self).num_partitions() ==> #[trigger] emitted_values(r@, p) + final(self).values(p)
                == old(self).values(p) + select_partition(
                input_column->Primitive_0.values@,
                indices@,
                p,
                paired_len(input_column.spec_len(), indices@.len()),
            ),
            old(self).nullable() ==> forall|p: int| 0 <= p < old(self).num_partitions() ==> #[trigger] emitted_bits(r@, p)
                + final(self).bits(p) == old(self).bits(p) + SplitterNullableHelper::added_bits(
                *input_column,
                indices@,
                p,
            ),
    {
        let mut ready: Vec<(usize, Column)> = Vec::new();
        let input = match input_column {
            Column::Primitive(c) => c,
            _ => {
                return ready;
            },
        };
        let ghost nparts = self.partitions@.len();
        let ghost old_self = *self;
        let ghost vals = input.values@;
        proof {
            if self.nullable() {
                assert forall|i: int| 0 <= i < SplitterNullableHelper::bit_rows(*input_column, indices@) implies (#[trigger] indices@[i])
                    < self.nulls.num_partitions() by {
                    assert(i < self.indexed_rows(*input_column, indices@));
                }
                assert forall|p: int| 0 <= p < self.nulls.num_partitions() implies (#[trigger] self.nulls.bits(p)).len() + indices@.len()
                    < usize::MAX by {
                    assert(self.bits_cover(p));
                }
            }
        }
        self.nulls.add_nulls(input_column, indices);
        let ghost after_nulls = *self;
        let n = if input.values.len() <= indices.len() {
            input.values.len()
        } else {
            indices.len()
        };
        self.received_rows = Ghost((self.received_rows@ + indices@.len()) as nat);
        let ghost nullable = self.nulls.nullable();
        proof {
            assert(input_column.validity() == input.validity);
            assert forall|p: int| 0 <= p < nparts implies #[trigger] emitted_values(ready@, p) + self.values(p)
                == old_self.values(p) + select_partition(vals, indices@, p, 0) by {
                assert(self.partitions@[p] == old_self.partitions@[p]);
                assert(emitted_values(ready@, p) + self.values(p) =~= self.values(p));
                assert(old_self.values(p) + select_partition(vals, indices@, p, 0) =~= old_self.values(p));
            }
            assert forall|p: int| 0 <= p < nparts implies #[trigger] self.partitions@[p]@.len() < self.max_array_length
                || self.partitions@[p]@.len() == 0 by {
                assert(self.partitions@[p] == old_self.partitions@[p]);
            }
            if nullable {
                assert forall|p: int| 0 <= p < nparts implies #[trigger] emitted_bits(ready@, p) + self.bits(p)
                    == after_nulls.bits(p) by {
                    assert(emitted_bits(ready@, p) + self.bits(p) =~= self.bits(p));
                }
                assert forall|p: int| 0 <= p < nparts implies #[trigger] self.bits_cover(p) by {
                    assert(self.partitions@[p] == old_self.partitions@[p]);
                    assert(old_self.wf_loose());
                    assert(old_self.bits_cover(p));
                    assert(old_self.values(p).len() <= old_self.bits(p).len());
                    assert(old_self.bits(p).len() <= old_self.received_rows@);
                    assert(after_nulls.bits(p) == old_self.bits(p) + SplitterNullableHelper::added_bits(*input_column, indices@, p));
                    if input_column.spec_null_count() == 0 {
                        crate::column::lemma_select_partition_len(all_valid(indices@.len()), indices@, p, indices@.len());
                    } else {
                        let v = input_column.validity()->0@;
                        crate::column::lemma_select_partition_len(v, indices@, p, paired_len(v.len(), indices@.len()));
                    }
                }
            }
        }
        let mut i: usize = 0;
        while i < n
            invariant
                i <= n,
                n == paired_len(input_column.spec_len(), indices@.len()),
                input_column.wf(),
                vals == input.values@,
                *input_column == Column::Primitive(*input),
                input_column.validity() == input.validity,
                input.data_type == old_self.data_type,
                old_self == *old(self),
                old_self.wf(),
                forall|k: int| 0 <= k < n ==> (#[trigger] indices@[k]) < nparts,
                nparts == old_self.partitions@.len(),
                self.partitions@.len() == nparts,
                self.max_array_length == old_self.max_array_length,
                self.data_type == old_self.data_type,
                self.column_index == old_self.column_index,
                self.received_rows@ == old_self.received_rows@ + indices@.len(),
                self.received_rows@ < usize::MAX,
                self.nulls.nullable() == nullable,
                nullable == old_self.nulls.nullable(),
                nullable ==> self.nulls.num_partitions() == nparts,
                nullable ==> forall|p: int| 0 <= p < nparts ==> #[trigger] after_nulls.bits(p)
                    == old_self.bits(p) + SplitterNullableHelper::added_bits(*input_column, indices@, p),
                forall|k: int| 0 <= k < ready@.len() ==> #[trigger] emitted_ok(ready@[k], nparts, self.data_type, nullable),
                forall|k: int| 0 <= k < ready@.len() ==> (#[trigger] ready@[k]).1.spec_len() == batch_limit(self.max_array_length as nat),
                forall|p: int| 0 <= p < nparts ==> #[trigger] emitted_values(ready@, p) + self.values(p)
                    == old_self.values(p) + select_partition(vals, indices@, p, i as nat),
                forall|p: int| 0 <= p < nparts ==> #[trigger] self.partitions@[p]@.len() < self.max_array_length
                    || self.partitions@[p]@.len() == 0,
                nullable ==> forall|p: int| 0 <= p < nparts ==> #[trigger] emitted_bits(ready@, p) + self.bits(p)
                    == after_nulls.bits(p),
                nullable ==> forall|p: int| 0 <= p < nparts ==> #[trigger] self.bits_cover(p),
            decreases n - i,
        {
            let partition_index = indices[i] as usize;
            let column_value = input.values[i];
            let ghost p = partition_index as int;
            let ghost before = *self;
            let ghost ready_before = ready@;
            self.partitions[partition_index].push(column_value);
            proof {
                assert forall|q: int| 0 <= q < nparts implies #[trigger] emitted_values(ready@, q) + self.values(q)
                    == old_self.values(q) + select_partition(vals, indices@, q, (i + 1) as nat) by {
                    assert(emitted_values(ready@, q) + before.values(q) == old_self.values(q) + select_partition(vals, indices@, q, i as nat));
                    if q == p {
                        let e = emitted_values(ready@, q);
                        assert(e + before.values(q).push(column_value) =~= (e + before.values(q)).push(column_value));
                        assert(old_self.values(q) + select_partition(vals, indices@, q, i as nat).push(column_value)
                            =~= (old_self.values(q) + select_partition(vals, indices@, q, i as nat)).push(column_value));
                    } else {
                        assert(self.partitions@[q] == before.partitions@[q]);
                    }
                }
                if nullable {
                    assert forall|q: int| 0 <= q < nparts implies #[trigger] emitted_bits(ready@, q) + self.bits(q)
                        == after_nulls.bits(q) by {
                        assert(emitted_bits(ready@, q) + before.bits(q) == after_nulls.bits(q));
                    }
                    assert forall|k: int| 0 <= k < ready@.len() implies (#[trigger] ready@[k]).1 is Primitive && ready@[k].1.wf() by {
                        assert(emitted_ok(ready@[k], nparts, self.data_type, nullable));
                    }
                    assert forall|q: int| 0 <= q < nparts implies #[trigger] self.bits_cover(q) by {
                        assert(before.bits_cover(q));
                        assert(before.values(q).len() <= before.bits(q).len());
                        assert(before.bits(q).len() <= before.received_rows@);
                        if q == p {
                            lemma_emitted_lengths(ready@, p);
                            assert(emitted_bits(ready@, p) + self.bits(p) == after_nulls.bits(p));
                            assert(after_nulls.bits(p) == old_self.bits(p) + SplitterNullableHelper::added_bits(*input_column, indices@, p));
                            assert(old_self.bits_cover(p));
                            if input_column.spec_null_count() == 0 {
                                lemma_select_len_monotone(vals, all_valid(indices@.len()), indices@, p, (i + 1) as nat, indices@.len());
                            } else {
                                assert(input.validity is Some);
                                let v = input_column.validity()->0@;
                                assert(v.len() == vals.len());
                                lemma_select_len_monotone(vals, v, indices@, p, (i + 1) as nat, paired_len(v.len(), indices@.len()));
                            }
                        } else {
                            assert(self.partitions@[q] == before.partitions@[q]);
                        }
                    }
                }
            }
            if self.partitions[partition_index].len() >= self.max_array_length {
                let ghost pushed = *self;
                proof {
                    assert(before.partitions@[p]@.len() < self.max_array_length || before.partitions@[p]@.len() == 0);
                    assert(self.values(p).len() == batch_limit(self.max_array_length as nat));
                }
                let finished = self.finish_in_progress(partition_index);
                match finished {
                    Some(array) => {
                        ready.push((partition_index, array));
                    },
                    None => {},
                }
                proof {
                    assert(ready@.drop_last() =~= ready_before);
                    assert(ready@.last() == (partition_index, finished->0));
                    assert forall|q: int| 0 <= q < nparts implies #[trigger] emitted_values(ready@, q) + self.values(q)
                        == old_self.values(q) + select_partition(vals, indices@, q, (i + 1) as nat) by {
                        assert(emitted_values(ready_before, q) + pushed.values(q) == old_self.values(q) + select_partition(vals, indices@, q, (i + 1) as nat));
                        if q == p {
                            assert(emitted_values(ready@, q) =~= emitted_values(ready_before, q) + pushed.values(q));
                            assert(emitted_values(ready@, q) + self.values(q) =~= emitted_values(ready@, q));
                        } else {
                            assert(emitted_values(ready@, q) == emitted_values(ready_before, q));
                        }
                    }
                    assert forall|q: int| 0 <= q < nparts implies #[trigger] self.partitions@[q]@.len() < self.max_array_length
                        || self.partitions@[q]@.len() == 0 by {
                        if q != p {
                            assert(self.values(q) == pushed.values(q));
                            assert(before.partitions@[q]@.len() < self.max_array_length || before.partitions@[q]@.len() == 0);
                            assert(pushed.partitions@[q] == before.partitions@[q]);
                        }
                    }
                    if nullable {
                        assert forall|q: int| 0 <= q < nparts implies #[trigger] emitted_bits(ready@, q) + self.bits(q)
                            == after_nulls.bits(q) by {
                            assert(emitted_bits(ready_before, q) + pushed.bits(q) == after_nulls.bits(q));
                            if q == p {
                                let last = ready@.last().1->Primitive_0;
                                let b = validity_bits(last.validity, last.values@.len());
                                assert(emitted_bits(ready@, q) == emitted_bits(ready_before, q) + b);
                                let len = pushed.values(p).len();
                                assert(pushed.bits_cover(p));
                                assert(last.values@ == pushed.values(p));
                                assert(b == pushed.bits(p).subrange(0, len as int));
                                assert(self.bits(q) == pushed.bits(p).subrange(len as int, pushed.bits(p).len() as int));
                                assert(b + self.bits(q) =~= pushed.bits(q));
                                assert(emitted_bits(ready_before, q) + b + self.bits(q) =~= emitted_bits(ready_before, q) + (b + self.bits(q)));
                            } else {
                                assert(emitted_bits(ready@, q) == emitted_bits(ready_before, q));
                            }
                        }
                        assert forall|q: int| 0 <= q < nparts implies #[trigger] self.bits_cover(q) by {
                            assert(pushed.bits_cover(q));
                        }
                    }
                }
            } else {
                proof {
                    assert forall|q: int| 0 <= q < nparts implies #[trigger] self.partitions@[q]@.len() < self.max_array_length
                        || self.partitions@[q]@.len() == 0 by {
                        assert(before.partitions@[q]@.len() < self.max_array_length || before.partitions@[q]@.len() == 0);
                        if q != p {
                            assert(self.partitions@[q] == before.partitions@[q]);
                        }
                    }
                }
            }
            i = i + 1;
        }
        proof {
            assert forall|p: int| 0 <= p < nparts && self.nulls.nullable() implies #[trigger] self.bits_cover(p) by {
                assert(self.bits_cover(p));
            }
            assert forall|p: int| 0 <= p < nparts implies (#[trigger] self.partitions@[p])@.len() < self.max_array_length
                || (self.partitions@[p]@.len() == 0) by {
                assert(self.partitions@[p]@.len() < self.max_array_length || self.partitions@[p]@.len() == 0);
            }
            if nullable {
                assert forall|p: int| 0 <= p < nparts implies #[trigger] emitted_bits(ready@, p) + self.bits(p)
                    == old_self.bits(p) + SplitterNullableHelper::added_bits(*input_column, indices@, p) by {
                    assert(emitted_bits(ready@, p) + self.bits(p) == after_nulls.bits(p));
                }
            }
        }
        ready
    }

    /// Hands out every partition that holds values as one column, in the
    /// order of the partitions. Afterwards no partition holds values.
    pub fn finish_and_reset(&mut self) -> (r: Vec<(usize, Column)>)
        requires
            old(self).wf(),
        ensures
            final(self).wf(),
            final(self).num_partitions() == old(self).num_partitions(),
            final(self).nullable() == old(self).nullable(),
            final(self).spec_max_array_length() == old(self).spec_max_array_length(),
            final(self).spec_data_type() == old(self).spec_data_type(),
            final(self).spec_column_index() == old(self).spec_column_index(),
            final(self).spec_received_rows() == old(self).spec_received_rows(),
            forall|k: int| 0 <= k < r@.len() ==> #[trigger] emitted_ok(
                r@[k],
                old(self).num_partitions(),
                old(self).spec_data_type(),
                old(self).nullable(),
            ),
            forall|k1: int, k2: int| 0 <= k1 < k2 < r@.len() ==> (#[trigger] r@[k1]).0 < (#[trigger] r@[k2]).0,
            forall|p: int| 0 <= p < old(self).num_partitions() ==> (#[trigger] final(self).values(p)).len() == 0,
            forall|p: int| 0 <= p < old(self).num_partitions() ==> #[trigger] emitted_values(r@, p) == old(self).values(p),
            old(self).nullable() ==> forall|p: int| 0 <= p < old(self).num_partitions() ==> #[trigger] emitted_bits(r@, p)
                + final(self).bits(p) == old(self).bits(p),
    {
        let mut ready: Vec<(usize, Column)> = Vec::new();
        let ghost nparts = self.partitions@.len();
        let ghost nullable = self.nulls.nullable();
        let mut partition_index: usize = 0;
        while partition_index < self.partitions.len()
            invariant
                partition_index <= nparts,
                self.wf(),
                self.partitions@.len() == nparts,
                nparts == old(self).partitions@.len(),
                self.nulls.nullable() == nullable,
                nullable == old(self).nulls.nullable(),
                self.max_array_length == old(self).max_array_length,
                self.data_type == old(self).data_type,
                self.column_index == old(self).column_index,
                self.received_rows == old(self).received_rows,
                forall|k: int| 0 <= k < ready@.len() ==> #[trigger] emitted_ok(ready@[k], nparts, self.data_type, nullable),
                forall|k: int| 0 <= k < ready@.len() ==> (#[trigger] ready@[k]).0 < partition_index,
                forall|k1: int, k2: int| 0 <= k1 < k2 < ready@.len() ==> (#[trigger] ready@[k1]).0 < (#[trigger] ready@[k2]).0,
                forall|p: int| 0 <= p < partition_index ==> (#[trigger] self.values(p)).len() == 0,
                forall|p: int| partition_index <= p < nparts ==> #[trigger] self.values(p) == old(self).values(p),
                forall|p: int| 0 <= p < nparts ==> #[trigger] emitted_values(ready@, p) + self.values(p) == old(self).values(p),
                nullable ==> forall|p: int| 0 <= p < nparts ==> #[trigger] emitted_bits(ready@, p) + self.bits(p) == old(self).bits(p),
            decreases nparts - partition_index,
        {
            let ghost before = *self;
            let ghost ready_before = ready@;
            if self.partitions[partition_index].len() > 0 {
                let finished = self.finish_in_progress(partition_index);
                match finished {
                    Some(array) => {
                        ready.push((partition_index, array));
                    },
                    None => {},
                }
                proof {
                    let p = partition_index as int;
                    assert(ready@.drop_last() =~= ready_before);
                    assert forall|q: int| 0 <= q < nparts implies #[trigger] emitted_values(ready@, q) + self.values(q) == old(self).values(q) by {
                        assert(emitted_values(ready_before, q) + before.values(q) == old(self).values(q));
                        if q == p {
                            assert(emitted_values(ready@, q) + self.values(q) =~= emitted_values(ready_before, q) + before.values(q));
                        }
                    }
                    if nullable {
                        assert forall|q: int| 0 <= q < nparts implies #[trigger] emitted_bits(ready@, q) + self.bits(q) == old(self).bits(q) by {
                            assert(emitted_bits(ready_before, q) + before.bits(q) == old(self).bits(q));
                            if q == p {
                                let last = ready@.last().1->Primitive_0;
                                let b = validity_bits(last.validity, last.values@.len());
                                let len = before.values(p).len();
                                assert(before.bits_cover(p));
                                assert(b == before.bits(p).subrange(0, len as int));
                                assert(b + self.bits(q) =~= before.bits(q));
                                assert(emitted_bits(ready_before, q) + b + self.bits(q) =~= emitted_bits(ready_before, q) + (b + self.bits(q)));
                            }
                        }
                    }
                    assert forall|q: int| 0 <= q < self.partitions@.len() implies (#[trigger] self.partitions@[q])@.len() < self.max_array_length
                        || (self.partitions@[q]@.len() == 0) by {
                        assert(before.partitions@[q]@.len() < self.max_array_length || before.partitions@[q]@.len() == 0);
                        if q != p {
                            assert(self.values(q) == before.values(q));
                        }
                    }
                }
            }
            partition_index = partition_index + 1;
        }
        ready
    }

    /// How much to preallocate for a partition.
    fn get_capacity_for_partition(&self) -> (r: usize)
        ensures
            r == self.max_array_length,
    {
        self.max_array_length
    }

    /// Hands out the values collected for a partition, with their validity
    /// bits, as one column, and starts the partition afresh. A partition
    /// with no values gives `None`.
    fn finish_in_progress(&mut self, partition_index: usize) -> (r: Option<Column>)
        requires
            old(self).wf_loose(),
            partition_index < old(self).num_partitions(),
        ensures
            final(self).wf_loose(),
            final(self).num_partitions() == old(self).num_partitions(),
            final(self).nullable() == old(self).nullable(),
            final(self).spec_max_array_length() == old(self).spec_max_array_length(),
            final(self).spec_data_type() == old(self).spec_data_type(),
            final(self).spec_column_index() == old(self).spec_column_index(),
            final(self).spec_received_rows() == old(self).spec_received_rows(),
            forall|q: int| 0 <= q < old(self).num_partitions() && q != partition_index ==> #[trigger] final(self).values(q)
                == old(self).values(q),
            forall|q: int| 0 <= q < old(self).num_partitions() && q != partition_index && old(self).nullable() ==> #[trigger] final(self).bits(q)
                == old(self).bits(q),
            ({
                let p = partition_index as int;
                let values = old(self).values(p);
                if values.len() == 0 {
                    &&& r is None
                    &&& final(self).values(p) == values
                    &&& old(self).nullable() ==> final(self).bits(p) == old(self).bits(p)
                } else {
                    &&& r matches Some(Column::Primitive(c)) && c.wf() && c.data_type == old(self).spec_data_type()
                        && c.values@ == values && (old(self).nullable() ==> validity_bits(c.validity, values.len())
                        == old(self).bits(p).subrange(0, values.len() as int)) && (!old(self).nullable() ==> c.validity is None)
                    &&& final(self).values(p).len() == 0
                    &&& old(self).nullable() ==> final(self).bits(p) == old(self).bits(p).subrange(values.len() as int, old(self).bits(p).len() as int)
                }
            }),
    {
        let ghost p = partition_index as int;
        proof {
            if self.nulls.nullable() {
                assert(self.bits_cover(p));
            }
        }
        let capacity = self.get_capacity_for_partition();
        if self.partitions[partition_index].len() == 0 {
            return None;
        }
        let mut current: Vec<u64> = Vec::with_capacity(capacity);
        std::mem::swap(&mut current, &mut self.partitions[partition_index]);
        let length = current.len();
        let ghost old_bits = self.nulls.bits(p);
        let nulls = self.nulls.build_nulls_for_partition(partition_index, length);
        proof {
            if self.nulls.nullable() {
                if nulls is None {
                    crate::column::lemma_count_nulls(old_bits.subrange(0, length as int));
                    assert(validity_bits(nulls, length as nat) =~= old_bits.subrange(0, length as int));
                }
            }
        }
        let arr = PrimitiveColumn { data_type: self.data_type, values: current, validity: nulls };
        proof {
            assert forall|q: int| 0 <= q < self.partitions@.len() && self.nulls.nullable() implies #[trigger] self.bits_cover(q) by {
                assert(old(self).bits_cover(q));
                if q != p {
                    assert(self.partitions@[q] == old(self).partitions@[q]);
                }
            }
        }
        Some(Column::Primitive(arr))
    }
}

} // verus!
