//! The validity bits of every partition of a nullable column.
use crate::buffers::{
    null_buffer_null_count, null_buffer_slice, null_buffer_to_vec, null_builder_append,
    null_builder_append_buffer, null_builder_append_n_non_nulls, null_builder_append_non_null, null_builder_bits,
    null_builder_finish, null_builder_len, null_builder_new,
};
use crate::column::{all_valid, count_nulls, lemma_count_nulls, paired_len, select_partition, Column};
use arrow_buffer::NullBufferBuilder;
use vstd::prelude::*;

verus! {

/// Collects the validity bits of the rows of every partition; holds nothing
/// when the field is not nullable.
pub struct SplitterNullableHelper {
    /// One builder per partition, or `None` when the field is not nullable.
    null_buffer_builders: Option<Vec<NullBufferBuilder>>,
}

impl SplitterNullableHelper {
    /// Whether the field is nullable.
    pub closed spec fn nullable(&self) -> bool {
        self.null_buffer_builders is Some
    }

    pub closed spec fn num_partitions(&self) -> nat {
        match self.null_buffer_builders {
            Some(b) => b@.len(),
            None => 0,
        }
    }

    /// The validity bits collected for partition `p`.
    pub closed spec fn bits(&self, p: int) -> Seq<bool> {
        null_builder_bits(self.null_buffer_builders->0@[p])
    }

    /// Builders for `number_of_partitions` partitions when the field is
    /// nullable, none otherwise.
    pub fn new(nullable: bool, number_of_partitions: usize, array_size: usize) -> (r: Self)
        ensures
            r.nullable() == nullable,
            nullable ==> r.num_partitions() == number_of_partitions,
            nullable ==> forall|p: int| 0 <= p < number_of_partitions ==> (#[trigger] r.bits(p)).len() == 0,
    {
        let null_buffer_builders = if nullable {
            let mut builders: Vec<NullBufferBuilder> = Vec::new();
            let mut i: usize = 0;
            while i < number_of_partitions
                invariant
                    i <= number_of_partitions,
                    builders@.len() == i,
                    forall|p: int| 0 <= p < i ==> null_builder_bits(#[trigger] builders@[p]).len() == 0,
                decreases number_of_partitions - i,
            {
                builders.push(null_builder_new(array_size));
                i = i + 1;
            }
            Some(builders)
        } else {
            None
        };
        SplitterNullableHelper { null_buffer_builders }
    }

    /// The validity bits a column adds to the partitions: for a column
    /// without nulls one `true` per index, otherwise the column's bits paired
    /// with the indices.
    pub open spec fn added_bits(input_column: Column, indices: Seq<u32>, p: int) -> Seq<bool> {
        if input_column.spec_null_count() == 0 {
            select_partition(all_valid(indices.len()), indices, p, indices.len())
        } else {
            let v = input_column.validity()->0@;
            select_partition(v, indices, p, paired_len(v.len(), indices.len()))
        }
    }

    /// The number of indices whose rows get a validity bit: every index for
    /// a column without nulls, else the indices paired with the column's bits.
    pub open spec fn bit_rows(input_column: Column, indices: Seq<u32>) -> nat {
        if input_column.spec_null_count() == 0 {
            indices.len()
        } else {
            paired_len(input_column.validity()->0@.len(), indices.len())
        }
    }

    /// Appends the validity bits of the column's rows to their partitions.
    /// Must be called before the values are added, as adding values can
    /// finish a partition.
    pub fn add_nulls(&mut self, input_column: &Column, indices: &[u32])
        requires
            input_column.wf(),
            old(self).nullable() || input_column.spec_null_count() == 0,
            old(self).nullable() ==> forall|i: int| 0 <= i < Self::bit_rows(*input_column, indices@) ==> (#[trigger] indices@[i]) < old(self).num_partitions(),
            old(self).nullable() ==> forall|p: int| 0 <= p < old(self).num_partitions() ==> (#[trigger] old(self).bits(p)).len()
                + indices@.len() < usize::MAX,
        ensures
            final(self).nullable() == old(self).nullable(),
            final(self).num_partitions() == old(self).num_partitions(),
            old(self).nullable() ==> forall|p: int| 0 <= p < old(self).num_partitions() ==> #[trigger] final(self).bits(p)
                == old(self).bits(p) + Self::added_bits(*input_column, indices@, p),
    {
        let null_count = input_column.null_count();
        match &mut self.null_buffer_builders {
            None => {},
            Some(null_buffer_builders) => {
                let ghost old_builders = null_buffer_builders@;
                let ghost nparts = old_builders.len();
                proof {
                    assert forall|p: int| 0 <= p < nparts implies null_builder_bits(old_builders[p]).len() + indices@.len()
                        < usize::MAX by {
                        assert(old(self).bits(p) == null_builder_bits(old_builders[p]));
                    }
                }
                if null_count == 0 {
                    let ghost vals = all_valid(indices@.len());
                    let mut i: usize = 0;
                    while i < indices.len()
                        invariant
                            i <= indices@.len(),
                            vals == all_valid(indices@.len()),
                            null_buffer_builders@.len() == nparts,
                            forall|k: int| 0 <= k < indices@.len() ==> (#[trigger] indices@[k]) < nparts,
                            forall|p: int| 0 <= p < nparts ==> null_builder_bits(old_builders[p]).len() + indices@.len() < usize::MAX,
                            forall|p: int| 0 <= p < nparts ==> null_builder_bits(#[trigger] null_buffer_builders@[p])
                                == null_builder_bits(old_builders[p]) + select_partition(vals, indices@, p, i as nat),
                        decreases indices@.len() - i,
                    {
                        let partition_index = indices[i] as usize;
                        proof {
                            let p = partition_index as int;
                            crate::column::lemma_select_partition_len(vals, indices@, p, i as nat);
                            assert(null_builder_bits(null_buffer_builders@[p]).len() < usize::MAX);
                        }
                        let ghost before = null_buffer_builders@;
                        null_builder_append_non_null(&mut null_buffer_builders[partition_index]);
                        proof {
                            assert forall|p: int| 0 <= p < nparts implies null_builder_bits(#[trigger] null_buffer_builders@[p])
                                == null_builder_bits(old_builders[p]) + select_partition(vals, indices@, p, (i + 1) as nat) by {
                                if p == partition_index {
                                    assert(vals[i as int] == true);
                                    assert(null_builder_bits(old_builders[p]) + select_partition(vals, indices@, p, i as nat).push(true)
                                        =~= (null_builder_bits(old_builders[p]) + select_partition(vals, indices@, p, i as nat)).push(true));
                                } else {
                                    assert(null_buffer_builders@[p] == before[p]);
                                }
                            }
                        }
                        i = i + 1;
                    }
                } else {
                    let validity = match &input_column {
                        Column::Primitive(c) => &c.validity,
                        Column::Boolean(c) => &c.validity,
                        Column::Bytes(c) => &c.validity,
                    };
                    let input_nulls = match validity {
                        Some(v) => v,
                        None => {
                            return ;
                        },
                    };
                    let n = if indices.len() <= input_nulls.len() {
                        indices.len()
                    } else {
                        input_nulls.len()
                    };
                    proof {
                        assert(n == Self::bit_rows(*input_column, indices@));
                    }
                    let mut i: usize = 0;
                    while i < n
                        invariant
                            i <= n,
                            n <= indices@.len(),
                            n <= input_nulls@.len(),
                            null_buffer_builders@.len() == nparts,
                            forall|k: int| 0 <= k < n ==> (#[trigger] indices@[k]) < nparts,
                            forall|p: int| 0 <= p < nparts ==> null_builder_bits(old_builders[p]).len() + indices@.len() < usize::MAX,
                            forall|p: int| 0 <= p < nparts ==> null_builder_bits(#[trigger] null_buffer_builders@[p])
                                == null_builder_bits(old_builders[p]) + select_partition(input_nulls@, indices@, p, i as nat),
                        decreases n - i,
                    {
                        let partition_index = indices[i] as usize;
                        let is_valid = input_nulls[i];
                        proof {
                            let p = partition_index as int;
                            crate::column::lemma_select_partition_len(input_nulls@, indices@, p, i as nat);
                        }
                        let ghost before = null_buffer_builders@;
                        null_builder_append(&mut null_buffer_builders[partition_index], is_valid);
                        proof {
                            assert forall|p: int| 0 <= p < nparts implies null_builder_bits(#[trigger] null_buffer_builders@[p])
                                == null_builder_bits(old_builders[p]) + select_partition(input_nulls@, indices@, p, (i + 1) as nat) by {
                                if p == partition_index {
                                    assert(null_builder_bits(old_builders[p]) + select_partition(input_nulls@, indices@, p, i as nat).push(is_valid)
                                        =~= (null_builder_bits(old_builders[p]) + select_partition(input_nulls@, indices@, p, i as nat)).push(is_valid));
                                } else {
                                    assert(null_buffer_builders@[p] == before[p]);
                                }
                            }
                        }
                        i = i + 1;
                    }
                }
            },
        }
    }

    /// Takes the first `length` validity bits of a partition for an array of
    /// `length` rows; the bits after them stay for the next array. Gives
    /// `None` when the field is not nullable or those bits hold no null.
    pub fn build_nulls_for_partition(&mut self, partition_index: usize, length: usize) -> (r: Option<Vec<bool>>)
        requires
            old(self).nullable() ==> partition_index < old(self).num_partitions(),
            old(self).nullable() ==> length <= old(self).bits(partition_index as int).len(),
        ensures
            final(self).nullable() == old(self).nullable(),
            final(self).num_partitions() == old(self).num_partitions(),
            !old(self).nullable() ==> r is None,
            old(self).nullable() ==> {
                let bits = old(self).bits(partition_index as int);
                let taken = bits.subrange(0, length as int);
                &&& final(self).bits(partition_index as int) == bits.subrange(length as int, bits.len() as int)
                &&& forall|q: int| 0 <= q < old(self).num_partitions() && q != partition_index ==> #[trigger] final(self).bits(q)
                    == old(self).bits(q)
                &&& if count_nulls(taken) > 0 {
                    r matches Some(v) && v@ == taken
                } else {
                    r is None
                }
            },
    {
        let null_buffer_builders = match &mut self.null_buffer_builders {
            Some(b) => b,
            None => {
                return None;
            },
        };
        let ghost old_builders = null_buffer_builders@;
        let ghost bits = null_builder_bits(old_builders[partition_index as int]);
        let length_of_nulls = null_builder_len(&null_buffer_builders[partition_index]);
        let nulls = null_builder_finish(&mut null_buffer_builders[partition_index]);
        let mut result: Option<Vec<bool>> = None;
        if length_of_nulls != length {
            let number_of_nulls_to_add_back = length_of_nulls - length;
            match nulls {
                Some(nulls) => {
                    let nulls_in_current_value = null_buffer_slice(&nulls, 0, length);
                    let nulls_to_add_back = null_buffer_slice(&nulls, length, number_of_nulls_to_add_back);
                    if null_buffer_null_count(&nulls_to_add_back) > 0 {
                        null_builder_append_buffer(&mut null_buffer_builders[partition_index], &nulls_to_add_back);
                    } else {
                        null_builder_append_n_non_nulls(&mut null_buffer_builders[partition_index], number_of_nulls_to_add_back);
                        proof {
                            lemma_count_nulls(bits.subrange(length as int, bits.len() as int));
                            assert(Seq::new(number_of_nulls_to_add_back as nat, |i: int| true) =~= bits.subrange(length as int, bits.len() as int));
                        }
                    }
                    if null_buffer_null_count(&nulls_in_current_value) > 0 {
                        result = Some(null_buffer_to_vec(&nulls_in_current_value));
                    }
                },
                None => {
                    null_builder_append_n_non_nulls(&mut null_buffer_builders[partition_index], number_of_nulls_to_add_back);
                    proof {
                        assert(Seq::new(number_of_nulls_to_add_back as nat, |i: int| true) =~= bits.subrange(length as int, bits.len() as int));
                        lemma_count_nulls(bits.subrange(0, length as int));
                    }
                },
            }
        } else {
            proof {
                assert(bits.subrange(0, length as int) =~= bits);
                assert(bits.subrange(length as int, bits.len() as int) =~= Seq::<bool>::empty());
            }
            match nulls {
                Some(nulls) => {
                    if null_buffer_null_count(&nulls) > 0 {
                        result = Some(null_buffer_to_vec(&nulls));
                    }
                },
                None => {
                    proof {
                        lemma_count_nulls(bits);
                    }
                },
            }
        }
        proof {
            assert(Seq::<bool>::empty() + bits.subrange(length as int, bits.len() as int) =~= bits.subrange(length as int, bits.len() as int));
        }
        result
    }
}

} // verus!
