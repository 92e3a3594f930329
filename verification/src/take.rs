//! Taking rows by index from columns into sinks that collect the rows of
//! one output column each.
use crate::batch::{nulls_not_allowed, Batch, ShuffleError};
use crate::buffers::{
    boolean_builder_append, boolean_builder_bits, boolean_builder_finish, boolean_builder_new,
    null_buffer_null_count, null_buffer_to_vec, null_builder_append, null_builder_append_n_non_nulls,
    null_builder_bits, null_builder_finish, null_builder_new,
};
use crate::column::{
    all_valid, validity_bits, count_false, count_nulls, lemma_count_nulls, null_count_of, optional_null_count, slot_is_valid, BooleanColumn, ByteColumn, Column, DataType, Field, PrimitiveColumn,
};
use arrow_buffer::{BooleanBufferBuilder, NullBufferBuilder};
use vstd::prelude::*;

verus! {

/// A column's validity as a sequence: kept only when it holds a null.
pub open spec fn normalized_validity(bits: Seq<bool>) -> Option<Seq<bool>> {
    if count_nulls(bits) > 0 {
        Some(bits)
    } else {
        None
    }
}

/// The view of an optional validity vector.
pub open spec fn validity_view(v: Option<Vec<bool>>) -> Option<Seq<bool>> {
    match v {
        Some(v) => Some(v@),
        None => None,
    }
}

/// Collects the validity bits of the rows taken into a sink.
pub struct NullSink {
    inner: NullBufferBuilder,
}

impl NullSink {
    pub closed spec fn bits(&self) -> Seq<bool> {
        null_builder_bits(self.inner)
    }

    fn new(capacity: usize) -> (r: Self)
        ensures
            r.bits() == Seq::<bool>::empty(),
    {
        NullSink { inner: null_builder_new(capacity) }
    }

    /// The collected bits, kept only when one of them is a null.
    fn finish(self) -> (r: Option<Vec<bool>>)
        ensures
            validity_view(r) == normalized_validity(self.bits()),
    {
        let mut inner = self.inner;
        let ghost bits = null_builder_bits(inner);
        match null_builder_finish(&mut inner) {
            Some(n) => {
                if null_buffer_null_count(&n) > 0 {
                    Some(null_buffer_to_vec(&n))
                } else {
                    None
                }
            },
            None => {
                proof {
                    lemma_count_nulls(bits);
                }
                None
            },
        }
    }

    /// `finish` on a boxed sink.
    fn finish_boxed(self: Box<Self>) -> (r: Option<Vec<bool>>)
        ensures
            validity_view(r) == normalized_validity(self.bits()),
    {
        (*self).finish()
    }

    /// Finishes the sink held in `value`, leaving `None` there.
    fn finish_option(value: &mut Option<NullSink>) -> (r: Option<Vec<bool>>)
        ensures
            *final(value) is None,
            validity_view(r) == match *old(value) {
                Some(n) => normalized_validity(n.bits()),
                None => None,
            },
    {
        let taken = value.take();
        match taken {
            Some(n) => {
                let r = n.finish();
                match r {
                    Some(v) => {
                        if crate::column::count_false(&v) > 0 {
                            Some(v)
                        } else {
                            None
                        }
                    },
                    None => None,
                }
            },
            None => None,
        }
    }
}

/// The bits of the validity collected in an optional null sink.
pub open spec fn sink_nulls(nulls: Option<NullSink>) -> Option<Seq<bool>> {
    match nulls {
        Some(n) => Some(n.bits()),
        None => None,
    }
}

/// A null sink for a field: one when the field is nullable.
fn null_sink_for(field: &Field, batch_size: usize) -> (r: Option<NullSink>)
    ensures
        sink_nulls(r) == if field.nullable { Some(Seq::<bool>::empty()) } else { None },
{
    if field.nullable {
        Some(NullSink::new(batch_size))
    } else {
        None
    }
}

/// Collects the rows of a column of fixed width values.
pub struct PrimitiveSink {
    data_type: DataType,
    values: Vec<u64>,
    nulls: Option<NullSink>,
}

impl PrimitiveSink {
    pub closed spec fn values(&self) -> Seq<u64> {
        self.values@
    }

    pub closed spec fn nulls(&self) -> Option<Seq<bool>> {
        sink_nulls(self.nulls)
    }

    pub closed spec fn spec_data_type(&self) -> DataType {
        self.data_type
    }

    /// Hands out the collected rows as a column of the field's type, and
    /// leaves the sink empty, without a null sink from then on.
    pub fn finish(&mut self, field: &Field) -> (r: Column)
        requires
            field.data_type.spec_is_primitive(),
            field.data_type == old(self).spec_data_type(),
            old(self).nulls() matches Some(b) ==> b.len() == old(self).values().len(),
        ensures
            r matches Column::Primitive(c) && c.data_type == field.data_type && c.values@ == old(self).values()
                && validity_view(c.validity) == match old(self).nulls() {
                Some(b) => normalized_validity(b),
                None => None,
            },
            r.wf(),
            final(self).values() == Seq::<u64>::empty(),
            final(self).nulls() is None,
            final(self).spec_data_type() == old(self).spec_data_type(),
    {
        let mut values: Vec<u64> = Vec::new();
        std::mem::swap(&mut values, &mut self.values);
        let validity = NullSink::finish_option(&mut self.nulls);
        Column::Primitive(PrimitiveColumn { data_type: field.data_type, values, validity })
    }
}

/// Collects the bits of a boolean column.
pub struct BooleanBufferSink {
    buffer: BooleanBufferBuilder,
}

/// Collects the rows of a boolean column.
pub struct BooleanSink {
    inner: BooleanBufferSink,
    nulls: Option<NullSink>,
}

impl BooleanSink {
    pub closed spec fn values(&self) -> Seq<bool> {
        boolean_builder_bits(self.inner.buffer)
    }

    pub closed spec fn nulls(&self) -> Option<Seq<bool>> {
        sink_nulls(self.nulls)
    }

    /// An empty sink for a boolean field.
    fn new(field: &Field, batch_size: usize) -> (r: Self)
        requires
            field.data_type == DataType::Boolean,
        ensures
            r.values() == Seq::<bool>::empty(),
            r.nulls() == if field.nullable { Some(Seq::<bool>::empty()) } else { None },
    {
        BooleanSink {
            nulls: null_sink_for(field, batch_size),
            inner: BooleanBufferSink { buffer: boolean_builder_new(batch_size) },
        }
    }

    /// Hands out the collected rows as a boolean column, and leaves the sink
    /// empty, without a null sink from then on.
    pub fn finish(&mut self, field: &Field) -> (r: Column)
        requires
            field.data_type == DataType::Boolean,
            old(self).nulls() matches Some(b) ==> b.len() == old(self).values().len(),
        ensures
            r matches Column::Boolean(c) && c.values@ == old(self).values() && validity_view(c.validity)
                == match old(self).nulls() {
                Some(b) => normalized_validity(b),
                None => None,
            },
            r.wf(),
            final(self).values() == Seq::<bool>::empty(),
            final(self).nulls() is None,
    {
        let values = boolean_builder_finish(&mut self.inner.buffer);
        let validity = NullSink::finish_option(&mut self.nulls);
        Column::Boolean(BooleanColumn { values, validity })
    }
}

/// Collects the rows of a column of byte values.
pub struct GenericByteSink {
    data_type: DataType,
    nulls: Option<NullSink>,
    offsets: Vec<usize>,
    bytes: Vec<u8>,
}

impl GenericByteSink {
    pub closed spec fn offsets(&self) -> Seq<usize> {
        self.offsets@
    }

    pub closed spec fn bytes(&self) -> Seq<u8> {
        self.bytes@
    }

    pub closed spec fn nulls(&self) -> Option<Seq<bool>> {
        sink_nulls(self.nulls)
    }

    pub closed spec fn spec_data_type(&self) -> DataType {
        self.data_type
    }

    /// An empty sink for a byte field: the single offset zero, room for
    /// `batch_size` rows of fifty bytes.
    fn new(f: &Field, batch_size: usize) -> (r: Self)
        requires
            f.data_type.spec_is_byte_type(),
            batch_size < usize::MAX,
            batch_size * 50 <= usize::MAX,
        ensures
            r.offsets() == seq![0usize],
            r.bytes() == Seq::<u8>::empty(),
            r.nulls() == if f.nullable { Some(Seq::<bool>::empty()) } else { None },
            r.spec_data_type() == f.data_type,
    {
        let mut offsets: Vec<usize> = Vec::with_capacity(batch_size + 1);
        offsets.push(0);
        GenericByteSink {
            data_type: f.data_type,
            nulls: null_sink_for(f, batch_size),
            offsets,
            bytes: Vec::with_capacity(batch_size * 50),
        }
    }

    /// Hands out the collected rows as a column of the field's type, and
    /// leaves a fresh empty sink for the field.
    pub fn finish(&mut self, field: &Field) -> (r: Column)
        requires
            field.data_type == old(self).spec_data_type(),
            field.data_type.spec_is_byte_type(),
            crate::column::offsets_wf(old(self).offsets(), old(self).bytes().len()),
            old(self).offsets().last() <= field.data_type.spec_offset_limit(),
            old(self).nulls() matches Some(b) ==> b.len() == old(self).offsets().len() - 1,
        ensures
            r matches Column::Bytes(c) && c.data_type == field.data_type && c.offsets@ == old(self).offsets()
                && c.values@ == old(self).bytes() && validity_view(c.validity) == match old(self).nulls() {
                Some(b) => normalized_validity(b),
                None => None,
            },
            r.wf(),
            final(self).offsets() == seq![0usize],
            final(self).bytes() == Seq::<u8>::empty(),
            final(self).nulls() == if field.nullable { Some(Seq::<bool>::empty()) } else { None },
            final(self).spec_data_type() == field.data_type,
    {
        let mut current = Self::new(field, 0);
        std::mem::swap(&mut current, self);
        let GenericByteSink { data_type, nulls, offsets, bytes } = current;
        let mut nulls = nulls;
        let validity = NullSink::finish_option(&mut nulls);
        Column::Bytes(ByteColumn { data_type: field.data_type, offsets, values: bytes, validity })
    }
}

/// `v` read as a signed number of `modulus` values (two's complement).
pub open spec fn signed_of(v: int, modulus: int) -> int {
    if v >= modulus / 2 {
        v - modulus
    } else {
        v
    }
}

/// The value of an entry of an integer column: its low bits, read as its
/// type reads them.
pub open spec fn native_value(data_type: DataType, raw: u64) -> int {
    match data_type {
        DataType::UInt8 => (raw % 0x100) as int,
        DataType::UInt16 => (raw % 0x1_0000) as int,
        DataType::UInt32 => (raw % 0x1_0000_0000) as int,
        DataType::Int8 => signed_of((raw % 0x100) as int, 0x100),
        DataType::Int16 => signed_of((raw % 0x1_0000) as int, 0x1_0000),
        DataType::Int32 => signed_of((raw % 0x1_0000_0000) as int, 0x1_0000_0000),
        DataType::Int64 => signed_of(raw as int, 0x1_0000_0000_0000_0000),
        _ => raw as int,
    }
}

/// Whether indices of this type are read as `u64` (else as `u32`).
pub open spec fn is_wide_index(data_type: DataType) -> bool {
    data_type == DataType::Int64 || data_type == DataType::UInt64
}

/// The row that an entry of an index column names: indices of up to 32 bits
/// are converted to `u32` and the others to `u64`, both as `as` converts.
pub open spec fn index_value(data_type: DataType, raw: u64) -> int {
    if is_wide_index(data_type) {
        native_value(data_type, raw) % 0x1_0000_0000_0000_0000
    } else {
        native_value(data_type, raw) % 0x1_0000_0000
    }
}

/// The rows that an index column names, in its order.
pub open spec fn index_positions(indices: PrimitiveColumn) -> Seq<int> {
    Seq::new(indices.values@.len(), |k: int| index_value(indices.data_type, indices.values@[k]))
}

/// Indices in the form rows are taken by: each entry converted to a row
/// number, beside the validity of the index column they come from.
pub struct Indices<'a> {
    pub values: Vec<u64>,
    pub validity: &'a Option<Vec<bool>>,
}

impl<'a> Indices<'a> {
    /// The rows named, in order.
    pub open spec fn positions(&self) -> Seq<int> {
        Seq::new(self.values@.len(), |k: int| self.values@[k] as int)
    }

    /// The number of null indices.
    pub open spec fn spec_null_count(&self) -> nat {
        optional_null_count(*self.validity)
    }
}

/// The entries of `rows` at the positions `idx` names, in the order of `idx`.
pub open spec fn gather<X>(rows: Seq<X>, idx: Seq<int>) -> Seq<X> {
    Seq::new(idx.len(), |k: int| rows[idx[k]])
}

/// Every position that `idx` names is a row of a column of `len` rows.
pub open spec fn in_bounds(idx: Seq<int>, len: nat) -> bool {
    forall|k: int| 0 <= k < idx.len() ==> 0 <= #[trigger] idx[k] < len
}

/// Converts the entries of an integer index column to row numbers: indices of
/// up to 32 bits widen to `u32`, the others read as `u64`.
fn to_indices<'a>(indices: &'a PrimitiveColumn) -> (r: Indices<'a>)
    requires
        indices.data_type.spec_is_integer(),
    ensures
        r.positions() == index_positions(*indices),
        r.validity == &indices.validity,
{
    let data_type = indices.data_type;
    let mut values: Vec<u64> = Vec::with_capacity(indices.values.len());
    let mut k: usize = 0;
    while k < indices.values.len()
        invariant
            k <= indices.values@.len(),
            data_type == indices.data_type,
            data_type.spec_is_integer(),
            values@.len() == k,
            forall|j: int| 0 <= j < k ==> values@[j] as int == #[trigger] index_value(data_type, indices.values@[j]),
        decreases indices.values@.len() - k,
    {
        let raw = indices.values[k];
        let index: u64 = match data_type {
            DataType::UInt8 => {
                assert(raw & 0xff == raw % 0x100) by (bit_vector);
                raw & 0xff
            },
            DataType::UInt16 => {
                assert(raw & 0xffff == raw % 0x1_0000) by (bit_vector);
                raw & 0xffff
            },
            DataType::Int8 => {
                assert(raw & 0xff == raw % 0x100) by (bit_vector);
                let v = raw & 0xff;
                if v >= 0x80 {
                    v + 0xffff_ff00
                } else {
                    v
                }
            },
            DataType::Int16 => {
                assert(raw & 0xffff == raw % 0x1_0000) by (bit_vector);
                let v = raw & 0xffff;
                if v >= 0x8000 {
                    v + 0xffff_0000
                } else {
                    v
                }
            },
            DataType::UInt32 | DataType::Int32 => {
                assert(raw & 0xffff_ffff == raw % 0x1_0000_0000) by (bit_vector);
                raw & 0xffff_ffff
            },
            _ => raw,
        };
        proof {
            assert(index as int == index_value(data_type, raw));
        }
        values.push(index);
        k = k + 1;
    }
    let r = Indices { values, validity: &indices.validity };
    proof {
        assert(r.positions() =~= index_positions(*indices));
    }
    r
}

/// The value `take` gives at position `k` of `indices`: the row it names, or
/// zero when it names none (which only a null index may do).
pub open spec fn native_taken(values: Seq<u64>, indices: Seq<int>, k: int) -> u64 {
    if indices[k] < values.len() {
        values[indices[k]]
    } else {
        0
    }
}

/// Whether index `k` must name a row: every index must when none is null,
/// else only the valid ones.
pub open spec fn index_checked(validity: Option<Vec<bool>>, k: int) -> bool {
    optional_null_count(validity) == 0 || slot_is_valid(validity, k)
}

/// Appends to `output` the values at the rows `indices` names; a null index
/// that names no row gives zero.
fn take_native(values: &Vec<u64>, indices: &Indices, output: &mut PrimitiveSink)
    requires
        forall|k: int|
            0 <= k < indices.values@.len() && #[trigger] index_checked(*indices.validity, k) ==> indices.values@[k]
                < values@.len(),
    ensures
        final(output).values() == old(output).values() + Seq::new(
            indices.values@.len(),
            |k: int| native_taken(values@, indices.positions(), k),
        ),
        final(output).nulls() == old(output).nulls(),
        final(output).spec_data_type() == old(output).spec_data_type(),
{
    let ghost start = output.values@;
    let ghost taken = Seq::new(indices.values@.len(), |k: int| native_taken(values@, indices.positions(), k));
    let has_nulls = match indices.validity {
        Some(v) => count_false(v) > 0,
        None => false,
    };
    let mut k: usize = 0;
    while k < indices.values.len()
        invariant
            k <= indices.values@.len(),
            has_nulls == (optional_null_count(*indices.validity) > 0),
            forall|j: int|
                0 <= j < indices.values@.len() && #[trigger] index_checked(*indices.validity, j) ==> indices.values@[j]
                    < values@.len(),
            taken == Seq::new(indices.values@.len(), |j: int| native_taken(values@, indices.positions(), j)),
            output.values@ == start + taken.subrange(0, k as int),
            output.nulls() == old(output).nulls(),
            output.spec_data_type() == old(output).spec_data_type(),
        decreases indices.values@.len() - k,
    {
        let index = indices.values[k];
        let v: u64 = if has_nulls {
            if index < values.len() as u64 {
                values[index as usize]
            } else {
                proof {
                    assert(!index_checked(*indices.validity, k as int));
                }
                0
            }
        } else {
            proof {
                assert(index_checked(*indices.validity, k as int));
                assert(index < values.len());
            }
            values[index as usize]
        };
        proof {
            assert(v == taken[k as int]);
        }
        output.values.push(v);
        proof {
            assert(output.values@ =~= start + taken.subrange(0, k + 1));
        }
        k = k + 1;
    }
    proof {
        assert(taken.subrange(0, k as int) =~= taken);
    }
}

/// The bits at the rows `indices` names. Null indices are not handled.
fn get_bits(values: &Vec<bool>, indices: &Indices) -> (r: Vec<bool>)
    requires
        indices.spec_null_count() == 0,
        in_bounds(indices.positions(), values@.len()),
    ensures
        r@ == gather(values@, indices.positions()),
{
    let ghost idx = indices.positions();
    let mut r: Vec<bool> = Vec::with_capacity(indices.values.len());
    let mut k: usize = 0;
    while k < indices.values.len()
        invariant
            k <= indices.values@.len(),
            idx == indices.positions(),
            in_bounds(idx, values@.len()),
            r@ == gather(values@, idx).subrange(0, k as int),
        decreases indices.values@.len() - k,
    {
        let index = indices.values[k];
        proof {
            assert(0 <= idx[k as int] < values@.len());
            assert(index as int == idx[k as int]);
            assert(index < values.len());
        }
        r.push(values[index as usize]);
        proof {
            assert(r@ =~= gather(values@, idx).subrange(0, k + 1));
        }
        k = k + 1;
    }
    proof {
        assert(gather(values@, idx).subrange(0, k as int) =~= gather(values@, idx));
    }
    r
}

/// The validity bits `take` appends for the rows `idx` names of a column with
/// this validity: the rows' bits when the column holds a null, else all valid.
pub open spec fn taken_validity(values: Option<Vec<bool>>, idx: Seq<int>) -> Seq<bool> {
    if optional_null_count(values) > 0 {
        gather(values->0@, idx)
    } else {
        all_valid(idx.len())
    }
}

/// Appends to the null sink, when there is one, the validity of the rows
/// `indices` names. Without a null sink the rows must all be valid.
fn take_nulls(values: &Option<Vec<bool>>, indices: &Indices, output: &mut Option<NullSink>)
    requires
        indices.spec_null_count() == 0,
        *old(output) is None ==> optional_null_count(*values) == 0,
        *old(output) is Some && optional_null_count(*values) > 0 ==> in_bounds(
            indices.positions(),
            values->0@.len(),
        ),
        *old(output) matches Some(n) ==> n.bits().len() + indices.values@.len() <= usize::MAX,
    ensures
        sink_nulls(*final(output)) == match sink_nulls(*old(output)) {
            Some(b) => Some(b + taken_validity(*values, indices.positions())),
            None => None,
        },
{
    let n = indices.values.len();
    match output {
        None => {},
        Some(out) => {
            let ghost start = out.bits();
            let has_nulls = null_count_of(values) > 0;
            if has_nulls {
                let bits = match values {
                    Some(v) => get_bits(v, indices),
                    None => Vec::new(),
                };
                let mut k: usize = 0;
                while k < bits.len()
                    invariant
                        k <= bits@.len(),
                        bits@.len() == n,
                        start.len() + n <= usize::MAX,
                        out.bits() == start + bits@.subrange(0, k as int),
                    decreases bits@.len() - k,
                {
                    null_builder_append(&mut out.inner, bits[k]);
                    proof {
                        assert(out.bits() =~= start + bits@.subrange(0, k + 1));
                    }
                    k = k + 1;
                }
                proof {
                    assert(bits@.subrange(0, k as int) =~= bits@);
                }
            } else {
                null_builder_append_n_non_nulls(&mut out.inner, n);
                proof {
                    assert(Seq::new(n as nat, |i: int| true) =~= all_valid(n as nat));
                }
            }
        },
    }
}

/// With every index naming a row, the bits `take` appends are the validity
/// of the rows named.
pub proof fn lemma_taken_validity(validity: Option<Vec<bool>>, len: nat, idx: Seq<int>)
    requires
        validity matches Some(v) ==> v@.len() == len,
        in_bounds(idx, len),
    ensures
        taken_validity(validity, idx) == gather(validity_bits(validity, len), idx),
{
    if optional_null_count(validity) == 0 {
        if validity is Some {
            lemma_count_nulls(validity->0@);
        }
        assert forall|k: int| 0 <= k < idx.len() implies #[trigger] gather(validity_bits(validity, len), idx)[k]
            == all_valid(idx.len())[k] by {
            assert(0 <= idx[k] < len);
        }
    }
    assert(taken_validity(validity, idx) =~= gather(validity_bits(validity, len), idx));
}

/// The null sink's bits after `take` appended the validity of the rows `idx`
/// names.
pub open spec fn appended_nulls(nulls: Option<Seq<bool>>, validity: Option<Vec<bool>>, len: nat, idx: Seq<int>) -> Option<
    Seq<bool>,
> {
    match nulls {
        Some(b) => Some(b + gather(validity_bits(validity, len), idx)),
        None => None,
    }
}

impl BooleanBufferSink {
    pub closed spec fn bits(&self) -> Seq<bool> {
        boolean_builder_bits(self.buffer)
    }
}

/// Appends to `output` the bits at the rows `indices` names.
fn take_bits(values: &Vec<bool>, indices: &Indices, output: &mut BooleanBufferSink)
    requires
        indices.spec_null_count() == 0,
        in_bounds(indices.positions(), values@.len()),
        old(output).bits().len() + indices.values@.len() <= usize::MAX,
    ensures
        final(output).bits() == old(output).bits() + gather(values@, indices.positions()),
{
    let ghost start = output.bits();
    let bits = get_bits(values, indices);
    let mut k: usize = 0;
    while k < bits.len()
        invariant
            k <= bits@.len(),
            bits@.len() == indices.values@.len(),
            start.len() + bits@.len() <= usize::MAX,
            output.bits() == start + bits@.subrange(0, k as int),
        decreases bits@.len() - k,
    {
        boolean_builder_append(&mut output.buffer, bits[k]);
        proof {
            assert(output.bits() =~= start + bits@.subrange(0, k + 1));
        }
        k = k + 1;
    }
    proof {
        assert(bits@.subrange(0, k as int) =~= bits@);
    }
}

/// Appends to `output` the booleans at the rows `indices` names, and their
/// validity when the sink keeps one.
fn take_boolean(values: &BooleanColumn, indices: &Indices, output: &mut BooleanSink)
    requires
        values.wf(),
        indices.spec_null_count() == 0,
        in_bounds(indices.positions(), values.values@.len()),
        old(output).nulls() is None ==> optional_null_count(values.validity) == 0,
        old(output).values().len() + indices.values@.len() <= usize::MAX,
        old(output).nulls() matches Some(b) ==> b.len() + indices.values@.len() <= usize::MAX,
    ensures
        final(output).values() == old(output).values() + gather(values.values@, indices.positions()),
        final(output).nulls() == appended_nulls(
            old(output).nulls(),
            values.validity,
            values.values@.len(),
            indices.positions(),
        ),
{
    take_bits(&values.values, indices, &mut output.inner);
    take_nulls(&values.validity, indices, &mut output.nulls);
    proof {
        lemma_taken_validity(values.validity, values.values@.len(), indices.positions());
    }
}

/// Appends to `output` the values at the rows `indices` names, and their
/// validity when the sink keeps one.
fn take_primitive(values: &PrimitiveColumn, indices: &Indices, output: &mut PrimitiveSink)
    requires
        values.wf(),
        indices.spec_null_count() == 0,
        in_bounds(indices.positions(), values.values@.len()),
        old(output).nulls() is None ==> optional_null_count(values.validity) == 0,
        old(output).nulls() matches Some(b) ==> b.len() + indices.values@.len() <= usize::MAX,
    ensures
        final(output).values() == old(output).values() + gather(values.values@, indices.positions()),
        final(output).nulls() == appended_nulls(
            old(output).nulls(),
            values.validity,
            values.values@.len(),
            indices.positions(),
        ),
        final(output).spec_data_type() == old(output).spec_data_type(),
{
    let ghost idx = indices.positions();
    proof {
        assert forall|k: int| 0 <= k < indices.values@.len() && #[trigger] index_checked(*indices.validity, k) implies indices.values@[k]
            < values.values@.len() by {
            assert(0 <= idx[k] < values.values@.len());
        }
    }
    take_native(&values.values, indices, output);
    proof {
        assert(Seq::new(indices.values@.len(), |k: int| native_taken(values.values@, idx, k)) =~= gather(
            values.values@,
            idx,
        ));
    }
    take_nulls(&values.validity, indices, &mut output.nulls);
    proof {
        lemma_taken_validity(values.validity, values.values@.len(), idx);
    }
}

/// The validity bits `take` appends for an index column with nulls: a row is
/// valid when its index is valid and names a valid row.
pub open spec fn null_index_validity(values: Option<Vec<bool>>, index_validity: Option<Vec<bool>>, idx: Seq<int>) -> Seq<bool> {
    Seq::new(idx.len(), |k: int| slot_is_valid(index_validity, k) && slot_is_valid(values, idx[k]))
}

/// Appends to `output` the values at the rows `indices` names, for an index
/// column with nulls: a null index gives a null row (its value is the row it
/// names, or zero when it names none).
fn take_primitive_null_indices(values: &PrimitiveColumn, indices: &Indices, output: &mut PrimitiveSink)
    requires
        values.wf(),
        optional_null_count(*indices.validity) > 0,
        *indices.validity matches Some(v) ==> v@.len() == indices.values@.len(),
        forall|k: int|
            0 <= k < indices.values@.len() && #[trigger] slot_is_valid(*indices.validity, k) ==> indices.values@[k]
                < values.values@.len(),
        old(output).nulls() is Some,
        old(output).nulls()->0.len() + indices.values@.len() <= usize::MAX,
    ensures
        final(output).values() == old(output).values() + Seq::new(
            indices.values@.len(),
            |k: int| native_taken(values.values@, indices.positions(), k),
        ),
        final(output).nulls() == Some(
            old(output).nulls()->0 + null_index_validity(values.validity, *indices.validity, indices.positions()),
        ),
        final(output).spec_data_type() == old(output).spec_data_type(),
{
    let ghost idx = indices.positions();
    let ghost expected = null_index_validity(values.validity, *indices.validity, idx);
    proof {
        assert forall|k: int| 0 <= k < indices.values@.len() && #[trigger] index_checked(*indices.validity, k) implies indices.values@[k]
            < values.values@.len() by {
            assert(slot_is_valid(*indices.validity, k));
        }
    }
    take_native(&values.values, indices, output);
    match &mut output.nulls {
        Some(out) => {
            let ghost start = out.bits();
            let n = indices.values.len();
            let mut k: usize = 0;
            while k < n
                invariant
                    k <= n,
                    n == indices.values@.len(),
                    idx == indices.positions(),
                    expected == null_index_validity(values.validity, *indices.validity, idx),
                    values.wf(),
                    *indices.validity matches Some(v) ==> v@.len() == indices.values@.len(),
                    forall|j: int|
                        0 <= j < indices.values@.len() && #[trigger] slot_is_valid(*indices.validity, j) ==> indices.values@[j]
                            < values.values@.len(),
                    start.len() + n <= usize::MAX,
                    out.bits() == start + expected.subrange(0, k as int),
                decreases n - k,
            {
                let index_valid = match indices.validity {
                    Some(v) => v[k],
                    None => true,
                };
                let bit = if index_valid {
                    let index = indices.values[k];
                    proof {
                        assert(slot_is_valid(*indices.validity, k as int));
                        assert(index < values.values.len());
                    }
                    match &values.validity {
                        Some(v) => v[index as usize],
                        None => true,
                    }
                } else {
                    false
                };
                proof {
                    assert(bit == expected[k as int]);
                }
                null_builder_append(&mut out.inner, bit);
                proof {
                    assert(out.bits() =~= start + expected.subrange(0, k + 1));
                }
                k = k + 1;
            }
            proof {
                assert(expected.subrange(0, k as int) =~= expected);
            }
        },
        None => {},
    }
}

/// The bytes `take` copies for row `i` of a byte column: the row's bytes, or
/// none when the row is null.
pub open spec fn taken_bytes(column: ByteColumn, i: int) -> Seq<u8> {
    if slot_is_valid(column.validity, i) {
        column.row_bytes(i)
    } else {
        Seq::empty()
    }
}

/// The bytes `take` copies for each row that `idx` names, in order.
pub open spec fn taken_rows(column: ByteColumn, idx: Seq<int>) -> Seq<Seq<u8>> {
    Seq::new(idx.len(), |k: int| taken_bytes(column, idx[k]))
}

/// The end offsets of `rows` laid out one after another from `start`.
pub open spec fn running_ends(start: int, rows: Seq<Seq<u8>>) -> Seq<usize> {
    Seq::new(rows.len(), |k: int| (start + rows.take(k + 1).flatten_alt().len()) as usize)
}

/// Laying out a prefix of `rows` takes no more bytes than laying out a longer
/// one.
pub proof fn lemma_flatten_prefix_len(rows: Seq<Seq<u8>>, i: int, j: int)
    requires
        0 <= i <= j <= rows.len(),
    ensures
        rows.take(i).flatten_alt().len() <= rows.take(j).flatten_alt().len(),
    decreases j - i,
{
    if i < j {
        lemma_flatten_prefix_len(rows, i, j - 1);
        assert(rows.take(j).drop_last() =~= rows.take(j - 1));
    }
}

impl GenericByteSink {
    /// Offsets that lay out the collected bytes row after row, within what
    /// the sink's type can address, with one validity bit per row when there
    /// is a null sink.
    pub open spec fn sink_wf(&self) -> bool {
        &&& self.spec_data_type().spec_is_byte_type()
        &&& crate::column::offsets_wf(self.offsets(), self.bytes().len())
        &&& self.offsets().last() == self.bytes().len()
        &&& self.offsets().last() <= self.spec_data_type().spec_offset_limit()
        &&& self.nulls() matches Some(b) ==> b.len() == self.offsets().len() - 1
    }
}

/// Appends to `output` the bytes of the rows `indices` names (none for a
/// null row), their end offsets and, when the sink keeps one, their validity.
fn take_bytes(array: &ByteColumn, indices: &Indices, output: &mut GenericByteSink)
    requires
        array.wf(),
        old(output).sink_wf(),
        old(output).spec_data_type() == array.data_type,
        indices.spec_null_count() == 0,
        in_bounds(indices.positions(), array.spec_len()),
        old(output).nulls() is None ==> optional_null_count(array.validity) == 0,
        old(output).nulls() matches Some(b) ==> b.len() + indices.values@.len() <= usize::MAX,
        old(output).bytes().len() + taken_rows(*array, indices.positions()).flatten_alt().len()
            <= array.data_type.spec_offset_limit(),
        old(output).bytes().len() + taken_rows(*array, indices.positions()).flatten_alt().len() <= usize::MAX,
    ensures
        final(output).bytes() == old(output).bytes() + taken_rows(*array, indices.positions()).flatten_alt(),
        final(output).offsets() == old(output).offsets() + running_ends(
            old(output).offsets().last() as int,
            taken_rows(*array, indices.positions()),
        ),
        final(output).nulls() == appended_nulls(old(output).nulls(), array.validity, array.spec_len(), indices.positions()),
        final(output).spec_data_type() == old(output).spec_data_type(),
        final(output).sink_wf(),
{
    let ghost idx = indices.positions();
    let ghost taken = taken_rows(*array, idx);
    let ghost old_offsets = output.offsets@;
    let ghost old_bytes = output.bytes@;
    let n = indices.values.len();
    let initial_capacity = output.offsets[output.offsets.len() - 1];
    let mut capacity = initial_capacity;
    take_nulls(&array.validity, indices, &mut output.nulls);
    proof {
        lemma_taken_validity(array.validity, array.spec_len(), idx);
        lemma_flatten_prefix_len(taken, 0, n as int);
        assert(taken.take(n as int) =~= taken);
        assert(taken.take(0).flatten_alt() =~= Seq::<u8>::empty());
    }
    let ghost nulls_after = output.nulls();
    let has_nulls = null_count_of(&array.validity) > 0;
    proof {
        if !has_nulls && array.validity is Some {
            lemma_count_nulls(array.validity->0@);
        }
    }
    output.offsets.reserve(n);
    let mut k: usize = 0;
    while k < n
        invariant
            array.wf(),
            k <= n,
            n == indices.values@.len(),
            idx == indices.positions(),
            taken == taken_rows(*array, idx),
            in_bounds(idx, array.spec_len()),
            !has_nulls ==> forall|i: int| 0 <= i < array.spec_len() ==> #[trigger] slot_is_valid(array.validity, i),
            has_nulls ==> array.validity is Some,
            initial_capacity == old_offsets.last(),
            initial_capacity + taken.flatten_alt().len() <= usize::MAX,
            capacity == initial_capacity + taken.take(k as int).flatten_alt().len(),
            output.offsets@ == old_offsets + running_ends(initial_capacity as int, taken).take(k as int),
            output.bytes@ == old_bytes,
            taken.take(n as int) == taken,
            output.nulls() == nulls_after,
            output.spec_data_type() == old(output).spec_data_type(),
        decreases n - k,
    {
        let index = indices.values[k];
        proof {
            assert(0 <= idx[k as int] < array.spec_len());
            assert(index < array.offsets.len() - 1);
        }
        let index = index as usize;
        let valid = if has_nulls {
            match &array.validity {
                Some(v) => v[index],
                None => true,
            }
        } else {
            true
        };
        proof {
            assert(valid == slot_is_valid(array.validity, index as int));
            assert(array.offsets@[index as int] <= array.offsets@[index + 1]);
            assert(array.offsets@[index + 1] <= array.values@.len());
            assert(taken.take(k + 1).drop_last() =~= taken.take(k as int));
            assert(taken[k as int] == taken_bytes(*array, index as int));
            lemma_flatten_prefix_len(taken, k + 1, n as int);
            assert(taken.take(k + 1).flatten_alt() == taken.take(k as int).flatten_alt() + taken[k as int]);
            assert(valid ==> taken[k as int].len() == array.offsets@[index + 1] - array.offsets@[index as int]);
            assert(!valid ==> taken[k as int].len() == 0);
        }
        if valid {
            capacity = capacity + (array.offsets[index + 1] - array.offsets[index]);
        }
        output.offsets.push(capacity);
        proof {
            assert(output.offsets@ =~= old_offsets + running_ends(initial_capacity as int, taken).take(k + 1));
        }
        k = k + 1;
    }
    proof {
        assert(taken.take(0).flatten_alt() =~= Seq::<u8>::empty());
        assert(output.bytes@ =~= old_bytes + taken.take(0).flatten_alt());
    }
    output.bytes.reserve(capacity - initial_capacity);
    let mut k: usize = 0;
    while k < n
        invariant
            array.wf(),
            k <= n,
            n == indices.values@.len(),
            idx == indices.positions(),
            taken == taken_rows(*array, idx),
            in_bounds(idx, array.spec_len()),
            !has_nulls ==> forall|i: int| 0 <= i < array.spec_len() ==> #[trigger] slot_is_valid(array.validity, i),
            has_nulls ==> array.validity is Some,
            output.bytes@ == old_bytes + taken.take(k as int).flatten_alt(),
            output.offsets@ == old_offsets + running_ends(initial_capacity as int, taken).take(n as int),
            output.nulls() == nulls_after,
            output.spec_data_type() == old(output).spec_data_type(),
        decreases n - k,
    {
        let index = indices.values[k];
        proof {
            assert(0 <= idx[k as int] < array.spec_len());
            assert(index < array.offsets.len() - 1);
        }
        let index = index as usize;
        let valid = if has_nulls {
            match &array.validity {
                Some(v) => v[index],
                None => true,
            }
        } else {
            true
        };
        let ghost before = output.bytes@;
        proof {
            assert(valid == slot_is_valid(array.validity, index as int));
            assert(array.offsets@[index as int] <= array.offsets@[index + 1]);
            assert(array.offsets@[index + 1] <= array.values@.len());
            assert(taken.take(k + 1).drop_last() =~= taken.take(k as int));
            assert(taken[k as int] == taken_bytes(*array, index as int));
        }
        if valid {
            let start = array.offsets[index];
            let end = array.offsets[index + 1];
            output.bytes.extend_from_slice(&array.values.as_slice()[start..end]);
            proof {
                assert(output.bytes@ =~= before + array.row_bytes(index as int));
            }
        }
        proof {
            assert(output.bytes@ =~= old_bytes + taken.take(k + 1).flatten_alt());
        }
        k = k + 1;
    }
    proof {
        let ends = running_ends(initial_capacity as int, taken);
        assert(running_ends(initial_capacity as int, taken).take(n as int) =~= ends);
        assert(output.bytes@ == old_bytes + taken.flatten_alt());
        let offs = output.offsets@;
        assert(offs.len() == old_offsets.len() + n);
        assert forall|i: int, j: int| 0 <= i <= j < offs.len() implies offs[i] <= offs[j] by {
            if j >= old_offsets.len() {
                lemma_flatten_prefix_len(taken, j - old_offsets.len() + 1, n as int);
                if i >= old_offsets.len() {
                    lemma_flatten_prefix_len(taken, i - old_offsets.len() + 1, j - old_offsets.len() + 1);
                } else {
                    assert(old_offsets[i] <= old_offsets[old_offsets.len() - 1]);
                }
            } else {
                assert(old_offsets[i] <= old_offsets[j]);
            }
        }
        if n > 0 {
            assert(offs.last() == ends[n - 1]);
            assert(taken.take(n as int) =~= taken);
        }
    }
}

/// A sink that collects the rows taken from one column.
pub enum Sink {
    Primitive(PrimitiveSink),
    Boolean(BooleanSink),
    Bytes(GenericByteSink),
}

/// The validity a finished column gets from an optional null sink's bits.
pub open spec fn finished_validity(nulls: Option<Seq<bool>>) -> Option<Seq<bool>> {
    match nulls {
        Some(b) => normalized_validity(b),
        None => None,
    }
}

impl Sink {
    /// One validity bit per row when there is a null sink, and the shape of
    /// each kind of sink.
    pub open spec fn wf(&self) -> bool {
        match self {
            Sink::Primitive(s) => {
                &&& s.spec_data_type().spec_is_primitive()
                &&& s.nulls() matches Some(b) ==> b.len() == s.values().len()
            },
            Sink::Boolean(s) => s.nulls() matches Some(b) ==> b.len() == s.values().len(),
            Sink::Bytes(s) => s.sink_wf(),
        }
    }

    /// The type of the column the sink collects.
    pub open spec fn spec_data_type(&self) -> DataType {
        match self {
            Sink::Primitive(s) => s.spec_data_type(),
            Sink::Boolean(_) => DataType::Boolean,
            Sink::Bytes(s) => s.spec_data_type(),
        }
    }

    /// The number of rows collected.
    pub open spec fn spec_len(&self) -> nat {
        match self {
            Sink::Primitive(s) => s.values().len(),
            Sink::Boolean(s) => s.values().len(),
            Sink::Bytes(s) => (s.offsets().len() - 1) as nat,
        }
    }

    /// The validity bits collected, when the sink keeps them.
    pub open spec fn spec_nulls(&self) -> Option<Seq<bool>> {
        match self {
            Sink::Primitive(s) => s.nulls(),
            Sink::Boolean(s) => s.nulls(),
            Sink::Bytes(s) => s.nulls(),
        }
    }

    /// The number of null rows collected.
    pub open spec fn spec_null_count(&self) -> nat {
        match self.spec_nulls() {
            Some(b) => count_nulls(b),
            None => 0,
        }
    }

    /// Whether the sink and the column are of the same kind and type.
    pub open spec fn matches_column(&self, values: Column) -> bool {
        match (*self, values) {
            (Sink::Primitive(s), Column::Primitive(c)) => s.spec_data_type() == c.data_type,
            (Sink::Boolean(_), Column::Boolean(_)) => true,
            (Sink::Bytes(s), Column::Bytes(c)) => s.spec_data_type() == c.data_type,
            _ => false,
        }
    }

    /// What taking the rows `idx` names of `values` into this sink asks: a
    /// sink of the column's kind and type, every index naming a row, a null
    /// sink unless the column has no null, and room for the rows.
    pub open spec fn can_take(&self, values: Column, idx: Seq<int>) -> bool {
        &&& self.wf()
        &&& values.wf()
        &&& self.matches_column(values)
        &&& in_bounds(idx, values.spec_len())
        &&& self.spec_nulls() is None ==> values.spec_null_count() == 0
        &&& self.spec_len() + idx.len() <= usize::MAX
        &&& self.spec_nulls() matches Some(b) ==> b.len() + idx.len() <= usize::MAX
        &&& match (*self, values) {
            (Sink::Bytes(s), Column::Bytes(c)) => {
                &&& s.bytes().len() + taken_rows(c, idx).flatten_alt().len() <= c.data_type.spec_offset_limit()
                &&& s.bytes().len() + taken_rows(c, idx).flatten_alt().len() <= usize::MAX
            },
            _ => true,
        }
    }

    /// `after` is this sink with the rows `idx` names of `values` appended:
    /// their values (for byte rows: their bytes, none for a null row, and
    /// their end offsets), and their validity when the sink keeps one.
    pub open spec fn took(&self, after: Sink, values: Column, idx: Seq<int>) -> bool {
        match (*self, after, values) {
            (Sink::Primitive(b), Sink::Primitive(a), Column::Primitive(v)) => {
                &&& a.values() == b.values() + gather(v.values@, idx)
                &&& a.nulls() == appended_nulls(b.nulls(), v.validity, v.values@.len(), idx)
                &&& a.spec_data_type() == b.spec_data_type()
            },
            (Sink::Boolean(b), Sink::Boolean(a), Column::Boolean(v)) => {
                &&& a.values() == b.values() + gather(v.values@, idx)
                &&& a.nulls() == appended_nulls(b.nulls(), v.validity, v.values@.len(), idx)
            },
            (Sink::Bytes(b), Sink::Bytes(a), Column::Bytes(v)) => {
                &&& a.bytes() == b.bytes() + taken_rows(v, idx).flatten_alt()
                &&& a.offsets() == b.offsets() + running_ends(b.offsets().last() as int, taken_rows(v, idx))
                &&& a.nulls() == appended_nulls(b.nulls(), v.validity, v.spec_len(), idx)
                &&& a.spec_data_type() == b.spec_data_type()
            },
            _ => false,
        }
    }
}

impl Sink {
    /// What taking, for an index column with nulls, the rows it names asks:
    /// a sink of fixed width values of the column's type that keeps validity,
    /// every valid index naming a row, and room for the rows.
    pub open spec fn can_take_null_indices(&self, values: Column, indices: Column) -> bool {
        let idx = column_positions(indices);
        &&& self.wf()
        &&& values.wf()
        &&& indices.wf()
        &&& self.matches_column(values)
        &&& self is Primitive
        &&& self.spec_nulls() is Some
        &&& forall|k: int| 0 <= k < idx.len() && #[trigger] slot_is_valid(indices.validity(), k) ==> 0 <= idx[k] < values.spec_len()
        &&& self.spec_len() + idx.len() <= usize::MAX
        &&& self.spec_nulls()->0.len() + idx.len() <= usize::MAX
    }

    /// `after` is this sink with, for an index column with nulls, the rows it
    /// names appended: the values at the rows named (zero for a null index
    /// that names none), valid where the index is valid and names a valid row.
    pub open spec fn took_null_indices(&self, after: Sink, values: Column, indices: Column) -> bool {
        let idx = column_positions(indices);
        match (*self, after, values) {
            (Sink::Primitive(b), Sink::Primitive(a), Column::Primitive(v)) => {
                &&& a.values() == b.values() + Seq::new(idx.len(), |k: int| native_taken(v.values@, idx, k))
                &&& a.nulls() == Some(b.nulls()->0 + null_index_validity(v.validity, indices.validity(), idx))
                &&& a.spec_data_type() == b.spec_data_type()
            },
            _ => false,
        }
    }

    /// What taking the rows an integer index column names asks.
    pub open spec fn can_take_by(&self, values: Column, indices: Column) -> bool {
        if indices.spec_null_count() == 0 {
            self.can_take(values, column_positions(indices))
        } else {
            self.can_take_null_indices(values, indices)
        }
    }

    /// `after` is this sink with the rows an integer index column names
    /// appended, in the order of the index column.
    pub open spec fn took_by(&self, after: Sink, values: Column, indices: Column) -> bool {
        if indices.spec_null_count() == 0 {
            self.took(after, values, column_positions(indices))
        } else {
            self.took_null_indices(after, values, indices)
        }
    }
}

/// Appends to `sink` the rows the integer index column `ix`, converted to
/// `indices`, names of `values`.
fn take_indexed(values: &Column, indices: &Indices, sink: &mut Sink, Ghost(ix): Ghost<Column>)
    requires
        ix matches Column::Primitive(c) && c.data_type.spec_is_integer() && indices.validity == &c.validity,
        indices.positions() == column_positions(ix),
        old(sink).can_take_by(*values, ix),
    ensures
        old(sink).took_by(*final(sink), *values, ix),
        final(sink).wf(),
{
    let has_nulls = null_count_of(indices.validity) > 0;
    if !has_nulls {
        take_impl(values, indices, sink);
        return;
    }
    match values {
        Column::Primitive(v) => match sink {
            Sink::Primitive(s) => {
                proof {
                    assert(ix.wf());
                    assert forall|k: int|
                        0 <= k < indices.values@.len() && #[trigger] slot_is_valid(*indices.validity, k) implies indices.values@[k]
                            < v.values@.len() by {
                        assert(slot_is_valid(ix.validity(), k));
                        assert(indices.positions()[k] == indices.values@[k]);
                    }
                }
                take_primitive_null_indices(v, indices, s);
            },
            _ => {},
        },
        _ => {},
    }
}

/// Appends to `sink` the rows `indices` names of `values`.
fn take_impl(values: &Column, indices: &Indices, sink: &mut Sink)
    requires
        indices.spec_null_count() == 0,
        old(sink).can_take(*values, indices.positions()),
    ensures
        old(sink).took(*final(sink), *values, indices.positions()),
        final(sink).wf(),
{
    let ghost idx = indices.positions();
    match values {
        Column::Primitive(v) => match sink {
            Sink::Primitive(s) => {
                take_primitive(v, indices, s);
            },
            _ => {},
        },
        Column::Boolean(v) => match sink {
            Sink::Boolean(s) => {
                take_boolean(v, indices, s);
            },
            _ => {},
        },
        Column::Bytes(v) => match sink {
            Sink::Bytes(s) => {
                take_bytes(v, indices, s);
            },
            _ => {},
        },
    }
}

/// Whether rows can be taken by this column: it holds integers.
pub open spec fn integer_indices(indices: Column) -> bool {
    indices matches Column::Primitive(c) && c.data_type.spec_is_integer()
}

/// The rows an integer index column names, in its order.
pub open spec fn column_positions(indices: Column) -> Seq<int> {
    match indices {
        Column::Primitive(c) => index_positions(c),
        _ => Seq::empty(),
    }
}

/// Appends to `sink` the rows of `array` that `indices` names, in the order
/// of `indices`; a null index gives a null row. Fails, leaving the sink as it
/// was, when `indices` is not an integer column.
pub fn take_to_sink(array: &Column, sink: &mut Sink, indices: &Column) -> (r: Result<(), ShuffleError>)
    requires
        integer_indices(*indices) ==> old(sink).can_take_by(*array, *indices),
    ensures
        match r {
            Ok(()) => {
                &&& integer_indices(*indices)
                &&& old(sink).took_by(*final(sink), *array, *indices)
                &&& final(sink).wf()
            },
            Err(e) => {
                &&& !integer_indices(*indices)
                &&& e == ShuffleError::IndicesNotInteger { data_type: indices.spec_data_type() }
                &&& *final(sink) == *old(sink)
            },
        },
{
    match indices {
        Column::Primitive(c) => {
            if c.data_type.is_integer() {
                let idx = to_indices(c);
                take_indexed(array, &idx, sink, Ghost(*indices));
                return Ok(());
            }
        },
        _ => {},
    }
    Err(ShuffleError::IndicesNotInteger { data_type: indices.data_type() })
}

/// The row each entry of an integer index column names, by index type, as
/// `as` converts the entry to a row number (`u32` for types of up to 32
/// bits, `u64` for the others): an unsigned entry names its own value, the
/// low 8, 16, 32 or 64 bits of the raw entry; a signed entry of 8 or 16 bits
/// names its two's complement value widened to 32 bits (so a negative entry
/// names a row at or above `0xffff_ff80`); a signed entry of 32 or 64 bits
/// names its own bits.
pub proof fn lemma_index_entry_names_row(c: PrimitiveColumn, k: int)
    requires
        c.data_type.spec_is_integer(),
        0 <= k < c.values@.len(),
    ensures
        ({
            let raw = c.values@[k] as int;
            let row = column_positions(Column::Primitive(c))[k];
            &&& column_positions(Column::Primitive(c)).len() == c.values@.len()
            &&& c.data_type == DataType::UInt8 ==> row == raw % 0x100
            &&& c.data_type == DataType::UInt16 ==> row == raw % 0x1_0000
            &&& c.data_type == DataType::UInt32 ==> row == raw % 0x1_0000_0000
            &&& c.data_type == DataType::UInt64 ==> row == raw
            &&& c.data_type == DataType::Int8 ==> row == if raw % 0x100 < 0x80 {
                raw % 0x100
            } else {
                raw % 0x100 + 0xffff_ff00
            }
            &&& c.data_type == DataType::Int16 ==> row == if raw % 0x1_0000 < 0x8000 {
                raw % 0x1_0000
            } else {
                raw % 0x1_0000 + 0xffff_0000
            }
            &&& c.data_type == DataType::Int32 ==> row == raw % 0x1_0000_0000
            &&& c.data_type == DataType::Int64 ==> row == raw
        }),
{
    let raw = c.values@[k];
    assert(column_positions(Column::Primitive(c))[k] == index_value(c.data_type, raw));
}

/// Taking by an integer index column appends one row per entry, in the order
/// of the entries. For fixed width and boolean values, row `k` appended
/// holds the value of the row entry `k` names, for every entry when no index
/// is null and for every valid entry otherwise. When the sink keeps
/// validity, row `k` appended is valid exactly when entry `k` is valid and
/// names a valid row.
pub proof fn lemma_take_appends_named_rows(before: Sink, after: Sink, values: Column, indices: Column)
    requires
        integer_indices(indices),
        indices.wf(),
        before.can_take_by(values, indices),
        before.took_by(after, values, indices),
    ensures
        after.spec_len() == before.spec_len() + column_positions(indices).len(),
        forall|k: int|
            0 <= k < column_positions(indices).len() && (indices.spec_null_count() == 0 || slot_is_valid(
                indices.validity(),
                k,
            )) ==> match (before, after, values) {
                (Sink::Primitive(b), Sink::Primitive(a), Column::Primitive(v)) => a.values()[b.values().len() + k]
                    == v.values@[#[trigger] column_positions(indices)[k]],
                (Sink::Boolean(b), Sink::Boolean(a), Column::Boolean(v)) => a.values()[b.values().len() + k]
                    == v.values@[column_positions(indices)[k]],
                _ => true,
            },
        before.spec_nulls() is Some ==> after.spec_nulls() is Some && after.spec_nulls()->0.len()
            == before.spec_nulls()->0.len() + column_positions(indices).len(),
        forall|k: int|
            0 <= k < column_positions(indices).len() && before.spec_nulls() is Some ==> after.spec_nulls()->0[before.spec_nulls()->0.len()
                + k] == (slot_is_valid(indices.validity(), k) && slot_is_valid(
                values.validity(),
                #[trigger] column_positions(indices)[k],
            )),
{
    let idx = column_positions(indices);
    let c = indices->Primitive_0;
    if indices.spec_null_count() == 0 {
        if c.validity is Some {
            lemma_count_nulls(c.validity->0@);
        }
        assert(values.wf());
        match (before, after, values) {
            (Sink::Bytes(b), Sink::Bytes(a), Column::Bytes(v)) => {
                assert(running_ends(b.offsets().last() as int, taken_rows(v, idx)).len() == idx.len());
            },
            _ => {},
        }
        assert forall|k: int| 0 <= k < idx.len() && before.spec_nulls() is Some implies after.spec_nulls()->0[before.spec_nulls()->0.len()
            + k] == (slot_is_valid(indices.validity(), k) && slot_is_valid(values.validity(), #[trigger] idx[k])) by {
            assert(0 <= idx[k] < values.spec_len());
            if c.validity is Some {
                assert(c.validity->0@[k]);
            }
        }
    } else {
        match (before, after, values) {
            (Sink::Primitive(b), Sink::Primitive(a), Column::Primitive(v)) => {
                assert forall|k: int| 0 <= k < idx.len() && slot_is_valid(indices.validity(), k) implies a.values()[b.values().len() + k]
                    == v.values@[#[trigger] idx[k]] by {
                    assert(0 <= idx[k] < values.spec_len());
                    assert(a.values()[b.values().len() + k] == native_taken(v.values@, idx, k));
                }
            },
            _ => {},
        }
    }
}

/// Laying out the first `k + 1` rows is laying out the first `k`, then row
/// `k`.
proof fn lemma_flatten_take_step(rows: Seq<Seq<u8>>, k: int)
    requires
        0 <= k < rows.len(),
    ensures
        rows.take(k + 1).flatten_alt() == rows.take(k).flatten_alt() + rows[k],
{
    assert(rows.take(k + 1).drop_last() =~= rows.take(k));
}

/// Laying out the first `j` rows gives the start of laying out them all.
proof fn lemma_flatten_take_prefix(rows: Seq<Seq<u8>>, j: int)
    requires
        0 <= j <= rows.len(),
    ensures
        rows.take(j).flatten_alt().len() <= rows.flatten_alt().len(),
        rows.flatten_alt().subrange(0, rows.take(j).flatten_alt().len() as int) == rows.take(j).flatten_alt(),
    decreases rows.len(),
{
    if j == rows.len() {
        assert(rows.take(j) =~= rows);
        assert(rows.flatten_alt().subrange(0, rows.flatten_alt().len() as int) =~= rows.flatten_alt());
    } else {
        let d = rows.drop_last();
        lemma_flatten_take_prefix(d, j);
        assert(d.take(j) =~= rows.take(j));
        let f = d.flatten_alt();
        let n = rows.take(j).flatten_alt().len() as int;
        assert(rows.flatten_alt() == f + rows.last());
        assert((f + rows.last()).subrange(0, n) =~= f.subrange(0, n));
    }
}

/// Taking rows of a byte column appends, for each entry `k` of the index
/// column, one row whose bytes, between the end offsets of the rows before
/// and of it, are those of the row entry `k` names, or none when that row is
/// null.
pub proof fn lemma_take_appends_named_byte_rows(before: Sink, after: Sink, values: Column, indices: Column, k: int)
    requires
        integer_indices(indices),
        before.can_take_by(values, indices),
        before.took_by(after, values, indices),
        before is Bytes,
        0 <= k < column_positions(indices).len(),
    ensures
        ({
            let b = before->Bytes_0;
            let a = after->Bytes_0;
            let v = values->Bytes_0;
            let row = column_positions(indices)[k];
            let n = b.offsets().len() as int;
            &&& after is Bytes
            &&& a.offsets().len() == n + column_positions(indices).len()
            &&& a.offsets()[n - 1 + k] <= a.offsets()[n + k] <= a.bytes().len()
            &&& a.bytes().subrange(a.offsets()[n - 1 + k] as int, a.offsets()[n + k] as int) == if slot_is_valid(
                v.validity,
                row,
            ) {
                v.values@.subrange(v.offsets@[row] as int, v.offsets@[row + 1] as int)
            } else {
                Seq::<u8>::empty()
            }
        }),
{
    let b = before->Bytes_0;
    let v = values->Bytes_0;
    let idx = column_positions(indices);
    assert(indices.spec_null_count() == 0);
    let rows = taken_rows(v, idx);
    let start = b.offsets().last() as int;
    let ends = running_ends(start, rows);
    let n = b.offsets().len() as int;
    let f = rows.flatten_alt();
    lemma_flatten_take_step(rows, k);
    lemma_flatten_take_prefix(rows, k + 1);
    lemma_flatten_take_prefix(rows, k);
    let s0 = rows.take(k).flatten_alt().len() as int;
    let s1 = rows.take(k + 1).flatten_alt().len() as int;
    assert(s1 == s0 + rows[k].len());
    assert(start == b.bytes().len());
    assert(start + f.len() <= usize::MAX);
    let a = after->Bytes_0;
    assert(a.offsets()[n + k] == ends[k]);
    assert(ends[k] == start + s1);
    if k == 0 {
        assert(rows.take(0) =~= Seq::<Seq<u8>>::empty());
        assert(a.offsets()[n - 1] == b.offsets().last());
    } else {
        assert(a.offsets()[n - 1 + k] == ends[k - 1]);
        assert(rows.take(k - 1 + 1) == rows.take(k));
    }
    assert(a.offsets()[n - 1 + k] == start + s0);
    assert(a.bytes() == b.bytes() + f);
    assert(f.subrange(0, s1) == rows.take(k).flatten_alt() + rows[k]);
    assert(a.bytes().subrange(start + s0, start + s1) =~= rows[k]) by {
        assert forall|i: int| 0 <= i < rows[k].len() implies a.bytes().subrange(start + s0, start + s1)[i] == rows[k][i] by {
            assert(a.bytes()[start + s0 + i] == f[s0 + i]);
            assert(f[s0 + i] == f.subrange(0, s1)[s0 + i]);
        }
    }
}

/// The number of (sink, column) pairs that `take_to_sinks` fills.
pub open spec fn pairs(sinks: nat, arrays: nat) -> nat {
    if sinks <= arrays {
        sinks
    } else {
        arrays
    }
}

/// Appends to each sink the rows of the column at its position that
/// `indices` names, in the order of `indices` (a null index gives a null
/// row); sinks or columns beyond the shorter of the two are left alone.
/// Fails, leaving the sinks as they were, when `indices` is not an integer
/// column.
pub fn take_to_sinks(arrays: &Vec<Column>, sinks: &mut Vec<Sink>, indices: &Column) -> (r: Result<(), ShuffleError>)
    requires
        integer_indices(*indices) ==> forall|i: int|
            0 <= i < pairs(old(sinks)@.len(), arrays@.len()) ==> (#[trigger] old(sinks)@[i]).can_take_by(arrays@[i], *indices),
    ensures
        final(sinks)@.len() == old(sinks)@.len(),
        match r {
            Ok(()) => {
                &&& integer_indices(*indices)
                &&& forall|i: int|
                    0 <= i < pairs(old(sinks)@.len(), arrays@.len()) ==> {
                        &&& (#[trigger] old(sinks)@[i]).took_by(final(sinks)@[i], arrays@[i], *indices)
                        &&& final(sinks)@[i].wf()
                    }
                &&& forall|i: int| pairs(old(sinks)@.len(), arrays@.len()) <= i < old(sinks)@.len() ==> #[trigger] final(sinks)@[i]
                    == old(sinks)@[i]
            },
            Err(e) => {
                &&& !integer_indices(*indices)
                &&& e == ShuffleError::IndicesNotInteger { data_type: indices.spec_data_type() }
                &&& final(sinks)@ == old(sinks)@
            },
        },
{
    match indices {
        Column::Primitive(c) => {
            if c.data_type.is_integer() {
                let idx = to_indices(c);
                let n = if sinks.len() <= arrays.len() {
                    sinks.len()
                } else {
                    arrays.len()
                };
                let ghost positions = column_positions(*indices);
                let mut i: usize = 0;
                while i < n
                    invariant
                        i <= n,
                        n == pairs(old(sinks)@.len(), arrays@.len()),
                        sinks@.len() == old(sinks)@.len(),
                        integer_indices(*indices),
                        positions == column_positions(*indices),
                        idx.positions() == positions,
                        idx.spec_null_count() == indices.spec_null_count(),
                        idx.validity == &indices->Primitive_0.validity,
                        forall|j: int| 0 <= j < n ==> (#[trigger] old(sinks)@[j]).can_take_by(arrays@[j], *indices),
                        forall|j: int|
                            0 <= j < i ==> {
                                &&& (#[trigger] old(sinks)@[j]).took_by(sinks@[j], arrays@[j], *indices)
                                &&& sinks@[j].wf()
                            },
                        forall|j: int| i <= j < sinks@.len() ==> #[trigger] sinks@[j] == old(sinks)@[j],
                    decreases n - i,
                {
                    proof {
                        assert(old(sinks)@[i as int].can_take_by(arrays@[i as int], *indices));
                    }
                    take_indexed(&arrays[i], &idx, &mut sinks[i], Ghost(*indices));
                    i = i + 1;
                }
                return Ok(());
            }
        },
        _ => {},
    }
    Err(ShuffleError::IndicesNotInteger { data_type: indices.data_type() })
}

/// The types a sink can be made for: fixed width values, booleans and UTF-8
/// strings.
pub open spec fn sink_supported(data_type: DataType) -> bool {
    data_type.spec_is_primitive() || data_type == DataType::Boolean || data_type == DataType::Utf8
}

/// What making a sink for a field of this type asks of the batch size.
pub open spec fn sink_batch_size_ok(data_type: DataType, batch_size: usize) -> bool {
    data_type == DataType::Utf8 ==> batch_size < usize::MAX && batch_size * 50 <= usize::MAX
}

impl Sink {
    /// An empty sink for the field: of its type, with an empty null sink
    /// exactly when the field is nullable (and, for bytes, the one offset
    /// zero).
    pub open spec fn fresh_for(&self, field: Field) -> bool {
        &&& self.wf()
        &&& self.spec_data_type() == field.data_type
        &&& self.spec_len() == 0
        &&& self.spec_nulls() == if field.nullable {
            Some(Seq::<bool>::empty())
        } else {
            None
        }
        &&& self matches Sink::Bytes(s) ==> s.bytes().len() == 0
    }

    /// `column` is what finishing this sink for `field` hands out: the
    /// collected rows as a column of the field's type, with the collected
    /// validity when it holds a null.
    pub open spec fn finished_as(&self, column: Column, field: Field) -> bool {
        &&& column.wf()
        &&& match (*self, column) {
            (Sink::Primitive(s), Column::Primitive(c)) => {
                &&& c.data_type == field.data_type
                &&& c.values@ == s.values()
                &&& validity_view(c.validity) == finished_validity(s.nulls())
            },
            (Sink::Boolean(s), Column::Boolean(c)) => {
                &&& c.values@ == s.values()
                &&& validity_view(c.validity) == finished_validity(s.nulls())
            },
            (Sink::Bytes(s), Column::Bytes(c)) => {
                &&& c.data_type == field.data_type
                &&& c.offsets@ == s.offsets()
                &&& c.values@ == s.bytes()
                &&& validity_view(c.validity) == finished_validity(s.nulls())
            },
            _ => false,
        }
    }

    /// `after` is this sink once finished for `field`: empty, without a null
    /// sink from then on, but for a byte sink, which starts afresh for the
    /// field.
    pub open spec fn emptied_by_finish(&self, after: Sink, field: Field) -> bool {
        &&& after.wf()
        &&& match (*self, after) {
            (Sink::Primitive(b), Sink::Primitive(a)) => {
                &&& a.values() == Seq::<u64>::empty()
                &&& a.nulls() is None
                &&& a.spec_data_type() == b.spec_data_type()
            },
            (Sink::Boolean(_), Sink::Boolean(a)) => {
                &&& a.values() == Seq::<bool>::empty()
                &&& a.nulls() is None
            },
            (Sink::Bytes(_), Sink::Bytes(a)) => {
                &&& a.offsets() == seq![0usize]
                &&& a.bytes() == Seq::<u8>::empty()
                &&& a.nulls() == if field.nullable {
                    Some(Seq::<bool>::empty())
                } else {
                    None
                }
                &&& a.spec_data_type() == field.data_type
            },
            _ => false,
        }
    }

    /// Hands out the collected rows as a column of the field's type and
    /// empties the sink.
    pub fn finish(&mut self, field: &Field) -> (r: Column)
        requires
            old(self).wf(),
            old(self).spec_data_type() == field.data_type,
        ensures
            old(self).finished_as(r, *field),
            old(self).emptied_by_finish(*final(self), *field),
    {
        match self {
            Sink::Primitive(s) => s.finish(field),
            Sink::Boolean(s) => s.finish(field),
            Sink::Bytes(s) => s.finish(field),
        }
    }
}

/// An empty sink for a field of fixed width values.
fn create_primitive_sink(field: &Field, batch_size: usize) -> (r: Sink)
    requires
        field.data_type.spec_is_primitive(),
    ensures
        r.fresh_for(*field),
        r is Primitive,
{
    Sink::Primitive(
        PrimitiveSink {
            data_type: field.data_type,
            nulls: null_sink_for(field, batch_size),
            values: Vec::with_capacity(batch_size),
        },
    )
}

/// An empty sink for a field, with room for `batch_size` rows.
pub fn create_sink(field: &Field, batch_size: usize) -> (r: Sink)
    requires
        sink_supported(field.data_type),
        sink_batch_size_ok(field.data_type, batch_size),
    ensures
        r.fresh_for(*field),
{
    if field.data_type.is_primitive() {
        create_primitive_sink(field, batch_size)
    } else if field.data_type == DataType::Boolean {
        Sink::Boolean(BooleanSink::new(field, batch_size))
    } else {
        Sink::Bytes(GenericByteSink::new(field, batch_size))
    }
}

/// An empty sink for each field, in order.
pub fn create_sinks(fields: &Vec<Field>, batch_size: usize) -> (r: Vec<Sink>)
    requires
        forall|i: int|
            0 <= i < fields@.len() ==> sink_supported(#[trigger] fields@[i].data_type) && sink_batch_size_ok(
                fields@[i].data_type,
                batch_size,
            ),
    ensures
        r@.len() == fields@.len(),
        forall|i: int| 0 <= i < fields@.len() ==> (#[trigger] r@[i]).fresh_for(fields@[i]),
{
    let mut r: Vec<Sink> = Vec::with_capacity(fields.len());
    let mut i: usize = 0;
    while i < fields.len()
        invariant
            i <= fields@.len(),
            r@.len() == i,
            forall|j: int|
                0 <= j < fields@.len() ==> sink_supported(#[trigger] fields@[j].data_type) && sink_batch_size_ok(
                    fields@[j].data_type,
                    batch_size,
                ),
            forall|j: int| 0 <= j < i ==> (#[trigger] r@[j]).fresh_for(fields@[j]),
        decreases fields@.len() - i,
    {
        r.push(create_sink(&fields[i], batch_size));
        i = i + 1;
    }
    r
}

/// Finishes a sink of fixed width values for the field.
fn finish_primitive_sink(field: &Field, sink: &mut Sink) -> (r: Column)
    requires
        *old(sink) is Primitive,
        old(sink).wf(),
        old(sink).spec_data_type() == field.data_type,
    ensures
        old(sink).finished_as(r, *field),
        old(sink).emptied_by_finish(*final(sink), *field),
{
    match sink {
        Sink::Primitive(primitive_sink) => primitive_sink.finish(field),
        other => other.finish(field),
    }
}

/// Finishes a boolean sink for the field.
fn finish_boolean_sink(field: &Field, sink: &mut Sink) -> (r: Column)
    requires
        *old(sink) is Boolean,
        old(sink).wf(),
        field.data_type == DataType::Boolean,
    ensures
        old(sink).finished_as(r, *field),
        old(sink).emptied_by_finish(*final(sink), *field),
{
    match sink {
        Sink::Boolean(boolean_sink) => boolean_sink.finish(field),
        other => other.finish(field),
    }
}

/// Finishes a byte sink for the field.
fn finish_byte_sink(field: &Field, sink: &mut Sink) -> (r: Column)
    requires
        *old(sink) is Bytes,
        old(sink).wf(),
        old(sink).spec_data_type() == field.data_type,
    ensures
        old(sink).finished_as(r, *field),
        old(sink).emptied_by_finish(*final(sink), *field),
{
    match sink {
        Sink::Bytes(byte_sink) => byte_sink.finish(field),
        other => other.finish(field),
    }
}

/// Finishes the field's sink: hands out the collected rows as a column of the
/// field's type and empties the sink.
pub fn finish_sink(field: &Field, sink: &mut Sink, batch_size: usize) -> (r: Column)
    requires
        sink_supported(field.data_type),
        old(sink).wf(),
        old(sink).spec_data_type() == field.data_type,
    ensures
        old(sink).finished_as(r, *field),
        old(sink).emptied_by_finish(*final(sink), *field),
{
    if field.data_type.is_primitive() {
        finish_primitive_sink(field, sink)
    } else if field.data_type == DataType::Boolean {
        finish_boolean_sink(field, sink)
    } else {
        finish_byte_sink(field, sink)
    }
}

/// What finishing the sinks into a batch of these fields asks: a sink for
/// each field, of its type, all holding the same number of rows, and no null
/// row for a field that is not nullable.
pub open spec fn sinks_ready(fields: Seq<Field>, sinks: Seq<Sink>) -> bool {
    &&& 0 < fields.len() <= sinks.len()
    &&& forall|i: int|
        0 <= i < fields.len() ==> {
            &&& sink_supported(#[trigger] fields[i].data_type)
            &&& sinks[i].wf()
            &&& sinks[i].spec_data_type() == fields[i].data_type
            &&& sinks[i].spec_len() == sinks[0].spec_len()
            &&& !fields[i].nullable ==> sinks[i].spec_null_count() == 0
        }
}

/// Finishes the sink of each field into a batch of the fields' schema, and
/// empties those sinks.
pub fn finish_sinks(fields: &Vec<Field>, sinks: &mut Vec<Sink>, batch_size: usize) -> (r: Batch)
    requires
        sinks_ready(fields@, old(sinks)@),
    ensures
        r.schema@ == fields@,
        r.num_rows == old(sinks)@[0].spec_len(),
        r.columns@.len() == fields@.len(),
        final(sinks)@.len() == old(sinks)@.len(),
        forall|i: int|
            0 <= i < fields@.len() ==> {
                &&& (#[trigger] old(sinks)@[i]).finished_as(r.columns@[i], fields@[i])
                &&& old(sinks)@[i].emptied_by_finish(final(sinks)@[i], fields@[i])
            },
        forall|i: int| fields@.len() <= i < old(sinks)@.len() ==> #[trigger] final(sinks)@[i] == old(sinks)@[i],
{
    let mut columns: Vec<Column> = Vec::with_capacity(fields.len());
    let mut i: usize = 0;
    while i < fields.len()
        invariant
            i <= fields@.len(),
            sinks_ready(fields@, old(sinks)@),
            sinks@.len() == old(sinks)@.len(),
            columns@.len() == i,
            forall|j: int|
                0 <= j < i ==> {
                    &&& (#[trigger] old(sinks)@[j]).finished_as(columns@[j], fields@[j])
                    &&& old(sinks)@[j].emptied_by_finish(sinks@[j], fields@[j])
                },
            forall|j: int| i <= j < sinks@.len() ==> #[trigger] sinks@[j] == old(sinks)@[j],
        decreases fields@.len() - i,
    {
        proof {
            assert(sink_supported(fields@[i as int].data_type));
        }
        let column = finish_sink(&fields[i], &mut sinks[i], batch_size);
        columns.push(column);
        i = i + 1;
    }
    proof {
        assert(old(sinks)@[0].finished_as(columns@[0], fields@[0]));
    }
    let num_rows = columns[0].len();
    proof {
        let sinks0 = old(sinks)@;
        assert forall|k: int| 0 <= k < columns@.len() implies (#[trigger] columns@[k]).wf() && columns@[k].spec_len()
            == num_rows && columns@[k].spec_data_type() == fields@[k].data_type && !nulls_not_allowed(
            fields@,
            columns@,
            k,
        ) by {
            assert(sink_supported(fields@[k].data_type));
            assert(sinks0[k].finished_as(columns@[k], fields@[k]));
            assert(sinks0[0].finished_as(columns@[0], fields@[0]));
            if !fields@[k].nullable {
                assert(sinks0[k].spec_null_count() == 0);
                assert(finished_validity(sinks0[k].spec_nulls()) is None);
            }
        }
    }
    Batch::try_new_with_row_count(fields, columns, num_rows).expect("should be able to create record batch")
}

/// How indices are taken.
#[derive(Clone, Debug)]
pub struct TakeOptions {
    /// Perform bounds check before taking indices from values.
    /// If enabled, an error is returned if the indices are out of bounds.
    pub check_bounds: bool,
}

impl Default for TakeOptions {
    fn default() -> (r: Self)
        ensures
            !r.check_bounds,
    {
        TakeOptions { check_bounds: false }
    }
}

/// The largest value of an integer type.
pub open spec fn integer_max(data_type: DataType) -> int {
    match data_type {
        DataType::UInt8 => 0xff,
        DataType::UInt16 => 0xffff,
        DataType::UInt32 => 0xffff_ffff,
        DataType::UInt64 => 0xffff_ffff_ffff_ffff,
        DataType::Int8 => 0x7f,
        DataType::Int16 => 0x7fff,
        DataType::Int32 => 0x7fff_ffff,
        _ => 0x7fff_ffff_ffff_ffff,
    }
}

/// The value of an entry of an integer column (see `native_value`).
fn native_of(data_type: DataType, raw: u64) -> (r: i128)
    ensures
        r == native_value(data_type, raw),
{
    match data_type {
        DataType::UInt8 => {
            assert(raw & 0xff == raw % 0x100) by (bit_vector);
            (raw & 0xff) as i128
        },
        DataType::UInt16 => {
            assert(raw & 0xffff == raw % 0x1_0000) by (bit_vector);
            (raw & 0xffff) as i128
        },
        DataType::UInt32 => {
            assert(raw & 0xffff_ffff == raw % 0x1_0000_0000) by (bit_vector);
            (raw & 0xffff_ffff) as i128
        },
        DataType::Int8 => {
            assert(raw & 0xff == raw % 0x100) by (bit_vector);
            let v = (raw & 0xff) as i128;
            if v >= 0x80 {
                v - 0x100
            } else {
                v
            }
        },
        DataType::Int16 => {
            assert(raw & 0xffff == raw % 0x1_0000) by (bit_vector);
            let v = (raw & 0xffff) as i128;
            if v >= 0x8000 {
                v - 0x1_0000
            } else {
                v
            }
        },
        DataType::Int32 => {
            assert(raw & 0xffff_ffff == raw % 0x1_0000_0000) by (bit_vector);
            let v = (raw & 0xffff_ffff) as i128;
            if v >= 0x8000_0000 {
                v - 0x1_0000_0000
            } else {
                v
            }
        },
        DataType::Int64 => {
            let v = raw as i128;
            if v >= 0x8000_0000_0000_0000 {
                v - 0x1_0000_0000_0000_0000
            } else {
                v
            }
        },
        _ => raw as i128,
    }
}

/// The largest value of an integer type (see `integer_max`).
fn integer_max_of(data_type: DataType) -> (r: u64)
    ensures
        r == integer_max(data_type),
{
    match data_type {
        DataType::UInt8 => 0xff,
        DataType::UInt16 => 0xffff,
        DataType::UInt32 => 0xffff_ffff,
        DataType::UInt64 => 0xffff_ffff_ffff_ffff,
        DataType::Int8 => 0x7f,
        DataType::Int16 => 0x7fff,
        DataType::Int32 => 0x7fff_ffff,
        _ => 0x7fff_ffff_ffff_ffff,
    }
}

/// Whether entry `k` of `indices` fails the bounds check against `len` rows:
/// when the column holds a null, only valid entries are checked, and only
/// against `len`; otherwise an entry must also not be negative.
pub open spec fn fails_bounds(indices: PrimitiveColumn, len: int, k: int) -> bool {
    let v = native_value(indices.data_type, indices.values@[k]);
    if optional_null_count(indices.validity) > 0 {
        slot_is_valid(indices.validity, k) && v >= len
    } else {
        v < 0 || v >= len
    }
}

/// Which entries fail the bounds check, by index type: an unsigned entry of
/// 8, 16, 32 or 64 bits is the low bits of its raw value, a signed one their
/// two's complement value. An entry fails when it names no row below `len`
/// (or, when no entry is null, is negative); when the column has nulls only
/// its valid entries are checked.
pub proof fn lemma_bounds_check_by_type(c: PrimitiveColumn, len: int, k: int)
    requires
        c.data_type.spec_is_integer(),
        0 <= k < c.values@.len(),
    ensures
        ({
            let raw = c.values@[k] as int;
            let nulls = optional_null_count(c.validity) > 0;
            let checked = !nulls || slot_is_valid(c.validity, k);
            let fails = fails_bounds(c, len, k);
            let u8v = raw % 0x100;
            let u16v = raw % 0x1_0000;
            let u32v = raw % 0x1_0000_0000;
            let i8v = if u8v < 0x80 { u8v } else { u8v - 0x100 };
            let i16v = if u16v < 0x8000 { u16v } else { u16v - 0x1_0000 };
            let i32v = if u32v < 0x8000_0000 { u32v } else { u32v - 0x1_0000_0000 };
            let i64v = if raw < 0x8000_0000_0000_0000 { raw } else { raw - 0x1_0000_0000_0000_0000 };
            &&& c.data_type == DataType::UInt8 ==> (fails <==> checked && u8v >= len)
            &&& c.data_type == DataType::UInt16 ==> (fails <==> checked && u16v >= len)
            &&& c.data_type == DataType::UInt32 ==> (fails <==> checked && u32v >= len)
            &&& c.data_type == DataType::UInt64 ==> (fails <==> checked && raw >= len)
            &&& c.data_type == DataType::Int8 ==> (fails <==> checked && (i8v >= len || (!nulls && i8v < 0)))
            &&& c.data_type == DataType::Int16 ==> (fails <==> checked && (i16v >= len || (!nulls && i16v < 0)))
            &&& c.data_type == DataType::Int32 ==> (fails <==> checked && (i32v >= len || (!nulls && i32v < 0)))
            &&& c.data_type == DataType::Int64 ==> (fails <==> checked && (i64v >= len || (!nulls && i64v < 0)))
        }),
{
}

/// No entry of an integer column is above the largest value of its type, so
/// when there are more rows than that value, every entry that is not
/// negative names a row: what lets `check_bounds` pass such columns without
/// looking at them.
pub proof fn lemma_entries_below_integer_max(c: PrimitiveColumn, len: int, k: int)
    requires
        c.data_type.spec_is_integer(),
        0 <= k < c.values@.len(),
        len > integer_max(c.data_type),
    ensures
        native_value(c.data_type, c.values@[k]) < len,
        native_value(c.data_type, c.values@[k]) >= 0 ==> !fails_bounds(c, len, k),
{
}

/// Checks that the entries of `indices` name rows of a column of `len` rows.
/// Non integer indices are refused; when `len` exceeds the largest value of
/// the indices' type every entry passes; otherwise the first entry that fails
/// (see `fails_bounds`) is reported.
pub fn check_bounds(len: usize, indices: &PrimitiveColumn) -> (r: Result<(), ShuffleError>)
    requires
        indices.wf(),
    ensures
        !indices.data_type.spec_is_integer() ==> r == Err::<(), ShuffleError>(ShuffleError::IndexCastFailed),
        indices.data_type.spec_is_integer() && len > integer_max(indices.data_type) ==> r is Ok,
        indices.data_type.spec_is_integer() && len <= integer_max(indices.data_type) ==> match r {
            Ok(()) => forall|k: int| 0 <= k < indices.values@.len() ==> !#[trigger] fails_bounds(*indices, len as int, k),
            Err(e) => exists|k: int|
                0 <= k < indices.values@.len() && #[trigger] fails_bounds(*indices, len as int, k) && (forall|j: int|
                    0 <= j < k ==> !#[trigger] fails_bounds(*indices, len as int, j)) && e == ShuffleError::IndexOutOfBounds {
                    index: indices.values@[k],
                    len,
                },
        },
{
    let data_type = indices.data_type;
    if !data_type.is_integer() {
        return Err(ShuffleError::IndexCastFailed);
    }
    if len as u64 > integer_max_of(data_type) {
        return Ok(());
    }
    let bound = len as i128;
    let n = indices.values.len();
    let has_nulls = null_count_of(&indices.validity) > 0;
    if has_nulls {
        let mut k: usize = 0;
        while k < n
            invariant
                k <= n,
                n == indices.values@.len(),
                indices.wf(),
                bound == len,
                data_type == indices.data_type,
                data_type.spec_is_integer(),
                len <= integer_max(data_type),
                has_nulls,
                optional_null_count(indices.validity) > 0,
                forall|j: int| 0 <= j < k ==> !#[trigger] fails_bounds(*indices, len as int, j),
            decreases n - k,
        {
            let valid = match &indices.validity {
                Some(v) => v[k],
                None => true,
            };
            let v = native_of(data_type, indices.values[k]);
            if valid && v >= bound {
                proof {
                    assert(fails_bounds(*indices, len as int, k as int));
                }
                return Err(ShuffleError::IndexOutOfBounds { index: indices.values[k], len });
            }
            k = k + 1;
        }
        Ok(())
    } else {
        let mut in_bounds = true;
        let mut k: usize = 0;
        while k < n
            invariant
                k <= n,
                n == indices.values@.len(),
                bound == len,
                data_type == indices.data_type,
                data_type.spec_is_integer(),
                len <= integer_max(data_type),
                optional_null_count(indices.validity) == 0,
                in_bounds == forall|j: int| 0 <= j < k ==> !#[trigger] fails_bounds(*indices, len as int, j),
            decreases n - k,
        {
            let v = native_of(data_type, indices.values[k]);
            in_bounds = in_bounds && v >= 0 && v < bound;
            proof {
                assert(fails_bounds(*indices, len as int, k as int) == !((v >= 0) && (v < bound)));
            }
            k = k + 1;
        }
        if !in_bounds {
            let mut k: usize = 0;
            while k < n
                invariant
                    k <= n,
                    n == indices.values@.len(),
                    bound == len,
                    data_type == indices.data_type,
                    data_type.spec_is_integer(),
                len <= integer_max(data_type),
                    optional_null_count(indices.validity) == 0,
                    exists|j: int| 0 <= j < n && #[trigger] fails_bounds(*indices, len as int, j),
                    forall|j: int| 0 <= j < k ==> !#[trigger] fails_bounds(*indices, len as int, j),
                decreases n - k,
            {
                let v = native_of(data_type, indices.values[k]);
                if v < 0 || v >= bound {
                    proof {
                        assert(fails_bounds(*indices, len as int, k as int));
                    }
                    return Err(ShuffleError::IndexOutOfBounds { index: indices.values[k], len });
                }
                k = k + 1;
            }
        }
        Ok(())
    }
}

/// The values of the fixed width rows taken, in turn, at the positions
/// `idx[j]` of `columns[j]`, for `j < k`.
pub open spec fn taken_fixed(columns: Seq<Column>, idx: Seq<Seq<int>>, k: nat) -> Seq<u64>
    decreases k,
{
    if k == 0 {
        Seq::empty()
    } else {
        taken_fixed(columns, idx, (k - 1) as nat) + match columns[k - 1] {
            Column::Primitive(c) => gather(c.values@, idx[k - 1]),
            _ => Seq::empty(),
        }
    }
}

/// The booleans taken, in turn, at the positions `idx[j]` of `columns[j]`,
/// for `j < k`.
pub open spec fn taken_booleans(columns: Seq<Column>, idx: Seq<Seq<int>>, k: nat) -> Seq<bool>
    decreases k,
{
    if k == 0 {
        Seq::empty()
    } else {
        taken_booleans(columns, idx, (k - 1) as nat) + match columns[k - 1] {
            Column::Boolean(c) => gather(c.values@, idx[k - 1]),
            _ => Seq::empty(),
        }
    }
}

/// The validity of the rows taken, in turn, at the positions `idx[j]` of
/// `columns[j]`, for `j < k`.
pub open spec fn taken_validity_of(columns: Seq<Column>, idx: Seq<Seq<int>>, k: nat) -> Seq<bool>
    decreases k,
{
    if k == 0 {
        Seq::empty()
    } else {
        taken_validity_of(columns, idx, (k - 1) as nat) + gather(
            validity_bits(columns[k - 1].validity(), columns[k - 1].spec_len()),
            idx[k - 1],
        )
    }
}

/// The bytes of each byte row taken, in turn, at the positions `idx[j]` of
/// `columns[j]`, for `j < k` (none for a null row).
pub open spec fn taken_byte_rows(columns: Seq<Column>, idx: Seq<Seq<int>>, k: nat) -> Seq<Seq<u8>>
    decreases k,
{
    if k == 0 {
        Seq::empty()
    } else {
        taken_byte_rows(columns, idx, (k - 1) as nat) + match columns[k - 1] {
            Column::Bytes(c) => taken_rows(c, idx[k - 1]),
            _ => Seq::empty(),
        }
    }
}

/// The number of rows taken at the positions `idx[j]`, for `j < k`.
pub open spec fn taken_count(idx: Seq<Seq<int>>, k: nat) -> nat
    decreases k,
{
    if k == 0 {
        0
    } else {
        taken_count(idx, (k - 1) as nat) + idx[k - 1].len()
    }
}

/// The sink holds what a fresh sink for `field` holds once the rows at the
/// positions `idx[j]` of `columns[j]` were taken into it, for `j < k` in turn.
pub open spec fn holds_taken(sink: Sink, field: Field, columns: Seq<Column>, idx: Seq<Seq<int>>, k: nat) -> bool {
    &&& sink.wf()
    &&& sink.spec_data_type() == field.data_type
    &&& sink.spec_len() == taken_count(idx, k)
    &&& sink.spec_nulls() == if field.nullable {
        Some(taken_validity_of(columns, idx, k))
    } else {
        None
    }
    &&& match sink {
        Sink::Primitive(s) => s.values() == taken_fixed(columns, idx, k),
        Sink::Boolean(s) => s.values() == taken_booleans(columns, idx, k),
        Sink::Bytes(s) => {
            &&& s.bytes() == taken_byte_rows(columns, idx, k).flatten_alt()
            &&& s.offsets() == seq![0usize] + running_ends(0, taken_byte_rows(columns, idx, k))
        },
    }
}

/// The column holds the rows taken at the positions `idx[j]` of
/// `columns[j]`, for `j < k` in turn, as a column of `field`: their values
/// (for byte rows, their bytes laid out one after another), and, for a
/// nullable field, their validity when one of them is null.
pub open spec fn column_of_taken(column: Column, field: Field, columns: Seq<Column>, idx: Seq<Seq<int>>, k: nat) -> bool {
    &&& column.wf()
    &&& column.spec_data_type() == field.data_type
    &&& column.spec_len() == taken_count(idx, k)
    &&& validity_view(column.validity()) == if field.nullable {
        normalized_validity(taken_validity_of(columns, idx, k))
    } else {
        None
    }
    &&& match column {
        Column::Primitive(c) => c.values@ == taken_fixed(columns, idx, k),
        Column::Boolean(c) => c.values@ == taken_booleans(columns, idx, k),
        Column::Bytes(c) => {
            &&& c.values@ == taken_byte_rows(columns, idx, k).flatten_alt()
            &&& c.offsets@ == seq![0usize] + running_ends(0, taken_byte_rows(columns, idx, k))
        },
    }
}

/// Laying out two sequences of rows one after the other lays out the first,
/// then the second.
pub proof fn lemma_flatten_alt_add(a: Seq<Seq<u8>>, b: Seq<Seq<u8>>)
    ensures
        (a + b).flatten_alt() == a.flatten_alt() + b.flatten_alt(),
    decreases b.len(),
{
    if b.len() == 0 {
        assert(a + b =~= a);
        assert(a.flatten_alt() + b.flatten_alt() =~= a.flatten_alt());
    } else {
        lemma_flatten_alt_add(a, b.drop_last());
        assert((a + b).drop_last() =~= a + b.drop_last());
        assert((a + b).last() == b.last());
        assert(a.flatten_alt() + b.drop_last().flatten_alt() + b.last() =~= a.flatten_alt() + (b.drop_last().flatten_alt()
            + b.last()));
    }
}

/// The end offsets of two sequences of rows laid out from zero: those of the
/// first, then those of the second laid out from where the first ends.
pub proof fn lemma_running_ends_add(a: Seq<Seq<u8>>, b: Seq<Seq<u8>>)
    ensures
        running_ends(0, a + b) == running_ends(0, a) + running_ends(a.flatten_alt().len() as int, b),
{
    let left = running_ends(0, a + b);
    let right = running_ends(0, a) + running_ends(a.flatten_alt().len() as int, b);
    assert forall|k: int| 0 <= k < left.len() implies #[trigger] left[k] == right[k] by {
        if k < a.len() {
            assert((a + b).take(k + 1) =~= a.take(k + 1));
        } else {
            let j = k - a.len();
            assert((a + b).take(k + 1) =~= a + b.take(j + 1));
            lemma_flatten_alt_add(a, b.take(j + 1));
        }
    }
    assert(left =~= right);
}

/// A fresh sink for a field holds what taking nothing leaves.
pub proof fn lemma_fresh_holds_taken(sink: Sink, field: Field, columns: Seq<Column>, idx: Seq<Seq<int>>)
    requires
        sink.fresh_for(field),
    ensures
        holds_taken(sink, field, columns, idx, 0),
{
    match sink {
        Sink::Bytes(s) => {
            assert(s.offsets().len() == 1);
            assert(s.offsets().last() == s.offsets()[0]);
            assert(s.offsets()[0] == 0);
            assert(taken_byte_rows(columns, idx, 0) == Seq::<Seq<u8>>::empty());
            assert(Seq::<Seq<u8>>::empty().flatten_alt() =~= Seq::<u8>::empty());
            assert(s.bytes() =~= Seq::<u8>::empty());
            assert(running_ends(0, Seq::<Seq<u8>>::empty()) =~= Seq::<usize>::empty());
            assert(s.offsets() =~= seq![0usize] + running_ends(0, Seq::<Seq<u8>>::empty()));
        },
        Sink::Primitive(s) => {
            assert(s.values() =~= taken_fixed(columns, idx, 0));
        },
        Sink::Boolean(s) => {
            assert(s.values() =~= taken_booleans(columns, idx, 0));
        },
    }
}

/// Taking the next rows into a sink that holds what the earlier takes left
/// makes it hold what all of them leave.
pub proof fn lemma_holds_taken_step(
    before: Sink,
    after: Sink,
    field: Field,
    columns: Seq<Column>,
    idx: Seq<Seq<int>>,
    k: nat,
)
    requires
        k < columns.len(),
        k < idx.len(),
        holds_taken(before, field, columns, idx, k),
        before.matches_column(columns[k as int]),
        columns[k as int].wf(),
        in_bounds(idx[k as int], columns[k as int].spec_len()),
        before.took(after, columns[k as int], idx[k as int]),
        after.wf(),
    ensures
        holds_taken(after, field, columns, idx, k + 1),
{
    let v = columns[k as int];
    assert(taken_count(idx, k + 1) == taken_count(idx, k) + idx[k as int].len());
    match (before, after, v) {
        (Sink::Primitive(b), Sink::Primitive(a), Column::Primitive(c)) => {
            assert(taken_fixed(columns, idx, k + 1) == taken_fixed(columns, idx, k) + gather(c.values@, idx[k as int]));
            if field.nullable {
                assert(taken_validity_of(columns, idx, k + 1) == taken_validity_of(columns, idx, k) + gather(
                    validity_bits(c.validity, c.values@.len()),
                    idx[k as int],
                ));
            }
        },
        (Sink::Boolean(b), Sink::Boolean(a), Column::Boolean(c)) => {
            assert(taken_booleans(columns, idx, k + 1) == taken_booleans(columns, idx, k) + gather(c.values@, idx[k as int]));
            if field.nullable {
                assert(taken_validity_of(columns, idx, k + 1) == taken_validity_of(columns, idx, k) + gather(
                    validity_bits(c.validity, c.values@.len()),
                    idx[k as int],
                ));
            }
        },
        (Sink::Bytes(b), Sink::Bytes(a), Column::Bytes(c)) => {
            let prev = taken_byte_rows(columns, idx, k);
            let rows = taken_rows(c, idx[k as int]);
            assert(taken_byte_rows(columns, idx, k + 1) == prev + rows);
            lemma_flatten_alt_add(prev, rows);
            lemma_running_ends_add(prev, rows);
            assert(b.offsets().last() == b.bytes().len());
            assert(a.offsets() =~= seq![0usize] + running_ends(0, prev + rows));
            if field.nullable {
                assert(taken_validity_of(columns, idx, k + 1) == taken_validity_of(columns, idx, k) + gather(
                    validity_bits(c.validity, c.spec_len()),
                    idx[k as int],
                ));
            }
        },
        _ => {},
    }
}

/// Finishing a sink that holds what the takes left hands out a column that
/// holds the rows taken.
pub proof fn lemma_finished_column_of_taken(
    sink: Sink,
    column: Column,
    field: Field,
    columns: Seq<Column>,
    idx: Seq<Seq<int>>,
    k: nat,
)
    requires
        holds_taken(sink, field, columns, idx, k),
        sink.finished_as(column, field),
    ensures
        column_of_taken(column, field, columns, idx, k),
{
}

/// Taking nothing leaves a sink as it is.
pub proof fn lemma_holds_taken_skip(sink: Sink, field: Field, columns: Seq<Column>, idx: Seq<Seq<int>>, k: nat)
    requires
        k < idx.len(),
        idx[k as int].len() == 0,
        holds_taken(sink, field, columns, idx, k),
    ensures
        holds_taken(sink, field, columns, idx, k + 1),
{
    assert(taken_fixed(columns, idx, k + 1) =~= taken_fixed(columns, idx, k));
    assert(taken_booleans(columns, idx, k + 1) =~= taken_booleans(columns, idx, k));
    assert(taken_validity_of(columns, idx, k + 1) =~= taken_validity_of(columns, idx, k));
    assert(taken_byte_rows(columns, idx, k + 1) =~= taken_byte_rows(columns, idx, k)) by {
        match columns[k as int] {
            Column::Bytes(c) => {
                assert(taken_rows(c, idx[k as int]) =~= Seq::<Seq<u8>>::empty());
            },
            _ => {},
        }
    }
}

/// More takes never take fewer rows.
pub proof fn lemma_taken_count_monotone(idx: Seq<Seq<int>>, k1: nat, k2: nat)
    requires
        k1 <= k2,
    ensures
        taken_count(idx, k1) <= taken_count(idx, k2),
    decreases k2,
{
    if k1 < k2 {
        lemma_taken_count_monotone(idx, k1, (k2 - 1) as nat);
    }
}

/// More takes never take fewer bytes.
pub proof fn lemma_taken_bytes_monotone(columns: Seq<Column>, idx: Seq<Seq<int>>, k1: nat, k2: nat)
    requires
        k1 <= k2,
    ensures
        taken_byte_rows(columns, idx, k1).flatten_alt().len() <= taken_byte_rows(columns, idx, k2).flatten_alt().len(),
    decreases k2,
{
    if k1 < k2 {
        lemma_taken_bytes_monotone(columns, idx, k1, (k2 - 1) as nat);
        let prev = taken_byte_rows(columns, idx, (k2 - 1) as nat);
        let rows = match columns[k2 - 1] {
            Column::Bytes(c) => taken_rows(c, idx[k2 - 1]),
            _ => Seq::empty(),
        };
        lemma_flatten_alt_add(prev, rows);
    }
}

/// What taking the rows `idx[k]` of `columns[k]` adds to the bytes taken.
pub proof fn lemma_taken_bytes_step(columns: Seq<Column>, idx: Seq<Seq<int>>, k: nat)
    requires
        k < columns.len(),
        columns[k as int] is Bytes,
    ensures
        taken_byte_rows(columns, idx, k + 1).flatten_alt().len() == taken_byte_rows(columns, idx, k).flatten_alt().len()
            + taken_rows(columns[k as int]->Bytes_0, idx[k as int]).flatten_alt().len(),
{
    lemma_flatten_alt_add(taken_byte_rows(columns, idx, k), taken_rows(columns[k as int]->Bytes_0, idx[k as int]));
}

/// Taking rows into a fresh sink and finishing it gives a column of exactly
/// the rows taken, in the order of the indices: each value, byte row and
/// validity bit is that of the row its index names.
pub proof fn lemma_take_into_fresh_sink(
    fresh: Sink,
    filled: Sink,
    field: Field,
    values: Column,
    idx: Seq<int>,
    out: Column,
)
    requires
        fresh.fresh_for(field),
        fresh.can_take(values, idx),
        fresh.took(filled, values, idx),
        filled.wf(),
        filled.finished_as(out, field),
    ensures
        column_of_taken(out, field, seq![values], seq![idx], 1),
        out.spec_len() == idx.len(),
        out matches Column::Primitive(o) ==> values matches Column::Primitive(v) && o.values@ == gather(v.values@, idx),
        out matches Column::Boolean(o) ==> values matches Column::Boolean(v) && o.values@ == gather(v.values@, idx),
        out matches Column::Bytes(o) ==> values matches Column::Bytes(v) && o.values@ == taken_rows(v, idx).flatten_alt(),
        field.nullable ==> validity_view(out.validity()) == normalized_validity(
            gather(validity_bits(values.validity(), values.spec_len()), idx),
        ),
{
    let columns = seq![values];
    let positions = seq![idx];
    lemma_fresh_holds_taken(fresh, field, columns, positions);
    assert(columns[0] == values);
    assert(positions[0] == idx);
    lemma_holds_taken_step(fresh, filled, field, columns, positions, 0);
    lemma_finished_column_of_taken(filled, out, field, columns, positions, 1);
    assert(taken_fixed(columns, positions, 1) =~= taken_fixed(columns, positions, 0) + match values {
        Column::Primitive(c) => gather(c.values@, idx),
        _ => Seq::empty(),
    });
    assert(taken_booleans(columns, positions, 1) =~= taken_booleans(columns, positions, 0) + match values {
        Column::Boolean(c) => gather(c.values@, idx),
        _ => Seq::empty(),
    });
    assert(taken_byte_rows(columns, positions, 1) =~= taken_byte_rows(columns, positions, 0) + match values {
        Column::Bytes(c) => taken_rows(c, idx),
        _ => Seq::empty(),
    });
    let bits = gather(validity_bits(values.validity(), values.spec_len()), idx);
    assert(taken_validity_of(columns, positions, 1) == taken_validity_of(columns, positions, 0) + bits);
    assert(taken_validity_of(columns, positions, 1) =~= bits);
    assert(taken_count(positions, 1) == idx.len());
    match (out, values) {
        (Column::Primitive(o), Column::Primitive(v)) => {
            assert(taken_fixed(columns, positions, 1) =~= gather(v.values@, idx));
        },
        (Column::Boolean(o), Column::Boolean(v)) => {
            assert(taken_booleans(columns, positions, 1) =~= gather(v.values@, idx));
        },
        (Column::Bytes(o), Column::Bytes(v)) => {
            assert(taken_byte_rows(columns, positions, 1) =~= taken_rows(v, idx));
        },
        _ => {},
    }
}

/// Taking the rows that an index column without nulls names of a batch's
/// columns into fresh sinks, one per field, and finishing them gives the
/// batch of exactly those rows: as many rows as indices, and every column
/// holding the rows its indices name, in their order, with their validity.
pub proof fn lemma_take_batch(
    fields: Seq<Field>,
    fresh: Seq<Sink>,
    filled: Seq<Sink>,
    arrays: Seq<Column>,
    indices: Column,
    out: Batch,
)
    requires
        fields.len() > 0,
        fresh.len() == fields.len(),
        filled.len() == fields.len(),
        arrays.len() == fields.len(),
        out.columns@.len() == fields.len(),
        indices.spec_null_count() == 0,
        forall|i: int|
            0 <= i < fields.len() ==> {
                &&& (#[trigger] fresh[i]).fresh_for(fields[i])
                &&& fresh[i].can_take_by(arrays[i], indices)
                &&& fresh[i].took_by(filled[i], arrays[i], indices)
                &&& filled[i].wf()
                &&& filled[i].finished_as(out.columns@[i], fields[i])
            },
        out.num_rows == filled[0].spec_len(),
    ensures
        out.num_rows == column_positions(indices).len(),
        forall|i: int|
            0 <= i < fields.len() ==> {
                &&& column_of_taken(
                    #[trigger] out.columns@[i],
                    fields[i],
                    seq![arrays[i]],
                    seq![column_positions(indices)],
                    1,
                )
                &&& out.columns@[i].spec_len() == column_positions(indices).len()
            },
{
    let idx = column_positions(indices);
    assert forall|i: int| 0 <= i < fields.len() implies {
        &&& column_of_taken(#[trigger] out.columns@[i], fields[i], seq![arrays[i]], seq![idx], 1)
        &&& out.columns@[i].spec_len() == idx.len()
    } by {
        assert(fresh[i].fresh_for(fields[i]));
        lemma_take_into_fresh_sink(fresh[i], filled[i], fields[i], arrays[i], idx, out.columns@[i]);
    }
    assert(fresh[0].fresh_for(fields[0]));
    lemma_take_into_fresh_sink(fresh[0], filled[0], fields[0], arrays[0], idx, out.columns@[0]);
}

/// The byte rows taken, in turn, at the positions `idx[j]` of the byte
/// columns `columns[j]`, for `j < k`, as values (`None` for a null row).
pub open spec fn taken_row_values(columns: Seq<Column>, idx: Seq<Seq<int>>, k: nat) -> Seq<Option<Seq<u8>>>
    decreases k,
{
    if k == 0 {
        Seq::empty()
    } else {
        taken_row_values(columns, idx, (k - 1) as nat) + gather(columns[k - 1]->Bytes_0.row_values(), idx[k - 1])
    }
}

/// Every taken byte row is valid, as a value, exactly when its validity bit
/// is set, and then holds the bytes taken for it.
proof fn lemma_taken_rows_pointwise(columns: Seq<Column>, idx: Seq<Seq<int>>, k: nat)
    requires
        k <= columns.len(),
        k <= idx.len(),
        forall|j: int|
            0 <= j < k ==> (#[trigger] columns[j]) is Bytes && columns[j].wf() && in_bounds(idx[j], columns[j].spec_len()),
    ensures
        taken_row_values(columns, idx, k).len() == taken_count(idx, k),
        taken_byte_rows(columns, idx, k).len() == taken_count(idx, k),
        taken_validity_of(columns, idx, k).len() == taken_count(idx, k),
        forall|i: int|
            0 <= i < taken_count(idx, k) ==> #[trigger] taken_row_values(columns, idx, k)[i] == if taken_validity_of(
                columns,
                idx,
                k,
            )[i] {
                Some(taken_byte_rows(columns, idx, k)[i])
            } else {
                None
            },
    decreases k,
{
    if k > 0 {
        let m = (k - 1) as nat;
        lemma_taken_rows_pointwise(columns, idx, m);
        let c = columns[m as int];
        let col = c->Bytes_0;
        let pos = idx[m as int];
        assert(c is Bytes && c.wf() && in_bounds(pos, c.spec_len()));
        let values = taken_row_values(columns, idx, k);
        let rows = taken_byte_rows(columns, idx, k);
        let bits = taken_validity_of(columns, idx, k);
        let n0 = taken_count(idx, m);
        assert(values == taken_row_values(columns, idx, m) + gather(col.row_values(), pos));
        assert(rows == taken_byte_rows(columns, idx, m) + taken_rows(col, pos));
        assert(bits == taken_validity_of(columns, idx, m) + gather(validity_bits(col.validity, col.spec_len()), pos));
        assert forall|i: int| 0 <= i < taken_count(idx, k) implies #[trigger] values[i] == if bits[i] {
            Some(rows[i])
        } else {
            None
        } by {
            if i < n0 {
                assert(values[i] == taken_row_values(columns, idx, m)[i]);
                assert(rows[i] == taken_byte_rows(columns, idx, m)[i]);
                assert(bits[i] == taken_validity_of(columns, idx, m)[i]);
            } else {
                let j = i - n0;
                let x = pos[j];
                assert(0 <= x < col.spec_len());
                assert(values[i] == col.row_values()[x]);
                assert(rows[i] == taken_bytes(col, x));
                assert(bits[i] == validity_bits(col.validity, col.spec_len())[x]);
            }
        }
    }
}

/// Without null rows in the columns, every taken row is valid.
proof fn lemma_taken_validity_all_valid(columns: Seq<Column>, idx: Seq<Seq<int>>, k: nat)
    requires
        k <= columns.len(),
        k <= idx.len(),
        forall|j: int|
            0 <= j < k ==> (#[trigger] columns[j]).wf() && columns[j].spec_null_count() == 0 && in_bounds(
                idx[j],
                columns[j].spec_len(),
            ),
    ensures
        forall|i: int| 0 <= i < taken_validity_of(columns, idx, k).len() ==> #[trigger] taken_validity_of(columns, idx, k)[i],
    decreases k,
{
    if k > 0 {
        let m = (k - 1) as nat;
        lemma_taken_validity_all_valid(columns, idx, m);
        let c = columns[m as int];
        let pos = idx[m as int];
        assert(c.wf() && c.spec_null_count() == 0 && in_bounds(pos, c.spec_len()));
        let prev = taken_validity_of(columns, idx, m);
        let added = gather(validity_bits(c.validity(), c.spec_len()), pos);
        assert(taken_validity_of(columns, idx, k) == prev + added);
        if c.validity() is Some {
            lemma_count_nulls(c.validity()->0@);
        }
        assert forall|i: int| 0 <= i < added.len() implies #[trigger] added[i] by {
            assert(0 <= pos[i] < c.spec_len());
            match c {
                Column::Primitive(pc) => {},
                Column::Boolean(bc) => {},
                Column::Bytes(yc) => {},
            }
        }
        assert forall|i: int| 0 <= i < taken_validity_of(columns, idx, k).len() implies #[trigger] taken_validity_of(
            columns,
            idx,
            k,
        )[i] by {
            if i < prev.len() {
                assert(taken_validity_of(columns, idx, k)[i] == prev[i]);
            } else {
                assert(taken_validity_of(columns, idx, k)[i] == added[i - prev.len()]);
            }
        }
    }
}

/// Row `i` of rows laid out one after another lies between the lengths of
/// the first `i` and the first `i + 1` rows.
pub proof fn lemma_laid_out_row(rows: Seq<Seq<u8>>, i: int)
    requires
        0 <= i < rows.len(),
    ensures
        rows.flatten_alt().subrange(
            rows.take(i).flatten_alt().len() as int,
            rows.take(i + 1).flatten_alt().len() as int,
        ) == rows[i],
{
    assert(rows =~= rows.take(i + 1) + rows.skip(i + 1));
    lemma_flatten_alt_add(rows.take(i + 1), rows.skip(i + 1));
    assert(rows.take(i + 1).drop_last() =~= rows.take(i));
    let front = rows.take(i).flatten_alt();
    let whole = rows.flatten_alt();
    assert(whole == front + rows[i] + rows.skip(i + 1).flatten_alt());
    assert(whole.subrange(front.len() as int, (front.len() + rows[i].len()) as int) =~= rows[i]);
}

/// A byte column that holds the rows taken holds them as values too: its
/// rows are the rows its indices named, null where those were null.
pub proof fn lemma_taken_column_row_values(out: Column, field: Field, columns: Seq<Column>, idx: Seq<Seq<int>>, k: nat)
    requires
        column_of_taken(out, field, columns, idx, k),
        out is Bytes,
        k <= columns.len(),
        k <= idx.len(),
        forall|j: int|
            0 <= j < k ==> {
                &&& (#[trigger] columns[j]) is Bytes
                &&& columns[j].wf()
                &&& in_bounds(idx[j], columns[j].spec_len())
                &&& !field.nullable ==> columns[j].spec_null_count() == 0
            },
    ensures
        out->Bytes_0.row_values() == taken_row_values(columns, idx, k),
{
    let o = out->Bytes_0;
    let rows = taken_byte_rows(columns, idx, k);
    let bits = taken_validity_of(columns, idx, k);
    let values = taken_row_values(columns, idx, k);
    lemma_taken_rows_pointwise(columns, idx, k);
    if !field.nullable {
        lemma_taken_validity_all_valid(columns, idx, k);
    } else {
        lemma_count_nulls(bits);
    }
    assert(o.values@ == rows.flatten_alt());
    assert(o.offsets@ == seq![0usize] + running_ends(0, rows));
    vstd::std_specs::vec::axiom_spec_len(&o.values);
    assert(o.values@.len() <= usize::MAX);
    assert forall|i: int| 0 <= i <= rows.len() implies #[trigger] o.offsets@[i] == rows.take(i).flatten_alt().len() by {
        lemma_flatten_prefix_len(rows, i, rows.len() as int);
        assert(rows.take(rows.len() as int) =~= rows);
        if i == 0 {
            assert(rows.take(0) =~= Seq::<Seq<u8>>::empty());
        } else {
            assert(o.offsets@[i] == running_ends(0, rows)[i - 1]);
        }
    }
    assert forall|i: int| 0 <= i < o.spec_len() implies #[trigger] o.row_values()[i] == values[i] by {
        assert(o.offsets@[i] == rows.take(i).flatten_alt().len());
        assert(o.offsets@[i + 1] == rows.take(i + 1).flatten_alt().len());
        lemma_laid_out_row(rows, i);
        assert(o.row_bytes(i) == rows[i]);
        assert(slot_is_valid(o.validity, i) == bits[i]);
    }
    assert(o.row_values() =~= values);
}

} // verus!
