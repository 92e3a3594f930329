//! The buffer builders of `arrow_buffer`, and the hash set of `hashbrown`,
//! as the splitters use them. Each item here is trusted: its contract restates
//! what the outside crate's source does, over a name for the collection's
//! contents.
use arrow_buffer::{BooleanBufferBuilder, NullBuffer, NullBufferBuilder, OffsetBufferBuilder};
use vstd::prelude::*;

verus! {

#[verifier::external_type_specification]
#[verifier::external_body]
pub struct ExNullBufferBuilder(NullBufferBuilder);

#[verifier::external_type_specification]
#[verifier::external_body]
pub struct ExNullBuffer(NullBuffer);

#[verifier::external_type_specification]
#[verifier::external_body]
pub struct ExBooleanBufferBuilder(BooleanBufferBuilder);

/// The bits appended to a `BooleanBufferBuilder` since it was created or
/// last finished.
pub uninterp spec fn boolean_builder_bits(b: BooleanBufferBuilder) -> Seq<bool>;

/// `BooleanBufferBuilder::new`: an empty builder.
#[verifier::external_body]
pub(crate) fn boolean_builder_new(capacity: usize) -> (b: BooleanBufferBuilder)
    ensures
        boolean_builder_bits(b) == Seq::<bool>::empty(),
{
    BooleanBufferBuilder::new(capacity)
}

/// `BooleanBufferBuilder::append`: appends one bit.
#[verifier::external_body]
pub(crate) fn boolean_builder_append(b: &mut BooleanBufferBuilder, v: bool)
    requires
        boolean_builder_bits(*old(b)).len() < usize::MAX,
    ensures
        boolean_builder_bits(*final(b)) == boolean_builder_bits(*old(b)).push(v),
{
    b.append(v)
}

/// `BooleanBufferBuilder::finish`: hands out the bits, as the finished
/// buffer's iterator yields them, and empties the builder.
#[verifier::external_body]
pub(crate) fn boolean_builder_finish(b: &mut BooleanBufferBuilder) -> (r: Vec<bool>)
    ensures
        r@ == boolean_builder_bits(*old(b)),
        boolean_builder_bits(*final(b)) == Seq::<bool>::empty(),
{
    b.finish().iter().collect()
}

/// The offsets of the rows of a byte column being built, in an
/// `OffsetBufferBuilder<i64>`: they start at zero and each row adds its
/// length to the last one.
#[verifier::external_body]
pub struct OffsetsBuilder {
    inner: OffsetBufferBuilder<i64>,
}

/// The validity bits appended to a `NullBufferBuilder` since it was created
/// or last finished (`true` is a valid slot).
pub uninterp spec fn null_builder_bits(b: NullBufferBuilder) -> Seq<bool>;

/// The validity bits of a `NullBuffer`.
pub uninterp spec fn null_buffer_bits(b: NullBuffer) -> Seq<bool>;

/// The offsets held by the builder.
pub uninterp spec fn offset_builder_offsets(b: OffsetsBuilder) -> Seq<i64>;

/// `NullBufferBuilder::new`: an empty builder (the capacity only sizes a later
/// allocation).
#[verifier::external_body]
pub(crate) fn null_builder_new(capacity: usize) -> (b: NullBufferBuilder)
    ensures
        null_builder_bits(b) == Seq::<bool>::empty(),
{
    NullBufferBuilder::new(capacity)
}

/// `NullBufferBuilder::append`: appends one validity bit.
#[verifier::external_body]
pub(crate) fn null_builder_append(b: &mut NullBufferBuilder, not_null: bool)
    requires
        null_builder_bits(*old(b)).len() < usize::MAX,
    ensures
        null_builder_bits(*final(b)) == null_builder_bits(*old(b)).push(not_null),
{
    b.append(not_null)
}

/// `NullBufferBuilder::append_non_null`: appends one `true`.
#[verifier::external_body]
pub(crate) fn null_builder_append_non_null(b: &mut NullBufferBuilder)
    requires
        null_builder_bits(*old(b)).len() < usize::MAX,
    ensures
        null_builder_bits(*final(b)) == null_builder_bits(*old(b)).push(true),
{
    b.append_non_null()
}

/// `NullBufferBuilder::append_n_non_nulls`: appends `n` times `true`.
#[verifier::external_body]
pub(crate) fn null_builder_append_n_non_nulls(b: &mut NullBufferBuilder, n: usize)
    requires
        null_builder_bits(*old(b)).len() + n <= usize::MAX,
    ensures
        null_builder_bits(*final(b)) == null_builder_bits(*old(b)) + Seq::new(n as nat, |i: int| true),
{
    b.append_n_non_nulls(n)
}

/// `NullBufferBuilder::append_buffer`: appends the bits of a `NullBuffer`.
#[verifier::external_body]
pub(crate) fn null_builder_append_buffer(b: &mut NullBufferBuilder, buffer: &NullBuffer)
    requires
        null_builder_bits(*old(b)).len() + null_buffer_bits(*buffer).len() <= usize::MAX,
    ensures
        null_builder_bits(*final(b)) == null_builder_bits(*old(b)) + null_buffer_bits(*buffer),
{
    b.append_buffer(buffer)
}

/// `NullBufferBuilder::len`: the number of bits appended.
#[verifier::external_body]
pub(crate) fn null_builder_len(b: &NullBufferBuilder) -> (r: usize)
    ensures
        r == null_builder_bits(*b).len(),
{
    b.len()
}

/// `NullBufferBuilder::finish`: hands out the bits and empties the builder.
/// It gives `None` only when no null was appended, as the builder allocates a
/// bitmap at the first null; otherwise the buffer holds every appended bit.
#[verifier::external_body]
pub(crate) fn null_builder_finish(b: &mut NullBufferBuilder) -> (r: Option<NullBuffer>)
    ensures
        null_builder_bits(*final(b)) == Seq::<bool>::empty(),
        match r {
            Some(n) => null_buffer_bits(n) == null_builder_bits(*old(b)),
            None => forall|i: int| 0 <= i < null_builder_bits(*old(b)).len() ==> #[trigger] null_builder_bits(*old(b))[i],
        },
{
    b.finish()
}

/// `NullBuffer::slice`: the `len` bits from `offset` on.
#[verifier::external_body]
pub(crate) fn null_buffer_slice(n: &NullBuffer, offset: usize, len: usize) -> (r: NullBuffer)
    requires
        offset + len <= null_buffer_bits(*n).len(),
    ensures
        null_buffer_bits(r) == null_buffer_bits(*n).subrange(offset as int, offset + len),
{
    n.slice(offset, len)
}

/// `NullBuffer::null_count`: the number of `false` bits.
#[verifier::external_body]
pub(crate) fn null_buffer_null_count(n: &NullBuffer) -> (r: usize)
    ensures
        r == crate::column::count_nulls(null_buffer_bits(*n)),
{
    n.null_count()
}

/// The bits of a `NullBuffer`, as `NullBuffer::iter` yields them.
#[verifier::external_body]
pub(crate) fn null_buffer_to_vec(n: &NullBuffer) -> (r: Vec<bool>)
    ensures
        r@ == null_buffer_bits(*n),
{
    n.iter().collect()
}

/// `OffsetBufferBuilder::new`: a builder holding the single offset zero.
#[verifier::external_body]
pub(crate) fn offset_builder_new(capacity: usize) -> (b: OffsetsBuilder)
    requires
        capacity < usize::MAX,
    ensures
        offset_builder_offsets(b) == seq![0i64],
{
    OffsetsBuilder { inner: OffsetBufferBuilder::new(capacity) }
}

/// `OffsetBufferBuilder::push_length`: appends the last offset plus `length`.
#[verifier::external_body]
pub(crate) fn offset_builder_push_length(b: &mut OffsetsBuilder, length: usize)
    requires
        offset_builder_offsets(*old(b)).len() > 0,
        0 <= offset_builder_offsets(*old(b)).last(),
        offset_builder_offsets(*old(b)).last() + length <= i64::MAX,
    ensures
        offset_builder_offsets(*final(b)) == offset_builder_offsets(*old(b)).push(
            (offset_builder_offsets(*old(b)).last() + length) as i64,
        ),
{
    b.inner.push_length(length)
}

/// `OffsetBufferBuilder::reserve`: allocates room; the offsets are unchanged.
#[verifier::external_body]
pub(crate) fn offset_builder_reserve(b: &mut OffsetsBuilder, additional: usize)
    ensures
        offset_builder_offsets(*final(b)) == offset_builder_offsets(*old(b)),
{
    b.inner.reserve(additional)
}

/// The number of offsets, as the builder's slice gives it.
#[verifier::external_body]
pub(crate) fn offset_builder_len(b: &OffsetsBuilder) -> (r: usize)
    ensures
        r == offset_builder_offsets(*b).len(),
{
    b.inner.len()
}

/// `OffsetBufferBuilder::finish`, with the finished offsets handed out as a
/// vector.
#[verifier::external_body]
pub(crate) fn offset_builder_finish(b: OffsetsBuilder) -> (r: Vec<i64>)
    requires
        offset_builder_offsets(b).len() > 0,
        0 <= offset_builder_offsets(b).last(),
    ensures
        r@ == offset_builder_offsets(b),
{
    b.inner.finish().to_vec()
}

/// The partitions a batch of rows touched, held in a `hashbrown::HashSet`.
#[verifier::external_body]
pub struct TouchedPartitions {
    set: hashbrown::HashSet<u32>,
}

/// The partition indices in the set.
pub uninterp spec fn touched_set(s: TouchedPartitions) -> Set<u32>;

/// `HashSet::with_capacity`: an empty set.
#[verifier::external_body]
pub(crate) fn touched_with_capacity(capacity: usize) -> (s: TouchedPartitions)
    ensures
        touched_set(s) == Set::<u32>::empty(),
{
    TouchedPartitions { set: hashbrown::HashSet::with_capacity(capacity) }
}

/// `HashSet::insert`: adds one partition index.
#[verifier::external_body]
pub(crate) fn touched_insert(s: &mut TouchedPartitions, partition: u32)
    ensures
        touched_set(*final(s)) == touched_set(*old(s)).insert(partition),
{
    s.set.insert(partition);
}

/// `HashSet::into_iter`, collected: each index of the set once, in the
/// order of the hash table, which nothing here states.
#[verifier::external_body]
pub(crate) fn touched_into_vec(s: TouchedPartitions) -> (r: Vec<u32>)
    ensures
        r@.no_duplicates(),
        r@.to_set() == touched_set(s),
{
    s.set.into_iter().collect()
}

} // verus!
