//! Columns: fixed width values, booleans and variable length bytes, each
//! with an optional validity, and the field types of a schema.
use vstd::prelude::*;

verus! {

/// The logical type of a column.
#[derive(Clone, Copy, Debug, PartialEq, Eq, Structural)]
pub enum DataType {
    Boolean,
    Int8,
    Int16,
    Int32,
    Int64,
    UInt8,
    UInt16,
    UInt32,
    UInt64,
    Float32,
    Float64,
    Utf8,
    LargeUtf8,
    Binary,
    LargeBinary,
}

impl DataType {
    /// Variable length byte data (strings and binary).
    pub open spec fn spec_is_byte_type(self) -> bool {
        self == DataType::Utf8 || self == DataType::LargeUtf8 || self == DataType::Binary
            || self == DataType::LargeBinary
    }

    /// Fixed width values of at most 64 bits.
    pub open spec fn spec_is_primitive(self) -> bool {
        !self.spec_is_byte_type() && self != DataType::Boolean
    }

    /// The largest end offset that a byte column of this type can hold.
    pub open spec fn spec_offset_limit(self) -> nat {
        if self == DataType::LargeUtf8 || self == DataType::LargeBinary {
            0x7fff_ffff_ffff_ffff
        } else {
            0x7fff_ffff
        }
    }

    /// Integers of 8 to 64 bits, signed or not.
    pub open spec fn spec_is_integer(self) -> bool {
        self == DataType::Int8 || self == DataType::Int16 || self == DataType::Int32 || self == DataType::Int64
            || self == DataType::UInt8 || self == DataType::UInt16 || self == DataType::UInt32
            || self == DataType::UInt64
    }

    #[verifier::when_used_as_spec(spec_is_integer)]
    pub fn is_integer(self) -> (r: bool)
        ensures
            r == self.spec_is_integer(),
    {
        match self {
            DataType::Int8 | DataType::Int16 | DataType::Int32 | DataType::Int64 | DataType::UInt8
            | DataType::UInt16 | DataType::UInt32 | DataType::UInt64 => true,
            _ => false,
        }
    }

    #[verifier::when_used_as_spec(spec_is_byte_type)]
    pub fn is_byte_type(self) -> (r: bool)
        ensures
            r == self.spec_is_byte_type(),
    {
        match self {
            DataType::Utf8 | DataType::LargeUtf8 | DataType::Binary | DataType::LargeBinary => true,
            _ => false,
        }
    }

    #[verifier::when_used_as_spec(spec_is_primitive)]
    pub fn is_primitive(self) -> (r: bool)
        ensures
            r == self.spec_is_primitive(),
    {
        match self {
            DataType::Boolean | DataType::Utf8 | DataType::LargeUtf8 | DataType::Binary
            | DataType::LargeBinary => false,
            _ => true,
        }
    }

    pub fn offset_limit(self) -> (r: u64)
        ensures
            r == self.spec_offset_limit(),
    {
        match self {
            DataType::LargeUtf8 | DataType::LargeBinary => 0x7fff_ffff_ffff_ffff,
            _ => 0x7fff_ffff,
        }
    }
}

/// How the types divide: the signed and unsigned integers of 8, 16, 32 and
/// 64 bits are the integer types; they and the two floating point types hold
/// fixed width values; booleans are neither; strings and binary, in their
/// 32 bit and 64 bit offset forms, are the byte types, whose end offsets go
/// up to `i32::MAX` and `i64::MAX` respectively.
pub proof fn lemma_type_classes(d: DataType)
    ensures
        d.spec_is_integer() <==> (d == DataType::Int8 || d == DataType::Int16 || d == DataType::Int32 || d
            == DataType::Int64 || d == DataType::UInt8 || d == DataType::UInt16 || d == DataType::UInt32 || d
            == DataType::UInt64),
        d.spec_is_primitive() <==> (d.spec_is_integer() || d == DataType::Float32 || d == DataType::Float64),
        d.spec_is_byte_type() <==> (d == DataType::Utf8 || d == DataType::Binary || d == DataType::LargeUtf8 || d
            == DataType::LargeBinary),
        !(d.spec_is_primitive() && d.spec_is_byte_type()),
        d == DataType::Utf8 || d == DataType::Binary ==> d.spec_offset_limit() == 0x7fff_ffff,
        d == DataType::LargeUtf8 || d == DataType::LargeBinary ==> d.spec_offset_limit() == 0x7fff_ffff_ffff_ffff,
{
}

/// A named, typed column of a schema.
#[derive(Clone, Debug)]
pub struct Field {
    pub name: String,
    pub data_type: DataType,
    pub nullable: bool,
}

/// The number of `false` entries of a validity sequence.
pub open spec fn count_nulls(validity: Seq<bool>) -> nat
    decreases validity.len(),
{
    if validity.len() == 0 {
        0
    } else {
        count_nulls(validity.drop_last()) + if validity.last() { 0nat } else { 1nat }
    }
}

/// The number of nulls a column with this validity holds (`None` means all valid).
pub open spec fn optional_null_count(validity: Option<Vec<bool>>) -> nat {
    match validity {
        Some(v) => count_nulls(v@),
        None => 0,
    }
}

/// Whether slot `i` is valid under this validity (`None` means all valid).
pub open spec fn slot_is_valid(validity: Option<Vec<bool>>, i: int) -> bool {
    match validity {
        Some(v) => v@[i],
        None => true,
    }
}

/// `n` valid slots.
pub open spec fn all_valid(n: nat) -> Seq<bool> {
    Seq::new(n, |i: int| true)
}

/// The validity sequence of `len` slots (`None` means all valid).
pub open spec fn validity_bits(validity: Option<Vec<bool>>, len: nat) -> Seq<bool> {
    match validity {
        Some(v) => v@,
        None => all_valid(len),
    }
}

/// A count of nulls does not exceed the length, and is zero only when every
/// entry is `true`.
pub proof fn lemma_count_nulls(validity: Seq<bool>)
    ensures
        count_nulls(validity) <= validity.len(),
        count_nulls(validity) == 0 <==> (forall|i: int| 0 <= i < validity.len() ==> #[trigger] validity[i]),
    decreases validity.len(),
{
    if validity.len() > 0 {
        lemma_count_nulls(validity.drop_last());
        if count_nulls(validity) == 0 {
            assert forall|i: int| 0 <= i < validity.len() implies #[trigger] validity[i] by {
                if i < validity.len() - 1 {
                    assert(validity.drop_last()[i] == validity[i]);
                }
            }
        }
        if forall|i: int| 0 <= i < validity.len() ==> #[trigger] validity[i] {
            assert(validity.last() == validity[validity.len() - 1]);
            assert forall|i: int| 0 <= i < validity.drop_last().len() implies #[trigger] validity.drop_last()[i] by {
                assert(validity.drop_last()[i] == validity[i]);
            }
        }
    }
}

/// Counts the `false` entries of a validity vector.
pub fn count_false(validity: &Vec<bool>) -> (r: usize)
    ensures
        r == count_nulls(validity@),
{
    let mut count: usize = 0;
    let mut i: usize = 0;
    while i < validity.len()
        invariant
            i <= validity@.len(),
            count == count_nulls(validity@.subrange(0, i as int)),
            count <= i,
        decreases validity@.len() - i,
    {
        proof {
            assert(validity@.subrange(0, i + 1).drop_last() =~= validity@.subrange(0, i as int));
        }
        if !validity[i] {
            count = count + 1;
        }
        i = i + 1;
    }
    proof {
        assert(validity@.subrange(0, i as int) =~= validity@);
    }
    count
}

/// The number of nulls of an optional validity vector.
pub fn null_count_of(validity: &Option<Vec<bool>>) -> (r: usize)
    ensures
        r == optional_null_count(*validity),
{
    match validity {
        Some(v) => count_false(v),
        None => 0,
    }
}

/// A column of variable length byte values (strings or binary): the bytes of
/// row `i` are `values[offsets[i]..offsets[i + 1]]`.
#[derive(Clone, Debug)]
pub struct ByteColumn {
    pub data_type: DataType,
    pub offsets: Vec<usize>,
    pub values: Vec<u8>,
    pub validity: Option<Vec<bool>>,
}

/// Offsets that start a column of `n` rows over `values_len` bytes: at least
/// one offset, never decreasing, the last within the values.
pub open spec fn offsets_wf(offsets: Seq<usize>, values_len: nat) -> bool {
    &&& offsets.len() >= 1
    &&& forall|i: int, j: int| 0 <= i <= j < offsets.len() ==> offsets[i] <= offsets[j]
    &&& offsets.last() <= values_len
}

impl ByteColumn {
    pub open spec fn wf(&self) -> bool {
        &&& self.data_type.spec_is_byte_type()
        &&& offsets_wf(self.offsets@, self.values@.len())
        &&& self.offsets@.last() <= self.data_type.spec_offset_limit()
        &&& self.validity matches Some(v) ==> v@.len() == self.offsets@.len() - 1
    }

    /// The number of rows.
    pub open spec fn spec_len(&self) -> nat {
        (self.offsets@.len() - 1) as nat
    }

    /// The bytes of row `i`.
    pub open spec fn row_bytes(&self, i: int) -> Seq<u8> {
        self.values@.subrange(self.offsets@[i] as int, self.offsets@[i + 1] as int)
    }

    /// The length in bytes of row `i`.
    pub open spec fn row_length(&self, i: int) -> int {
        self.offsets@[i + 1] - self.offsets@[i]
    }

    pub fn len(&self) -> (r: usize)
        requires
            self.offsets@.len() >= 1,
        ensures
            r == self.spec_len(),
    {
        self.offsets.len() - 1
    }
}

/// A column of fixed width values; each value is held as its bit pattern
/// widened to 64 bits.
#[derive(Clone, Debug)]
pub struct PrimitiveColumn {
    pub data_type: DataType,
    pub values: Vec<u64>,
    pub validity: Option<Vec<bool>>,
}

impl PrimitiveColumn {
    pub open spec fn wf(&self) -> bool {
        &&& self.data_type.spec_is_primitive()
        &&& self.validity matches Some(v) ==> v@.len() == self.values@.len()
    }
}

/// A column of booleans.
#[derive(Clone, Debug)]
pub struct BooleanColumn {
    pub values: Vec<bool>,
    pub validity: Option<Vec<bool>>,
}

impl BooleanColumn {
    pub open spec fn wf(&self) -> bool {
        self.validity matches Some(v) ==> v@.len() == self.values@.len()
    }
}

/// A column of any of the supported kinds.
#[derive(Clone, Debug)]
pub enum Column {
    Primitive(PrimitiveColumn),
    Boolean(BooleanColumn),
    Bytes(ByteColumn),
}

impl Column {
    pub open spec fn wf(&self) -> bool {
        match self {
            Column::Primitive(c) => c.wf(),
            Column::Boolean(c) => c.wf(),
            Column::Bytes(c) => c.wf(),
        }
    }

    pub open spec fn spec_len(&self) -> nat {
        match self {
            Column::Primitive(c) => c.values@.len(),
            Column::Boolean(c) => c.values@.len(),
            Column::Bytes(c) => c.spec_len(),
        }
    }

    pub open spec fn spec_data_type(&self) -> DataType {
        match self {
            Column::Primitive(c) => c.data_type,
            Column::Boolean(c) => DataType::Boolean,
            Column::Bytes(c) => c.data_type,
        }
    }

    pub open spec fn validity(&self) -> Option<Vec<bool>> {
        match self {
            Column::Primitive(c) => c.validity,
            Column::Boolean(c) => c.validity,
            Column::Bytes(c) => c.validity,
        }
    }

    pub open spec fn spec_null_count(&self) -> nat {
        optional_null_count(self.validity())
    }

    /// The number of rows.
    pub fn len(&self) -> (r: usize)
        requires
            self.wf(),
        ensures
            r == self.spec_len(),
    {
        match self {
            Column::Primitive(c) => c.values.len(),
            Column::Boolean(c) => c.values.len(),
            Column::Bytes(c) => c.len(),
        }
    }

    /// The logical type.
    #[verifier::when_used_as_spec(spec_data_type)]
    pub fn data_type(&self) -> (r: DataType)
        ensures
            r == self.spec_data_type(),
    {
        match self {
            Column::Primitive(c) => c.data_type,
            Column::Boolean(_) => DataType::Boolean,
            Column::Bytes(c) => c.data_type,
        }
    }

    /// The number of null rows.
    pub fn null_count(&self) -> (r: usize)
        ensures
            r == self.spec_null_count(),
    {
        match self {
            Column::Primitive(c) => null_count_of(&c.validity),
            Column::Boolean(c) => null_count_of(&c.validity),
            Column::Bytes(c) => null_count_of(&c.validity),
        }
    }
}

/// The entries among the first `n` of `rows` whose partition index in
/// `indices` is `partition`, in their order.
pub open spec fn select_partition<X>(rows: Seq<X>, indices: Seq<u32>, partition: int, n: nat) -> Seq<X>
    decreases n,
{
    if n == 0 {
        Seq::empty()
    } else {
        let prev = select_partition(rows, indices, partition, (n - 1) as nat);
        if indices[n - 1] == partition {
            prev.push(rows[n - 1])
        } else {
            prev
        }
    }
}

/// The rows the first `k1` indices send to a partition come first among
/// those the first `k2` send there.
pub proof fn lemma_select_partition_prefix<X>(rows: Seq<X>, indices: Seq<u32>, partition: int, k1: nat, k2: nat)
    requires
        k1 <= k2,
    ensures
        select_partition(rows, indices, partition, k1).is_prefix_of(select_partition(rows, indices, partition, k2)),
    decreases k2,
{
    let s1 = select_partition(rows, indices, partition, k1);
    if k1 < k2 {
        lemma_select_partition_prefix(rows, indices, partition, k1, (k2 - 1) as nat);
        let s = select_partition(rows, indices, partition, (k2 - 1) as nat);
        let s2 = select_partition(rows, indices, partition, k2);
        assert(s2.subrange(0, s1.len() as int) =~= s.subrange(0, s1.len() as int));
    } else {
        assert(s1.subrange(0, s1.len() as int) =~= s1);
    }
}

/// A partition receives some of the first `n` rows exactly when one of their
/// indices names it; and it receives at most `n` of them.
pub proof fn lemma_select_partition_len<X>(rows: Seq<X>, indices: Seq<u32>, partition: int, n: nat)
    requires
        n <= rows.len(),
        n <= indices.len(),
    ensures
        select_partition(rows, indices, partition, n).len() > 0 <==> exists|j: int|
            0 <= j < n && #[trigger] indices[j] == partition,
        select_partition(rows, indices, partition, n).len() <= n,
    decreases n,
{
    if n > 0 {
        lemma_select_partition_len(rows, indices, partition, (n - 1) as nat);
        if select_partition(rows, indices, partition, (n - 1) as nat).len() > 0 {
            let j = choose|j: int| 0 <= j < n - 1 && #[trigger] indices[j] == partition;
            assert(0 <= j < n && indices[j] == partition);
        }
        if exists|j: int| 0 <= j < n && #[trigger] indices[j] == partition {
            let j = choose|j: int| 0 <= j < n && #[trigger] indices[j] == partition;
            if j < n - 1 {
                assert(0 <= j < n - 1 && indices[j] == partition);
            }
        }
    }
}

/// The number of rows a batch contributes: rows and partition indices are
/// paired up, so the shorter of the two decides.
pub open spec fn paired_len(rows: nat, indices: nat) -> nat {
    if rows <= indices {
        rows
    } else {
        indices
    }
}

impl ByteColumn {
    /// Row `i` as a value: its bytes, or `None` when the row is null.
    pub open spec fn row_value(&self, i: int) -> Option<Seq<u8>> {
        if slot_is_valid(self.validity, i) {
            Some(self.row_bytes(i))
        } else {
            None
        }
    }

    /// All rows as values.
    pub open spec fn row_values(&self) -> Seq<Option<Seq<u8>>> {
        Seq::new(self.spec_len(), |i: int| self.row_value(i))
    }
}

/// The view of an optional vector.
pub open spec fn optional_view<T>(v: Option<Vec<T>>) -> Option<Seq<T>> {
    match v {
        Some(v) => Some(v@),
        None => None,
    }
}

/// A copy of a vector of bits.
pub fn copy_bits(v: &Vec<bool>) -> (r: Vec<bool>)
    ensures
        r@ == v@,
{
    let r = v.clone();
    proof {
        assert(r@ =~= v@);
    }
    r
}

/// A copy of an optional vector of bits.
pub fn copy_validity(v: &Option<Vec<bool>>) -> (r: Option<Vec<bool>>)
    ensures
        optional_view(r) == optional_view(*v),
{
    match v {
        Some(bits) => Some(copy_bits(bits)),
        None => None,
    }
}

impl Column {
    /// Whether two columns hold the same data: same kind, type, values,
    /// offsets and validity.
    pub open spec fn same_as(&self, other: Column) -> bool {
        match (*self, other) {
            (Column::Primitive(a), Column::Primitive(b)) => {
                &&& a.data_type == b.data_type
                &&& a.values@ == b.values@
                &&& optional_view(a.validity) == optional_view(b.validity)
            },
            (Column::Boolean(a), Column::Boolean(b)) => {
                &&& a.values@ == b.values@
                &&& optional_view(a.validity) == optional_view(b.validity)
            },
            (Column::Bytes(a), Column::Bytes(b)) => {
                &&& a.data_type == b.data_type
                &&& a.offsets@ == b.offsets@
                &&& a.values@ == b.values@
                &&& optional_view(a.validity) == optional_view(b.validity)
            },
            _ => false,
        }
    }

    /// A copy of the column.
    pub fn copy(&self) -> (r: Column)
        ensures
            r.same_as(*self),
            self.wf() ==> r.wf(),
    {
        match self {
            Column::Primitive(c) => {
                let values = c.values.clone();
                proof {
                    assert(values@ =~= c.values@);
                }
                Column::Primitive(PrimitiveColumn { data_type: c.data_type, values, validity: copy_validity(&c.validity) })
            },
            Column::Boolean(c) => Column::Boolean(
                BooleanColumn { values: copy_bits(&c.values), validity: copy_validity(&c.validity) },
            ),
            Column::Bytes(c) => {
                let offsets = c.offsets.clone();
                let values = c.values.clone();
                proof {
                    assert(offsets@ =~= c.offsets@);
                    assert(values@ =~= c.values@);
                }
                Column::Bytes(
                    ByteColumn { data_type: c.data_type, offsets, values, validity: copy_validity(&c.validity) },
                )
            },
        }
    }
}

} // verus!
