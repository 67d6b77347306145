//! Tables as Arrow record batches: a column per declared field, those of the
//! key before those of the payload.

use vstd::prelude::*;
use vstd::string::StringExecFns;

use crate::bytes::to_vec;
use crate::cell::{cell_at, row_is_whole, Cell};
use crate::engine::storage::VirtualStorage;
use crate::field::{FieldDesc, FieldType};
use crate::index::Document;
use crate::key::KeyEncode;
use crate::model::document::Collection;
use crate::table::Table;
use crate::tooling::table_fields;

verus! {

/// The type of a column.
#[derive(Clone, Copy, Debug, PartialEq, Eq, Structural)]
pub enum ColumnType {
    UInt8,
    UInt16,
    UInt32,
    UInt64,
    Int64,
    Float64,
    Binary,
    Utf8,
    /// A type that no declared field has.
    Other,
}

/// The type of the column of a kind of field: packed numbers are shown as
/// what they stand for.
pub open spec fn type_of(ty: FieldType) -> ColumnType {
    match ty {
        FieldType::U8 => ColumnType::UInt8,
        FieldType::U16 => ColumnType::UInt16,
        FieldType::U32 => ColumnType::UInt32,
        FieldType::U64 => ColumnType::UInt64,
        FieldType::FixedBytes => ColumnType::Binary,
        FieldType::Str => ColumnType::Utf8,
        FieldType::Bytes => ColumnType::Binary,
        FieldType::VarInt => ColumnType::UInt64,
        FieldType::Quant(_) => ColumnType::Float64,
        FieldType::Enum => ColumnType::UInt8,
        FieldType::Offset(_) => ColumnType::Int64,
    }
}

/// The type of the column of a kind of field.
pub fn arrow_type(ty: FieldType) -> (r: ColumnType)
    ensures
        r == type_of(ty),
{
    match ty {
        FieldType::U8 => ColumnType::UInt8,
        FieldType::U16 => ColumnType::UInt16,
        FieldType::U32 => ColumnType::UInt32,
        FieldType::U64 => ColumnType::UInt64,
        FieldType::FixedBytes => ColumnType::Binary,
        FieldType::Str => ColumnType::Utf8,
        FieldType::Bytes => ColumnType::Binary,
        FieldType::VarInt => ColumnType::UInt64,
        FieldType::Quant(_) => ColumnType::Float64,
        FieldType::Enum => ColumnType::UInt8,
        FieldType::Offset(_) => ColumnType::Int64,
    }
}

/// An Arrow record batch: named columns of one length.
#[verifier::external_body]
pub struct Batch {
    pub inner: arrow::array::RecordBatch,
}

/// An Arrow array of any type.
#[verifier::external_body]
pub struct ColumnArray {
    inner: arrow::array::ArrayRef,
}

/// The type of an array.
pub uninterp spec fn array_type(a: ColumnArray) -> ColumnType;

/// The values of an array, one cell each, whether or not marked as null:
/// numbers as themselves, doubles by their bits.
pub uninterp spec fn array_values(a: ColumnArray) -> Seq<crate::cell::CellView>;

/// Whether any value of an array is marked as null.
pub uninterp spec fn array_nulls(a: ColumnArray) -> bool;

/// Which columns of a batch are declared as nullable.
pub uninterp spec fn batch_nullable(b: Batch) -> Seq<bool>;

/// The columns of a batch: name, type and values.
pub uninterp spec fn batch_columns(b: Batch) -> Seq<
    (Seq<char>, ColumnType, Seq<crate::cell::CellView>),
>;

/// `UInt8Array::from(Vec<u8>)`: the array of these values, none of them
/// null.
#[verifier::external_body]
fn uint8_array(v: Vec<u8>) -> (r: ColumnArray)
    ensures
        array_type(r) == ColumnType::UInt8,
        !array_nulls(r),
        array_values(r) == v@.map_values(|x: u8| crate::cell::CellView::UInt(x as u64)),
{
    ColumnArray { inner: std::sync::Arc::new(arrow::array::UInt8Array::from(v)) }
}

/// `UInt16Array::from(Vec<u16>)`: the array of these values, none of them
/// null.
#[verifier::external_body]
fn uint16_array(v: Vec<u16>) -> (r: ColumnArray)
    ensures
        array_type(r) == ColumnType::UInt16,
        !array_nulls(r),
        array_values(r) == v@.map_values(|x: u16| crate::cell::CellView::UInt(x as u64)),
{
    ColumnArray { inner: std::sync::Arc::new(arrow::array::UInt16Array::from(v)) }
}

/// `UInt32Array::from(Vec<u32>)`: the array of these values, none of them
/// null.
#[verifier::external_body]
fn uint32_array(v: Vec<u32>) -> (r: ColumnArray)
    ensures
        array_type(r) == ColumnType::UInt32,
        !array_nulls(r),
        array_values(r) == v@.map_values(|x: u32| crate::cell::CellView::UInt(x as u64)),
{
    ColumnArray { inner: std::sync::Arc::new(arrow::array::UInt32Array::from(v)) }
}

/// `UInt64Array::from(Vec<u64>)`: the array of these values, none of them
/// null.
#[verifier::external_body]
fn uint64_array(v: Vec<u64>) -> (r: ColumnArray)
    ensures
        array_type(r) == ColumnType::UInt64,
        !array_nulls(r),
        array_values(r) == v@.map_values(|x: u64| crate::cell::CellView::UInt(x)),
{
    ColumnArray { inner: std::sync::Arc::new(arrow::array::UInt64Array::from(v)) }
}

/// `Int64Array::from(Vec<i64>)`: the array of these values, none of them
/// null.
#[verifier::external_body]
fn int64_array(v: Vec<i64>) -> (r: ColumnArray)
    ensures
        array_type(r) == ColumnType::Int64,
        !array_nulls(r),
        array_values(r) == v@.map_values(|x: i64| crate::cell::CellView::Int(x)),
{
    ColumnArray { inner: std::sync::Arc::new(arrow::array::Int64Array::from(v)) }
}

/// `Float64Array::new` on a buffer of raw values, without nulls: the array
/// of the doubles with these bits.
#[verifier::external_body]
fn float64_array(bits: Vec<u64>) -> (r: ColumnArray)
    ensures
        array_type(r) == ColumnType::Float64,
        !array_nulls(r),
        array_values(r) == bits@.map_values(|x: u64| crate::cell::CellView::Float(x)),
{
    let values = arrow::buffer::ScalarBuffer::from(arrow::buffer::Buffer::from_vec(bits));
    ColumnArray { inner: std::sync::Arc::new(arrow::array::Float64Array::new(values, None)) }
}

/// Offsets that part `len` bytes into adjoining pieces.
pub open spec fn offsets_fit(offsets: Seq<i32>, len: nat) -> bool {
    &&& offsets.len() > 0
    &&& 0 <= offsets[0]
    &&& forall|i: int|
        #![trigger offsets[i]]
        0 <= i && i + 1 < offsets.len() ==> offsets[i] <= offsets[i + 1]
    &&& offsets.last() <= len
}

/// `BinaryArray::new` without nulls: value `i` is the run of bytes between
/// the offsets `i` and `i + 1`.
#[verifier::external_body]
fn binary_array(offsets: Vec<i32>, data: Vec<u8>) -> (r: ColumnArray)
    requires
        offsets_fit(offsets@, data@.len()),
    ensures
        array_type(r) == ColumnType::Binary,
        !array_nulls(r),
        array_values(r) == Seq::new(
            (offsets@.len() - 1) as nat,
            |i: int|
                crate::cell::CellView::Bytes(
                    data@.subrange(offsets@[i] as int, offsets@[i + 1] as int),
                ),
        ),
{
    let offsets = arrow::buffer::OffsetBuffer::new(arrow::buffer::ScalarBuffer::from(offsets));
    let data = arrow::buffer::Buffer::from(data);
    ColumnArray { inner: std::sync::Arc::new(arrow::array::BinaryArray::new(offsets, data, None)) }
}

/// `StringArray::new` without nulls: value `i` is the text whose UTF-8 bytes
/// stand between the offsets `i` and `i + 1`.
#[verifier::external_body]
fn utf8_array(offsets: Vec<i32>, data: Vec<u8>) -> (r: ColumnArray)
    requires
        offsets_fit(offsets@, data@.len()),
        forall|i: int|
            #![trigger offsets@[i]]
            0 <= i && i + 1 < offsets@.len() ==> vstd::utf8::valid_utf8(
                data@.subrange(offsets@[i] as int, offsets@[i + 1] as int),
            ),
    ensures
        array_type(r) == ColumnType::Utf8,
        !array_nulls(r),
        array_values(r) == Seq::new(
            (offsets@.len() - 1) as nat,
            |i: int|
                crate::cell::CellView::Str(
                    vstd::utf8::decode_utf8(
                        data@.subrange(offsets@[i] as int, offsets@[i + 1] as int),
                    ),
                ),
        ),
{
    let offsets = arrow::buffer::OffsetBuffer::new(arrow::buffer::ScalarBuffer::from(offsets));
    let data = arrow::buffer::Buffer::from(data);
    ColumnArray { inner: std::sync::Arc::new(arrow::array::StringArray::new(offsets, data, None)) }
}

/// The columns that names and arrays make up.
pub open spec fn named_columns(names: Seq<&'static str>, arrays: Seq<ColumnArray>) -> Seq<
    (Seq<char>, ColumnType, Seq<crate::cell::CellView>),
> {
    Seq::new(names.len(), |i: int| (names[i]@, array_type(arrays[i]), array_values(arrays[i])))
}

/// `RecordBatch::try_from_iter`: the batch of these columns, each declared as
/// nullable if it holds a null. There is none without a column, or where the
/// columns differ in length.
#[verifier::external_body]
fn try_batch(names: Vec<&'static str>, arrays: Vec<ColumnArray>) -> (r: Option<Batch>)
    requires
        names@.len() == arrays@.len(),
    ensures
        r is Some <==> arrays@.len() > 0 && forall|i: int|
            0 <= i < arrays@.len() ==> array_values(#[trigger] arrays@[i]).len() == array_values(
                arrays@[0],
            ).len(),
        r matches Some(b) ==> batch_columns(b) == named_columns(names@, arrays@)
            && batch_nullable(b) == arrays@.map_values(|a: ColumnArray| array_nulls(a)),
{
    let columns = names.into_iter().zip(arrays.into_iter().map(|a| a.inner));
    arrow::array::RecordBatch::try_from_iter(columns).map(|inner| Batch { inner }).ok()
}

/// `RecordBatch::columns`: the arrays of a batch, which have one length.
#[verifier::external_body]
fn batch_arrays(b: &Batch) -> (r: Vec<ColumnArray>)
    ensures
        r@.len() == batch_columns(*b).len(),
        forall|i: int|
            0 <= i < r@.len() ==> array_type(#[trigger] r@[i]) == batch_columns(*b)[i].1
                && array_values(r@[i]) == batch_columns(*b)[i].2,
        forall|i: int|
            0 <= i < r@.len() ==> array_values(#[trigger] r@[i]).len() == array_values(
                r@[0],
            ).len(),
{
    b.inner.columns().iter().map(|a| ColumnArray { inner: a.clone() }).collect()
}

/// `Any::downcast_ref` to `UInt8Array`, and its values: there are some for
/// an array of this type alone.
#[verifier::external_body]
fn uint8_values(a: &ColumnArray) -> (r: Option<Vec<u8>>)
    ensures
        r is Some <==> array_type(*a) == ColumnType::UInt8,
        r matches Some(v) ==> array_values(*a) == v@.map_values(
            |x: u8| crate::cell::CellView::UInt(x as u64),
        ),
{
    a.inner.as_any().downcast_ref::<arrow::array::UInt8Array>().map(|x| x.values().to_vec())
}

/// `Any::downcast_ref` to `UInt16Array`, and its values: there are some for
/// an array of this type alone.
#[verifier::external_body]
fn uint16_values(a: &ColumnArray) -> (r: Option<Vec<u16>>)
    ensures
        r is Some <==> array_type(*a) == ColumnType::UInt16,
        r matches Some(v) ==> array_values(*a) == v@.map_values(
            |x: u16| crate::cell::CellView::UInt(x as u64),
        ),
{
    a.inner.as_any().downcast_ref::<arrow::array::UInt16Array>().map(|x| x.values().to_vec())
}

/// `Any::downcast_ref` to `UInt32Array`, and its values: there are some for
/// an array of this type alone.
#[verifier::external_body]
fn uint32_values(a: &ColumnArray) -> (r: Option<Vec<u32>>)
    ensures
        r is Some <==> array_type(*a) == ColumnType::UInt32,
        r matches Some(v) ==> array_values(*a) == v@.map_values(
            |x: u32| crate::cell::CellView::UInt(x as u64),
        ),
{
    a.inner.as_any().downcast_ref::<arrow::array::UInt32Array>().map(|x| x.values().to_vec())
}

/// `Any::downcast_ref` to `UInt64Array`, and its values: there are some for
/// an array of this type alone.
#[verifier::external_body]
fn uint64_values(a: &ColumnArray) -> (r: Option<Vec<u64>>)
    ensures
        r is Some <==> array_type(*a) == ColumnType::UInt64,
        r matches Some(v) ==> array_values(*a) == v@.map_values(
            |x: u64| crate::cell::CellView::UInt(x),
        ),
{
    a.inner.as_any().downcast_ref::<arrow::array::UInt64Array>().map(|x| x.values().to_vec())
}

/// `Any::downcast_ref` to `Int64Array`, and its values: there are some for
/// an array of this type alone.
#[verifier::external_body]
fn int64_values(a: &ColumnArray) -> (r: Option<Vec<i64>>)
    ensures
        r is Some <==> array_type(*a) == ColumnType::Int64,
        r matches Some(v) ==> array_values(*a) == v@.map_values(
            |x: i64| crate::cell::CellView::Int(x),
        ),
{
    a.inner.as_any().downcast_ref::<arrow::array::Int64Array>().map(|x| x.values().to_vec())
}

/// `Any::downcast_ref` to `Float64Array`, and the bits of its values: there
/// are some for an array of this type alone.
#[verifier::external_body]
fn float64_values(a: &ColumnArray) -> (r: Option<Vec<u64>>)
    ensures
        r is Some <==> array_type(*a) == ColumnType::Float64,
        r matches Some(v) ==> array_values(*a) == v@.map_values(
            |x: u64| crate::cell::CellView::Float(x),
        ),
{
    let found = a.inner.as_any().downcast_ref::<arrow::array::Float64Array>();
    found.map(|x| x.values().iter().map(|v| v.to_bits()).collect())
}

/// `Any::downcast_ref` to `BinaryArray`, and its values: there are some for
/// an array of this type alone.
#[verifier::external_body]
fn binary_values(a: &ColumnArray) -> (r: Option<Vec<Vec<u8>>>)
    ensures
        r is Some <==> array_type(*a) == ColumnType::Binary,
        r matches Some(v) ==> array_values(*a) == v@.map_values(
            |x: Vec<u8>| crate::cell::CellView::Bytes(x@),
        ),
{
    let found = a.inner.as_any().downcast_ref::<arrow::array::BinaryArray>();
    found.map(|x| (0..arrow::array::Array::len(x)).map(|i| x.value(i).to_vec()).collect())
}

/// `Any::downcast_ref` to `StringArray`, and its values: there are some for
/// an array of this type alone.
#[verifier::external_body]
fn utf8_values(a: &ColumnArray) -> (r: Option<Vec<String>>)
    ensures
        r is Some <==> array_type(*a) == ColumnType::Utf8,
        r matches Some(v) ==> array_values(*a) == v@.map_values(
            |x: String| crate::cell::CellView::Str(x@),
        ),
{
    let found = a.inner.as_any().downcast_ref::<arrow::array::StringArray>();
    found.map(|x| (0..arrow::array::Array::len(x)).map(|i| x.value(i).to_string()).collect())
}

/// A cell that a kind of field can hold.
pub open spec fn cell_fits(ty: FieldType, c: crate::cell::CellView) -> bool {
    match ty {
        FieldType::U8 => c matches crate::cell::CellView::UInt(v) && v <= 0xFF,
        FieldType::U16 => c matches crate::cell::CellView::UInt(v) && v <= 0xFFFF,
        FieldType::U32 => c matches crate::cell::CellView::UInt(v) && v <= 0xFFFF_FFFF,
        FieldType::U64 => c is UInt,
        FieldType::FixedBytes => c is Bytes,
        FieldType::Str => c is Str,
        FieldType::Bytes => c is Bytes,
        FieldType::VarInt => c is UInt,
        FieldType::Quant(_) => c is Fixed,
        FieldType::Enum => c matches crate::cell::CellView::UInt(v) && v <= 0xFF,
        FieldType::Offset(_) => c is Int,
    }
}

/// What a field stores is a cell that it can hold.
pub proof fn lemma_cell_fits(ty: FieldType, raw: Seq<u8>)
    requires
        crate::cell::cell_of(ty, raw) is Some,
    ensures
        cell_fits(ty, crate::cell::cell_of(ty, raw)->0),
{
    crate::bytes::lemma_pow256_small();
    crate::bytes::lemma_be_value_round_trip(raw);
}

/// The bytes of a cell of variable length.
pub open spec fn cell_bytes(c: crate::cell::CellView) -> Seq<u8> {
    match c {
        crate::cell::CellView::Bytes(b) => b,
        crate::cell::CellView::Str(s) => vstd::utf8::encode_utf8(s),
        _ => Seq::empty(),
    }
}

/// The bytes of cells of variable length, in all.
pub open spec fn byte_count(cells: Seq<crate::cell::CellView>) -> nat
    decreases cells.len(),
{
    if cells.len() == 0 {
        0
    } else {
        byte_count(cells.drop_last()) + cell_bytes(cells.last()).len()
    }
}

/// Fewer cells have no more bytes.
proof fn lemma_byte_count_take(cells: Seq<crate::cell::CellView>, n: int)
    requires
        0 <= n <= cells.len(),
    ensures
        byte_count(cells.take(n)) <= byte_count(cells),
    decreases cells.len(),
{
    if n == cells.len() {
        assert(cells.take(n) =~= cells);
    } else {
        assert(cells.drop_last().take(n) =~= cells.take(n));
        lemma_byte_count_take(cells.drop_last(), n);
    }
}

/// The bytes of cells of variable length side by side, and where each begins
/// and ends.
fn flatten(cells: &Vec<Cell>) -> (r: (Vec<i32>, Vec<u8>))
    requires
        byte_count(crate::cell::cell_views(cells@)) <= i32::MAX,
    ensures
        r.0@.len() == cells@.len() + 1,
        offsets_fit(r.0@, r.1@.len()),
        forall|i: int|
            #![trigger r.0@[i]]
            0 <= i < cells@.len() ==> r.1@.subrange(r.0@[i] as int, r.0@[i + 1] as int)
                == cell_bytes(cells@[i]@),
{
    let ghost all = crate::cell::cell_views(cells@);
    let mut offsets: Vec<i32> = Vec::new();
    let mut data: Vec<u8> = Vec::new();
    offsets.push(0);
    let mut i: usize = 0;
    assert(all.take(0) =~= Seq::empty());
    while i < cells.len()
        invariant
            i <= cells@.len() == all.len(),
            all == crate::cell::cell_views(cells@),
            byte_count(all) <= i32::MAX,
            data@.len() == byte_count(all.take(i as int)),
            offsets@.len() == i + 1,
            offsets@[0] == 0,
            offsets@.last() == data@.len(),
            forall|j: int|
                #![trigger offsets@[j]]
                0 <= j < i ==> 0 <= offsets@[j] <= offsets@[j + 1] <= data@.len() && data@.subrange(
                    offsets@[j] as int,
                    offsets@[j + 1] as int,
                ) == cell_bytes(cells@[j]@),
        decreases cells@.len() - i,
    {
        let ghost before = data@;
        let ghost marks = offsets@;
        proof {
            lemma_byte_count_take(all, i + 1);
            assert(all.take(i + 1).drop_last() =~= all.take(i as int));
            assert(all.take(i + 1).last() == cells@[i as int]@);
        }
        let piece: Vec<u8> = match &cells[i] {
            Cell::Bytes(b) => to_vec(b.as_slice()),
            Cell::Str(s) => to_vec(s.as_str().as_bytes()),
            _ => Vec::new(),
        };
        assert(piece@ =~= cell_bytes(cells@[i as int]@));
        data.extend_from_slice(piece.as_slice());
        offsets.push(data.len() as i32);
        proof {
            assert(data@ =~= before + piece@);
            assert forall|j: int|
                #![trigger offsets@[j]]
                0 <= j < i + 1 implies 0 <= offsets@[j] <= offsets@[j + 1] <= data@.len()
                && data@.subrange(offsets@[j] as int, offsets@[j + 1] as int) == cell_bytes(
                cells@[j]@,
            ) by {
                if j < i {
                    assert(offsets@[j] == marks[j]);
                    assert(offsets@[j + 1] == marks[j + 1]);
                    assert(data@.subrange(marks[j] as int, marks[j + 1] as int) =~= before.subrange(
                        marks[j] as int,
                        marks[j + 1] as int,
                    ));
                } else {
                    assert(data@.subrange(before.len() as int, data@.len() as int) =~= piece@);
                }
            }
        }
        i = i + 1;
    }
    (offsets, data)
}

/// How a column shows a stored cell: fixed-point numbers as the double that
/// `f` makes of them, given by its bits; other cells as they are.
pub open spec fn shown_cell<F: Fn(i64, u32) -> u64>(
    f: F,
    ty: FieldType,
    stored: crate::cell::CellView,
    out: crate::cell::CellView,
) -> bool {
    match ty {
        FieldType::Quant(p) => {
            &&& stored is Fixed
            &&& out is Float
            &&& f.ensures((stored->Fixed_0, p), out->Float_0)
        },
        _ => out == stored,
    }
}

/// How a column shows stored cells.
pub open spec fn shown<F: Fn(i64, u32) -> u64>(
    f: F,
    ty: FieldType,
    stored: Seq<crate::cell::CellView>,
    out: Seq<crate::cell::CellView>,
) -> bool {
    &&& out.len() == stored.len()
    &&& forall|i: int| 0 <= i < out.len() ==> shown_cell(f, ty, stored[i], #[trigger] out[i])
}

/// The numbers of cells.
fn cell_numbers(cells: &Vec<Cell>) -> (r: Vec<u64>)
    requires
        forall|i: int| 0 <= i < cells@.len() ==> (#[trigger] cells@[i])@ is UInt,
    ensures
        r@.len() == cells@.len(),
        forall|i: int| 0 <= i < r@.len() ==> cells@[i]@ == crate::cell::CellView::UInt(#[trigger] r@[i]),
{
    let mut out: Vec<u64> = Vec::new();
    let mut i: usize = 0;
    while i < cells.len()
        invariant
            i <= cells@.len(),
            out@.len() == i,
            forall|j: int| 0 <= j < cells@.len() ==> (#[trigger] cells@[j])@ is UInt,
            forall|j: int|
                0 <= j < i ==> cells@[j]@ == crate::cell::CellView::UInt(#[trigger] out@[j]),
        decreases cells@.len() - i,
    {
        assert(cells@[i as int]@ is UInt);
        match &cells[i] {
            Cell::UInt(v) => out.push(*v),
            _ => {},
        }
        i = i + 1;
    }
    out
}

/// The array of a column.
fn column_array<F: Fn(i64, u32) -> u64>(ty: FieldType, cells: &Vec<Cell>, f: &F) -> (r: ColumnArray)
    requires
        forall|i: int| 0 <= i < cells@.len() ==> cell_fits(ty, (#[trigger] cells@[i])@),
        byte_count(crate::cell::cell_views(cells@)) <= i32::MAX,
        forall|w: i64, p: u32| f.requires((w, p)),
    ensures
        array_type(r) == type_of(ty),
        shown(*f, ty, crate::cell::cell_views(cells@), array_values(r)),
        !array_nulls(r),
{
    broadcast use vstd::utf8::encode_utf8_decode_utf8, vstd::utf8::encode_utf8_valid_utf8;

    let ghost all = crate::cell::cell_views(cells@);
    let n: usize = cells.len();
    let mut i: usize = 0;
    match ty {
        FieldType::U8 | FieldType::Enum => {
            let numbers = cell_numbers(cells);
            let mut v: Vec<u8> = Vec::new();
            while i < n
                invariant
                    i <= n == cells@.len() == numbers@.len(),
                    v@.len() == i,
                    ty is U8 || ty is Enum,
                    forall|j: int| 0 <= j < n ==> cell_fits(ty, (#[trigger] cells@[j])@),
                    forall|j: int|
                        0 <= j < n ==> cells@[j]@ == crate::cell::CellView::UInt(
                            #[trigger] numbers@[j],
                        ),
                    forall|j: int| 0 <= j < i ==> #[trigger] v@[j] == numbers@[j],
                decreases n - i,
            {
                assert(cell_fits(ty, cells@[i as int]@));
                assert(cells@[i as int]@ == crate::cell::CellView::UInt(numbers@[i as int]));
                v.push(numbers[i] as u8);
                i = i + 1;
            }
            let r = uint8_array(v);
            assert(array_values(r) =~= all);
            r
        },
        FieldType::U16 => {
            let numbers = cell_numbers(cells);
            let mut v: Vec<u16> = Vec::new();
            while i < n
                invariant
                    i <= n == cells@.len() == numbers@.len(),
                    v@.len() == i,
                    ty is U16,
                    forall|j: int| 0 <= j < n ==> cell_fits(ty, (#[trigger] cells@[j])@),
                    forall|j: int|
                        0 <= j < n ==> cells@[j]@ == crate::cell::CellView::UInt(
                            #[trigger] numbers@[j],
                        ),
                    forall|j: int| 0 <= j < i ==> #[trigger] v@[j] == numbers@[j],
                decreases n - i,
            {
                assert(cell_fits(ty, cells@[i as int]@));
                assert(cells@[i as int]@ == crate::cell::CellView::UInt(numbers@[i as int]));
                v.push(numbers[i] as u16);
                i = i + 1;
            }
            let r = uint16_array(v);
            assert(array_values(r) =~= all);
            r
        },
        FieldType::U32 => {
            let numbers = cell_numbers(cells);
            let mut v: Vec<u32> = Vec::new();
            while i < n
                invariant
                    i <= n == cells@.len() == numbers@.len(),
                    v@.len() == i,
                    ty is U32,
                    forall|j: int| 0 <= j < n ==> cell_fits(ty, (#[trigger] cells@[j])@),
                    forall|j: int|
                        0 <= j < n ==> cells@[j]@ == crate::cell::CellView::UInt(
                            #[trigger] numbers@[j],
                        ),
                    forall|j: int| 0 <= j < i ==> #[trigger] v@[j] == numbers@[j],
                decreases n - i,
            {
                assert(cell_fits(ty, cells@[i as int]@));
                assert(cells@[i as int]@ == crate::cell::CellView::UInt(numbers@[i as int]));
                v.push(numbers[i] as u32);
                i = i + 1;
            }
            let r = uint32_array(v);
            assert(array_values(r) =~= all);
            r
        },
        FieldType::U64 | FieldType::VarInt => {
            let numbers = cell_numbers(cells);
            let r = uint64_array(numbers);
            assert(array_values(r) =~= all);
            r
        },
        FieldType::Offset(_) => {
            let mut v: Vec<i64> = Vec::new();
            while i < n
                invariant
                    i <= n == cells@.len(),
                    v@.len() == i,
                    ty is Offset,
                    forall|j: int| 0 <= j < n ==> cell_fits(ty, (#[trigger] cells@[j])@),
                    forall|j: int|
                        0 <= j < i ==> cells@[j]@ == crate::cell::CellView::Int(#[trigger] v@[j]),
                decreases n - i,
            {
                assert(cell_fits(ty, cells@[i as int]@));
                match &cells[i] {
                    Cell::Int(x) => v.push(*x),
                    _ => {},
                }
                i = i + 1;
            }
            let r = int64_array(v);
            assert(array_values(r) =~= all);
            r
        },
        FieldType::Quant(p) => {
            let mut v: Vec<u64> = Vec::new();
            while i < n
                invariant
                    i <= n == cells@.len(),
                    v@.len() == i,
                    ty == FieldType::Quant(p),
                    forall|w: i64, q: u32| f.requires((w, q)),
                    forall|j: int| 0 <= j < n ==> cell_fits(ty, (#[trigger] cells@[j])@),
                    forall|j: int|
                        0 <= j < i ==> shown_cell(
                            *f,
                            ty,
                            cells@[j]@,
                            crate::cell::CellView::Float(#[trigger] v@[j]),
                        ),
                decreases n - i,
            {
                assert(cell_fits(ty, cells@[i as int]@));
                match &cells[i] {
                    Cell::Fixed(w) => {
                        let bits: u64 = f(*w, p);
                        v.push(bits);
                    },
                    _ => {},
                }
                i = i + 1;
            }
            float64_array(v)
        },
        FieldType::FixedBytes | FieldType::Bytes => {
            let (offsets, data) = flatten(cells);
            let r = binary_array(offsets, data);
            proof {
                assert forall|j: int| 0 <= j < n implies #[trigger] array_values(r)[j] == all[j] by {
                    assert(cell_fits(ty, cells@[j]@));
                    assert(offsets@[j] <= offsets@[j + 1]);
                }
                assert(array_values(r) =~= all);
            }
            r
        },
        FieldType::Str => {
            let (offsets, data) = flatten(cells);
            proof {
                assert forall|j: int|
                    #![trigger offsets@[j]]
                    0 <= j && j + 1 < offsets@.len() implies vstd::utf8::valid_utf8(
                    data@.subrange(offsets@[j] as int, offsets@[j + 1] as int),
                ) by {
                    assert(cell_fits(ty, cells@[j]@));
                    assert(data@.subrange(offsets@[j] as int, offsets@[j + 1] as int) == cell_bytes(
                        cells@[j]@,
                    ));
                }
            }
            let r = utf8_array(offsets, data);
            proof {
                assert forall|j: int| 0 <= j < n implies #[trigger] array_values(r)[j] == all[j] by {
                    assert(cell_fits(ty, cells@[j]@));
                    assert(offsets@[j] <= offsets@[j + 1]);
                }
                assert(array_values(r) =~= all);
            }
            r
        },
    }
}

/// The cells of rows, column by column.
pub open spec fn stored_columns(
    key_fields: Seq<crate::field::FieldView>,
    row_fields: Seq<crate::field::FieldView>,
    hot_width: nat,
    rows: Seq<(Seq<u8>, Seq<u8>)>,
) -> Seq<Seq<crate::cell::CellView>> {
    Seq::new(
        key_fields.len() + row_fields.len(),
        |c: int| stored_column(key_fields, row_fields, hot_width, rows, c),
    )
}

/// The cells of rows in one column.
pub open spec fn stored_column(
    key_fields: Seq<crate::field::FieldView>,
    row_fields: Seq<crate::field::FieldView>,
    hot_width: nat,
    rows: Seq<(Seq<u8>, Seq<u8>)>,
    c: int,
) -> Seq<crate::cell::CellView> {
    Seq::new(
        rows.len(),
        |i: int|
            crate::cell::row_cell(
                key_fields,
                row_fields,
                hot_width,
                rows[i].0,
                rows[i].1,
                c,
            )->0,
    )
}

/// Every row has what its declaration promises.
pub open spec fn rows_whole(
    key_fields: Seq<crate::field::FieldView>,
    row_fields: Seq<crate::field::FieldView>,
    hot_width: nat,
    rows: Seq<(Seq<u8>, Seq<u8>)>,
) -> bool {
    forall|i: int|
        #![trigger rows[i]]
        0 <= i < rows.len() ==> crate::cell::row_whole(
            key_fields,
            row_fields,
            hot_width,
            rows[i].0,
            rows[i].1,
        )
}

/// The cells of rows in one column.
fn read_column(
    key_fields: &Vec<FieldDesc>,
    row_fields: &Vec<FieldDesc>,
    hot_width: usize,
    rows: &Vec<(Vec<u8>, Vec<u8>)>,
    c: usize,
) -> (r: Vec<Cell>)
    requires
        c < key_fields@.len() + row_fields@.len(),
        rows_whole(
            crate::field::field_list(key_fields@),
            crate::field::field_list(row_fields@),
            hot_width as nat,
            crate::engine::storage::pair_views(rows@),
        ),
    ensures
        crate::cell::cell_views(r@) == stored_column(
            crate::field::field_list(key_fields@),
            crate::field::field_list(row_fields@),
            hot_width as nat,
            crate::engine::storage::pair_views(rows@),
            c as int,
        ),
{
    let ghost kf = crate::field::field_list(key_fields@);
    let ghost rf = crate::field::field_list(row_fields@);
    let ghost raw = crate::engine::storage::pair_views(rows@);
    let ghost want = stored_column(kf, rf, hot_width as nat, raw, c as int);
    let mut out: Vec<Cell> = Vec::new();
    let mut i: usize = 0;
    while i < rows.len()
        invariant
            i <= rows@.len() == raw.len(),
            raw == crate::engine::storage::pair_views(rows@),
            kf == crate::field::field_list(key_fields@),
            rf == crate::field::field_list(row_fields@),
            want == stored_column(kf, rf, hot_width as nat, raw, c as int),
            c < key_fields@.len() + row_fields@.len(),
            rows_whole(kf, rf, hot_width as nat, raw),
            out@.len() == i,
            forall|j: int| 0 <= j < i ==> (#[trigger] out@[j])@ == want[j],
        decreases rows@.len() - i,
    {
        proof {
            let row = raw[i as int];
            assert(crate::cell::row_whole(kf, rf, hot_width as nat, row.0, row.1));
        }
        let cell = cell_at(
            key_fields,
            row_fields,
            hot_width,
            rows[i].0.as_slice(),
            rows[i].1.as_slice(),
            c,
        );
        out.push(cell);
        i = i + 1;
    }
    assert(crate::cell::cell_views(out@) =~= want);
    out
}

/// Rows that can be exported: each has what its declaration promises, there
/// is a column, and no column has more bytes than its offsets can tell.
pub open spec fn exportable<K: KeyEncode, R: Document>(rows: Seq<(Seq<u8>, Seq<u8>)>) -> bool {
    &&& K::declared().len() + R::declared().len() > 0
    &&& rows_whole(K::declared(), R::declared(), R::HOT_WIDTH as nat, rows)
    &&& forall|c: int|
        0 <= c < K::declared().len() + R::declared().len() ==> byte_count(
            #[trigger] stored_columns(K::declared(), R::declared(), R::HOT_WIDTH as nat, rows)[c],
        ) <= i32::MAX
}

/// Whether cells of variable length have no more bytes than offsets can
/// tell.
fn bytes_fit(cells: &Vec<Cell>) -> (r: bool)
    ensures
        r == (byte_count(crate::cell::cell_views(cells@)) <= i32::MAX),
{
    let ghost all = crate::cell::cell_views(cells@);
    let mut left: usize = 0x7FFF_FFFF;
    let mut i: usize = 0;
    assert(all.take(0) =~= Seq::empty());
    while i < cells.len()
        invariant
            i <= cells@.len() == all.len(),
            all == crate::cell::cell_views(cells@),
            left <= 0x7FFF_FFFF,
            0x7FFF_FFFF - left == byte_count(all.take(i as int)),
        decreases cells@.len() - i,
    {
        proof {
            lemma_byte_count_take(all, i + 1);
            assert(all.take(i + 1).drop_last() =~= all.take(i as int));
            assert(all.take(i + 1).last() == cells@[i as int]@);
        }
        let size: usize = match &cells[i] {
            Cell::Bytes(b) => b.len(),
            Cell::Str(s) => s.as_str().as_bytes().len(),
            _ => 0,
        };
        assert(size == cell_bytes(cells@[i as int]@).len());
        if size > left {
            return false;
        }
        left = left - size;
        i = i + 1;
    }
    assert(all.take(i as int) =~= all);
    true
}

/// Whether stored rows can be exported.
pub fn can_export<K: KeyEncode, R: Document<Key = K>>(rows: &Vec<(Vec<u8>, Vec<u8>)>) -> (r: bool)
    ensures
        r == exportable::<K, R>(crate::engine::storage::pair_views(rows@)),
{
    let ghost raw = crate::engine::storage::pair_views(rows@);
    let ghost kf = K::declared();
    let ghost rf = R::declared();
    let ghost hot = R::HOT_WIDTH as nat;
    let key_fields = K::fields();
    let row_fields = R::fields();
    let fields = table_fields::<K, R>();
    proof {
        assert(crate::field::field_list(fields@).len() == fields@.len());
        assert(crate::field::field_list(key_fields@).len() == key_fields@.len());
        assert(crate::field::field_list(row_fields@).len() == row_fields@.len());
    }
    let n: usize = fields.len();
    if n == 0 {
        return false;
    }
    let mut i: usize = 0;
    while i < rows.len()
        invariant
            i <= rows@.len() == raw.len(),
            raw == crate::engine::storage::pair_views(rows@),
            kf == crate::field::field_list(key_fields@),
            rf == crate::field::field_list(row_fields@),
            kf == K::declared(),
            rf == R::declared(),
            hot == R::HOT_WIDTH,
            key_fields@.len() + row_fields@.len() == n,
            forall|j: int|
                #![trigger raw[j]]
                0 <= j < i ==> crate::cell::row_whole(kf, rf, hot, raw[j].0, raw[j].1),
        decreases rows@.len() - i,
    {
        let ghost row = raw[i as int];
        if !row_is_whole(
            &key_fields,
            &row_fields,
            R::HOT_WIDTH,
            rows[i].0.as_slice(),
            rows[i].1.as_slice(),
        ) {
            assert(!crate::cell::row_whole(kf, rf, hot, row.0, row.1));
            return false;
        }
        i = i + 1;
    }
    assert(rows_whole(kf, rf, hot, raw));
    let ghost all = stored_columns(kf, rf, hot, raw);
    let mut c: usize = 0;
    while c < n
        invariant
            c <= n == all.len(),
            n == key_fields@.len() + row_fields@.len(),
            raw == crate::engine::storage::pair_views(rows@),
            kf == crate::field::field_list(key_fields@),
            rf == crate::field::field_list(row_fields@),
            kf == K::declared(),
            rf == R::declared(),
            hot == R::HOT_WIDTH,
            all == stored_columns(kf, rf, hot, raw),
            rows_whole(kf, rf, hot, raw),
            forall|j: int| 0 <= j < c ==> byte_count(#[trigger] all[j]) <= i32::MAX,
        decreases n - c,
    {
        let cells = read_column(&key_fields, &row_fields, R::HOT_WIDTH, rows, c);
        assert(all[c as int] == crate::cell::cell_views(cells@));
        if !bytes_fit(&cells) {
            assert(byte_count(all[c as int]) > i32::MAX);
            return false;
        }
        c = c + 1;
    }
    true
}

/// The columns that rows are exported as.
pub open spec fn exported<K: KeyEncode, R: Document, F: Fn(i64, u32) -> u64>(
    f: F,
    rows: Seq<(Seq<u8>, Seq<u8>)>,
    columns: Seq<(Seq<char>, ColumnType, Seq<crate::cell::CellView>)>,
) -> bool {
    let fields = K::declared() + R::declared();
    &&& columns.len() == fields.len()
    &&& forall|c: int|
        #![trigger columns[c]]
        0 <= c < columns.len() ==> {
            &&& columns[c].0 == fields[c].name
            &&& columns[c].1 == type_of(fields[c].ty)
            &&& shown(
                f,
                fields[c].ty,
                stored_columns(K::declared(), R::declared(), R::HOT_WIDTH as nat, rows)[c],
                columns[c].2,
            )
        }
}

/// No exported column is declared as nullable.
pub open spec fn none_nullable<K: KeyEncode, R: Document>() -> Seq<bool> {
    Seq::new(K::declared().len() + R::declared().len(), |c: int| false)
}

/// Stored rows as one batch. Fixed-point numbers are shown as the double
/// that `f` makes of them and their places, given by its bits.
pub fn build_batch<K: KeyEncode, R: Document<Key = K>, F: Fn(i64, u32) -> u64>(
    rows: &Vec<(Vec<u8>, Vec<u8>)>,
    f: &F,
) -> (r: Batch)
    requires
        exportable::<K, R>(crate::engine::storage::pair_views(rows@)),
        forall|w: i64, p: u32| f.requires((w, p)),
    ensures
        exported::<K, R, F>(*f, crate::engine::storage::pair_views(rows@), batch_columns(r)),
        batch_nullable(r) == none_nullable::<K, R>(),
{
    let ghost raw = crate::engine::storage::pair_views(rows@);
    let ghost kf = K::declared();
    let ghost rf = R::declared();
    let ghost hot = R::HOT_WIDTH as nat;
    let ghost all = stored_columns(kf, rf, hot, raw);
    let key_fields = K::fields();
    let row_fields = R::fields();
    let fields = table_fields::<K, R>();
    let ghost declared = kf + rf;
    proof {
        assert(crate::field::field_list(fields@).len() == fields@.len());
        assert(crate::field::field_list(key_fields@).len() == key_fields@.len());
        assert(crate::field::field_list(row_fields@).len() == row_fields@.len());
    }
    let mut names: Vec<&'static str> = Vec::new();
    let mut arrays: Vec<ColumnArray> = Vec::new();
    let mut c: usize = 0;
    while c < fields.len()
        invariant
            c <= fields@.len() == declared.len(),
            declared == kf + rf,
            declared == crate::field::field_list(fields@),
            kf == K::declared(),
            rf == R::declared(),
            hot == R::HOT_WIDTH,
            kf == crate::field::field_list(key_fields@),
            rf == crate::field::field_list(row_fields@),
            kf.len() == key_fields@.len(),
            rf.len() == row_fields@.len(),
            raw == crate::engine::storage::pair_views(rows@),
            all == stored_columns(kf, rf, hot, raw),
            exportable::<K, R>(raw),
            forall|w: i64, p: u32| f.requires((w, p)),
            names@.len() == c,
            arrays@.len() == c,
            forall|j: int|
                #![trigger arrays@[j]]
                0 <= j < c ==> names@[j]@ == declared[j].name && array_type(arrays@[j]) == type_of(
                    declared[j].ty,
                ) && shown(*f, declared[j].ty, all[j], array_values(arrays@[j])) && !array_nulls(
                    arrays@[j],
                ),
        decreases fields@.len() - c,
    {
        let cells = read_column(&key_fields, &row_fields, R::HOT_WIDTH, rows, c);
        let desc = fields[c];
        proof {
            assert(declared[c as int] == desc@);
            assert(all[c as int] == crate::cell::cell_views(cells@));
            assert forall|i: int| 0 <= i < cells@.len() implies cell_fits(
                desc.ty,
                (#[trigger] cells@[i])@,
            ) by {
                let row = raw[i];
                assert(crate::cell::row_whole(kf, rf, hot, row.0, row.1));
                assert(crate::cell::row_cell(kf, rf, hot, row.0, row.1, c as int) is Some);
                assert(crate::cell::cell_views(cells@)[i] == cells@[i]@);
                if c < kf.len() {
                    lemma_cell_fits(desc.ty, crate::cell::key_piece(kf, row.0, c as int));
                } else {
                    lemma_cell_fits(
                        desc.ty,
                        crate::cell::payload_piece(rf, hot, row.1, c - kf.len()),
                    );
                }
            }
        }
        let array = column_array(desc.ty, &cells, f);
        names.push(desc.name);
        arrays.push(array);
        c = c + 1;
    }
    proof {
        assert forall|i: int| 0 <= i < arrays@.len() implies array_values(
            #[trigger] arrays@[i],
        ).len() == array_values(arrays@[0]).len() by {
            assert(shown(*f, declared[i].ty, all[i], array_values(arrays@[i])));
            assert(shown(*f, declared[0].ty, all[0], array_values(arrays@[0])));
        }
    }
    let ghost made = named_columns(names@, arrays@);
    match try_batch(names, arrays) {
        Some(b) => {
            proof {
                assert forall|j: int| #![trigger made[j]] 0 <= j < made.len() implies {
                    &&& made[j].0 == declared[j].name
                    &&& made[j].1 == type_of(declared[j].ty)
                    &&& shown(*f, declared[j].ty, all[j], made[j].2)
                } by {
                    assert(array_type(arrays@[j]) == type_of(declared[j].ty));
                }
                assert(batch_nullable(b) =~= none_nullable::<K, R>()) by {
                    assert forall|j: int| 0 <= j < batch_nullable(b).len() implies !(
                    #[trigger] batch_nullable(b)[j]) by {
                        assert(!array_nulls(arrays@[j]));
                    }
                }
            }
            b
        },
        None => vstd::pervasive::unreached(),
    }
}

/// How a field takes the value of a column: doubles as the fixed-point number
/// that `g` makes of them, other values as they are.
pub open spec fn taken_cell<G: Fn(u64, u32) -> i64>(
    g: G,
    ty: FieldType,
    value: crate::cell::CellView,
    out: crate::cell::CellView,
) -> bool {
    match ty {
        FieldType::Quant(p) => {
            &&& value is Float
            &&& out is Fixed
            &&& g.ensures((value->Float_0, p), out->Fixed_0)
        },
        _ => out == value,
    }
}

/// How a field takes the values of a column.
pub open spec fn taken<G: Fn(u64, u32) -> i64>(
    g: G,
    ty: FieldType,
    values: Seq<crate::cell::CellView>,
    out: Seq<crate::cell::CellView>,
) -> bool {
    &&& out.len() == values.len()
    &&& forall|i: int| 0 <= i < out.len() ==> taken_cell(g, ty, values[i], #[trigger] out[i])
}

/// The cells of a field, given its column. `None` if the column has another
/// type.
#[verifier::rlimit(30)]
fn column_cells<G: Fn(u64, u32) -> i64>(ty: FieldType, a: &ColumnArray, g: &G) -> (r: Option<
    Vec<Cell>,
>)
    requires
        forall|b: u64, p: u32| g.requires((b, p)),
    ensures
        r is Some <==> array_type(*a) == type_of(ty),
        r matches Some(v) ==> taken(*g, ty, array_values(*a), crate::cell::cell_views(v@)),
{
    let ghost all = array_values(*a);
    let mut out: Vec<Cell> = Vec::new();
    let mut i: usize = 0;
    match arrow_type(ty) {
        ColumnType::UInt8 => match uint8_values(a) {
            Some(v) => {
                while i < v.len()
                    invariant
                        i <= v@.len(),
                        out@.len() == i,
                        forall|j: int|
                            0 <= j < i ==> (#[trigger] out@[j])@ == crate::cell::CellView::UInt(
                                v@[j] as u64,
                            ),
                    decreases v@.len() - i,
                {
                    out.push(Cell::UInt(v[i] as u64));
                    i = i + 1;
                }
                assert(crate::cell::cell_views(out@) =~= all);
                Some(out)
            },
            None => None,
        },
        ColumnType::UInt16 => match uint16_values(a) {
            Some(v) => {
                while i < v.len()
                    invariant
                        i <= v@.len(),
                        out@.len() == i,
                        forall|j: int|
                            0 <= j < i ==> (#[trigger] out@[j])@ == crate::cell::CellView::UInt(
                                v@[j] as u64,
                            ),
                    decreases v@.len() - i,
                {
                    out.push(Cell::UInt(v[i] as u64));
                    i = i + 1;
                }
                assert(crate::cell::cell_views(out@) =~= all);
                Some(out)
            },
            None => None,
        },
        ColumnType::UInt32 => match uint32_values(a) {
            Some(v) => {
                while i < v.len()
                    invariant
                        i <= v@.len(),
                        out@.len() == i,
                        forall|j: int|
                            0 <= j < i ==> (#[trigger] out@[j])@ == crate::cell::CellView::UInt(
                                v@[j] as u64,
                            ),
                    decreases v@.len() - i,
                {
                    out.push(Cell::UInt(v[i] as u64));
                    i = i + 1;
                }
                assert(crate::cell::cell_views(out@) =~= all);
                Some(out)
            },
            None => None,
        },
        ColumnType::UInt64 => match uint64_values(a) {
            Some(v) => {
                while i < v.len()
                    invariant
                        i <= v@.len(),
                        out@.len() == i,
                        forall|j: int|
                            0 <= j < i ==> (#[trigger] out@[j])@ == crate::cell::CellView::UInt(
                                v@[j],
                            ),
                    decreases v@.len() - i,
                {
                    out.push(Cell::UInt(v[i]));
                    i = i + 1;
                }
                assert(crate::cell::cell_views(out@) =~= all);
                Some(out)
            },
            None => None,
        },
        ColumnType::Int64 => match int64_values(a) {
            Some(v) => {
                while i < v.len()
                    invariant
                        i <= v@.len(),
                        out@.len() == i,
                        forall|j: int|
                            0 <= j < i ==> (#[trigger] out@[j])@ == crate::cell::CellView::Int(
                                v@[j],
                            ),
                    decreases v@.len() - i,
                {
                    out.push(Cell::Int(v[i]));
                    i = i + 1;
                }
                assert(crate::cell::cell_views(out@) =~= all);
                Some(out)
            },
            None => None,
        },
        ColumnType::Float64 => match float64_values(a) {
            Some(v) => {
                let places: u32 = match ty {
                    FieldType::Quant(p) => p,
                    _ => 0,
                };
                while i < v.len()
                    invariant
                        i <= v@.len(),
                        out@.len() == i,
                        ty == FieldType::Quant(places),
                        forall|b: u64, p: u32| g.requires((b, p)),
                        forall|j: int|
                            0 <= j < i ==> taken_cell(
                                *g,
                                ty,
                                crate::cell::CellView::Float(v@[j]),
                                (#[trigger] out@[j])@,
                            ),
                    decreases v@.len() - i,
                {
                    let w: i64 = g(v[i], places);
                    out.push(Cell::Fixed(w));
                    i = i + 1;
                }
                assert(taken(*g, ty, all, crate::cell::cell_views(out@)));
                Some(out)
            },
            None => None,
        },
        ColumnType::Binary => match binary_values(a) {
            Some(v) => {
                while i < v.len()
                    invariant
                        i <= v@.len(),
                        out@.len() == i,
                        forall|j: int|
                            0 <= j < i ==> (#[trigger] out@[j])@ == crate::cell::CellView::Bytes(
                                v@[j]@,
                            ),
                    decreases v@.len() - i,
                {
                    out.push(Cell::Bytes(to_vec(v[i].as_slice())));
                    i = i + 1;
                }
                assert(crate::cell::cell_views(out@) =~= all);
                Some(out)
            },
            None => None,
        },
        ColumnType::Utf8 => match utf8_values(a) {
            Some(v) => {
                while i < v.len()
                    invariant
                        i <= v@.len(),
                        out@.len() == i,
                        forall|j: int|
                            0 <= j < i ==> (#[trigger] out@[j])@ == crate::cell::CellView::Str(
                                v@[j]@,
                            ),
                    decreases v@.len() - i,
                {
                    out.push(Cell::Str(String::from_str(v[i].as_str())));
                    i = i + 1;
                }
                assert(crate::cell::cell_views(out@) =~= all);
                Some(out)
            },
            None => None,
        },
        ColumnType::Other => None,
    }
}

/// A copy of a cell.
fn copy_cell(c: &Cell) -> (r: Cell)
    ensures
        r@ == c@,
{
    match c {
        Cell::UInt(v) => Cell::UInt(*v),
        Cell::Int(v) => Cell::Int(*v),
        Cell::Fixed(v) => Cell::Fixed(*v),
        Cell::Float(v) => Cell::Float(*v),
        Cell::Bytes(b) => Cell::Bytes(to_vec(b.as_slice())),
        Cell::Str(s) => Cell::Str(String::from_str(s.as_str())),
    }
}

/// The columns begin with one of the right type for each field.
pub open spec fn importable(
    fields: Seq<crate::field::FieldView>,
    columns: Seq<(Seq<char>, ColumnType, Seq<crate::cell::CellView>)>,
) -> bool {
    &&& fields.len() <= columns.len()
    &&& forall|c: int|
        0 <= c < fields.len() ==> type_of(#[trigger] fields[c].ty) == columns[c].1
}

/// Rows of cells hold what columns say, row by row.
pub open spec fn imported<G: Fn(u64, u32) -> i64>(
    g: G,
    fields: Seq<crate::field::FieldView>,
    columns: Seq<(Seq<char>, ColumnType, Seq<crate::cell::CellView>)>,
    rows: Seq<Seq<crate::cell::CellView>>,
) -> bool {
    &&& rows.len() == columns[0].2.len()
    &&& forall|i: int| 0 <= i < rows.len() ==> (#[trigger] rows[i]).len() == fields.len()
    &&& forall|i: int, c: int|
        0 <= i < rows.len() && 0 <= c < fields.len() ==> taken_cell(
            g,
            fields[c].ty,
            columns[c].2[i],
            #[trigger] rows[i][c],
        )
}

/// The rows of a batch, as they can be restored. Doubles are taken as the
/// fixed-point number that `g` makes of their bits and the places of the
/// field. `None` if the columns are not those of the table.
pub fn batch_rows<K: KeyEncode, R: Document<Key = K>, G: Fn(u64, u32) -> i64>(
    b: &Batch,
    g: &G,
) -> (r: Option<Vec<Vec<Cell>>>)
    requires
        K::declared().len() + R::declared().len() > 0,
        forall|x: u64, p: u32| g.requires((x, p)),
    ensures
        r is Some <==> importable(K::declared() + R::declared(), batch_columns(*b)),
        r matches Some(rows) ==> imported(
            *g,
            K::declared() + R::declared(),
            batch_columns(*b),
            crate::cell::cell_table(rows@),
        ),
{
    let fields = table_fields::<K, R>();
    let ghost declared = K::declared() + R::declared();
    let ghost columns = batch_columns(*b);
    assert(crate::field::field_list(fields@).len() == fields@.len());
    let arrays = batch_arrays(b);
    if arrays.len() < fields.len() {
        return None;
    }
    let mut cells: Vec<Vec<Cell>> = Vec::new();
    let mut c: usize = 0;
    while c < fields.len()
        invariant
            c <= fields@.len() == declared.len() <= arrays@.len(),
            declared == crate::field::field_list(fields@),
            arrays@.len() == columns.len(),
            columns == batch_columns(*b),
            forall|i: int|
                0 <= i < arrays@.len() ==> array_type(#[trigger] arrays@[i]) == columns[i].1
                    && array_values(arrays@[i]) == columns[i].2,
            forall|x: u64, p: u32| g.requires((x, p)),
            cells@.len() == c,
            forall|j: int|
                0 <= j < c ==> type_of(#[trigger] declared[j].ty) == columns[j].1 && taken(
                    *g,
                    declared[j].ty,
                    columns[j].2,
                    crate::cell::cell_views(cells@[j]@),
                ),
            declared == K::declared() + R::declared(),
        decreases fields@.len() - c,
    {
        proof {
            assert(declared[c as int] == fields@[c as int]@);
            assert(array_type(arrays@[c as int]) == columns[c as int].1);
        }
        match column_cells(fields[c].ty, &arrays[c], g) {
            Some(v) => cells.push(v),
            None => {
                assert(type_of(declared[c as int].ty) != columns[c as int].1);
                return None;
            },
        }
        c = c + 1;
    }
    let ghost n = columns[0].2.len();
    proof {
        assert forall|j: int| 0 <= j < cells@.len() implies (#[trigger] cells@[j])@.len() == n by {
            assert(type_of(declared[j].ty) == columns[j].1);
            assert(array_values(arrays@[j]).len() == array_values(arrays@[0]).len());
        }
        assert(cells@[0]@.len() == n);
    }
    let mut rows: Vec<Vec<Cell>> = Vec::new();
    let mut i: usize = 0;
    while i < cells[0].len()
        invariant
            cells@.len() == declared.len() == fields@.len(),
            cells@.len() > 0,
            n == columns[0].2.len(),
            i <= n,
            forall|j: int| 0 <= j < cells@.len() ==> (#[trigger] cells@[j])@.len() == n,
            forall|j: int|
                0 <= j < declared.len() ==> type_of(#[trigger] declared[j].ty) == columns[j].1
                    && taken(
                    *g,
                    declared[j].ty,
                    columns[j].2,
                    crate::cell::cell_views(cells@[j]@),
                ),
            rows@.len() == i,
            forall|k: int|
                0 <= k < i ==> (#[trigger] rows@[k])@.len() == declared.len() && forall|j: int|
                    0 <= j < declared.len() ==> (#[trigger] rows@[k]@[j])@ == cells@[j]@[k]@,
        decreases n - i,
    {
        let mut row: Vec<Cell> = Vec::new();
        let mut j: usize = 0;
        while j < cells.len()
            invariant
                j <= cells@.len() == declared.len(),
                i < n,
                forall|k: int| 0 <= k < cells@.len() ==> (#[trigger] cells@[k])@.len() == n,
                row@.len() == j,
                forall|k: int| 0 <= k < j ==> (#[trigger] row@[k])@ == cells@[k]@[i as int]@,
            decreases cells@.len() - j,
        {
            assert(cells@[j as int]@.len() == n);
            row.push(copy_cell(&cells[j][i]));
            j = j + 1;
        }
        rows.push(row);
        i = i + 1;
    }
    proof {
        let table = crate::cell::cell_table(rows@);
        assert forall|k: int| 0 <= k < table.len() implies (#[trigger] table[k]).len()
            == declared.len() by {
            assert(rows@[k]@.len() == declared.len());
        }
        assert forall|k: int, j: int|
            0 <= k < table.len() && 0 <= j < declared.len() implies taken_cell(
            *g,
            declared[j].ty,
            columns[j].2[k],
            #[trigger] table[k][j],
        ) by {
            assert(rows@[k]@.len() == declared.len());
            assert(rows@[k]@[j]@ == cells@[j]@[k]@);
            assert(table[k] == crate::cell::cell_views(rows@[k]@));
            assert(type_of(declared[j].ty) == columns[j].1);
            assert(crate::cell::cell_views(cells@[j]@)[k] == cells@[j]@[k]@);
        }
    }
    Some(rows)
}

/// What was exported and is taken back holds the cells that were stored, if
/// `g` gives each fixed-point number back that `f` made a double of.
pub proof fn law_snapshot_round_trip<F: Fn(i64, u32) -> u64, G: Fn(u64, u32) -> i64>(
    f: F,
    g: G,
    ty: FieldType,
    stored: crate::cell::CellView,
    value: crate::cell::CellView,
    back: crate::cell::CellView,
)
    requires
        shown_cell(f, ty, stored, value),
        taken_cell(g, ty, value, back),
        forall|w: i64, p: u32, b: u64, v: i64|
            #![trigger f.ensures((w, p), b), g.ensures((b, p), v)]
            f.ensures((w, p), b) && g.ensures((b, p), v) ==> v == w,
    ensures
        back == stored,
{
}

/// The names and types of columns.
pub open spec fn column_headings(fields: Seq<crate::field::FieldView>) -> Seq<
    (Seq<char>, ColumnType),
> {
    Seq::new(fields.len(), |i: int| (fields[i].name, type_of(fields[i].ty)))
}

/// What a list of headings says.
pub open spec fn heading_views(v: Seq<(&'static str, ColumnType)>) -> Seq<
    (Seq<char>, ColumnType),
> {
    v.map_values(|h: (&'static str, ColumnType)| (h.0@, h.1))
}

/// The bytes that the fixed-width fields of a list take.
fn fields_width(fields: &Vec<FieldDesc>) -> (r: usize)
    requires
        crate::field::total_width(crate::field::field_list(fields@)) <= usize::MAX,
    ensures
        r == crate::field::total_width(crate::field::field_list(fields@)),
{
    let ghost all = crate::field::field_list(fields@);
    let mut sum: usize = 0;
    let mut i: usize = 0;
    assert(all.take(0) =~= Seq::empty());
    while i < fields.len()
        invariant
            i <= fields@.len() == all.len(),
            all == crate::field::field_list(fields@),
            crate::field::total_width(all) <= usize::MAX,
            sum == crate::field::total_width(all.take(i as int)),
        decreases fields@.len() - i,
    {
        proof {
            crate::field::lemma_total_width_take(all, i + 1);
            assert(all.take(i + 1).drop_last() =~= all.take(i as int));
            assert(all.take(i + 1).last() == all[i as int]);
        }
        sum = sum + fields[i].width;
        i = i + 1;
    }
    assert(all.take(i as int) =~= all);
    sum
}

impl<S: VirtualStorage, K: KeyEncode, R: Document<Key = K>> Table<S, K, R> {
    /// All rows as one batch, in key order. Fixed-point numbers are shown as
    /// the double that `f` makes of them and their places, given by its bits.
    pub fn to_record_batch<F: Fn(i64, u32) -> u64>(&self, f: &F) -> (r: Batch)
        requires
            exportable::<K, R>(
                crate::engine::storage::prefix_suffix_pairs(
                    self.contents(),
                    crate::table::primary_front::<R>(),
                ),
            ),
            forall|w: i64, p: u32| f.requires((w, p)),
        ensures
            exported::<K, R, F>(
                *f,
                crate::engine::storage::prefix_suffix_pairs(
                    self.contents(),
                    crate::table::primary_front::<R>(),
                ),
                batch_columns(r),
            ),
            batch_nullable(r) == none_nullable::<K, R>(),
    {
        let rows = self.scan_rows_raw();
        build_batch::<K, R, F>(&rows, f)
    }

    /// The names and types of the exported columns.
    pub fn export_columns(&self) -> (r: Vec<(&'static str, ColumnType)>)
        ensures
            heading_views(r@) == column_headings(K::declared() + R::declared()),
    {
        let fields = table_fields::<K, R>();
        let ghost all = crate::field::field_list(fields@);
        let mut out: Vec<(&'static str, ColumnType)> = Vec::new();
        let mut i: usize = 0;
        assert(heading_views(out@) =~= column_headings(all).take(0));
        while i < fields.len()
            invariant
                i <= fields@.len() == all.len(),
                all == crate::field::field_list(fields@),
                heading_views(out@) == column_headings(all).take(i as int),
            decreases fields@.len() - i,
        {
            let ghost before = heading_views(out@);
            out.push((fields[i].name, arrow_type(fields[i].ty)));
            proof {
                let h = column_headings(all)[i as int];
                assert(heading_views(out@) =~= before.push(h));
                assert(column_headings(all).take(i + 1) =~= before.push(h));
            }
            i = i + 1;
        }
        assert(column_headings(all).take(i as int) =~= column_headings(all));
        out
    }

    /// The bytes of the fixed-width fields of a row, key and payload.
    pub fn row_width(&self) -> (r: usize)
        requires
            crate::field::total_width(K::declared()) + crate::field::total_width(R::declared())
                <= usize::MAX,
        ensures
            r == crate::field::total_width(K::declared()) + crate::field::total_width(
                R::declared(),
            ),
    {
        let key_fields = K::fields();
        let row_fields = R::fields();
        fields_width(&key_fields) + fields_width(&row_fields)
    }
}

impl<S: VirtualStorage, K: KeyEncode, R: Document<Key = K>> Collection<S, K, R> {
    /// All documents as one batch, in key order. Fixed-point numbers are
    /// shown as the double that `f` makes of them and their places, given by
    /// its bits.
    pub fn to_record_batch<F: Fn(i64, u32) -> u64>(&self, f: &F) -> (r: Batch)
        requires
            exportable::<K, R>(
                crate::engine::storage::prefix_suffix_pairs(
                    self.contents(),
                    crate::model::document::primary_front::<R>(),
                ),
            ),
            forall|w: i64, p: u32| f.requires((w, p)),
        ensures
            exported::<K, R, F>(
                *f,
                crate::engine::storage::prefix_suffix_pairs(
                    self.contents(),
                    crate::model::document::primary_front::<R>(),
                ),
                batch_columns(r),
            ),
            batch_nullable(r) == none_nullable::<K, R>(),
    {
        let rows = self.scan_documents_raw();
        build_batch::<K, R, F>(&rows, f)
    }
}

/// Bytes of the numbers of a column; 0 for a column of anything else.
pub open spec fn number_width(t: ColumnType) -> nat {
    match t {
        ColumnType::UInt8 => 1,
        ColumnType::UInt16 => 2,
        ColumnType::UInt32 => 4,
        ColumnType::UInt64 => 8,
        _ => 0,
    }
}

/// A column is as wide as its field needs and no wider, and of the kind that
/// the cells of the field are: unsigned numbers in a column of unsigned
/// numbers, distances in a column of signed ones, fixed-point numbers in a
/// column of doubles, bytes and text in columns of their own.
pub proof fn law_column_suits_field(f: crate::field::FieldView, raw: Seq<u8>)
    requires
        crate::cell::width_fits(f),
        f.width > 0 ==> raw.len() == f.width,
        crate::cell::cell_of(f.ty, raw) is Some,
    ensures
        ({
            let t = type_of(f.ty);
            let c = crate::cell::cell_of(f.ty, raw)->0;
            &&& c is UInt <==> number_width(t) > 0
            &&& c is UInt && f.width > 0 ==> number_width(t) == f.width
            &&& c is UInt && f.width == 0 ==> number_width(t) == 8
            &&& c is Int <==> t == ColumnType::Int64
            &&& c is Fixed <==> t == ColumnType::Float64
            &&& c is Bytes <==> t == ColumnType::Binary
            &&& c is Str <==> t == ColumnType::Utf8
        }),
{
}

/// Only fixed-point numbers are converted: all other values are shown, and
/// taken, as they are.
pub proof fn law_other_values_stay<F: Fn(i64, u32) -> u64, G: Fn(u64, u32) -> i64>(
    f: F,
    g: G,
    ty: FieldType,
    stored: crate::cell::CellView,
    value: crate::cell::CellView,
)
    requires
        !(ty is Quant),
    ensures
        shown_cell(f, ty, stored, value) <==> value == stored,
        taken_cell(g, ty, stored, value) <==> value == stored,
{
}

/// What was exported can be imported, and what is imported of it are the
/// stored rows, cell by cell and in order, if `g` gives each fixed-point
/// number back that `f` made a double of.
pub proof fn law_export_is_imported<
    K: KeyEncode,
    R: Document,
    F: Fn(i64, u32) -> u64,
    G: Fn(u64, u32) -> i64,
>(
    f: F,
    g: G,
    rows: Seq<(Seq<u8>, Seq<u8>)>,
    columns: Seq<(Seq<char>, ColumnType, Seq<crate::cell::CellView>)>,
    back: Seq<Seq<crate::cell::CellView>>,
    i: int,
    c: int,
)
    requires
        exportable::<K, R>(rows),
        exported::<K, R, F>(f, rows, columns),
        imported(g, K::declared() + R::declared(), columns, back),
        forall|w: i64, p: u32, b: u64, v: i64|
            #![trigger f.ensures((w, p), b), g.ensures((b, p), v)]
            f.ensures((w, p), b) && g.ensures((b, p), v) ==> v == w,
        0 <= i < rows.len(),
        0 <= c < K::declared().len() + R::declared().len(),
    ensures
        importable(K::declared() + R::declared(), columns),
        back.len() == rows.len(),
        back[i].len() == K::declared().len() + R::declared().len(),
        crate::cell::row_cell(
            K::declared(),
            R::declared(),
            R::HOT_WIDTH as nat,
            rows[i].0,
            rows[i].1,
            c,
        ) == Some(back[i][c]),
{
    let fields = K::declared() + R::declared();
    let hot = R::HOT_WIDTH as nat;
    let stored = stored_columns(K::declared(), R::declared(), hot, rows);
    assert(columns[0].2.len() == stored[0].len());
    assert(columns[c].2.len() == stored[c].len());
    assert(shown_cell(f, fields[c].ty, stored[c][i], columns[c].2[i]));
    assert(taken_cell(g, fields[c].ty, columns[c].2[i], back[i][c]));
    law_snapshot_round_trip(f, g, fields[c].ty, stored[c][i], columns[c].2[i], back[i][c]);
    let row = rows[i];
    assert(crate::cell::row_whole(K::declared(), R::declared(), hot, row.0, row.1));
    assert(crate::cell::row_cell(K::declared(), R::declared(), hot, row.0, row.1, c) is Some);
}

/// The headings are those of the fields, the key before the payload: a
/// column for each, under its name.
pub proof fn law_headings_name_fields<K: KeyEncode, R: Document>(c: int)
    requires
        0 <= c < K::declared().len() + R::declared().len(),
    ensures
        column_headings(K::declared() + R::declared()).len() == K::declared().len()
            + R::declared().len(),
        c < K::declared().len() ==> column_headings(K::declared() + R::declared())[c].0
            == K::declared()[c].name,
        c >= K::declared().len() ==> column_headings(K::declared() + R::declared())[c].0
            == R::declared()[c - K::declared().len()].name,
{
}

/// Rows can be exported only if each has what its declaration promises, and
/// fewer rows can be exported if more can; without rows, a column is enough.
pub proof fn law_fewer_rows_are_exportable<K: KeyEncode, R: Document>(
    rows: Seq<(Seq<u8>, Seq<u8>)>,
    n: int,
    i: int,
)
    requires
        0 <= n <= rows.len(),
        0 <= i < rows.len() || rows.len() == 0,
    ensures
        exportable::<K, R>(rows) ==> exportable::<K, R>(rows.take(n)),
        exportable::<K, R>(rows) && 0 <= i < rows.len() ==> crate::cell::row_whole(
            K::declared(),
            R::declared(),
            R::HOT_WIDTH as nat,
            rows[i].0,
            rows[i].1,
        ),
        rows.len() == 0 ==> (exportable::<K, R>(rows) <==> K::declared().len()
            + R::declared().len() > 0),
{
    let kf = K::declared();
    let rf = R::declared();
    let hot = R::HOT_WIDTH as nat;
    let some = rows.take(n);
    if exportable::<K, R>(rows) {
        assert forall|j: int|
            #![trigger some[j]]
            0 <= j < some.len() implies crate::cell::row_whole(
            kf,
            rf,
            hot,
            some[j].0,
            some[j].1,
        ) by {
            let row = rows[j];
            assert(crate::cell::row_whole(kf, rf, hot, row.0, row.1));
        }
        assert forall|c: int| 0 <= c < kf.len() + rf.len() implies byte_count(
            #[trigger] stored_columns(kf, rf, hot, some)[c],
        ) <= i32::MAX by {
            let all = stored_columns(kf, rf, hot, rows)[c];
            assert(stored_columns(kf, rf, hot, some)[c] =~= all.take(n));
            lemma_byte_count_take(all, n);
        }
    }
    if rows.len() == 0 {
        assert forall|c: int| 0 <= c < kf.len() + rf.len() implies byte_count(
            #[trigger] stored_columns(kf, rf, hot, rows)[c],
        ) <= i32::MAX by {
            assert(stored_columns(kf, rf, hot, rows)[c].len() == 0);
        }
    }
}

/// The bytes of a column are those of its cells together, in which numbers
/// have none.
pub proof fn law_bytes_add_up(a: Seq<crate::cell::CellView>, b: Seq<crate::cell::CellView>)
    ensures
        byte_count(a + b) == byte_count(a) + byte_count(b),
        a.len() == 1 ==> byte_count(a) == cell_bytes(a[0]).len(),
    decreases b.len(),
{
    if a.len() == 1 {
        assert(a.drop_last() =~= Seq::empty());
        assert(byte_count(a.drop_last()) == 0);
    }
    if b.len() == 0 {
        assert(a + b =~= a);
    } else {
        law_bytes_add_up(a, b.drop_last());
        assert((a + b).drop_last() =~= a + b.drop_last());
        assert((a + b).last() == b.last());
    }
}

} // verus!
