//! Cells: single values of declared fields, as tables are exported and
//! imported column by column.

use vstd::prelude::*;
use vstd::string::StringExecFns;

use crate::bytes::{be_vec, read_be, slice_from, slice_to, to_vec};
use crate::field::{FieldDesc, FieldType};
use crate::payload::{push_cold, start_payload};
use crate::text::utf8_string;
use crate::wrappers::offset::{offset_decode, offset_encode};
use crate::wrappers::quant::{wire_to_be_bytes, Quant};
use crate::wrappers::varint::VarIntEnc;

verus! {

/// The value of a declared field in one row.
#[derive(Debug, PartialEq)]
pub enum Cell {
    /// An unsigned number.
    UInt(u64),
    /// A signed number.
    Int(i64),
    /// A fixed-point number, times ten to the power of its places.
    Fixed(i64),
    /// A double, given by its bits.
    Float(u64),
    /// Raw bytes.
    Bytes(Vec<u8>),
    /// Text.
    Str(String),
}

/// What a cell says.
#[verifier::ext_equal]
pub enum CellView {
    UInt(u64),
    Int(i64),
    Fixed(i64),
    Float(u64),
    Bytes(Seq<u8>),
    Str(Seq<char>),
}

impl View for Cell {
    type V = CellView;

    open spec fn view(&self) -> CellView {
        match self {
            Cell::UInt(v) => CellView::UInt(*v),
            Cell::Int(v) => CellView::Int(*v),
            Cell::Fixed(v) => CellView::Fixed(*v),
            Cell::Float(v) => CellView::Float(*v),
            Cell::Bytes(b) => CellView::Bytes(b@),
            Cell::Str(s) => CellView::Str(s@),
        }
    }
}

/// What a list of cells says.
pub open spec fn cell_views(v: Seq<Cell>) -> Seq<CellView> {
    v.map_values(|c: Cell| c@)
}

/// What a table of cells says.
pub open spec fn cell_table(v: Seq<Vec<Cell>>) -> Seq<Seq<CellView>> {
    v.map_values(|r: Vec<Cell>| cell_views(r@))
}

/// The width that a kind of field has; 0 for fields of variable length, and
/// any for fixed runs of bytes.
pub open spec fn width_fits(f: crate::field::FieldView) -> bool {
    match f.ty {
        FieldType::U8 => f.width == 1,
        FieldType::U16 => f.width == 2,
        FieldType::U32 => f.width == 4,
        FieldType::U64 => f.width == 8,
        FieldType::FixedBytes => f.width > 0,
        FieldType::Str => f.width == 0,
        FieldType::Bytes => f.width == 0,
        FieldType::VarInt => f.width == 0,
        FieldType::Quant(_) => f.width == 8,
        FieldType::Enum => f.width == 1,
        FieldType::Offset(_) => f.width == 4,
    }
}

/// The signed number whose two's complement this is.
pub open spec fn signed(n: nat) -> int {
    if n >= 0x8000_0000_0000_0000 {
        n - 0x1_0000_0000_0000_0000
    } else {
        n as int
    }
}

/// The cell that stored bytes of a field hold. `None` if they cannot be
/// those of such a field.
pub open spec fn cell_of(ty: FieldType, raw: Seq<u8>) -> Option<CellView> {
    let n = crate::bytes::be_value(raw);
    match ty {
        FieldType::U8 => if raw.len() == 1 {
            Some(CellView::UInt(n as u64))
        } else {
            None
        },
        FieldType::U16 => if raw.len() == 2 {
            Some(CellView::UInt(n as u64))
        } else {
            None
        },
        FieldType::U32 => if raw.len() == 4 {
            Some(CellView::UInt(n as u64))
        } else {
            None
        },
        FieldType::U64 => if raw.len() == 8 {
            Some(CellView::UInt(n as u64))
        } else {
            None
        },
        FieldType::FixedBytes => Some(CellView::Bytes(raw)),
        FieldType::Bytes => Some(CellView::Bytes(raw)),
        FieldType::Str => if vstd::utf8::valid_utf8(raw) {
            Some(CellView::Str(vstd::utf8::decode_utf8(raw)))
        } else {
            None
        },
        FieldType::VarInt => match crate::wrappers::varint::leb_width(raw) {
            Some(w) => if w <= 10 {
                Some(
                    CellView::UInt(
                        (crate::wrappers::varint::leb_value(raw) % 0x1_0000_0000_0000_0000) as u64,
                    ),
                )
            } else {
                None
            },
            None => None,
        },
        FieldType::Quant(_) => if raw.len() == 8 {
            Some(CellView::Fixed(signed(n) as i64))
        } else {
            None
        },
        FieldType::Enum => if raw.len() == 1 {
            Some(CellView::UInt(n as u64))
        } else {
            None
        },
        FieldType::Offset(base) => if raw.len() == 4 && base + n <= i64::MAX {
            Some(CellView::Int((base + n) as i64))
        } else {
            None
        },
    }
}

/// The cell that stored bytes of a field hold.
pub fn read_cell(ty: FieldType, raw: &[u8]) -> (r: Option<Cell>)
    ensures
        match r {
            Some(c) => cell_of(ty, raw@) == Some(c@),
            None => cell_of(ty, raw@) is None,
        },
{
    proof {
        crate::bytes::lemma_pow256_small();
        crate::bytes::lemma_be_value_round_trip(raw@);
    }
    match ty {
        FieldType::U8 | FieldType::Enum => if raw.len() == 1 {
            Some(Cell::UInt(read_be(raw)))
        } else {
            None
        },
        FieldType::U16 => if raw.len() == 2 {
            Some(Cell::UInt(read_be(raw)))
        } else {
            None
        },
        FieldType::U32 => if raw.len() == 4 {
            Some(Cell::UInt(read_be(raw)))
        } else {
            None
        },
        FieldType::U64 => if raw.len() == 8 {
            Some(Cell::UInt(read_be(raw)))
        } else {
            None
        },
        FieldType::FixedBytes | FieldType::Bytes => Some(Cell::Bytes(to_vec(raw))),
        FieldType::Str => match utf8_string(raw) {
            Some(s) => Some(Cell::Str(s)),
            None => None,
        },
        FieldType::VarInt => match read_leb(raw) {
            Some(v) => Some(Cell::UInt(v)),
            None => None,
        },
        FieldType::Quant(_) => if raw.len() == 8 {
            let q: Quant<0> = Quant::decode(raw);
            Some(Cell::Fixed(q.wire()))
        } else {
            None
        },
        FieldType::Offset(base) => {
            if raw.len() != 4 {
                return None;
            }
            let n: u64 = read_be(raw);
            if base > 0 && n > (i64::MAX - base) as u64 {
                return None;
            }
            Some(Cell::Int(offset_decode(raw, base)))
        },
    }
}

/// The number that a field of variable width holds, if it ends within ten
/// bytes.
fn read_leb(raw: &[u8]) -> (r: Option<u64>)
    ensures
        match r {
            Some(v) => cell_of(FieldType::VarInt, raw@) == Some(CellView::UInt(v)),
            None => cell_of(FieldType::VarInt, raw@) is None,
        },
{
    let mut i: usize = 0;
    proof {
        assert(raw@.skip(0) =~= raw@);
    }
    while i < raw.len()
        invariant
            i <= raw@.len(),
            match crate::wrappers::varint::leb_width(raw@.skip(i as int)) {
                Some(w) => crate::wrappers::varint::leb_width(raw@) == Some(i as nat + w),
                None => crate::wrappers::varint::leb_width(raw@) is None,
            },
        decreases raw@.len() - i,
    {
        let ghost rest = raw@.skip(i as int);
        assert(rest.drop_first() =~= raw@.skip(i + 1));
        if raw[i] < 0x80 {
            if i >= 10 {
                return None;
            }
            proof {
                crate::wrappers::varint::lemma_max_width();
            }
            let (v, _w): (u64, usize) = u64::varint_decode(raw);
            return Some(v);
        }
        i = i + 1;
    }
    None
}

/// The stored bytes of a cell in a field. `None` if the field cannot hold
/// it.
pub open spec fn wire_of(f: crate::field::FieldView, c: CellView) -> Option<Seq<u8>> {
    match (f.ty, c) {
        (FieldType::U8, CellView::UInt(v)) => if v < 0x100 {
            Some(crate::bytes::be_bytes(v as nat, 1))
        } else {
            None
        },
        (FieldType::Enum, CellView::UInt(v)) => if v < 0x100 {
            Some(crate::bytes::be_bytes(v as nat, 1))
        } else {
            None
        },
        (FieldType::U16, CellView::UInt(v)) => if v < 0x1_0000 {
            Some(crate::bytes::be_bytes(v as nat, 2))
        } else {
            None
        },
        (FieldType::U32, CellView::UInt(v)) => if v < 0x1_0000_0000 {
            Some(crate::bytes::be_bytes(v as nat, 4))
        } else {
            None
        },
        (FieldType::U64, CellView::UInt(v)) => Some(crate::bytes::be_bytes(v as nat, 8)),
        (FieldType::FixedBytes, CellView::Bytes(b)) => if b.len() == f.width {
            Some(b)
        } else {
            None
        },
        (FieldType::Bytes, CellView::Bytes(b)) => Some(b),
        (FieldType::Str, CellView::Str(s)) => Some(vstd::utf8::encode_utf8(s)),
        (FieldType::VarInt, CellView::UInt(v)) => Some(
            crate::wrappers::varint::leb_bytes(v as nat),
        ),
        (FieldType::Quant(_), CellView::Fixed(w)) => Some(
            crate::bytes::be_bytes(crate::wrappers::quant::two_complement(w), 8),
        ),
        (FieldType::Offset(base), CellView::Int(v)) => if 0 <= v - base <= u32::MAX {
            Some(crate::bytes::be_bytes((v - base) as nat, 4))
        } else {
            None
        },
        _ => None,
    }
}

/// The stored bytes of a cell in a field.
pub fn wire_bytes(f: &FieldDesc, cell: &Cell) -> (r: Option<Vec<u8>>)
    ensures
        match r {
            Some(b) => wire_of(f@, cell@) == Some(b@),
            None => wire_of(f@, cell@) is None,
        },
{
    match (f.ty, cell) {
        (FieldType::U8, Cell::UInt(v)) => if *v < 0x100 {
            Some(be_vec(*v, 1))
        } else {
            None
        },
        (FieldType::Enum, Cell::UInt(v)) => if *v < 0x100 {
            Some(be_vec(*v, 1))
        } else {
            None
        },
        (FieldType::U16, Cell::UInt(v)) => if *v < 0x1_0000 {
            Some(be_vec(*v, 2))
        } else {
            None
        },
        (FieldType::U32, Cell::UInt(v)) => if *v < 0x1_0000_0000 {
            Some(be_vec(*v, 4))
        } else {
            None
        },
        (FieldType::U64, Cell::UInt(v)) => Some(be_vec(*v, 8)),
        (FieldType::FixedBytes, Cell::Bytes(b)) => if b.len() == f.width {
            Some(to_vec(b.as_slice()))
        } else {
            None
        },
        (FieldType::Bytes, Cell::Bytes(b)) => Some(to_vec(b.as_slice())),
        (FieldType::Str, Cell::Str(s)) => Some(to_vec(s.as_str().as_bytes())),
        (FieldType::VarInt, Cell::UInt(v)) => {
            let mut buf: Vec<u8> = Vec::new();
            (*v).varint_encode(&mut buf);
            assert(buf@ =~= crate::wrappers::varint::leb_bytes(*v as nat));
            Some(buf)
        },
        (FieldType::Quant(_), Cell::Fixed(w)) => Some(wire_to_be_bytes(*w)),
        (FieldType::Offset(base), Cell::Int(v)) => {
            if *v < base {
                return None;
            }
            if base < 0 && *v >= 0 {
                // The distance may leave the range of a signed number.
                let d: u64 = *v as u64 + ((-(base + 1)) as u64) + 1;
                if d > 0xFFFF_FFFF {
                    return None;
                }
            } else if *v - base > 0xFFFF_FFFF {
                return None;
            }
            Some(offset_encode(*v, base))
        },
        _ => None,
    }
}

/// What was written into a field reads back as it was, with the width of the
/// field where it has one.
pub proof fn law_cell_round_trip(f: crate::field::FieldView, c: CellView)
    requires
        wire_of(f, c) is Some,
        width_fits(f),
    ensures
        cell_of(f.ty, wire_of(f, c)->0) == Some(c),
        f.width > 0 ==> wire_of(f, c)->0.len() == f.width,
{
    broadcast use vstd::utf8::encode_utf8_decode_utf8, vstd::utf8::encode_utf8_valid_utf8;

    let raw = wire_of(f, c)->0;
    crate::bytes::lemma_pow256_small();
    match (f.ty, c) {
        (FieldType::VarInt, CellView::UInt(v)) => {
            crate::wrappers::varint::law_leb_round_trip(v as nat, Seq::empty());
            assert(raw + Seq::<u8>::empty() =~= raw);
            v.number_fits();
            crate::wrappers::varint::lemma_max_width();
        },
        (FieldType::Quant(_), CellView::Fixed(w)) => {
            let u = crate::wrappers::quant::two_complement(w);
            crate::bytes::lemma_be_bytes_len(u, 8);
            crate::bytes::lemma_be_round_trip(u, 8);
        },
        (FieldType::Offset(base), CellView::Int(v)) => {
            crate::bytes::lemma_be_bytes_len((v - base) as nat, 4);
            crate::bytes::lemma_be_round_trip((v - base) as nat, 4);
        },
        (FieldType::U16, CellView::UInt(v)) => {
            crate::bytes::lemma_be_bytes_len(v as nat, 2);
            crate::bytes::lemma_be_round_trip(v as nat, 2);
        },
        (FieldType::U32, CellView::UInt(v)) => {
            crate::bytes::lemma_be_bytes_len(v as nat, 4);
            crate::bytes::lemma_be_round_trip(v as nat, 4);
        },
        (FieldType::U64, CellView::UInt(v)) => {
            crate::bytes::lemma_be_bytes_len(v as nat, 8);
            crate::bytes::lemma_be_round_trip(v as nat, 8);
        },
        (_, CellView::UInt(v)) => {
            crate::bytes::lemma_be_bytes_len(v as nat, 1);
            crate::bytes::lemma_be_round_trip(v as nat, 1);
        },
        _ => {},
    }
}

/// How many of the fields have variable length.
pub open spec fn cold_count(fields: Seq<crate::field::FieldView>) -> nat
    decreases fields.len(),
{
    if fields.len() == 0 {
        0
    } else {
        cold_count(fields.drop_last()) + (if fields.last().width == 0 {
            1nat
        } else {
            0nat
        })
    }
}

/// The stored bytes of a field of a key.
pub open spec fn key_piece(
    fields: Seq<crate::field::FieldView>,
    key: Seq<u8>,
    i: int,
) -> Seq<u8> {
    let off = crate::field::total_width(fields.take(i)) as int;
    key.subrange(off, off + fields[i].width)
}

/// The stored bytes of a field of a payload: at a fixed place for a field of
/// fixed width; otherwise in a frame behind them, one frame per field of
/// variable length, in declaration order.
pub open spec fn payload_piece(
    fields: Seq<crate::field::FieldView>,
    hot_width: nat,
    payload: Seq<u8>,
    i: int,
) -> Seq<u8> {
    if fields[i].width > 0 {
        let off = 3 + crate::field::total_width(fields.take(i)) as int;
        payload.subrange(off, off + fields[i].width)
    } else {
        crate::payload::whole_frames(
            payload.skip(3 + hot_width as int),
        )[cold_count(fields.take(i)) as int].1
    }
}

/// The cells of a row: those of the key, then those of the payload.
pub open spec fn row_cell(
    key_fields: Seq<crate::field::FieldView>,
    row_fields: Seq<crate::field::FieldView>,
    hot_width: nat,
    key: Seq<u8>,
    payload: Seq<u8>,
    c: int,
) -> Option<CellView> {
    if c < key_fields.len() {
        cell_of(key_fields[c].ty, key_piece(key_fields, key, c))
    } else {
        let i = c - key_fields.len();
        cell_of(row_fields[i].ty, payload_piece(row_fields, hot_width, payload, i))
    }
}

/// A row has all the bytes that its declaration promises.
pub open spec fn row_framed(
    key_fields: Seq<crate::field::FieldView>,
    row_fields: Seq<crate::field::FieldView>,
    hot_width: nat,
    key: Seq<u8>,
    payload: Seq<u8>,
) -> bool {
    &&& crate::field::total_width(key_fields) <= key.len()
    &&& crate::field::total_width(row_fields) <= hot_width
    &&& 3 + hot_width <= payload.len()
    &&& cold_count(row_fields) <= crate::payload::whole_frames(
        payload.skip(3 + hot_width as int),
    ).len()
}

/// A row has all the bytes that its declaration promises, and each of its
/// cells can be read.
pub open spec fn row_whole(
    key_fields: Seq<crate::field::FieldView>,
    row_fields: Seq<crate::field::FieldView>,
    hot_width: nat,
    key: Seq<u8>,
    payload: Seq<u8>,
) -> bool {
    &&& row_framed(key_fields, row_fields, hot_width, key, payload)
    &&& forall|c: int|
        0 <= c < key_fields.len() + row_fields.len() ==> #[trigger] row_cell(
            key_fields,
            row_fields,
            hot_width,
            key,
            payload,
            c,
        ) is Some
}

/// The value of the frame at a place in a list of frames.
fn frame_at(cold: &[u8], at: usize) -> (r: &[u8])
    requires
        at < crate::payload::whole_frames(cold@).len(),
    ensures
        r@ == crate::payload::whole_frames(cold@)[at as int].1,
{
    let ghost all = crate::payload::whole_frames(cold@);
    let mut off: usize = 0;
    let mut left: usize = at;
    let n: usize = cold.len();
    proof {
        assert(cold@.skip(0) =~= cold@);
        assert(all.skip(0) =~= all);
    }
    while left > 0
        invariant
            n == cold@.len(),
            off <= n,
            left <= at < all.len(),
            crate::payload::whole_frames(cold@.skip(off as int)) == all.skip(at - left),
        decreases left,
    {
        let rest = slice_from(cold, off);
        proof {
            assert(rest@ =~= cold@.skip(off as int));
            assert(all.skip(at - left).len() > 0);
        }
        let len = slice_to(slice_from(rest, 1), 4);
        assert(len@ =~= rest@.subrange(1, 5));
        let size: usize = read_be(len) as usize;
        proof {
            let tail = crate::payload::whole_frames(rest@.skip(5 + size as int));
            let here = all.skip(at - left);
            assert(here =~= seq![here[0]] + tail);
            assert(tail =~= here.skip(1));
            assert(here.skip(1) =~= all.skip(at - left + 1));
            assert(rest@.skip(5 + size as int) =~= cold@.skip(off + 5 + size as int));
        }
        off = off + 5 + size;
        left = left - 1;
    }
    let rest = slice_from(cold, off);
    proof {
        assert(rest@ =~= cold@.skip(off as int));
        assert(all.skip(at as int).len() > 0);
    }
    let len = slice_to(slice_from(rest, 1), 4);
    assert(len@ =~= rest@.subrange(1, 5));
    let size: usize = read_be(len) as usize;
    let value = slice_to(slice_from(rest, 5), size);
    proof {
        let here = all.skip(at as int);
        assert(value@ =~= rest@.subrange(5, 5 + size as int));
        assert(here[0] == all[at as int]);
    }
    value
}

/// Width of the first fields; they take no more than all.
fn width_before(fields: &Vec<FieldDesc>, n: usize) -> (r: usize)
    requires
        n <= fields@.len(),
        crate::field::total_width(crate::field::field_list(fields@)) <= usize::MAX,
    ensures
        r == crate::field::total_width(crate::field::field_list(fields@).take(n as int)),
{
    let ghost all = crate::field::field_list(fields@);
    let mut sum: usize = 0;
    let mut i: usize = 0;
    assert(all.take(0) =~= Seq::empty());
    while i < n
        invariant
            i <= n <= fields@.len() == all.len(),
            all == crate::field::field_list(fields@),
            crate::field::total_width(all) <= usize::MAX,
            sum == crate::field::total_width(all.take(i as int)),
        decreases n - i,
    {
        proof {
            crate::field::lemma_total_width_take(all, i + 1);
            assert(all.take(i + 1).drop_last() =~= all.take(i as int));
            assert(all.take(i + 1).last() == all[i as int]);
        }
        sum = sum + fields[i].width;
        i = i + 1;
    }
    sum
}

/// How many of the first fields have variable length.
fn cold_before(fields: &Vec<FieldDesc>, n: usize) -> (r: usize)
    requires
        n <= fields@.len(),
    ensures
        r == cold_count(crate::field::field_list(fields@).take(n as int)),
        r <= n,
{
    let ghost all = crate::field::field_list(fields@);
    let mut count: usize = 0;
    let mut i: usize = 0;
    assert(all.take(0) =~= Seq::empty());
    while i < n
        invariant
            i <= n <= fields@.len() == all.len(),
            all == crate::field::field_list(fields@),
            count == cold_count(all.take(i as int)),
            count <= i,
        decreases n - i,
    {
        proof {
            assert(all.take(i + 1).drop_last() =~= all.take(i as int));
            assert(all.take(i + 1).last() == all[i as int]);
        }
        if fields[i].width == 0 {
            count = count + 1;
        }
        i = i + 1;
    }
    count
}

/// More fields have no fewer of variable length.
proof fn lemma_cold_count_grow(fields: Seq<crate::field::FieldView>, n: int)
    requires
        0 <= n <= fields.len(),
    ensures
        cold_count(fields.take(n)) <= cold_count(fields),
    decreases fields.len(),
{
    if n == fields.len() {
        assert(fields.take(n) =~= fields);
    } else {
        assert(fields.drop_last().take(n) =~= fields.take(n));
        lemma_cold_count_grow(fields.drop_last(), n);
    }
}

/// The cell of a row in a column, if it can be read.
fn find_cell(
    key_fields: &Vec<FieldDesc>,
    row_fields: &Vec<FieldDesc>,
    hot_width: usize,
    key: &[u8],
    payload: &[u8],
    c: usize,
) -> (r: Option<Cell>)
    requires
        c < key_fields@.len() + row_fields@.len(),
        row_framed(
            crate::field::field_list(key_fields@),
            crate::field::field_list(row_fields@),
            hot_width as nat,
            key@,
            payload@,
        ),
    ensures
        row_cell(
            crate::field::field_list(key_fields@),
            crate::field::field_list(row_fields@),
            hot_width as nat,
            key@,
            payload@,
            c as int,
        ) == (match r {
            Some(cell) => Some(cell@),
            None => None,
        }),
{
    let ghost kf = crate::field::field_list(key_fields@);
    let ghost rf = crate::field::field_list(row_fields@);
    let key_len: usize = key.len();
    let payload_len: usize = payload.len();
    let found: Option<Cell>;
    if c < key_fields.len() {
        proof {
            crate::field::lemma_total_width_take(kf, c + 1);
            assert(kf.take(c + 1).drop_last() =~= kf.take(c as int));
            assert(kf.take(c + 1).last() == kf[c as int]);
        }
        let off: usize = width_before(key_fields, c);
        let f = key_fields[c];
        let piece = slice_to(slice_from(key, off), f.width);
        assert(piece@ =~= key_piece(kf, key@, c as int));
        found = read_cell(f.ty, piece);
    } else {
        let i: usize = c - key_fields.len();
        let f = row_fields[i];
        if f.width > 0 {
            proof {
                crate::field::lemma_total_width_take(rf, i + 1);
                assert(rf.take(i + 1).drop_last() =~= rf.take(i as int));
                assert(rf.take(i + 1).last() == rf[i as int]);
            }
            let off: usize = 3 + width_before(row_fields, i);
            let piece = slice_to(slice_from(payload, off), f.width);
            assert(piece@ =~= payload_piece(rf, hot_width as nat, payload@, i as int));
            found = read_cell(f.ty, piece);
        } else {
            proof {
                lemma_cold_count_grow(rf, i + 1);
                assert(rf.take(i + 1).drop_last() =~= rf.take(i as int));
                assert(rf.take(i + 1).last() == rf[i as int]);
            }
            let cold = slice_from(payload, 3 + hot_width);
            let at: usize = cold_before(row_fields, i);
            let piece = frame_at(cold, at);
            assert(piece@ == payload_piece(rf, hot_width as nat, payload@, i as int));
            found = read_cell(f.ty, piece);
        }
    }
    found
}

/// The cell of a row in a column.
pub fn cell_at(
    key_fields: &Vec<FieldDesc>,
    row_fields: &Vec<FieldDesc>,
    hot_width: usize,
    key: &[u8],
    payload: &[u8],
    c: usize,
) -> (r: Cell)
    requires
        c < key_fields@.len() + row_fields@.len(),
        row_whole(
            crate::field::field_list(key_fields@),
            crate::field::field_list(row_fields@),
            hot_width as nat,
            key@,
            payload@,
        ),
    ensures
        row_cell(
            crate::field::field_list(key_fields@),
            crate::field::field_list(row_fields@),
            hot_width as nat,
            key@,
            payload@,
            c as int,
        ) == Some(r@),
{
    assert(row_cell(
        crate::field::field_list(key_fields@),
        crate::field::field_list(row_fields@),
        hot_width as nat,
        key@,
        payload@,
        c as int,
    ) is Some);
    match find_cell(key_fields, row_fields, hot_width, key, payload, c) {
        Some(cell) => cell,
        None => vstd::pervasive::unreached(),
    }
}

/// Whether the fixed-width fields take no more than `limit` bytes.
fn width_within(fields: &Vec<FieldDesc>, limit: usize) -> (r: bool)
    ensures
        r == (crate::field::total_width(crate::field::field_list(fields@)) <= limit),
{
    let ghost all = crate::field::field_list(fields@);
    let mut left: usize = limit;
    let mut i: usize = 0;
    assert(all.take(0) =~= Seq::empty());
    while i < fields.len()
        invariant
            i <= fields@.len() == all.len(),
            all == crate::field::field_list(fields@),
            left <= limit,
            limit - left == crate::field::total_width(all.take(i as int)),
        decreases fields@.len() - i,
    {
        proof {
            crate::field::lemma_total_width_take(all, i + 1);
            assert(all.take(i + 1).drop_last() =~= all.take(i as int));
            assert(all.take(i + 1).last() == all[i as int]);
        }
        if fields[i].width > left {
            return false;
        }
        left = left - fields[i].width;
        i = i + 1;
    }
    assert(all.take(i as int) =~= all);
    true
}

/// How many whole frames stand at the front.
fn count_frames(cold: &[u8]) -> (r: usize)
    ensures
        r == crate::payload::whole_frames(cold@).len(),
    decreases cold@.len(),
{
    if cold.len() < 5 {
        return 0;
    }
    let len = slice_to(slice_from(cold, 1), 4);
    assert(len@ =~= cold@.subrange(1, 5));
    let size: u64 = read_be(len);
    if size > (cold.len() - 5) as u64 {
        return 0;
    }
    let rest = slice_from(cold, 5 + size as usize);
    assert(rest@ =~= cold@.skip(5 + size as int));
    proof {
        lemma_frame_count(rest@);
    }
    count_frames(rest) + 1
}

/// There are no more whole frames than bytes.
proof fn lemma_frame_count(cold: Seq<u8>)
    ensures
        crate::payload::whole_frames(cold).len() <= cold.len(),
    decreases cold.len(),
{
    if cold.len() >= 5 && 5 + crate::bytes::be_value(cold.subrange(1, 5)) <= cold.len() {
        lemma_frame_count(cold.skip(5 + crate::bytes::be_value(cold.subrange(1, 5)) as int));
    }
}

/// Whether a row has all the bytes that its declaration promises, and each
/// of its cells can be read.
pub fn row_is_whole(
    key_fields: &Vec<FieldDesc>,
    row_fields: &Vec<FieldDesc>,
    hot_width: usize,
    key: &[u8],
    payload: &[u8],
) -> (r: bool)
    requires
        key_fields@.len() + row_fields@.len() <= usize::MAX,
    ensures
        r == row_whole(
            crate::field::field_list(key_fields@),
            crate::field::field_list(row_fields@),
            hot_width as nat,
            key@,
            payload@,
        ),
{
    let ghost kf = crate::field::field_list(key_fields@);
    let ghost rf = crate::field::field_list(row_fields@);
    if !width_within(key_fields, key.len()) || !width_within(row_fields, hot_width)
        || payload.len() < 3 || payload.len() - 3 < hot_width {
        return false;
    }
    let cold = slice_from(payload, 3 + hot_width);
    assert(cold@ =~= payload@.skip(3 + hot_width as int));
    assert(rf.take(rf.len() as int) =~= rf);
    if cold_before(row_fields, row_fields.len()) > count_frames(cold) {
        return false;
    }
    let total: usize = key_fields.len() + row_fields.len();
    let mut c: usize = 0;
    while c < total
        invariant
            c <= total == key_fields@.len() + row_fields@.len(),
            kf == crate::field::field_list(key_fields@),
            rf == crate::field::field_list(row_fields@),
            row_framed(kf, rf, hot_width as nat, key@, payload@),
            forall|j: int|
                0 <= j < c ==> #[trigger] row_cell(
                    kf,
                    rf,
                    hot_width as nat,
                    key@,
                    payload@,
                    j,
                ) is Some,
        decreases total - c,
    {
        if find_cell(key_fields, row_fields, hot_width, key, payload, c).is_none() {
            assert(row_cell(kf, rf, hot_width as nat, key@, payload@, c as int) is None);
            return false;
        }
        c = c + 1;
    }
    true
}

/// The stored form of a key, given its cells. `None` if a field cannot hold
/// its cell.
pub open spec fn key_wire(
    fields: Seq<crate::field::FieldView>,
    cells: Seq<CellView>,
) -> Option<Seq<u8>>
    decreases fields.len(),
{
    if fields.len() == 0 {
        Some(Seq::empty())
    } else {
        match (key_wire(fields.drop_last(), cells), wire_of(fields.last(), cells[fields.len() - 1])) {
            (Some(before), Some(b)) => Some(before + b),
            _ => None,
        }
    }
}

/// The fixed-width part of a payload, given its cells.
pub open spec fn hot_wire(
    fields: Seq<crate::field::FieldView>,
    cells: Seq<CellView>,
) -> Option<Seq<u8>>
    decreases fields.len(),
{
    if fields.len() == 0 {
        Some(Seq::empty())
    } else {
        match (hot_wire(fields.drop_last(), cells), wire_of(fields.last(), cells[fields.len() - 1])) {
            (Some(before), Some(b)) => Some(
                if fields.last().width > 0 {
                    before + b
                } else {
                    before
                },
            ),
            _ => None,
        }
    }
}

/// The fields of variable length of a payload, given its cells. The tag of a
/// field is the low byte of its place in the declaration.
pub open spec fn cold_wire(
    fields: Seq<crate::field::FieldView>,
    cells: Seq<CellView>,
) -> Seq<(u8, Seq<u8>)>
    decreases fields.len(),
{
    if fields.len() == 0 {
        Seq::empty()
    } else {
        let before = cold_wire(fields.drop_last(), cells);
        if fields.last().width == 0 {
            before.push(
                (
                    ((fields.len() - 1) % 0x100) as u8,
                    wire_of(fields.last(), cells[fields.len() - 1])->0,
                ),
            )
        } else {
            before
        }
    }
}

/// Every body fits its length field.
pub open spec fn cold_fits(cold: Seq<(u8, Seq<u8>)>) -> bool {
    forall|i: int| 0 <= i < cold.len() ==> (#[trigger] cold[i]).1.len() <= u32::MAX
}

/// The stored form of a key, given its cells.
pub fn key_from_cells(fields: &Vec<FieldDesc>, cells: &[Cell]) -> (r: Option<Vec<u8>>)
    requires
        cells@.len() >= fields@.len(),
    ensures
        match r {
            Some(b) => key_wire(crate::field::field_list(fields@), cell_views(cells@)) == Some(b@),
            None => key_wire(crate::field::field_list(fields@), cell_views(cells@)) is None,
        },
{
    let ghost all = crate::field::field_list(fields@);
    let ghost cv = cell_views(cells@);
    let mut out: Vec<u8> = Vec::new();
    let mut i: usize = 0;
    proof {
        assert(all.take(0) =~= Seq::empty());
        assert(out@ =~= Seq::empty());
    }
    while i < fields.len()
        invariant
            i <= fields@.len() == all.len(),
            all == crate::field::field_list(fields@),
            cv == cell_views(cells@),
            cells@.len() >= fields@.len(),
            key_wire(all.take(i as int), cv) == Some(out@),
        decreases fields@.len() - i,
    {
        proof {
            assert(all.take(i + 1).drop_last() =~= all.take(i as int));
            assert(all.take(i + 1).last() == fields@[i as int]@);
            assert(cv[i as int] == cells@[i as int]@);
        }
        match wire_bytes(&fields[i], &cells[i]) {
            Some(b) => {
                out.extend_from_slice(b.as_slice());
            },
            None => {
                proof {
                    lemma_key_wire_none(all, cv, i + 1);
                }
                return None;
            },
        }
        i = i + 1;
    }
    assert(all.take(i as int) =~= all);
    Some(out)
}

proof fn lemma_key_wire_none(
    fields: Seq<crate::field::FieldView>,
    cells: Seq<CellView>,
    n: int,
)
    requires
        0 <= n <= fields.len(),
        key_wire(fields.take(n), cells) is None,
    ensures
        key_wire(fields, cells) is None,
    decreases fields.len(),
{
    if n == fields.len() {
        assert(fields.take(n) =~= fields);
    } else {
        assert(fields.drop_last().take(n) =~= fields.take(n));
        lemma_key_wire_none(fields.drop_last(), cells, n);
    }
}

proof fn lemma_hot_wire_none(
    fields: Seq<crate::field::FieldView>,
    cells: Seq<CellView>,
    n: int,
)
    requires
        0 <= n <= fields.len(),
        hot_wire(fields.take(n), cells) is None,
    ensures
        hot_wire(fields, cells) is None,
    decreases fields.len(),
{
    if n == fields.len() {
        assert(fields.take(n) =~= fields);
    } else {
        assert(fields.drop_last().take(n) =~= fields.take(n));
        lemma_hot_wire_none(fields.drop_last(), cells, n);
    }
}

/// Fields of variable length that came first stay first.
proof fn lemma_cold_wire_prefix(
    fields: Seq<crate::field::FieldView>,
    cells: Seq<CellView>,
    n: int,
)
    requires
        0 <= n <= fields.len(),
        cold_fits(cold_wire(fields, cells)),
    ensures
        cold_fits(cold_wire(fields.take(n), cells)),
    decreases fields.len(),
{
    if n == fields.len() {
        assert(fields.take(n) =~= fields);
    } else {
        assert(fields.drop_last().take(n) =~= fields.take(n));
        let init = cold_wire(fields.drop_last(), cells);
        assert forall|i: int| 0 <= i < init.len() implies (#[trigger] init[i]).1.len() <= u32::MAX by {
            assert(cold_wire(fields, cells)[i] == init[i]);
        }
        lemma_cold_wire_prefix(fields.drop_last(), cells, n);
    }
}

/// A payload, given its cells.
pub fn payload_from_cells(version: u8, fields: &Vec<FieldDesc>, cells: &[Cell]) -> (r: Option<
    Vec<u8>,
>)
    requires
        cells@.len() >= fields@.len(),
        hot_wire(crate::field::field_list(fields@), cell_views(cells@)) is Some
            ==> hot_wire(crate::field::field_list(fields@), cell_views(cells@))->0.len()
            <= u16::MAX && cold_fits(
            cold_wire(crate::field::field_list(fields@), cell_views(cells@)),
        ),
    ensures
        match hot_wire(crate::field::field_list(fields@), cell_views(cells@)) {
            Some(hot) => r is Some && r->0@ == crate::payload::payload_bytes(
                version,
                hot,
                cold_wire(crate::field::field_list(fields@), cell_views(cells@)),
            ),
            None => r is None,
        },
{
    let ghost all = crate::field::field_list(fields@);
    let ghost cv = cell_views(cells@);
    let mut hot: Vec<u8> = Vec::new();
    let mut cold: Vec<u8> = Vec::new();
    let mut i: usize = 0;
    proof {
        assert(all.take(0) =~= Seq::empty());
        assert(hot@ =~= Seq::empty());
        assert(cold@ =~= crate::payload::cold_bytes(cold_wire(all.take(0), cv)));
    }
    while i < fields.len()
        invariant
            i <= fields@.len() == all.len(),
            all == crate::field::field_list(fields@),
            cv == cell_views(cells@),
            cells@.len() >= fields@.len(),
            hot_wire(all, cv) is Some ==> cold_fits(cold_wire(all, cv)),
            hot_wire(all.take(i as int), cv) == Some(hot@),
            cold@ == crate::payload::cold_bytes(cold_wire(all.take(i as int), cv)),
        decreases fields@.len() - i,
    {
        let ghost next = all.take(i + 1);
        proof {
            assert(next.drop_last() =~= all.take(i as int));
            assert(next.last() == fields@[i as int]@);
            assert(cv[i as int] == cells@[i as int]@);
        }
        match wire_bytes(&fields[i], &cells[i]) {
            Some(b) => {
                if fields[i].width > 0 {
                    hot.extend_from_slice(b.as_slice());
                } else {
                    if b.len() > 0xFFFF_FFFF {
                        proof {
                            if hot_wire(all, cv) is Some {
                                lemma_cold_wire_prefix(all, cv, i + 1);
                                let c = cold_wire(next, cv);
                                assert(c[c.len() - 1].1 == b@);
                            }
                        }
                        return None;
                    }
                    push_cold(&mut cold, (i % 0x100) as u8, b.as_slice());
                    proof {
                        crate::payload::lemma_cold_push(
                            cold_wire(all.take(i as int), cv),
                            ((i % 0x100) as u8, b@),
                        );
                    }
                }
            },
            None => {
                proof {
                    lemma_hot_wire_none(all, cv, i + 1);
                }
                return None;
            },
        }
        i = i + 1;
    }
    assert(all.take(i as int) =~= all);
    let mut r = start_payload(version, hot.as_slice());
    r.extend_from_slice(cold.as_slice());
    Some(r)
}

/// A key that was written from cells reads back as those cells.
pub proof fn law_key_cells_round_trip(
    fields: Seq<crate::field::FieldView>,
    cells: Seq<CellView>,
    c: int,
)
    requires
        0 <= c < fields.len() <= cells.len(),
        key_wire(fields, cells) is Some,
        forall|i: int| 0 <= i < fields.len() ==> width_fits(#[trigger] fields[i]) && fields[i].width
            > 0,
    ensures
        cell_of(fields[c].ty, key_piece(fields, key_wire(fields, cells)->0, c)) == Some(cells[c]),
        key_wire(fields, cells)->0.len() == crate::field::total_width(fields),
    decreases fields.len(),
{
    let init = fields.drop_last();
    let n = fields.len() - 1;
    let before = key_wire(init, cells)->0;
    let last = wire_of(fields.last(), cells[n])->0;
    let all = key_wire(fields, cells)->0;
    assert(fields[n] == fields.last());
    law_cell_round_trip(fields.last(), cells[n]);
    assert forall|i: int| 0 <= i < init.len() implies width_fits(#[trigger] init[i])
        && init[i].width > 0 by {
        assert(init[i] == fields[i]);
    }
    lemma_key_wire_len(init, cells);
    if c == n {
        assert(fields.take(c) =~= init);
        assert(key_piece(fields, all, c) =~= last);
    } else {
        law_key_cells_round_trip(init, cells, c);
        assert(init.take(c) =~= fields.take(c));
        assert(init[c] == fields[c]);
        crate::field::lemma_total_width_take(init, c + 1);
        assert(init.take(c + 1).drop_last() =~= init.take(c));
        assert(init.take(c + 1).last() == init[c]);
        assert(key_piece(fields, all, c) =~= key_piece(init, before, c));
    }
}

/// The stored form of a key has the width of its fields.
proof fn lemma_key_wire_len(fields: Seq<crate::field::FieldView>, cells: Seq<CellView>)
    requires
        key_wire(fields, cells) is Some,
        forall|i: int| 0 <= i < fields.len() ==> width_fits(#[trigger] fields[i]) && fields[i].width
            > 0,
    ensures
        key_wire(fields, cells)->0.len() == crate::field::total_width(fields),
    decreases fields.len(),
{
    if fields.len() > 0 {
        let init = fields.drop_last();
        assert(fields[fields.len() - 1] == fields.last());
        assert forall|i: int| 0 <= i < init.len() implies width_fits(#[trigger] init[i])
            && init[i].width > 0 by {
            assert(init[i] == fields[i]);
        }
        lemma_key_wire_len(init, cells);
        law_cell_round_trip(fields.last(), cells[fields.len() - 1]);
    }
}

/// The fixed-width part of a payload has the width of its fields, and each
/// field of fixed width stands at its place.
proof fn lemma_hot_piece(
    fields: Seq<crate::field::FieldView>,
    cells: Seq<CellView>,
    c: int,
)
    requires
        fields.len() <= cells.len(),
        hot_wire(fields, cells) is Some,
        forall|i: int| 0 <= i < fields.len() ==> width_fits(#[trigger] fields[i]),
    ensures
        hot_wire(fields, cells)->0.len() == crate::field::total_width(fields),
        0 <= c < fields.len() ==> wire_of(fields[c], cells[c]) is Some,
        0 <= c < fields.len() && fields[c].width > 0 ==> {
            let off = crate::field::total_width(fields.take(c)) as int;
            &&& off + fields[c].width <= crate::field::total_width(fields)
            &&& hot_wire(fields, cells)->0.subrange(off, off + fields[c].width) == wire_of(
                fields[c],
                cells[c],
            )->0
        },
    decreases fields.len(),
{
    if fields.len() > 0 {
        let init = fields.drop_last();
        let n = fields.len() - 1;
        let before = hot_wire(init, cells)->0;
        let all = hot_wire(fields, cells)->0;
        let last = wire_of(fields.last(), cells[n])->0;
        assert(fields[n] == fields.last());
        law_cell_round_trip(fields.last(), cells[n]);
        assert forall|i: int| 0 <= i < init.len() implies width_fits(#[trigger] init[i]) by {
            assert(init[i] == fields[i]);
        }
        lemma_hot_piece(init, cells, c);
        if c == n {
            assert(fields.take(c) =~= init);
            if fields[c].width > 0 {
                assert(all.subrange(before.len() as int, all.len() as int) =~= last);
            }
        } else if 0 <= c < n {
            assert(init[c] == fields[c]);
            assert(init.take(c) =~= fields.take(c));
            let off = crate::field::total_width(fields.take(c)) as int;
            if fields[c].width > 0 {
                assert(all.subrange(off, off + fields[c].width) =~= before.subrange(
                    off,
                    off + fields[c].width,
                ));
            }
        }
    }
}

/// There is a frame for each field of variable length, in declaration order.
proof fn lemma_cold_piece(
    fields: Seq<crate::field::FieldView>,
    cells: Seq<CellView>,
    c: int,
)
    ensures
        cold_wire(fields, cells).len() == cold_count(fields),
        0 <= c < fields.len() && fields[c].width == 0 ==> {
            let at = cold_count(fields.take(c)) as int;
            &&& 0 <= at < cold_wire(fields, cells).len()
            &&& cold_wire(fields, cells)[at].1 == wire_of(fields[c], cells[c])->0
        },
    decreases fields.len(),
{
    if fields.len() > 0 {
        let init = fields.drop_last();
        let n = fields.len() - 1;
        assert(fields[n] == fields.last());
        lemma_cold_piece(init, cells, c);
        if c == n {
            assert(fields.take(c) =~= init);
        } else if 0 <= c < n {
            assert(init[c] == fields[c]);
            assert(init.take(c) =~= fields.take(c));
        }
    }
}

/// A payload that was written from cells has all the bytes that its
/// declaration promises, and reads back as those cells.
pub proof fn law_payload_cells_round_trip(
    version: u8,
    fields: Seq<crate::field::FieldView>,
    cells: Seq<CellView>,
    c: int,
)
    requires
        0 <= c < fields.len() <= cells.len(),
        hot_wire(fields, cells) is Some,
        hot_wire(fields, cells)->0.len() <= u16::MAX,
        cold_fits(cold_wire(fields, cells)),
        forall|i: int| 0 <= i < fields.len() ==> width_fits(#[trigger] fields[i]),
    ensures
        ({
            let payload = crate::payload::payload_bytes(
                version,
                hot_wire(fields, cells)->0,
                cold_wire(fields, cells),
            );
            let hot_width = crate::field::total_width(fields);
            &&& row_framed(Seq::empty(), fields, hot_width, Seq::empty(), payload)
            &&& cell_of(fields[c].ty, payload_piece(fields, hot_width, payload, c)) == Some(
                cells[c],
            )
        }),
{
    let hot = hot_wire(fields, cells)->0;
    let cold = cold_wire(fields, cells);
    let payload = crate::payload::payload_bytes(version, hot, cold);
    let hot_width = crate::field::total_width(fields);
    lemma_hot_piece(fields, cells, c);
    lemma_cold_piece(fields, cells, c);
    crate::payload::law_cold_round_trip(cold);
    crate::payload::lemma_whole_frames(crate::payload::cold_bytes(cold));
    crate::bytes::lemma_pow256_small();
    crate::bytes::lemma_be_bytes_len(hot.len(), 2);
    law_cell_round_trip(fields[c], cells[c]);
    assert(payload.skip(3 + hot_width as int) =~= crate::payload::cold_bytes(cold));
    assert(crate::field::total_width(Seq::empty()) == 0);
    if fields[c].width > 0 {
        let off = crate::field::total_width(fields.take(c)) as int;
        assert(payload.subrange(3 + off, 3 + off + fields[c].width) =~= hot.subrange(
            off,
            off + fields[c].width,
        ));
    }
}

/// What a cell of numbers holds is what its bytes write: the number itself,
/// the fixed-point number in two's complement, or the distance from the base.
pub proof fn law_cell_holds_number(ty: FieldType, raw: Seq<u8>)
    requires
        cell_of(ty, raw) is Some,
    ensures
        !(ty is VarInt) ==> (cell_of(ty, raw)->0 matches CellView::UInt(v)
            ==> v == crate::bytes::be_value(raw)),
        ty is VarInt ==> (cell_of(ty, raw)->0 matches CellView::UInt(v)
            ==> v == crate::wrappers::varint::leb_value(raw) % 0x1_0000_0000_0000_0000),
        cell_of(ty, raw)->0 matches CellView::Fixed(w) ==> crate::wrappers::quant::two_complement(w)
            == crate::bytes::be_value(raw),
        ty matches FieldType::Offset(base) ==> cell_of(ty, raw)->0 is Int
            && cell_of(ty, raw)->0->Int_0 - base == crate::bytes::be_value(raw),
        cell_of(ty, raw)->0 matches CellView::Bytes(b) ==> b == raw,
        cell_of(ty, raw)->0 matches CellView::Str(s) ==> vstd::utf8::encode_utf8(s) == raw,
{
    broadcast use vstd::utf8::decode_utf8_encode_utf8;

    crate::bytes::lemma_pow256_small();
    crate::bytes::lemma_be_value_round_trip(raw);
}

/// A field that is not of variable-width numbers writes what it reads back
/// as it was: reading and writing undo each other.
pub proof fn law_cell_writes_back(f: crate::field::FieldView, raw: Seq<u8>)
    requires
        width_fits(f),
        f.width > 0 ==> raw.len() == f.width,
        !(f.ty is VarInt),
        cell_of(f.ty, raw) is Some,
    ensures
        wire_of(f, cell_of(f.ty, raw)->0) == Some(raw),
{
    broadcast use vstd::utf8::decode_utf8_encode_utf8;

    crate::bytes::lemma_pow256_small();
    crate::bytes::lemma_be_value_round_trip(raw);
}

/// Bytes of the width of a field are always a cell of that field, unless
/// they are a distance that leads out of range; text has to be UTF-8.
pub proof fn law_cell_is_read(f: crate::field::FieldView, raw: Seq<u8>)
    requires
        width_fits(f),
        f.width > 0 ==> raw.len() == f.width,
    ensures
        !(f.ty is VarInt || f.ty is Offset || f.ty is Str) ==> cell_of(f.ty, raw) is Some,
        f.ty matches FieldType::Offset(base) ==> (cell_of(f.ty, raw) is Some <==> base
            + crate::bytes::be_value(raw) <= i64::MAX),
        f.ty is Str ==> (cell_of(f.ty, raw) is Some <==> vstd::utf8::valid_utf8(raw)),
        f.ty is VarInt ==> (cell_of(f.ty, raw) is Some <==> exists|n: int|
            0 <= n < 10 && n < raw.len() && #[trigger] raw[n] < 0x80),
{
    if f.ty is VarInt {
        lemma_leb_ends(raw);
    }
}

/// A number of variable width ends with the first byte below 128.
proof fn lemma_leb_ends(raw: Seq<u8>)
    ensures
        match crate::wrappers::varint::leb_width(raw) {
            Some(w) => 0 < w <= raw.len() && raw[w - 1] < 0x80 && forall|n: int|
                0 <= n < w - 1 ==> #[trigger] raw[n] >= 0x80,
            None => forall|n: int| 0 <= n < raw.len() ==> #[trigger] raw[n] >= 0x80,
        },
    decreases raw.len(),
{
    if raw.len() > 0 && raw[0] >= 0x80 {
        let rest = raw.drop_first();
        lemma_leb_ends(rest);
        match crate::wrappers::varint::leb_width(rest) {
            Some(w) => {
                assert(raw[w as int] == rest[w - 1]);
                assert forall|n: int| 0 <= n < w implies #[trigger] raw[n] >= 0x80 by {
                    if n > 0 {
                        assert(raw[n] == rest[n - 1]);
                    }
                }
            },
            None => {
                assert forall|n: int| 0 <= n < raw.len() implies #[trigger] raw[n] >= 0x80 by {
                    if n > 0 {
                        assert(raw[n] == rest[n - 1]);
                    }
                }
            },
        }
    }
}

/// A field refuses exactly the cells that it never reads: what it takes, it
/// reads back, and what it can read, it takes.
pub proof fn law_cell_is_taken(f: crate::field::FieldView, c: CellView, raw: Seq<u8>)
    requires
        width_fits(f),
        f.width > 0 ==> raw.len() == f.width,
        !(f.ty is VarInt),
    ensures
        cell_of(f.ty, raw) == Some(c) <==> wire_of(f, c) == Some(raw),
{
    if cell_of(f.ty, raw) == Some(c) {
        law_cell_writes_back(f, raw);
    }
    if wire_of(f, c) == Some(raw) {
        law_cell_round_trip(f, c);
    }
}

/// The cells that are read from a key write that key.
pub proof fn law_key_cells_write_back(
    fields: Seq<crate::field::FieldView>,
    key: Seq<u8>,
    cells: Seq<CellView>,
)
    requires
        fields.len() <= cells.len(),
        key.len() == crate::field::total_width(fields),
        forall|i: int| 0 <= i < fields.len() ==> width_fits(#[trigger] fields[i]) && fields[i].width
            > 0,
        forall|i: int|
            0 <= i < fields.len() ==> cell_of(
                (#[trigger] fields[i]).ty,
                key_piece(fields, key, i),
            ) == Some(cells[i]),
    ensures
        key_wire(fields, cells) == Some(key),
    decreases fields.len(),
{
    if fields.len() == 0 {
        assert(key =~= Seq::empty());
    } else {
        let init = fields.drop_last();
        let n = fields.len() - 1;
        let w = crate::field::total_width(init) as int;
        let front = key.take(w);
        assert(fields.take(n) =~= init);
        assert(fields[n] == fields.last());
        assert(key_piece(fields, key, n) =~= key.skip(w));
        law_cell_writes_back(fields[n], key.skip(w));
        assert forall|i: int| 0 <= i < init.len() implies width_fits(#[trigger] init[i])
            && init[i].width > 0 && cell_of(init[i].ty, key_piece(init, front, i)) == Some(
            cells[i],
        ) by {
            assert(init[i] == fields[i]);
            assert(init.take(i) =~= fields.take(i));
            crate::field::lemma_total_width_take(init, i + 1);
            assert(init.take(i + 1).drop_last() =~= init.take(i));
            assert(init.take(i + 1).last() == init[i]);
            assert(key_piece(init, front, i) =~= key_piece(fields, key, i));
        }
        law_key_cells_write_back(init, front, cells);
        assert(front + key.skip(w) =~= key);
    }
}

/// There is a frame for each field of variable length, under the tag that
/// the schema of the table tells, and the schema counts as many fields.
pub proof fn law_frames_follow_schema(
    fields: Seq<crate::field::FieldView>,
    literals: Seq<(Seq<char>, crate::field::DefaultValueConst)>,
    cells: Seq<CellView>,
    j: int,
)
    requires
        0 <= j < cold_wire(fields, cells).len(),
    ensures
        cold_wire(fields, cells).len() == crate::schema::cold_schema(fields, literals).len(),
        cold_count(fields) == crate::schema::cold_schema(fields, literals).len(),
        crate::schema::cold_schema(fields, literals)[j].tag == Some(
            cold_wire(fields, cells)[j].0,
        ),
    decreases fields.len(),
{
    lemma_cold_lens(fields, literals, cells);
    if fields.len() > 0 {
        let init = fields.drop_last();
        lemma_cold_lens(init, literals, cells);
        if j < cold_wire(init, cells).len() {
            law_frames_follow_schema(init, literals, cells, j);
        }
    }
}

proof fn lemma_cold_lens(
    fields: Seq<crate::field::FieldView>,
    literals: Seq<(Seq<char>, crate::field::DefaultValueConst)>,
    cells: Seq<CellView>,
)
    ensures
        cold_wire(fields, cells).len() == crate::schema::cold_schema(fields, literals).len(),
        cold_count(fields) == crate::schema::cold_schema(fields, literals).len(),
    decreases fields.len(),
{
    if fields.len() > 0 {
        lemma_cold_lens(fields.drop_last(), literals, cells);
    }
}

/// The bytes of a key are parted among its fields without gap or overlap,
/// in declaration order.
pub proof fn law_key_pieces_tile(fields: Seq<crate::field::FieldView>, key: Seq<u8>, i: int)
    requires
        0 <= i < fields.len(),
        key.len() == crate::field::total_width(fields),
    ensures
        key_piece(fields, key, i).len() == fields[i].width,
        key_piece(fields, key, 0) == key.take(fields[0].width as int),
        key.take(crate::field::total_width(fields.take(i)) as int) + key_piece(fields, key, i)
            == key.take(crate::field::total_width(fields.take(i + 1)) as int),
{
    crate::field::lemma_total_width_take(fields, i + 1);
    crate::field::lemma_total_width_take(fields, 1);
    assert(fields.take(i + 1).drop_last() =~= fields.take(i));
    assert(fields.take(i + 1).last() == fields[i]);
    assert(fields.take(1).drop_last() =~= Seq::empty());
    assert(fields.take(0) =~= Seq::empty());
    assert(crate::field::total_width(fields.take(0)) == 0);
    assert(crate::field::total_width(fields.take(1).drop_last()) == 0);
    assert(fields.take(1).last() == fields[0]);
    assert(key_piece(fields, key, 0) =~= key.take(fields[0].width as int));
    assert(key.take(crate::field::total_width(fields.take(i)) as int) + key_piece(fields, key, i)
        =~= key.take(crate::field::total_width(fields.take(i + 1)) as int));
}

/// The cells that are read from a payload write its fixed-width part, and
/// the values of its frames in order.
pub proof fn law_payload_cells_write_back(
    fields: Seq<crate::field::FieldView>,
    payload: Seq<u8>,
    cells: Seq<CellView>,
)
    requires
        fields.len() <= cells.len(),
        ({
            let w = crate::field::total_width(fields);
            &&& 3 + w <= payload.len()
            &&& cold_count(fields) <= crate::payload::whole_frames(payload.skip(3 + w as int)).len()
            &&& forall|i: int|
                0 <= i < fields.len() ==> cell_of(
                    (#[trigger] fields[i]).ty,
                    payload_piece(fields, w, payload, i),
                ) == Some(cells[i])
        }),
        forall|i: int|
            0 <= i < fields.len() ==> width_fits(#[trigger] fields[i]) && !(fields[i].ty is VarInt),
    ensures
        ({
            let w = crate::field::total_width(fields) as int;
            let frames = crate::payload::whole_frames(payload.skip(3 + w));
            &&& hot_wire(fields, cells) == Some(payload.subrange(3, 3 + w))
            &&& cold_wire(fields, cells).len() == cold_count(fields)
            &&& forall|j: int|
                0 <= j < cold_count(fields) ==> (#[trigger] cold_wire(fields, cells)[j]).1
                    == frames[j].1
        }),
{
    let w = crate::field::total_width(fields);
    let frames = crate::payload::whole_frames(payload.skip(3 + w as int));
    assert forall|i: int| 0 <= i < fields.len() implies #[trigger] is_written(
        fields,
        cells,
        i,
        payload_piece(fields, w, payload, i),
    ) by {
        lemma_piece_writes_back(fields, payload, cells, i);
    }
    lemma_payload_front_writes_back(fields, w, payload, cells, frames, fields.len() as int);
    assert(fields.take(fields.len() as int) =~= fields);
}

/// A field writes these bytes for its cell.
spec fn is_written(
    fields: Seq<crate::field::FieldView>,
    cells: Seq<CellView>,
    i: int,
    piece: Seq<u8>,
) -> bool {
    wire_of(fields[i], cells[i]) == Some(piece)
}

proof fn lemma_piece_writes_back(
    fields: Seq<crate::field::FieldView>,
    payload: Seq<u8>,
    cells: Seq<CellView>,
    i: int,
)
    requires
        0 <= i < fields.len() <= cells.len(),
        3 + crate::field::total_width(fields) <= payload.len(),
        cell_of(
            fields[i].ty,
            payload_piece(fields, crate::field::total_width(fields), payload, i),
        ) == Some(cells[i]),
        width_fits(fields[i]),
        !(fields[i].ty is VarInt),
    ensures
        is_written(
            fields,
            cells,
            i,
            payload_piece(fields, crate::field::total_width(fields), payload, i),
        ),
{
    let piece = payload_piece(fields, crate::field::total_width(fields), payload, i);
    crate::field::lemma_total_width_take(fields, i + 1);
    assert(fields.take(i + 1).drop_last() =~= fields.take(i));
    assert(fields.take(i + 1).last() == fields[i]);
    assert(fields[i].width > 0 ==> piece.len() == fields[i].width);
    law_cell_writes_back(fields[i], piece);
}

#[verifier::spinoff_prover]
proof fn lemma_payload_front_writes_back(
    fields: Seq<crate::field::FieldView>,
    w: nat,
    payload: Seq<u8>,
    cells: Seq<CellView>,
    frames: Seq<(u8, Seq<u8>)>,
    n: int,
)
    requires
        0 <= n <= fields.len() <= cells.len(),
        w == crate::field::total_width(fields),
        3 + w <= payload.len(),
        frames == crate::payload::whole_frames(payload.skip(3 + w as int)),
        forall|i: int|
            0 <= i < fields.len() ==> #[trigger] is_written(
                fields,
                cells,
                i,
                payload_piece(fields, w, payload, i),
            ),
    ensures
        hot_wire(fields.take(n), cells) == Some(
            payload.subrange(3, 3 + crate::field::total_width(fields.take(n)) as int),
        ),
        cold_wire(fields.take(n), cells).len() == cold_count(fields.take(n)),
        forall|j: int|
            0 <= j < cold_count(fields.take(n)) ==> (#[trigger] cold_wire(
                fields.take(n),
                cells,
            )[j]).1 == frames[j].1,
    decreases n,
{
    let front = fields.take(n);
    if n == 0 {
        assert(front =~= Seq::empty());
        assert(payload.subrange(3, 3) =~= Seq::empty());
    } else {
        let i = n - 1;
        let init = fields.take(i);
        lemma_payload_front_writes_back(fields, w, payload, cells, frames, i);
        assert(front.drop_last() =~= init);
        assert(front.last() == fields[i]);
        crate::field::lemma_total_width_take(fields, n);
        let piece = payload_piece(fields, w, payload, i);
        let off = crate::field::total_width(init) as int;
        assert(is_written(fields, cells, i, piece));
        if fields[i].width > 0 {
            assert(piece =~= payload.subrange(3 + off, 3 + off + fields[i].width));
            assert(payload.subrange(3, 3 + off) + piece =~= payload.subrange(
                3,
                3 + off + fields[i].width,
            ));
        } else {
            assert(piece == frames[cold_count(init) as int].1);
        }
    }
}

} // verus!
