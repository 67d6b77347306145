//! Dynamic fields of tables: a list of frames with four-byte lengths.
//!
//! ```text
//! ([field id][value type u8][length u32 BE][bytes])*
//! ```
//!
//! A field id below 255 takes one byte; others follow the byte 255 in two.
//! A frame whose type this reader cannot build is skipped by its length.

use vstd::prelude::*;
use vstd::string::StringExecFns;

use crate::bytes::{be_vec, push_be, read_be, slice_from, to_vec};
use crate::model::obj_dynamic::{put_id, width_of_uint, DynamicValue as DocumentValue};
use crate::model::wrappers::obj_value::ObjValueType;
use crate::text::{str_eq, str_lt, utf8_string};

verus! {

/// A dynamic value of a table.
#[derive(Debug, PartialEq)]
pub enum DynamicValue {
    UInt(u64),
    /// The bits of an IEEE 754 double.
    F64(u64),
    Str(String),
    Bytes(Vec<u8>),
    Bool(bool),
    /// Nothing stored; presence itself is the information.
    Null,
    Array(Vec<DynamicValue>),
}

/// One dynamic field: the id of its name and its value.
#[derive(Debug, PartialEq)]
pub struct DynamicField {
    pub id: u16,
    pub value: DynamicValue,
}

/// The values that a list of dynamic values holds.
pub open spec fn values_view(items: Seq<DynamicValue>) -> Seq<
    crate::model::obj_dynamic::DynView,
> {
    Seq::new(items.len(), |i: int| items[i].view())
}

impl DynamicValue {
    pub closed spec fn view(&self) -> crate::model::obj_dynamic::DynView
        decreases self,
    {
        match self {
            DynamicValue::UInt(v) => crate::model::obj_dynamic::DynView::UInt(*v as nat),
            DynamicValue::F64(v) => crate::model::obj_dynamic::DynView::F64(*v),
            DynamicValue::Str(s) => crate::model::obj_dynamic::DynView::Str(s@),
            DynamicValue::Bytes(b) => crate::model::obj_dynamic::DynView::Bytes(b@),
            DynamicValue::Bool(b) => crate::model::obj_dynamic::DynView::Bool(*b),
            DynamicValue::Null => crate::model::obj_dynamic::DynView::Null,
            DynamicValue::Array(items) => crate::model::obj_dynamic::DynView::Array(
                Seq::new(
                    items@.len(),
                    |i: int|
                        if 0 <= i < items@.len() {
                            items@[i].view()
                        } else {
                            crate::model::obj_dynamic::DynView::Null
                        },
                ),
            ),
        }
    }

    /// What each kind of value holds.
    pub broadcast proof fn lemma_view(self)
        ensures
            #[trigger] self.view() == (match self {
                DynamicValue::UInt(v) => crate::model::obj_dynamic::DynView::UInt(v as nat),
                DynamicValue::F64(v) => crate::model::obj_dynamic::DynView::F64(v),
                DynamicValue::Str(s) => crate::model::obj_dynamic::DynView::Str(s@),
                DynamicValue::Bytes(b) => crate::model::obj_dynamic::DynView::Bytes(b@),
                DynamicValue::Bool(b) => crate::model::obj_dynamic::DynView::Bool(b),
                DynamicValue::Null => crate::model::obj_dynamic::DynView::Null,
                DynamicValue::Array(items) => crate::model::obj_dynamic::DynView::Array(
                    values_view(items@),
                ),
            }),
    {
        match self {
            DynamicValue::Array(items) => {
                assert(self.view()->Array_0 =~= values_view(items@));
            },
            _ => {},
        }
    }
}

impl DynamicField {
    /// The id and the value.
    pub open spec fn view(&self) -> (u16, crate::model::obj_dynamic::DynView) {
        (self.id, self.value.view())
    }
}

/// The ids and values of a list of fields.
pub open spec fn field_views(v: Seq<DynamicField>) -> Seq<
    (u16, crate::model::obj_dynamic::DynView),
> {
    v.map_values(|f: DynamicField| f.view())
}

/// Values by name, in ascending order of the names.
#[derive(Debug, PartialEq)]
pub struct VariantMap {
    entries: Vec<(String, DynamicValue)>,
}

impl View for VariantMap {
    type V = Seq<(Seq<char>, crate::model::obj_dynamic::DynView)>;

    /// The fields in stored order.
    closed spec fn view(&self) -> Self::V {
        Seq::new(self.entries@.len(), |i: int| (self.entries@[i].0@, self.entries@[i].1.view()))
    }
}

impl VariantMap {
    /// No fields.
    pub fn new() -> (r: Self)
        ensures
            r@ == Seq::<(Seq<char>, crate::model::obj_dynamic::DynView)>::empty(),
    {
        let r = VariantMap { entries: Vec::new() };
        assert(r@ =~= Seq::empty());
        r
    }

    /// How many fields there are.
    pub fn len(&self) -> (r: usize)
        ensures
            r == self@.len(),
    {
        self.entries.len()
    }

    /// Whether there are no fields.
    pub fn is_empty(&self) -> (r: bool)
        ensures
            r == (self@.len() == 0),
    {
        self.entries.len() == 0
    }

    /// Puts `value` under `name`, replacing what was there.
    pub fn insert(&mut self, name: String, value: DynamicValue)
        ensures
            final(self)@ == crate::model::obj_dynamic::insert_field(old(self)@, name@, value.view()),
    {
        let mut at: usize = 0;
        while at < self.entries.len() && str_lt(self.entries[at].0.as_str(), name.as_str())
            invariant
                at <= self.entries@.len(),
                forall|i: int|
                    0 <= i < at ==> crate::text::name_lt((#[trigger] self@[i]).0, name@),
            decreases self.entries@.len() - at,
        {
            proof {
                assert(self@[at as int].0 == self.entries@[at as int].0@);
            }
            at = at + 1;
        }
        proof {
            if at < self.entries@.len() {
                assert(self@[at as int].0 == self.entries@[at as int].0@);
            }
            crate::model::obj_dynamic::lemma_insert_at(self@, name@, value.view(), at as int);
        }
        let ghost before = self@;
        let ghost pair = (name@, value.view());
        if at < self.entries.len() && str_eq(self.entries[at].0.as_str(), name.as_str()) {
            self.entries.set(at, (name, value));
            assert(self@ =~= before.update(at as int, pair));
        } else {
            self.entries.insert(at, (name, value));
            assert(self@ =~= before.insert(at as int, pair));
        }
    }

    /// The value under `name`.
    pub fn get(&self, name: &str) -> (r: Option<&DynamicValue>)
        ensures
            match r {
                Some(v) => crate::model::obj_dynamic::find_field(self@, name@) == Some(v.view()),
                None => crate::model::obj_dynamic::find_field(self@, name@) is None,
            },
    {
        let mut i: usize = 0;
        assert(self@.skip(0) =~= self@);
        while i < self.entries.len()
            invariant
                i <= self.entries@.len(),
                crate::model::obj_dynamic::find_field(self@, name@) == crate::model::obj_dynamic::find_field(self@.skip(i as int), name@),
            decreases self.entries@.len() - i,
        {
            proof {
                assert(self@.skip(i as int)[0] == self@[i as int]);
                assert(self@.skip(i as int).drop_first() =~= self@.skip(i + 1));
            }
            if str_eq(self.entries[i].0.as_str(), name) {
                return Some(&self.entries[i].1);
            }
            i = i + 1;
        }
        None
    }

    /// Whether there is a value under `name`.
    pub fn contains_key(&self, name: &str) -> (r: bool)
        ensures
            r == (crate::model::obj_dynamic::find_field(self@, name@) is Some),
    {
        match self.get(name) {
            Some(_) => true,
            None => false,
        }
    }

    /// The name and value of the field at position `i`.
    pub fn entry(&self, i: usize) -> (r: (&str, &DynamicValue))
        requires
            i < self@.len(),
        ensures
            r.0@ == self@[i as int].0,
            r.1.view() == self@[i as int].1,
    {
        (self.entries[i].0.as_str(), &self.entries[i].1)
    }
}

/// A copy of a value.
pub fn copy_plain(value: &DynamicValue) -> (r: DynamicValue)
    ensures
        r.view() == value.view(),
    decreases value,
{
    broadcast use DynamicValue::lemma_view;

    match value {
        DynamicValue::UInt(v) => DynamicValue::UInt(*v),
        DynamicValue::F64(v) => DynamicValue::F64(*v),
        DynamicValue::Str(s) => DynamicValue::Str(String::from_str(s.as_str())),
        DynamicValue::Bytes(b) => DynamicValue::Bytes(to_vec(b.as_slice())),
        DynamicValue::Bool(b) => DynamicValue::Bool(*b),
        DynamicValue::Null => DynamicValue::Null,
        DynamicValue::Array(items) => {
            let mut out: Vec<DynamicValue> = Vec::new();
            let mut i: usize = 0;
            while i < items.len()
                invariant
                    *value == DynamicValue::Array(*items),
                    i <= items@.len(),
                    out@.len() == i,
                    forall|j: int| 0 <= j < i ==> (#[trigger] out@[j]).view() == items@[j].view(),
                decreases items@.len() - i,
            {
                proof {
                    assert(decreases_to!(value => value->Array_0));
                    assert(decreases_to!(value->Array_0 => value->Array_0@));
                    assert(decreases_to!(items@ => items@[i as int]));
                }
                out.push(copy_plain(&items[i]));
                i = i + 1;
            }
            assert(values_view(out@) =~= values_view(items@));
            DynamicValue::Array(out)
        },
    }
}

/// The value as one of a document.
pub fn lift_value(value: &DynamicValue) -> (r: DocumentValue)
    ensures
        r.view() == value.view(),
    decreases value,
{
    broadcast use {DynamicValue::lemma_view, DocumentValue::lemma_view};

    match value {
        DynamicValue::UInt(v) => DocumentValue::UInt(*v),
        DynamicValue::F64(v) => DocumentValue::F64(*v),
        DynamicValue::Str(s) => DocumentValue::Str(String::from_str(s.as_str())),
        DynamicValue::Bytes(b) => DocumentValue::Bytes(to_vec(b.as_slice())),
        DynamicValue::Bool(b) => DocumentValue::Bool(*b),
        DynamicValue::Null => DocumentValue::Null,
        DynamicValue::Array(items) => {
            let mut out: Vec<DocumentValue> = Vec::new();
            let mut i: usize = 0;
            while i < items.len()
                invariant
                    *value == DynamicValue::Array(*items),
                    i <= items@.len(),
                    out@.len() == i,
                    forall|j: int| 0 <= j < i ==> (#[trigger] out@[j]).view() == items@[j].view(),
                decreases items@.len() - i,
            {
                proof {
                    assert(decreases_to!(value => value->Array_0));
                    assert(decreases_to!(value->Array_0 => value->Array_0@));
                    assert(decreases_to!(items@ => items@[i as int]));
                }
                out.push(lift_value(&items[i]));
                i = i + 1;
            }
            assert(crate::model::obj_dynamic::values_view(out@) =~= values_view(items@));
            DocumentValue::Array(out)
        },
    }
}

/// A value that a table's dynamic field can hold.
pub open spec fn plain(v: crate::model::obj_dynamic::DynView) -> bool
    decreases v,
{
    match v {
        crate::model::obj_dynamic::DynView::UInt(n) => n <= u64::MAX,
        crate::model::obj_dynamic::DynView::Int(_) => false,
        crate::model::obj_dynamic::DynView::Obj(_) => false,
        crate::model::obj_dynamic::DynView::Array(items) => plain_items(items),
        _ => true,
    }
}

/// Every value of the list is one that a table's dynamic field can hold.
pub open spec fn plain_items(items: Seq<crate::model::obj_dynamic::DynView>) -> bool
    decreases items,
{
    items.len() == 0 || (plain(items[0]) && plain_items(items.drop_first()))
}

/// A type, the length of a body, the body.
pub open spec fn tagged(t: ObjValueType, body: Seq<u8>) -> Seq<u8> {
    seq![crate::model::wrappers::obj_value::type_byte(t)] + crate::bytes::be_bytes(body.len(), 4)
        + body
}

/// The body of a value.
pub open spec fn value_body(v: crate::model::obj_dynamic::DynView) -> Seq<u8>
    decreases v,
{
    match v {
        crate::model::obj_dynamic::DynView::UInt(n) => crate::bytes::be_bytes(
            n,
            crate::model::obj_dynamic::uint_width(n),
        ),
        crate::model::obj_dynamic::DynView::F64(bits) => crate::bytes::be_bytes(bits as nat, 8),
        crate::model::obj_dynamic::DynView::Str(s) => vstd::utf8::encode_utf8(s),
        crate::model::obj_dynamic::DynView::Bytes(b) => b,
        crate::model::obj_dynamic::DynView::Bool(b) => seq![if b { 1u8 } else { 0u8 }],
        crate::model::obj_dynamic::DynView::Array(items) => crate::bytes::be_bytes(items.len(), 4)
            + items_bytes(items),
        _ => Seq::empty(),
    }
}

/// The elements of an array, one after another.
pub open spec fn items_bytes(items: Seq<crate::model::obj_dynamic::DynView>) -> Seq<u8>
    decreases items,
{
    if items.len() == 0 {
        Seq::empty()
    } else {
        items_bytes(items.drop_last()) + tagged(
            crate::model::obj_dynamic::value_type(items.last()),
            value_body(items.last()),
        )
    }
}

/// A frame.
pub open spec fn frame_bytes(id: u16, v: crate::model::obj_dynamic::DynView) -> Seq<u8> {
    crate::model::obj_dynamic::id_bytes(id) + tagged(
        crate::model::obj_dynamic::value_type(v),
        value_body(v),
    )
}

/// The first elements take no more bytes than all.
proof fn lemma_items_grow(items: Seq<crate::model::obj_dynamic::DynView>, n: int)
    requires
        0 <= n <= items.len(),
    ensures
        items_bytes(items.take(n)).len() <= items_bytes(items).len(),
        items_bytes(items).len() >= items.len(),
    decreases items.len(),
{
    if items.len() > 0 {
        assert(items.drop_last().take(items.drop_last().len() as int) =~= items.drop_last());
        lemma_items_grow(items.drop_last(), items.len() - 1);
    }
    if n == items.len() {
        assert(items.take(n) =~= items);
    } else {
        assert(items.drop_last().take(n) =~= items.take(n));
        lemma_items_grow(items.drop_last(), n);
    }
}

/// Appends a type, the length of a body and the body.
fn put_tagged(buf: &mut Vec<u8>, ty: ObjValueType, body: &Vec<u8>)
    requires
        body@.len() <= u32::MAX,
    ensures
        final(buf)@ == old(buf)@ + tagged(ty, body@),
{
    buf.push(ty.to_byte());
    push_be(buf, body.len() as u64, 4);
    buf.extend_from_slice(body.as_slice());
    assert(buf@ =~= old(buf)@ + tagged(ty, body@));
}

/// The type and the body of a value.
fn encode_value(value: &DynamicValue) -> (r: (ObjValueType, Vec<u8>))
    requires
        value_body(value.view()).len() <= u32::MAX,
    ensures
        r.0 == crate::model::obj_dynamic::value_type(value.view()),
        r.1@ == value_body(value.view()),
    decreases value,
{
    broadcast use DynamicValue::lemma_view;

    match value {
        DynamicValue::UInt(v) => {
            let w: usize = width_of_uint(*v);
            (ObjValueType::UInt, be_vec(*v, w))
        },
        DynamicValue::F64(bits) => (ObjValueType::F64, be_vec(*bits, 8)),
        DynamicValue::Str(s) => (ObjValueType::Str, to_vec(s.as_str().as_bytes())),
        DynamicValue::Bytes(b) => (ObjValueType::Bytes, to_vec(b.as_slice())),
        DynamicValue::Bool(b) => {
            let mut body: Vec<u8> = Vec::new();
            body.push(if *b {
                1
            } else {
                0
            });
            (ObjValueType::Bool, body)
        },
        DynamicValue::Null => (ObjValueType::Null, Vec::new()),
        DynamicValue::Array(items) => {
            let ghost all = values_view(items@);
            let mut body: Vec<u8> = be_vec(items.len() as u64, 4);
            let ghost head = body@;
            let mut i: usize = 0;
            proof {
                assert(all.take(0) =~= Seq::empty());
                assert(body@ =~= head + items_bytes(all.take(0)));
            }
            while i < items.len()
                invariant
                    *value == DynamicValue::Array(*items),
                    all == values_view(items@),
                    i <= items@.len(),
                    items_bytes(all).len() <= u32::MAX,
                    body@ == head + items_bytes(all.take(i as int)),
                decreases items@.len() - i,
            {
                let ghost next = all.take(i + 1);
                proof {
                    assert(next.drop_last() =~= all.take(i as int));
                    assert(next.last() == items@[i as int].view());
                    lemma_items_grow(all, i + 1);
                    assert(decreases_to!(value => value->Array_0));
                    assert(decreases_to!(value->Array_0 => value->Array_0@));
                    assert(decreases_to!(items@ => items@[i as int]));
                }
                let (ty, b) = encode_value(&items[i]);
                put_tagged(&mut body, ty, &b);
                assert(body@ =~= head + items_bytes(next));
                i = i + 1;
            }
            assert(all.take(i as int) =~= all);
            (ObjValueType::Array, body)
        },
    }
}

/// Appends a frame.
pub fn put_frame(buf: &mut Vec<u8>, id: u16, value: &DynamicValue)
    requires
        value_body(value.view()).len() <= u32::MAX,
    ensures
        final(buf)@ == old(buf)@ + frame_bytes(id, value.view()),
{
    put_id(buf, id);
    let (ty, body) = encode_value(value);
    put_tagged(buf, ty, &body);
    assert(buf@ =~= old(buf)@ + frame_bytes(id, value.view()));
}

/// The type of a body, and where it begins and ends.
pub open spec fn tagged_front(b: Seq<u8>) -> Option<(u8, nat, nat)> {
    if b.len() < 5 {
        None
    } else {
        let n = crate::bytes::be_value(b.subrange(1, 5));
        if 5 + n <= b.len() {
            Some((b[0], 5, 5 + n))
        } else {
            None
        }
    }
}

/// The id and the type of a frame, and where its body begins and ends.
pub open spec fn frame_front(b: Seq<u8>) -> Option<(u16, u8, nat, nat)> {
    let n: nat = if b.len() > 0 && b[0] == 0xFF {
        3
    } else {
        1
    };
    if b.len() <= n {
        None
    } else {
        let id = if n == 1 {
            b[0] as u16
        } else {
            crate::bytes::be_value(b.subrange(1, 3)) as u16
        };
        match tagged_front(b.skip(n as int)) {
            Some((ty, start, end)) => Some((id, ty, n + start, n + end)),
            None => None,
        }
    }
}

/// The types that this reader can build.
pub open spec fn readable_type(byte: u8) -> Option<ObjValueType> {
    match crate::model::wrappers::obj_value::byte_type(byte) {
        Some(ObjValueType::Int) => None,
        Some(ObjValueType::Obj) => None,
        t => t,
    }
}

/// The value that a body holds.
pub open spec fn body_value(t: ObjValueType, body: Seq<u8>) -> Option<
    crate::model::obj_dynamic::DynView,
>
    decreases body.len(), 1int,
{
    match t {
        ObjValueType::UInt => if body.len() > 8 {
            None
        } else {
            Some(crate::model::obj_dynamic::DynView::UInt(crate::bytes::be_value(body)))
        },
        ObjValueType::F64 => if body.len() != 8 {
            None
        } else {
            Some(crate::model::obj_dynamic::DynView::F64(crate::bytes::be_value(body) as u64))
        },
        ObjValueType::Str => if vstd::utf8::valid_utf8(body) {
            Some(crate::model::obj_dynamic::DynView::Str(vstd::utf8::decode_utf8(body)))
        } else {
            None
        },
        ObjValueType::Bytes => Some(crate::model::obj_dynamic::DynView::Bytes(body)),
        ObjValueType::Bool => if body.len() != 1 {
            None
        } else {
            Some(crate::model::obj_dynamic::DynView::Bool(body[0] != 0))
        },
        ObjValueType::Null => if body.len() != 0 {
            None
        } else {
            Some(crate::model::obj_dynamic::DynView::Null)
        },
        ObjValueType::Array => if body.len() < 4 {
            None
        } else {
            match read_items(body.skip(4), crate::bytes::be_value(body.take(4))) {
                Some(items) => Some(crate::model::obj_dynamic::DynView::Array(items)),
                None => None,
            }
        },
        _ => None,
    }
}

/// The first `count` elements of an array. One of a type that this reader
/// cannot build spoils the array.
pub open spec fn read_items(b: Seq<u8>, count: nat) -> Option<
    Seq<crate::model::obj_dynamic::DynView>,
>
    decreases b.len(), 0int,
{
    if count == 0 {
        Some(Seq::empty())
    } else {
        match tagged_front(b) {
            None => None,
            Some((ty, start, end)) => if 0 < start <= end <= b.len() {
                match readable_type(ty) {
                    None => None,
                    Some(t) => match body_value(t, b.subrange(start as int, end as int)) {
                        None => None,
                        Some(v) => match read_items(b.skip(end as int), (count - 1) as nat) {
                            None => None,
                            Some(rest) => Some(seq![v] + rest),
                        },
                    },
                }
            } else {
                None
            },
        }
    }
}

/// The first frame of a list.
pub open spec fn read_frame(b: Seq<u8>) -> crate::model::obj_dynamic::FrameRead {
    match frame_front(b) {
        None => crate::model::obj_dynamic::FrameRead::Malformed,
        Some((id, ty, start, end)) => match readable_type(ty) {
            None => crate::model::obj_dynamic::FrameRead::Unknown(end),
            Some(t) => match body_value(t, b.subrange(start as int, end as int)) {
                None => crate::model::obj_dynamic::FrameRead::Malformed,
                Some(v) => crate::model::obj_dynamic::FrameRead::Field(id, v, end),
            },
        },
    }
}

/// The fields of a list of frames: those of unknown types are skipped, and a
/// malformed one ends the list.
pub open spec fn read_frames(b: Seq<u8>) -> Seq<(u16, crate::model::obj_dynamic::DynView)>
    decreases b.len(),
{
    if b.len() == 0 {
        Seq::empty()
    } else {
        match read_frame(b) {
            crate::model::obj_dynamic::FrameRead::Malformed => Seq::empty(),
            crate::model::obj_dynamic::FrameRead::Unknown(n) => if 0 < n <= b.len() {
                read_frames(b.skip(n as int))
            } else {
                Seq::empty()
            },
            crate::model::obj_dynamic::FrameRead::Field(id, v, n) => if 0 < n <= b.len() {
                seq![(id, v)] + read_frames(b.skip(n as int))
            } else {
                Seq::empty()
            },
        }
    }
}

/// Why a frame could not be read.
#[derive(Debug)]
pub enum FrameErr {
    Malformed,
    UnknownType,
}

/// The type of a body, and where it begins and ends.
fn take_tagged(b: &[u8]) -> (r: Option<(u8, usize, usize)>)
    ensures
        match r {
            Some((ty, start, end)) => tagged_front(b@) == Some((ty, start as nat, end as nat)) && 0
                < start <= end <= b@.len(),
            None => tagged_front(b@) is None,
        },
{
    if b.len() < 5 {
        return None;
    }
    let len = vstd::slice::slice_subrange(b, 1, 5);
    let n: u64 = read_be(len);
    proof {
        crate::bytes::lemma_pow256_small();
        crate::bytes::lemma_be_value_round_trip(b@.subrange(1, 5));
    }
    if n > (b.len() - 5) as u64 {
        None
    } else {
        Some((b[0], 5, 5 + n as usize))
    }
}

/// The id and the type of a frame, and where its body begins and ends.
fn take_front(b: &[u8]) -> (r: Option<(u16, u8, usize, usize)>)
    ensures
        match r {
            Some((id, ty, start, end)) => frame_front(b@) == Some(
                (id, ty, start as nat, end as nat),
            ) && 0 < start <= end <= b@.len(),
            None => frame_front(b@) is None,
        },
{
    if b.len() == 0 {
        return None;
    }
    let n: usize = if b[0] == 0xFF {
        3
    } else {
        1
    };
    if b.len() <= n {
        return None;
    }
    let id: u16 = if n == 1 {
        b[0] as u16
    } else {
        let v: u64 = read_be(vstd::slice::slice_subrange(b, 1, 3));
        proof {
            crate::bytes::lemma_be_value_round_trip(b@.subrange(1, 3));
            crate::bytes::lemma_pow256_small();
        }
        v as u16
    };
    match take_tagged(slice_from(b, n)) {
        None => None,
        Some((ty, start, end)) => Some((id, ty, n + start, n + end)),
    }
}

/// The types that this reader can build.
fn known_type(byte: u8) -> (r: Option<ObjValueType>)
    ensures
        r == readable_type(byte),
{
    match ObjValueType::from_byte(byte) {
        None => None,
        Some(ty) => match ty {
            ObjValueType::Int => None,
            ObjValueType::Obj => None,
            _ => Some(ty),
        },
    }
}

/// The value that a body holds.
fn decode_value(ty: ObjValueType, body: &[u8]) -> (r: Option<DynamicValue>)
    ensures
        match r {
            Some(v) => body_value(ty, body@) == Some(v.view()),
            None => body_value(ty, body@) is None,
        },
    decreases body@.len(), 1int,
{
    broadcast use DynamicValue::lemma_view;

    match ty {
        ObjValueType::UInt => if body.len() > 8 {
            None
        } else {
            Some(DynamicValue::UInt(read_be(body)))
        },
        ObjValueType::F64 => if body.len() != 8 {
            None
        } else {
            Some(DynamicValue::F64(read_be(body)))
        },
        ObjValueType::Str => match utf8_string(body) {
            Some(s) => Some(DynamicValue::Str(s)),
            None => None,
        },
        ObjValueType::Bytes => Some(DynamicValue::Bytes(to_vec(body))),
        ObjValueType::Bool => if body.len() != 1 {
            None
        } else {
            Some(DynamicValue::Bool(body[0] != 0))
        },
        ObjValueType::Null => if body.len() != 0 {
            None
        } else {
            Some(DynamicValue::Null)
        },
        ObjValueType::Array => {
            if body.len() < 4 {
                return None;
            }
            let count = crate::bytes::slice_to(body, 4);
            assert(count@ =~= body@.take(4));
            match decode_items(slice_from(body, 4), read_be(count)) {
                Some(items) => Some(DynamicValue::Array(items)),
                None => None,
            }
        },
        _ => None,
    }
}

/// The first `count` elements of an array.
fn decode_items(b: &[u8], count: u64) -> (r: Option<Vec<DynamicValue>>)
    ensures
        match r {
            Some(items) => read_items(b@, count as nat) == Some(values_view(items@)),
            None => read_items(b@, count as nat) is None,
        },
    decreases b@.len(), 0int,
{
    let mut items: Vec<DynamicValue> = Vec::new();
    let mut left: u64 = count;
    let mut off: usize = 0;
    let n: usize = b.len();
    let ghost whole = read_items(b@, count as nat);
    proof {
        assert(b@.skip(0) =~= b@);
        assert(values_view(items@) =~= Seq::empty());
        if whole is Some {
            assert(whole->0 =~= values_view(items@) + whole->0);
        }
    }
    while left > 0
        invariant
            off <= n == b@.len(),
            left <= count,
            whole == read_items(b@, count as nat),
            match read_items(b@.skip(off as int), left as nat) {
                Some(rest) => whole == Some(values_view(items@) + rest),
                None => whole is None,
            },
        decreases left,
    {
        let rest = slice_from(b, off);
        let (ty_byte, start, end) = match take_tagged(rest) {
            None => {
                return None;
            },
            Some(t) => t,
        };
        let ty = match known_type(ty_byte) {
            None => {
                return None;
            },
            Some(ty) => ty,
        };
        let body = vstd::slice::slice_subrange(rest, start, end);
        match decode_value(ty, body) {
            None => {
                return None;
            },
            Some(v) => {
                let ghost before = values_view(items@);
                items.push(v);
                proof {
                    let tail = rest@.skip(end as int);
                    assert(tail =~= b@.skip(off + end));
                    assert(values_view(items@) =~= before.push(v.view()));
                    match read_items(tail, (left - 1) as nat) {
                        Some(more) => {
                            assert(before + (seq![v.view()] + more) =~= values_view(items@) + more);
                        },
                        None => {},
                    }
                }
                off = off + end;
                left = left - 1;
            },
        }
    }
    proof {
        assert(values_view(items@) + Seq::<crate::model::obj_dynamic::DynView>::empty()
            =~= values_view(items@));
    }
    Some(items)
}

/// The frame at an offset, which moves behind it. A frame of an unknown type
/// is passed over too.
pub fn decode_frame(bytes: &[u8], off: &mut usize) -> (r: Result<Option<DynamicField>, FrameErr>)
    requires
        *old(off) <= bytes@.len(),
    ensures
        *final(off) <= bytes@.len(),
        match r {
            Ok(f) => f is Some && read_frame(bytes@.skip(*old(off) as int))
                == crate::model::obj_dynamic::FrameRead::Field(
                f->0.id,
                f->0.value.view(),
                (*final(off) - *old(off)) as nat,
            ) && *final(off) > *old(off),
            Err(FrameErr::UnknownType) => read_frame(bytes@.skip(*old(off) as int))
                == crate::model::obj_dynamic::FrameRead::Unknown(
                (*final(off) - *old(off)) as nat,
            ) && *final(off) > *old(off),
            Err(FrameErr::Malformed) => read_frame(bytes@.skip(*old(off) as int)) is Malformed,
        },
{
    let n: usize = bytes.len();
    let rest = slice_from(bytes, *off);
    assert(rest@.len() == n - *off);
    match take_front(rest) {
        None => Err(FrameErr::Malformed),
        Some((id, ty_byte, start, end)) => {
            *off = *off + end;
            match known_type(ty_byte) {
                None => Err(FrameErr::UnknownType),
                Some(ty) => {
                    let body = vstd::slice::slice_subrange(rest, start, end);
                    match decode_value(ty, body) {
                        None => Err(FrameErr::Malformed),
                        Some(value) => Ok(Some(DynamicField { id, value })),
                    }
                },
            }
        },
    }
}

/// The fields of a list of frames: those of unknown types are skipped, and a
/// malformed one ends the list.
pub fn decode_variants(bytes: &[u8]) -> (r: Vec<DynamicField>)
    ensures
        field_views(r@) == read_frames(bytes@),
{
    let mut out: Vec<DynamicField> = Vec::new();
    let mut off: usize = 0;
    proof {
        assert(bytes@.skip(0) =~= bytes@);
        assert(field_views(out@) =~= Seq::empty());
        assert(Seq::<(u16, crate::model::obj_dynamic::DynView)>::empty() + read_frames(bytes@)
            =~= read_frames(bytes@));
    }
    while off < bytes.len()
        invariant
            off <= bytes@.len(),
            field_views(out@) + read_frames(bytes@.skip(off as int)) == read_frames(bytes@),
        decreases bytes@.len() - off,
    {
        let ghost rest = bytes@.skip(off as int);
        let ghost done = field_views(out@);
        let ghost start = off;
        match decode_frame(bytes, &mut off) {
            Ok(Some(f)) => {
                let ghost fv = f.view();
                out.push(f);
                proof {
                    assert(rest.skip(off - start) =~= bytes@.skip(off as int));
                    assert(field_views(out@) =~= done.push(fv));
                    let more = read_frames(bytes@.skip(off as int));
                    assert(done + (seq![fv] + more) =~= field_views(out@) + more);
                }
            },
            Ok(None) => {},
            Err(FrameErr::UnknownType) => {
                assert(rest.skip(off - start) =~= bytes@.skip(off as int));
            },
            Err(FrameErr::Malformed) => {
                assert(done + Seq::<(u16, crate::model::obj_dynamic::DynView)>::empty() =~= done);
                return out;
            },
        }
    }
    proof {
        assert(field_views(out@) + Seq::<(u16, crate::model::obj_dynamic::DynView)>::empty()
            =~= field_views(out@));
    }
    out
}

/// What was tagged is found again in front of anything.
proof fn lemma_tagged_front(t: ObjValueType, body: Seq<u8>, rest: Seq<u8>)
    requires
        body.len() <= u32::MAX,
    ensures
        ({
            let b = tagged(t, body) + rest;
            &&& tagged_front(b) == Some(
                (crate::model::wrappers::obj_value::type_byte(t), 5nat, 5 + body.len()),
            )
            &&& b.subrange(5, 5 + body.len() as int) == body
            &&& b.skip(5 + body.len() as int) == rest
            &&& tagged(t, body).len() == 5 + body.len()
        }),
{
    let b = tagged(t, body) + rest;
    crate::bytes::lemma_pow256_small();
    crate::bytes::lemma_be_bytes_len(body.len(), 4);
    crate::bytes::lemma_be_round_trip(body.len(), 4);
    assert(b.subrange(1, 5) =~= crate::bytes::be_bytes(body.len(), 4));
    assert(b.subrange(5, 5 + body.len() as int) =~= body);
    assert(b.skip(5 + body.len() as int) =~= rest);
}

/// The first element, then the others.
proof fn lemma_items_cons(items: Seq<crate::model::obj_dynamic::DynView>)
    requires
        items.len() > 0,
    ensures
        items_bytes(items) == tagged(
            crate::model::obj_dynamic::value_type(items[0]),
            value_body(items[0]),
        ) + items_bytes(items.drop_first()),
    decreases items.len(),
{
    let head = tagged(crate::model::obj_dynamic::value_type(items[0]), value_body(items[0]));
    let tail = items.drop_first();
    if items.len() == 1 {
        assert(items.drop_last() =~= Seq::empty());
        assert(tail =~= Seq::empty());
        assert(items_bytes(items) =~= head + items_bytes(tail));
    } else {
        let init = items.drop_last();
        lemma_items_cons(init);
        assert(init.drop_first() =~= tail.drop_last());
        assert(items_bytes(items) =~= head + items_bytes(tail));
    }
}

/// A body reads back as the value it was written from.
pub proof fn law_body_round_trip(v: crate::model::obj_dynamic::DynView)
    requires
        plain(v),
        value_body(v).len() <= u32::MAX,
    ensures
        body_value(crate::model::obj_dynamic::value_type(v), value_body(v)) == Some(v),
    decreases v, 1int,
{
    broadcast use vstd::utf8::encode_utf8_decode_utf8, vstd::utf8::encode_utf8_valid_utf8;

    let body = value_body(v);
    crate::bytes::lemma_pow256_small();
    match v {
        crate::model::obj_dynamic::DynView::UInt(n) => {
            crate::model::obj_dynamic::lemma_uint_width(n, 8);
            let w = crate::model::obj_dynamic::uint_width(n);
            crate::bytes::lemma_be_bytes_len(n, w);
            crate::bytes::lemma_be_round_trip(n, w);
        },
        crate::model::obj_dynamic::DynView::F64(bits) => {
            crate::bytes::lemma_be_bytes_len(bits as nat, 8);
            crate::bytes::lemma_be_round_trip(bits as nat, 8);
        },
        crate::model::obj_dynamic::DynView::Array(items) => {
            let n = items.len();
            let head = crate::bytes::be_bytes(n, 4);
            lemma_items_grow(items, 0);
            crate::bytes::lemma_be_bytes_len(n, 4);
            crate::bytes::lemma_be_round_trip(n, 4);
            assert(body.take(4) =~= head);
            assert(body.skip(4) =~= items_bytes(items));
            lemma_items_round_trip(items);
        },
        _ => {},
    }
}

proof fn lemma_items_round_trip(items: Seq<crate::model::obj_dynamic::DynView>)
    requires
        plain_items(items),
        items_bytes(items).len() <= u32::MAX,
    ensures
        read_items(items_bytes(items), items.len()) == Some(items),
    decreases items, 0int,
{
    if items.len() == 0 {
        assert(items =~= Seq::empty());
    } else {
        let v = items[0];
        let tail = items.drop_first();
        let body = value_body(v);
        let t = crate::model::obj_dynamic::value_type(v);
        let after = items_bytes(tail);
        lemma_items_cons(items);
        law_body_round_trip(v);
        lemma_items_round_trip(tail);
        lemma_tagged_front(t, body, after);
        crate::model::wrappers::obj_value::law_type_bytes(t, 0);
        assert(seq![v] + tail =~= items);
    }
}

/// A frame reads back as the field it was written from and takes exactly its
/// bytes, whatever follows; a list of frames reads back one field at a time.
pub proof fn law_frame_round_trip(
    id: u16,
    v: crate::model::obj_dynamic::DynView,
    rest: Seq<u8>,
)
    requires
        plain(v),
        value_body(v).len() <= u32::MAX,
    ensures
        read_frame(frame_bytes(id, v) + rest) == crate::model::obj_dynamic::FrameRead::Field(
            id,
            v,
            frame_bytes(id, v).len(),
        ),
        read_frames(frame_bytes(id, v) + rest) == seq![(id, v)] + read_frames(rest),
{
    let t = crate::model::obj_dynamic::value_type(v);
    let body = value_body(v);
    let b = frame_bytes(id, v) + rest;
    let inner = tagged(t, body) + rest;
    let n = crate::model::obj_dynamic::id_bytes(id).len();
    law_body_round_trip(v);
    lemma_tagged_front(t, body, rest);
    crate::model::wrappers::obj_value::law_type_bytes(t, 0);
    crate::bytes::lemma_be_bytes_len(id as nat, 2);
    assert(b[0] == crate::model::obj_dynamic::id_bytes(id)[0]);
    assert(b.skip(n as int) =~= inner);
    if id >= 0xFF {
        crate::bytes::lemma_pow256_small();
        crate::bytes::lemma_be_round_trip(id as nat, 2);
        assert(b.subrange(1, 3) =~= crate::bytes::be_bytes(id as nat, 2));
    }
    let start = n + 5;
    let end = n + 5 + body.len();
    assert(b.subrange(start as int, end as int) =~= inner.subrange(5, 5 + body.len() as int));
    assert(b.skip(end as int) =~= rest);
}

/// A frame of a type that this reader cannot build is skipped by its length,
/// and the list goes on behind it.
pub proof fn law_unknown_type_is_skipped(id: u8, ty: u8, body: Seq<u8>, rest: Seq<u8>)
    requires
        id < 0xFF,
        readable_type(ty) is None,
        body.len() <= u32::MAX,
    ensures
        read_frames(
            seq![id, ty] + crate::bytes::be_bytes(body.len(), 4) + body + rest,
        ) == read_frames(rest),
{
    let b = seq![id, ty] + crate::bytes::be_bytes(body.len(), 4) + body + rest;
    let inner = b.skip(1);
    crate::bytes::lemma_pow256_small();
    crate::bytes::lemma_be_bytes_len(body.len(), 4);
    crate::bytes::lemma_be_round_trip(body.len(), 4);
    assert(inner.subrange(1, 5) =~= crate::bytes::be_bytes(body.len(), 4));
    assert(b.skip(6 + body.len() as int) =~= rest);
}

/// What the front of a frame says does not change with what follows it.
proof fn lemma_front_extends(b: Seq<u8>, rest: Seq<u8>)
    requires
        frame_front(b) is Some,
    ensures
        frame_front(b + rest) == frame_front(b),
{
    let c = b + rest;
    let n: int = if b[0] == 0xFF {
        3
    } else {
        1
    };
    assert(c[0] == b[0]);
    assert(c.subrange(1, 3) =~= b.subrange(1, 3) || n == 1);
    let x = b.skip(n);
    let y = c.skip(n);
    assert(y =~= x + rest);
    assert(y.subrange(1, 5) =~= x.subrange(1, 5));
    assert(y[0] == x[0]);
}

/// A frame that is cut short ends a list: the frames before it are read, and
/// nothing of it.
pub proof fn law_torn_frame_ends_list(
    whole: Seq<(u16, crate::model::obj_dynamic::DynView)>,
    id: u16,
    v: crate::model::obj_dynamic::DynView,
    n: int,
)
    requires
        forall|i: int|
            0 <= i < whole.len() ==> plain((#[trigger] whole[i]).1) && value_body(
                whole[i].1,
            ).len() <= u32::MAX,
        plain(v),
        value_body(v).len() <= u32::MAX,
        0 <= n < frame_bytes(id, v).len(),
    ensures
        read_frames(frames_of(whole) + frame_bytes(id, v).take(n)) == whole,
    decreases whole.len(),
{
    let frame = frame_bytes(id, v);
    let torn = frame.take(n);
    if whole.len() == 0 {
        assert(frames_of(whole) + torn =~= torn);
        assert(whole =~= Seq::empty());
        if n > 0 && frame_front(torn) is Some {
            law_frame_round_trip(id, v, Seq::empty());
            assert(frame + Seq::<u8>::empty() =~= frame);
            lemma_front_extends(torn, frame.skip(n));
            assert(torn + frame.skip(n) =~= frame);
        }
    } else {
        let t = whole.drop_first();
        assert forall|i: int| 0 <= i < t.len() implies plain((#[trigger] t[i]).1) && value_body(
            t[i].1,
        ).len() <= u32::MAX by {
            assert(t[i] == whole[i + 1]);
        }
        law_torn_frame_ends_list(t, id, v, n);
        assert(plain(whole[0].1));
        let rest = frames_of(t) + torn;
        law_frame_round_trip(whole[0].0, whole[0].1, rest);
        assert(frames_of(whole) + torn =~= frame_bytes(whole[0].0, whole[0].1) + rest);
        assert(whole =~= seq![whole[0]] + t);
    }
}

/// The frames of fields by number.
pub open spec fn frames_of(fields: Seq<(u16, crate::model::obj_dynamic::DynView)>) -> Seq<u8>
    decreases fields.len(),
{
    if fields.len() == 0 {
        Seq::empty()
    } else {
        frame_bytes(fields[0].0, fields[0].1) + frames_of(fields.drop_first())
    }
}

/// A body that is read gives a value of its own type, and bodies of simple
/// types are refused only for their length, or as text for not being UTF-8.
pub proof fn law_bodies_are_read(t: ObjValueType, body: Seq<u8>)
    ensures
        body_value(t, body) matches Some(v) ==> crate::model::obj_dynamic::value_type(v) == t,
        t is UInt ==> (body_value(t, body) is Some <==> body.len() <= 8),
        t is F64 ==> (body_value(t, body) is Some <==> body.len() == 8),
        t is Bool ==> (body_value(t, body) is Some <==> body.len() == 1),
        t is Null ==> (body_value(t, body) is Some <==> body.len() == 0),
        t is Bytes ==> body_value(t, body) == Some(crate::model::obj_dynamic::DynView::Bytes(body)),
        t is Str ==> (body_value(t, body) is Some <==> vstd::utf8::valid_utf8(body)),
        t is Str ==> (body_value(t, body) matches Some(v) ==> vstd::utf8::encode_utf8(
            v->Str_0,
        ) == body),
{
    broadcast use vstd::utf8::decode_utf8_encode_utf8;

}

/// Zeros in front of an unsigned number change nothing, as long as there is
/// room for them; an empty body is zero; and any byte but zero is true.
pub proof fn law_bodies_mean_numbers(b: Seq<u8>, x: u8)
    ensures
        b.len() < 8 ==> body_value(ObjValueType::UInt, seq![0u8] + b) == body_value(
            ObjValueType::UInt,
            b,
        ),
        body_value(ObjValueType::UInt, Seq::empty()) == Some(crate::model::obj_dynamic::DynView::UInt(0)),
        b.len() < 8 ==> body_value(ObjValueType::UInt, b.push(x)) == Some(
            crate::model::obj_dynamic::DynView::UInt(body_value(ObjValueType::UInt, b)->0->UInt_0 * 256 + x as nat),
        ),
        body_value(ObjValueType::Bool, seq![x]) == Some(crate::model::obj_dynamic::DynView::Bool(x != 0)),
        b.len() == 8 ==> body_value(ObjValueType::F64, b) == Some(
            crate::model::obj_dynamic::DynView::F64(crate::bytes::be_value(b) as u64),
        ),
{
    crate::wrappers::wire::lemma_be_value_cons(0, b);
    crate::bytes::lemma_be_value_round_trip(b);
    assert(0 * crate::bytes::pow256(b.len()) == 0) by (nonlinear_arith);
    assert(crate::bytes::be_value(Seq::<u8>::empty()) == 0);
    assert(b.push(x).drop_last() =~= b);
    assert(b.push(x).last() == x);
}

/// The types that are read are those of the values that can be written:
/// signed numbers and nested objects are not among them.
pub proof fn law_readable_types(v: crate::model::obj_dynamic::DynView, byte: u8)
    ensures
        plain(v) ==> readable_type(
            crate::model::wrappers::obj_value::type_byte(crate::model::obj_dynamic::value_type(v)),
        ) == Some(crate::model::obj_dynamic::value_type(v)),
        v is Int || v is Obj ==> !plain(v) && readable_type(
            crate::model::wrappers::obj_value::type_byte(crate::model::obj_dynamic::value_type(v)),
        ) is None,
        crate::model::wrappers::obj_value::byte_type(byte) is None ==> readable_type(byte) is None,
        readable_type(byte) matches Some(t) ==> crate::model::wrappers::obj_value::type_byte(t)
            == byte,
{
}

} // verus!
