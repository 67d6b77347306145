//! The declaration of a table as data, for readers that have no access to
//! its types.

use vstd::prelude::*;
use vstd::string::StringExecFns;

use crate::field::{DefaultValueConst, FieldDesc, FieldType};
use crate::index::{
    Document, DECLARED_SLOT_BASE, DICT_ID_SLOT, DICT_NAME_SLOT, DYNAMIC_SLOT, EDGE_FWD_SLOT,
    EDGE_REV_SLOT, PRIMARY_SLOT,
};
use crate::key::KeyEncode;
use crate::text::str_eq;

verus! {

/// Where a field stands. Key fields and fixed-width fields stand at an
/// offset within their segment; fields of variable length stand in a frame
/// with a tag.
#[derive(Clone, Debug, PartialEq)]
pub struct FieldSchema {
    pub name: String,
    pub ty: FieldType,
    /// Bytes of the field; 0 for variable length.
    pub width: usize,
    /// Offset within the segment; 0 for variable length.
    pub offset: usize,
    /// The tag of a field of variable length.
    pub tag: Option<u8>,
    /// The literal default that payloads of an older layout are read with.
    pub default: Option<DefaultValue>,
}

/// A literal default. A double is given by its bits.
#[derive(Clone, Debug, PartialEq)]
pub enum DefaultValue {
    U64(u64),
    I64(i64),
    F64(u64),
    Bool(bool),
    Str(String),
    /// This many zero bytes.
    ZeroBytes(usize),
}

/// What a literal default says.
#[verifier::ext_equal]
pub enum DefaultView {
    U64(u64),
    I64(i64),
    F64(u64),
    Bool(bool),
    Str(Seq<char>),
    ZeroBytes(nat),
}

impl View for DefaultValue {
    type V = DefaultView;

    open spec fn view(&self) -> DefaultView {
        match self {
            DefaultValue::U64(x) => DefaultView::U64(*x),
            DefaultValue::I64(x) => DefaultView::I64(*x),
            DefaultValue::F64(x) => DefaultView::F64(*x),
            DefaultValue::Bool(x) => DefaultView::Bool(*x),
            DefaultValue::Str(x) => DefaultView::Str(x@),
            DefaultValue::ZeroBytes(n) => DefaultView::ZeroBytes(*n as nat),
        }
    }
}

/// What a declared literal says.
pub open spec fn literal_view(d: DefaultValueConst) -> DefaultView {
    match d {
        DefaultValueConst::U64(x) => DefaultView::U64(x),
        DefaultValueConst::I64(x) => DefaultView::I64(x),
        DefaultValueConst::F64(x) => DefaultView::F64(x),
        DefaultValueConst::Bool(x) => DefaultView::Bool(x),
        DefaultValueConst::Str(x) => DefaultView::Str(x@),
    }
}

/// What a field schema says.
#[verifier::ext_equal]
pub struct FieldSchemaView {
    pub name: Seq<char>,
    pub ty: FieldType,
    pub width: nat,
    pub offset: nat,
    pub tag: Option<u8>,
    pub default: Option<DefaultView>,
}

impl View for FieldSchema {
    type V = FieldSchemaView;

    open spec fn view(&self) -> FieldSchemaView {
        FieldSchemaView {
            name: self.name@,
            ty: self.ty,
            width: self.width as nat,
            offset: self.offset as nat,
            tag: self.tag,
            default: match self.default {
                Some(d) => Some(d@),
                None => None,
            },
        }
    }
}

/// What a list of field schemas says.
pub open spec fn schema_list(v: Seq<FieldSchema>) -> Seq<FieldSchemaView> {
    v.map_values(|f: FieldSchema| f@)
}

/// The types of dynamic values.
#[derive(Clone, Copy, Debug, PartialEq, Eq, Structural)]
pub enum ObjValueTypeSchema {
    UInt,
    Int,
    F64,
    Str,
    Bytes,
    Bool,
    Null,
    Array,
    Obj,
}

impl ObjValueTypeSchema {
    /// The stored byte.
    pub fn tag(&self) -> (r: u8)
        ensures
            r == (match self {
                ObjValueTypeSchema::UInt => 0u8,
                ObjValueTypeSchema::Int => 8,
                ObjValueTypeSchema::F64 => 1,
                ObjValueTypeSchema::Str => 2,
                ObjValueTypeSchema::Bytes => 3,
                ObjValueTypeSchema::Bool => 4,
                ObjValueTypeSchema::Null => 5,
                ObjValueTypeSchema::Array => 6,
                ObjValueTypeSchema::Obj => 7,
            }),
    {
        match self {
            ObjValueTypeSchema::UInt => 0,
            ObjValueTypeSchema::Int => 8,
            ObjValueTypeSchema::F64 => 1,
            ObjValueTypeSchema::Str => 2,
            ObjValueTypeSchema::Bytes => 3,
            ObjValueTypeSchema::Bool => 4,
            ObjValueTypeSchema::Null => 5,
            ObjValueTypeSchema::Array => 6,
            ObjValueTypeSchema::Obj => 7,
        }
    }

    /// The type of a stored byte.
    pub fn from_tag(b: u8) -> (r: Option<Self>)
        ensures
            r == (match b {
                0u8 => Some(ObjValueTypeSchema::UInt),
                1u8 => Some(ObjValueTypeSchema::F64),
                2u8 => Some(ObjValueTypeSchema::Str),
                3u8 => Some(ObjValueTypeSchema::Bytes),
                4u8 => Some(ObjValueTypeSchema::Bool),
                5u8 => Some(ObjValueTypeSchema::Null),
                6u8 => Some(ObjValueTypeSchema::Array),
                7u8 => Some(ObjValueTypeSchema::Obj),
                8u8 => Some(ObjValueTypeSchema::Int),
                _ => None,
            }),
    {
        match b {
            0 => Some(ObjValueTypeSchema::UInt),
            1 => Some(ObjValueTypeSchema::F64),
            2 => Some(ObjValueTypeSchema::Str),
            3 => Some(ObjValueTypeSchema::Bytes),
            4 => Some(ObjValueTypeSchema::Bool),
            5 => Some(ObjValueTypeSchema::Null),
            6 => Some(ObjValueTypeSchema::Array),
            7 => Some(ObjValueTypeSchema::Obj),
            8 => Some(ObjValueTypeSchema::Int),
            _ => None,
        }
    }
}

/// The slots with a fixed role, and the first of declared access methods.
#[derive(Clone, Copy, Debug, PartialEq, Eq, Structural)]
pub struct SlotMap {
    pub primary: u8,
    pub dynamic: u8,
    pub dict_id: u8,
    pub dict_name: u8,
    pub edge_fwd: u8,
    pub edge_rev: u8,
    pub declared_base: u8,
}

/// The declaration of a table.
#[derive(Clone, Debug, PartialEq)]
pub struct TableSchema {
    pub key_len: usize,
    pub key_fields: Vec<FieldSchema>,
    pub layout_version: u8,
    /// Bytes of the fixed-width fields of a payload.
    pub hot_width: usize,
    /// Bytes of the payload header.
    pub payload_header_len: usize,
    pub hot_fields: Vec<FieldSchema>,
    pub cold_fields: Vec<FieldSchema>,
    pub slots: SlotMap,
}

/// The literal default of a field, if one is declared.
pub open spec fn literal_of(
    literals: Seq<(Seq<char>, DefaultValueConst)>,
    name: Seq<char>,
) -> Option<DefaultView>
    decreases literals.len(),
{
    if literals.len() == 0 {
        None
    } else if literals[0].0 == name {
        Some(literal_view(literals[0].1))
    } else {
        literal_of(literals.drop_first(), name)
    }
}

/// The schema of the fields of a key: each stands behind those before it.
pub open spec fn key_schema(fields: Seq<crate::field::FieldView>) -> Seq<FieldSchemaView> {
    Seq::new(
        fields.len(),
        |i: int|
            FieldSchemaView {
                name: fields[i].name,
                ty: fields[i].ty,
                width: fields[i].width,
                offset: crate::field::total_width(fields.take(i)),
                tag: None,
                default: None,
            },
    )
}

/// The schema of the fixed-width fields of a payload.
pub open spec fn hot_schema(
    fields: Seq<crate::field::FieldView>,
    literals: Seq<(Seq<char>, DefaultValueConst)>,
) -> Seq<FieldSchemaView>
    decreases fields.len(),
{
    if fields.len() == 0 {
        Seq::empty()
    } else {
        let before = hot_schema(fields.drop_last(), literals);
        let f = fields.last();
        if f.width > 0 {
            before.push(
                FieldSchemaView {
                    name: f.name,
                    ty: f.ty,
                    width: f.width,
                    offset: crate::field::total_width(fields.drop_last()),
                    tag: None,
                    default: literal_of(literals, f.name),
                },
            )
        } else {
            before
        }
    }
}

/// The schema of the fields of variable length of a payload. The tag is the
/// low byte of the place in the declaration.
pub open spec fn cold_schema(
    fields: Seq<crate::field::FieldView>,
    literals: Seq<(Seq<char>, DefaultValueConst)>,
) -> Seq<FieldSchemaView>
    decreases fields.len(),
{
    if fields.len() == 0 {
        Seq::empty()
    } else {
        let before = cold_schema(fields.drop_last(), literals);
        let f = fields.last();
        if f.width == 0 {
            before.push(
                FieldSchemaView {
                    name: f.name,
                    ty: f.ty,
                    width: 0,
                    offset: 0,
                    tag: Some(((fields.len() - 1) % 0x100) as u8),
                    default: literal_of(literals, f.name),
                },
            )
        } else {
            before
        }
    }
}

/// The literal default of a field, if one is declared.
fn lookup_default(defaults: &Vec<(&'static str, DefaultValueConst)>, name: &str) -> (r: Option<
    DefaultValue,
>)
    ensures
        (match r {
            Some(d) => Some(d@),
            None => None,
        }) == literal_of(crate::index::default_list(defaults@), name@),
{
    let ghost all = crate::index::default_list(defaults@);
    let mut i: usize = 0;
    assert(all.skip(0) =~= all);
    while i < defaults.len()
        invariant
            i <= defaults@.len() == all.len(),
            all == crate::index::default_list(defaults@),
            literal_of(all, name@) == literal_of(all.skip(i as int), name@),
        decreases defaults@.len() - i,
    {
        proof {
            assert(all.skip(i as int)[0] == all[i as int]);
            assert(all.skip(i as int).drop_first() =~= all.skip(i + 1));
        }
        if str_eq(defaults[i].0, name) {
            return Some(
                match defaults[i].1 {
                    DefaultValueConst::U64(x) => DefaultValue::U64(x),
                    DefaultValueConst::I64(x) => DefaultValue::I64(x),
                    DefaultValueConst::F64(x) => DefaultValue::F64(x),
                    DefaultValueConst::Bool(x) => DefaultValue::Bool(x),
                    DefaultValueConst::Str(x) => DefaultValue::Str(String::from_str(x)),
                },
            );
        }
        i = i + 1;
    }
    None
}

/// The schema of the fields of a key.
fn key_part(fields: &Vec<FieldDesc>) -> (r: Vec<FieldSchema>)
    requires
        crate::field::total_width(crate::field::field_list(fields@)) <= usize::MAX,
    ensures
        schema_list(r@) == key_schema(crate::field::field_list(fields@)),
{
    let ghost all = crate::field::field_list(fields@);
    let mut out: Vec<FieldSchema> = Vec::new();
    let mut off: usize = 0;
    let mut i: usize = 0;
    proof {
        assert(all.take(0) =~= Seq::empty());
        assert(schema_list(out@) =~= key_schema(all).take(0));
    }
    while i < fields.len()
        invariant
            i <= fields@.len() == all.len(),
            all == crate::field::field_list(fields@),
            crate::field::total_width(all) <= usize::MAX,
            off == crate::field::total_width(all.take(i as int)),
            schema_list(out@) == key_schema(all).take(i as int),
        decreases fields@.len() - i,
    {
        let ghost before = schema_list(out@);
        proof {
            crate::field::lemma_total_width_take(all, i + 1);
            assert(all.take(i + 1).drop_last() =~= all.take(i as int));
            assert(all.take(i + 1).last() == all[i as int]);
        }
        let f = fields[i];
        let entry = FieldSchema {
            name: String::from_str(f.name),
            ty: f.ty,
            width: f.width,
            offset: off,
            tag: None,
            default: None,
        };
        let ghost ev = entry@;
        out.push(entry);
        proof {
            assert(schema_list(out@) =~= before.push(ev));
            assert(ev =~= key_schema(all)[i as int]);
            assert(key_schema(all).take(i + 1) =~= before.push(ev));
        }
        off = off + f.width;
        i = i + 1;
    }
    assert(key_schema(all).take(i as int) =~= key_schema(all));
    out
}

impl TableSchema {
    /// The slot of the payloads.
    pub const PRIMARY_SLOT: u8 = PRIMARY_SLOT;

    /// The declaration of the table of a document type.
    pub fn of<K: KeyEncode, R: Document<Key = K>>() -> (r: Self)
        requires
            crate::field::total_width(R::declared()) <= usize::MAX,
        ensures
            r.key_len == K::KEY_LEN,
            schema_list(r.key_fields@) == key_schema(K::declared()),
            r.layout_version == R::LAYOUT_VERSION,
            r.hot_width == R::HOT_WIDTH,
            r.payload_header_len == crate::payload::HEADER_LEN,
            schema_list(r.hot_fields@) == hot_schema(R::declared(), R::literals()),
            schema_list(r.cold_fields@) == cold_schema(R::declared(), R::literals()),
            r.slots == (SlotMap {
                primary: PRIMARY_SLOT,
                dynamic: DYNAMIC_SLOT,
                dict_id: DICT_ID_SLOT,
                dict_name: DICT_NAME_SLOT,
                edge_fwd: EDGE_FWD_SLOT,
                edge_rev: EDGE_REV_SLOT,
                declared_base: DECLARED_SLOT_BASE,
            }),
    {
        let keys = K::fields();
        proof {
            K::prefix_fits(Seq::empty());
        }
        let key_fields = key_part(&keys);
        let fields = R::fields();
        let defaults = R::defaults();
        let ghost all = R::declared();
        let ghost lits = R::literals();
        let mut hot_fields: Vec<FieldSchema> = Vec::new();
        let mut cold_fields: Vec<FieldSchema> = Vec::new();
        let mut hot_off: usize = 0;
        let mut i: usize = 0;
        proof {
            assert(all.take(0) =~= Seq::empty());
            assert(schema_list(hot_fields@) =~= Seq::empty());
            assert(schema_list(cold_fields@) =~= Seq::empty());
        }
        while i < fields.len()
            invariant
                i <= fields@.len() == all.len(),
                all == crate::field::field_list(fields@),
                lits == crate::index::default_list(defaults@),
                crate::field::total_width(all) <= usize::MAX,
                hot_off == crate::field::total_width(all.take(i as int)),
                schema_list(hot_fields@) == hot_schema(all.take(i as int), lits),
                schema_list(cold_fields@) == cold_schema(all.take(i as int), lits),
            decreases fields@.len() - i,
        {
            let ghost hot0 = schema_list(hot_fields@);
            let ghost cold0 = schema_list(cold_fields@);
            proof {
                crate::field::lemma_total_width_take(all, i + 1);
                assert(all.take(i + 1).drop_last() =~= all.take(i as int));
                assert(all.take(i + 1).last() == all[i as int]);
            }
            let f = fields[i];
            let default = lookup_default(&defaults, f.name);
            if f.width > 0 {
                let entry = FieldSchema {
                    name: String::from_str(f.name),
                    ty: f.ty,
                    width: f.width,
                    offset: hot_off,
                    tag: None,
                    default,
                };
                let ghost ev = entry@;
                hot_fields.push(entry);
                assert(schema_list(hot_fields@) =~= hot0.push(ev));
            } else {
                let entry = FieldSchema {
                    name: String::from_str(f.name),
                    ty: f.ty,
                    width: 0,
                    offset: 0,
                    tag: Some((i % 0x100) as u8),
                    default,
                };
                let ghost ev = entry@;
                cold_fields.push(entry);
                assert(schema_list(cold_fields@) =~= cold0.push(ev));
            }
            hot_off = hot_off + f.width;
            i = i + 1;
        }
        assert(all.take(i as int) =~= all);
        TableSchema {
            key_len: K::KEY_LEN,
            key_fields,
            layout_version: R::LAYOUT_VERSION,
            hot_width: R::HOT_WIDTH,
            payload_header_len: crate::payload::HEADER_LEN,
            hot_fields,
            cold_fields,
            slots: SlotMap {
                primary: PRIMARY_SLOT,
                dynamic: DYNAMIC_SLOT,
                dict_id: DICT_ID_SLOT,
                dict_name: DICT_NAME_SLOT,
                edge_fwd: EDGE_FWD_SLOT,
                edge_rev: EDGE_REV_SLOT,
                declared_base: DECLARED_SLOT_BASE,
            },
        }
    }
}

/// The fields of a key stand side by side: each begins where the one before
/// it ends, and the last ends with the key.
pub proof fn law_key_fields_tile(fields: Seq<crate::field::FieldView>, i: int)
    requires
        0 <= i < fields.len(),
    ensures
        key_schema(fields)[0].offset == 0,
        i + 1 < fields.len() ==> key_schema(fields)[i + 1].offset == key_schema(fields)[i].offset
            + key_schema(fields)[i].width,
        i + 1 == fields.len() ==> crate::field::total_width(fields) == key_schema(fields)[i].offset
            + key_schema(fields)[i].width,
{
    assert(fields.take(0) =~= Seq::empty());
    assert(fields.take(i + 1).drop_last() =~= fields.take(i));
    assert(fields.take(i + 1).last() == fields[i]);
    if i + 1 == fields.len() {
        assert(fields.take(i + 1) =~= fields);
    }
}

/// Every declared field of a payload is either of fixed width or of variable
/// length, never both and never neither.
pub proof fn law_fields_split(
    fields: Seq<crate::field::FieldView>,
    literals: Seq<(Seq<char>, DefaultValueConst)>,
)
    ensures
        hot_schema(fields, literals).len() + cold_schema(fields, literals).len() == fields.len(),
    decreases fields.len(),
{
    if fields.len() > 0 {
        law_fields_split(fields.drop_last(), literals);
    }
}

/// The schema of a key tells of each field what was declared, in order.
pub proof fn law_key_schema_is_declared(fields: Seq<crate::field::FieldView>, i: int)
    requires
        0 <= i < fields.len(),
    ensures
        key_schema(fields).len() == fields.len(),
        key_schema(fields)[i].name == fields[i].name,
        key_schema(fields)[i].ty == fields[i].ty,
        key_schema(fields)[i].width == fields[i].width,
        key_schema(fields)[i].tag is None,
        key_schema(fields)[i].default is None,
{
}

/// The fixed-width fields of a payload stand side by side: the first begins
/// the segment, each begins where the one before it ends, and the last ends
/// with the segment.
pub proof fn law_hot_fields_tile(
    fields: Seq<crate::field::FieldView>,
    literals: Seq<(Seq<char>, DefaultValueConst)>,
    j: int,
)
    requires
        0 <= j < hot_schema(fields, literals).len(),
    ensures
        ({
            let hot = hot_schema(fields, literals);
            &&& hot[0].offset == 0
            &&& hot[j].width > 0
            &&& hot[j].tag is None
            &&& j + 1 < hot.len() ==> hot[j + 1].offset == hot[j].offset + hot[j].width
            &&& j + 1 == hot.len() ==> crate::field::total_width(fields) == hot[j].offset
                + hot[j].width
        }),
    decreases fields.len(),
{
    let init = fields.drop_last();
    let before = hot_schema(init, literals);
    if j < before.len() {
        law_hot_fields_tile(init, literals, j);
    }
    if before.len() == 0 {
        lemma_no_hot_fields(init, literals);
    } else {
        law_hot_fields_tile(init, literals, before.len() - 1);
    }
}

proof fn lemma_no_hot_fields(
    fields: Seq<crate::field::FieldView>,
    literals: Seq<(Seq<char>, DefaultValueConst)>,
)
    requires
        hot_schema(fields, literals).len() == 0,
    ensures
        crate::field::total_width(fields) == 0,
    decreases fields.len(),
{
    if fields.len() > 0 {
        lemma_no_hot_fields(fields.drop_last(), literals);
    }
}

/// How many of the first fields have a fixed width.
pub open spec fn hot_count(fields: Seq<crate::field::FieldView>) -> nat
    decreases fields.len(),
{
    if fields.len() == 0 {
        0
    } else {
        hot_count(fields.drop_last()) + (if fields.last().width > 0 {
            1nat
        } else {
            0nat
        })
    }
}

/// The schema of a payload tells of each field what was declared: the fields
/// of fixed width in order among themselves, each behind the bytes of those
/// before it, and those of variable length in order among themselves, each
/// under the low byte of its place.
pub proof fn law_payload_schema_is_declared(
    fields: Seq<crate::field::FieldView>,
    literals: Seq<(Seq<char>, DefaultValueConst)>,
    i: int,
)
    requires
        0 <= i < fields.len(),
    ensures
        ({
            let hot = hot_schema(fields, literals);
            let cold = cold_schema(fields, literals);
            let h = hot_count(fields.take(i)) as int;
            let c = i - h;
            &&& fields[i].width > 0 ==> 0 <= h < hot.len() && hot[h].name == fields[i].name
                && hot[h].ty == fields[i].ty && hot[h].width == fields[i].width && hot[h].offset
                == crate::field::total_width(fields.take(i)) && hot[h].default == literal_of(
                literals,
                fields[i].name,
            )
            &&& fields[i].width == 0 ==> 0 <= c < cold.len() && cold[c].name == fields[i].name
                && cold[c].ty == fields[i].ty && cold[c].width == 0 && cold[c].tag == Some(
                (i % 0x100) as u8,
            ) && cold[c].default == literal_of(literals, fields[i].name)
            &&& hot.len() == hot_count(fields)
        }),
    decreases fields.len(),
{
    let init = fields.drop_last();
    lemma_hot_count(init, literals);
    lemma_hot_count(fields, literals);
    law_fields_split(init, literals);
    if i == fields.len() - 1 {
        assert(fields.take(i) =~= init);
    } else {
        law_payload_schema_is_declared(init, literals, i);
        assert(init.take(i) =~= fields.take(i));
        assert(init[i] == fields[i]);
    }
}

proof fn lemma_hot_count(
    fields: Seq<crate::field::FieldView>,
    literals: Seq<(Seq<char>, DefaultValueConst)>,
)
    ensures
        hot_schema(fields, literals).len() == hot_count(fields),
        hot_count(fields) <= fields.len(),
    decreases fields.len(),
{
    if fields.len() > 0 {
        lemma_hot_count(fields.drop_last(), literals);
    }
}

/// The first literal of a name is its default.
pub proof fn law_first_literal_is_default(literals: Seq<(Seq<char>, DefaultValueConst)>, i: int)
    requires
        0 <= i < literals.len(),
        forall|j: int| 0 <= j < i ==> (#[trigger] literals[j]).0 != literals[i].0,
    ensures
        literal_of(literals, literals[i].0) == Some(literal_view(literals[i].1)),
    decreases literals.len(),
{
    if i > 0 {
        let rest = literals.drop_first();
        assert(literals[0].0 != literals[i].0);
        assert forall|j: int| 0 <= j < i - 1 implies (#[trigger] rest[j]).0 != rest[i - 1].0 by {
            assert(literals[j + 1].0 != literals[i].0);
        }
        law_first_literal_is_default(rest, i - 1);
    }
}

/// A field without a literal has no default.
pub proof fn law_no_literal_no_default(
    literals: Seq<(Seq<char>, DefaultValueConst)>,
    name: Seq<char>,
)
    requires
        forall|j: int| 0 <= j < literals.len() ==> (#[trigger] literals[j]).0 != name,
    ensures
        literal_of(literals, name) is None,
    decreases literals.len(),
{
    if literals.len() > 0 {
        let rest = literals.drop_first();
        assert(literals[0].0 != name);
        assert forall|j: int| 0 <= j < rest.len() implies (#[trigger] rest[j]).0 != name by {
            assert(literals[j + 1].0 != name);
        }
        law_no_literal_no_default(rest, name);
    }
}

} // verus!
