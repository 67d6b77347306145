//! Declared fields: their names, widths and kinds.

use vstd::prelude::*;

verus! {

/// The kind of a declared field.
#[derive(Clone, Copy, Debug, PartialEq, Eq, Structural)]
pub enum FieldType {
    U8,
    U16,
    U32,
    U64,
    FixedBytes,
    Str,
    Bytes,
    VarInt,
    /// Fixed point with this many decimal places.
    Quant(u32),
    Enum,
    /// Distance from this base.
    Offset(i64),
}

/// A declared field. A field of variable length has width 0.
#[derive(Clone, Copy, Debug)]
pub struct FieldDesc {
    pub name: &'static str,
    pub width: usize,
    pub ty: FieldType,
}

/// What a declared field says.
#[verifier::ext_equal]
pub struct FieldView {
    pub name: Seq<char>,
    pub width: nat,
    pub ty: FieldType,
}

impl View for FieldDesc {
    type V = FieldView;

    open spec fn view(&self) -> FieldView {
        FieldView { name: self.name@, width: self.width as nat, ty: self.ty }
    }
}

/// What a list of declared fields says.
pub open spec fn field_list(v: Seq<FieldDesc>) -> Seq<FieldView> {
    v.map_values(|f: FieldDesc| f@)
}

/// The bytes that fixed-width fields take together.
pub open spec fn total_width(fields: Seq<FieldView>) -> nat
    decreases fields.len(),
{
    if fields.len() == 0 {
        0
    } else {
        total_width(fields.drop_last()) + fields.last().width
    }
}

/// More fields take no fewer bytes.
pub proof fn lemma_total_width_take(fields: Seq<FieldView>, n: int)
    requires
        0 <= n <= fields.len(),
    ensures
        total_width(fields.take(n)) <= total_width(fields),
    decreases fields.len(),
{
    if n == fields.len() {
        assert(fields.take(n) =~= fields);
    } else {
        assert(fields.drop_last().take(n) =~= fields.take(n));
        lemma_total_width_take(fields.drop_last(), n);
    }
}

/// A literal default of a declared field. A double is given by its bits.
#[derive(Clone, Copy, Debug)]
pub enum DefaultValueConst {
    U64(u64),
    I64(i64),
    F64(u64),
    Bool(bool),
    Str(&'static str),
}

} // verus!
