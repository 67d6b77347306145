//! What hosts of other languages hand in: their values carry no width, so
//! the kind of the declared field decides how each is taken.

use vstd::prelude::*;
use vstd::string::StringExecFns;

use crate::bytes::to_vec;
use crate::field::FieldType;
use crate::schema::{FieldSchema, TableSchema};
use crate::text::str_eq;

verus! {

/// A value of a declared field.
#[derive(Clone, Debug, PartialEq)]
pub enum Value {
    U8(u8),
    U16(u16),
    U32(u32),
    U64(u64),
    I64(i64),
    /// A double, given by its bits.
    F64(u64),
    Bool(bool),
    Null,
    Str(String),
    Bytes(Vec<u8>),
}

/// What a value of a declared field says.
#[verifier::ext_equal]
pub enum ValueView {
    U8(u8),
    U16(u16),
    U32(u32),
    U64(u64),
    I64(i64),
    F64(u64),
    Bool(bool),
    Null,
    Str(Seq<char>),
    Bytes(Seq<u8>),
}

impl View for Value {
    type V = ValueView;

    open spec fn view(&self) -> ValueView {
        match self {
            Value::U8(x) => ValueView::U8(*x),
            Value::U16(x) => ValueView::U16(*x),
            Value::U32(x) => ValueView::U32(*x),
            Value::U64(x) => ValueView::U64(*x),
            Value::I64(x) => ValueView::I64(*x),
            Value::F64(x) => ValueView::F64(*x),
            Value::Bool(x) => ValueView::Bool(*x),
            Value::Null => ValueView::Null,
            Value::Str(s) => ValueView::Str(s@),
            Value::Bytes(b) => ValueView::Bytes(b@),
        }
    }
}

/// A value of a host.
#[derive(Clone, Debug, PartialEq)]
pub enum HostValue {
    Bool(bool),
    Int(i64),
    /// A double, given by its bits.
    Num(u64),
    Str(String),
    /// A list of integers.
    Ints(Vec<i64>),
    /// Nothing.
    Void,
    /// Anything else.
    Other,
}

/// What a value of a host says.
#[verifier::ext_equal]
pub enum HostView {
    Bool(bool),
    Int(i64),
    Num(u64),
    Str(Seq<char>),
    Ints(Seq<i64>),
    Void,
    Other,
}

impl View for HostValue {
    type V = HostView;

    open spec fn view(&self) -> HostView {
        match self {
            HostValue::Bool(x) => HostView::Bool(*x),
            HostValue::Int(x) => HostView::Int(*x),
            HostValue::Num(b) => HostView::Num(*b),
            HostValue::Str(s) => HostView::Str(s@),
            HostValue::Ints(v) => HostView::Ints(v@),
            HostValue::Void => HostView::Void,
            HostValue::Other => HostView::Other,
        }
    }
}

/// What a field expected and did not get.
#[derive(Clone, Copy, Debug, PartialEq, Eq, Structural)]
pub enum Expected {
    Str,
    ByteVector,
    U8,
    U16,
    U32,
    U64,
    EnumTag,
    Numeric,
    Bytes,
    Text,
}

/// Why a value was not taken.
#[derive(Clone, Debug, PartialEq)]
pub enum ValueError {
    /// No field of this name is declared.
    Undeclared(String),
    /// The field of this name expected something else.
    Kind(String, Expected),
}

/// What an error says.
#[verifier::ext_equal]
pub enum ValueErrorView {
    Undeclared(Seq<char>),
    Kind(Seq<char>, Expected),
}

impl View for ValueError {
    type V = ValueErrorView;

    open spec fn view(&self) -> ValueErrorView {
        match self {
            ValueError::Undeclared(n) => ValueErrorView::Undeclared(n@),
            ValueError::Kind(n, e) => ValueErrorView::Kind(n@, *e),
        }
    }
}

/// What was expected, in words.
pub open spec fn expected_words(e: Expected) -> Seq<char> {
    match e {
        Expected::Str => "string"@,
        Expected::ByteVector => "vector of integers 0-255"@,
        Expected::U8 => "u8"@,
        Expected::U16 => "u16"@,
        Expected::U32 => "u32"@,
        Expected::U64 => "u64"@,
        Expected::EnumTag => "enum tag u8"@,
        Expected::Numeric => "numeric"@,
        Expected::Bytes => "bytes"@,
        Expected::Text => "str"@,
    }
}

/// An error in words.
pub open spec fn error_words(e: ValueErrorView) -> Seq<char> {
    match e {
        ValueErrorView::Undeclared(n) => "field `"@ + n + "`: not declared in the schema"@,
        ValueErrorView::Kind(n, x) => "field `"@ + n + "`: expected "@ + expected_words(x),
    }
}

/// An error in words, with the value that was got, as its host shows it.
pub open spec fn error_words_got(e: ValueErrorView, got: Seq<char>) -> Seq<char> {
    match e {
        ValueErrorView::Undeclared(_) => error_words(e),
        ValueErrorView::Kind(_, _) => error_words(e) + ", got "@ + got,
    }
}

impl ValueError {
    /// The error in words for a host that does not show its values.
    pub fn message(&self) -> (r: String)
        ensures
            r@ == error_words(self@),
    {
        let mut s = String::from_str("field `");
        match self {
            ValueError::Undeclared(n) => {
                s.append(n.as_str());
                s.append("`: not declared in the schema");
            },
            ValueError::Kind(n, e) => {
                s.append(n.as_str());
                s.append("`: expected ");
                s.append(
                    match e {
                        Expected::Str => "string",
                        Expected::ByteVector => "vector of integers 0-255",
                        Expected::U8 => "u8",
                        Expected::U16 => "u16",
                        Expected::U32 => "u32",
                        Expected::U64 => "u64",
                        Expected::EnumTag => "enum tag u8",
                        Expected::Numeric => "numeric",
                        Expected::Bytes => "bytes",
                        Expected::Text => "str",
                    },
                );
            },
        }
        s
    }

    /// The error in words for a host that shows its values: what was
    /// expected, then `got`, the value as the host shows it.
    pub fn message_got(&self, got: &str) -> (r: String)
        ensures
            r@ == error_words_got(self@, got@),
    {
        let mut s = self.message();
        match self {
            ValueError::Undeclared(_) => {},
            ValueError::Kind(_, _) => {
                s.append(", got ");
                s.append(got);
            },
        }
        s
    }
}

/// Every number is a byte.
pub open spec fn all_bytes(v: Seq<i64>) -> bool {
    forall|i: int| 0 <= i < v.len() ==> 0 <= #[trigger] v[i] <= 0xFF
}

/// `n` doubled `k` times.
pub open spec fn doubled(n: nat, k: nat) -> nat
    decreases k,
{
    if k == 0 {
        n
    } else {
        2 * doubled(n, (k - 1) as nat)
    }
}

/// `n` halved `k` times, with the fraction cut off.
pub open spec fn halved(n: nat, k: nat) -> nat
    decreases k,
{
    if k == 0 {
        n
    } else {
        halved(n, (k - 1) as nat) / 2
    }
}

/// A smaller number stays smaller when doubled, and 53 bits take 64 when
/// doubled 11 times.
proof fn lemma_doubled(n: nat, k: nat)
    requires
        n < 0x20_0000_0000_0000,
        k <= 11,
    ensures
        doubled(n, k) < 0x1_0000_0000_0000_0000,
        k < 11 ==> 2 * doubled(n, k) < 0x1_0000_0000_0000_0000,
{
    reveal_with_fuel(doubled, 12);
}

/// The double with these bits as an unsigned number: its fraction is cut
/// off, numbers out of range are the nearest in range, and what is no number
/// is 0.
pub open spec fn cut(bits: u64) -> u64 {
    let exponent = (bits as nat / 0x10_0000_0000_0000) % 2048;
    let fraction = bits as nat % 0x10_0000_0000_0000;
    let m = 0x10_0000_0000_0000 + fraction;
    if exponent == 2047 && fraction != 0 {
        0
    } else if bits >= 0x8000_0000_0000_0000 {
        0
    } else if exponent < 1023 {
        0
    } else if exponent >= 1023 + 64 {
        u64::MAX
    } else if exponent >= 1023 + 52 {
        doubled(m, (exponent - 1075) as nat) as u64
    } else {
        halved(m, (1075 - exponent) as nat) as u64
    }
}

/// The double with these bits as an unsigned number.
pub fn cut_double(bits: u64) -> (r: u64)
    ensures
        r == cut(bits),
{
    let exponent: u64 = (bits / 0x10_0000_0000_0000) % 2048;
    let fraction: u64 = bits % 0x10_0000_0000_0000;
    let m: u64 = 0x10_0000_0000_0000 + fraction;
    if exponent == 2047 && fraction != 0 {
        return 0;
    }
    if bits >= 0x8000_0000_0000_0000 || exponent < 1023 {
        return 0;
    }
    if exponent >= 1023 + 64 {
        return u64::MAX;
    }
    let mut x: u64 = m;
    let mut i: u64 = 0;
    if exponent >= 1023 + 52 {
        let n: u64 = exponent - 1075;
        while i < n
            invariant
                i <= n <= 11,
                m < 0x20_0000_0000_0000,
                x == doubled(m as nat, i as nat),
            decreases n - i,
        {
            proof {
                lemma_doubled(m as nat, i as nat);
            }
            x = x * 2;
            i = i + 1;
        }
        x
    } else {
        let n: u64 = 1075 - exponent;
        while i < n
            invariant
                i <= n,
                x == halved(m as nat, i as nat),
            decreases n - i,
        {
            x = x / 2;
            i = i + 1;
        }
        x
    }
}

/// The number is taken as it is if the range of the field holds it.
pub open spec fn ranged(kind: FieldType, i: int) -> Result<ValueView, Expected> {
    match kind {
        FieldType::U8 => if 0 <= i <= 0xFF {
            Ok(ValueView::U8(i as u8))
        } else {
            Err(Expected::U8)
        },
        FieldType::U16 => if 0 <= i <= 0xFFFF {
            Ok(ValueView::U16(i as u16))
        } else {
            Err(Expected::U16)
        },
        FieldType::U32 => if 0 <= i <= 0xFFFF_FFFF {
            Ok(ValueView::U32(i as u32))
        } else {
            Err(Expected::U32)
        },
        FieldType::Enum => if 0 <= i <= 0xFF {
            Ok(ValueView::U8(i as u8))
        } else {
            Err(Expected::EnumTag)
        },
        _ => if 0 <= i {
            Ok(ValueView::U64(i as u64))
        } else {
            Err(Expected::U64)
        },
    }
}

/// How a field takes the value of a Scheme host: numbers out of range are
/// refused; bytes come as a list of integers.
pub open spec fn strict(kind: FieldType, v: HostView) -> Result<ValueView, Expected> {
    match kind {
        FieldType::Str => match v {
            HostView::Str(s) => Ok(ValueView::Str(s)),
            _ => Err(Expected::Str),
        },
        FieldType::Bytes | FieldType::FixedBytes => match v {
            HostView::Ints(x) => if all_bytes(x) {
                Ok(ValueView::Bytes(x.map_values(|i: i64| i as u8)))
            } else {
                Err(Expected::ByteVector)
            },
            _ => Err(Expected::ByteVector),
        },
        _ => match v {
            HostView::Bool(b) => if kind == FieldType::U8 {
                Ok(ValueView::U8(if b { 1u8 } else { 0u8 }))
            } else {
                Ok(ValueView::Bool(b))
            },
            HostView::Int(i) => ranged(kind, i as int),
            HostView::Num(b) => if kind == FieldType::U64 || kind is VarInt || kind is Quant
                || kind is Offset {
                Ok(ValueView::U64(cut(b)))
            } else {
                Err(Expected::Numeric)
            },
            _ => Err(Expected::Numeric),
        },
    }
}

/// The value that a field takes from a Scheme host.
pub fn steel_to_value(name: &str, kind: FieldType, v: &HostValue) -> (r: Result<Value, ValueError>)
    ensures
        match strict(kind, v@) {
            Ok(x) => r is Ok && r->Ok_0@ == x,
            Err(e) => r is Err && r->Err_0@ == ValueErrorView::Kind(name@, e),
        },
{
    let taken: Result<Value, Expected> = match kind {
        FieldType::Str => match v {
            HostValue::Str(s) => Ok(Value::Str(String::from_str(s.as_str()))),
            _ => Err(Expected::Str),
        },
        FieldType::Bytes | FieldType::FixedBytes => match v {
            HostValue::Ints(x) => match narrow_bytes(x) {
                Some(b) => Ok(Value::Bytes(b)),
                None => Err(Expected::ByteVector),
            },
            _ => Err(Expected::ByteVector),
        },
        _ => match v {
            HostValue::Bool(b) => if kind == FieldType::U8 {
                Ok(
                    Value::U8(
                        if *b {
                            1u8
                        } else {
                            0u8
                        },
                    ),
                )
            } else {
                Ok(Value::Bool(*b))
            },
            HostValue::Int(i) => {
                let i: i64 = *i;
                match kind {
                    FieldType::U8 => if 0 <= i && i <= 0xFF {
                        Ok(Value::U8(i as u8))
                    } else {
                        Err(Expected::U8)
                    },
                    FieldType::U16 => if 0 <= i && i <= 0xFFFF {
                        Ok(Value::U16(i as u16))
                    } else {
                        Err(Expected::U16)
                    },
                    FieldType::U32 => if 0 <= i && i <= 0xFFFF_FFFF {
                        Ok(Value::U32(i as u32))
                    } else {
                        Err(Expected::U32)
                    },
                    FieldType::Enum => if 0 <= i && i <= 0xFF {
                        Ok(Value::U8(i as u8))
                    } else {
                        Err(Expected::EnumTag)
                    },
                    _ => if 0 <= i {
                        Ok(Value::U64(i as u64))
                    } else {
                        Err(Expected::U64)
                    },
                }
            },
            HostValue::Num(b) => match kind {
                FieldType::U64 | FieldType::VarInt | FieldType::Quant(_) | FieldType::Offset(_) =>
                Ok(Value::U64(cut_double(*b))),
                _ => Err(Expected::Numeric),
            },
            _ => Err(Expected::Numeric),
        },
    };
    match taken {
        Ok(x) => Ok(x),
        Err(e) => Err(ValueError::Kind(String::from_str(name), e)),
    }
}

/// The bytes that a list of integers stands for, if all are bytes.
pub fn narrow_bytes(v: &Vec<i64>) -> (r: Option<Vec<u8>>)
    ensures
        r is Some <==> all_bytes(v@),
        r matches Some(b) ==> b@ == v@.map_values(|i: i64| i as u8),
{
    let mut out: Vec<u8> = Vec::new();
    let mut i: usize = 0;
    while i < v.len()
        invariant
            i <= v@.len(),
            out@.len() == i,
            forall|j: int| 0 <= j < i ==> 0 <= #[trigger] v@[j] <= 0xFF && out@[j] == v@[j] as u8,
        decreases v@.len() - i,
    {
        let x: i64 = v[i];
        if x < 0 || x > 0xFF {
            assert(!all_bytes(v@));
            return None;
        }
        out.push(x as u8);
        i = i + 1;
    }
    assert(out@ =~= v@.map_values(|i: i64| i as u8));
    Some(out)
}

/// A value of a host whose numbers are unsigned.
#[derive(Clone, Debug, PartialEq)]
pub enum PlainValue {
    UInt(u64),
    Bytes(Vec<u8>),
    Str(String),
    /// Anything else.
    Other,
}

/// What a value of such a host says.
#[verifier::ext_equal]
pub enum PlainView {
    UInt(u64),
    Bytes(Seq<u8>),
    Str(Seq<char>),
    Other,
}

impl View for PlainValue {
    type V = PlainView;

    open spec fn view(&self) -> PlainView {
        match self {
            PlainValue::UInt(x) => PlainView::UInt(*x),
            PlainValue::Bytes(b) => PlainView::Bytes(b@),
            PlainValue::Str(s) => PlainView::Str(s@),
            PlainValue::Other => PlainView::Other,
        }
    }
}

/// How a field takes the value of a Python host: of a number as many low
/// bits as the field has.
pub open spec fn lenient(kind: FieldType, v: PlainView) -> Result<ValueView, Expected> {
    match kind {
        FieldType::U8 => match v {
            PlainView::UInt(x) => Ok(ValueView::U8((x % 0x100) as u8)),
            _ => Err(Expected::U8),
        },
        FieldType::U16 => match v {
            PlainView::UInt(x) => Ok(ValueView::U16((x % 0x1_0000) as u16)),
            _ => Err(Expected::U16),
        },
        FieldType::U32 => match v {
            PlainView::UInt(x) => Ok(ValueView::U32((x % 0x1_0000_0000) as u32)),
            _ => Err(Expected::U32),
        },
        FieldType::Enum => match v {
            PlainView::UInt(x) => Ok(ValueView::U8((x % 0x100) as u8)),
            _ => Err(Expected::EnumTag),
        },
        FieldType::FixedBytes | FieldType::Bytes => match v {
            PlainView::Bytes(b) => Ok(ValueView::Bytes(b)),
            _ => Err(Expected::Bytes),
        },
        FieldType::Str => match v {
            PlainView::Str(s) => Ok(ValueView::Str(s)),
            _ => Err(Expected::Text),
        },
        _ => match v {
            PlainView::UInt(x) => Ok(ValueView::U64(x)),
            _ => Err(Expected::U64),
        },
    }
}

/// The value that a field takes from a Python host.
pub fn coerce(name: &str, kind: FieldType, v: &PlainValue) -> (r: Result<Value, ValueError>)
    ensures
        match lenient(kind, v@) {
            Ok(x) => r is Ok && r->Ok_0@ == x,
            Err(e) => r is Err && r->Err_0@ == ValueErrorView::Kind(name@, e),
        },
{
    let taken: Result<Value, Expected> = match kind {
        FieldType::U8 => match v {
            PlainValue::UInt(x) => Ok(Value::U8((*x % 0x100) as u8)),
            _ => Err(Expected::U8),
        },
        FieldType::U16 => match v {
            PlainValue::UInt(x) => Ok(Value::U16((*x % 0x1_0000) as u16)),
            _ => Err(Expected::U16),
        },
        FieldType::U32 => match v {
            PlainValue::UInt(x) => Ok(Value::U32((*x % 0x1_0000_0000) as u32)),
            _ => Err(Expected::U32),
        },
        FieldType::Enum => match v {
            PlainValue::UInt(x) => Ok(Value::U8((*x % 0x100) as u8)),
            _ => Err(Expected::EnumTag),
        },
        FieldType::FixedBytes | FieldType::Bytes => match v {
            PlainValue::Bytes(b) => Ok(Value::Bytes(to_vec(b.as_slice()))),
            _ => Err(Expected::Bytes),
        },
        FieldType::Str => match v {
            PlainValue::Str(s) => Ok(Value::Str(String::from_str(s.as_str()))),
            _ => Err(Expected::Text),
        },
        _ => match v {
            PlainValue::UInt(x) => Ok(Value::U64(*x)),
            _ => Err(Expected::U64),
        },
    };
    match taken {
        Ok(x) => Ok(x),
        Err(e) => Err(ValueError::Kind(String::from_str(name), e)),
    }
}

/// How a Scheme host shows a value: numbers as signed ones, which large
/// numbers wrap into.
pub open spec fn hosted(v: ValueView) -> HostView {
    match v {
        ValueView::U8(x) => HostView::Int(x as i64),
        ValueView::U16(x) => HostView::Int(x as i64),
        ValueView::U32(x) => HostView::Int(x as i64),
        ValueView::U64(x) => HostView::Int(crate::cell::signed(x as nat) as i64),
        ValueView::I64(x) => HostView::Int(x),
        ValueView::F64(b) => HostView::Num(b),
        ValueView::Bool(x) => HostView::Bool(x),
        ValueView::Null => HostView::Void,
        ValueView::Str(s) => HostView::Str(s),
        ValueView::Bytes(b) => HostView::Ints(b.map_values(|x: u8| x as i64)),
    }
}

/// The value of a Scheme host that shows a value.
pub fn value_to_steel(v: &Value) -> (r: HostValue)
    ensures
        r@ == hosted(v@),
{
    match v {
        Value::U8(x) => HostValue::Int(*x as i64),
        Value::U16(x) => HostValue::Int(*x as i64),
        Value::U32(x) => HostValue::Int(*x as i64),
        Value::U64(x) => {
            let x: u64 = *x;
            if x >= 0x8000_0000_0000_0000 {
                let low: i64 = (x - 0x8000_0000_0000_0000) as i64;
                HostValue::Int(low + i64::MIN)
            } else {
                HostValue::Int(x as i64)
            }
        },
        Value::I64(x) => HostValue::Int(*x),
        Value::F64(b) => HostValue::Num(*b),
        Value::Bool(x) => HostValue::Bool(*x),
        Value::Null => HostValue::Void,
        Value::Str(s) => HostValue::Str(String::from_str(s.as_str())),
        Value::Bytes(b) => {
            let mut out: Vec<i64> = Vec::new();
            let mut i: usize = 0;
            while i < b.len()
                invariant
                    i <= b@.len(),
                    out@.len() == i,
                    forall|j: int| 0 <= j < i ==> #[trigger] out@[j] == b@[j],
                decreases b@.len() - i,
            {
                out.push(b[i] as i64);
                i = i + 1;
            }
            assert(out@ =~= b@.map_values(|x: u8| x as i64));
            HostValue::Ints(out)
        },
    }
}

/// The kind of the field of a name: the first of the key, the fixed-width
/// and the other fields.
pub open spec fn kind_of_field(
    fields: Seq<crate::schema::FieldSchemaView>,
    name: Seq<char>,
) -> Option<FieldType>
    decreases fields.len(),
{
    if fields.len() == 0 {
        None
    } else if fields[0].name == name {
        Some(fields[0].ty)
    } else {
        kind_of_field(fields.drop_first(), name)
    }
}

/// The fields of a schema.
pub open spec fn schema_fields(s: TableSchema) -> Seq<crate::schema::FieldSchemaView> {
    crate::schema::schema_list(s.key_fields@) + crate::schema::schema_list(s.hot_fields@)
        + crate::schema::schema_list(s.cold_fields@)
}

/// The first field of a name in front of others.
proof fn lemma_kind_split(
    a: Seq<crate::schema::FieldSchemaView>,
    b: Seq<crate::schema::FieldSchemaView>,
    name: Seq<char>,
)
    ensures
        kind_of_field(a + b, name) == (if kind_of_field(a, name) is Some {
            kind_of_field(a, name)
        } else {
            kind_of_field(b, name)
        }),
    decreases a.len(),
{
    if a.len() == 0 {
        assert(a + b =~= b);
    } else {
        assert((a + b)[0] == a[0]);
        assert((a + b).drop_first() =~= a.drop_first() + b);
        lemma_kind_split(a.drop_first(), b, name);
    }
}

/// A field that is there is found.
proof fn lemma_kind_found(fields: Seq<crate::schema::FieldSchemaView>, i: int)
    requires
        0 <= i < fields.len(),
    ensures
        kind_of_field(fields, fields[i].name) is Some,
    decreases fields.len(),
{
    if i > 0 && fields[0].name != fields[i].name {
        lemma_kind_found(fields.drop_first(), i - 1);
    }
}

/// A declared field of a payload stands among those of fixed width or those
/// of variable length.
proof fn lemma_field_placed(
    fields: Seq<crate::field::FieldView>,
    literals: Seq<(Seq<char>, crate::field::DefaultValueConst)>,
    i: int,
)
    requires
        0 <= i < fields.len(),
    ensures
        fields[i].width > 0 ==> exists|j: int|
            0 <= j < crate::schema::hot_schema(fields, literals).len()
                && #[trigger] crate::schema::hot_schema(fields, literals)[j].name
                == fields[i].name,
        fields[i].width == 0 ==> exists|j: int|
            0 <= j < crate::schema::cold_schema(fields, literals).len()
                && #[trigger] crate::schema::cold_schema(fields, literals)[j].name
                == fields[i].name,
    decreases fields.len(),
{
    let hot = crate::schema::hot_schema(fields, literals);
    let cold = crate::schema::cold_schema(fields, literals);
    let hot0 = crate::schema::hot_schema(fields.drop_last(), literals);
    let cold0 = crate::schema::cold_schema(fields.drop_last(), literals);
    if i == fields.len() - 1 {
        if fields[i].width > 0 {
            assert(hot[hot.len() - 1].name == fields[i].name);
        } else {
            assert(cold[cold.len() - 1].name == fields[i].name);
        }
    } else {
        lemma_field_placed(fields.drop_last(), literals, i);
        if fields[i].width > 0 {
            let j = choose|j: int|
                0 <= j < hot0.len() && #[trigger] hot0[j].name == fields.drop_last()[i].name;
            assert(hot[j].name == fields[i].name);
        } else {
            let j = choose|j: int|
                0 <= j < cold0.len() && #[trigger] cold0[j].name == fields.drop_last()[i].name;
            assert(cold[j].name == fields[i].name);
        }
    }
}

/// The schema of a table finds every declared field by its name.
pub proof fn law_declared_is_found(
    key_fields: Seq<crate::field::FieldView>,
    row_fields: Seq<crate::field::FieldView>,
    literals: Seq<(Seq<char>, crate::field::DefaultValueConst)>,
    name: Seq<char>,
)
    requires
        exists|i: int|
            0 <= i < (key_fields + row_fields).len() && #[trigger] (key_fields + row_fields)[i].name
                == name,
    ensures
        kind_of_field(
            crate::schema::key_schema(key_fields) + crate::schema::hot_schema(row_fields, literals)
                + crate::schema::cold_schema(row_fields, literals),
            name,
        ) is Some,
{
    let a = crate::schema::key_schema(key_fields);
    let b = crate::schema::hot_schema(row_fields, literals);
    let c = crate::schema::cold_schema(row_fields, literals);
    let all = key_fields + row_fields;
    let i = choose|i: int| 0 <= i < all.len() && #[trigger] all[i].name == name;
    lemma_kind_split(a + b, c, name);
    lemma_kind_split(a, b, name);
    if i < key_fields.len() {
        assert(a[i].name == name);
        lemma_kind_found(a, i);
    } else {
        let k = i - key_fields.len();
        assert(row_fields[k].name == name);
        lemma_field_placed(row_fields, literals, k);
        if row_fields[k].width > 0 {
            let j = choose|j: int| 0 <= j < b.len() && #[trigger] b[j].name == row_fields[k].name;
            lemma_kind_found(b, j);
        } else {
            let j = choose|j: int| 0 <= j < c.len() && #[trigger] c[j].name == row_fields[k].name;
            lemma_kind_found(c, j);
        }
    }
}

/// The place of the first field of a name.
fn find_in(fields: &Vec<FieldSchema>, name: &str) -> (r: Option<usize>)
    ensures
        match r {
            Some(i) => i < fields@.len() && fields@[i as int].name@ == name@ && kind_of_field(
                crate::schema::schema_list(fields@),
                name@,
            ) == Some(fields@[i as int].ty),
            None => kind_of_field(crate::schema::schema_list(fields@), name@) is None,
        },
{
    let ghost all = crate::schema::schema_list(fields@);
    let mut i: usize = 0;
    assert(all.skip(0) =~= all);
    while i < fields.len()
        invariant
            i <= fields@.len() == all.len(),
            all == crate::schema::schema_list(fields@),
            kind_of_field(all, name@) == kind_of_field(all.skip(i as int), name@),
        decreases fields@.len() - i,
    {
        proof {
            assert(all.skip(i as int)[0] == fields@[i as int]@);
            assert(all.skip(i as int).drop_first() =~= all.skip(i + 1));
        }
        if str_eq(fields[i].name.as_str(), name) {
            return Some(i);
        }
        i = i + 1;
    }
    None
}

/// The field of a name.
pub fn find_field<'a>(schema: &'a TableSchema, name: &str) -> (r: Result<
    &'a FieldSchema,
    ValueError,
>)
    ensures
        match kind_of_field(schema_fields(*schema), name@) {
            Some(ty) => r is Ok && r->Ok_0.name@ == name@ && r->Ok_0.ty == ty,
            None => r is Err && r->Err_0@ == ValueErrorView::Undeclared(name@),
        },
{
    let ghost a = crate::schema::schema_list(schema.key_fields@);
    let ghost b = crate::schema::schema_list(schema.hot_fields@);
    let ghost c = crate::schema::schema_list(schema.cold_fields@);
    proof {
        lemma_kind_split(a + b, c, name@);
        lemma_kind_split(a, b, name@);
    }
    match find_in(&schema.key_fields, name) {
        Some(i) => {
            return Ok(&schema.key_fields[i]);
        },
        None => {},
    }
    match find_in(&schema.hot_fields, name) {
        Some(i) => {
            return Ok(&schema.hot_fields[i]);
        },
        None => {},
    }
    match find_in(&schema.cold_fields, name) {
        Some(i) => Ok(&schema.cold_fields[i]),
        None => Err(ValueError::Undeclared(String::from_str(name))),
    }
}

/// What a list of named values says.
pub open spec fn named_values(v: Seq<(String, Value)>) -> Seq<(Seq<char>, ValueView)> {
    v.map_values(|e: (String, Value)| (e.0@, e.1@))
}

/// What a list of named values of a Scheme host says.
pub open spec fn named_host(v: Seq<(String, HostValue)>) -> Seq<(Seq<char>, HostView)> {
    v.map_values(|e: (String, HostValue)| (e.0@, e.1@))
}

/// What a list of named values of a Python host says.
pub open spec fn named_plain(v: Seq<(String, PlainValue)>) -> Seq<(Seq<char>, PlainView)> {
    v.map_values(|e: (String, PlainValue)| (e.0@, e.1@))
}

/// How the field of a name takes a value of a Scheme host.
pub open spec fn strict_entry(
    fields: Seq<crate::schema::FieldSchemaView>,
    e: (Seq<char>, HostView),
) -> Result<ValueView, ValueErrorView> {
    match kind_of_field(fields, e.0) {
        Some(ty) => match strict(ty, e.1) {
            Ok(x) => Ok(x),
            Err(x) => Err(ValueErrorView::Kind(e.0, x)),
        },
        None => Err(ValueErrorView::Undeclared(e.0)),
    }
}

/// How the fields of a schema take the values of a Scheme host: all of them,
/// or the first error.
pub open spec fn strict_map(
    fields: Seq<crate::schema::FieldSchemaView>,
    entries: Seq<(Seq<char>, HostView)>,
) -> Result<Seq<(Seq<char>, ValueView)>, ValueErrorView>
    decreases entries.len(),
{
    if entries.len() == 0 {
        Ok(Seq::empty())
    } else {
        match strict_map(fields, entries.drop_last()) {
            Ok(before) => match strict_entry(fields, entries.last()) {
                Ok(x) => Ok(before.push((entries.last().0, x))),
                Err(e) => Err(e),
            },
            Err(e) => Err(e),
        }
    }
}

/// An error among the first entries is the error of all.
proof fn lemma_strict_stop(
    fields: Seq<crate::schema::FieldSchemaView>,
    entries: Seq<(Seq<char>, HostView)>,
    n: int,
)
    requires
        0 <= n <= entries.len(),
        strict_map(fields, entries.take(n)) is Err,
    ensures
        strict_map(fields, entries) == strict_map(fields, entries.take(n)),
    decreases entries.len(),
{
    if n == entries.len() {
        assert(entries.take(n) =~= entries);
    } else {
        assert(entries.drop_last().take(n) =~= entries.take(n));
        lemma_strict_stop(fields, entries.drop_last(), n);
    }
}

/// The values that the fields of a schema take from a Scheme host, each name
/// once, in the order in which they come.
pub fn steel_hash_to_map(schema: &TableSchema, entries: &Vec<(String, HostValue)>) -> (r: Result<
    Vec<(String, Value)>,
    ValueError,
>)
    ensures
        match strict_map(schema_fields(*schema), named_host(entries@)) {
            Ok(m) => r is Ok && named_values(r->Ok_0@) == m,
            Err(e) => r is Err && r->Err_0@ == e,
        },
{
    let ghost fields = schema_fields(*schema);
    let ghost all = named_host(entries@);
    let mut out: Vec<(String, Value)> = Vec::new();
    let mut i: usize = 0;
    proof {
        assert(all.take(0) =~= Seq::empty());
        assert(named_values(out@) =~= Seq::empty());
    }
    while i < entries.len()
        invariant
            i <= entries@.len() == all.len(),
            all == named_host(entries@),
            fields == schema_fields(*schema),
            strict_map(fields, all.take(i as int)) == Ok::<
                Seq<(Seq<char>, ValueView)>,
                ValueErrorView,
            >(named_values(out@)),
        decreases entries@.len() - i,
    {
        let ghost before = named_values(out@);
        proof {
            assert(all.take(i + 1).drop_last() =~= all.take(i as int));
            assert(all.take(i + 1).last() == all[i as int]);
        }
        let name = entries[i].0.as_str();
        let ty: FieldType = match find_field(schema, name) {
            Ok(f) => f.ty,
            Err(e) => {
                proof {
                    lemma_strict_stop(fields, all, i + 1);
                }
                return Err(e);
            },
        };
        match steel_to_value(name, ty, &entries[i].1) {
            Ok(x) => {
                let ghost pair = (name@, x@);
                out.push((String::from_str(name), x));
                assert(named_values(out@) =~= before.push(pair));
            },
            Err(e) => {
                proof {
                    lemma_strict_stop(fields, all, i + 1);
                }
                return Err(e);
            },
        }
        i = i + 1;
    }
    assert(all.take(i as int) =~= all);
    Ok(out)
}

/// How the field of a name takes a value of a Python host.
pub open spec fn lenient_entry(
    fields: Seq<crate::schema::FieldSchemaView>,
    e: (Seq<char>, PlainView),
) -> Result<ValueView, ValueErrorView> {
    match kind_of_field(fields, e.0) {
        Some(ty) => match lenient(ty, e.1) {
            Ok(x) => Ok(x),
            Err(x) => Err(ValueErrorView::Kind(e.0, x)),
        },
        None => Err(ValueErrorView::Undeclared(e.0)),
    }
}

/// How the fields of a schema take the values of a Python host: all of them,
/// or the first error.
pub open spec fn lenient_map(
    fields: Seq<crate::schema::FieldSchemaView>,
    entries: Seq<(Seq<char>, PlainView)>,
) -> Result<Seq<(Seq<char>, ValueView)>, ValueErrorView>
    decreases entries.len(),
{
    if entries.len() == 0 {
        Ok(Seq::empty())
    } else {
        match lenient_map(fields, entries.drop_last()) {
            Ok(before) => match lenient_entry(fields, entries.last()) {
                Ok(x) => Ok(before.push((entries.last().0, x))),
                Err(e) => Err(e),
            },
            Err(e) => Err(e),
        }
    }
}

/// An error among the first entries is the error of all.
proof fn lemma_lenient_stop(
    fields: Seq<crate::schema::FieldSchemaView>,
    entries: Seq<(Seq<char>, PlainView)>,
    n: int,
)
    requires
        0 <= n <= entries.len(),
        lenient_map(fields, entries.take(n)) is Err,
    ensures
        lenient_map(fields, entries) == lenient_map(fields, entries.take(n)),
    decreases entries.len(),
{
    if n == entries.len() {
        assert(entries.take(n) =~= entries);
    } else {
        assert(entries.drop_last().take(n) =~= entries.take(n));
        lemma_lenient_stop(fields, entries.drop_last(), n);
    }
}

/// The values that the fields of a schema take from a Python host, each name
/// once, in the order in which they come.
pub fn py_values_to_map(schema: &TableSchema, entries: &Vec<(String, PlainValue)>) -> (r: Result<
    Vec<(String, Value)>,
    ValueError,
>)
    ensures
        match lenient_map(schema_fields(*schema), named_plain(entries@)) {
            Ok(m) => r is Ok && named_values(r->Ok_0@) == m,
            Err(e) => r is Err && r->Err_0@ == e,
        },
{
    let ghost fields = schema_fields(*schema);
    let ghost all = named_plain(entries@);
    let mut out: Vec<(String, Value)> = Vec::new();
    let mut i: usize = 0;
    proof {
        assert(all.take(0) =~= Seq::empty());
        assert(named_values(out@) =~= Seq::empty());
    }
    while i < entries.len()
        invariant
            i <= entries@.len() == all.len(),
            all == named_plain(entries@),
            fields == schema_fields(*schema),
            lenient_map(fields, all.take(i as int)) == Ok::<
                Seq<(Seq<char>, ValueView)>,
                ValueErrorView,
            >(named_values(out@)),
        decreases entries@.len() - i,
    {
        let ghost before = named_values(out@);
        proof {
            assert(all.take(i + 1).drop_last() =~= all.take(i as int));
            assert(all.take(i + 1).last() == all[i as int]);
        }
        let name = entries[i].0.as_str();
        let ty: FieldType = match find_field(schema, name) {
            Ok(f) => f.ty,
            Err(e) => {
                proof {
                    lemma_lenient_stop(fields, all, i + 1);
                }
                return Err(e);
            },
        };
        match coerce(name, ty, &entries[i].1) {
            Ok(x) => {
                let ghost pair = (name@, x@);
                out.push((String::from_str(name), x));
                assert(named_values(out@) =~= before.push(pair));
            },
            Err(e) => {
                proof {
                    lemma_lenient_stop(fields, all, i + 1);
                }
                return Err(e);
            },
        }
        i = i + 1;
    }
    assert(all.take(i as int) =~= all);
    Ok(out)
}

/// What a Scheme host is shown of a document: each value under its name.
pub fn value_map_to_steel(values: &Vec<(String, Value)>) -> (r: Vec<(String, HostValue)>)
    ensures
        named_host(r@) == named_values(values@).map_values(
            |e: (Seq<char>, ValueView)| (e.0, hosted(e.1)),
        ),
{
    let mut out: Vec<(String, HostValue)> = Vec::new();
    let mut i: usize = 0;
    while i < values.len()
        invariant
            i <= values@.len(),
            out@.len() == i,
            forall|j: int|
                0 <= j < i ==> (#[trigger] out@[j]).0@ == values@[j].0@ && out@[j].1@ == hosted(
                    values@[j].1@,
                ),
        decreases values@.len() - i,
    {
        out.push((String::from_str(values[i].0.as_str()), value_to_steel(&values[i].1)));
        i = i + 1;
    }
    assert(named_host(out@) =~= named_values(values@).map_values(
        |e: (Seq<char>, ValueView)| (e.0, hosted(e.1)),
    ));
    out
}

/// Where both kinds of host hand in an integer in range, they are taken
/// alike.
pub proof fn law_hosts_agree(kind: FieldType, i: i64)
    requires
        0 <= i,
        !(kind is Str || kind is Bytes || kind is FixedBytes),
        strict(kind, HostView::Int(i)) is Ok,
    ensures
        strict(kind, HostView::Int(i)) == lenient(kind, PlainView::UInt(i as u64)),
{
}

/// What a Scheme host is shown of bytes, it can hand back as such.
pub proof fn law_bytes_round_trip(b: Seq<u8>)
    ensures
        strict(FieldType::Bytes, hosted(ValueView::Bytes(b))) == Ok::<ValueView, Expected>(
            ValueView::Bytes(b),
        ),
{
    let shown = b.map_values(|x: u8| x as i64);
    assert(shown.map_values(|i: i64| i as u8) =~= b);
    assert(all_bytes(shown));
}

/// The schemas that a host has handed in, by handles: 1 for the first, then
/// counting up.
pub struct SchemaRegistry {
    pub schemas: Vec<TableSchema>,
}

impl SchemaRegistry {
    /// No schemas.
    pub fn new() -> (r: Self)
        ensures
            r.schemas@ == Seq::<TableSchema>::empty(),
    {
        SchemaRegistry { schemas: Vec::new() }
    }

    /// Keeps a schema; gives its handle.
    pub fn add_schema(&mut self, schema: TableSchema) -> (r: u64)
        ensures
            final(self).schemas@ == old(self).schemas@.push(schema),
            r == old(self).schemas@.len() + 1,
    {
        self.schemas.push(schema);
        self.schemas.len() as u64
    }

    /// The schema of a handle.
    pub fn get_schema(&self, id: i64) -> (r: Option<&TableSchema>)
        ensures
            match r {
                Some(s) => 1 <= id <= self.schemas@.len() && *s == self.schemas@[id - 1],
                None => !(1 <= id <= self.schemas@.len()),
            },
    {
        if id < 1 {
            return None;
        }
        let at: u64 = (id - 1) as u64;
        if at < self.schemas.len() as u64 {
            Some(&self.schemas[at as usize])
        } else {
            None
        }
    }
}

/// Doubling `k` times multiplies by two to the power `k`.
proof fn lemma_doubled_is_power(n: nat, k: nat)
    ensures
        doubled(n, k) == n * vstd::arithmetic::power2::pow2(k),
    decreases k,
{
    let p = vstd::arithmetic::power2::pow2(k) as int;
    if k == 0 {
        vstd::arithmetic::power2::lemma2_to64();
        assert(n * p == n) by (nonlinear_arith)
            requires
                p == 1,
        ;
    } else {
        let q = vstd::arithmetic::power2::pow2((k - 1) as nat) as int;
        lemma_doubled_is_power(n, (k - 1) as nat);
        vstd::arithmetic::power2::lemma_pow2_unfold(k);
        assert(n * p == 2 * (n * q)) by (nonlinear_arith)
            requires
                p == 2 * q,
        ;
    }
}

/// Halving `k` times divides by two to the power `k`, rounding down.
proof fn lemma_halved_is_floor(n: nat, k: nat)
    ensures
        halved(n, k) * vstd::arithmetic::power2::pow2(k) <= n,
        n < (halved(n, k) + 1) * vstd::arithmetic::power2::pow2(k),
    decreases k,
{
    let p = vstd::arithmetic::power2::pow2(k) as int;
    if k == 0 {
        vstd::arithmetic::power2::lemma2_to64();
        assert(n * p == n && (n + 1) * p == n + 1) by (nonlinear_arith)
            requires
                p == 1,
        ;
    } else {
        let q = vstd::arithmetic::power2::pow2((k - 1) as nat) as int;
        let h = halved(n, (k - 1) as nat) as int;
        let x = halved(n, k) as int;
        lemma_halved_is_floor(n, (k - 1) as nat);
        vstd::arithmetic::power2::lemma_pow2_unfold(k);
        vstd::arithmetic::power2::lemma_pow2_pos((k - 1) as nat);
        assert(x == h / 2);
        assert(x * p <= h * q) by (nonlinear_arith)
            requires
                p == 2 * q,
                2 * x <= h,
                q > 0,
        ;
        assert((h + 1) * q <= (x + 1) * p) by (nonlinear_arith)
            requires
                p == 2 * q,
                h + 1 <= 2 * (x + 1),
                q > 0,
        ;
    }
}

/// A double of one or more, below two to the power 64, is cut to the whole
/// number below it: `m` times two to the power `e - 1075` is the double with
/// the exponent bits `e` and the significand `m`.
pub proof fn law_cut_rounds_down(bits: u64)
    requires
        bits < 0x8000_0000_0000_0000,
        1023 <= bits / 0x10_0000_0000_0000 < 1087,
    ensures
        ({
            let e = bits / 0x10_0000_0000_0000;
            let m = 0x10_0000_0000_0000 + bits % 0x10_0000_0000_0000;
            let x = cut(bits);
            &&& e >= 1075 ==> x == m * vstd::arithmetic::power2::pow2((e - 1075) as nat)
            &&& e < 1075 ==> x * vstd::arithmetic::power2::pow2((1075 - e) as nat) <= m
            &&& e < 1075 ==> m < (x + 1) * vstd::arithmetic::power2::pow2((1075 - e) as nat)
            &&& x >= 1
        }),
{
    let e = bits as nat / 0x10_0000_0000_0000;
    let m = 0x10_0000_0000_0000 + bits as nat % 0x10_0000_0000_0000;
    assert(e % 2048 == e);
    if e >= 1075 {
        let k = (e - 1075) as nat;
        lemma_doubled(m, k);
        lemma_doubled_is_power(m, k);
        vstd::arithmetic::power2::lemma_pow2_pos(k);
        let p = vstd::arithmetic::power2::pow2(k) as int;
        assert(m * p >= 1) by (nonlinear_arith)
            requires
                m >= 1,
                p >= 1,
        ;
    } else {
        let k = (1075 - e) as nat;
        lemma_halved_is_floor(m, k);
        vstd::arithmetic::power2::lemma_pow2_strictly_increases(k, 53);
        vstd::arithmetic::power2::lemma2_to64_rest();
        vstd::arithmetic::power2::lemma_pow2_pos(k);
        let p = vstd::arithmetic::power2::pow2(k) as int;
        let h = halved(m, k) as int;
        assert(p <= 0x10_0000_0000_0000) by {
            if k < 52 {
                vstd::arithmetic::power2::lemma_pow2_strictly_increases(k, 52);
            }
        }
        assert(1 <= h <= m) by (nonlinear_arith)
            requires
                h * p <= m,
                m < (h + 1) * p,
                1 <= p <= m,
                h >= 0,
        ;
    }
}

/// Doubles below one, negative doubles and what is no number are cut to
/// zero, and doubles of two to the power 64 and more to the largest number.
pub proof fn law_cut_out_of_range(bits: u64)
    ensures
        bits >= 0x8000_0000_0000_0000 ==> cut(bits) == 0,
        bits < 1023 * 0x10_0000_0000_0000 ==> cut(bits) == 0,
        1087 * 0x10_0000_0000_0000 <= bits <= 2047 * 0x10_0000_0000_0000 ==> cut(bits)
            == u64::MAX,
        2047 * 0x10_0000_0000_0000 < bits < 0x8000_0000_0000_0000 ==> cut(bits) == 0,
{
}

/// The number that a value holds.
pub open spec fn number_of(v: ValueView) -> Option<int> {
    match v {
        ValueView::U8(x) => Some(x as int),
        ValueView::U16(x) => Some(x as int),
        ValueView::U32(x) => Some(x as int),
        ValueView::U64(x) => Some(x as int),
        ValueView::I64(x) => Some(x as int),
        _ => None,
    }
}

/// How many numbers a field of a kind of number tells apart.
pub open spec fn numbers_of(kind: FieldType) -> int {
    match kind {
        FieldType::U8 | FieldType::Enum => 0x100,
        FieldType::U16 => 0x1_0000,
        FieldType::U32 => 0x1_0000_0000,
        _ => 0x1_0000_0000_0000_0000,
    }
}

/// Fields that hold numbers.
pub open spec fn is_numeric(kind: FieldType) -> bool {
    !(kind is Str || kind is Bytes || kind is FixedBytes)
}

/// An integer of a Scheme host is taken as it is, or not at all: exactly
/// those are taken that the field can tell apart.
pub proof fn law_strict_keeps_numbers(kind: FieldType, i: i64)
    requires
        is_numeric(kind),
    ensures
        strict(kind, HostView::Int(i)) is Ok <==> 0 <= i < numbers_of(kind),
        strict(kind, HostView::Int(i)) matches Ok(v) ==> number_of(v) == Some(i as int),
{
}

/// An integer of a Python host is taken modulo the numbers that the field
/// tells apart.
pub proof fn law_lenient_wraps_numbers(kind: FieldType, x: u64)
    requires
        is_numeric(kind),
    ensures
        lenient(kind, PlainView::UInt(x)) is Ok,
        lenient(kind, PlainView::UInt(x)) matches Ok(v) ==> number_of(v) == Some(
            x as int % numbers_of(kind),
        ),
{
}

/// A field of numbers expects the same of both kinds of host.
pub proof fn law_hosts_expect_alike(kind: FieldType, i: i64, v: PlainView)
    requires
        is_numeric(kind),
        i < 0,
        !(v is UInt),
    ensures
        lenient(kind, v) is Err,
        strict(kind, HostView::Int(i)) == lenient(kind, v),
{
}

/// What is no number and no truth value is not taken by a field of numbers;
/// text is taken by text fields alone, and a list by fields of bytes alone,
/// if it holds bytes.
pub proof fn law_strict_refuses(kind: FieldType, v: HostView)
    ensures
        is_numeric(kind) && strict(kind, v) is Ok ==> v is Int || v is Num || v is Bool,
        v is Str ==> (strict(kind, v) is Ok <==> kind is Str),
        v is Ints ==> (strict(kind, v) is Ok <==> (kind is Bytes || kind is FixedBytes)
            && all_bytes(v->Ints_0)),
        v is Void || v is Other ==> strict(kind, v) is Err,
        v is Bool ==> (strict(kind, v) is Ok <==> is_numeric(kind)),
        v is Num ==> (strict(kind, v) is Ok <==> is_numeric(kind) && numbers_of(kind)
            == 0x1_0000_0000_0000_0000),
{
}

/// A double of a Scheme host is taken as the whole number that it is cut to.
pub proof fn law_strict_cuts_doubles(kind: FieldType, bits: u64)
    ensures
        strict(kind, HostView::Num(bits)) matches Ok(v) ==> number_of(v) == Some(
            cut(bits) as int,
        ),
{
}

/// What a Scheme host is shown of a value, the field of that value takes
/// back as that value.
pub proof fn law_shown_values_return(kind: FieldType, v: ValueView)
    ensures
        (kind is U8 || kind is Enum) && v is U8 ==> strict(kind, hosted(v)) == Ok::<
            ValueView,
            Expected,
        >(v),
        kind is U16 && v is U16 ==> strict(kind, hosted(v)) == Ok::<ValueView, Expected>(v),
        kind is U32 && v is U32 ==> strict(kind, hosted(v)) == Ok::<ValueView, Expected>(v),
        is_numeric(kind) && numbers_of(kind) == 0x1_0000_0000_0000_0000 && v is U64 && v->U64_0
            <= i64::MAX ==> strict(kind, hosted(v)) == Ok::<ValueView, Expected>(v),
        kind is Str && v is Str ==> strict(kind, hosted(v)) == Ok::<ValueView, Expected>(v),
        (kind is Bytes || kind is FixedBytes) && v is Bytes ==> strict(kind, hosted(v)) == Ok::<
            ValueView,
            Expected,
        >(v),
        is_numeric(kind) && !(kind is U8) && v is Bool ==> strict(kind, hosted(v)) == Ok::<
            ValueView,
            Expected,
        >(v),
{
    if let ValueView::Bytes(b) = v {
        law_bytes_round_trip(b);
    }
}

/// A truth value is taken by a one-byte number as one or zero.
pub proof fn law_truth_is_one(b: bool)
    ensures
        strict(FieldType::U8, HostView::Bool(b)) == strict(
            FieldType::U8,
            HostView::Int(if b { 1i64 } else { 0i64 }),
        ),
{
}

/// Two values of one kind are shown alike only if they are the same, and a
/// number is shown as itself, modulo two to the power 64.
pub proof fn law_shown_values_apart(a: ValueView, b: ValueView)
    requires
        hosted(a) == hosted(b),
    ensures
        number_of(a) is Some <==> number_of(b) is Some,
        number_of(a) is Some ==> (number_of(a)->0 - number_of(b)->0) % 0x1_0000_0000_0000_0000
            == 0,
        number_of(a) is None ==> a == b,
{
    if let (ValueView::Bytes(x), ValueView::Bytes(y)) = (a, b) {
        let p = x.map_values(|c: u8| c as i64);
        let q = y.map_values(|c: u8| c as i64);
        assert(p == q);
        assert forall|i: int| 0 <= i < x.len() implies x[i] == y[i] by {
            assert(p[i] == q[i]);
        }
        assert(x =~= y);
    }
}

/// A field is found exactly if one has its name, and the first one of the
/// name decides.
pub proof fn law_first_field_decides(
    fields: Seq<crate::schema::FieldSchemaView>,
    name: Seq<char>,
    i: int,
)
    requires
        0 <= i < fields.len(),
    ensures
        fields[i].name == name ==> kind_of_field(fields, name) is Some,
        fields[i].name == name && (forall|j: int|
            0 <= j < i ==> #[trigger] fields[j].name != name) ==> kind_of_field(fields, name)
            == Some(fields[i].ty),
    decreases fields.len(),
{
    if fields[0].name != name && i > 0 {
        let rest = fields.drop_first();
        law_first_field_decides(rest, name, i - 1);
        if forall|j: int| 0 <= j < i ==> #[trigger] fields[j].name != name {
            assert forall|j: int| 0 <= j < i - 1 implies #[trigger] rest[j].name != name by {
                assert(fields[j + 1].name != name);
            }
        }
    } else if i > 0 {
        assert(fields[0].name == name);
    }
}

/// A field that nobody has declared is not found.
pub proof fn law_undeclared_is_not_found(
    fields: Seq<crate::schema::FieldSchemaView>,
    name: Seq<char>,
)
    requires
        forall|j: int| 0 <= j < fields.len() ==> #[trigger] fields[j].name != name,
    ensures
        kind_of_field(fields, name) is None,
    decreases fields.len(),
{
    if fields.len() > 0 {
        let rest = fields.drop_first();
        assert forall|j: int| 0 <= j < rest.len() implies #[trigger] rest[j].name != name by {
            assert(fields[j + 1].name != name);
        }
        assert(fields[0].name != name);
        law_undeclared_is_not_found(rest, name);
    }
}

/// A map of a Scheme host is taken as a whole, each value by its own field
/// and in its place, or refused for the first value that is not taken.
pub proof fn law_strict_map_is_each(
    fields: Seq<crate::schema::FieldSchemaView>,
    entries: Seq<(Seq<char>, HostView)>,
    i: int,
)
    requires
        0 <= i < entries.len(),
    ensures
        match strict_map(fields, entries) {
            Ok(m) => m.len() == entries.len() && m[i].0 == entries[i].0 && strict_entry(
                fields,
                entries[i],
            ) == Ok::<ValueView, ValueErrorView>(m[i].1),
            Err(e) => (forall|j: int|
                0 <= j < i ==> strict_entry(fields, #[trigger] entries[j]) is Ok) && strict_entry(
                fields,
                entries[i],
            ) is Err ==> strict_entry(fields, entries[i]) == Err::<ValueView, ValueErrorView>(e),
        },
        strict_entry(fields, entries[i]) is Err ==> strict_map(fields, entries) is Err,
    decreases entries.len(),
{
    let front = entries.drop_last();
    if i < entries.len() - 1 {
        law_strict_map_is_each(fields, front, i);
        assert(front[i] == entries[i]);
        if (forall|j: int| 0 <= j < i ==> strict_entry(fields, #[trigger] entries[j]) is Ok)
            && strict_entry(fields, entries[i]) is Err {
            assert forall|j: int| 0 <= j < i implies strict_entry(
                fields,
                #[trigger] front[j],
            ) is Ok by {
                assert(front[j] == entries[j]);
            }
        }
    } else if strict_map(fields, front) is Err {
        if forall|j: int| 0 <= j < i ==> strict_entry(fields, #[trigger] entries[j]) is Ok {
            lemma_strict_all(fields, front);
        }
    }
    lemma_strict_len(fields, front);
}

proof fn lemma_strict_len(
    fields: Seq<crate::schema::FieldSchemaView>,
    entries: Seq<(Seq<char>, HostView)>,
)
    ensures
        strict_map(fields, entries) matches Ok(m) ==> m.len() == entries.len(),
    decreases entries.len(),
{
    if entries.len() > 0 {
        lemma_strict_len(fields, entries.drop_last());
    }
}

proof fn lemma_strict_all(
    fields: Seq<crate::schema::FieldSchemaView>,
    entries: Seq<(Seq<char>, HostView)>,
)
    requires
        forall|j: int| 0 <= j < entries.len() ==> strict_entry(fields, #[trigger] entries[j]) is Ok,
    ensures
        strict_map(fields, entries) is Ok,
    decreases entries.len(),
{
    if entries.len() > 0 {
        let front = entries.drop_last();
        assert forall|j: int| 0 <= j < front.len() implies strict_entry(
            fields,
            #[trigger] front[j],
        ) is Ok by {
            assert(front[j] == entries[j]);
        }
        lemma_strict_all(fields, front);
        assert(strict_entry(fields, entries[entries.len() - 1]) is Ok);
    }
}

/// A map of a Python host is taken as a whole, each value by its own field
/// and in its place, or refused for the first value that is not taken.
pub proof fn law_lenient_map_is_each(
    fields: Seq<crate::schema::FieldSchemaView>,
    entries: Seq<(Seq<char>, PlainView)>,
    i: int,
)
    requires
        0 <= i < entries.len(),
    ensures
        match lenient_map(fields, entries) {
            Ok(m) => m.len() == entries.len() && m[i].0 == entries[i].0 && lenient_entry(
                fields,
                entries[i],
            ) == Ok::<ValueView, ValueErrorView>(m[i].1),
            Err(e) => (forall|j: int|
                0 <= j < i ==> lenient_entry(fields, #[trigger] entries[j]) is Ok)
                && lenient_entry(fields, entries[i]) is Err ==> lenient_entry(fields, entries[i])
                == Err::<ValueView, ValueErrorView>(e),
        },
        lenient_entry(fields, entries[i]) is Err ==> lenient_map(fields, entries) is Err,
    decreases entries.len(),
{
    let front = entries.drop_last();
    if i < entries.len() - 1 {
        law_lenient_map_is_each(fields, front, i);
        assert(front[i] == entries[i]);
        if (forall|j: int| 0 <= j < i ==> lenient_entry(fields, #[trigger] entries[j]) is Ok)
            && lenient_entry(fields, entries[i]) is Err {
            assert forall|j: int| 0 <= j < i implies lenient_entry(
                fields,
                #[trigger] front[j],
            ) is Ok by {
                assert(front[j] == entries[j]);
            }
        }
    } else if lenient_map(fields, front) is Err {
        if forall|j: int| 0 <= j < i ==> lenient_entry(fields, #[trigger] entries[j]) is Ok {
            lemma_lenient_all(fields, front);
        }
    }
    lemma_lenient_len(fields, front);
}

proof fn lemma_lenient_len(
    fields: Seq<crate::schema::FieldSchemaView>,
    entries: Seq<(Seq<char>, PlainView)>,
)
    ensures
        lenient_map(fields, entries) matches Ok(m) ==> m.len() == entries.len(),
    decreases entries.len(),
{
    if entries.len() > 0 {
        lemma_lenient_len(fields, entries.drop_last());
    }
}

proof fn lemma_lenient_all(
    fields: Seq<crate::schema::FieldSchemaView>,
    entries: Seq<(Seq<char>, PlainView)>,
)
    requires
        forall|j: int|
            0 <= j < entries.len() ==> lenient_entry(fields, #[trigger] entries[j]) is Ok,
    ensures
        lenient_map(fields, entries) is Ok,
    decreases entries.len(),
{
    if entries.len() > 0 {
        let front = entries.drop_last();
        assert forall|j: int| 0 <= j < front.len() implies lenient_entry(
            fields,
            #[trigger] front[j],
        ) is Ok by {
            assert(front[j] == entries[j]);
        }
        lemma_lenient_all(fields, front);
        assert(lenient_entry(fields, entries[entries.len() - 1]) is Ok);
    }
}

/// A value of a map is taken under its name by the field of that name, and
/// refused where no field has it.
pub proof fn law_entries_go_by_name(
    fields: Seq<crate::schema::FieldSchemaView>,
    name: Seq<char>,
    h: HostView,
    p: PlainView,
)
    ensures
        kind_of_field(fields, name) is None ==> strict_entry(fields, (name, h)) == Err::<
            ValueView,
            ValueErrorView,
        >(ValueErrorView::Undeclared(name)) && lenient_entry(fields, (name, p)) == Err::<
            ValueView,
            ValueErrorView,
        >(ValueErrorView::Undeclared(name)),
        kind_of_field(fields, name) matches Some(ty) ==> (strict_entry(fields, (name, h)) is Ok
            <==> strict(ty, h) is Ok) && (strict(ty, h) matches Ok(v) ==> strict_entry(
            fields,
            (name, h),
        ) == Ok::<ValueView, ValueErrorView>(v)) && (strict(ty, h) matches Err(x) ==> strict_entry(
            fields,
            (name, h),
        ) == Err::<ValueView, ValueErrorView>(ValueErrorView::Kind(name, x))),
        kind_of_field(fields, name) matches Some(ty) ==> (lenient_entry(fields, (name, p)) is Ok
            <==> lenient(ty, p) is Ok) && (lenient(ty, p) matches Ok(v) ==> lenient_entry(
            fields,
            (name, p),
        ) == Ok::<ValueView, ValueErrorView>(v)) && (lenient(ty, p) matches Err(x)
            ==> lenient_entry(fields, (name, p)) == Err::<ValueView, ValueErrorView>(
            ValueErrorView::Kind(name, x),
        )),
{
}

/// Text and bytes of a Python host are taken as they are by the fields that
/// hold them, and by no others.
pub proof fn law_lenient_keeps_text_and_bytes(kind: FieldType, v: PlainView)
    ensures
        v matches PlainView::Str(s) ==> if kind is Str {
            lenient(kind, v) == Ok::<ValueView, Expected>(ValueView::Str(s))
        } else {
            lenient(kind, v) is Err
        },
        v matches PlainView::Bytes(b) ==> if kind is Bytes || kind is FixedBytes {
            lenient(kind, v) == Ok::<ValueView, Expected>(ValueView::Bytes(b))
        } else {
            lenient(kind, v) is Err
        },
        v is Other ==> lenient(kind, v) is Err,
        v is UInt && !is_numeric(kind) ==> lenient(kind, v) is Err,
{
}

/// The key decides before the fixed-width fields, and these before the
/// fields of variable length.
pub proof fn law_schema_parts_in_order(s: TableSchema, name: Seq<char>)
    ensures
        ({
            let a = crate::schema::schema_list(s.key_fields@);
            let b = crate::schema::schema_list(s.hot_fields@);
            let c = crate::schema::schema_list(s.cold_fields@);
            let found = kind_of_field(schema_fields(s), name);
            &&& kind_of_field(a, name) is Some ==> found == kind_of_field(a, name)
            &&& kind_of_field(a, name) is None && kind_of_field(b, name) is Some ==> found
                == kind_of_field(b, name)
            &&& kind_of_field(a, name) is None && kind_of_field(b, name) is None ==> found
                == kind_of_field(c, name)
        }),
{
    let a = crate::schema::schema_list(s.key_fields@);
    let b = crate::schema::schema_list(s.hot_fields@);
    let c = crate::schema::schema_list(s.cold_fields@);
    lemma_kind_split(a + b, c, name);
    lemma_kind_split(a, b, name);
}

/// No two expectations share their words. An error names its field, tells
/// what was expected, and ends with what was got, where that is shown.
pub proof fn law_errors_in_words(a: Expected, b: Expected, n: Seq<char>, got: Seq<char>)
    ensures
        expected_words(a) == expected_words(b) <==> a == b,
        error_words(ValueErrorView::Kind(n, a)) == error_words(ValueErrorView::Kind(n, b)) <==> a
            == b,
        error_words_got(ValueErrorView::Kind(n, a), got).take(
            error_words(ValueErrorView::Kind(n, a)).len() as int,
        ) == error_words(ValueErrorView::Kind(n, a)),
        error_words_got(ValueErrorView::Kind(n, a), got).skip(
            error_words_got(ValueErrorView::Kind(n, a), got).len() - got.len(),
        ) == got,
        error_words_got(ValueErrorView::Undeclared(n), got) == error_words(
            ValueErrorView::Undeclared(n),
        ),
        error_words(ValueErrorView::Kind(n, a)).subrange(7, 7 + n.len() as int) == n,
        error_words(ValueErrorView::Undeclared(n)).subrange(7, 7 + n.len() as int) == n,
{
    reveal_strlit("string");
    reveal_strlit("vector of integers 0-255");
    reveal_strlit("u8");
    reveal_strlit("u16");
    reveal_strlit("u32");
    reveal_strlit("u64");
    reveal_strlit("enum tag u8");
    reveal_strlit("numeric");
    reveal_strlit("bytes");
    reveal_strlit("str");
    reveal_strlit("field `");
    let x = expected_words(a);
    let y = expected_words(b);
    if x == y {
        assert(x.len() == y.len());
        assert(x[0] == y[0] && x[1] == y[1]);
    }
    let front = "field `"@ + n + "`: expected "@;
    let p = error_words(ValueErrorView::Kind(n, a));
    let q = error_words(ValueErrorView::Kind(n, b));
    if p == q {
        assert(p.skip(front.len() as int) =~= x);
        assert(q.skip(front.len() as int) =~= y);
    }
    let g = error_words_got(ValueErrorView::Kind(n, a), got);
    assert(g.take(p.len() as int) =~= p);
    assert(g.skip(g.len() - got.len()) =~= got);
    assert(p.subrange(7, 7 + n.len() as int) =~= n);
    assert(error_words(ValueErrorView::Undeclared(n)).subrange(7, 7 + n.len() as int) =~= n);
}

} // verus!
