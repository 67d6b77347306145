//! Documents in a namespace chosen at run time, under keys that are lists
//! of named fields.
//!
//! A key is written field by field as `[id u16 BE][body]`, and the body so
//! that byte order is value order: unsigned numbers and booleans big-endian,
//! signed numbers with the sign bit flipped, doubles in total order, text
//! and bytes escaped and terminated. Documents are the frames of
//! [`crate::model::obj_dynamic`]; the names of key fields and document fields
//! share one dictionary.

use vstd::prelude::*;
use vstd::string::StringExecFns;

use crate::bytes::{be_vec, bytes_eq, push_be, read_be, slice_from, slice_to, to_vec};
use crate::engine::storage::{as_bound, scan_prefix_kv, VirtualStorage};
use crate::model::index::{make_key, DICT_ID_SLOT, DICT_NAME_SLOT, PRIMARY_SLOT};
use crate::model::obj_dict::{DictStore, StoreNames};
use crate::model::obj_dynamic::{
    decode_named, encode_fields, DynamicValue, FieldMap, NameLookup, NameResolver,
};
use crate::text::{str_eq, utf8_string};

verus! {

/// The kinds of key fields. The stored key does not carry them; whoever
/// reads it does.
#[derive(Clone, Copy, Debug, PartialEq, Eq, Structural)]
pub enum KeyKind {
    Null,
    Bool,
    UInt,
    Int,
    F64,
    Str,
    Bytes,
}

/// Why a key could not be written or read.
#[derive(Clone, Copy, Debug, PartialEq, Eq, Structural)]
pub enum KeyError {
    /// An array or object as a key field.
    Unsupported,
    /// More than eight bytes of an unsigned number.
    UintOverflow,
    /// More than eight bytes of a signed number.
    IntOverflow,
    /// A double of another width than eight bytes.
    FloatWidth,
    /// Text without its terminator.
    StrTerminator,
    /// Bytes without their terminator.
    BytesTerminator,
    /// Text that is not UTF-8.
    NotUtf8,
    /// The key ends before its fields do.
    Truncated,
}

impl KeyError {
    /// The error in words.
    pub fn message(&self) -> (r: String)
        ensures
            r@ == self.words(),
    {
        String::from_str(
            match self {
                KeyError::Unsupported =>
                    "unsupported key field value (Array/Obj keys are rejected: flatten first)",
                KeyError::UintOverflow => "uint key body overflows u64",
                KeyError::IntOverflow => "int key body overflows i64",
                KeyError::FloatWidth => "f64 key body must be 8 bytes",
                KeyError::StrTerminator => "str key body missing terminator",
                KeyError::BytesTerminator => "bytes key body missing terminator",
                KeyError::NotUtf8 => "str key body is not UTF-8",
                KeyError::Truncated => "key frame truncated",
            },
        )
    }

    /// The error in words, with what was refused: `shown` is the value of a
    /// field that no key can hold, or what a text reader says of bytes that
    /// are not UTF-8. The other errors show nothing.
    pub fn message_with(&self, shown: &str) -> (r: String)
        ensures
            r@ == self.words_with(shown@),
    {
        match self {
            KeyError::Unsupported => {
                let mut s = String::from_str("unsupported key field value: ");
                s.append(shown);
                s.append(" (Array/Obj keys are rejected — flatten first)");
                s
            },
            KeyError::NotUtf8 => String::from_str(shown),
            _ => self.message(),
        }
    }

    /// The error in words, with what was refused.
    pub open spec fn words_with(&self, shown: Seq<char>) -> Seq<char> {
        match self {
            KeyError::Unsupported => "unsupported key field value: "@ + shown
                + " (Array/Obj keys are rejected — flatten first)"@,
            KeyError::NotUtf8 => shown,
            _ => self.words(),
        }
    }

    /// The error in words.
    pub open spec fn words(&self) -> Seq<char> {
        match self {
            KeyError::Unsupported =>
                "unsupported key field value (Array/Obj keys are rejected: flatten first)"@,
            KeyError::UintOverflow => "uint key body overflows u64"@,
            KeyError::IntOverflow => "int key body overflows i64"@,
            KeyError::FloatWidth => "f64 key body must be 8 bytes"@,
            KeyError::StrTerminator => "str key body missing terminator"@,
            KeyError::BytesTerminator => "bytes key body missing terminator"@,
            KeyError::NotUtf8 => "str key body is not UTF-8"@,
            KeyError::Truncated => "key frame truncated"@,
        }
    }
}

/// Escaped and terminated bytes: `00` becomes `00 FF`, and a single `00`
/// ends them.
pub open spec fn escaped(b: Seq<u8>) -> Seq<u8>
    decreases b.len(),
{
    if b.len() == 0 {
        seq![0u8]
    } else if b[0] == 0 {
        seq![0u8, 0xFFu8] + escaped(b.drop_first())
    } else {
        seq![b[0]] + escaped(b.drop_first())
    }
}

/// The bytes up to the terminator, and how many stored bytes they took.
/// `None` without a terminator.
pub open spec fn unescaped(b: Seq<u8>) -> Option<(Seq<u8>, nat)>
    decreases b.len(),
{
    if b.len() == 0 {
        None
    } else if b[0] == 0 && b.len() > 1 && b[1] == 0xFF {
        match unescaped(b.skip(2)) {
            Some((raw, n)) => Some((seq![0u8] + raw, n + 2)),
            None => None,
        }
    } else if b[0] == 0 {
        Some((Seq::empty(), 1))
    } else {
        match unescaped(b.skip(1)) {
            Some((raw, n)) => Some((seq![b[0]] + raw, n + 1)),
            None => None,
        }
    }
}

/// Escaped bytes read back as they were, unless what follows begins with
/// `FF`.
pub proof fn law_escape_round_trip(b: Seq<u8>, rest: Seq<u8>)
    requires
        rest.len() == 0 || rest[0] != 0xFF,
    ensures
        unescaped(escaped(b) + rest) == Some((b, escaped(b).len())),
    decreases b.len(),
{
    let e = escaped(b) + rest;
    if b.len() == 0 {
        assert(b =~= Seq::empty());
    } else {
        let t = b.drop_first();
        law_escape_round_trip(t, rest);
        if b[0] == 0 {
            assert(e.skip(2) =~= escaped(t) + rest);
            assert(seq![0u8] + t =~= b);
        } else {
            assert(e.skip(1) =~= escaped(t) + rest);
            assert(seq![b[0]] + t =~= b);
        }
    }
}

/// Bytes in which every `00` is followed by `FF`.
pub open spec fn endless(b: Seq<u8>) -> bool {
    forall|i: int|
        0 <= i < b.len() && #[trigger] b[i] == 0 ==> i + 1 < b.len() && b[i + 1] == 0xFF
}

/// Bytes have no terminator exactly if every `00` in them is followed by
/// `FF`.
pub proof fn law_needs_terminator(b: Seq<u8>)
    ensures
        unescaped(b) is None <==> endless(b),
    decreases b.len(),
{
    if b.len() > 0 {
        let n: int = if b[0] == 0 && b.len() > 1 && b[1] == 0xFF {
            2
        } else {
            1
        };
        let t = b.skip(n);
        law_needs_terminator(t);
        if endless(b) {
            assert forall|i: int| 0 <= i < t.len() && #[trigger] t[i] == 0 implies i + 1 < t.len()
                && t[i + 1] == 0xFF by {
                assert(b[i + n] == 0);
            }
        }
        if endless(t) && (n == 2 || b[0] != 0) {
            assert forall|i: int| 0 <= i < b.len() && #[trigger] b[i] == 0 implies i + 1 < b.len()
                && b[i + 1] == 0xFF by {
                if i >= n {
                    assert(t[i - n] == 0);
                }
            }
        }
    }
}

/// Escaped bytes sort as the bytes do.
pub proof fn law_escape_order(a: Seq<u8>, b: Seq<u8>)
    ensures
        crate::bytes::lex_lt(a, b) <==> crate::bytes::lex_lt(escaped(a), escaped(b)),
{
    crate::bytes::lemma_lex_total(a, b);
    if crate::bytes::lex_lt(a, b) {
        lemma_escape_order(a, b);
    } else if crate::bytes::lex_lt(b, a) {
        lemma_escape_order(b, a);
        crate::bytes::lemma_lex_asymmetric(escaped(b), escaped(a));
    } else {
        crate::bytes::lemma_lex_irreflexive(escaped(a));
    }
}

proof fn lemma_escape_order(a: Seq<u8>, b: Seq<u8>)
    requires
        crate::bytes::lex_lt(a, b),
    ensures
        crate::bytes::lex_lt(escaped(a), escaped(b)),
    decreases a.len(),
{
    let x = escaped(a);
    let y = escaped(b);
    if a.len() == 0 {
        let t = b.drop_first();
        if b[0] == 0 {
            assert(x.drop_first() =~= Seq::empty());
            assert(y.drop_first() =~= seq![0xFFu8] + escaped(t));
            assert(x[0] == y[0]);
            assert(crate::bytes::lex_lt(x.drop_first(), y.drop_first()));
        } else {
            assert(y[0] == b[0]);
        }
    } else if a[0] != b[0] {
        assert(x[0] == a[0]);
        assert(y[0] == b[0]);
    } else {
        let s = a.drop_first();
        let t = b.drop_first();
        lemma_escape_order(s, t);
        if a[0] == 0 {
            crate::bytes::lemma_lex_shared_prefix(seq![0u8, 0xFFu8], escaped(s), escaped(t));
        } else {
            crate::bytes::lemma_lex_shared_prefix(seq![a[0]], escaped(s), escaped(t));
        }
    }
}

/// The bits of a double as a number that sorts as the double does: the
/// complement of a negative one, a non-negative one above all negatives.
pub open spec fn float_rank(bits: u64) -> nat {
    if bits >= 0x8000_0000_0000_0000 {
        (0xFFFF_FFFF_FFFF_FFFF - bits) as nat
    } else {
        (bits + 0x8000_0000_0000_0000) as nat
    }
}

/// The body of a key field. `None` for a value that no key can hold.
pub open spec fn key_body(v: crate::model::obj_dynamic::DynView) -> Option<Seq<u8>> {
    match v {
        crate::model::obj_dynamic::DynView::Null => Some(Seq::empty()),
        crate::model::obj_dynamic::DynView::Bool(b) => Some(
            seq![if b { 1u8 } else { 0u8 }],
        ),
        crate::model::obj_dynamic::DynView::UInt(n) => Some(crate::bytes::be_bytes(n, 8)),
        crate::model::obj_dynamic::DynView::Int(n) => Some(
            crate::bytes::be_bytes((n + 0x8000_0000_0000_0000) as nat, 8),
        ),
        crate::model::obj_dynamic::DynView::F64(bits) => Some(
            crate::bytes::be_bytes(float_rank(bits), 8),
        ),
        crate::model::obj_dynamic::DynView::Str(s) => Some(escaped(vstd::utf8::encode_utf8(s))),
        crate::model::obj_dynamic::DynView::Bytes(b) => Some(escaped(b)),
        _ => None,
    }
}

/// The kind of a value that a key can hold.
pub open spec fn kind_of(v: crate::model::obj_dynamic::DynView) -> KeyKind {
    match v {
        crate::model::obj_dynamic::DynView::Null => KeyKind::Null,
        crate::model::obj_dynamic::DynView::Bool(_) => KeyKind::Bool,
        crate::model::obj_dynamic::DynView::UInt(_) => KeyKind::UInt,
        crate::model::obj_dynamic::DynView::Int(_) => KeyKind::Int,
        crate::model::obj_dynamic::DynView::F64(_) => KeyKind::F64,
        crate::model::obj_dynamic::DynView::Str(_) => KeyKind::Str,
        _ => KeyKind::Bytes,
    }
}

/// Values of this kind end where a terminator says, not after a number of
/// bytes.
pub open spec fn terminated(kind: KeyKind) -> bool {
    kind is Str || kind is Bytes
}

/// How many bytes of `rest` the body of a key field takes.
pub open spec fn body_end(kind: KeyKind, rest: Seq<u8>) -> nat {
    match kind {
        KeyKind::Null => 0,
        KeyKind::Bool => 1,
        KeyKind::UInt | KeyKind::Int => if rest.len() < 8 {
            rest.len()
        } else {
            8
        },
        KeyKind::F64 => 8,
        KeyKind::Str | KeyKind::Bytes => match unescaped(rest) {
            Some((_, n)) => n,
            None => rest.len(),
        },
    }
}

/// The value that the body of a key field holds.
pub open spec fn body_key_value(kind: KeyKind, body: Seq<u8>) -> Result<
    crate::model::obj_dynamic::DynView,
    KeyError,
> {
    match kind {
        KeyKind::Null => Ok(crate::model::obj_dynamic::DynView::Null),
        KeyKind::Bool => Ok(
            crate::model::obj_dynamic::DynView::Bool(body.len() > 0 && body[0] != 0),
        ),
        KeyKind::UInt => if body.len() > 8 {
            Err(KeyError::UintOverflow)
        } else {
            Ok(crate::model::obj_dynamic::DynView::UInt(crate::bytes::be_value(body)))
        },
        KeyKind::Int => if body.len() > 8 {
            Err(KeyError::IntOverflow)
        } else {
            Ok(
                crate::model::obj_dynamic::DynView::Int(
                    crate::bytes::be_value(body) - 0x8000_0000_0000_0000,
                ),
            )
        },
        KeyKind::F64 => if body.len() != 8 {
            Err(KeyError::FloatWidth)
        } else {
            let r = crate::bytes::be_value(body);
            Ok(
                crate::model::obj_dynamic::DynView::F64(
                    if r >= 0x8000_0000_0000_0000 {
                        (r - 0x8000_0000_0000_0000) as u64
                    } else {
                        (0xFFFF_FFFF_FFFF_FFFF - r) as u64
                    },
                ),
            )
        },
        KeyKind::Str => match unescaped(body) {
            None => Err(KeyError::StrTerminator),
            Some((raw, _)) => if vstd::utf8::valid_utf8(raw) {
                Ok(crate::model::obj_dynamic::DynView::Str(vstd::utf8::decode_utf8(raw)))
            } else {
                Err(KeyError::NotUtf8)
            },
        },
        KeyKind::Bytes => match unescaped(body) {
            None => Err(KeyError::BytesTerminator),
            Some((raw, _)) => Ok(crate::model::obj_dynamic::DynView::Bytes(raw)),
        },
    }
}

/// The body of a key field reads back as the value it was written from. What
/// follows text or bytes must not begin with `FF`.
pub proof fn law_key_body_round_trip(v: crate::model::obj_dynamic::DynView, rest: Seq<u8>)
    requires
        key_body(v) is Some,
        crate::model::obj_dynamic::canonical(v),
        terminated(kind_of(v)) ==> rest.len() == 0 || rest[0] != 0xFF,
    ensures
        body_end(kind_of(v), key_body(v)->0 + rest) == (key_body(v)->0).len(),
        body_key_value(kind_of(v), key_body(v)->0) == Ok::<
            crate::model::obj_dynamic::DynView,
            KeyError,
        >(v),
{
    broadcast use vstd::utf8::encode_utf8_decode_utf8, vstd::utf8::encode_utf8_valid_utf8;

    let b = key_body(v)->0;
    crate::bytes::lemma_pow256_small();
    match v {
        crate::model::obj_dynamic::DynView::UInt(n) => {
            crate::bytes::lemma_be_bytes_len(n, 8);
            crate::bytes::lemma_be_round_trip(n, 8);
        },
        crate::model::obj_dynamic::DynView::Int(n) => {
            let u = (n + 0x8000_0000_0000_0000) as nat;
            crate::bytes::lemma_be_bytes_len(u, 8);
            crate::bytes::lemma_be_round_trip(u, 8);
        },
        crate::model::obj_dynamic::DynView::F64(bits) => {
            crate::bytes::lemma_be_bytes_len(float_rank(bits), 8);
            crate::bytes::lemma_be_round_trip(float_rank(bits), 8);
        },
        crate::model::obj_dynamic::DynView::Str(s) => {
            let raw = vstd::utf8::encode_utf8(s);
            law_escape_round_trip(raw, rest);
            law_escape_round_trip(raw, Seq::empty());
            assert(b + Seq::<u8>::empty() =~= b);
        },
        crate::model::obj_dynamic::DynView::Bytes(raw) => {
            law_escape_round_trip(raw, rest);
            law_escape_round_trip(raw, Seq::empty());
            assert(b + Seq::<u8>::empty() =~= b);
        },
        _ => {},
    }
}

/// Values of one kind by their order: numbers by size, doubles in total
/// order, text and bytes by their bytes.
pub open spec fn value_lt(a: crate::model::obj_dynamic::DynView, b: crate::model::obj_dynamic::DynView) -> bool {
    match (a, b) {
        (
            crate::model::obj_dynamic::DynView::UInt(x),
            crate::model::obj_dynamic::DynView::UInt(y),
        ) => x < y,
        (
            crate::model::obj_dynamic::DynView::Int(x),
            crate::model::obj_dynamic::DynView::Int(y),
        ) => x < y,
        (
            crate::model::obj_dynamic::DynView::F64(x),
            crate::model::obj_dynamic::DynView::F64(y),
        ) => float_rank(x) < float_rank(y),
        (
            crate::model::obj_dynamic::DynView::Bool(x),
            crate::model::obj_dynamic::DynView::Bool(y),
        ) => !x && y,
        (
            crate::model::obj_dynamic::DynView::Str(x),
            crate::model::obj_dynamic::DynView::Str(y),
        ) => crate::text::name_lt(x, y),
        (
            crate::model::obj_dynamic::DynView::Bytes(x),
            crate::model::obj_dynamic::DynView::Bytes(y),
        ) => crate::bytes::lex_lt(x, y),
        _ => false,
    }
}

/// Keys of one kind sort as their values do: numbers by size, doubles in
/// total order, text and bytes by their bytes.
pub proof fn law_key_order(a: crate::model::obj_dynamic::DynView, b: crate::model::obj_dynamic::DynView)
    requires
        crate::model::obj_dynamic::canonical(a),
        crate::model::obj_dynamic::canonical(b),
        value_lt(a, b),
    ensures
        key_body(a) is Some,
        key_body(b) is Some,
        crate::bytes::lex_lt(key_body(a)->0, key_body(b)->0),
{
    crate::bytes::lemma_pow256_small();
    match (a, b) {
        (
            crate::model::obj_dynamic::DynView::UInt(x),
            crate::model::obj_dynamic::DynView::UInt(y),
        ) => crate::bytes::lemma_be_order(x, y, 8),
        (
            crate::model::obj_dynamic::DynView::Int(x),
            crate::model::obj_dynamic::DynView::Int(y),
        ) => crate::bytes::lemma_be_order(
            (x + 0x8000_0000_0000_0000) as nat,
            (y + 0x8000_0000_0000_0000) as nat,
            8,
        ),
        (
            crate::model::obj_dynamic::DynView::F64(x),
            crate::model::obj_dynamic::DynView::F64(y),
        ) => crate::bytes::lemma_be_order(float_rank(x), float_rank(y), 8),
        (
            crate::model::obj_dynamic::DynView::Str(x),
            crate::model::obj_dynamic::DynView::Str(y),
        ) => law_escape_order(vstd::utf8::encode_utf8(x), vstd::utf8::encode_utf8(y)),
        (
            crate::model::obj_dynamic::DynView::Bytes(x),
            crate::model::obj_dynamic::DynView::Bytes(y),
        ) => law_escape_order(x, y),
        _ => {},
    }
}

/// Bytes escaped and terminated.
pub fn escape_terminator(bytes: &[u8]) -> (r: Vec<u8>)
    ensures
        r@ == escaped(bytes@),
{
    let mut out: Vec<u8> = Vec::new();
    let mut i: usize = 0;
    proof {
        assert(bytes@.skip(0) =~= bytes@);
        assert(out@ + escaped(bytes@.skip(0)) =~= escaped(bytes@));
    }
    while i < bytes.len()
        invariant
            i <= bytes@.len(),
            out@ + escaped(bytes@.skip(i as int)) == escaped(bytes@),
        decreases bytes@.len() - i,
    {
        let ghost before = out@;
        let ghost rest = bytes@.skip(i as int);
        assert(rest.drop_first() =~= bytes@.skip(i + 1));
        if bytes[i] == 0 {
            out.push(0);
            out.push(0xFF);
        } else {
            out.push(bytes[i]);
        }
        assert(out@ + escaped(bytes@.skip(i + 1)) =~= before + escaped(rest));
        i = i + 1;
    }
    out.push(0);
    assert(out@ =~= escaped(bytes@));
    out
}

/// The bytes up to the terminator. `None` without one.
pub fn unescape_terminator(bytes: &[u8]) -> (r: Option<Vec<u8>>)
    ensures
        match r {
            Some(raw) => unescaped(bytes@) matches Some(read) && read.0 == raw@,
            None => unescaped(bytes@) is None,
        },
{
    match take_terminated(bytes) {
        Some((raw, _)) => Some(raw),
        None => None,
    }
}

/// The bytes up to the terminator, and how many stored bytes they took.
fn take_terminated(b: &[u8]) -> (r: Option<(Vec<u8>, usize)>)
    ensures
        match r {
            Some((raw, n)) => unescaped(b@) == Some((raw@, n as nat)) && n <= b@.len(),
            None => unescaped(b@) is None,
        },
{
    let mut out: Vec<u8> = Vec::new();
    let mut i: usize = 0;
    let n: usize = b.len();
    assert(b@.skip(0) =~= b@);
    while i < n
        invariant
            i <= n == b@.len(),
            match unescaped(b@.skip(i as int)) {
                Some((raw, k)) => unescaped(b@) == Some((out@ + raw, (i + k) as nat)),
                None => unescaped(b@) is None,
            },
        decreases n - i,
    {
        let ghost rest = b@.skip(i as int);
        let ghost before = out@;
        if b[i] == 0 && i + 1 < n && b[i + 1] == 0xFF {
            out.push(0);
            proof {
                assert(rest.skip(2) =~= b@.skip(i + 2));
                match unescaped(rest.skip(2)) {
                    Some((raw, k)) => {
                        assert(before + (seq![0u8] + raw) =~= out@ + raw);
                    },
                    None => {},
                }
            }
            i = i + 2;
        } else if b[i] == 0 {
            assert(out@ + Seq::<u8>::empty() =~= out@);
            return Some((out, i + 1));
        } else {
            out.push(b[i]);
            proof {
                assert(rest.skip(1) =~= b@.skip(i + 1));
                match unescaped(rest.skip(1)) {
                    Some((raw, k)) => {
                        assert(before + (seq![rest[0]] + raw) =~= out@ + raw);
                    },
                    None => {},
                }
            }
            i = i + 1;
        }
    }
    None
}

/// Appends the body of a key field. An array or object is refused.
fn put_key_body(out: &mut Vec<u8>, value: &DynamicValue) -> (r: Result<(), KeyError>)
    ensures
        match r {
            Ok(_) => key_body(value.view()) is Some && final(out)@ == old(out)@ + key_body(
                value.view(),
            )->0,
            Err(e) => key_body(value.view()) is None && e == KeyError::Unsupported && final(out)@
                == old(out)@,
        },
{
    broadcast use DynamicValue::lemma_view;

    match value {
        DynamicValue::Null => {
            assert(out@ =~= old(out)@ + Seq::<u8>::empty());
            Ok(())
        },
        DynamicValue::Bool(b) => {
            out.push(if *b {
                1
            } else {
                0
            });
            assert(out@ =~= old(out)@ + key_body(value.view())->0);
            Ok(())
        },
        DynamicValue::UInt(v) => {
            push_be(out, *v, 8);
            Ok(())
        },
        DynamicValue::Int(v) => {
            let u: u64 = if *v < 0 {
                0x7FFF_FFFF_FFFF_FFFF - ((-(*v + 1)) as u64)
            } else {
                0x8000_0000_0000_0000 + (*v as u64)
            };
            push_be(out, u, 8);
            Ok(())
        },
        DynamicValue::F64(bits) => {
            let u: u64 = if *bits >= 0x8000_0000_0000_0000 {
                0xFFFF_FFFF_FFFF_FFFF - *bits
            } else {
                *bits + 0x8000_0000_0000_0000
            };
            push_be(out, u, 8);
            Ok(())
        },
        DynamicValue::Str(s) => {
            let mut body = escape_terminator(s.as_str().as_bytes());
            out.append(&mut body);
            Ok(())
        },
        DynamicValue::Bytes(b) => {
            let mut body = escape_terminator(b.as_slice());
            out.append(&mut body);
            Ok(())
        },
        DynamicValue::Array(_) => Err(KeyError::Unsupported),
        DynamicValue::Obj(_) => Err(KeyError::Unsupported),
    }
}

/// How many bytes of `rest` the body of a key field takes.
fn key_body_end(kind: KeyKind, rest: &[u8]) -> (r: usize)
    ensures
        r == body_end(kind, rest@),
{
    match kind {
        KeyKind::Null => 0,
        KeyKind::Bool => 1,
        KeyKind::UInt | KeyKind::Int => if rest.len() < 8 {
            rest.len()
        } else {
            8
        },
        KeyKind::F64 => 8,
        KeyKind::Str | KeyKind::Bytes => match take_terminated(rest) {
            Some((_, n)) => n,
            None => rest.len(),
        },
    }
}

/// The value that the body of a key field holds.
fn key_body_decode(kind: KeyKind, body: &[u8]) -> (r: Result<DynamicValue, KeyError>)
    ensures
        match r {
            Ok(v) => body_key_value(kind, body@) == Ok::<
                crate::model::obj_dynamic::DynView,
                KeyError,
            >(v.view()),
            Err(e) => body_key_value(kind, body@) == Err::<
                crate::model::obj_dynamic::DynView,
                KeyError,
            >(e),
        },
{
    broadcast use DynamicValue::lemma_view;

    match kind {
        KeyKind::Null => Ok(DynamicValue::Null),
        KeyKind::Bool => Ok(DynamicValue::Bool(body.len() > 0 && body[0] != 0)),
        KeyKind::UInt => {
            if body.len() > 8 {
                return Err(KeyError::UintOverflow);
            }
            Ok(DynamicValue::UInt(read_be(body)))
        },
        KeyKind::Int => {
            if body.len() > 8 {
                return Err(KeyError::IntOverflow);
            }
            let u: u64 = read_be(body);
            let v: i64 = if u >= 0x8000_0000_0000_0000 {
                (u - 0x8000_0000_0000_0000) as i64
            } else {
                -1 - ((0x7FFF_FFFF_FFFF_FFFF - u) as i64)
            };
            Ok(DynamicValue::Int(v))
        },
        KeyKind::F64 => {
            if body.len() != 8 {
                return Err(KeyError::FloatWidth);
            }
            let u: u64 = read_be(body);
            Ok(
                DynamicValue::F64(
                    if u >= 0x8000_0000_0000_0000 {
                        u - 0x8000_0000_0000_0000
                    } else {
                        0xFFFF_FFFF_FFFF_FFFF - u
                    },
                ),
            )
        },
        KeyKind::Str => match unescape_terminator(body) {
            None => Err(KeyError::StrTerminator),
            Some(raw) => match utf8_string(raw.as_slice()) {
                Some(s) => Ok(DynamicValue::Str(s)),
                None => Err(KeyError::NotUtf8),
            },
        },
        KeyKind::Bytes => match unescape_terminator(body) {
            None => Err(KeyError::BytesTerminator),
            Some(raw) => Ok(DynamicValue::Bytes(raw)),
        },
    }
}

/// One key field: its name and its value. Their order is the order of the
/// stored key.
pub type KeyField = (String, DynamicValue);

/// A document: dynamic fields by name.
pub type Doc = FieldMap;

/// What a list of key fields says.
pub open spec fn key_view(key: Seq<KeyField>) -> Seq<
    (Seq<char>, crate::model::obj_dynamic::DynView),
> {
    key.map_values(|f: KeyField| (f.0@, f.1.view()))
}

/// Every field is one that a key can hold.
pub open spec fn key_ok(fields: Seq<(Seq<char>, crate::model::obj_dynamic::DynView)>) -> bool {
    forall|i: int| 0 <= i < fields.len() ==> key_body((#[trigger] fields[i]).1) is Some
}

/// The names that writing a key looks up: those of its fields, as far as
/// the first that no key can hold.
pub open spec fn key_names(
    fields: Seq<(Seq<char>, crate::model::obj_dynamic::DynView)>,
) -> Seq<Seq<char>>
    decreases fields.len(),
{
    if fields.len() == 0 {
        Seq::empty()
    } else if key_body(fields[0].1) is Some {
        seq![fields[0].0] + key_names(fields.drop_first())
    } else {
        seq![fields[0].0]
    }
}

/// The stored form of a key.
pub open spec fn key_bytes(
    fields: Seq<(Seq<char>, crate::model::obj_dynamic::DynView)>,
    names: crate::model::obj_dynamic::NameTable,
) -> Seq<u8>
    decreases fields.len(),
{
    if fields.len() == 0 {
        Seq::empty()
    } else {
        crate::bytes::be_bytes(names[fields[0].0] as nat, 2) + key_body(fields[0].1)->0 + key_bytes(
            fields.drop_first(),
            names,
        )
    }
}

/// Names given later do not change a stored key.
pub proof fn lemma_key_bytes_stable(
    fields: Seq<(Seq<char>, crate::model::obj_dynamic::DynView)>,
    a: crate::model::obj_dynamic::NameTable,
    b: crate::model::obj_dynamic::NameTable,
)
    requires
        a.submap_of(b),
        forall|i: int| 0 <= i < fields.len() ==> a.dom().contains((#[trigger] fields[i]).0),
    ensures
        key_bytes(fields, a) == key_bytes(fields, b),
    decreases fields.len(),
{
    if fields.len() > 0 {
        let t = fields.drop_first();
        assert forall|i: int| 0 <= i < t.len() implies a.dom().contains((#[trigger] t[i]).0) by {
            assert(t[i] == fields[i + 1]);
        }
        lemma_key_bytes_stable(t, a, b);
        assert(a.dom().contains(fields[0].0));
        assert(b.dom().contains(fields[0].0));
    }
}

/// One more field behind a key.
proof fn lemma_key_bytes_push(
    fields: Seq<(Seq<char>, crate::model::obj_dynamic::DynView)>,
    f: (Seq<char>, crate::model::obj_dynamic::DynView),
    names: crate::model::obj_dynamic::NameTable,
)
    ensures
        key_bytes(fields.push(f), names) == key_bytes(fields, names) + (crate::bytes::be_bytes(
            names[f.0] as nat,
            2,
        ) + key_body(f.1)->0),
    decreases fields.len(),
{
    let all = fields.push(f);
    if fields.len() == 0 {
        assert(all.drop_first() =~= Seq::empty());
        assert(key_bytes(all.drop_first(), names) =~= Seq::empty());
    } else {
        assert(all.drop_first() =~= fields.drop_first().push(f));
        lemma_key_bytes_push(fields.drop_first(), f, names);
    }
    assert(key_bytes(all, names) =~= key_bytes(fields, names) + (crate::bytes::be_bytes(
        names[f.0] as nat,
        2,
    ) + key_body(f.1)->0));
}

/// Appends the stored form of a key. A field that no key can hold is
/// refused once its name has been looked up.
#[verifier::spinoff_prover]
#[verifier::rlimit(60)]
fn encode_key_into<R: NameResolver>(buf: &mut Vec<u8>, key: &[KeyField], dict: &mut R) -> (r: Result<
    (),
    KeyError,
>)
    requires
        crate::model::obj_dynamic::ready_all::<R>(old(dict).state(), key_names(key_view(key@))),
    ensures
        final(dict).state() == crate::model::obj_dynamic::steps::<R>(
            old(dict).state(),
            key_names(key_view(key@)),
        ),
        crate::model::obj_dynamic::moved_all::<R>(
            old(dict).state(),
            key_names(key_view(key@)),
            old(dict).world(),
            final(dict).world(),
        ),
        match r {
            Ok(_) => key_ok(key_view(key@)) && final(buf)@ == old(buf)@ + key_bytes(
                key_view(key@),
                R::table(final(dict).state()),
            ),
            Err(e) => !key_ok(key_view(key@)) && e == KeyError::Unsupported,
        },
{
    let ghost all = key_view(key@);
    let ghost s0 = dict.state();
    let ghost w0 = dict.world();
    let ghost start = buf@;
    let ghost mut done: Seq<Seq<char>> = Seq::empty();
    let mut i: usize = 0;
    proof {
        crate::model::obj_dynamic::lemma_moved_none::<R>(s0, w0);
        assert(all.skip(0) =~= all);
        assert(all.take(0) =~= Seq::empty());
        assert(done + key_names(all) =~= key_names(all));
        assert(start + key_bytes(all.take(0), R::table(s0)) =~= start);
    }
    while i < key.len()
        invariant
            i <= key@.len() == all.len(),
            all == key_view(key@),
            done + key_names(all.skip(i as int)) == key_names(all),
            done.len() == i,
            forall|j: int| 0 <= j < i ==> done[j] == (#[trigger] all[j]).0,
            forall|j: int| 0 <= j < i ==> key_body((#[trigger] all[j]).1) is Some,
            crate::model::obj_dynamic::ready_all::<R>(s0, key_names(all)),
            dict.state() == crate::model::obj_dynamic::steps::<R>(s0, done),
            crate::model::obj_dynamic::moved_all::<R>(s0, done, w0, dict.world()),
            buf@ == start + key_bytes(all.take(i as int), R::table(dict.state())),
            s0 == old(dict).state(),
            w0 == old(dict).world(),
            start == old(buf)@,
        decreases all.len() - i,
    {
        let ghost rest = all.skip(i as int);
        let ghost name = all[i as int].0;
        let ghost s1 = dict.state();
        let ghost w1 = dict.world();
        let ghost one = seq![name];
        proof {
            let tail = if key_body(rest[0].1) is Some {
                key_names(rest.drop_first())
            } else {
                Seq::empty()
            };
            assert(rest.drop_first() =~= all.skip(i + 1));
            assert(key_names(rest) =~= one + tail);
            assert(key_names(all) =~= done + one + tail);
            assert(done + one + tail =~= (done + one) + tail);
            crate::model::obj_dynamic::lemma_steps_concat::<R>(s0, done + one, tail);
            crate::model::obj_dynamic::lemma_steps_concat::<R>(s0, done, one);
            crate::model::obj_dynamic::lemma_steps_one::<R>(s1, name);
        }
        let f = &key[i];
        let id: u16 = dict.resolve(f.0.as_str());
        proof {
            crate::model::obj_dynamic::lemma_moved_concat::<R>(
                s0,
                done,
                one,
                w0,
                w1,
                dict.world(),
            );
            crate::model::obj_dynamic::law_steps_append::<R>(s0, done);
            R::step_appends(s1, name);
            let front = all.take(i as int);
            assert forall|j: int| 0 <= j < front.len() implies R::table(s1).dom().contains(
                (#[trigger] front[j]).0,
            ) by {
                assert(front[j] == all[j]);
                assert(done[j] == all[j].0);
            }
            lemma_key_bytes_stable(front, R::table(s1), R::table(dict.state()));
        }
        push_be(buf, id as u64, 2);
        let ghost mid = buf@;
        match put_key_body(buf, &f.1) {
            Ok(_) => {},
            Err(e) => {
                assert(all[i as int].1 == f.1.view());
                assert(key_names(all) =~= done + one);
                return Err(e);
            },
        }
        proof {
            let names = R::table(dict.state());
            lemma_key_bytes_push(all.take(i as int), all[i as int], names);
            assert(all.take(i + 1) =~= all.take(i as int).push(all[i as int]));
            assert(buf@ =~= start + key_bytes(all.take(i + 1), names));
            done = done + one;
            assert(rest.drop_first() =~= all.skip(i + 1));
        }
        i = i + 1;
    }
    proof {
        assert(all.take(i as int) =~= all);
        assert(all.skip(i as int) =~= Seq::empty());
        assert(done =~= key_names(all));
    }
    Ok(())
}

/// The fields of a stored document: each frame whose id has a name, under
/// that name; of two under one name, the later.
pub open spec fn named_fields(
    frames: Seq<(u16, crate::model::obj_dynamic::DynView)>,
    ids: crate::model::obj_dynamic::IdTable,
) -> Seq<(Seq<char>, crate::model::obj_dynamic::DynView)>
    decreases frames.len(),
{
    if frames.len() == 0 {
        Seq::empty()
    } else {
        let before = named_fields(frames.drop_last(), ids);
        let (id, v) = frames.last();
        if ids.dom().contains(id) {
            crate::model::obj_dynamic::insert_field(before, ids[id], v)
        } else {
            before
        }
    }
}

/// The document that stored bytes hold.
pub open spec fn doc_of(raw: Seq<u8>, ids: crate::model::obj_dynamic::IdTable) -> Seq<
    (Seq<char>, crate::model::obj_dynamic::DynView),
> {
    named_fields(crate::model::obj_dynamic::read_frames(raw, ids), ids)
}

/// The document that stored bytes hold.
pub fn decode_doc<L: NameLookup>(raw: &[u8], names: &mut L) -> (r: Doc)
    ensures
        final(names).ids() == old(names).ids(),
        r@ == doc_of(raw@, old(names).ids()),
{
    let ghost ids = names.ids();
    let mut frames = decode_named(raw, names);
    let ghost all = crate::model::obj_dynamic::field_views(frames@);
    let mut rest: Vec<crate::model::obj_dynamic::DynamicField> = Vec::new();
    // Fields move out of the list from its end; turn it round first.
    while frames.len() > 0
        invariant
            ids == names.ids(),
            crate::model::obj_dynamic::field_views(frames@)
                + crate::model::obj_dynamic::field_views(rest@).reverse() == all,
        decreases frames@.len(),
    {
        let ghost f0 = crate::model::obj_dynamic::field_views(frames@);
        let ghost r0 = crate::model::obj_dynamic::field_views(rest@);
        if let Some(f) = frames.pop() {
            let ghost fv = f.view();
            rest.push(f);
            proof {
                assert(f0 =~= crate::model::obj_dynamic::field_views(frames@).push(fv));
                assert(crate::model::obj_dynamic::field_views(rest@) =~= r0.push(fv));
                assert(r0.push(fv).reverse() =~= seq![fv] + r0.reverse());
                assert(crate::model::obj_dynamic::field_views(frames@)
                    + crate::model::obj_dynamic::field_views(rest@).reverse() =~= f0
                    + r0.reverse());
            }
        }
    }
    let mut out: Doc = FieldMap::new();
    let ghost mut done: Seq<(u16, crate::model::obj_dynamic::DynView)> = Seq::empty();
    proof {
        assert(crate::model::obj_dynamic::field_views(frames@) =~= Seq::empty());
        assert(done + crate::model::obj_dynamic::field_views(rest@).reverse() =~= all);
    }
    while rest.len() > 0
        invariant
            ids == names.ids(),
            done + crate::model::obj_dynamic::field_views(rest@).reverse() == all,
            out@ == named_fields(done, ids),
        decreases rest@.len(),
    {
        let ghost r0 = crate::model::obj_dynamic::field_views(rest@);
        let ghost before = done;
        if let Some(f) = rest.pop() {
            let ghost fv = f.view();
            proof {
                assert(r0 =~= crate::model::obj_dynamic::field_views(rest@).push(fv));
                assert(r0.reverse() =~= seq![fv]
                    + crate::model::obj_dynamic::field_views(rest@).reverse());
                done = before.push(fv);
                assert(done.drop_last() =~= before);
                assert(done + crate::model::obj_dynamic::field_views(rest@).reverse() =~= before
                    + r0.reverse());
            }
            if let Some(name) = names.name_of(f.id) {
                out.insert(name, f.value);
            }
        }
    }
    proof {
        assert(crate::model::obj_dynamic::field_views(rest@).reverse() =~= Seq::empty());
        assert(done =~= all);
    }
    out
}

/// The values of a stored key, given the kinds of its fields.
pub open spec fn key_values(kinds: Seq<KeyKind>, frame: Seq<u8>) -> Result<
    Seq<crate::model::obj_dynamic::DynView>,
    KeyError,
>
    decreases kinds.len(),
{
    if kinds.len() == 0 {
        Ok(Seq::empty())
    } else if frame.len() < 2 {
        Err(KeyError::Truncated)
    } else {
        let rest = frame.skip(2);
        let n = body_end(kinds[0], rest);
        if n > rest.len() {
            Err(KeyError::Truncated)
        } else {
            match body_key_value(kinds[0], rest.take(n as int)) {
                Err(e) => Err(e),
                Ok(v) => match key_values(kinds.drop_first(), rest.skip(n as int)) {
                    Err(e) => Err(e),
                    Ok(vs) => Ok(seq![v] + vs),
                },
            }
        }
    }
}

/// What a decoded key says, or why it could not be read.
pub open spec fn values_result(r: Result<Vec<DynamicValue>, KeyError>) -> Result<
    Seq<crate::model::obj_dynamic::DynView>,
    KeyError,
> {
    match r {
        Ok(v) => Ok(crate::model::obj_dynamic::values_view(v@)),
        Err(e) => Err(e),
    }
}

/// The values of a stored key, given the kinds of its fields.
pub fn decode_key_frame(kinds: &[KeyKind], frame: &[u8]) -> (r: Result<
    Vec<DynamicValue>,
    KeyError,
>)
    ensures
        values_result(r) == key_values(kinds@, frame@),
{
    let mut out: Vec<DynamicValue> = Vec::new();
    let mut at: usize = 0;
    let mut i: usize = 0;
    proof {
        assert(kinds@.skip(0) =~= kinds@);
        assert(frame@.skip(0) =~= frame@);
        assert(crate::model::obj_dynamic::values_view(out@) =~= Seq::empty());
        match key_values(kinds@, frame@) {
            Ok(vs) => {
                assert(Seq::<crate::model::obj_dynamic::DynView>::empty() + vs =~= vs);
            },
            Err(_) => {},
        }
    }
    while i < kinds.len()
        invariant
            i <= kinds@.len(),
            at <= frame@.len(),
            match key_values(kinds@.skip(i as int), frame@.skip(at as int)) {
                Ok(vs) => key_values(kinds@, frame@) == Ok::<
                    Seq<crate::model::obj_dynamic::DynView>,
                    KeyError,
                >(crate::model::obj_dynamic::values_view(out@) + vs),
                Err(e) => key_values(kinds@, frame@) == Err::<
                    Seq<crate::model::obj_dynamic::DynView>,
                    KeyError,
                >(e),
            },
        decreases kinds@.len() - i,
    {
        let ghost ks = kinds@.skip(i as int);
        let ghost here = frame@.skip(at as int);
        let ghost before = crate::model::obj_dynamic::values_view(out@);
        if frame.len() - at < 2 {
            return Err(KeyError::Truncated);
        }
        let rest = slice_from(frame, at + 2);
        assert(rest@ =~= here.skip(2));
        let n: usize = key_body_end(kinds[i], rest);
        if n > rest.len() {
            return Err(KeyError::Truncated);
        }
        let body = slice_to(rest, n);
        assert(body@ =~= rest@.take(n as int));
        match key_body_decode(kinds[i], body) {
            Err(e) => {
                return Err(e);
            },
            Ok(v) => {
                let ghost vv = v.view();
                out.push(v);
                proof {
                    assert(ks.drop_first() =~= kinds@.skip(i + 1));
                    assert(rest@.skip(n as int) =~= frame@.skip(at + 2 + n));
                    assert(crate::model::obj_dynamic::values_view(out@) =~= before.push(vv));
                    match key_values(ks.drop_first(), rest@.skip(n as int)) {
                        Ok(vs) => {
                            assert(before + (seq![vv] + vs) =~= before.push(vv) + vs);
                        },
                        Err(_) => {},
                    }
                }
            },
        }
        at = at + 2 + n;
        i = i + 1;
    }
    proof {
        assert(kinds@.skip(i as int) =~= Seq::empty());
        assert(crate::model::obj_dynamic::values_view(out@)
            + Seq::<crate::model::obj_dynamic::DynView>::empty()
            =~= crate::model::obj_dynamic::values_view(out@));
    }
    Ok(out)
}

/// The key of a document.
pub open spec fn doc_key(
    ns: u16,
    fields: Seq<(Seq<char>, crate::model::obj_dynamic::DynView)>,
    names: crate::model::obj_dynamic::NameTable,
) -> Seq<u8> {
    crate::model::index::slot_key(ns_header(ns), PRIMARY_SLOT, key_bytes(fields, names))
}

/// The header of a namespace.
pub open spec fn ns_header(ns: u16) -> Seq<u8> {
    crate::bytes::be_bytes(ns as nat, 2)
}

/// An entry with a body, or none if the body is empty.
pub open spec fn set_entry(
    m: crate::engine::storage::Contents,
    key: Seq<u8>,
    body: Seq<u8>,
) -> crate::engine::storage::Contents {
    if body.len() == 0 {
        m.remove(key)
    } else {
        m.insert(key, body)
    }
}

/// The rows that stored pairs hold, up to the first that cannot be read.
/// Four bytes of namespace and slot stand before the key.
pub open spec fn rows(
    pairs: Seq<(Seq<u8>, Seq<u8>)>,
    kinds: Seq<KeyKind>,
    ids: crate::model::obj_dynamic::IdTable,
) -> Result<
    Seq<
        (
            Seq<crate::model::obj_dynamic::DynView>,
            Seq<(Seq<char>, crate::model::obj_dynamic::DynView)>,
        ),
    >,
    KeyError,
>
    decreases pairs.len(),
{
    if pairs.len() == 0 {
        Ok(Seq::empty())
    } else {
        match rows(pairs.drop_last(), kinds, ids) {
            Err(e) => Err(e),
            Ok(before) => {
                let (key, raw) = pairs.last();
                if key.len() < 4 {
                    Err(KeyError::Truncated)
                } else {
                    match key_values(kinds, key.skip(4)) {
                        Err(e) => Err(e),
                        Ok(values) => Ok(before.push((values, doc_of(raw, ids)))),
                    }
                }
            },
        }
    }
}

/// The first pairs of a scan, as many as the limit allows.
pub open spec fn limited(pairs: Seq<(Seq<u8>, Seq<u8>)>, limit: Option<u64>) -> Seq<
    (Seq<u8>, Seq<u8>),
> {
    if limit is Some && limit->0 < pairs.len() {
        pairs.take(limit->0 as int)
    } else {
        pairs
    }
}

/// What scanned rows say.
pub open spec fn row_views(v: Seq<(Vec<DynamicValue>, Doc)>) -> Seq<
    (
        Seq<crate::model::obj_dynamic::DynView>,
        Seq<(Seq<char>, crate::model::obj_dynamic::DynView)>,
    ),
> {
    v.map_values(
        |r: (Vec<DynamicValue>, Doc)| (crate::model::obj_dynamic::values_view(r.0@), r.1@),
    )
}

/// What a scan says, or why it could not be read.
pub open spec fn rows_result(r: Result<Vec<(Vec<DynamicValue>, Doc)>, KeyError>) -> Result<
    Seq<
        (
            Seq<crate::model::obj_dynamic::DynView>,
            Seq<(Seq<char>, crate::model::obj_dynamic::DynView)>,
        ),
    >,
    KeyError,
> {
    match r {
        Ok(v) => Ok(row_views(v@)),
        Err(e) => Err(e),
    }
}

/// Rows that cannot be read stay so, whatever follows.
proof fn lemma_rows_err(
    pairs: Seq<(Seq<u8>, Seq<u8>)>,
    n: int,
    kinds: Seq<KeyKind>,
    ids: crate::model::obj_dynamic::IdTable,
)
    requires
        0 <= n <= pairs.len(),
        rows(pairs.take(n), kinds, ids) is Err,
    ensures
        rows(pairs, kinds, ids) == rows(pairs.take(n), kinds, ids),
    decreases pairs.len(),
{
    if n == pairs.len() {
        assert(pairs.take(n) =~= pairs);
    } else {
        assert(pairs.drop_last().take(n) =~= pairs.take(n));
        lemma_rows_err(pairs.drop_last(), n, kinds, ids);
    }
}

/// The rows of a list of pairs, read until the limit.
fn read_rows<S: VirtualStorage>(
    dict: &DictStore<S>,
    kinds: &[KeyKind],
    pairs: &Vec<(Vec<u8>, Vec<u8>)>,
    limit: Option<u64>,
) -> (r: Result<Vec<(Vec<DynamicValue>, Doc)>, KeyError>)
    ensures
        rows_result(r) == rows(
            limited(crate::engine::storage::pair_views(pairs@), limit),
            kinds@,
            crate::model::obj_dict::lookup_table(
                crate::model::obj_dict::fresh_dict(),
                dict.store.contents(),
                dict.home(),
            ),
        ),
{
    let ghost ids = crate::model::obj_dict::lookup_table(
        crate::model::obj_dict::fresh_dict(),
        dict.store.contents(),
        dict.home(),
    );
    let ghost all = limited(crate::engine::storage::pair_views(pairs@), limit);
    let mut n: usize = pairs.len();
    if let Some(l) = limit {
        if l < n as u64 {
            n = l as usize;
        }
    }
    assert(n == all.len());
    let mut out: Vec<(Vec<DynamicValue>, Doc)> = Vec::new();
    let mut i: usize = 0;
    proof {
        assert(row_views(out@) =~= Seq::empty());
        assert(all.take(0) =~= Seq::empty());
    }
    while i < n
        invariant
            i <= n == all.len() <= pairs@.len(),
            all == limited(crate::engine::storage::pair_views(pairs@), limit),
            ids == crate::model::obj_dict::lookup_table(
                crate::model::obj_dict::fresh_dict(),
                dict.store.contents(),
                dict.home(),
            ),
            rows(all.take(i as int), kinds@, ids) == Ok::<_, KeyError>(row_views(out@)),
        decreases n - i,
    {
        let ghost before = row_views(out@);
        let full = pairs[i].0.as_slice();
        let raw = pairs[i].1.as_slice();
        proof {
            assert(all[i as int] == (full@, raw@));
            assert(all.take(i + 1).drop_last() =~= all.take(i as int));
            assert(all.take(i + 1).last() == all[i as int]);
        }
        if full.len() < 4 {
            proof {
                lemma_rows_err(all, i + 1, kinds@, ids);
            }
            return Err(KeyError::Truncated);
        }
        match decode_key_frame(kinds, slice_from(full, 4)) {
            Err(e) => {
                proof {
                    lemma_rows_err(all, i + 1, kinds@, ids);
                }
                return Err(e);
            },
            Ok(values) => {
                let mut names = StoreNames::new(
                    &dict.store,
                    dict.ids.as_slice(),
                    dict.names.as_slice(),
                );
                let doc = decode_doc(raw, &mut names);
                let ghost row = (crate::model::obj_dynamic::values_view(values@), doc@);
                out.push((values, doc));
                assert(row_views(out@) =~= before.push(row));
            },
        }
        i = i + 1;
    }
    assert(all.take(i as int) =~= all);
    Ok(out)
}

/// The first fields of a full key are these: read with their kinds, they
/// have their values. Four bytes of namespace and slot stand before the key.
pub open spec fn begins_with_fields(
    key: Seq<u8>,
    fields: Seq<(Seq<char>, crate::model::obj_dynamic::DynView)>,
) -> bool {
    key.len() >= 4 && key_values(kinds_of(fields), key.skip(4)) == Ok::<_, KeyError>(
        field_values(fields),
    )
}

/// The pairs whose key begins with these fields.
pub open spec fn selected(
    pairs: Seq<(Seq<u8>, Seq<u8>)>,
    fields: Seq<(Seq<char>, crate::model::obj_dynamic::DynView)>,
) -> Seq<(Seq<u8>, Seq<u8>)>
    decreases pairs.len(),
{
    if pairs.len() == 0 {
        Seq::empty()
    } else {
        let before = selected(pairs.drop_last(), fields);
        if begins_with_fields(pairs.last().0, fields) {
            before.push(pairs.last())
        } else {
            before
        }
    }
}

/// Whether two values of key fields are the same.
fn same_key_value(a: &DynamicValue, b: &DynamicValue) -> (r: bool)
    requires
        key_body(a.view()) is Some,
        key_body(b.view()) is Some,
    ensures
        r == (a.view() == b.view()),
{
    broadcast use DynamicValue::lemma_view;

    match (a, b) {
        (DynamicValue::Null, DynamicValue::Null) => true,
        (DynamicValue::Bool(x), DynamicValue::Bool(y)) => *x == *y,
        (DynamicValue::UInt(x), DynamicValue::UInt(y)) => *x == *y,
        (DynamicValue::Int(x), DynamicValue::Int(y)) => *x == *y,
        (DynamicValue::F64(x), DynamicValue::F64(y)) => *x == *y,
        (DynamicValue::Str(x), DynamicValue::Str(y)) => str_eq(x.as_str(), y.as_str()),
        (DynamicValue::Bytes(x), DynamicValue::Bytes(y)) => bytes_eq(x.as_slice(), y.as_slice()),
        _ => false,
    }
}

/// The kind of a value that a key can hold.
fn key_kind(v: &DynamicValue) -> (r: KeyKind)
    ensures
        r == kind_of(v.view()),
{
    broadcast use DynamicValue::lemma_view;

    match v {
        DynamicValue::Null => KeyKind::Null,
        DynamicValue::Bool(_) => KeyKind::Bool,
        DynamicValue::UInt(_) => KeyKind::UInt,
        DynamicValue::Int(_) => KeyKind::Int,
        DynamicValue::F64(_) => KeyKind::F64,
        DynamicValue::Str(_) => KeyKind::Str,
        _ => KeyKind::Bytes,
    }
}

/// Every value of a read key is one that a key can hold.
proof fn lemma_key_values_ok(kinds: Seq<KeyKind>, frame: Seq<u8>)
    ensures
        match key_values(kinds, frame) {
            Ok(vs) => vs.len() == kinds.len() && forall|i: int|
                0 <= i < vs.len() ==> key_body(#[trigger] vs[i]) is Some,
            Err(_) => true,
        },
    decreases kinds.len(),
{
    if kinds.len() > 0 && frame.len() >= 2 {
        let rest = frame.skip(2);
        let n = body_end(kinds[0], rest);
        if n <= rest.len() {
            lemma_key_values_ok(kinds.drop_first(), rest.skip(n as int));
            match (
                body_key_value(kinds[0], rest.take(n as int)),
                key_values(kinds.drop_first(), rest.skip(n as int)),
            ) {
                (Ok(v), Ok(vs)) => {
                    assert forall|i: int| 0 <= i < vs.len() + 1 implies key_body(
                        #[trigger] (seq![v] + vs)[i],
                    ) is Some by {
                        if i > 0 {
                            assert((seq![v] + vs)[i] == vs[i - 1]);
                        }
                    }
                },
                _ => {},
            }
        }
    }
}

/// Whether a full key begins with these fields.
fn key_begins(kinds: &Vec<KeyKind>, full: &[u8], fields: &[KeyField]) -> (r: bool)
    requires
        key_ok(key_view(fields@)),
        kinds@ == kinds_of(key_view(fields@)),
    ensures
        r == begins_with_fields(full@, key_view(fields@)),
{
    let ghost want = key_view(fields@);
    if full.len() < 4 {
        return false;
    }
    let frame = slice_from(full, 4);
    assert(frame@ =~= full@.skip(4));
    match decode_key_frame(kinds.as_slice(), frame) {
        Err(_) => false,
        Ok(values) => {
            let ghost got = crate::model::obj_dynamic::values_view(values@);
            proof {
                lemma_key_values_ok(kinds@, frame@);
            }
            let mut i: usize = 0;
            while i < fields.len()
                invariant
                    i <= fields@.len() == want.len() == got.len() == values@.len(),
                    want == key_view(fields@),
                    got == crate::model::obj_dynamic::values_view(values@),
                    key_ok(want),
                    forall|j: int| 0 <= j < got.len() ==> key_body(#[trigger] got[j]) is Some,
                    forall|j: int| 0 <= j < i ==> got[j] == (#[trigger] want[j]).1,
                    full@.len() >= 4,
                    key_values(kinds_of(want), full@.skip(4)) == Ok::<_, KeyError>(got),
                decreases fields@.len() - i,
            {
                proof {
                    assert(got[i as int] == values@[i as int].view());
                    assert(want[i as int].1 == fields@[i as int].1.view());
                }
                if !same_key_value(&values[i], &fields[i].1) {
                    assert(field_values(want)[i as int] == want[i as int].1);
                    return false;
                }
                i = i + 1;
            }
            assert(got =~= field_values(want));
            true
        },
    }
}

/// The pairs whose key begins with these fields.
fn select_pairs(pairs: &Vec<(Vec<u8>, Vec<u8>)>, fields: &[KeyField]) -> (r: Vec<(Vec<u8>, Vec<u8>)>)
    requires
        key_ok(key_view(fields@)),
    ensures
        crate::engine::storage::pair_views(r@) == selected(
            crate::engine::storage::pair_views(pairs@),
            key_view(fields@),
        ),
{
    let ghost want = key_view(fields@);
    let ghost all = crate::engine::storage::pair_views(pairs@);
    let mut kinds: Vec<KeyKind> = Vec::new();
    let mut i: usize = 0;
    while i < fields.len()
        invariant
            i <= fields@.len(),
            kinds@.len() == i,
            want == key_view(fields@),
            forall|j: int| 0 <= j < i ==> #[trigger] kinds@[j] == kind_of(want[j].1),
        decreases fields@.len() - i,
    {
        kinds.push(key_kind(&fields[i].1));
        i = i + 1;
    }
    assert(kinds@ =~= kinds_of(want));
    let mut out: Vec<(Vec<u8>, Vec<u8>)> = Vec::new();
    let mut n: usize = 0;
    proof {
        assert(all.take(0) =~= Seq::empty());
        assert(crate::engine::storage::pair_views(out@) =~= Seq::empty());
    }
    while n < pairs.len()
        invariant
            n <= pairs@.len() == all.len(),
            all == crate::engine::storage::pair_views(pairs@),
            want == key_view(fields@),
            key_ok(want),
            kinds@ == kinds_of(want),
            crate::engine::storage::pair_views(out@) == selected(all.take(n as int), want),
        decreases pairs@.len() - n,
    {
        let ghost before = crate::engine::storage::pair_views(out@);
        let full = pairs[n].0.as_slice();
        proof {
            assert(all[n as int] == (full@, pairs@[n as int].1@));
            assert(all.take(n + 1).drop_last() =~= all.take(n as int));
            assert(all.take(n + 1).last() == all[n as int]);
        }
        if key_begins(&kinds, full, fields) {
            out.push((to_vec(full), to_vec(pairs[n].1.as_slice())));
            assert(crate::engine::storage::pair_views(out@) =~= before.push(all[n as int]));
        }
        n = n + 1;
    }
    assert(all.take(n as int) =~= all);
    out
}

/// Documents in a namespace chosen at run time.
pub struct DynamicCollection<S: VirtualStorage> {
    inner: DictStore<S>,
    ns: u16,
}

impl<S: VirtualStorage> DynamicCollection<S> {
    /// What the engine holds.
    pub closed spec fn contents(&self) -> crate::engine::storage::Contents {
        self.inner.store.contents()
    }

    /// The namespace.
    pub closed spec fn ns(&self) -> u16 {
        self.ns
    }

    /// Where the dictionary stands and what is known of it once it has been
    /// read.
    pub closed spec fn names(&self) -> crate::model::obj_dict::DictState {
        crate::model::obj_dict::DictState {
            dict: crate::model::obj_dict::load_dict(
                self.inner.dict@,
                self.inner.store.contents(),
                self.inner.home(),
            ),
            home: self.inner.home(),
        }
    }

    /// The dictionary stands in the namespace.
    pub closed spec fn wf(&self) -> bool {
        self.inner.home() == crate::model::obj_dict::home(ns_header(self.ns))
    }

    /// The names by number that the engine can tell.
    pub open spec fn stored_ids(&self) -> crate::model::obj_dynamic::IdTable {
        crate::model::obj_dict::lookup_table(
            crate::model::obj_dict::fresh_dict(),
            self.contents(),
            crate::model::obj_dict::home(ns_header(self.ns())),
        )
    }

    /// Once the names of `order` have been looked up: the namespace is the
    /// same, every name has a number, and the engine holds `w` where new
    /// names were stored.
    pub open spec fn learned(
        &self,
        order: Seq<Seq<char>>,
        after: &Self,
        w: crate::engine::storage::Contents,
    ) -> bool {
        &&& after.wf()
        &&& after.ns() == self.ns()
        &&& after.names() == crate::model::obj_dynamic::steps::<DictStore<S>>(self.names(), order)
        &&& crate::model::obj_dynamic::moved_all::<DictStore<S>>(
            self.names(),
            order,
            self.contents(),
            w,
        )
    }

    /// Every name of `order` has a number or can get one.
    pub open spec fn can_learn(&self, order: Seq<Seq<char>>) -> bool {
        crate::model::obj_dynamic::ready_all::<DictStore<S>>(self.names(), order)
    }

    /// The names that writing a document looks up: those of its key, then,
    /// if a key can hold them, those of its fields.
    pub open spec fn put_names(
        key: Seq<(Seq<char>, crate::model::obj_dynamic::DynView)>,
        doc: Seq<(Seq<char>, crate::model::obj_dynamic::DynView)>,
    ) -> Seq<Seq<char>> {
        if key_ok(key) {
            key_names(key) + crate::model::obj_dynamic::fields_names(doc)
        } else {
            key_names(key)
        }
    }

    /// The documents of namespace `ns` on an engine.
    pub fn new(store: S, ns: u16) -> (r: Self)
        ensures
            r.wf(),
            r.ns() == ns,
            r.contents() == store.contents(),
            r.names() == (crate::model::obj_dict::DictState {
                dict: crate::model::obj_dict::load_dict(
                    crate::model::obj_dict::fresh_dict(),
                    store.contents(),
                    crate::model::obj_dict::home(ns_header(ns)),
                ),
                home: crate::model::obj_dict::home(ns_header(ns)),
            }),
    {
        let header = be_vec(ns as u64, 2);
        let none: Vec<u8> = Vec::new();
        let ids = make_key(header.as_slice(), DICT_ID_SLOT, none.as_slice());
        let names = make_key(header.as_slice(), DICT_NAME_SLOT, none.as_slice());
        assert(none@ =~= Seq::empty());
        DynamicCollection { inner: DictStore::new(store, ids, names), ns }
    }

    /// The header of the namespace.
    pub fn ns_prefix(&self) -> (r: Vec<u8>)
        ensures
            r@ == ns_header(self.ns()),
    {
        be_vec(self.ns as u64, 2)
    }

    /// The key of a document, or of all whose key begins with these fields.
    /// A field that no key can hold is refused once its name has been
    /// looked up.
    fn entry_key(&mut self, key: &[KeyField]) -> (r: Result<Vec<u8>, KeyError>)
        requires
            old(self).wf(),
            old(self).can_learn(key_names(key_view(key@))),
        ensures
            old(self).learned(key_names(key_view(key@)), final(self), final(self).contents()),
            final(self).inner.dict@.loaded,
            match r {
                Ok(k) => key_ok(key_view(key@)) && k@ == doc_key(
                    final(self).ns(),
                    key_view(key@),
                    final(self).names().dict.names,
                ),
                Err(e) => !key_ok(key_view(key@)) && e == KeyError::Unsupported,
            },
    {
        self.inner.load();
        let ghost s0 = self.inner.state();
        assert(s0 =~= old(self).names());
        let header = be_vec(self.ns as u64, 2);
        let none: Vec<u8> = Vec::new();
        let mut buf = make_key(header.as_slice(), PRIMARY_SLOT, none.as_slice());
        let ghost front = buf@;
        let r = encode_key_into(&mut buf, key, &mut self.inner);
        proof {
            let order = key_names(key_view(key@));
            lemma_steps_home::<S>(s0, order);
            assert(none@ =~= Seq::empty());
            assert(self.names() =~= self.inner.state());
            assert(front + key_bytes(key_view(key@), self.names().dict.names)
                =~= crate::model::index::slot_key(
                ns_header(self.ns),
                PRIMARY_SLOT,
                key_bytes(key_view(key@), self.names().dict.names),
            ));
        }
        match r {
            Ok(_) => Ok(buf),
            Err(e) => Err(e),
        }
    }

    /// Writes a document under a key; an empty document leaves no entry.
    pub fn put(&mut self, key: &[KeyField], doc: &Doc) -> (r: Result<(), KeyError>)
        requires
            old(self).wf(),
            old(self).can_learn(Self::put_names(key_view(key@), doc@)),
        ensures
            exists|w: crate::engine::storage::Contents| #[trigger]
                old(self).learned(Self::put_names(key_view(key@), doc@), final(self), w) && (if r is Ok {
                    final(self).contents() == set_entry(
                        w,
                        doc_key(
                            final(self).ns(),
                            key_view(key@),
                            final(self).names().dict.names,
                        ),
                        crate::model::obj_dynamic::fields_bytes(
                            doc@,
                            final(self).names().dict.names,
                        ),
                    )
                } else {
                    final(self).contents() == w
                }),
            r is Ok <==> key_ok(key_view(key@)),
            r is Err ==> r->Err_0 == KeyError::Unsupported,
    {
        let ghost kv = key_view(key@);
        let ghost a = key_names(kv);
        let ghost b = crate::model::obj_dynamic::fields_names(doc@);
        let ghost s0 = self.names();
        let ghost w0 = self.contents();
        proof {
            crate::model::obj_dynamic::lemma_steps_concat::<DictStore<S>>(s0, a, b);
        }
        let pkey = match self.entry_key(key) {
            Ok(k) => k,
            Err(e) => {
                assert(old(self).learned(
                    Self::put_names(kv, doc@),
                    &*self,
                    self.contents(),
                ));
                return Err(e);
            },
        };
        let ghost s1 = self.inner.state();
        let ghost w1 = self.contents();
        assert(s1 =~= self.names());
        let body = encode_fields(doc, &mut self.inner);
        let ghost w2 = self.contents();
        proof {
            crate::model::obj_dynamic::lemma_moved_concat::<DictStore<S>>(s0, a, b, w0, w1, w2);
            lemma_steps_home::<S>(s1, b);
            assert(self.names() =~= self.inner.state());
            crate::model::obj_dynamic::law_steps_append::<DictStore<S>>(s0, a);
            crate::model::obj_dynamic::law_steps_append::<DictStore<S>>(s1, b);
            lemma_key_names_all(kv);
            lemma_key_bytes_stable(kv, s1.dict.names, self.names().dict.names);
        }
        if body.is_empty() {
            self.inner.store.del(pkey.as_slice());
        } else {
            self.inner.store.put(pkey, body);
        }
        proof {
            assert(self.names() =~= self.inner.state());
            assert(old(self).learned(Self::put_names(kv, doc@), &*self, w2));
        }
        Ok(())
    }

    /// The document under a key.
    pub fn get(&mut self, key: &[KeyField]) -> (r: Result<Option<Doc>, KeyError>)
        requires
            old(self).wf(),
            old(self).can_learn(key_names(key_view(key@))),
        ensures
            old(self).learned(key_names(key_view(key@)), final(self), final(self).contents()),
            match r {
                Ok(d) => key_ok(key_view(key@)) && ({
                    let k = doc_key(
                        final(self).ns(),
                        key_view(key@),
                        final(self).names().dict.names,
                    );
                    match d {
                        Some(doc) => final(self).contents().dom().contains(k) && doc@ == doc_of(
                            final(self).contents()[k],
                            final(self).stored_ids(),
                        ),
                        None => !final(self).contents().dom().contains(k),
                    }
                }),
                Err(e) => !key_ok(key_view(key@)) && e == KeyError::Unsupported,
            },
    {
        let pkey = match self.entry_key(key) {
            Ok(k) => k,
            Err(e) => {
                return Err(e);
            },
        };
        match self.inner.store.get(pkey.as_slice()) {
            None => Ok(None),
            Some(raw) => {
                let mut names = StoreNames::new(
                    &self.inner.store,
                    self.inner.ids.as_slice(),
                    self.inner.names.as_slice(),
                );
                let doc = decode_doc(raw.as_slice(), &mut names);
                Ok(Some(doc))
            },
        }
    }

    /// Removes the document under a key.
    pub fn delete(&mut self, key: &[KeyField]) -> (r: Result<(), KeyError>)
        requires
            old(self).wf(),
            old(self).can_learn(key_names(key_view(key@))),
        ensures
            exists|w: crate::engine::storage::Contents| #[trigger]
                old(self).learned(key_names(key_view(key@)), final(self), w) && (if r is Ok {
                    final(self).contents() == w.remove(
                        doc_key(
                            final(self).ns(),
                            key_view(key@),
                            final(self).names().dict.names,
                        ),
                    )
                } else {
                    final(self).contents() == w
                }),
            r is Ok <==> key_ok(key_view(key@)),
            r is Err ==> r->Err_0 == KeyError::Unsupported,
    {
        let pkey = match self.entry_key(key) {
            Ok(k) => k,
            Err(e) => {
                assert(old(self).learned(key_names(key_view(key@)), &*self, self.contents()));
                return Err(e);
            },
        };
        let ghost w = self.contents();
        self.inner.store.del(pkey.as_slice());
        proof {
            assert(self.names() =~= self.inner.state());
            assert(old(self).learned(key_names(key_view(key@)), &*self, w));
        }
        Ok(())
    }

    /// The documents whose key begins with the given fields, in key order,
    /// with the values of their keys. Stored bytes alone do not tell: text
    /// may go on behind a zero byte that ends other text.
    pub fn scan_prefix(
        &mut self,
        kinds: &[KeyKind],
        prefix: &[KeyField],
        limit: Option<u64>,
    ) -> (r: Result<Vec<(Vec<DynamicValue>, Doc)>, KeyError>)
        requires
            old(self).wf(),
            old(self).can_learn(key_names(key_view(prefix@))),
        ensures
            old(self).learned(key_names(key_view(prefix@)), final(self), final(self).contents()),
            if key_ok(key_view(prefix@)) {
                rows_result(r) == rows(
                    limited(
                        selected(
                            crate::engine::storage::prefix_pairs(
                                final(self).contents(),
                                doc_key(
                                    final(self).ns(),
                                    key_view(prefix@),
                                    final(self).names().dict.names,
                                ),
                            ),
                            key_view(prefix@),
                        ),
                        limit,
                    ),
                    kinds@,
                    final(self).stored_ids(),
                )
            } else {
                r is Err && r->Err_0 == KeyError::Unsupported
            },
            r is Ok && kinds_of(key_view(prefix@)).is_prefix_of(kinds@) ==> forall|i: int|
                0 <= i < r->Ok_0@.len() ==> (#[trigger] row_views(r->Ok_0@)[i]).0.take(
                    prefix@.len() as int,
                ) == field_values(key_view(prefix@)),
    {
        let begin = match self.entry_key(prefix) {
            Ok(k) => k,
            Err(e) => {
                return Err(e);
            },
        };
        let pairs = scan_prefix_kv(&self.inner.store, begin.as_slice());
        let picked = select_pairs(&pairs, prefix);
        let r = read_rows(&self.inner, kinds, &picked, limit);
        proof {
            let fields = key_view(prefix@);
            let all = crate::engine::storage::pair_views(pairs@);
            let some = limited(selected(all, fields), limit);
            lemma_selected(all, fields);
            assert forall|i: int| 0 <= i < some.len() implies begins_with_fields(
                (#[trigger] some[i]).0,
                fields,
            ) by {
                assert(selected(all, fields)[i] == some[i]);
            }
            if kinds_of(fields).is_prefix_of(kinds@) {
                lemma_rows_begin(some, kinds@, self.stored_ids(), fields);
                if r is Ok {
                    let read = rows(some, kinds@, self.stored_ids())->Ok_0;
                    assert(read == row_views(r->Ok_0@));
                    assert forall|i: int| 0 <= i < r->Ok_0@.len() implies (
                    #[trigger] row_views(r->Ok_0@)[i]).0.take(prefix@.len() as int)
                        == field_values(fields) by {
                        assert(read[i] == row_views(r->Ok_0@)[i]);
                    }
                }
            }
        }
        r
    }

    /// The documents whose full key lies in `[begin, end)`, in key order,
    /// with the values of their keys.
    pub fn scan_range(
        &mut self,
        kinds: &[KeyKind],
        begin: Vec<u8>,
        end: Option<Vec<u8>>,
        limit: Option<u64>,
    ) -> (r: Result<Vec<(Vec<DynamicValue>, Doc)>, KeyError>)
        requires
            old(self).wf(),
        ensures
            *final(self) == *old(self),
            rows_result(r) == rows(
                limited(
                    crate::engine::storage::range_pairs(
                        old(self).contents(),
                        begin@,
                        crate::engine::storage::opt_view(end),
                    ),
                    limit,
                ),
                kinds@,
                old(self).stored_ids(),
            ),
    {
        let mut it = self.inner.store.scan_range_iter(begin.as_slice(), as_bound(&end));
        let mut pairs: Vec<(Vec<u8>, Vec<u8>)> = Vec::new();
        let ghost all = it@;
        let mut more: bool = true;
        assert(crate::engine::storage::pair_views(pairs@) + it@ =~= all);
        while more
            invariant
                crate::engine::storage::pair_views(pairs@) + it@ == all,
                !more ==> it@.len() == 0,
            decreases it@.len(), more as int,
        {
            let ghost before = crate::engine::storage::pair_views(pairs@);
            let ghost left = it@;
            match it.next() {
                Some(p) => {
                    let ghost pv = (p.0@, p.1@);
                    pairs.push(p);
                    proof {
                        assert(crate::engine::storage::pair_views(pairs@) =~= before.push(pv));
                        assert(left =~= seq![pv] + it@);
                        assert(before.push(pv) + it@ =~= before + left);
                    }
                },
                None => {
                    more = false;
                },
            }
        }
        assert(crate::engine::storage::pair_views(pairs@) =~= all);
        read_rows(&self.inner, kinds, &pairs, limit)
    }
}

/// Keys in strictly ascending order.
pub open spec fn keys_ascend(pairs: Seq<(Seq<u8>, Seq<u8>)>) -> bool {
    forall|i: int, j: int|
        0 <= i < j < pairs.len() ==> crate::bytes::lex_lt((#[trigger] pairs[i]).0, (
        #[trigger] pairs[j]).0)
}

/// Selected are exactly the pairs whose key begins with the fields, in the
/// order they had.
pub proof fn lemma_selected(
    pairs: Seq<(Seq<u8>, Seq<u8>)>,
    fields: Seq<(Seq<char>, crate::model::obj_dynamic::DynView)>,
)
    ensures
        forall|i: int|
            0 <= i < selected(pairs, fields).len() ==> begins_with_fields(
                (#[trigger] selected(pairs, fields)[i]).0,
                fields,
            ) && pairs.contains(selected(pairs, fields)[i]),
        forall|i: int|
            0 <= i < pairs.len() && begins_with_fields((#[trigger] pairs[i]).0, fields)
                ==> selected(pairs, fields).contains(pairs[i]),
        keys_ascend(pairs) ==> keys_ascend(selected(pairs, fields)),
    decreases pairs.len(),
{
    let out = selected(pairs, fields);
    if pairs.len() > 0 {
        let init = pairs.drop_last();
        let last = pairs.last();
        let before = selected(init, fields);
        lemma_selected(init, fields);
        assert forall|i: int| 0 <= i < out.len() implies begins_with_fields(
            (#[trigger] out[i]).0,
            fields,
        ) && pairs.contains(out[i]) by {
            if i < before.len() {
                assert(out[i] == before[i]);
                let j = choose|j: int| 0 <= j < init.len() && init[j] == before[i];
                assert(pairs[j] == out[i]);
            } else {
                assert(pairs[pairs.len() - 1] == out[i]);
            }
        }
        assert forall|i: int|
            0 <= i < pairs.len() && begins_with_fields((#[trigger] pairs[i]).0, fields) implies
            out.contains(pairs[i]) by {
            if i < init.len() {
                assert(init[i] == pairs[i]);
                let j = choose|j: int| 0 <= j < before.len() && before[j] == pairs[i];
                assert(out[j] == pairs[i]);
            } else {
                assert(out[out.len() - 1] == pairs[i]);
            }
        }
        if keys_ascend(pairs) {
            assert forall|i: int, j: int| 0 <= i < j < init.len() implies crate::bytes::lex_lt(
                (#[trigger] init[i]).0,
                (#[trigger] init[j]).0,
            ) by {
                assert(init[i] == pairs[i] && init[j] == pairs[j]);
            }
            assert forall|i: int, j: int| 0 <= i < j < out.len() implies crate::bytes::lex_lt(
                (#[trigger] out[i]).0,
                (#[trigger] out[j]).0,
            ) by {
                assert(out[i] == before[i]);
                if j < before.len() {
                    assert(out[j] == before[j]);
                } else {
                    let t = choose|t: int| 0 <= t < init.len() && init[t] == before[i];
                    assert(pairs[t] == out[i]);
                    assert(pairs[pairs.len() - 1] == out[j]);
                }
            }
        }
    }
}

/// Fewer kinds read fewer values of a key.
proof fn lemma_key_values_take(kinds: Seq<KeyKind>, frame: Seq<u8>, n: int)
    requires
        0 <= n <= kinds.len(),
        key_values(kinds, frame) is Ok,
    ensures
        key_values(kinds, frame)->Ok_0.len() == kinds.len(),
        key_values(kinds.take(n), frame) == Ok::<_, KeyError>(
            key_values(kinds, frame)->Ok_0.take(n),
        ),
    decreases kinds.len(),
{
    let few = kinds.take(n);
    let all = key_values(kinds, frame)->Ok_0;
    if kinds.len() == 0 {
        assert(all.take(n) =~= Seq::empty());
    } else {
        let rest = frame.skip(2);
        let e = body_end(kinds[0], rest) as int;
        let v = body_key_value(kinds[0], rest.take(e))->Ok_0;
        let vs = key_values(kinds.drop_first(), rest.skip(e))->Ok_0;
        if n == 0 {
            lemma_key_values_take(kinds.drop_first(), rest.skip(e), 0);
            assert(all.take(n) =~= Seq::empty());
        } else {
            lemma_key_values_take(kinds.drop_first(), rest.skip(e), n - 1);
            assert(few.drop_first() =~= kinds.drop_first().take(n - 1));
            assert((seq![v] + vs).take(n) =~= seq![v] + vs.take(n - 1));
        }
    }
}

/// Rows whose keys begin with fields have the values of these fields first.
proof fn lemma_rows_begin(
    pairs: Seq<(Seq<u8>, Seq<u8>)>,
    kinds: Seq<KeyKind>,
    ids: crate::model::obj_dynamic::IdTable,
    fields: Seq<(Seq<char>, crate::model::obj_dynamic::DynView)>,
)
    requires
        kinds_of(fields).is_prefix_of(kinds),
        forall|i: int|
            0 <= i < pairs.len() ==> begins_with_fields((#[trigger] pairs[i]).0, fields),
    ensures
        rows(pairs, kinds, ids) is Ok ==> forall|i: int|
            0 <= i < rows(pairs, kinds, ids)->Ok_0.len() ==> (
            #[trigger] rows(pairs, kinds, ids)->Ok_0[i]).0.take(fields.len() as int)
                == field_values(fields),
    decreases pairs.len(),
{
    if pairs.len() > 0 && rows(pairs, kinds, ids) is Ok {
        let init = pairs.drop_last();
        assert forall|i: int| 0 <= i < init.len() implies begins_with_fields(
            (#[trigger] init[i]).0,
            fields,
        ) by {
            assert(init[i] == pairs[i]);
        }
        lemma_rows_begin(init, kinds, ids, fields);
        let key = pairs[pairs.len() - 1].0;
        let n = fields.len() as int;
        assert(begins_with_fields(key, fields));
        assert(kinds.take(n) =~= kinds_of(fields));
        lemma_key_values_take(kinds, key.skip(4), n);
        let before = rows(init, kinds, ids)->Ok_0;
        let out = rows(pairs, kinds, ids)->Ok_0;
        assert forall|i: int| 0 <= i < out.len() implies (#[trigger] out[i]).0.take(n)
            == field_values(fields) by {
            if i < before.len() {
                assert(out[i] == before[i]);
            }
        }
    }
}

/// Looking up names does not move the dictionary, nor unread it.
pub proof fn lemma_steps_home<S: VirtualStorage>(
    s: crate::model::obj_dict::DictState,
    order: Seq<Seq<char>>,
)
    requires
        s.dict.loaded,
    ensures
        crate::model::obj_dynamic::steps::<DictStore<S>>(s, order).home == s.home,
        crate::model::obj_dynamic::steps::<DictStore<S>>(s, order).dict.loaded,
    decreases order.len(),
{
    if order.len() > 0 {
        lemma_steps_home::<S>(s, order.drop_last());
    }
}

/// Writing a key that can be written looks up the names of all its fields.
proof fn lemma_key_names_all(fields: Seq<(Seq<char>, crate::model::obj_dynamic::DynView)>)
    requires
        key_ok(fields),
    ensures
        key_names(fields).len() == fields.len(),
        forall|i: int| 0 <= i < fields.len() ==> key_names(fields)[i] == (#[trigger] fields[i]).0,
    decreases fields.len(),
{
    if fields.len() > 0 {
        let t = fields.drop_first();
        assert forall|i: int| 0 <= i < t.len() implies key_body((#[trigger] t[i]).1) is Some by {
            assert(t[i] == fields[i + 1]);
        }
        lemma_key_names_all(t);
        assert(key_body(fields[0].1) is Some);
        assert forall|i: int| 0 <= i < fields.len() implies key_names(fields)[i] == (
        #[trigger] fields[i]).0 by {
            if i > 0 {
                assert(t[i - 1] == fields[i]);
                assert(key_names(t)[i - 1] == t[i - 1].0);
            }
        }
    }
}

/// The kinds of the fields of a key.
pub open spec fn kinds_of(
    fields: Seq<(Seq<char>, crate::model::obj_dynamic::DynView)>,
) -> Seq<KeyKind> {
    fields.map_values(|f: (Seq<char>, crate::model::obj_dynamic::DynView)| kind_of(f.1))
}

/// The values of the fields of a key.
pub open spec fn field_values(
    fields: Seq<(Seq<char>, crate::model::obj_dynamic::DynView)>,
) -> Seq<crate::model::obj_dynamic::DynView> {
    fields.map_values(|f: (Seq<char>, crate::model::obj_dynamic::DynView)| f.1)
}

/// The names of the fields of a key.
pub open spec fn field_names(
    fields: Seq<(Seq<char>, crate::model::obj_dynamic::DynView)>,
) -> Seq<Seq<char>> {
    fields.map_values(|f: (Seq<char>, crate::model::obj_dynamic::DynView)| f.0)
}

/// The number of field `i` does not begin with `FF` if it follows text or
/// bytes.
pub open spec fn low_behind(
    order: Seq<Seq<char>>,
    kinds: Seq<KeyKind>,
    names: crate::model::obj_dynamic::NameTable,
    i: int,
) -> bool {
    terminated(kinds[i - 1]) ==> names[order[i]] < 0xFF00
}

/// No number of a name that follows a field of text or bytes begins with
/// `FF`.
pub open spec fn low_numbers(
    order: Seq<Seq<char>>,
    kinds: Seq<KeyKind>,
    names: crate::model::obj_dynamic::NameTable,
) -> bool {
    forall|i: int| 0 < i < order.len() ==> #[trigger] low_behind(order, kinds, names, i)
}

proof fn lemma_low_rest(
    order: Seq<Seq<char>>,
    kinds: Seq<KeyKind>,
    names: crate::model::obj_dynamic::NameTable,
)
    requires
        low_numbers(order, kinds, names),
        order.len() == kinds.len() > 0,
    ensures
        low_numbers(order.drop_first(), kinds.drop_first(), names),
        order.len() > 1 && terminated(kinds[0]) ==> names[order[1]] < 0xFF00,
{
    assert forall|i: int| 0 < i < order.drop_first().len() implies #[trigger] low_behind(
        order.drop_first(),
        kinds.drop_first(),
        names,
        i,
    ) by {
        assert(low_behind(order, kinds, names, i + 1));
    }
    if order.len() > 1 {
        assert(low_behind(order, kinds, names, 1));
    }
}

/// A stored key reads back as the values it was written from, given their
/// kinds, as long as no number of a name behind text or bytes begins with
/// `FF`.
pub proof fn law_key_round_trip(
    fields: Seq<(Seq<char>, crate::model::obj_dynamic::DynView)>,
    names: crate::model::obj_dynamic::NameTable,
)
    requires
        key_ok(fields),
        forall|i: int|
            0 <= i < fields.len() ==> crate::model::obj_dynamic::canonical((#[trigger] fields[i]).1),
        low_numbers(field_names(fields), kinds_of(fields), names),
    ensures
        key_values(kinds_of(fields), key_bytes(fields, names)) == Ok::<_, KeyError>(
            field_values(fields),
        ),
    decreases fields.len(),
{
    if fields.len() == 0 {
        assert(field_values(fields) =~= Seq::empty());
    } else {
        let (name, v) = fields[0];
        let t = fields.drop_first();
        let id = crate::bytes::be_bytes(names[name] as nat, 2);
        let body = key_body(v)->0;
        let after = key_bytes(t, names);
        let frame = key_bytes(fields, names);
        assert(key_body(fields[0].1) is Some && crate::model::obj_dynamic::canonical(fields[0].1));
        assert forall|i: int| 0 <= i < t.len() implies key_body((#[trigger] t[i]).1) is Some
            && crate::model::obj_dynamic::canonical(t[i].1) by {
            assert(t[i] == fields[i + 1]);
        }
        lemma_low_rest(field_names(fields), kinds_of(fields), names);
        assert(field_names(fields).drop_first() =~= field_names(t));
        assert(kinds_of(fields).drop_first() =~= kinds_of(t));
        law_key_round_trip(t, names);
        crate::bytes::lemma_be_bytes_len(names[name] as nat, 2);
        assert(terminated(kind_of(v)) ==> after.len() == 0 || after[0] != 0xFF) by {
            if t.len() > 0 && terminated(kind_of(v)) {
                let n = names[t[0].0] as nat;
                assert(t[0].0 == field_names(fields)[1]);
                assert(kinds_of(fields)[0] == kind_of(v));
                crate::bytes::lemma_high_byte(n);
                assert(after[0] == crate::bytes::be_bytes(n, 2)[0]);
            }
        }
        law_key_body_round_trip(v, after);
        assert(frame.skip(2) =~= body + after);
        assert((body + after).take(body.len() as int) =~= body);
        assert((body + after).skip(body.len() as int) =~= after);
        assert(kinds_of(fields).drop_first() =~= kinds_of(t));
        assert(field_values(fields) =~= seq![v] + field_values(t));
    }
}

/// Escaped bytes sort as the bytes do, whatever follows them, as long as it
/// does not begin with `FF`.
proof fn lemma_escape_order_then(a: Seq<u8>, b: Seq<u8>, s: Seq<u8>, t: Seq<u8>)
    requires
        crate::bytes::lex_lt(a, b),
        s.len() == 0 || s[0] != 0xFF,
    ensures
        crate::bytes::lex_lt(escaped(a) + s, escaped(b) + t),
    decreases a.len(),
{
    let x = escaped(a) + s;
    let y = escaped(b) + t;
    if a.len() == 0 {
        if b[0] == 0 {
            assert(x.drop_first() =~= s);
            assert(y.drop_first() =~= seq![0xFFu8] + escaped(b.drop_first()) + t);
            assert(x[0] == y[0]);
            assert(crate::bytes::lex_lt(x.drop_first(), y.drop_first()));
        } else {
            assert(x[0] == 0);
            assert(y[0] == b[0]);
        }
    } else if a[0] != b[0] {
        assert(x[0] == a[0]);
        assert(y[0] == b[0]);
    } else {
        let u = a.drop_first();
        let v = b.drop_first();
        lemma_escape_order_then(u, v, s, t);
        let head = if a[0] == 0 {
            seq![0u8, 0xFFu8]
        } else {
            seq![a[0]]
        };
        crate::bytes::lemma_lex_shared_prefix(head, escaped(u) + s, escaped(v) + t);
        assert(x =~= head + (escaped(u) + s));
        assert(y =~= head + (escaped(v) + t));
    }
}

/// The body of a smaller value sorts first, whatever follows it. What
/// follows text or bytes must not begin with `FF`.
proof fn lemma_body_order_then(
    a: crate::model::obj_dynamic::DynView,
    b: crate::model::obj_dynamic::DynView,
    s: Seq<u8>,
    t: Seq<u8>,
)
    requires
        crate::model::obj_dynamic::canonical(a),
        crate::model::obj_dynamic::canonical(b),
        value_lt(a, b),
        terminated(kind_of(a)) ==> s.len() == 0 || s[0] != 0xFF,
    ensures
        crate::bytes::lex_lt(key_body(a)->0 + s, key_body(b)->0 + t),
{
    law_key_order(a, b);
    match (a, b) {
        (
            crate::model::obj_dynamic::DynView::Str(x),
            crate::model::obj_dynamic::DynView::Str(y),
        ) => lemma_escape_order_then(
            vstd::utf8::encode_utf8(x),
            vstd::utf8::encode_utf8(y),
            s,
            t,
        ),
        (
            crate::model::obj_dynamic::DynView::Bytes(x),
            crate::model::obj_dynamic::DynView::Bytes(y),
        ) => lemma_escape_order_then(x, y, s, t),
        (
            crate::model::obj_dynamic::DynView::UInt(x),
            crate::model::obj_dynamic::DynView::UInt(y),
        ) => {
            crate::bytes::lemma_be_bytes_len(x, 8);
            crate::bytes::lemma_be_bytes_len(y, 8);
            crate::bytes::lemma_lex_extend(key_body(a)->0, key_body(b)->0, s, t);
        },
        (
            crate::model::obj_dynamic::DynView::Int(x),
            crate::model::obj_dynamic::DynView::Int(y),
        ) => {
            crate::bytes::lemma_be_bytes_len((x + 0x8000_0000_0000_0000) as nat, 8);
            crate::bytes::lemma_be_bytes_len((y + 0x8000_0000_0000_0000) as nat, 8);
            crate::bytes::lemma_lex_extend(key_body(a)->0, key_body(b)->0, s, t);
        },
        (
            crate::model::obj_dynamic::DynView::F64(x),
            crate::model::obj_dynamic::DynView::F64(y),
        ) => {
            crate::bytes::lemma_be_bytes_len(float_rank(x), 8);
            crate::bytes::lemma_be_bytes_len(float_rank(y), 8);
            crate::bytes::lemma_lex_extend(key_body(a)->0, key_body(b)->0, s, t);
        },
        _ => {
            crate::bytes::lemma_lex_extend(key_body(a)->0, key_body(b)->0, s, t);
        },
    }
}

/// Of two values of one kind that differ, one is smaller.
proof fn lemma_value_total(
    a: crate::model::obj_dynamic::DynView,
    b: crate::model::obj_dynamic::DynView,
)
    requires
        key_body(a) is Some,
        key_body(b) is Some,
        kind_of(a) == kind_of(b),
    ensures
        a == b || value_lt(a, b) || value_lt(b, a),
{
    match (a, b) {
        (
            crate::model::obj_dynamic::DynView::Str(x),
            crate::model::obj_dynamic::DynView::Str(y),
        ) => crate::text::lemma_name_order(x, y),
        (
            crate::model::obj_dynamic::DynView::Bytes(x),
            crate::model::obj_dynamic::DynView::Bytes(y),
        ) => crate::bytes::lemma_lex_total(x, y),
        _ => {},
    }
}

/// Lists of values by their order: the first field that differs decides.
pub open spec fn values_lt(
    a: Seq<crate::model::obj_dynamic::DynView>,
    b: Seq<crate::model::obj_dynamic::DynView>,
) -> bool
    decreases a.len(),
{
    a.len() > 0 && b.len() > 0 && (value_lt(a[0], b[0]) || (a[0] == b[0] && values_lt(
        a.drop_first(),
        b.drop_first(),
    )))
}

/// The fields of a key of one shape: these names in this order, with values
/// of these kinds that a key can hold.
pub open spec fn shaped(
    fields: Seq<(Seq<char>, crate::model::obj_dynamic::DynView)>,
    order: Seq<Seq<char>>,
    kinds: Seq<KeyKind>,
) -> bool {
    fields.len() == order.len() == kinds.len() && forall|i: int|
        0 <= i < fields.len() ==> {
            let f = #[trigger] fields[i];
            &&& f.0 == order[i]
            &&& key_body(f.1) is Some
            &&& kind_of(f.1) == kinds[i]
            &&& crate::model::obj_dynamic::canonical(f.1)
        }
}

proof fn lemma_shaped_rest(
    fields: Seq<(Seq<char>, crate::model::obj_dynamic::DynView)>,
    order: Seq<Seq<char>>,
    kinds: Seq<KeyKind>,
    names: crate::model::obj_dynamic::NameTable,
)
    requires
        shaped(fields, order, kinds),
        low_numbers(order, kinds, names),
        fields.len() > 0,
    ensures
        shaped(fields.drop_first(), order.drop_first(), kinds.drop_first()),
        low_numbers(order.drop_first(), kinds.drop_first(), names),
        ({
            let rest = key_bytes(fields.drop_first(), names);
            terminated(kind_of(fields[0].1)) ==> rest.len() == 0 || rest[0] != 0xFF
        }),
{
    let t = fields.drop_first();
    assert forall|i: int| 0 <= i < t.len() implies {
        let f = #[trigger] t[i];
        &&& f.0 == order.drop_first()[i]
        &&& key_body(f.1) is Some
        &&& kind_of(f.1) == kinds.drop_first()[i]
        &&& crate::model::obj_dynamic::canonical(f.1)
    } by {
        assert(t[i] == fields[i + 1]);
    }
    lemma_low_rest(order, kinds, names);
    if t.len() > 0 && terminated(kind_of(fields[0].1)) {
        let n = names[t[0].0] as nat;
        assert(t[0].0 == order.drop_first()[0]);
        assert(order.drop_first()[0] == order[1]);
        assert(kind_of(fields[0].1) == kinds[0]);
        crate::bytes::lemma_high_byte(n);
        crate::bytes::lemma_be_bytes_len(n, 2);
        assert(key_bytes(t, names)[0] == crate::bytes::be_bytes(n, 2)[0]);
    }
}

/// Keys of one shape sort field by field, as their values do, as long as no
/// number of a name behind text or bytes begins with `FF`.
pub proof fn law_keys_sort_by_fields(
    a: Seq<(Seq<char>, crate::model::obj_dynamic::DynView)>,
    b: Seq<(Seq<char>, crate::model::obj_dynamic::DynView)>,
    order: Seq<Seq<char>>,
    kinds: Seq<KeyKind>,
    names: crate::model::obj_dynamic::NameTable,
)
    requires
        shaped(a, order, kinds),
        shaped(b, order, kinds),
        low_numbers(order, kinds, names),
    ensures
        crate::bytes::lex_lt(key_bytes(a, names), key_bytes(b, names)) <==> values_lt(
            field_values(a),
            field_values(b),
        ),
        key_bytes(a, names) == key_bytes(b, names) <==> a == b,
    decreases a.len(),
{
    let x = key_bytes(a, names);
    let y = key_bytes(b, names);
    if a.len() == 0 {
        assert(a =~= b);
    } else {
        let s = a.drop_first();
        let t = b.drop_first();
        let u = a[0].1;
        let v = b[0].1;
        lemma_shaped_rest(a, order, kinds, names);
        lemma_shaped_rest(b, order, kinds, names);
        law_keys_sort_by_fields(s, t, order.drop_first(), kinds.drop_first(), names);
        assert(a[0].0 == order[0] && b[0].0 == order[0]);
        let id = crate::bytes::be_bytes(names[order[0]] as nat, 2);
        let p = key_body(u)->0 + key_bytes(s, names);
        let q = key_body(v)->0 + key_bytes(t, names);
        assert(x =~= id + p);
        assert(y =~= id + q);
        crate::bytes::lemma_lex_shared_prefix(id, p, q);
        assert(field_values(a).drop_first() =~= field_values(s));
        assert(field_values(b).drop_first() =~= field_values(t));
        assert(field_values(a)[0] == u && field_values(b)[0] == v);
        lemma_value_total(u, v);
        if u == v {
            crate::bytes::lemma_lex_shared_prefix(
                key_body(u)->0,
                key_bytes(s, names),
                key_bytes(t, names),
            );
            lemma_value_irreflexive(u);
            if x == y {
                let n = id.len() + key_body(u)->0.len();
                assert(x.skip(n as int) =~= key_bytes(s, names));
                assert(y.skip(n as int) =~= key_bytes(t, names));
            }
            if s == t {
                assert(a =~= seq![a[0]] + s);
                assert(b =~= seq![b[0]] + t);
            }
        } else if value_lt(u, v) {
            lemma_body_order_then(u, v, key_bytes(s, names), key_bytes(t, names));
            crate::bytes::lemma_lex_irreflexive(x);
            assert(a[0] != b[0]);
        } else {
            lemma_body_order_then(v, u, key_bytes(t, names), key_bytes(s, names));
            crate::bytes::lemma_lex_shared_prefix(id, q, p);
            crate::bytes::lemma_lex_asymmetric(y, x);
            crate::bytes::lemma_lex_irreflexive(x);
            assert(a[0] != b[0]);
        }
    }
}

proof fn lemma_value_irreflexive(a: crate::model::obj_dynamic::DynView)
    ensures
        !value_lt(a, a),
{
    match a {
        crate::model::obj_dynamic::DynView::Str(x) => crate::text::lemma_name_order(x, x),
        crate::model::obj_dynamic::DynView::Bytes(x) => crate::bytes::lemma_lex_irreflexive(x),
        _ => {},
    }
}

/// A key is its first fields, then the others.
proof fn lemma_key_bytes_split(
    fields: Seq<(Seq<char>, crate::model::obj_dynamic::DynView)>,
    n: int,
    names: crate::model::obj_dynamic::NameTable,
)
    requires
        0 <= n <= fields.len(),
    ensures
        key_bytes(fields, names) == key_bytes(fields.take(n), names) + key_bytes(
            fields.skip(n),
            names,
        ),
    decreases n,
{
    if n == 0 {
        assert(fields.take(n) =~= Seq::empty());
        assert(fields.skip(n) =~= fields);
        assert(key_bytes(fields, names) =~= key_bytes(fields.take(n), names) + key_bytes(
            fields.skip(n),
            names,
        ));
    } else {
        let t = fields.drop_first();
        lemma_key_bytes_split(t, n - 1, names);
        assert(fields.take(n).drop_first() =~= t.take(n - 1));
        assert(fields.skip(n) =~= t.skip(n - 1));
        assert(key_bytes(fields, names) =~= key_bytes(fields.take(n), names) + key_bytes(
            fields.skip(n),
            names,
        ));
    }
}

/// A scan for first fields takes exactly the keys that begin with them.
pub proof fn law_prefix_tells_fields(
    ns: u16,
    fields: Seq<(Seq<char>, crate::model::obj_dynamic::DynView)>,
    prefix: Seq<(Seq<char>, crate::model::obj_dynamic::DynView)>,
    order: Seq<Seq<char>>,
    kinds: Seq<KeyKind>,
    names: crate::model::obj_dynamic::NameTable,
)
    requires
        shaped(fields, order, kinds),
        prefix.len() <= order.len(),
        shaped(prefix, order.take(prefix.len() as int), kinds.take(prefix.len() as int)),
        low_numbers(order, kinds, names),
    ensures
        (crate::bytes::starts_with(doc_key(ns, fields, names), doc_key(ns, prefix, names))
            && begins_with_fields(doc_key(ns, fields, names), prefix)) <==> fields.take(
            prefix.len() as int,
        ) == prefix,
        key_values(kinds, doc_key(ns, fields, names).skip(4)) == Ok::<_, KeyError>(
            field_values(fields),
        ),
        doc_key(ns, fields, names).len() >= 4,
{
    let n = prefix.len() as int;
    let k = doc_key(ns, fields, names);
    let body = key_bytes(fields, names);
    crate::bytes::lemma_be_bytes_len(ns as nat, 2);
    crate::model::index::lemma_slot_key(ns_header(ns), PRIMARY_SLOT, PRIMARY_SLOT, body, body);
    assert(k.skip(4) == body);
    assert forall|i: int| 0 <= i < fields.len() implies key_body((#[trigger] fields[i]).1) is Some
        && crate::model::obj_dynamic::canonical(fields[i].1) by {}
    assert(kinds_of(fields) =~= kinds) by {
        assert forall|i: int| 0 <= i < fields.len() implies kinds_of(fields)[i] == kinds[i] by {
            assert(kind_of(fields[i].1) == kinds[i]);
        }
    }
    assert(field_names(fields) =~= order) by {
        assert forall|i: int| 0 <= i < fields.len() implies field_names(fields)[i] == order[i] by {
            assert(fields[i].0 == order[i]);
        }
    }
    law_key_round_trip(fields, names);
    assert(kinds_of(prefix) =~= kinds.take(n)) by {
        assert forall|i: int| 0 <= i < n implies kinds_of(prefix)[i] == kinds.take(n)[i] by {
            assert(kind_of(prefix[i].1) == kinds.take(n)[i]);
        }
    }
    lemma_key_values_take(kinds, body, n);
    if begins_with_fields(k, prefix) {
        assert(field_values(fields).take(n) == field_values(prefix));
        assert forall|i: int| 0 <= i < n implies fields.take(n)[i] == prefix[i] by {
            assert(field_values(fields).take(n)[i] == fields[i].1);
            assert(field_values(prefix)[i] == prefix[i].1);
            assert(fields[i].0 == order[i]);
            assert(prefix[i].0 == order.take(n)[i]);
        }
        assert(fields.take(n) =~= prefix);
    }
    if fields.take(n) == prefix {
        assert(field_values(fields).take(n) =~= field_values(prefix));
        lemma_key_bytes_split(fields, n, names);
        let p = doc_key(ns, prefix, names);
        crate::bytes::lemma_starts_with_concat(p, key_bytes(fields.skip(n), names));
        assert(k =~= p + key_bytes(fields.skip(n), names));
    }
}

/// The rows of pairs that can all be read, one by one.
proof fn lemma_rows_each(
    pairs: Seq<(Seq<u8>, Seq<u8>)>,
    kinds: Seq<KeyKind>,
    ids: crate::model::obj_dynamic::IdTable,
)
    requires
        forall|i: int|
            0 <= i < pairs.len() ==> (#[trigger] pairs[i]).0.len() >= 4 && key_values(
                kinds,
                pairs[i].0.skip(4),
            ) is Ok,
    ensures
        rows(pairs, kinds, ids) is Ok,
        rows(pairs, kinds, ids)->Ok_0.len() == pairs.len(),
        forall|i: int|
            0 <= i < pairs.len() ==> #[trigger] rows(pairs, kinds, ids)->Ok_0[i] == (
                key_values(kinds, pairs[i].0.skip(4))->Ok_0,
                doc_of(pairs[i].1, ids),
            ),
    decreases pairs.len(),
{
    if pairs.len() > 0 {
        let init = pairs.drop_last();
        assert forall|i: int| 0 <= i < init.len() implies (#[trigger] init[i]).0.len() >= 4
            && key_values(kinds, init[i].0.skip(4)) is Ok by {
            assert(init[i] == pairs[i]);
        }
        lemma_rows_each(init, kinds, ids);
        assert(pairs[pairs.len() - 1].0.len() >= 4);
        let out = rows(pairs, kinds, ids)->Ok_0;
        let before = rows(init, kinds, ids)->Ok_0;
        assert forall|i: int| 0 <= i < pairs.len() implies #[trigger] out[i] == (
            key_values(kinds, pairs[i].0.skip(4))->Ok_0,
            doc_of(pairs[i].1, ids),
        ) by {
            if i < init.len() {
                assert(out[i] == before[i]);
                assert(init[i] == pairs[i]);
            }
        }
    }
}

/// Every document of a namespace stands under a key of one shape.
pub open spec fn holds_rows(
    m: crate::engine::storage::Contents,
    ns: u16,
    order: Seq<Seq<char>>,
    kinds: Seq<KeyKind>,
    names: crate::model::obj_dynamic::NameTable,
) -> bool {
    forall|k: Seq<u8>|
        m.dom().contains(k) && #[trigger] crate::bytes::starts_with(
            k,
            crate::model::index::slot_key(ns_header(ns), PRIMARY_SLOT, Seq::empty()),
        ) ==> exists|f: Seq<(Seq<char>, crate::model::obj_dynamic::DynView)>| #[trigger]
            shaped(f, order, kinds) && k == doc_key(ns, f, names)
}

/// The row of a stored document.
pub open spec fn row_of(
    m: crate::engine::storage::Contents,
    ns: u16,
    f: Seq<(Seq<char>, crate::model::obj_dynamic::DynView)>,
    names: crate::model::obj_dynamic::NameTable,
    ids: crate::model::obj_dynamic::IdTable,
) -> (
    Seq<crate::model::obj_dynamic::DynView>,
    Seq<(Seq<char>, crate::model::obj_dynamic::DynView)>,
) {
    (field_values(f), doc_of(m[doc_key(ns, f, names)], ids))
}

/// Where all keys of a namespace have one shape, a scan for first fields
/// gives the documents whose keys have these fields first, each once, in
/// the order of their values. A limit gives the first of these. This is as
/// long as no number of a name behind text or bytes begins with `FF`.
pub proof fn law_scan_gives_rows(
    m: crate::engine::storage::Contents,
    ns: u16,
    prefix: Seq<(Seq<char>, crate::model::obj_dynamic::DynView)>,
    limit: Option<u64>,
    order: Seq<Seq<char>>,
    kinds: Seq<KeyKind>,
    names: crate::model::obj_dynamic::NameTable,
    ids: crate::model::obj_dynamic::IdTable,
)
    requires
        m.dom().finite(),
        holds_rows(m, ns, order, kinds, names),
        prefix.len() <= order.len(),
        shaped(prefix, order.take(prefix.len() as int), kinds.take(prefix.len() as int)),
        low_numbers(order, kinds, names),
    ensures
        ({
            let found = selected(
                crate::engine::storage::prefix_pairs(m, doc_key(ns, prefix, names)),
                prefix,
            );
            let all = rows(found, kinds, ids)->Ok_0;
            &&& rows(found, kinds, ids) is Ok
            &&& rows(limited(found, limit), kinds, ids) == Ok::<_, KeyError>(
                if limit is Some && limit->0 < all.len() {
                    all.take(limit->0 as int)
                } else {
                    all
                },
            )
            &&& forall|i: int|
                0 <= i < all.len() ==> exists|f: Seq<
                    (Seq<char>, crate::model::obj_dynamic::DynView),
                >|
                    {
                        &&& #[trigger] shaped(f, order, kinds)
                        &&& m.dom().contains(doc_key(ns, f, names))
                        &&& f.take(prefix.len() as int) == prefix
                        &&& #[trigger] all[i] == row_of(m, ns, f, names, ids)
                    }
            &&& forall|f: Seq<(Seq<char>, crate::model::obj_dynamic::DynView)>| #[trigger]
                shaped(f, order, kinds) && m.dom().contains(doc_key(ns, f, names)) && f.take(
                    prefix.len() as int,
                ) == prefix ==> all.contains(row_of(m, ns, f, names, ids))
            &&& forall|i: int, j: int|
                0 <= i < j < all.len() ==> values_lt((#[trigger] all[i]).0, (#[trigger] all[j]).0)
        }),
{
    let n = prefix.len() as int;
    let p = doc_key(ns, prefix, names);
    let front = crate::model::index::slot_key(ns_header(ns), PRIMARY_SLOT, Seq::empty());
    let set = crate::engine::storage::prefix_set(m, p);
    let keys = crate::engine::storage::prefix_keys(m, p);
    let pairs = crate::engine::storage::prefix_pairs(m, p);
    let found = selected(pairs, prefix);
    assert(set =~= m.dom().filter(|k: Seq<u8>| crate::bytes::starts_with(k, p)));
    crate::engine::storage::lemma_finite_listing(set);
    lemma_selected(pairs, prefix);
    assert(keys_ascend(pairs)) by {
        assert forall|i: int, j: int| 0 <= i < j < pairs.len() implies crate::bytes::lex_lt(
            (#[trigger] pairs[i]).0,
            (#[trigger] pairs[j]).0,
        ) by {
            assert(pairs[i].0 == keys[i] && pairs[j].0 == keys[j]);
        }
    }
    // Which row stands under the i-th key that was found.
    let of = |i: int|
        choose|f: Seq<(Seq<char>, crate::model::obj_dynamic::DynView)>| #[trigger]
            shaped(f, order, kinds) && found[i].0 == doc_key(ns, f, names);
    assert forall|i: int| 0 <= i < found.len() implies {
        let f = of(i);
        &&& shaped(f, order, kinds)
        &&& (#[trigger] found[i]) == (doc_key(ns, f, names), m[doc_key(ns, f, names)])
        &&& m.dom().contains(doc_key(ns, f, names))
        &&& f.take(n) == prefix
        &&& found[i].0.len() >= 4
        &&& key_values(kinds, found[i].0.skip(4)) == Ok::<_, KeyError>(field_values(f))
    } by {
        let j = choose|j: int| 0 <= j < pairs.len() && pairs[j] == found[i];
        let k = keys[j];
        assert(set.contains(k));
        assert(found[i] == (k, m[k]));
        assert(crate::bytes::starts_with(k, front)) by {
            crate::model::index::lemma_slot_key(
                ns_header(ns),
                PRIMARY_SLOT,
                PRIMARY_SLOT,
                key_bytes(prefix, names),
                key_bytes(prefix, names),
            );
            crate::bytes::lemma_starts_with_split(k, p);
            let rest = key_bytes(prefix, names) + k.skip(p.len() as int);
            assert(k =~= front + rest);
            crate::bytes::lemma_starts_with_concat(front, rest);
        }
        law_prefix_tells_fields(ns, of(i), prefix, order, kinds, names);
    }
    lemma_rows_each(found, kinds, ids);
    let all = rows(found, kinds, ids)->Ok_0;
    let some = limited(found, limit);
    assert forall|i: int| 0 <= i < some.len() implies (#[trigger] some[i]).0.len() >= 4
        && key_values(kinds, some[i].0.skip(4)) is Ok by {
        assert(some[i] == found[i]);
    }
    lemma_rows_each(some, kinds, ids);
    let few = rows(some, kinds, ids)->Ok_0;
    assert forall|i: int| 0 <= i < few.len() implies few[i] == all[i] by {
        assert(some[i] == found[i]);
    }
    assert(few =~= (if limit is Some && limit->0 < all.len() {
        all.take(limit->0 as int)
    } else {
        all
    }));
    assert forall|i: int| 0 <= i < all.len() implies exists|
        f: Seq<(Seq<char>, crate::model::obj_dynamic::DynView)>,
    |
        {
            &&& #[trigger] shaped(f, order, kinds)
            &&& m.dom().contains(doc_key(ns, f, names))
            &&& f.take(prefix.len() as int) == prefix
            &&& #[trigger] all[i] == row_of(m, ns, f, names, ids)
        } by {
        let f = of(i);
        assert(found[i] == (doc_key(ns, f, names), m[doc_key(ns, f, names)]));
        assert(shaped(f, order, kinds));
        assert(all[i] == row_of(m, ns, f, names, ids));
    }
    assert forall|f: Seq<(Seq<char>, crate::model::obj_dynamic::DynView)>| #[trigger]
        shaped(f, order, kinds) && m.dom().contains(doc_key(ns, f, names)) && f.take(n)
            == prefix implies all.contains(row_of(m, ns, f, names, ids)) by {
        let k = doc_key(ns, f, names);
        law_prefix_tells_fields(ns, f, prefix, order, kinds, names);
        assert(set.contains(k));
        let j = choose|j: int| 0 <= j < keys.len() && keys[j] == k;
        assert(pairs[j] == (k, m[k]));
        assert(found.contains(pairs[j]));
        let i = choose|i: int| 0 <= i < found.len() && found[i] == pairs[j];
        assert(found[i].0 == k);
        assert(all[i] == row_of(m, ns, f, names, ids));
    }
    assert forall|i: int, j: int| 0 <= i < j < all.len() implies values_lt(
        (#[trigger] all[i]).0,
        (#[trigger] all[j]).0,
    ) by {
        let f = of(i);
        let g = of(j);
        assert(found[i].0 == doc_key(ns, f, names));
        assert(found[j].0 == doc_key(ns, g, names));
        assert(crate::bytes::lex_lt(found[i].0, found[j].0));
        let x = key_bytes(f, names);
        let y = key_bytes(g, names);
        crate::model::index::lemma_slot_key(ns_header(ns), PRIMARY_SLOT, PRIMARY_SLOT, x, y);
        crate::model::index::lemma_slot_key(ns_header(ns), PRIMARY_SLOT, PRIMARY_SLOT, y, x);
        crate::bytes::lemma_lex_shared_prefix(front, x, y);
        law_keys_sort_by_fields(f, g, order, kinds, names);
    }
}

/// Fields written under sorted names come back as they were.
pub proof fn lemma_named_back(
    fields: Seq<(Seq<char>, crate::model::obj_dynamic::DynView)>,
    names: crate::model::obj_dynamic::NameTable,
    ids: crate::model::obj_dynamic::IdTable,
)
    requires
        crate::model::obj_dynamic::names_sorted(fields),
        forall|i: int|
            0 <= i < fields.len() ==> ids.dom().contains(names[(#[trigger] fields[i]).0])
                && ids[names[fields[i].0]] == fields[i].0,
    ensures
        named_fields(
            fields.map_values(
                |f: (Seq<char>, crate::model::obj_dynamic::DynView)| (names[f.0], f.1),
            ),
            ids,
        ) == fields,
    decreases fields.len(),
{
    let pick = |f: (Seq<char>, crate::model::obj_dynamic::DynView)| (names[f.0], f.1);
    if fields.len() == 0 {
        assert(named_fields(fields.map_values(pick), ids) =~= fields);
    } else {
        let init = fields.drop_last();
        assert forall|i: int| 0 <= i < init.len() implies ids.dom().contains(
            names[(#[trigger] init[i]).0],
        ) && ids[names[init[i].0]] == init[i].0 by {
            assert(init[i] == fields[i]);
        }
        assert forall|i: int, j: int| 0 <= i < j < init.len() implies crate::text::name_lt(
            init[i].0,
            init[j].0,
        ) by {
            assert(init[i] == fields[i] && init[j] == fields[j]);
        }
        lemma_named_back(init, names, ids);
        let n = fields.len() - 1;
        assert(fields[n] == fields.last());
        assert forall|i: int| 0 <= i < init.len() implies crate::text::name_lt(
            (#[trigger] init[i]).0,
            fields.last().0,
        ) by {
            assert(init[i] == fields[i]);
            assert(crate::text::name_lt(fields[i].0, fields[n].0));
        }
        crate::model::obj_dynamic::lemma_insert_last(init, fields.last().0, fields.last().1);
        assert(fields.map_values(pick).drop_last() =~= init.map_values(pick));
        assert(init.push(fields.last()) =~= fields);
    }
}

/// The names of the fields themselves are among those that writing them
/// looks up.
proof fn lemma_own_names(
    fields: Seq<(Seq<char>, crate::model::obj_dynamic::DynView)>,
    names: crate::model::obj_dynamic::NameTable,
)
    requires
        crate::model::obj_dynamic::all_known(
            crate::model::obj_dynamic::fields_names(fields),
            names,
        ),
    ensures
        forall|i: int| 0 <= i < fields.len() ==> names.dom().contains((#[trigger] fields[i]).0),
    decreases fields.len(),
{
    if fields.len() > 0 {
        let init = fields.drop_last();
        let all = crate::model::obj_dynamic::fields_names(fields);
        let head = crate::model::obj_dynamic::fields_names(init);
        assert(all =~= head + (seq![fields.last().0] + crate::model::obj_dynamic::value_names(
            fields.last().1,
        )));
        assert forall|i: int| 0 <= i < head.len() implies names.dom().contains(
            #[trigger] head[i],
        ) by {
            assert(all[i] == head[i]);
        }
        lemma_own_names(init, names);
        assert(all[head.len() as int] == fields.last().0);
        assert forall|i: int| 0 <= i < fields.len() implies names.dom().contains(
            (#[trigger] fields[i]).0,
        ) by {
            if i < init.len() {
                assert(init[i] == fields[i]);
            }
        }
    }
}

/// Documents stand outside their dictionary.
proof fn lemma_doc_key_apart(
    ns: u16,
    fields: Seq<(Seq<char>, crate::model::obj_dynamic::DynView)>,
    names: crate::model::obj_dynamic::NameTable,
)
    ensures
        !crate::bytes::starts_with(
            doc_key(ns, fields, names),
            crate::model::obj_dict::home(ns_header(ns)).ids,
        ),
        !crate::bytes::starts_with(
            doc_key(ns, fields, names),
            crate::model::obj_dict::home(ns_header(ns)).names,
        ),
{
    let rest = key_bytes(fields, names);
    crate::model::index::lemma_slot_key(ns_header(ns), PRIMARY_SLOT, DICT_ID_SLOT, rest, rest);
    crate::model::index::lemma_slot_key(ns_header(ns), PRIMARY_SLOT, DICT_NAME_SLOT, rest, rest);
}

/// Fields stored under a key outside their dictionary read back as they were
/// written, and the dictionary is what it was.
pub proof fn law_entry_round_trip(
    h: crate::model::obj_dict::DictHome,
    m: crate::engine::storage::Contents,
    d: crate::model::obj_dict::DictView,
    k: Seq<u8>,
    doc: Seq<(Seq<char>, crate::model::obj_dynamic::DynView)>,
)
    requires
        crate::model::obj_dict::in_sync(d, m, h),
        !crate::bytes::starts_with(k, h.ids),
        !crate::bytes::starts_with(k, h.names),
        crate::model::obj_dynamic::all_known(
            crate::model::obj_dynamic::fields_names(doc),
            d.names,
        ),
        crate::model::obj_dynamic::names_sorted(doc),
        crate::model::obj_dynamic::canonical_fields(doc),
        crate::model::obj_dynamic::fields_bytes(doc, d.names).len() <= u64::MAX,
    ensures
        ({
            let body = crate::model::obj_dynamic::fields_bytes(doc, d.names);
            let m2 = set_entry(m, k, body);
            let ids = crate::model::obj_dict::lookup_table(
                crate::model::obj_dict::fresh_dict(),
                m2,
                h,
            );
            &&& crate::model::obj_dict::in_sync(d, m2, h)
            &&& m2.dom().contains(k) <==> doc.len() > 0
            &&& crate::model::obj_dynamic::read_frames(body, ids).len() == doc.len()
            &&& doc_of(body, ids) == doc
        }),
{
    let body = crate::model::obj_dynamic::fields_bytes(doc, d.names);
    let m2 = set_entry(m, k, body);
    let order = crate::model::obj_dynamic::fields_names(doc);
    assert(m2.dom().finite());
    crate::model::obj_dict::law_sync_elsewhere(d, m, m2, h);
    crate::model::obj_dict::law_sync_lookup(d, m2, h);
    assert(crate::model::obj_dynamic::both_ways(order, d.names, d.ids)) by {
        assert forall|i: int| 0 <= i < order.len() implies {
            let name = #[trigger] order[i];
            &&& d.names.dom().contains(name)
            &&& d.ids.dom().contains(d.names[name])
            &&& d.ids[d.names[name]] == name
        } by {
            assert(d.names.dom().contains(order[i]));
        }
    }
    crate::model::obj_dynamic::law_fields_read_back(doc, d.names, d.ids);
    lemma_own_names(doc, d.names);
    assert forall|i: int| 0 <= i < doc.len() implies d.ids.dom().contains(
        d.names[(#[trigger] doc[i]).0],
    ) && d.ids[d.names[doc[i].0]] == doc[i].0 by {
        assert(d.names.dom().contains(doc[i].0));
    }
    lemma_named_back(doc, d.names, d.ids);
    if doc.len() > 0 {
        let last = doc.last();
        assert(body.len() > 0) by {
            assert(crate::model::obj_dynamic::tagged(
                crate::model::obj_dynamic::value_type(last.1),
                crate::model::obj_dynamic::value_body(last.1, d.names),
            ).len() > 0);
        }
    }
}

/// A stored document reads back as it was written, and the dictionary is
/// what it was.
pub proof fn law_document_round_trip(
    ns: u16,
    m: crate::engine::storage::Contents,
    d: crate::model::obj_dict::DictView,
    key: Seq<(Seq<char>, crate::model::obj_dynamic::DynView)>,
    doc: Seq<(Seq<char>, crate::model::obj_dynamic::DynView)>,
)
    requires
        crate::model::obj_dict::in_sync(d, m, crate::model::obj_dict::home(ns_header(ns))),
        crate::model::obj_dynamic::all_known(
            crate::model::obj_dynamic::fields_names(doc),
            d.names,
        ),
        crate::model::obj_dynamic::names_sorted(doc),
        crate::model::obj_dynamic::canonical_fields(doc),
        crate::model::obj_dynamic::fields_bytes(doc, d.names).len() <= u64::MAX,
    ensures
        ({
            let h = crate::model::obj_dict::home(ns_header(ns));
            let k = doc_key(ns, key, d.names);
            let body = crate::model::obj_dynamic::fields_bytes(doc, d.names);
            let m2 = set_entry(m, k, body);
            &&& crate::model::obj_dict::in_sync(d, m2, h)
            &&& m2.dom().contains(k) <==> doc.len() > 0
            &&& doc_of(
                body,
                crate::model::obj_dict::lookup_table(crate::model::obj_dict::fresh_dict(), m2, h),
            ) == doc
        }),
{
    lemma_doc_key_apart(ns, key, d.names);
    law_entry_round_trip(
        crate::model::obj_dict::home(ns_header(ns)),
        m,
        d,
        doc_key(ns, key, d.names),
        doc,
    );
}

/// Reading a key after writing a document under it gives that document, and
/// nothing for an empty one; the names are known then, so reading changes
/// nothing. This is on engines that refuse no write, with a collection that
/// has numbered its names on this engine.
pub proof fn law_get_after_put<S: VirtualStorage>(
    before: DynamicCollection<S>,
    after: DynamicCollection<S>,
    w: crate::engine::storage::Contents,
    key: Seq<(Seq<char>, crate::model::obj_dynamic::DynView)>,
    doc: Seq<(Seq<char>, crate::model::obj_dynamic::DynView)>,
)
    requires
        S::never_refuses(),
        before.wf(),
        crate::model::obj_dict::in_sync(
            before.names().dict,
            before.contents(),
            before.names().home,
        ),
        key_ok(key),
        crate::model::obj_dynamic::names_sorted(doc),
        crate::model::obj_dynamic::canonical_fields(doc),
        before.can_learn(DynamicCollection::<S>::put_names(key, doc)),
        before.learned(DynamicCollection::<S>::put_names(key, doc), &after, w),
        after.contents() == set_entry(
            w,
            doc_key(after.ns(), key, after.names().dict.names),
            crate::model::obj_dynamic::fields_bytes(doc, after.names().dict.names),
        ),
        crate::model::obj_dynamic::fields_bytes(doc, after.names().dict.names).len() <= u64::MAX,
    ensures
        crate::model::obj_dict::in_sync(after.names().dict, after.contents(), after.names().home),
        after.can_learn(key_names(key)),
        crate::model::obj_dynamic::steps::<DictStore<S>>(after.names(), key_names(key))
            == after.names(),
        ({
            let k = doc_key(after.ns(), key, after.names().dict.names);
            &&& after.contents().dom().contains(k) <==> doc.len() > 0
            &&& doc.len() > 0 ==> doc_of(after.contents()[k], after.stored_ids()) == doc
        }),
{
    let a = key_names(key);
    let b = crate::model::obj_dynamic::fields_names(doc);
    let s = before.names();
    let d = after.names().dict;
    crate::model::obj_dict::lemma_home_apart(ns_header(before.ns()));
    crate::model::obj_dict::law_learning_keeps_sync::<S>(s, a + b, before.contents(), w);
    lemma_steps_home::<S>(s, a + b);
    crate::model::obj_dynamic::law_steps_append::<DictStore<S>>(s, a + b);
    assert forall|i: int| 0 <= i < b.len() implies d.names.dom().contains(#[trigger] b[i]) by {
        assert((a + b)[a.len() + i] == b[i]);
    }
    assert forall|i: int| 0 <= i < a.len() implies d.names.dom().contains(#[trigger] a[i]) by {
        assert((a + b)[i] == a[i]);
    }
    law_document_round_trip(before.ns(), w, d, key, doc);
    crate::model::obj_dict::law_known_names_stay::<S>(after.names(), a);
}

/// Documents of different namespaces never share a key.
pub proof fn law_namespaces_are_disjoint(
    ns: u16,
    other: u16,
    a: Seq<(Seq<char>, crate::model::obj_dynamic::DynView)>,
    b: Seq<(Seq<char>, crate::model::obj_dynamic::DynView)>,
    names: crate::model::obj_dynamic::NameTable,
    others: crate::model::obj_dynamic::NameTable,
)
    requires
        ns != other,
    ensures
        doc_key(ns, a, names) != doc_key(other, b, others),
{
    crate::bytes::lemma_be_bytes_len(ns as nat, 2);
    crate::bytes::lemma_be_bytes_len(other as nat, 2);
    crate::bytes::lemma_pow256_small();
    let x = doc_key(ns, a, names);
    let y = doc_key(other, b, others);
    assert(x.take(2) =~= ns_header(ns));
    assert(y.take(2) =~= ns_header(other));
    if x == y {
        crate::bytes::lemma_be_injective(ns as nat, other as nat, 2);
    }
}

/// A document as it can be stored: not empty, its fields in order, each with
/// a number.
pub open spec fn storable_doc(
    doc: Seq<(Seq<char>, crate::model::obj_dynamic::DynView)>,
    names: crate::model::obj_dynamic::NameTable,
) -> bool {
    &&& doc.len() > 0
    &&& crate::model::obj_dynamic::names_sorted(doc)
    &&& crate::model::obj_dynamic::canonical_fields(doc)
    &&& crate::model::obj_dynamic::all_known(
        crate::model::obj_dynamic::fields_names(doc),
        names,
    )
    &&& crate::model::obj_dynamic::fields_bytes(doc, names).len() <= u64::MAX
}

/// A namespace holds these documents, under keys of one shape, and no
/// others.
pub open spec fn holds_docs(
    m: crate::engine::storage::Contents,
    ns: u16,
    order: Seq<Seq<char>>,
    kinds: Seq<KeyKind>,
    names: crate::model::obj_dynamic::NameTable,
    docs: Map<
        Seq<(Seq<char>, crate::model::obj_dynamic::DynView)>,
        Seq<(Seq<char>, crate::model::obj_dynamic::DynView)>,
    >,
) -> bool {
    &&& forall|k: Seq<u8>|
        m.dom().contains(k) && #[trigger] crate::bytes::starts_with(
            k,
            crate::model::index::slot_key(ns_header(ns), PRIMARY_SLOT, Seq::empty()),
        ) ==> exists|f: Seq<(Seq<char>, crate::model::obj_dynamic::DynView)>| #[trigger]
            docs.dom().contains(f) && k == doc_key(ns, f, names)
    &&& forall|f: Seq<(Seq<char>, crate::model::obj_dynamic::DynView)>| #[trigger]
        docs.dom().contains(f) ==> {
            &&& shaped(f, order, kinds)
            &&& crate::model::obj_dynamic::all_known(order, names)
            &&& storable_doc(docs[f], names)
            &&& m.dom().contains(doc_key(ns, f, names))
            &&& m[doc_key(ns, f, names)] == crate::model::obj_dynamic::fields_bytes(
                docs[f],
                names,
            )
        }
}

/// A stored document reads back under a dictionary whose directions agree.
proof fn lemma_doc_reads(
    d: crate::model::obj_dict::DictView,
    doc: Seq<(Seq<char>, crate::model::obj_dynamic::DynView)>,
)
    requires
        crate::model::obj_dict::coherent(d),
        storable_doc(doc, d.names),
    ensures
        doc_of(crate::model::obj_dynamic::fields_bytes(doc, d.names), d.ids) == doc,
{
    let order = crate::model::obj_dynamic::fields_names(doc);
    assert(crate::model::obj_dynamic::both_ways(order, d.names, d.ids)) by {
        assert forall|i: int| 0 <= i < order.len() implies {
            let name = #[trigger] order[i];
            &&& d.names.dom().contains(name)
            &&& d.ids.dom().contains(d.names[name])
            &&& d.ids[d.names[name]] == name
        } by {
            assert(d.names.dom().contains(order[i]));
        }
    }
    crate::model::obj_dynamic::law_fields_read_back(doc, d.names, d.ids);
    lemma_own_names(doc, d.names);
    assert forall|i: int| 0 <= i < doc.len() implies d.ids.dom().contains(
        d.names[(#[trigger] doc[i]).0],
    ) && d.ids[d.names[doc[i].0]] == doc[i].0 by {
        assert(d.names.dom().contains(doc[i].0));
    }
    lemma_named_back(doc, d.names, d.ids);
}

/// Fields of one shape have the names of the shape.
proof fn lemma_shaped_known(
    f: Seq<(Seq<char>, crate::model::obj_dynamic::DynView)>,
    order: Seq<Seq<char>>,
    kinds: Seq<KeyKind>,
    a: crate::model::obj_dynamic::NameTable,
    b: crate::model::obj_dynamic::NameTable,
)
    requires
        shaped(f, order, kinds),
        crate::model::obj_dynamic::all_known(order, a),
        a.submap_of(b),
    ensures
        key_bytes(f, a) == key_bytes(f, b),
        crate::model::obj_dynamic::all_known(order, b),
{
    assert forall|i: int| 0 <= i < f.len() implies a.dom().contains((#[trigger] f[i]).0) by {
        assert(f[i].0 == order[i]);
        assert(a.dom().contains(order[i]));
    }
    lemma_key_bytes_stable(f, a, b);
    assert forall|i: int| 0 <= i < order.len() implies b.dom().contains(#[trigger] order[i]) by {
        assert(a.dom().contains(order[i]));
    }
}

/// What one write makes of the documents of a namespace: looking up names
/// changes none of them, and the entry that is set is the one of its key.
#[verifier::spinoff_prover]
#[verifier::rlimit(60)]
proof fn lemma_docs_step<S: VirtualStorage>(
    before: DynamicCollection<S>,
    after: DynamicCollection<S>,
    w: crate::engine::storage::Contents,
    looked: Seq<Seq<char>>,
    key: Seq<(Seq<char>, crate::model::obj_dynamic::DynView)>,
    doc: Seq<(Seq<char>, crate::model::obj_dynamic::DynView)>,
    order: Seq<Seq<char>>,
    kinds: Seq<KeyKind>,
    docs: Map<
        Seq<(Seq<char>, crate::model::obj_dynamic::DynView)>,
        Seq<(Seq<char>, crate::model::obj_dynamic::DynView)>,
    >,
)
    requires
        before.wf(),
        before.can_learn(looked),
        before.learned(looked, &after, w),
        shaped(key, order, kinds),
        crate::model::obj_dynamic::all_known(order, after.names().dict.names),
        low_numbers(order, kinds, after.names().dict.names),
        doc.len() == 0 || storable_doc(doc, after.names().dict.names),
        doc.len() > 0 ==> crate::model::obj_dynamic::fields_bytes(
            doc,
            after.names().dict.names,
        ).len() > 0,
        after.contents() == set_entry(
            w,
            doc_key(after.ns(), key, after.names().dict.names),
            crate::model::obj_dynamic::fields_bytes(doc, after.names().dict.names),
        ),
        holds_docs(
            before.contents(),
            before.ns(),
            order,
            kinds,
            before.names().dict.names,
            docs,
        ),
    ensures
        holds_docs(
            after.contents(),
            after.ns(),
            order,
            kinds,
            after.names().dict.names,
            if doc.len() == 0 {
                docs.remove(key)
            } else {
                docs.insert(key, doc)
            },
        ),
{
    let ns = before.ns();
    let s = before.names();
    let a = s.dict.names;
    let b = after.names().dict.names;
    let m = before.contents();
    let m2 = after.contents();
    let front = crate::model::index::slot_key(ns_header(ns), PRIMARY_SLOT, Seq::empty());
    let at = doc_key(ns, key, b);
    let docs2 = if doc.len() == 0 {
        docs.remove(key)
    } else {
        docs.insert(key, doc)
    };
    crate::model::obj_dynamic::law_steps_append::<DictStore<S>>(s, looked);
    assert(a.submap_of(b));
    // Documents stand where they stood, and are read as they were.
    assert forall|f: Seq<(Seq<char>, crate::model::obj_dynamic::DynView)>| #[trigger]
        docs.dom().contains(f) implies {
        &&& doc_key(ns, f, a) == doc_key(ns, f, b)
        &&& storable_doc(docs[f], b)
        &&& crate::model::obj_dynamic::fields_bytes(docs[f], a)
            == crate::model::obj_dynamic::fields_bytes(docs[f], b)
        &&& w.dom().contains(doc_key(ns, f, b))
        &&& w[doc_key(ns, f, b)] == m[doc_key(ns, f, b)]
    } by {
        lemma_shaped_known(f, order, kinds, a, b);
        crate::model::obj_dynamic::lemma_fields_stable(docs[f], a, b);
        let t = crate::model::obj_dynamic::fields_names(docs[f]);
        assert forall|i: int| 0 <= i < t.len() implies b.dom().contains(#[trigger] t[i]) by {
            assert(a.dom().contains(t[i]));
        }
        lemma_doc_key_apart(ns, f, b);
        crate::model::obj_dict::law_learning_spares_others::<S>(
            s,
            looked,
            m,
            w,
            doc_key(ns, f, b),
        );
    }
    assert forall|k: Seq<u8>|
        m2.dom().contains(k) && #[trigger] crate::bytes::starts_with(k, front) implies exists|
        f: Seq<(Seq<char>, crate::model::obj_dynamic::DynView)>,
    | #[trigger] docs2.dom().contains(f) && k == doc_key(ns, f, b) by {
        if k == at {
            assert(docs2.dom().contains(key));
        } else {
            assert(w.dom().contains(k));
            crate::bytes::lemma_starts_with_split(k, front);
            let rest = k.skip(front.len() as int);
            crate::model::index::lemma_slot_key(
                ns_header(ns),
                PRIMARY_SLOT,
                DICT_ID_SLOT,
                rest,
                rest,
            );
            crate::model::index::lemma_slot_key(
                ns_header(ns),
                PRIMARY_SLOT,
                DICT_NAME_SLOT,
                rest,
                rest,
            );
            crate::model::obj_dict::law_learning_spares_others::<S>(s, looked, m, w, k);
            let f = choose|f: Seq<(Seq<char>, crate::model::obj_dynamic::DynView)>| #[trigger]
                docs.dom().contains(f) && k == doc_key(ns, f, a);
            assert(docs.dom().contains(f));
            assert(docs2.dom().contains(f));
        }
    }
    assert forall|f: Seq<(Seq<char>, crate::model::obj_dynamic::DynView)>| #[trigger]
        docs2.dom().contains(f) implies {
        &&& shaped(f, order, kinds)
        &&& crate::model::obj_dynamic::all_known(order, b)
        &&& storable_doc(docs2[f], b)
        &&& m2.dom().contains(doc_key(ns, f, b))
        &&& m2[doc_key(ns, f, b)] == crate::model::obj_dynamic::fields_bytes(docs2[f], b)
    } by {
        if f != key {
            assert(docs.dom().contains(f));
            law_keys_sort_by_fields(f, key, order, kinds, b);
            crate::model::index::lemma_slot_key(
                ns_header(ns),
                PRIMARY_SLOT,
                PRIMARY_SLOT,
                key_bytes(f, b),
                key_bytes(key, b),
            );
            assert(doc_key(ns, f, b) != at);
        }
    }
}

/// Writing a document under a key of the common shape leaves the documents
/// of a namespace with this one among them, or without one for an empty
/// document. This is on engines that refuse no write, with a collection that
/// has numbered its names on this engine, as long as no number of a name
/// behind text or bytes begins with `FF`.
pub proof fn law_put_keeps_docs<S: VirtualStorage>(
    before: DynamicCollection<S>,
    after: DynamicCollection<S>,
    w: crate::engine::storage::Contents,
    key: Seq<(Seq<char>, crate::model::obj_dynamic::DynView)>,
    doc: Seq<(Seq<char>, crate::model::obj_dynamic::DynView)>,
    order: Seq<Seq<char>>,
    kinds: Seq<KeyKind>,
    docs: Map<
        Seq<(Seq<char>, crate::model::obj_dynamic::DynView)>,
        Seq<(Seq<char>, crate::model::obj_dynamic::DynView)>,
    >,
)
    requires
        S::never_refuses(),
        before.wf(),
        crate::model::obj_dict::in_sync(
            before.names().dict,
            before.contents(),
            before.names().home,
        ),
        shaped(key, order, kinds),
        crate::model::obj_dynamic::names_sorted(doc),
        crate::model::obj_dynamic::canonical_fields(doc),
        before.can_learn(DynamicCollection::<S>::put_names(key, doc)),
        before.learned(DynamicCollection::<S>::put_names(key, doc), &after, w),
        after.contents() == set_entry(
            w,
            doc_key(after.ns(), key, after.names().dict.names),
            crate::model::obj_dynamic::fields_bytes(doc, after.names().dict.names),
        ),
        crate::model::obj_dynamic::fields_bytes(doc, after.names().dict.names).len() <= u64::MAX,
        low_numbers(order, kinds, after.names().dict.names),
        holds_docs(
            before.contents(),
            before.ns(),
            order,
            kinds,
            before.names().dict.names,
            docs,
        ),
    ensures
        crate::model::obj_dict::in_sync(after.names().dict, after.contents(), after.names().home),
        holds_docs(
            after.contents(),
            after.ns(),
            order,
            kinds,
            after.names().dict.names,
            if doc.len() == 0 {
                docs.remove(key)
            } else {
                docs.insert(key, doc)
            },
        ),
{
    let b = after.names().dict.names;
    let x = key_names(key);
    let y = crate::model::obj_dynamic::fields_names(doc);
    assert(key_ok(key)) by {
        assert forall|i: int| 0 <= i < key.len() implies key_body(
            (#[trigger] key[i]).1,
        ) is Some by {}
    }
    law_get_after_put::<S>(before, after, w, key, doc);
    crate::model::obj_dynamic::law_steps_append::<DictStore<S>>(before.names(), x + y);
    lemma_key_names_all(key);
    assert forall|i: int| 0 <= i < order.len() implies b.dom().contains(#[trigger] order[i]) by {
        assert(key[i].0 == order[i]);
        assert((x + y)[i] == order[i]);
    }
    assert forall|i: int| 0 <= i < y.len() implies b.dom().contains(#[trigger] y[i]) by {
        assert((x + y)[x.len() + i] == y[i]);
    }
    if doc.len() > 0 && crate::model::obj_dynamic::fields_bytes(doc, b).len() == 0 {
        assert(!after.contents().dom().contains(doc_key(after.ns(), key, b)));
    }
    lemma_docs_step::<S>(before, after, w, x + y, key, doc, order, kinds, docs);
}

/// A namespace without keys of documents holds none.
pub proof fn law_no_docs(
    m: crate::engine::storage::Contents,
    ns: u16,
    order: Seq<Seq<char>>,
    kinds: Seq<KeyKind>,
    names: crate::model::obj_dynamic::NameTable,
)
    requires
        forall|k: Seq<u8>| #[trigger]
            m.dom().contains(k) ==> !crate::bytes::starts_with(
                k,
                crate::model::index::slot_key(ns_header(ns), PRIMARY_SLOT, Seq::empty()),
            ),
    ensures
        holds_docs(m, ns, order, kinds, names, Map::empty()),
{
}

/// Deleting by a key of the common shape leaves the documents of a namespace
/// without the one of this key. This is as for a write.
pub proof fn law_delete_keeps_docs<S: VirtualStorage>(
    before: DynamicCollection<S>,
    after: DynamicCollection<S>,
    w: crate::engine::storage::Contents,
    key: Seq<(Seq<char>, crate::model::obj_dynamic::DynView)>,
    order: Seq<Seq<char>>,
    kinds: Seq<KeyKind>,
    docs: Map<
        Seq<(Seq<char>, crate::model::obj_dynamic::DynView)>,
        Seq<(Seq<char>, crate::model::obj_dynamic::DynView)>,
    >,
)
    requires
        S::never_refuses(),
        before.wf(),
        crate::model::obj_dict::in_sync(
            before.names().dict,
            before.contents(),
            before.names().home,
        ),
        shaped(key, order, kinds),
        before.can_learn(key_names(key)),
        before.learned(key_names(key), &after, w),
        after.contents() == w.remove(doc_key(after.ns(), key, after.names().dict.names)),
        low_numbers(order, kinds, after.names().dict.names),
        holds_docs(
            before.contents(),
            before.ns(),
            order,
            kinds,
            before.names().dict.names,
            docs,
        ),
    ensures
        crate::model::obj_dict::in_sync(after.names().dict, after.contents(), after.names().home),
        holds_docs(
            after.contents(),
            after.ns(),
            order,
            kinds,
            after.names().dict.names,
            docs.remove(key),
        ),
{
    let none = Seq::<(Seq<char>, crate::model::obj_dynamic::DynView)>::empty();
    assert(DynamicCollection::<S>::put_names(key, none) =~= key_names(key));
    assert(crate::model::obj_dynamic::fields_bytes(none, after.names().dict.names).len() == 0);
    law_put_keeps_docs::<S>(before, after, w, key, none, order, kinds, docs);
}

/// A row is that of a document whose key begins with these fields.
pub open spec fn is_doc_row(
    row: (
        Seq<crate::model::obj_dynamic::DynView>,
        Seq<(Seq<char>, crate::model::obj_dynamic::DynView)>,
    ),
    prefix: Seq<(Seq<char>, crate::model::obj_dynamic::DynView)>,
    docs: Map<
        Seq<(Seq<char>, crate::model::obj_dynamic::DynView)>,
        Seq<(Seq<char>, crate::model::obj_dynamic::DynView)>,
    >,
) -> bool {
    exists|f: Seq<(Seq<char>, crate::model::obj_dynamic::DynView)>| #[trigger]
        docs.dom().contains(f) && f.take(prefix.len() as int) == prefix && row == (
            field_values(f),
            docs[f],
        )
}

/// Where a namespace holds documents under keys of one shape, a scan for
/// first fields gives exactly those whose keys have these fields first, each
/// once, as they were written, in the order of their values; a limit gives
/// the first of these.
pub proof fn law_scan_gives_docs(
    m: crate::engine::storage::Contents,
    ns: u16,
    prefix: Seq<(Seq<char>, crate::model::obj_dynamic::DynView)>,
    limit: Option<u64>,
    order: Seq<Seq<char>>,
    kinds: Seq<KeyKind>,
    d: crate::model::obj_dict::DictView,
    docs: Map<
        Seq<(Seq<char>, crate::model::obj_dynamic::DynView)>,
        Seq<(Seq<char>, crate::model::obj_dynamic::DynView)>,
    >,
)
    requires
        crate::model::obj_dict::in_sync(d, m, crate::model::obj_dict::home(ns_header(ns))),
        holds_docs(m, ns, order, kinds, d.names, docs),
        prefix.len() <= order.len(),
        shaped(prefix, order.take(prefix.len() as int), kinds.take(prefix.len() as int)),
        low_numbers(order, kinds, d.names),
    ensures
        ({
            let found = selected(
                crate::engine::storage::prefix_pairs(m, doc_key(ns, prefix, d.names)),
                prefix,
            );
            let ids = crate::model::obj_dict::lookup_table(
                crate::model::obj_dict::fresh_dict(),
                m,
                crate::model::obj_dict::home(ns_header(ns)),
            );
            let all = rows(found, kinds, ids)->Ok_0;
            &&& rows(found, kinds, ids) is Ok
            &&& rows(limited(found, limit), kinds, ids) == Ok::<_, KeyError>(
                if limit is Some && limit->0 < all.len() {
                    all.take(limit->0 as int)
                } else {
                    all
                },
            )
            &&& forall|i: int|
                0 <= i < all.len() ==> is_doc_row(#[trigger] all[i], prefix, docs)
            &&& forall|f: Seq<(Seq<char>, crate::model::obj_dynamic::DynView)>| #[trigger]
                docs.dom().contains(f) && f.take(prefix.len() as int) == prefix ==> all.contains(
                    (field_values(f), docs[f]),
                )
            &&& forall|i: int, j: int|
                0 <= i < j < all.len() ==> values_lt((#[trigger] all[i]).0, (#[trigger] all[j]).0)
        }),
{
    let names = d.names;
    let ids = crate::model::obj_dict::lookup_table(
        crate::model::obj_dict::fresh_dict(),
        m,
        crate::model::obj_dict::home(ns_header(ns)),
    );
    let front = crate::model::index::slot_key(ns_header(ns), PRIMARY_SLOT, Seq::empty());
    crate::model::obj_dict::law_sync_lookup(d, m, crate::model::obj_dict::home(ns_header(ns)));
    assert(holds_rows(m, ns, order, kinds, names)) by {
        assert forall|k: Seq<u8>|
            m.dom().contains(k) && #[trigger] crate::bytes::starts_with(
                k,
                front,
            ) implies exists|f: Seq<(Seq<char>, crate::model::obj_dynamic::DynView)>| #[trigger]
            shaped(f, order, kinds) && k == doc_key(ns, f, names) by {
            let f = choose|f: Seq<(Seq<char>, crate::model::obj_dynamic::DynView)>| #[trigger]
                docs.dom().contains(f) && k == doc_key(ns, f, names);
            assert(docs.dom().contains(f));
            assert(shaped(f, order, kinds));
        }
    }
    law_scan_gives_rows(m, ns, prefix, limit, order, kinds, names, ids);
    assert forall|f: Seq<(Seq<char>, crate::model::obj_dynamic::DynView)>| #[trigger]
        docs.dom().contains(f) implies row_of(m, ns, f, names, ids) == (
        field_values(f),
        docs[f],
    ) by {
        lemma_doc_reads(d, docs[f]);
    }
    let found = selected(
        crate::engine::storage::prefix_pairs(m, doc_key(ns, prefix, names)),
        prefix,
    );
    let all = rows(found, kinds, ids)->Ok_0;
    assert forall|i: int| 0 <= i < all.len() implies is_doc_row(
        #[trigger] all[i],
        prefix,
        docs,
    ) by {
        let f = choose|f: Seq<(Seq<char>, crate::model::obj_dynamic::DynView)>|
            {
                &&& #[trigger] shaped(f, order, kinds)
                &&& m.dom().contains(doc_key(ns, f, names))
                &&& f.take(prefix.len() as int) == prefix
                &&& all[i] == row_of(m, ns, f, names, ids)
            };
        let k = doc_key(ns, f, names);
        crate::model::index::lemma_slot_key(
            ns_header(ns),
            PRIMARY_SLOT,
            PRIMARY_SLOT,
            key_bytes(f, names),
            key_bytes(f, names),
        );
        assert(crate::bytes::starts_with(k, front));
        let g = choose|g: Seq<(Seq<char>, crate::model::obj_dynamic::DynView)>| #[trigger]
            docs.dom().contains(g) && k == doc_key(ns, g, names);
        assert(docs.dom().contains(g));
        law_keys_sort_by_fields(f, g, order, kinds, names);
        crate::model::index::lemma_slot_key(
            ns_header(ns),
            PRIMARY_SLOT,
            PRIMARY_SLOT,
            key_bytes(f, names),
            key_bytes(g, names),
        );
        assert(f == g);
        assert(docs.dom().contains(f));
    }
    assert forall|f: Seq<(Seq<char>, crate::model::obj_dynamic::DynView)>| #[trigger]
        docs.dom().contains(f) && f.take(prefix.len() as int) == prefix implies all.contains(
        (field_values(f), docs[f]),
    ) by {
        assert(shaped(f, order, kinds));
        assert(row_of(m, ns, f, names, ids) == (field_values(f), docs[f]));
    }
}

/// A limit cuts a scan after its first rows; without one, or with one that
/// is not reached, all rows come.
pub proof fn law_limit_cuts(pairs: Seq<(Seq<u8>, Seq<u8>)>, limit: Option<u64>)
    ensures
        limit is None ==> limited(pairs, limit) == pairs,
        limit matches Some(n) ==> limited(pairs, limit).len() == (if n < pairs.len() {
            n as nat
        } else {
            pairs.len()
        }),
        forall|i: int|
            0 <= i < limited(pairs, limit).len() ==> #[trigger] limited(pairs, limit)[i]
                == pairs[i],
{
}

/// The pairs that are selected stand in the order in which they came, and a
/// pair is among them exactly if its key begins with the fields.
pub proof fn law_selection_keeps_order(
    a: Seq<(Seq<u8>, Seq<u8>)>,
    b: Seq<(Seq<u8>, Seq<u8>)>,
    fields: Seq<(Seq<char>, crate::model::obj_dynamic::DynView)>,
    pair: (Seq<u8>, Seq<u8>),
)
    ensures
        selected(a + b, fields) == selected(a, fields) + selected(b, fields),
        selected(a, fields).contains(pair) <==> a.contains(pair) && begins_with_fields(
            pair.0,
            fields,
        ),
        selected(seq![pair], fields) == (if begins_with_fields(pair.0, fields) {
            seq![pair]
        } else {
            Seq::empty()
        }),
    decreases b.len(),
{
    let one = seq![pair];
    assert(one.drop_last() =~= Seq::empty());
    assert(selected(one.drop_last(), fields) =~= Seq::empty());
    assert(selected(one, fields) =~= if begins_with_fields(pair.0, fields) {
        seq![pair]
    } else {
        Seq::empty()
    });
    lemma_selected_members(a, fields, pair);
    if b.len() == 0 {
        assert(a + b =~= a);
        assert(selected(a, fields) + selected(b, fields) =~= selected(a, fields));
    } else {
        law_selection_keeps_order(a, b.drop_last(), fields, pair);
        assert((a + b).drop_last() =~= a + b.drop_last());
        assert((a + b).last() == b.last());
        assert(selected(a + b, fields) =~= selected(a, fields) + selected(b, fields));
    }
}

proof fn lemma_selected_members(
    pairs: Seq<(Seq<u8>, Seq<u8>)>,
    fields: Seq<(Seq<char>, crate::model::obj_dynamic::DynView)>,
    pair: (Seq<u8>, Seq<u8>),
)
    ensures
        selected(pairs, fields).contains(pair) <==> pairs.contains(pair) && begins_with_fields(
            pair.0,
            fields,
        ),
    decreases pairs.len(),
{
    if pairs.len() > 0 {
        let init = pairs.drop_last();
        let n = pairs.len() - 1;
        let before = selected(init, fields);
        let now = selected(pairs, fields);
        lemma_selected_members(init, fields, pair);
        assert(pairs[n] == pairs.last());
        if init.contains(pair) {
            let i = choose|i: int| 0 <= i < init.len() && init[i] == pair;
            assert(pairs[i] == pair);
        }
        if pairs.contains(pair) {
            let i = choose|i: int| 0 <= i < pairs.len() && pairs[i] == pair;
            if i < n {
                assert(init[i] == pair);
            }
        }
        if before.contains(pair) {
            let i = choose|i: int| 0 <= i < before.len() && before[i] == pair;
            assert(now[i] == pair);
        }
        if begins_with_fields(pairs.last().0, fields) {
            assert(now[now.len() - 1] == pairs.last());
            if now.contains(pair) {
                let i = choose|i: int| 0 <= i < now.len() && now[i] == pair;
                if i < before.len() {
                    assert(before[i] == pair);
                }
            }
        }
    }
}

/// The fields of a stored document are in order, and under each name stands
/// the value of the last frame whose number has that name; frames whose
/// numbers have no name are left out.
pub proof fn law_named_fields(
    frames: Seq<(u16, crate::model::obj_dynamic::DynView)>,
    ids: crate::model::obj_dynamic::IdTable,
    name: Seq<char>,
    i: int,
)
    ensures
        crate::model::obj_dynamic::names_sorted(named_fields(frames, ids)),
        0 <= i < frames.len() && is_named(frames[i], ids, name) && (forall|j: int|
            i < j < frames.len() ==> !is_named(#[trigger] frames[j], ids, name))
            ==> crate::model::obj_dynamic::find_field(named_fields(frames, ids), name) == Some(
            frames[i].1,
        ),
        (forall|j: int| 0 <= j < frames.len() ==> !is_named(#[trigger] frames[j], ids, name))
            ==> crate::model::obj_dynamic::find_field(named_fields(frames, ids), name) is None,
    decreases frames.len(),
{
    if frames.len() > 0 {
        let init = frames.drop_last();
        let n = frames.len() - 1;
        let last = frames.last();
        law_named_fields(init, ids, name, i);
        assert(frames[n] == last);
        if ids.dom().contains(last.0) {
            crate::model::obj_dynamic::law_insert_field(
                named_fields(init, ids),
                ids[last.0],
                last.1,
                name,
            );
        }
        if 0 <= i < n && is_named(frames[i], ids, name) && (forall|j: int|
            i < j < frames.len() ==> !is_named(#[trigger] frames[j], ids, name)) {
            assert(!is_named(frames[n], ids, name));
            assert(init[i] == frames[i]);
            assert forall|j: int| i < j < init.len() implies !is_named(
                #[trigger] init[j],
                ids,
                name,
            ) by {
                assert(init[j] == frames[j]);
            }
        }
        if forall|j: int| 0 <= j < frames.len() ==> !is_named(#[trigger] frames[j], ids, name) {
            assert(!is_named(frames[n], ids, name));
            assert forall|j: int| 0 <= j < init.len() implies !is_named(
                #[trigger] init[j],
                ids,
                name,
            ) by {
                assert(init[j] == frames[j]);
            }
        }
    }
}

/// The number of this frame has this name.
pub open spec fn is_named(
    frame: (u16, crate::model::obj_dynamic::DynView),
    ids: crate::model::obj_dynamic::IdTable,
    name: Seq<char>,
) -> bool {
    ids.dom().contains(frame.0) && ids[frame.0] == name
}

/// Writing a document stores its body, or removes the entry if there is
/// nothing to store, and touches no other entry.
pub proof fn law_entry_is_set(
    m: crate::engine::storage::Contents,
    key: Seq<u8>,
    body: Seq<u8>,
    other: Seq<u8>,
)
    ensures
        set_entry(m, key, body).dom().contains(key) <==> body.len() > 0,
        body.len() > 0 ==> set_entry(m, key, body)[key] == body,
        other != key ==> crate::engine::storage::same_at(set_entry(m, key, body), m, other),
{
}

/// A scan gives each pair as a row, with the values of its key and its
/// document, in order, or the error of the first key that cannot be read.
pub proof fn law_rows_are_each(
    pairs: Seq<(Seq<u8>, Seq<u8>)>,
    kinds: Seq<KeyKind>,
    ids: crate::model::obj_dynamic::IdTable,
    i: int,
)
    requires
        0 <= i < pairs.len(),
    ensures
        match rows(pairs, kinds, ids) {
            Ok(r) => r.len() == pairs.len() && pairs[i].0.len() >= 4 && key_values(
                kinds,
                pairs[i].0.skip(4),
            ) == Ok::<Seq<crate::model::obj_dynamic::DynView>, KeyError>(r[i].0) && r[i].1
                == doc_of(pairs[i].1, ids),
            Err(e) => (forall|j: int| 0 <= j < i ==> key_is_read(#[trigger] pairs[j], kinds))
                && !key_is_read(pairs[i], kinds) ==> (pairs[i].0.len() < 4 ==> e
                == KeyError::Truncated) && (pairs[i].0.len() >= 4 ==> key_values(
                kinds,
                pairs[i].0.skip(4),
            ) == Err::<Seq<crate::model::obj_dynamic::DynView>, KeyError>(e)),
        },
        !key_is_read(pairs[i], kinds) ==> rows(pairs, kinds, ids) is Err,
    decreases pairs.len(),
{
    let init = pairs.drop_last();
    let n = pairs.len() - 1;
    assert(pairs[n] == pairs.last());
    lemma_rows_len(init, kinds, ids);
    if i < n {
        law_rows_are_each(init, kinds, ids, i);
        assert(init[i] == pairs[i]);
        if forall|j: int| 0 <= j < i ==> key_is_read(#[trigger] pairs[j], kinds) {
            assert forall|j: int| 0 <= j < i implies key_is_read(#[trigger] init[j], kinds) by {
                assert(init[j] == pairs[j]);
            }
        }
    } else if forall|j: int| 0 <= j < i ==> key_is_read(#[trigger] pairs[j], kinds) {
        assert forall|j: int| 0 <= j < init.len() implies key_is_read(
            #[trigger] init[j],
            kinds,
        ) by {
            assert(init[j] == pairs[j]);
        }
        lemma_rows_read(init, kinds, ids);
    }
}

/// The key of this pair can be read with these kinds.
pub open spec fn key_is_read(pair: (Seq<u8>, Seq<u8>), kinds: Seq<KeyKind>) -> bool {
    pair.0.len() >= 4 && key_values(kinds, pair.0.skip(4)) is Ok
}

proof fn lemma_rows_len(
    pairs: Seq<(Seq<u8>, Seq<u8>)>,
    kinds: Seq<KeyKind>,
    ids: crate::model::obj_dynamic::IdTable,
)
    ensures
        rows(pairs, kinds, ids) matches Ok(r) ==> r.len() == pairs.len(),
    decreases pairs.len(),
{
    if pairs.len() > 0 {
        lemma_rows_len(pairs.drop_last(), kinds, ids);
    }
}

proof fn lemma_rows_read(
    pairs: Seq<(Seq<u8>, Seq<u8>)>,
    kinds: Seq<KeyKind>,
    ids: crate::model::obj_dynamic::IdTable,
)
    requires
        forall|j: int| 0 <= j < pairs.len() ==> key_is_read(#[trigger] pairs[j], kinds),
    ensures
        rows(pairs, kinds, ids) is Ok,
    decreases pairs.len(),
{
    if pairs.len() > 0 {
        let init = pairs.drop_last();
        assert forall|j: int| 0 <= j < init.len() implies key_is_read(
            #[trigger] init[j],
            kinds,
        ) by {
            assert(init[j] == pairs[j]);
        }
        lemma_rows_read(init, kinds, ids);
        assert(key_is_read(pairs[pairs.len() - 1], kinds));
    }
}

/// A key that ends before its fields do is cut short, whatever their kinds.
pub proof fn law_short_keys_are_cut(kinds: Seq<KeyKind>, frame: Seq<u8>)
    ensures
        kinds.len() > 0 && frame.len() < 2 ==> key_values(kinds, frame) == Err::<
            Seq<crate::model::obj_dynamic::DynView>,
            KeyError,
        >(KeyError::Truncated),
        key_values(kinds, frame) matches Ok(v) ==> v.len() == kinds.len() && frame.len() >= 2
            * kinds.len(),
    decreases kinds.len(),
{
    if kinds.len() > 0 && frame.len() >= 2 {
        let rest = frame.skip(2);
        let n = body_end(kinds[0], rest);
        if n <= rest.len() {
            law_short_keys_are_cut(kinds.drop_first(), rest.skip(n as int));
        }
    }
}

} // verus!
