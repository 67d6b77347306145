//! The value types of dynamic fields: one byte opens each frame and tells
//! how to read the rest. The numbers are stored and never change; growth
//! appends.

use vstd::prelude::*;

verus! {

/// The type of a dynamic value.
#[derive(Clone, Copy, Debug, PartialEq, Eq, Structural)]
pub enum ObjValueType {
    /// Unsigned integer, big-endian, width implied by the frame length.
    UInt,
    /// IEEE 754 double, 8 bytes.
    F64,
    /// UTF-8 string.
    Str,
    /// Raw bytes.
    Bytes,
    /// One byte: zero is false, anything else true.
    Bool,
    /// Zero-length frame.
    Null,
    /// An element count and that many self-describing elements.
    Array,
    /// Nested object: frames of the top-level shape.
    Obj,
    /// Signed integer, big-endian two's complement, width implied by the
    /// frame length and sign-extended on read.
    Int,
}

/// The stored byte of a type.
pub open spec fn type_byte(t: ObjValueType) -> u8 {
    match t {
        ObjValueType::UInt => 0,
        ObjValueType::F64 => 1,
        ObjValueType::Str => 2,
        ObjValueType::Bytes => 3,
        ObjValueType::Bool => 4,
        ObjValueType::Null => 5,
        ObjValueType::Array => 6,
        ObjValueType::Obj => 7,
        ObjValueType::Int => 8,
    }
}

/// The type that a stored byte names.
pub open spec fn byte_type(b: u8) -> Option<ObjValueType> {
    match b {
        0 => Some(ObjValueType::UInt),
        1 => Some(ObjValueType::F64),
        2 => Some(ObjValueType::Str),
        3 => Some(ObjValueType::Bytes),
        4 => Some(ObjValueType::Bool),
        5 => Some(ObjValueType::Null),
        6 => Some(ObjValueType::Array),
        7 => Some(ObjValueType::Obj),
        8 => Some(ObjValueType::Int),
        _ => None,
    }
}

/// Types and the bytes up to 8 correspond one to one; no other byte names a
/// type.
pub proof fn law_type_bytes(t: ObjValueType, b: u8)
    ensures
        byte_type(type_byte(t)) == Some(t),
        byte_type(b) is Some <==> b <= 8,
        byte_type(b) is Some ==> type_byte(byte_type(b)->0) == b,
{
}

impl ObjValueType {
    /// The type that a stored byte names. An unknown byte is normal input: a
    /// newer writer stored something this reader cannot see.
    pub fn from_byte(b: u8) -> (r: Option<Self>)
        ensures
            r == byte_type(b),
    {
        match b {
            0 => Some(ObjValueType::UInt),
            1 => Some(ObjValueType::F64),
            2 => Some(ObjValueType::Str),
            3 => Some(ObjValueType::Bytes),
            4 => Some(ObjValueType::Bool),
            5 => Some(ObjValueType::Null),
            6 => Some(ObjValueType::Array),
            7 => Some(ObjValueType::Obj),
            8 => Some(ObjValueType::Int),
            _ => None,
        }
    }

    /// The stored byte of the type.
    pub fn to_byte(self) -> (r: u8)
        ensures
            r == type_byte(self),
    {
        match self {
            ObjValueType::UInt => 0,
            ObjValueType::F64 => 1,
            ObjValueType::Str => 2,
            ObjValueType::Bytes => 3,
            ObjValueType::Bool => 4,
            ObjValueType::Null => 5,
            ObjValueType::Array => 6,
            ObjValueType::Obj => 7,
            ObjValueType::Int => 8,
        }
    }
}

} // verus!
