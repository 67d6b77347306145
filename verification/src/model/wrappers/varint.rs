//! `VarInt<T>`: a variable-length unsigned integer whose byte order is its
//! value order, so that it may stand in an index segment as it is. The
//! layout is that of [`crate::wrappers::wire`].

use vstd::prelude::*;

use crate::wrappers::wire::{put_u64, take_u64};

verus! {

/// An integer type with the prefix-monotonic encoding.
pub trait VarIntEnc: Copy + Sized {
    /// Widest encoding that a value of this type has.
    const MAX_WIDTH: usize;

    /// The number that the value stands for.
    spec fn number(self) -> nat;

    /// How many values the type has.
    spec fn modulus() -> nat;

    /// Every value lies below the modulus, and the modulus within 64 bits.
    proof fn number_fits(self)
        ensures
            self.number() < Self::modulus() <= u64::MAX + 1,
            crate::wrappers::wire::wire_width(self.number()) <= Self::MAX_WIDTH,
    ;

    /// Values that stand for one number are the same value.
    proof fn number_injective(self, other: Self)
        requires
            self.number() == other.number(),
        ensures
            self == other,
    ;

    /// Appends the encoding to `buf`.
    fn varint_encode(self, buf: &mut Vec<u8>)
        ensures
            final(buf)@ == old(buf)@ + crate::wrappers::wire::wire_bytes(self.number()),
    ;

    /// Decodes from the front of `b`: the value and the bytes consumed.
    /// Bits beyond the type are dropped.
    fn varint_decode(b: &[u8]) -> (r: (Self, usize))
        requires
            crate::wrappers::wire::wire_value(b@) is Some,
            (crate::wrappers::wire::wire_value(b@)->0).1 <= Self::MAX_WIDTH,
        ensures
            r.0.number() == (crate::wrappers::wire::wire_value(b@)->0).0 % Self::modulus(),
            r.1 == (crate::wrappers::wire::wire_value(b@)->0).1,
    ;

    /// The value of this type that `v` has when cut to its width.
    fn varint_from_u64(v: u64) -> (r: Self)
        ensures
            r.number() == v as nat % Self::modulus(),
    ;
}

impl VarIntEnc for u16 {
    const MAX_WIDTH: usize = 3;

    open spec fn number(self) -> nat {
        self as nat
    }

    open spec fn modulus() -> nat {
        0x1_0000
    }

    proof fn number_fits(self) {
    }

    proof fn number_injective(self, other: Self) {
    }

    fn varint_encode(self, buf: &mut Vec<u8>) {
        put_u64(buf, self as u64);
    }

    fn varint_decode(b: &[u8]) -> (r: (Self, usize)) {
        match take_u64(b) {
            Some((v, w)) => ((v % 0x1_0000) as u16, w),
            None => (0, 0),
        }
    }

    fn varint_from_u64(v: u64) -> (r: Self) {
        (v % 0x1_0000) as u16
    }
}

impl VarIntEnc for u32 {
    const MAX_WIDTH: usize = 5;

    open spec fn number(self) -> nat {
        self as nat
    }

    open spec fn modulus() -> nat {
        0x1_0000_0000
    }

    proof fn number_fits(self) {
    }

    proof fn number_injective(self, other: Self) {
    }

    fn varint_encode(self, buf: &mut Vec<u8>) {
        put_u64(buf, self as u64);
    }

    fn varint_decode(b: &[u8]) -> (r: (Self, usize)) {
        match take_u64(b) {
            Some((v, w)) => ((v % 0x1_0000_0000) as u32, w),
            None => (0, 0),
        }
    }

    fn varint_from_u64(v: u64) -> (r: Self) {
        (v % 0x1_0000_0000) as u32
    }
}

impl VarIntEnc for u64 {
    const MAX_WIDTH: usize = 9;

    open spec fn number(self) -> nat {
        self as nat
    }

    open spec fn modulus() -> nat {
        0x1_0000_0000_0000_0000
    }

    proof fn number_fits(self) {
    }

    proof fn number_injective(self, other: Self) {
    }

    fn varint_encode(self, buf: &mut Vec<u8>) {
        put_u64(buf, self);
    }

    fn varint_decode(b: &[u8]) -> (r: (Self, usize)) {
        match take_u64(b) {
            Some((v, w)) => (v, w),
            None => (0, 0),
        }
    }

    fn varint_from_u64(v: u64) -> (r: Self) {
        v
    }
}

/// An unsigned integer field stored in its prefix-monotonic encoding.
#[derive(Clone, Copy, Debug, PartialEq, Eq, Default)]
pub struct VarInt<T: VarIntEnc>(pub T);

impl<T: VarIntEnc> VarInt<T> {
    /// The value that `v` has when cut to the width of `T`.
    pub fn from_dyn(v: u64) -> (r: Self)
        ensures
            r.0.number() == v as nat % T::modulus(),
    {
        VarInt(T::varint_from_u64(v))
    }

    /// The encoding of the value.
    pub fn encode(&self) -> (r: Vec<u8>)
        ensures
            r@ == crate::wrappers::wire::wire_bytes(self.0.number()),
    {
        let mut buf: Vec<u8> = Vec::with_capacity(T::MAX_WIDTH);
        self.0.varint_encode(&mut buf);
        assert(buf@ =~= crate::wrappers::wire::wire_bytes(self.0.number()));
        buf
    }

    /// The value at the front of `b`.
    pub fn decode(b: &[u8]) -> (r: Self)
        requires
            crate::wrappers::wire::wire_value(b@) is Some,
            (crate::wrappers::wire::wire_value(b@)->0).1 <= T::MAX_WIDTH,
        ensures
            r.0.number() == (crate::wrappers::wire::wire_value(b@)->0).0 % T::modulus(),
    {
        VarInt(T::varint_decode(b).0)
    }
}

/// Decoding an encoding gives the value back, whatever follows it.
pub proof fn law_varint_round_trip<T: VarIntEnc>(v: T, rest: Seq<u8>)
    ensures
        ({
            let b = crate::wrappers::wire::wire_bytes(v.number()) + rest;
            &&& crate::wrappers::wire::wire_value(b) is Some
            &&& (crate::wrappers::wire::wire_value(b)->0).1 <= T::MAX_WIDTH
            &&& (crate::wrappers::wire::wire_value(b)->0).0 % T::modulus() == v.number()
        }),
{
    v.number_fits();
    crate::wrappers::wire::law_wire_round_trip(v.number(), rest);
    assert(v.number() % T::modulus() == v.number()) by (nonlinear_arith)
        requires
            v.number() < T::modulus(),
    ;
}

/// Encodings sort as the numbers that they hold.
pub proof fn law_varint_order<T: VarIntEnc>(a: T, b: T)
    requires
        a.number() < b.number(),
    ensures
        crate::bytes::lex_lt(
            crate::wrappers::wire::wire_bytes(a.number()),
            crate::wrappers::wire::wire_bytes(b.number()),
        ),
{
    b.number_fits();
    crate::wrappers::wire::law_wire_order(a.number(), b.number());
}

/// A `u16` encodes as its own number, sorts by size and decodes to itself, at
/// most 3 bytes wide; a longer number loses the bits beyond the type.
pub proof fn law_u16_varint(a: u16, b: u16, rest: Seq<u8>)
    ensures
        a.number() == a,
        <u16 as VarIntEnc>::modulus() == 0x10000,
        <u16 as VarIntEnc>::MAX_WIDTH == 3,
        crate::wrappers::wire::wire_value(crate::wrappers::wire::wire_bytes(a.number()) + rest)
            == Some((a as nat, crate::wrappers::wire::wire_bytes(a.number()).len())),
        crate::wrappers::wire::wire_bytes(a.number()).len() <= 3,
        a < b ==> crate::bytes::lex_lt(
            crate::wrappers::wire::wire_bytes(a.number()),
            crate::wrappers::wire::wire_bytes(b.number()),
        ),
{
    a.number_fits();
    crate::wrappers::wire::law_wire_round_trip(a.number(), rest);
    if a < b {
        law_varint_order(a, b);
    }
}

/// A `u32` encodes as its own number, sorts by size and decodes to itself, at
/// most 5 bytes wide; a longer number loses the bits beyond the type.
pub proof fn law_u32_varint(a: u32, b: u32, rest: Seq<u8>)
    ensures
        a.number() == a,
        <u32 as VarIntEnc>::modulus() == 0x100000000,
        <u32 as VarIntEnc>::MAX_WIDTH == 5,
        crate::wrappers::wire::wire_value(crate::wrappers::wire::wire_bytes(a.number()) + rest)
            == Some((a as nat, crate::wrappers::wire::wire_bytes(a.number()).len())),
        crate::wrappers::wire::wire_bytes(a.number()).len() <= 5,
        a < b ==> crate::bytes::lex_lt(
            crate::wrappers::wire::wire_bytes(a.number()),
            crate::wrappers::wire::wire_bytes(b.number()),
        ),
{
    a.number_fits();
    crate::wrappers::wire::law_wire_round_trip(a.number(), rest);
    if a < b {
        law_varint_order(a, b);
    }
}

/// A `u64` encodes as its own number, sorts by size and decodes to itself, at
/// most 9 bytes wide; a longer number loses the bits beyond the type.
pub proof fn law_u64_varint(a: u64, b: u64, rest: Seq<u8>)
    ensures
        a.number() == a,
        <u64 as VarIntEnc>::modulus() == 0x10000000000000000,
        <u64 as VarIntEnc>::MAX_WIDTH == 9,
        crate::wrappers::wire::wire_value(crate::wrappers::wire::wire_bytes(a.number()) + rest)
            == Some((a as nat, crate::wrappers::wire::wire_bytes(a.number()).len())),
        crate::wrappers::wire::wire_bytes(a.number()).len() <= 9,
        a < b ==> crate::bytes::lex_lt(
            crate::wrappers::wire::wire_bytes(a.number()),
            crate::wrappers::wire::wire_bytes(b.number()),
        ),
{
    a.number_fits();
    crate::wrappers::wire::law_wire_round_trip(a.number(), rest);
    if a < b {
        law_varint_order(a, b);
    }
}

} // verus!
