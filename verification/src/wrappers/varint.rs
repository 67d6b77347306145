//! `VarInt<T>`: an unsigned field in LEB128, seven payload bits per byte,
//! least significant first, the high bit marking that more follows.

use vstd::prelude::*;

verus! {

/// The encoding of `v`.
pub open spec fn leb_bytes(v: nat) -> Seq<u8>
    decreases v,
{
    if v < 0x80 {
        seq![v as u8]
    } else {
        seq![(0x80 + v % 0x80) as u8] + leb_bytes(v / 0x80)
    }
}

/// The width of the encoding at the front of `b`: up to the first byte
/// without a continuation bit. `None` when there is no such byte.
pub open spec fn leb_width(b: Seq<u8>) -> Option<nat>
    decreases b.len(),
{
    if b.len() == 0 {
        None
    } else if b[0] < 0x80 {
        Some(1)
    } else {
        match leb_width(b.drop_first()) {
            Some(n) => Some(n + 1),
            None => None,
        }
    }
}

/// The number that the encoding at the front of `b` writes.
pub open spec fn leb_value(b: Seq<u8>) -> nat
    decreases b.len(),
{
    if b.len() == 0 {
        0
    } else if b[0] < 0x80 {
        b[0] as nat
    } else {
        (b[0] - 0x80) as nat + 0x80 * leb_value(b.drop_first())
    }
}

/// 128 to the power `n`.
pub open spec fn pow128(n: nat) -> nat
    decreases n,
{
    if n == 0 {
        1
    } else {
        0x80 * pow128((n - 1) as nat)
    }
}

/// Reading what was written gives the number back and consumes exactly its
/// bytes, whatever follows.
pub proof fn law_leb_round_trip(v: nat, rest: Seq<u8>)
    ensures
        leb_width(leb_bytes(v) + rest) == Some(leb_bytes(v).len()),
        leb_value(leb_bytes(v) + rest) == v,
    decreases v,
{
    let b = leb_bytes(v) + rest;
    if v >= 0x80 {
        law_leb_round_trip(v / 0x80, rest);
        assert(b.drop_first() =~= leb_bytes(v / 0x80) + rest);
    }
}

/// A number below `128^n` is written in at most `n` bytes.
pub proof fn lemma_leb_len(v: nat, n: nat)
    requires
        n > 0,
        v < pow128(n),
    ensures
        1 <= leb_bytes(v).len() <= n,
    decreases v,
{
    if v >= 0x80 {
        if n == 1 {
            assert(pow128(1) == 0x80) by {
                reveal_with_fuel(pow128, 2);
            }
        } else {
            lemma_leb_len(v / 0x80, (n - 1) as nat);
        }
    }
}

proof fn lemma_pow128()
    ensures
        pow128(3) == 0x20_0000,
        pow128(5) == 0x8_0000_0000,
        pow128(10) == 0x40_0000_0000_0000_0000,
{
    reveal_with_fuel(pow128, 11);
}

/// Appends the encoding of `v`.
fn put_leb(buf: &mut Vec<u8>, v: u64)
    ensures
        final(buf)@ == old(buf)@ + leb_bytes(v as nat),
    decreases v,
{
    if v < 0x80 {
        buf.push(v as u8);
    } else {
        buf.push((0x80 + v % 0x80) as u8);
        put_leb(buf, v / 0x80);
    }
    assert(buf@ =~= old(buf)@ + leb_bytes(v as nat));
}

/// The number at the front of `b` and its width.
fn take_leb(b: &[u8]) -> (r: (u128, usize))
    requires
        leb_width(b@) is Some,
        leb_width(b@)->0 <= 10,
    ensures
        r.0 == leb_value(b@),
        r.1 == leb_width(b@)->0,
        r.0 < pow128(r.1 as nat),
    decreases b@.len(),
{
    proof {
        reveal_with_fuel(pow128, 2);
    }
    if b[0] < 0x80 {
        (b[0] as u128, 1)
    } else {
        let rest = crate::bytes::slice_from(b, 1);
        proof {
            assert(rest@ =~= b@.drop_first());
            lemma_pow128();
        }
        let (v, w) = take_leb(rest);
        proof {
            lemma_pow128_monotone(w as nat, 10);
        }
        ((b[0] - 0x80) as u128 + 0x80 * v, w + 1)
    }
}

proof fn lemma_pow128_monotone(a: nat, b: nat)
    requires
        a <= b,
    ensures
        pow128(a) <= pow128(b),
    decreases b,
{
    if a < b {
        lemma_pow128_monotone(a, (b - 1) as nat);
    }
}

/// An integer type with the LEB128 encoding.
pub trait VarIntEnc: Copy + Sized {
    /// Widest encoding that a value of this type has.
    const MAX_WIDTH: usize;

    /// The number that the value stands for.
    spec fn number(self) -> nat;

    /// How many values the type has.
    spec fn modulus() -> nat;

    /// Every value lies below the modulus and encodes within the width.
    proof fn number_fits(self)
        ensures
            self.number() < Self::modulus(),
            leb_bytes(self.number()).len() <= Self::MAX_WIDTH,
    ;

    /// Appends the encoding to `buf`.
    fn varint_encode(self, buf: &mut Vec<u8>)
        ensures
            final(buf)@ == old(buf)@ + leb_bytes(self.number()),
    ;

    /// Decodes from the front of `b`: the value and the bytes consumed.
    /// Bits beyond the type are dropped.
    fn varint_decode(b: &[u8]) -> (r: (Self, usize))
        requires
            leb_width(b@) is Some,
            leb_width(b@)->0 <= Self::MAX_WIDTH,
        ensures
            r.0.number() == leb_value(b@) % Self::modulus(),
            r.1 == leb_width(b@)->0,
    ;
}

impl VarIntEnc for u16 {
    const MAX_WIDTH: usize = 3;

    open spec fn number(self) -> nat {
        self as nat
    }

    open spec fn modulus() -> nat {
        0x1_0000
    }

    proof fn number_fits(self) {
        lemma_pow128();
        lemma_leb_len(self as nat, 3);
    }

    fn varint_encode(self, buf: &mut Vec<u8>) {
        put_leb(buf, self as u64);
    }

    fn varint_decode(b: &[u8]) -> (r: (Self, usize)) {
        let (v, w) = take_leb(b);
        ((v % 0x1_0000) as u16, w)
    }
}

impl VarIntEnc for u32 {
    const MAX_WIDTH: usize = 5;

    open spec fn number(self) -> nat {
        self as nat
    }

    open spec fn modulus() -> nat {
        0x1_0000_0000
    }

    proof fn number_fits(self) {
        lemma_pow128();
        lemma_leb_len(self as nat, 5);
    }

    fn varint_encode(self, buf: &mut Vec<u8>) {
        put_leb(buf, self as u64);
    }

    fn varint_decode(b: &[u8]) -> (r: (Self, usize)) {
        let (v, w) = take_leb(b);
        ((v % 0x1_0000_0000) as u32, w)
    }
}

impl VarIntEnc for u64 {
    const MAX_WIDTH: usize = 10;

    open spec fn number(self) -> nat {
        self as nat
    }

    open spec fn modulus() -> nat {
        0x1_0000_0000_0000_0000
    }

    proof fn number_fits(self) {
        lemma_pow128();
        lemma_leb_len(self as nat, 10);
    }

    fn varint_encode(self, buf: &mut Vec<u8>) {
        put_leb(buf, self);
    }

    fn varint_decode(b: &[u8]) -> (r: (Self, usize)) {
        let (v, w) = take_leb(b);
        ((v % 0x1_0000_0000_0000_0000) as u64, w)
    }
}

/// An unsigned integer field stored in LEB128.
#[derive(Clone, Copy, Debug, PartialEq, Eq, Default)]
pub struct VarInt<T: VarIntEnc>(pub T);

impl<T: VarIntEnc> VarInt<T> {
    /// The encoding of the value.
    pub fn encode(&self) -> (r: Vec<u8>)
        ensures
            r@ == leb_bytes(self.0.number()),
    {
        let mut buf: Vec<u8> = Vec::with_capacity(T::MAX_WIDTH);
        self.0.varint_encode(&mut buf);
        assert(buf@ =~= leb_bytes(self.0.number()));
        buf
    }

    /// The value at the front of `b`.
    pub fn decode(b: &[u8]) -> (r: Self)
        requires
            leb_width(b@) is Some,
            leb_width(b@)->0 <= T::MAX_WIDTH,
        ensures
            r.0.number() == leb_value(b@) % T::modulus(),
    {
        VarInt(T::varint_decode(b).0)
    }
}

/// Decoding an encoding gives the value back, whatever follows it.
pub proof fn law_leb_varint_round_trip<T: VarIntEnc>(v: T, rest: Seq<u8>)
    ensures
        ({
            let b = leb_bytes(v.number()) + rest;
            &&& leb_width(b) is Some
            &&& leb_width(b)->0 <= T::MAX_WIDTH
            &&& leb_value(b) % T::modulus() == v.number()
        }),
{
    v.number_fits();
    law_leb_round_trip(v.number(), rest);
    assert(v.number() % T::modulus() == v.number()) by (nonlinear_arith)
        requires
            v.number() < T::modulus(),
    ;
}

/// A 64-bit number takes ten bytes at most.
pub proof fn lemma_max_width()
    ensures
        <u64 as VarIntEnc>::MAX_WIDTH == 10,
{
}

/// The encoding spends a byte on every seven bits, the lowest first: the
/// first byte holds the remainder of the number by 128, and what follows is
/// the encoding of the quotient. No shorter encoding would do.
pub proof fn law_leb_shape(v: nat, n: nat)
    requires
        n > 0,
    ensures
        leb_bytes(v).len() <= n <==> v < pow128(n),
        leb_bytes(v)[0] as nat % 0x80 == v % 0x80,
        leb_bytes(v)[0] >= 0x80 <==> v >= 0x80,
        v >= 0x80 ==> leb_bytes(v).skip(1) == leb_bytes(v / 0x80),
    decreases v,
{
    if v < pow128(n) {
        lemma_leb_len(v, n);
    } else if n == 1 {
        assert(pow128(1) == 0x80) by {
            reveal_with_fuel(pow128, 2);
        }
        law_leb_round_trip(v / 0x80, Seq::empty());
        lemma_leb_some(v / 0x80);
    } else {
        assert(pow128(n) == 0x80 * pow128((n - 1) as nat));
        assert(pow128((n - 1) as nat) >= 1) by {
            lemma_pow128_monotone(0, (n - 1) as nat);
        }
        law_leb_shape(v / 0x80, (n - 1) as nat);
    }
    if v >= 0x80 {
        assert(leb_bytes(v).skip(1) =~= leb_bytes(v / 0x80));
    }
}

/// Every encoding has a byte.
proof fn lemma_leb_some(v: nat)
    ensures
        leb_bytes(v).len() > 0,
{
}

/// A `u16` encodes as its own number and decodes to it, at most 3 bytes
/// wide; a longer number loses the bits beyond the type.
pub proof fn law_u16_leb(v: u16, rest: Seq<u8>)
    ensures
        v.number() == v,
        <u16 as VarIntEnc>::modulus() == 0x10000,
        <u16 as VarIntEnc>::MAX_WIDTH == 3,
        leb_value(leb_bytes(v.number()) + rest) == v,
        leb_width(leb_bytes(v.number()) + rest) == Some(leb_bytes(v.number()).len()),
        leb_bytes(v.number()).len() <= 3,
{
    v.number_fits();
    law_leb_round_trip(v.number(), rest);
}

/// A `u32` encodes as its own number and decodes to it, at most 5 bytes
/// wide; a longer number loses the bits beyond the type.
pub proof fn law_u32_leb(v: u32, rest: Seq<u8>)
    ensures
        v.number() == v,
        <u32 as VarIntEnc>::modulus() == 0x100000000,
        <u32 as VarIntEnc>::MAX_WIDTH == 5,
        leb_value(leb_bytes(v.number()) + rest) == v,
        leb_width(leb_bytes(v.number()) + rest) == Some(leb_bytes(v.number()).len()),
        leb_bytes(v.number()).len() <= 5,
{
    v.number_fits();
    law_leb_round_trip(v.number(), rest);
}

/// A `u64` encodes as its own number and decodes to it, at most 10 bytes
/// wide; a longer number loses the bits beyond the type.
pub proof fn law_u64_leb(v: u64, rest: Seq<u8>)
    ensures
        v.number() == v,
        <u64 as VarIntEnc>::modulus() == 0x10000000000000000,
        <u64 as VarIntEnc>::MAX_WIDTH == 10,
        leb_value(leb_bytes(v.number()) + rest) == v,
        leb_width(leb_bytes(v.number()) + rest) == Some(leb_bytes(v.number()).len()),
        leb_bytes(v.number()).len() <= 10,
{
    v.number_fits();
    law_leb_round_trip(v.number(), rest);
}

/// A number that ends in a zero byte is the number without it: the byte
/// before it ends the number instead.
pub proof fn law_leb_zero_end(front: Seq<u8>, last: u8)
    requires
        last >= 0x80,
        forall|i: int| 0 <= i < front.len() ==> #[trigger] front[i] >= 0x80,
    ensures
        leb_value(front + seq![last, 0u8]) == leb_value(front + seq![(last - 0x80) as u8]),
        leb_width(front + seq![last, 0u8]) == Some((front.len() + 2) as nat),
        leb_width(front + seq![(last - 0x80) as u8]) == Some((front.len() + 1) as nat),
    decreases front.len(),
{
    let a = front + seq![last, 0u8];
    let b = front + seq![(last - 0x80) as u8];
    if front.len() == 0 {
        let z = seq![0u8];
        assert(a.drop_first() =~= z);
        assert(leb_value(z) == 0);
        assert(leb_width(z) == Some(1nat));
        assert(a[0] == last);
        assert(b[0] == (last - 0x80) as u8);
    } else {
        let rest = front.drop_first();
        assert forall|i: int| 0 <= i < rest.len() implies #[trigger] rest[i] >= 0x80 by {
            assert(rest[i] == front[i + 1]);
        }
        law_leb_zero_end(rest, last);
        assert(a.drop_first() =~= rest + seq![last, 0u8]);
        assert(b.drop_first() =~= rest + seq![(last - 0x80) as u8]);
        assert(a[0] == front[0] && b[0] == front[0]);
    }
}

/// What is read of a number does not change with what follows it.
pub proof fn law_leb_reads_its_own_bytes(b: Seq<u8>, rest: Seq<u8>)
    requires
        leb_width(b) is Some,
    ensures
        leb_width(b + rest) == leb_width(b),
        leb_value(b + rest) == leb_value(b),
    decreases b.len(),
{
    assert((b + rest)[0] == b[0]);
    if b[0] >= 0x80 {
        law_leb_reads_its_own_bytes(b.drop_first(), rest);
        assert((b + rest).drop_first() =~= b.drop_first() + rest);
    }
}

} // verus!
