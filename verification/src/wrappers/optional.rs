//! `Optional<T>`: a fixed-width field that may be absent.
//!
//! ```text
//! [present u8][value]
//! ```
//!
//! An absent value is stored as zeros, so the field keeps its width; the
//! first byte tells it from a zero.

use vstd::prelude::*;

use crate::bytes::{push_be, read_be};

verus! {

/// A field that may be absent.
#[derive(Clone, Copy, Debug, PartialEq, Eq)]
pub struct Optional<T>(pub Option<T>);

impl<T> Default for Optional<T> {
    fn default() -> (r: Self)
        ensures
            r.0 is None,
    {
        Optional(None)
    }
}

/// Fields of fixed width.
pub trait WireWidth {
    /// Bytes of the stored form.
    const WIDTH: usize;
}

/// Fixed-width fields and how they are stored.
pub trait OptionalEnc: WireWidth + Sized {
    /// The stored form.
    spec fn wire(&self) -> Seq<u8>;

    /// The stored form of the field that is read from these bytes.
    spec fn canon(b: Seq<u8>) -> Seq<u8>;

    /// The stored form has the declared width and reads back as it is.
    proof fn reads_back(&self)
        ensures
            self.wire().len() == Self::WIDTH,
            Self::canon(self.wire()) == self.wire(),
    ;

    /// Appends the stored form.
    fn enc_wire(&self, buf: &mut Vec<u8>)
        ensures
            final(buf)@ == old(buf)@ + self.wire(),
    ;

    /// The field of a stored form.
    fn from_wire(wire: &[u8]) -> (r: Self)
        requires
            wire@.len() == Self::WIDTH,
        ensures
            r.wire() == Self::canon(wire@),
    ;
}

/// Zeros.
pub open spec fn zeros(n: nat) -> Seq<u8> {
    Seq::new(n, |i: int| 0u8)
}

impl<T: OptionalEnc> Optional<T> {
    /// The field whose presence byte and value bytes these are.
    pub fn dec_wire(present: u8, wire: &[u8]) -> (r: Self)
        requires
            wire@.len() == T::WIDTH,
        ensures
            match r.0 {
                Some(v) => present != 0 && v.wire() == T::canon(wire@),
                None => present == 0,
            },
    {
        if present == 0 {
            Optional(None)
        } else {
            Optional(Some(T::from_wire(wire)))
        }
    }

    /// The stored form.
    pub open spec fn stored(&self) -> Seq<u8> {
        match self.0 {
            Some(v) => seq![1u8] + v.wire(),
            None => seq![0u8] + zeros(T::WIDTH as nat),
        }
    }

    /// Appends the stored form.
    pub fn enc_wire(&self, buf: &mut Vec<u8>)
        ensures
            final(buf)@ == old(buf)@ + self.stored(),
    {
        match &self.0 {
            Some(v) => {
                buf.push(1);
                v.enc_wire(buf);
            },
            None => {
                buf.push(0);
                let ghost front = buf@;
                let mut i: usize = 0;
                assert(buf@ =~= front + zeros(0));
                while i < T::WIDTH
                    invariant
                        i <= T::WIDTH,
                        buf@ =~= front + zeros(i as nat),
                    decreases T::WIDTH - i,
                {
                    buf.push(0);
                    i = i + 1;
                }
            },
        }
        assert(buf@ =~= old(buf)@ + self.stored());
    }
}

/// An absent field and one that holds anything differ in their first byte;
/// both have one byte more than the value.
pub proof fn law_absent_differs<T: OptionalEnc>(v: T)
    ensures
        Optional(Some(v)).stored().len() == 1 + T::WIDTH,
        Optional::<T>(None).stored().len() == 1 + T::WIDTH,
        Optional(Some(v)).stored()[0] != Optional::<T>(None).stored()[0],
{
    v.reads_back();
}

/// What was stored reads back: absent as absent, a value with its own stored
/// form.
pub proof fn law_optional_round_trip<T: OptionalEnc>(o: Optional<T>)
    ensures
        o.0 is None ==> o.stored()[0] == 0,
        o.0 is Some ==> o.stored()[0] != 0 && T::canon(o.stored().skip(1)) == o.0->0.wire(),
        o.stored().skip(1).len() == T::WIDTH,
{
    if let Some(v) = o.0 {
        v.reads_back();
        assert(o.stored().skip(1) =~= v.wire());
    }
}

impl WireWidth for u8 {
    const WIDTH: usize = 1;
}

impl OptionalEnc for u8 {
    open spec fn wire(&self) -> Seq<u8> {
        crate::bytes::be_bytes(*self as nat, 1)
    }

    open spec fn canon(b: Seq<u8>) -> Seq<u8> {
        b
    }

    proof fn reads_back(&self) {
        crate::bytes::lemma_be_bytes_len(*self as nat, 1);
    }

    fn enc_wire(&self, buf: &mut Vec<u8>) {
        push_be(buf, *self as u64, 1);
    }

    fn from_wire(wire: &[u8]) -> (r: Self) {
        proof {
            crate::bytes::lemma_pow256_small();
            crate::bytes::lemma_be_value_round_trip(wire@);
        }
        read_be(wire) as u8
    }
}

impl WireWidth for u16 {
    const WIDTH: usize = 2;
}

impl OptionalEnc for u16 {
    open spec fn wire(&self) -> Seq<u8> {
        crate::bytes::be_bytes(*self as nat, 2)
    }

    open spec fn canon(b: Seq<u8>) -> Seq<u8> {
        b
    }

    proof fn reads_back(&self) {
        crate::bytes::lemma_be_bytes_len(*self as nat, 2);
    }

    fn enc_wire(&self, buf: &mut Vec<u8>) {
        push_be(buf, *self as u64, 2);
    }

    fn from_wire(wire: &[u8]) -> (r: Self) {
        proof {
            crate::bytes::lemma_pow256_small();
            crate::bytes::lemma_be_value_round_trip(wire@);
        }
        read_be(wire) as u16
    }
}

impl WireWidth for u32 {
    const WIDTH: usize = 4;
}

impl OptionalEnc for u32 {
    open spec fn wire(&self) -> Seq<u8> {
        crate::bytes::be_bytes(*self as nat, 4)
    }

    open spec fn canon(b: Seq<u8>) -> Seq<u8> {
        b
    }

    proof fn reads_back(&self) {
        crate::bytes::lemma_be_bytes_len(*self as nat, 4);
    }

    fn enc_wire(&self, buf: &mut Vec<u8>) {
        push_be(buf, *self as u64, 4);
    }

    fn from_wire(wire: &[u8]) -> (r: Self) {
        proof {
            crate::bytes::lemma_pow256_small();
            crate::bytes::lemma_be_value_round_trip(wire@);
        }
        read_be(wire) as u32
    }
}

impl WireWidth for u64 {
    const WIDTH: usize = 8;
}

impl OptionalEnc for u64 {
    open spec fn wire(&self) -> Seq<u8> {
        crate::bytes::be_bytes(*self as nat, 8)
    }

    open spec fn canon(b: Seq<u8>) -> Seq<u8> {
        b
    }

    proof fn reads_back(&self) {
        crate::bytes::lemma_be_bytes_len(*self as nat, 8);
    }

    fn enc_wire(&self, buf: &mut Vec<u8>) {
        push_be(buf, *self, 8);
    }

    fn from_wire(wire: &[u8]) -> (r: Self) {
        proof {
            crate::bytes::lemma_pow256_small();
            crate::bytes::lemma_be_value_round_trip(wire@);
        }
        read_be(wire)
    }
}

impl<T: OptionalEnc> WireWidth for Optional<T> {
    const WIDTH: usize = 1 + T::WIDTH;
}

impl<const N: usize> WireWidth for [u8; N] {
    const WIDTH: usize = N;
}

/// `<[u8; N]>::try_from`: copies a slice into an array. It succeeds exactly
/// when the slice has the length of the array, and the array then holds the
/// bytes of the slice.
#[verifier::external_body]
fn array_from<const N: usize>(b: &[u8]) -> (r: Option<[u8; N]>)
    ensures
        match r {
            Some(a) => b@.len() == N && a@ == b@,
            None => b@.len() != N,
        },
{
    match <[u8; N]>::try_from(b) {
        Ok(a) => Some(a),
        Err(_) => None,
    }
}

impl<const N: usize> OptionalEnc for [u8; N] {
    open spec fn wire(&self) -> Seq<u8> {
        self@
    }

    open spec fn canon(b: Seq<u8>) -> Seq<u8> {
        b
    }

    proof fn reads_back(&self) {
    }

    fn enc_wire(&self, buf: &mut Vec<u8>) {
        buf.extend_from_slice(self.as_slice());
    }

    fn from_wire(wire: &[u8]) -> (r: Self) {
        match array_from::<N>(wire) {
            Some(a) => a,
            None => vstd::pervasive::unreached(),
        }
    }
}

/// The widths of fixed-width fields.
pub proof fn lemma_wire_widths<const N: usize>()
    ensures
        <u8 as WireWidth>::WIDTH == 1,
        <u16 as WireWidth>::WIDTH == 2,
        <u32 as WireWidth>::WIDTH == 4,
        <u64 as WireWidth>::WIDTH == 8,
        <[u8; N] as WireWidth>::WIDTH == N,
{
}

/// An optional field takes one byte more than the field.
pub proof fn lemma_optional_width<T: OptionalEnc>()
    requires
        T::WIDTH < usize::MAX,
    ensures
        <Optional<T> as WireWidth>::WIDTH == 1 + T::WIDTH,
{
}

/// A `u8` that is present is stored as a one and the number itself in 1
/// byte; what the bytes behind the first one write is the number.
pub proof fn law_optional_u8(a: u8, b: u8)
    ensures
        Optional(Some(a)).stored().len() == 2,
        Optional(Some(a)).stored()[0] == 1,
        crate::bytes::be_value(Optional(Some(a)).stored().skip(1)) == a,
        a.wire() == <u8 as OptionalEnc>::canon(b.wire()) ==> a == b,
        Optional::<u8>(None).stored().len() == 2,
        forall|i: int| 0 <= i < 2 ==> #[trigger] Optional::<u8>(None).stored()[i] == 0,
{
    crate::bytes::lemma_pow256_small();
    crate::bytes::lemma_be_bytes_len(a as nat, 1);
    crate::bytes::lemma_be_round_trip(a as nat, 1);
    crate::bytes::lemma_be_round_trip(b as nat, 1);
    assert(Optional(Some(a)).stored().skip(1) =~= a.wire());
}

/// A `u16` that is present is stored as a one and the number itself in 2
/// bytes; what the bytes behind the first one write is the number.
pub proof fn law_optional_u16(a: u16, b: u16)
    ensures
        Optional(Some(a)).stored().len() == 3,
        Optional(Some(a)).stored()[0] == 1,
        crate::bytes::be_value(Optional(Some(a)).stored().skip(1)) == a,
        a.wire() == <u16 as OptionalEnc>::canon(b.wire()) ==> a == b,
        Optional::<u16>(None).stored().len() == 3,
        forall|i: int| 0 <= i < 3 ==> #[trigger] Optional::<u16>(None).stored()[i] == 0,
{
    crate::bytes::lemma_pow256_small();
    crate::bytes::lemma_be_bytes_len(a as nat, 2);
    crate::bytes::lemma_be_round_trip(a as nat, 2);
    crate::bytes::lemma_be_round_trip(b as nat, 2);
    assert(Optional(Some(a)).stored().skip(1) =~= a.wire());
}

/// A `u32` that is present is stored as a one and the number itself in 4
/// bytes; what the bytes behind the first one write is the number.
pub proof fn law_optional_u32(a: u32, b: u32)
    ensures
        Optional(Some(a)).stored().len() == 5,
        Optional(Some(a)).stored()[0] == 1,
        crate::bytes::be_value(Optional(Some(a)).stored().skip(1)) == a,
        a.wire() == <u32 as OptionalEnc>::canon(b.wire()) ==> a == b,
        Optional::<u32>(None).stored().len() == 5,
        forall|i: int| 0 <= i < 5 ==> #[trigger] Optional::<u32>(None).stored()[i] == 0,
{
    crate::bytes::lemma_pow256_small();
    crate::bytes::lemma_be_bytes_len(a as nat, 4);
    crate::bytes::lemma_be_round_trip(a as nat, 4);
    crate::bytes::lemma_be_round_trip(b as nat, 4);
    assert(Optional(Some(a)).stored().skip(1) =~= a.wire());
}

/// A `u64` that is present is stored as a one and the number itself in 8
/// bytes; what the bytes behind the first one write is the number.
pub proof fn law_optional_u64(a: u64, b: u64)
    ensures
        Optional(Some(a)).stored().len() == 9,
        Optional(Some(a)).stored()[0] == 1,
        crate::bytes::be_value(Optional(Some(a)).stored().skip(1)) == a,
        a.wire() == <u64 as OptionalEnc>::canon(b.wire()) ==> a == b,
        Optional::<u64>(None).stored().len() == 9,
        forall|i: int| 0 <= i < 9 ==> #[trigger] Optional::<u64>(None).stored()[i] == 0,
{
    crate::bytes::lemma_pow256_small();
    crate::bytes::lemma_be_bytes_len(a as nat, 8);
    crate::bytes::lemma_be_round_trip(a as nat, 8);
    crate::bytes::lemma_be_round_trip(b as nat, 8);
    assert(Optional(Some(a)).stored().skip(1) =~= a.wire());
}

/// Bytes that are present are stored as a one and themselves.
pub proof fn law_optional_array<const N: usize>(a: [u8; N], b: [u8; N])
    ensures
        Optional(Some(a)).stored() == seq![1u8] + a@,
        a.wire() == <[u8; N] as OptionalEnc>::canon(b.wire()) ==> a@ == b@,
        Optional::<[u8; N]>(None).stored().len() == N + 1,
        forall|i: int| 0 <= i < N + 1 ==> #[trigger] Optional::<[u8; N]>(None).stored()[i] == 0,
{
}

} // verus!
