//! `Quant<P>`: a fixed-point field with `P` decimal places, stored as the
//! eight bytes of a signed integer, big-endian.

use vstd::prelude::*;

use crate::bytes::{be_vec, read_be};

verus! {

/// The two's complement of a signed number in 64 bits.
pub open spec fn two_complement(w: i64) -> nat {
    if w < 0 {
        (w + 0x1_0000_0000_0000_0000) as nat
    } else {
        w as nat
    }
}

/// The stored form of a fixed-point number.
pub fn wire_to_be_bytes(w: i64) -> (r: Vec<u8>)
    ensures
        r@ == crate::bytes::be_bytes(two_complement(w), 8),
{
    let u: u64 = if w < 0 {
        0xFFFF_FFFF_FFFF_FFFF - ((-(w + 1)) as u64)
    } else {
        w as u64
    };
    be_vec(u, 8)
}

/// A fixed-point field: the number times ten to the power `P`.
#[derive(Clone, Copy, Debug, PartialEq, Eq, Default)]
pub struct Quant<const P: u32>(pub i64);

impl<const P: u32> Quant<P> {
    /// A field that holds a number times ten to the power `P`.
    pub fn new(w: i64) -> (r: Self)
        ensures
            r.0 == w,
    {
        Quant(w)
    }

    /// The stored form.
    pub fn encode(&self) -> (r: Vec<u8>)
        ensures
            r@ == crate::bytes::be_bytes(two_complement(self.0), 8),
    {
        wire_to_be_bytes(self.0)
    }

    /// The field of a stored form.
    pub fn decode(b: &[u8]) -> (r: Self)
        requires
            b@.len() == 8,
        ensures
            two_complement(r.0) == crate::bytes::be_value(b@),
    {
        let u: u64 = read_be(b);
        if u >= 0x8000_0000_0000_0000 {
            Quant(-1 - ((0xFFFF_FFFF_FFFF_FFFF - u) as i64))
        } else {
            Quant(u as i64)
        }
    }

    /// The number times ten to the power `P`.
    pub fn wire(&self) -> (r: i64)
        ensures
            r == self.0,
    {
        self.0
    }
}

/// A stored fixed-point number reads back as it was.
pub proof fn law_quant_round_trip(a: i64, b: i64)
    requires
        two_complement(b) == crate::bytes::be_value(crate::bytes::be_bytes(two_complement(a), 8)),
    ensures
        a == b,
        crate::bytes::be_bytes(two_complement(a), 8).len() == 8,
{
    crate::bytes::lemma_pow256_small();
    crate::bytes::lemma_be_bytes_len(two_complement(a), 8);
    crate::bytes::lemma_be_round_trip(two_complement(a), 8);
}

/// Stored fixed-point numbers of one sign sort by size.
pub proof fn law_quant_order(a: i64, b: i64)
    requires
        a < b,
        a < 0 <==> b < 0,
    ensures
        crate::bytes::lex_lt(
            crate::bytes::be_bytes(two_complement(a), 8),
            crate::bytes::be_bytes(two_complement(b), 8),
        ),
{
    crate::bytes::lemma_pow256_small();
    crate::bytes::lemma_be_order(two_complement(a), two_complement(b), 8);
}

/// The stored form counts modulo two to the power 64: zero is stored as
/// zero, the next number is stored as the next one, and a number and its
/// negative add up to nothing.
pub proof fn law_quant_counts(w: i64)
    ensures
        two_complement(0) == 0,
        w < i64::MAX ==> two_complement((w + 1) as i64) == (two_complement(w) + 1)
            % 0x1_0000_0000_0000_0000,
        w > i64::MIN ==> (two_complement(w) + two_complement((-w) as i64))
            % 0x1_0000_0000_0000_0000 == 0,
        two_complement(w) < 0x1_0000_0000_0000_0000,
{
}

/// The first bit of the stored form tells the sign.
pub proof fn law_quant_sign(w: i64)
    ensures
        crate::bytes::be_bytes(two_complement(w), 8).len() == 8,
        crate::bytes::be_bytes(two_complement(w), 8)[0] >= 0x80 <==> w < 0,
        w >= 0 ==> crate::bytes::be_value(crate::bytes::be_bytes(two_complement(w), 8)) == w,
{
    let v = two_complement(w);
    let b = crate::bytes::be_bytes(v, 8);
    crate::bytes::lemma_pow256_small();
    crate::bytes::lemma_be_bytes_len(v, 8);
    crate::bytes::lemma_be_round_trip(v, 8);
    assert(b =~= seq![b[0]] + b.skip(1));
    crate::wrappers::wire::lemma_be_value_cons(b[0], b.skip(1));
    crate::bytes::lemma_be_value_round_trip(b.skip(1));
}

} // verus!
