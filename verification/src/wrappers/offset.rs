//! Distances from a declared base: four bytes, big-endian.

use vstd::prelude::*;

use crate::bytes::{be_vec, read_be};

verus! {

/// The stored distance of a number from its base.
pub fn offset_encode(v: i64, base: i64) -> (r: Vec<u8>)
    requires
        0 <= v - base <= u32::MAX,
    ensures
        r@ == crate::bytes::be_bytes((v - base) as nat, 4),
{
    let d: u64 = if base < 0 && v >= 0 {
        v as u64 + ((-(base + 1)) as u64) + 1
    } else {
        (v - base) as u64
    };
    be_vec(d, 4)
}

/// The number at a stored distance from its base.
pub fn offset_decode(b: &[u8], base: i64) -> (r: i64)
    requires
        b@.len() == 4,
        base + crate::bytes::be_value(b@) <= i64::MAX,
    ensures
        r == base + crate::bytes::be_value(b@),
{
    proof {
        crate::bytes::lemma_pow256_small();
        crate::bytes::lemma_be_value_round_trip(b@);
    }
    base + read_be(b) as i64
}

/// A stored distance reads back as the number it was taken of.
pub proof fn law_offset_round_trip(v: i64, base: i64)
    requires
        0 <= v - base <= u32::MAX,
    ensures
        base + crate::bytes::be_value(crate::bytes::be_bytes((v - base) as nat, 4)) == v,
{
    crate::bytes::lemma_pow256_small();
    crate::bytes::lemma_be_round_trip((v - base) as nat, 4);
}

} // verus!
