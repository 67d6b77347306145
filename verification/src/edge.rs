//! Edges: relations between keys, stored in both directions under one
//! namespace whose top bit tells the direction.
//!
//! ```text
//! [namespace, top bit 0][A identity][B identity]
//! [namespace, top bit 1][B identity][A identity]
//! ```

use vstd::prelude::*;

use crate::junction::encode_head;
use crate::key::KeyEncode;

verus! {

/// The header of one direction.
pub open spec fn direction_head(ns: u16, reverse: bool) -> Seq<u8> {
    crate::bytes::be_bytes(
        if reverse {
            (ns % 0x8000 + 0x8000) as nat
        } else {
            (ns % 0x8000) as nat
        },
        2,
    )
}

/// The header of one direction.
pub fn head_bytes(ns: u16, reverse: bool) -> (r: Vec<u8>)
    ensures
        r@ == direction_head(ns, reverse),
{
    let low: u16 = ns % 0x8000;
    if reverse {
        crate::bytes::be_vec(low as u64 + 0x8000, 2)
    } else {
        crate::bytes::be_vec(low as u64, 2)
    }
}

/// A relation between keys of two types, which may be the same.
pub trait KvEdge: Sized {
    /// One end.
    type A: KeyEncode;

    /// The other end.
    type B: KeyEncode;

    /// The namespace; the top bit is not part of it.
    const NS: u16;

    /// The key fields that identify A; none stands for all.
    spec fn a_fields() -> Seq<Seq<char>>;

    /// The key fields that identify B; none stands for all.
    spec fn b_fields() -> Seq<Seq<char>>;

    /// The key fields that identify A; none stands for all.
    fn a_head() -> (r: Vec<&'static str>)
        ensures
            crate::key::name_list(r@) == Self::a_fields(),
    ;

    /// The key fields that identify B; none stands for all.
    fn b_head() -> (r: Vec<&'static str>)
        ensures
            crate::key::name_list(r@) == Self::b_fields(),
    ;
}

/// What the partners of an A share.
pub open spec fn forward_front<E: KvEdge>(a: Seq<u8>) -> Seq<u8> {
    direction_head(E::NS, false) + crate::junction::head_of::<E::A>(a, E::a_fields())
}

/// What the partners of a B share.
pub open spec fn reverse_front<E: KvEdge>(b: Seq<u8>) -> Seq<u8> {
    direction_head(E::NS, true) + crate::junction::head_of::<E::B>(b, E::b_fields())
}

/// The forward entry.
pub open spec fn forward_entry<E: KvEdge>(a: Seq<u8>, b: Seq<u8>) -> Seq<u8> {
    forward_front::<E>(a) + crate::junction::head_of::<E::B>(b, E::b_fields())
}

/// The reverse entry.
pub open spec fn reverse_entry<E: KvEdge>(a: Seq<u8>, b: Seq<u8>) -> Seq<u8> {
    reverse_front::<E>(b) + crate::junction::head_of::<E::A>(a, E::a_fields())
}

/// What the partners of an A share.
pub fn forward_prefix<E: KvEdge>(a: &E::A) -> (r: Vec<u8>)
    ensures
        r@ == forward_front::<E>(a.bytes()),
{
    let mut p = head_bytes(E::NS, false);
    let head = E::a_head();
    let _n: usize = encode_head(&mut p, a, &head);
    p
}

/// What the partners of a B share.
pub fn reverse_prefix<E: KvEdge>(b: &E::B) -> (r: Vec<u8>)
    ensures
        r@ == reverse_front::<E>(b.bytes()),
{
    let mut p = head_bytes(E::NS, true);
    let head = E::b_head();
    let _n: usize = encode_head(&mut p, b, &head);
    p
}

/// The forward entry.
pub fn forward_key<E: KvEdge>(a: &E::A, b: &E::B) -> (r: Vec<u8>)
    ensures
        r@ == forward_entry::<E>(a.bytes(), b.bytes()),
{
    let mut k = forward_prefix::<E>(a);
    let head = E::b_head();
    let _n: usize = encode_head(&mut k, b, &head);
    k
}

/// The reverse entry.
pub fn reverse_key<E: KvEdge>(a: &E::A, b: &E::B) -> (r: Vec<u8>)
    ensures
        r@ == reverse_entry::<E>(a.bytes(), b.bytes()),
{
    let mut k = reverse_prefix::<E>(b);
    let head = E::a_head();
    let _n: usize = encode_head(&mut k, a, &head);
    k
}

/// The two directions of any edges never share a key.
pub proof fn law_directions_are_apart<E: KvEdge, F: KvEdge>(
    a: Seq<u8>,
    b: Seq<u8>,
    c: Seq<u8>,
    d: Seq<u8>,
)
    ensures
        forward_entry::<E>(a, b) != reverse_entry::<F>(c, d),
{
    let x = forward_entry::<E>(a, b);
    let y = reverse_entry::<F>(c, d);
    let s = (E::NS % 0x8000) as nat;
    let t = (F::NS % 0x8000 + 0x8000) as nat;
    crate::bytes::lemma_pow256_small();
    crate::bytes::lemma_be_bytes_len(s, 2);
    crate::bytes::lemma_be_bytes_len(t, 2);
    assert(x.take(2) =~= direction_head(E::NS, false));
    assert(y.take(2) =~= direction_head(F::NS, true));
    if x == y {
        crate::bytes::lemma_be_injective(s, t, 2);
    }
}

/// The header tells namespaces and directions apart, and the top bit of its
/// first byte is the direction.
pub proof fn law_direction_heads(ns: u16, other: u16, reverse: bool, back: bool)
    ensures
        direction_head(ns, reverse).len() == 2,
        direction_head(ns, reverse) == direction_head(other, back) <==> ns % 0x8000 == other
            % 0x8000 && reverse == back,
        crate::bytes::be_value(direction_head(ns, reverse)) % 0x8000 == ns % 0x8000,
        crate::bytes::be_value(direction_head(ns, reverse)) >= 0x8000 <==> reverse,
{
    let x = if reverse {
        (ns % 0x8000 + 0x8000) as nat
    } else {
        (ns % 0x8000) as nat
    };
    let y = if back {
        (other % 0x8000 + 0x8000) as nat
    } else {
        (other % 0x8000) as nat
    };
    crate::bytes::lemma_pow256_small();
    crate::bytes::lemma_be_bytes_len(x, 2);
    crate::bytes::lemma_be_round_trip(x, 2);
    crate::bytes::lemma_be_round_trip(y, 2);
}

/// The entry of one direction names both keys, as far as they are
/// identified: other keys make another entry. What the partners of a key
/// share is at the front of each of its entries, and the partner is what
/// follows.
pub proof fn law_entries_name_both_keys<E: KvEdge>(
    a: Seq<u8>,
    b: Seq<u8>,
    c: Seq<u8>,
    d: Seq<u8>,
)
    requires
        a.len() == <E::A as KeyEncode>::KEY_LEN,
        c.len() == <E::A as KeyEncode>::KEY_LEN,
        b.len() == <E::B as KeyEncode>::KEY_LEN,
        d.len() == <E::B as KeyEncode>::KEY_LEN,
    ensures
        ({
            let ha = crate::junction::head_of::<E::A>(a, E::a_fields());
            let hb = crate::junction::head_of::<E::B>(b, E::b_fields());
            let hc = crate::junction::head_of::<E::A>(c, E::a_fields());
            let hd = crate::junction::head_of::<E::B>(d, E::b_fields());
            &&& forward_entry::<E>(a, b) == forward_entry::<E>(c, d) <==> ha == hc && hb == hd
            &&& reverse_entry::<E>(a, b) == reverse_entry::<E>(c, d) <==> ha == hc && hb == hd
            &&& forward_entry::<E>(a, b) == forward_front::<E>(a) + hb
            &&& reverse_entry::<E>(a, b) == reverse_front::<E>(b) + ha
        }),
{
    crate::junction::law_head_is_prefix::<E::A>(a, E::a_fields());
    crate::junction::law_head_is_prefix::<E::A>(c, E::a_fields());
    crate::junction::law_head_is_prefix::<E::B>(b, E::b_fields());
    crate::junction::law_head_is_prefix::<E::B>(d, E::b_fields());
    let ha = crate::junction::head_of::<E::A>(a, E::a_fields());
    let hb = crate::junction::head_of::<E::B>(b, E::b_fields());
    let hc = crate::junction::head_of::<E::A>(c, E::a_fields());
    let hd = crate::junction::head_of::<E::B>(d, E::b_fields());
    crate::junction::lemma_parts(direction_head(E::NS, false), ha, hb, hc, hd);
    crate::junction::lemma_parts(direction_head(E::NS, true), hb, ha, hd, hc);
}

} // verus!
