//! Junctions: relations between documents, stored once at each end.
//!
//! ```text
//! [namespace of A][slot 0x3nnn][A identity][B identity]
//! [namespace of B][slot 0x3nnn][B identity][A identity]
//! ```
//!
//! The identity of the end at hand comes first, so that all its partners
//! share a key prefix; the partner is what follows. The lowest bit of the
//! slot tells the two ends apart, which matters where both lie in one
//! namespace.

use vstd::prelude::*;

use crate::index::Document;
use crate::key::{encode_prefix_named, KeyEncode};
use crate::model::index::{Slot, JUNCTION_SLOT_BASE};

verus! {

/// The identity of a document in a junction: the whole key, or a prefix of
/// its fields.
pub open spec fn head_of<K: KeyEncode>(key: Seq<u8>, head: Seq<Seq<char>>) -> Seq<u8> {
    if head.len() == 0 {
        key
    } else {
        key.take(K::named_len(head) as int)
    }
}

/// Bytes of the identity of a document in a junction.
pub open spec fn head_len<K: KeyEncode>(head: Seq<Seq<char>>) -> nat {
    if head.len() == 0 {
        K::KEY_LEN as nat
    } else {
        K::named_len(head)
    }
}

/// Appends the identity of a document in a junction and tells its width.
pub fn encode_head<K: KeyEncode>(
    buf: &mut Vec<u8>,
    key: &K,
    head: &Vec<&'static str>,
) -> (r: usize)
    ensures
        r == head_len::<K>(crate::key::name_list(head@)),
        final(buf)@ == old(buf)@ + head_of::<K>(key.bytes(), crate::key::name_list(head@)),
{
    if head.len() == 0 {
        let enc = key.encode();
        buf.extend_from_slice(enc.as_slice());
        K::KEY_LEN
    } else {
        encode_prefix_named(key, buf, head)
    }
}

/// Bytes of the identity of a document in a junction.
pub fn head_width<K: KeyEncode>(head: &Vec<&'static str>) -> (r: usize)
    ensures
        r == head_len::<K>(crate::key::name_list(head@)),
        r <= K::KEY_LEN,
{
    proof {
        K::prefix_fits(crate::key::name_list(head@));
    }
    if head.len() == 0 {
        K::KEY_LEN
    } else {
        K::prefix_width(head)
    }
}

/// A relation between documents of two types, which may be the same.
pub trait KvJunction: Sized {
    /// One end.
    type A: Document;

    /// The other end.
    type B: Document;

    /// Tells junctions between the same ends apart; the lowest eleven bits
    /// count.
    const JUNCTION_ID: u16;

    /// The key fields that identify A; none stands for all.
    spec fn a_fields() -> Seq<Seq<char>>;

    /// The key fields that identify B; none stands for all.
    spec fn b_fields() -> Seq<Seq<char>>;

    /// The key of A.
    spec fn a_bytes(&self) -> Seq<u8>;

    /// The key of B.
    spec fn b_bytes(&self) -> Seq<u8>;

    /// The key fields that identify A; none stands for all.
    fn a_head() -> (r: Vec<&'static str>)
        ensures
            crate::key::name_list(r@) == Self::a_fields(),
    ;

    /// The key fields that identify B; none stands for all.
    fn b_head() -> (r: Vec<&'static str>)
        ensures
            crate::key::name_list(r@) == Self::b_fields(),
    ;

    /// The key of A.
    fn a(&self) -> (r: &<Self::A as Document>::Key)
        ensures
            r.bytes() == self.a_bytes(),
    ;

    /// The key of B.
    fn b(&self) -> (r: &<Self::B as Document>::Key)
        ensures
            r.bytes() == self.b_bytes(),
    ;

    /// The pair of two keys.
    fn from_parts(a: <Self::A as Document>::Key, b: <Self::B as Document>::Key) -> (r: Self)
        ensures
            r.a_bytes() == a.bytes(),
            r.b_bytes() == b.bytes(),
    ;
}

/// The slot of one direction of a junction: A's end is 0, B's end is 1.
pub open spec fn side_slot(id: u16, dir: nat) -> nat {
    (JUNCTION_SLOT_BASE + (id % 0x800) * 2 + dir) as nat
}

/// The slot of one direction of a junction.
pub fn dir_slot<E: KvJunction>(dir: u16) -> (r: Slot)
    requires
        dir <= 1,
    ensures
        r == side_slot(E::JUNCTION_ID, dir as nat),
{
    JUNCTION_SLOT_BASE + (E::JUNCTION_ID % 0x800) * 2 + dir
}

/// What the partners of an A share.
pub open spec fn a_front<E: KvJunction>(a: Seq<u8>) -> Seq<u8> {
    <E::A as Document>::ns_bytes() + crate::bytes::be_bytes(side_slot(E::JUNCTION_ID, 0), 2)
        + head_of::<<E::A as Document>::Key>(a, E::a_fields())
}

/// What the partners of a B share.
pub open spec fn b_front<E: KvJunction>(b: Seq<u8>) -> Seq<u8> {
    <E::B as Document>::ns_bytes() + crate::bytes::be_bytes(side_slot(E::JUNCTION_ID, 1), 2)
        + head_of::<<E::B as Document>::Key>(b, E::b_fields())
}

/// The entry at A's end.
pub open spec fn a_side<E: KvJunction>(a: Seq<u8>, b: Seq<u8>) -> Seq<u8> {
    a_front::<E>(a) + head_of::<<E::B as Document>::Key>(b, E::b_fields())
}

/// The entry at B's end.
pub open spec fn b_side<E: KvJunction>(a: Seq<u8>, b: Seq<u8>) -> Seq<u8> {
    b_front::<E>(b) + head_of::<<E::A as Document>::Key>(a, E::a_fields())
}

/// What the partners of an A share.
pub fn a_side_prefix<E: KvJunction>(a: &<E::A as Document>::Key) -> (r: Vec<u8>)
    ensures
        r@ == a_front::<E>(a.bytes()),
{
    let mut p = <E::A as Document>::ns_prefix();
    crate::bytes::push_be(&mut p, dir_slot::<E>(0) as u64, 2);
    let head = E::a_head();
    let _n: usize = encode_head(&mut p, a, &head);
    assert(p@ =~= a_front::<E>(a.bytes()));
    p
}

/// What the partners of a B share.
pub fn b_side_prefix<E: KvJunction>(b: &<E::B as Document>::Key) -> (r: Vec<u8>)
    ensures
        r@ == b_front::<E>(b.bytes()),
{
    let mut p = <E::B as Document>::ns_prefix();
    crate::bytes::push_be(&mut p, dir_slot::<E>(1) as u64, 2);
    let head = E::b_head();
    let _n: usize = encode_head(&mut p, b, &head);
    assert(p@ =~= b_front::<E>(b.bytes()));
    p
}

/// The entry at A's end, from the two keys.
pub fn a_side_of<E: KvJunction>(
    a: &<E::A as Document>::Key,
    b: &<E::B as Document>::Key,
) -> (r: Vec<u8>)
    ensures
        r@ == a_side::<E>(a.bytes(), b.bytes()),
{
    let mut k = a_side_prefix::<E>(a);
    let head = E::b_head();
    let _n: usize = encode_head(&mut k, b, &head);
    k
}

/// The entry at B's end, from the two keys.
pub fn b_side_of<E: KvJunction>(
    a: &<E::A as Document>::Key,
    b: &<E::B as Document>::Key,
) -> (r: Vec<u8>)
    ensures
        r@ == b_side::<E>(a.bytes(), b.bytes()),
{
    let mut k = b_side_prefix::<E>(b);
    let head = E::a_head();
    let _n: usize = encode_head(&mut k, a, &head);
    k
}

/// The entry at A's end.
pub fn a_side_key<E: KvJunction>(pair: &E) -> (r: Vec<u8>)
    ensures
        r@ == a_side::<E>(pair.a_bytes(), pair.b_bytes()),
{
    a_side_of::<E>(pair.a(), pair.b())
}

/// The entry at B's end.
pub fn b_side_key<E: KvJunction>(pair: &E) -> (r: Vec<u8>)
    ensures
        r@ == b_side::<E>(pair.a_bytes(), pair.b_bytes()),
{
    b_side_of::<E>(pair.a(), pair.b())
}

/// The two ends of a junction never share a key, even in one namespace.
pub proof fn law_ends_are_apart<E: KvJunction>(
    a: Seq<u8>,
    b: Seq<u8>,
    c: Seq<u8>,
    d: Seq<u8>,
)
    requires
        <E::A as Document>::ns_bytes().len() == <E::B as Document>::ns_bytes().len(),
    ensures
        a_side::<E>(a, b) != b_side::<E>(c, d),
{
    let x = a_side::<E>(a, b);
    let y = b_side::<E>(c, d);
    let n = <E::A as Document>::ns_bytes().len() as int;
    let s = side_slot(E::JUNCTION_ID, 0);
    let t = side_slot(E::JUNCTION_ID, 1);
    crate::bytes::lemma_pow256_small();
    crate::bytes::lemma_be_bytes_len(s, 2);
    crate::bytes::lemma_be_bytes_len(t, 2);
    assert(x.subrange(n, n + 2) =~= crate::bytes::be_bytes(s, 2));
    assert(y.subrange(n, n + 2) =~= crate::bytes::be_bytes(t, 2));
    if x == y {
        crate::bytes::lemma_be_injective(s, t, 2);
    }
}

/// The identity of a document is a prefix of its key, as wide as announced:
/// the whole key unless fields are named.
pub proof fn law_head_is_prefix<K: KeyEncode>(key: Seq<u8>, head: Seq<Seq<char>>)
    requires
        key.len() == K::KEY_LEN,
    ensures
        head_of::<K>(key, head).len() == head_len::<K>(head),
        crate::bytes::starts_with(key, head_of::<K>(key, head)),
        head.len() == 0 ==> head_len::<K>(head) == K::KEY_LEN,
        head.len() > 0 ==> head_len::<K>(head) == K::named_len(head),
        head_len::<K>(head) == K::KEY_LEN ==> head_of::<K>(key, head) == key,
{
    K::prefix_fits(head);
    let h = head_of::<K>(key, head);
    assert(key.subrange(0, h.len() as int) =~= h);
    if head_len::<K>(head) == K::KEY_LEN {
        assert(h =~= key);
    }
}

/// The slots of junctions tell junctions and directions apart, and lie in
/// the range of slots that is theirs.
pub proof fn law_side_slots_apart(id: u16, other: u16, dir: nat, way: nat)
    requires
        dir <= 1,
        way <= 1,
    ensures
        side_slot(id, dir) == side_slot(other, way) <==> id % 0x800 == other % 0x800 && dir == way,
        side_slot(id, dir) / 0x1000 == JUNCTION_SLOT_BASE / 0x1000,
{
}

/// The entry at one end names both documents, as far as they are identified:
/// other documents make another entry. What the partners of a document share
/// is at the front of each of its entries, and the partner is what follows.
pub proof fn law_entries_name_both_ends<E: KvJunction>(
    a: Seq<u8>,
    b: Seq<u8>,
    c: Seq<u8>,
    d: Seq<u8>,
)
    requires
        a.len() == <<E::A as Document>::Key as KeyEncode>::KEY_LEN,
        c.len() == <<E::A as Document>::Key as KeyEncode>::KEY_LEN,
        b.len() == <<E::B as Document>::Key as KeyEncode>::KEY_LEN,
        d.len() == <<E::B as Document>::Key as KeyEncode>::KEY_LEN,
    ensures
        ({
            let ha = head_of::<<E::A as Document>::Key>(a, E::a_fields());
            let hb = head_of::<<E::B as Document>::Key>(b, E::b_fields());
            let hc = head_of::<<E::A as Document>::Key>(c, E::a_fields());
            let hd = head_of::<<E::B as Document>::Key>(d, E::b_fields());
            &&& a_side::<E>(a, b) == a_side::<E>(c, d) <==> ha == hc && hb == hd
            &&& b_side::<E>(a, b) == b_side::<E>(c, d) <==> ha == hc && hb == hd
            &&& a_side::<E>(a, b) == a_front::<E>(a) + hb
            &&& b_side::<E>(a, b) == b_front::<E>(b) + ha
            &&& crate::bytes::starts_with(a_side::<E>(a, b), <E::A as Document>::ns_bytes())
            &&& crate::bytes::starts_with(b_side::<E>(a, b), <E::B as Document>::ns_bytes())
        }),
{
    let ha = head_of::<<E::A as Document>::Key>(a, E::a_fields());
    let hb = head_of::<<E::B as Document>::Key>(b, E::b_fields());
    let hc = head_of::<<E::A as Document>::Key>(c, E::a_fields());
    let hd = head_of::<<E::B as Document>::Key>(d, E::b_fields());
    law_head_is_prefix::<<E::A as Document>::Key>(a, E::a_fields());
    law_head_is_prefix::<<E::A as Document>::Key>(c, E::a_fields());
    law_head_is_prefix::<<E::B as Document>::Key>(b, E::b_fields());
    law_head_is_prefix::<<E::B as Document>::Key>(d, E::b_fields());
    let na = <E::A as Document>::ns_bytes();
    let nb = <E::B as Document>::ns_bytes();
    let sa = crate::bytes::be_bytes(side_slot(E::JUNCTION_ID, 0), 2);
    let sb = crate::bytes::be_bytes(side_slot(E::JUNCTION_ID, 1), 2);
    lemma_parts(na + sa, ha, hb, hc, hd);
    lemma_parts(nb + sb, hb, ha, hd, hc);
    assert(a_side::<E>(a, b).subrange(0, na.len() as int) =~= na);
    assert(b_side::<E>(a, b).subrange(0, nb.len() as int) =~= nb);
}

/// Parts of one width behind one front.
pub proof fn lemma_parts(p: Seq<u8>, a: Seq<u8>, b: Seq<u8>, c: Seq<u8>, d: Seq<u8>)
    requires
        a.len() == c.len(),
    ensures
        p + a + b == p + c + d <==> a == c && b == d,
{
    let x = p + a + b;
    let y = p + c + d;
    let n = p.len() as int;
    let k = a.len() as int;
    if x == y {
        assert(x.subrange(n, n + k) =~= a);
        assert(y.subrange(n, n + k) =~= c);
        assert(x.skip(n + k) =~= b);
        assert(y.skip(n + k) =~= d);
    }
}

} // verus!
