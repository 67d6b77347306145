//! Identities: keys of fixed width whose fields stand in declaration order,
//! big-endian, so that a prefix of the fields is a prefix of the bytes.

use vstd::prelude::*;

use crate::bytes::{be_vec, read_be, slice_to};
use crate::field::FieldDesc;

verus! {

/// The text of a list of names.
pub open spec fn name_list(names: Seq<&'static str>) -> Seq<Seq<char>> {
    names.map_values(|n: &'static str| n@)
}

/// A key.
pub trait KeyEncode: Sized {
    /// Bytes of the stored form.
    const KEY_LEN: usize;

    /// The stored form.
    spec fn bytes(&self) -> Seq<u8>;

    /// The stored form of the key that is read from these bytes.
    spec fn canon(b: Seq<u8>) -> Seq<u8>;

    /// Bytes of a prefix of the fields, given by their names.
    spec fn named_len(names: Seq<Seq<char>>) -> nat;

    /// The declared fields.
    spec fn declared() -> Seq<crate::field::FieldView>;

    /// The stored form has the declared width and reads back as it is.
    proof fn reads_back(&self)
        ensures
            self.bytes().len() == Self::KEY_LEN,
            Self::canon(self.bytes()) == self.bytes(),
    ;

    /// A prefix of the fields is no longer than all of them.
    proof fn prefix_fits(names: Seq<Seq<char>>)
        ensures
            Self::named_len(names) <= Self::KEY_LEN,
            crate::field::total_width(Self::declared()) == Self::KEY_LEN,
    ;

    /// The declared fields, in declaration order.
    fn fields() -> (r: Vec<FieldDesc>)
        ensures
            crate::field::field_list(r@) == Self::declared(),
    ;

    /// The stored form.
    fn encode(&self) -> (r: Vec<u8>)
        ensures
            r@ == self.bytes(),
    ;

    /// The key of a stored form.
    fn decode(b: &[u8]) -> (r: Self)
        requires
            b@.len() == Self::KEY_LEN,
        ensures
            r.bytes() == Self::canon(b@),
    ;

    /// Bytes of a prefix of the fields, given by their names.
    fn prefix_width(names: &Vec<&'static str>) -> (r: usize)
        ensures
            r == Self::named_len(name_list(names@)),
    ;
}

/// Appends a prefix of the fields of a key, given by their names, and tells
/// its width.
pub fn encode_prefix_named<K: KeyEncode>(
    key: &K,
    buf: &mut Vec<u8>,
    names: &Vec<&'static str>,
) -> (r: usize)
    ensures
        r == K::named_len(name_list(names@)),
        final(buf)@ == old(buf)@ + key.bytes().take(K::named_len(name_list(names@)) as int),
{
    let n: usize = K::prefix_width(names);
    let all = key.encode();
    proof {
        key.reads_back();
        K::prefix_fits(name_list(names@));
    }
    buf.extend_from_slice(slice_to(all.as_slice(), n));
    n
}

/// A key of which only the first `taken` bytes are known; the fields behind
/// them are zero.
#[derive(Clone, Debug)]
pub struct PrefixKey<K> {
    pub decoded: K,
    pub taken: usize,
}

impl KeyEncode for u32 {
    const KEY_LEN: usize = 4;

    open spec fn bytes(&self) -> Seq<u8> {
        crate::bytes::be_bytes(*self as nat, 4)
    }

    open spec fn canon(b: Seq<u8>) -> Seq<u8> {
        b
    }

    open spec fn named_len(names: Seq<Seq<char>>) -> nat {
        if names.len() > 0 { 4 } else { 0 }
    }

    open spec fn declared() -> Seq<crate::field::FieldView> {
        seq![crate::field::FieldView { name: "id"@, width: 4, ty: crate::field::FieldType::U32 }]
    }

    proof fn reads_back(&self) {
        crate::bytes::lemma_be_bytes_len(*self as nat, 4);
    }

    proof fn prefix_fits(names: Seq<Seq<char>>) {
        assert(Self::declared().drop_last() =~= Seq::empty());
        assert(crate::field::total_width(Self::declared().drop_last()) == 0);
    }

    fn fields() -> (r: Vec<FieldDesc>) {
        let mut r: Vec<FieldDesc> = Vec::new();
        r.push(FieldDesc { name: "id", width: 4, ty: crate::field::FieldType::U32 });
        assert(crate::field::field_list(r@) =~= Self::declared());
        r
    }

    fn encode(&self) -> (r: Vec<u8>) {
        be_vec(*self as u64, 4)
    }

    fn decode(b: &[u8]) -> (r: Self) {
        proof {
            crate::bytes::lemma_pow256_small();
            crate::bytes::lemma_be_value_round_trip(b@);
        }
        read_be(b) as u32
    }

    fn prefix_width(names: &Vec<&'static str>) -> (r: usize) {
        if names.len() > 0 {
            4
        } else {
            0
        }
    }
}

impl KeyEncode for u64 {
    const KEY_LEN: usize = 8;

    open spec fn bytes(&self) -> Seq<u8> {
        crate::bytes::be_bytes(*self as nat, 8)
    }

    open spec fn canon(b: Seq<u8>) -> Seq<u8> {
        b
    }

    open spec fn named_len(names: Seq<Seq<char>>) -> nat {
        if names.len() > 0 { 8 } else { 0 }
    }

    open spec fn declared() -> Seq<crate::field::FieldView> {
        seq![crate::field::FieldView { name: "id"@, width: 8, ty: crate::field::FieldType::U64 }]
    }

    proof fn reads_back(&self) {
        crate::bytes::lemma_be_bytes_len(*self as nat, 8);
    }

    proof fn prefix_fits(names: Seq<Seq<char>>) {
        assert(Self::declared().drop_last() =~= Seq::empty());
        assert(crate::field::total_width(Self::declared().drop_last()) == 0);
    }

    fn fields() -> (r: Vec<FieldDesc>) {
        let mut r: Vec<FieldDesc> = Vec::new();
        r.push(FieldDesc { name: "id", width: 8, ty: crate::field::FieldType::U64 });
        assert(crate::field::field_list(r@) =~= Self::declared());
        r
    }

    fn encode(&self) -> (r: Vec<u8>) {
        be_vec(*self, 8)
    }

    fn decode(b: &[u8]) -> (r: Self) {
        proof {
            crate::bytes::lemma_pow256_small();
            crate::bytes::lemma_be_value_round_trip(b@);
        }
        read_be(b)
    }

    fn prefix_width(names: &Vec<&'static str>) -> (r: usize) {
        if names.len() > 0 {
            8
        } else {
            0
        }
    }
}

/// A `u32` key is the number itself in 4 bytes: keys sort by size, no two
/// numbers share a key, and what is read from a key is its number.
pub proof fn law_u32_key(a: u32, b: u32)
    ensures
        a.bytes().len() == 4,
        crate::bytes::be_value(a.bytes()) == a,
        crate::bytes::lex_lt(a.bytes(), b.bytes()) <==> a < b,
        a.bytes() == <u32 as KeyEncode>::canon(b.bytes()) <==> a == b,
{
    crate::bytes::lemma_pow256_small();
    crate::bytes::lemma_be_bytes_len(a as nat, 4);
    crate::bytes::lemma_be_round_trip(a as nat, 4);
    crate::bytes::lemma_be_round_trip(b as nat, 4);
    crate::bytes::lemma_be_sorts(a as nat, b as nat, 4);
}

/// A prefix of the only field of a `u32` key is the whole key, and a prefix
/// without fields is empty.
pub proof fn law_u32_key_prefix(names: Seq<Seq<char>>)
    ensures
        <u32 as KeyEncode>::named_len(names) == (if names.len() == 0 {
            0nat
        } else {
            4nat
        }),
        <u32 as KeyEncode>::declared().len() == 1,
        <u32 as KeyEncode>::declared()[0].width == 4,
{
}

/// A `u64` key is the number itself in 8 bytes: keys sort by size, no two
/// numbers share a key, and what is read from a key is its number.
pub proof fn law_u64_key(a: u64, b: u64)
    ensures
        a.bytes().len() == 8,
        crate::bytes::be_value(a.bytes()) == a,
        crate::bytes::lex_lt(a.bytes(), b.bytes()) <==> a < b,
        a.bytes() == <u64 as KeyEncode>::canon(b.bytes()) <==> a == b,
{
    crate::bytes::lemma_pow256_small();
    crate::bytes::lemma_be_bytes_len(a as nat, 8);
    crate::bytes::lemma_be_round_trip(a as nat, 8);
    crate::bytes::lemma_be_round_trip(b as nat, 8);
    crate::bytes::lemma_be_sorts(a as nat, b as nat, 8);
}

/// A prefix of the only field of a `u64` key is the whole key, and a prefix
/// without fields is empty.
pub proof fn law_u64_key_prefix(names: Seq<Seq<char>>)
    ensures
        <u64 as KeyEncode>::named_len(names) == (if names.len() == 0 {
            0nat
        } else {
            8nat
        }),
        <u64 as KeyEncode>::declared().len() == 1,
        <u64 as KeyEncode>::declared()[0].width == 8,
{
}

} // verus!
