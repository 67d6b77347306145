//! Slots: the two bytes behind the namespace that tell what a key is for.

use vstd::prelude::*;

verus! {

/// A slot number. The top four bits name the segment.
pub type Slot = u16;

/// Primary entries.
pub const PRIMARY_SLOT: Slot = 0x0000;

/// Dynamic fields, one entry per object.
pub const DYNAMIC_SLOT: Slot = 0x0001;

/// Dictionary, number to name.
pub const DICT_ID_SLOT: Slot = 0x0002;

/// Dictionary, name to number.
pub const DICT_NAME_SLOT: Slot = 0x0003;

/// First slot of the junction segment.
pub const JUNCTION_SLOT_BASE: Slot = 0x3000;

/// The stored form of a slot.
pub open spec fn slot_bytes(slot: Slot) -> Seq<u8> {
    crate::bytes::be_bytes(slot as nat, 2)
}

/// Slots are two bytes, and different slots have different bytes.
pub proof fn lemma_slot_bytes(a: Slot, b: Slot)
    ensures
        slot_bytes(a).len() == 2,
        slot_bytes(a) == slot_bytes(b) <==> a == b,
{
    crate::bytes::lemma_be_bytes_len(a as nat, 2);
    crate::bytes::lemma_pow256_small();
    if slot_bytes(a) == slot_bytes(b) {
        crate::bytes::lemma_be_injective(a as nat, b as nat, 2);
    }
}

/// A key of the table with header `header`: the header, the slot, the rest.
pub open spec fn slot_key(header: Seq<u8>, slot: Slot, rest: Seq<u8>) -> Seq<u8> {
    header + slot_bytes(slot) + rest
}

/// Keys of different slots differ; within a slot the rest decides.
pub proof fn lemma_slot_key(header: Seq<u8>, s: Slot, t: Slot, a: Seq<u8>, b: Seq<u8>)
    ensures
        slot_key(header, s, a) == slot_key(header, t, b) <==> s == t && a == b,
        crate::bytes::starts_with(slot_key(header, s, a), slot_key(header, t, Seq::empty())) <==> s
            == t,
        slot_key(header, s, a).skip(header.len() as int + 2) == a,
        slot_key(header, s, a) == slot_key(header, s, Seq::empty()) + a,
        slot_key(header, s, a).len() == header.len() + 2 + a.len(),
{
    let x = slot_key(header, s, a);
    let y = slot_key(header, t, b);
    let p = slot_key(header, t, Seq::empty());
    lemma_slot_bytes(s, t);
    lemma_slot_bytes(t, s);
    assert(x.skip(header.len() as int + 2) =~= a);
    assert(y.skip(header.len() as int + 2) =~= b);
    assert(x.subrange(header.len() as int, header.len() as int + 2) =~= slot_bytes(s));
    assert(y.subrange(header.len() as int, header.len() as int + 2) =~= slot_bytes(t));
    assert(x =~= slot_key(header, s, Seq::empty()) + a);
    if s == t {
        assert(x.subrange(0, p.len() as int) =~= p);
    }
    if crate::bytes::starts_with(x, p) {
        assert(p.subrange(header.len() as int, header.len() as int + 2) =~= slot_bytes(t));
        assert(x.subrange(0, p.len() as int).subrange(
            header.len() as int,
            header.len() as int + 2,
        ) =~= slot_bytes(s));
    }
}

/// The header, the slot, the rest.
pub fn make_key(header: &[u8], slot: Slot, rest: &[u8]) -> (r: Vec<u8>)
    ensures
        r@ == slot_key(header@, slot, rest@),
{
    let mut k: Vec<u8> = crate::bytes::to_vec(header);
    crate::bytes::push_be(&mut k, slot as u64, 2);
    k.extend_from_slice(rest);
    assert(k@ =~= slot_key(header@, slot, rest@));
    k
}

} // verus!
