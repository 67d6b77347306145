//! Junctions on an engine: linking, unlinking and finding partners.

use std::marker::PhantomData;

use vstd::prelude::*;

use crate::engine::storage::{MemBatch, VirtualStorage};
use crate::index::{decode_tail, Document};
use crate::junction::{
    a_side_of, a_side_prefix, b_side_of, b_side_prefix, head_width, KvJunction,
};
use crate::key::{KeyEncode, PrefixKey};
use crate::rows::scan_partners;

verus! {

/// Documents of two types that are linked, on one engine.
#[verifier::reject_recursive_types(E)]
pub struct Junction<S: VirtualStorage, E: KvJunction> {
    pub store: S,
    pub _pd: PhantomData<E>,
}

impl<S: VirtualStorage, E: KvJunction> Junction<S, E> {
    pub fn new(store: S) -> (r: Self)
        ensures
            r.store == store,
    {
        Junction { store, _pd: PhantomData }
    }

    /// Links two documents: one entry at each end.
    pub fn link(&mut self, a: &<E::A as Document>::Key, b: &<E::B as Document>::Key)
        ensures
            final(self).store.contents() == old(self).store.contents().insert(
                crate::junction::a_side::<E>(a.bytes(), b.bytes()),
                Seq::empty(),
            ).insert(crate::junction::b_side::<E>(a.bytes(), b.bytes()), Seq::empty()),
    {
        let x = a_side_of::<E>(a, b);
        let y = b_side_of::<E>(a, b);
        let none: Vec<u8> = Vec::new();
        let also: Vec<u8> = Vec::new();
        proof {
            assert(none@ =~= Seq::empty());
            assert(also@ =~= Seq::empty());
        }
        self.store.put(x, none);
        self.store.put(y, also);
    }

    /// Adds the writes of a link to a batch; nothing is written before the
    /// batch is.
    pub fn save_into(&self, batch: &mut MemBatch, a: &<E::A as Document>::Key, b: &<E::B as Document>::Key)
        ensures
            final(batch)@ == old(batch)@ + seq![
                (crate::junction::a_side::<E>(a.bytes(), b.bytes()), Some(Seq::<u8>::empty())),
                (crate::junction::b_side::<E>(a.bytes(), b.bytes()), Some(Seq::<u8>::empty())),
            ],
    {
        let none: Vec<u8> = Vec::new();
        let also: Vec<u8> = Vec::new();
        proof {
            assert(none@ =~= Seq::empty());
            assert(also@ =~= Seq::empty());
        }
        batch.put(a_side_of::<E>(a, b), none);
        batch.put(b_side_of::<E>(a, b), also);
        assert(batch@ =~= old(batch)@ + seq![
            (crate::junction::a_side::<E>(a.bytes(), b.bytes()), Some(Seq::<u8>::empty())),
            (crate::junction::b_side::<E>(a.bytes(), b.bytes()), Some(Seq::<u8>::empty())),
        ]);
    }

    /// Removes a link: the entry at each end.
    pub fn unlink(&mut self, a: &<E::A as Document>::Key, b: &<E::B as Document>::Key)
        ensures
            final(self).store.contents() == old(self).store.contents().remove(
                crate::junction::a_side::<E>(a.bytes(), b.bytes()),
            ).remove(crate::junction::b_side::<E>(a.bytes(), b.bytes())),
    {
        let x = a_side_of::<E>(a, b);
        let y = b_side_of::<E>(a, b);
        self.store.del(x.as_slice());
        self.store.del(y.as_slice());
    }

    /// The partners of an A, in key order. The junction must hold whole keys
    /// of B.
    pub fn forward(&self, a: &<E::A as Document>::Key) -> (r: Vec<<E::B as Document>::Key>)
        requires
            E::b_fields().len() == 0,
            crate::rows::suffixes_have(
                self.store.contents(),
                crate::junction::a_front::<E>(a.bytes()),
                <<E::B as Document>::Key as KeyEncode>::KEY_LEN as nat,
            ),
        ensures
            r@.map_values(|k: <E::B as Document>::Key| k.bytes()) == crate::engine::storage::prefix_suffixes(
                self.store.contents(),
                crate::junction::a_front::<E>(a.bytes()),
            ).map_values(|s: Seq<u8>| <<E::B as Document>::Key as KeyEncode>::canon(s)),
    {
        let p = a_side_prefix::<E>(a);
        scan_partners::<S, <E::B as Document>::Key>(&self.store, p.as_slice())
    }

    /// The stored identities of the partners of a B, in key order.
    pub fn reverse_raw(&self, b: &<E::B as Document>::Key) -> (r: Vec<Vec<u8>>)
        ensures
            crate::engine::storage::views(r@) == crate::engine::storage::prefix_suffixes(
                self.store.contents(),
                crate::junction::b_front::<E>(b.bytes()),
            ),
    {
        let p = b_side_prefix::<E>(b);
        self.store.scan_suffix(p.as_slice())
    }

    /// The partners of a B, in key order. The junction must hold whole keys
    /// of A.
    pub fn reverse(&self, b: &<E::B as Document>::Key) -> (r: Vec<<E::A as Document>::Key>)
        requires
            E::a_fields().len() == 0,
            crate::rows::suffixes_have(
                self.store.contents(),
                crate::junction::b_front::<E>(b.bytes()),
                <<E::A as Document>::Key as KeyEncode>::KEY_LEN as nat,
            ),
        ensures
            r@.map_values(|k: <E::A as Document>::Key| k.bytes()) == crate::engine::storage::prefix_suffixes(
                self.store.contents(),
                crate::junction::b_front::<E>(b.bytes()),
            ).map_values(|s: Seq<u8>| <<E::A as Document>::Key as KeyEncode>::canon(s)),
    {
        let p = b_side_prefix::<E>(b);
        scan_partners::<S, <E::A as Document>::Key>(&self.store, p.as_slice())
    }

    /// The known parts of the keys of the partners of a B, in key order.
    pub fn reverse_prefix(&self, b: &<E::B as Document>::Key) -> (r: Vec<PrefixKey<<E::A as Document>::Key>>)
        requires
            crate::rows::suffixes_have(
                self.store.contents(),
                crate::junction::b_front::<E>(b.bytes()),
                crate::junction::head_len::<<E::A as Document>::Key>(E::a_fields()),
            ),
        ensures
            crate::index::prefix_key_views(r@) == crate::engine::storage::prefix_suffixes(
                self.store.contents(),
                crate::junction::b_front::<E>(b.bytes()),
            ).map_values(
                |s: Seq<u8>|
                    (
                        crate::index::tail_key::<<E::A as Document>::Key>(
                            s,
                            crate::junction::head_len::<<E::A as Document>::Key>(E::a_fields()),
                        ),
                        crate::junction::head_len::<<E::A as Document>::Key>(E::a_fields()),
                    ),
            ),
    {
        let head = E::a_head();
        let taken: usize = head_width::<<E::A as Document>::Key>(&head);
        let list = self.reverse_raw(b);
        let ghost all = crate::engine::storage::prefix_suffixes(
            self.store.contents(),
            crate::junction::b_front::<E>(b.bytes()),
        );
        let ghost f = |s: Seq<u8>|
            (crate::index::tail_key::<<E::A as Document>::Key>(s, taken as nat), taken as nat);
        let mut out: Vec<PrefixKey<<E::A as Document>::Key>> = Vec::new();
        let mut i: usize = 0;
        assert(crate::index::prefix_key_views(out@) =~= all.take(0).map_values(f));
        while i < list.len()
            invariant
                i <= list@.len() == all.len(),
                all == crate::engine::storage::views(list@),
                taken <= <<E::A as Document>::Key as KeyEncode>::KEY_LEN,
                forall|j: int| 0 <= j < all.len() ==> (#[trigger] all[j]).len() == taken,
                f == (|s: Seq<u8>|
                    (crate::index::tail_key::<<E::A as Document>::Key>(s, taken as nat), taken as nat)),
                crate::index::prefix_key_views(out@) == all.take(i as int).map_values(f),
            decreases list@.len() - i,
        {
            let ghost before = crate::index::prefix_key_views(out@);
            assert(all[i as int] == list@[i as int]@);
            let k = decode_tail::<<E::A as Document>::Key>(list[i].as_slice(), taken);
            let ghost kv = (k.decoded.bytes(), k.taken as nat);
            out.push(k);
            proof {
                assert(kv == f(all[i as int]));
                assert(crate::index::prefix_key_views(out@) =~= before.push(kv));
                assert(all.take(i + 1) =~= all.take(i as int).push(all[i as int]));
                assert(all.take(i + 1).map_values(f) =~= before.push(kv));
            }
            i = i + 1;
        }
        assert(all.take(i as int) =~= all);
        out
    }
}

/// What was linked is found from both ends.
pub proof fn law_link_is_found<E: KvJunction>(
    m: crate::engine::storage::Contents,
    a: Seq<u8>,
    b: Seq<u8>,
)
    requires
        m.dom().finite(),
    ensures
        ({
            let m2 = m.insert(crate::junction::a_side::<E>(a, b), Seq::empty()).insert(crate::junction::b_side::<E>(a, b), Seq::empty());
            &&& crate::engine::storage::prefix_suffixes(m2, crate::junction::a_front::<E>(a)).contains(
                crate::junction::head_of::<<E::B as Document>::Key>(b, E::b_fields()),
            )
            &&& crate::engine::storage::prefix_suffixes(m2, crate::junction::b_front::<E>(b)).contains(
                crate::junction::head_of::<<E::A as Document>::Key>(a, E::a_fields()),
            )
        }),
{
    let m2 = m.insert(crate::junction::a_side::<E>(a, b), Seq::empty()).insert(crate::junction::b_side::<E>(a, b), Seq::empty());
    crate::rows::lemma_suffix_found(
        m2,
        crate::junction::a_front::<E>(a),
        crate::junction::head_of::<<E::B as Document>::Key>(b, E::b_fields()),
    );
    crate::rows::lemma_suffix_found(
        m2,
        crate::junction::b_front::<E>(b),
        crate::junction::head_of::<<E::A as Document>::Key>(a, E::a_fields()),
    );
}

/// Unlinking undoes linking, where there was no link before.
pub proof fn law_unlink_undoes_link<E: KvJunction>(
    m: crate::engine::storage::Contents,
    a: Seq<u8>,
    b: Seq<u8>,
)
    requires
        !m.dom().contains(crate::junction::a_side::<E>(a, b)),
        !m.dom().contains(crate::junction::b_side::<E>(a, b)),
    ensures
        m.insert(crate::junction::a_side::<E>(a, b), Seq::empty()).insert(crate::junction::b_side::<E>(a, b), Seq::empty()).remove(
            crate::junction::a_side::<E>(a, b),
        ).remove(crate::junction::b_side::<E>(a, b)) == m,
{
    let x = crate::junction::a_side::<E>(a, b);
    let y = crate::junction::b_side::<E>(a, b);
    assert(m.insert(x, Seq::empty()).insert(y, Seq::empty()).remove(x).remove(y) =~= m);
}

/// In front of all entries at A's end.
pub open spec fn a_head_bytes<E: KvJunction>() -> Seq<u8> {
    <E::A as Document>::ns_bytes() + crate::bytes::be_bytes(
        crate::junction::side_slot(E::JUNCTION_ID, 0),
        2,
    )
}

/// In front of all entries at B's end.
pub open spec fn b_head_bytes<E: KvJunction>() -> Seq<u8> {
    <E::B as Document>::ns_bytes() + crate::bytes::be_bytes(
        crate::junction::side_slot(E::JUNCTION_ID, 1),
        2,
    )
}

/// What links made and undone leave of a junction.
pub open spec fn junction_history<E: KvJunction>(
    m: crate::engine::storage::Contents,
    calls: Seq<crate::rows::LinkCall>,
) -> crate::engine::storage::Contents
    decreases calls.len(),
{
    if calls.len() == 0 {
        m
    } else {
        let c = calls.last();
        let before = junction_history::<E>(m, calls.drop_last());
        let x = crate::junction::a_side::<E>(c.a, c.b);
        let y = crate::junction::b_side::<E>(c.a, c.b);
        if c.made {
            before.insert(x, Seq::empty()).insert(y, Seq::empty())
        } else {
            before.remove(x).remove(y)
        }
    }
}

proof fn lemma_junction_history<E: KvJunction>(
    m: crate::engine::storage::Contents,
    calls: Seq<crate::rows::LinkCall>,
)
    requires
        E::a_fields().len() == 0,
        E::b_fields().len() == 0,
    ensures
        junction_history::<E>(m, calls) == crate::rows::pair_history(
            m,
            a_head_bytes::<E>(),
            b_head_bytes::<E>(),
            calls,
        ),
    decreases calls.len(),
{
    if calls.len() > 0 {
        lemma_junction_history::<E>(m, calls.drop_last());
    }
}

/// Where the entries of a junction came from links made and undone alone,
/// and hold whole keys, the partners of a key at either end are exactly
/// those linked to it and not unlinked since, each once, in the order of
/// their stored forms. They read back as they were linked.
pub proof fn law_partners_over_history<E: KvJunction>(
    m: crate::engine::storage::Contents,
    calls: Seq<crate::rows::LinkCall>,
    a: Seq<u8>,
    b: Seq<u8>,
)
    requires
        m.dom().finite(),
        <E::A as Document>::ns_bytes().len() == <E::B as Document>::ns_bytes().len(),
        E::a_fields().len() == 0,
        E::b_fields().len() == 0,
        crate::rows::none_behind(m, a_head_bytes::<E>()),
        crate::rows::none_behind(m, b_head_bytes::<E>()),
        crate::rows::widths(
            calls,
            <<E::A as Document>::Key as KeyEncode>::KEY_LEN as nat,
            <<E::B as Document>::Key as KeyEncode>::KEY_LEN as nat,
        ),
        forall|i: int|
            0 <= i < calls.len() ==> <<E::A as Document>::Key as KeyEncode>::canon((#[trigger] calls[i]).a)
                == calls[i].a && <<E::B as Document>::Key as KeyEncode>::canon(calls[i].b) == calls[i].b,
        a.len() == <<E::A as Document>::Key as KeyEncode>::KEY_LEN,
        b.len() == <<E::B as Document>::Key as KeyEncode>::KEY_LEN,
    ensures
        ({
            let after = junction_history::<E>(m, calls);
            let p = crate::junction::a_front::<E>(a);
            let q = crate::junction::b_front::<E>(b);
            let from_a = crate::engine::storage::prefix_suffixes(after, p);
            let from_b = crate::engine::storage::prefix_suffixes(after, q);
            &&& crate::rows::partners_of(from_a, calls, a, true)
            &&& crate::rows::partners_of(from_b, calls, b, false)
            &&& crate::rows::suffixes_have(after, p, <<E::B as Document>::Key as KeyEncode>::KEY_LEN as nat)
            &&& crate::rows::suffixes_have(after, q, <<E::A as Document>::Key as KeyEncode>::KEY_LEN as nat)
            &&& from_a.map_values(|s: Seq<u8>| <<E::B as Document>::Key as KeyEncode>::canon(s)) == from_a
            &&& from_b.map_values(|s: Seq<u8>| <<E::A as Document>::Key as KeyEncode>::canon(s)) == from_b
        }),
{
    let p = a_head_bytes::<E>();
    let q = b_head_bytes::<E>();
    let after = junction_history::<E>(m, calls);
    let from_a = crate::engine::storage::prefix_suffixes(
        after,
        crate::junction::a_front::<E>(a),
    );
    let from_b = crate::engine::storage::prefix_suffixes(
        after,
        crate::junction::b_front::<E>(b),
    );
    let n = <E::A as Document>::ns_bytes().len() as int;
    let x = crate::junction::side_slot(E::JUNCTION_ID, 0);
    let y = crate::junction::side_slot(E::JUNCTION_ID, 1);
    crate::bytes::lemma_pow256_small();
    crate::bytes::lemma_be_bytes_len(x, 2);
    crate::bytes::lemma_be_bytes_len(y, 2);
    assert(p != q) by {
        assert(p.skip(n) =~= crate::bytes::be_bytes(x, 2));
        assert(q.skip(n) =~= crate::bytes::be_bytes(y, 2));
        if p == q {
            crate::bytes::lemma_be_injective(x, y, 2);
        }
    }
    assert(p.subrange(0, p.len() as int) =~= p);
    assert(q.subrange(0, q.len() as int) =~= q);
    lemma_junction_history::<E>(m, calls);
    crate::rows::lemma_history_partners(
        m,
        p,
        q,
        calls,
        <<E::A as Document>::Key as KeyEncode>::KEY_LEN as nat,
        <<E::B as Document>::Key as KeyEncode>::KEY_LEN as nat,
        a,
        b,
    );
    assert forall|i: int| 0 <= i < from_a.len() implies <<E::B as Document>::Key as KeyEncode>::canon(
        #[trigger] from_a[i],
    ) == from_a[i] by {
        assert(from_a.contains(from_a[i]));
        crate::rows::lemma_live_call(calls, a, from_a[i]);
    }
    assert forall|i: int| 0 <= i < from_b.len() implies <<E::A as Document>::Key as KeyEncode>::canon(
        #[trigger] from_b[i],
    ) == from_b[i] by {
        assert(from_b.contains(from_b[i]));
        crate::rows::lemma_live_call(calls, from_b[i], b);
    }
    assert(from_a.map_values(|s: Seq<u8>| <<E::B as Document>::Key as KeyEncode>::canon(s)) =~= from_a);
    assert(from_b.map_values(|s: Seq<u8>| <<E::A as Document>::Key as KeyEncode>::canon(s)) =~= from_b);
}

} // verus!
