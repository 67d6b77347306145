//! Edges on an engine: linking, unlinking and finding partners.

use std::marker::PhantomData;

use vstd::prelude::*;

use crate::edge::{forward_key, forward_prefix, reverse_key, reverse_prefix, KvEdge};
use crate::engine::storage::{MemBatch, VirtualStorage};
use crate::index::decode_tail;
use crate::junction::head_width;
use crate::key::{KeyEncode, PrefixKey};
use crate::rows::scan_partners;

verus! {

/// Keys of two types that are linked, on one engine.
#[verifier::reject_recursive_types(E)]
pub struct EdgeTable<S: VirtualStorage, E: KvEdge> {
    pub store: S,
    pub _pd: PhantomData<E>,
}

impl<S: VirtualStorage, E: KvEdge> EdgeTable<S, E> {
    pub fn new(store: S) -> (r: Self)
        ensures
            r.store == store,
    {
        EdgeTable { store, _pd: PhantomData }
    }

    /// Links two keys: one entry in each direction.
    pub fn link(&mut self, a: &E::A, b: &E::B)
        ensures
            final(self).store.contents() == old(self).store.contents().insert(
                crate::edge::forward_entry::<E>(a.bytes(), b.bytes()),
                Seq::empty(),
            ).insert(crate::edge::reverse_entry::<E>(a.bytes(), b.bytes()), Seq::empty()),
    {
        let x = forward_key::<E>(a, b);
        let y = reverse_key::<E>(a, b);
        let none: Vec<u8> = Vec::new();
        let also: Vec<u8> = Vec::new();
        proof {
            assert(none@ =~= Seq::empty());
            assert(also@ =~= Seq::empty());
        }
        self.store.put(x, none);
        self.store.put(y, also);
    }

    /// Adds the writes of a link to a batch; nothing is written before the
    /// batch is.
    pub fn save_into(&self, batch: &mut MemBatch, a: &E::A, b: &E::B)
        ensures
            final(batch)@ == old(batch)@ + seq![
                (crate::edge::forward_entry::<E>(a.bytes(), b.bytes()), Some(Seq::<u8>::empty())),
                (crate::edge::reverse_entry::<E>(a.bytes(), b.bytes()), Some(Seq::<u8>::empty())),
            ],
    {
        let none: Vec<u8> = Vec::new();
        let also: Vec<u8> = Vec::new();
        proof {
            assert(none@ =~= Seq::empty());
            assert(also@ =~= Seq::empty());
        }
        batch.put(forward_key::<E>(a, b), none);
        batch.put(reverse_key::<E>(a, b), also);
        assert(batch@ =~= old(batch)@ + seq![
            (crate::edge::forward_entry::<E>(a.bytes(), b.bytes()), Some(Seq::<u8>::empty())),
            (crate::edge::reverse_entry::<E>(a.bytes(), b.bytes()), Some(Seq::<u8>::empty())),
        ]);
    }

    /// Removes a link: the entry in each direction.
    pub fn unlink(&mut self, a: &E::A, b: &E::B)
        ensures
            final(self).store.contents() == old(self).store.contents().remove(
                crate::edge::forward_entry::<E>(a.bytes(), b.bytes()),
            ).remove(crate::edge::reverse_entry::<E>(a.bytes(), b.bytes())),
    {
        let x = forward_key::<E>(a, b);
        let y = reverse_key::<E>(a, b);
        self.store.del(x.as_slice());
        self.store.del(y.as_slice());
    }

    /// The partners of an A, in key order. The edge must hold whole keys
    /// of B.
    pub fn forward(&self, a: &E::A) -> (r: Vec<E::B>)
        requires
            E::b_fields().len() == 0,
            crate::rows::suffixes_have(
                self.store.contents(),
                crate::edge::forward_front::<E>(a.bytes()),
                <E::B as KeyEncode>::KEY_LEN as nat,
            ),
        ensures
            r@.map_values(|k: E::B| k.bytes()) == crate::engine::storage::prefix_suffixes(
                self.store.contents(),
                crate::edge::forward_front::<E>(a.bytes()),
            ).map_values(|s: Seq<u8>| <E::B as KeyEncode>::canon(s)),
    {
        let p = forward_prefix::<E>(a);
        scan_partners::<S, E::B>(&self.store, p.as_slice())
    }

    /// The stored identities of the partners of a B, in key order.
    pub fn reverse_raw(&self, b: &E::B) -> (r: Vec<Vec<u8>>)
        ensures
            crate::engine::storage::views(r@) == crate::engine::storage::prefix_suffixes(
                self.store.contents(),
                crate::edge::reverse_front::<E>(b.bytes()),
            ),
    {
        let p = reverse_prefix::<E>(b);
        self.store.scan_suffix(p.as_slice())
    }

    /// The partners of a B, in key order. The edge must hold whole keys
    /// of A.
    pub fn reverse(&self, b: &E::B) -> (r: Vec<E::A>)
        requires
            E::a_fields().len() == 0,
            crate::rows::suffixes_have(
                self.store.contents(),
                crate::edge::reverse_front::<E>(b.bytes()),
                <E::A as KeyEncode>::KEY_LEN as nat,
            ),
        ensures
            r@.map_values(|k: E::A| k.bytes()) == crate::engine::storage::prefix_suffixes(
                self.store.contents(),
                crate::edge::reverse_front::<E>(b.bytes()),
            ).map_values(|s: Seq<u8>| <E::A as KeyEncode>::canon(s)),
    {
        let p = reverse_prefix::<E>(b);
        scan_partners::<S, E::A>(&self.store, p.as_slice())
    }

    /// The known parts of the keys of the partners of a B, in key order.
    pub fn reverse_prefix(&self, b: &E::B) -> (r: Vec<PrefixKey<E::A>>)
        requires
            crate::rows::suffixes_have(
                self.store.contents(),
                crate::edge::reverse_front::<E>(b.bytes()),
                crate::junction::head_len::<E::A>(E::a_fields()),
            ),
        ensures
            crate::index::prefix_key_views(r@) == crate::engine::storage::prefix_suffixes(
                self.store.contents(),
                crate::edge::reverse_front::<E>(b.bytes()),
            ).map_values(
                |s: Seq<u8>|
                    (
                        crate::index::tail_key::<E::A>(
                            s,
                            crate::junction::head_len::<E::A>(E::a_fields()),
                        ),
                        crate::junction::head_len::<E::A>(E::a_fields()),
                    ),
            ),
    {
        let head = E::a_head();
        let taken: usize = head_width::<E::A>(&head);
        let list = self.reverse_raw(b);
        let ghost all = crate::engine::storage::prefix_suffixes(
            self.store.contents(),
            crate::edge::reverse_front::<E>(b.bytes()),
        );
        let ghost f = |s: Seq<u8>|
            (crate::index::tail_key::<E::A>(s, taken as nat), taken as nat);
        let mut out: Vec<PrefixKey<E::A>> = Vec::new();
        let mut i: usize = 0;
        assert(crate::index::prefix_key_views(out@) =~= all.take(0).map_values(f));
        while i < list.len()
            invariant
                i <= list@.len() == all.len(),
                all == crate::engine::storage::views(list@),
                taken <= <E::A as KeyEncode>::KEY_LEN,
                forall|j: int| 0 <= j < all.len() ==> (#[trigger] all[j]).len() == taken,
                f == (|s: Seq<u8>|
                    (crate::index::tail_key::<E::A>(s, taken as nat), taken as nat)),
                crate::index::prefix_key_views(out@) == all.take(i as int).map_values(f),
            decreases list@.len() - i,
        {
            let ghost before = crate::index::prefix_key_views(out@);
            assert(all[i as int] == list@[i as int]@);
            let k = decode_tail::<E::A>(list[i].as_slice(), taken);
            let ghost kv = (k.decoded.bytes(), k.taken as nat);
            out.push(k);
            proof {
                assert(kv == f(all[i as int]));
                assert(crate::index::prefix_key_views(out@) =~= before.push(kv));
                assert(all.take(i + 1) =~= all.take(i as int).push(all[i as int]));
                assert(all.take(i + 1).map_values(f) =~= before.push(kv));
            }
            i = i + 1;
        }
        assert(all.take(i as int) =~= all);
        out
    }
}

/// What was linked is found from both ends.
pub proof fn law_link_is_found<E: KvEdge>(
    m: crate::engine::storage::Contents,
    a: Seq<u8>,
    b: Seq<u8>,
)
    requires
        m.dom().finite(),
    ensures
        ({
            let m2 = m.insert(crate::edge::forward_entry::<E>(a, b), Seq::empty()).insert(crate::edge::reverse_entry::<E>(a, b), Seq::empty());
            &&& crate::engine::storage::prefix_suffixes(m2, crate::edge::forward_front::<E>(a)).contains(
                crate::junction::head_of::<E::B>(b, E::b_fields()),
            )
            &&& crate::engine::storage::prefix_suffixes(m2, crate::edge::reverse_front::<E>(b)).contains(
                crate::junction::head_of::<E::A>(a, E::a_fields()),
            )
        }),
{
    let m2 = m.insert(crate::edge::forward_entry::<E>(a, b), Seq::empty()).insert(crate::edge::reverse_entry::<E>(a, b), Seq::empty());
    crate::rows::lemma_suffix_found(
        m2,
        crate::edge::forward_front::<E>(a),
        crate::junction::head_of::<E::B>(b, E::b_fields()),
    );
    crate::rows::lemma_suffix_found(
        m2,
        crate::edge::reverse_front::<E>(b),
        crate::junction::head_of::<E::A>(a, E::a_fields()),
    );
}

/// Unlinking undoes linking, where there was no link before.
pub proof fn law_unlink_undoes_link<E: KvEdge>(
    m: crate::engine::storage::Contents,
    a: Seq<u8>,
    b: Seq<u8>,
)
    requires
        !m.dom().contains(crate::edge::forward_entry::<E>(a, b)),
        !m.dom().contains(crate::edge::reverse_entry::<E>(a, b)),
    ensures
        m.insert(crate::edge::forward_entry::<E>(a, b), Seq::empty()).insert(crate::edge::reverse_entry::<E>(a, b), Seq::empty()).remove(
            crate::edge::forward_entry::<E>(a, b),
        ).remove(crate::edge::reverse_entry::<E>(a, b)) == m,
{
    let x = crate::edge::forward_entry::<E>(a, b);
    let y = crate::edge::reverse_entry::<E>(a, b);
    assert(m.insert(x, Seq::empty()).insert(y, Seq::empty()).remove(x).remove(y) =~= m);
}

/// What links made and undone leave of a table.
pub open spec fn edge_history<E: KvEdge>(
    m: crate::engine::storage::Contents,
    calls: Seq<crate::rows::LinkCall>,
) -> crate::engine::storage::Contents
    decreases calls.len(),
{
    if calls.len() == 0 {
        m
    } else {
        let c = calls.last();
        let before = edge_history::<E>(m, calls.drop_last());
        let x = crate::edge::forward_entry::<E>(c.a, c.b);
        let y = crate::edge::reverse_entry::<E>(c.a, c.b);
        if c.made {
            before.insert(x, Seq::empty()).insert(y, Seq::empty())
        } else {
            before.remove(x).remove(y)
        }
    }
}

proof fn lemma_edge_history<E: KvEdge>(
    m: crate::engine::storage::Contents,
    calls: Seq<crate::rows::LinkCall>,
)
    requires
        E::a_fields().len() == 0,
        E::b_fields().len() == 0,
    ensures
        edge_history::<E>(m, calls) == crate::rows::pair_history(
            m,
            crate::edge::direction_head(E::NS, false),
            crate::edge::direction_head(E::NS, true),
            calls,
        ),
    decreases calls.len(),
{
    if calls.len() > 0 {
        lemma_edge_history::<E>(m, calls.drop_last());
    }
}

/// Where the edges of a namespace came from links made and undone alone,
/// and hold whole keys, the partners of a key at either end are exactly
/// those linked to it and not unlinked since, each once, in the order of
/// their stored forms. They read back as they were linked.
pub proof fn law_partners_over_history<E: KvEdge>(
    m: crate::engine::storage::Contents,
    calls: Seq<crate::rows::LinkCall>,
    a: Seq<u8>,
    b: Seq<u8>,
)
    requires
        m.dom().finite(),
        E::a_fields().len() == 0,
        E::b_fields().len() == 0,
        crate::rows::none_behind(m, crate::edge::direction_head(E::NS, false)),
        crate::rows::none_behind(m, crate::edge::direction_head(E::NS, true)),
        crate::rows::widths(
            calls,
            <E::A as KeyEncode>::KEY_LEN as nat,
            <E::B as KeyEncode>::KEY_LEN as nat,
        ),
        forall|i: int|
            0 <= i < calls.len() ==> <E::A as KeyEncode>::canon((#[trigger] calls[i]).a)
                == calls[i].a && <E::B as KeyEncode>::canon(calls[i].b) == calls[i].b,
        a.len() == <E::A as KeyEncode>::KEY_LEN,
        b.len() == <E::B as KeyEncode>::KEY_LEN,
    ensures
        ({
            let after = edge_history::<E>(m, calls);
            let p = crate::edge::forward_front::<E>(a);
            let q = crate::edge::reverse_front::<E>(b);
            let from_a = crate::engine::storage::prefix_suffixes(after, p);
            let from_b = crate::engine::storage::prefix_suffixes(after, q);
            &&& crate::rows::partners_of(from_a, calls, a, true)
            &&& crate::rows::partners_of(from_b, calls, b, false)
            &&& crate::rows::suffixes_have(after, p, <E::B as KeyEncode>::KEY_LEN as nat)
            &&& crate::rows::suffixes_have(after, q, <E::A as KeyEncode>::KEY_LEN as nat)
            &&& from_a.map_values(|s: Seq<u8>| <E::B as KeyEncode>::canon(s)) == from_a
            &&& from_b.map_values(|s: Seq<u8>| <E::A as KeyEncode>::canon(s)) == from_b
        }),
{
    let p = crate::edge::direction_head(E::NS, false);
    let q = crate::edge::direction_head(E::NS, true);
    let after = edge_history::<E>(m, calls);
    let from_a = crate::engine::storage::prefix_suffixes(
        after,
        crate::edge::forward_front::<E>(a),
    );
    let from_b = crate::engine::storage::prefix_suffixes(
        after,
        crate::edge::reverse_front::<E>(b),
    );
    let x = (E::NS % 0x8000) as nat;
    let y = (E::NS % 0x8000 + 0x8000) as nat;
    crate::bytes::lemma_pow256_small();
    crate::bytes::lemma_be_bytes_len(x, 2);
    crate::bytes::lemma_be_bytes_len(y, 2);
    assert(p != q) by {
        if p == q {
            crate::bytes::lemma_be_injective(x, y, 2);
        }
    }
    assert(p.subrange(0, 2) =~= p);
    assert(q.subrange(0, 2) =~= q);
    lemma_edge_history::<E>(m, calls);
    crate::rows::lemma_history_partners(
        m,
        p,
        q,
        calls,
        <E::A as KeyEncode>::KEY_LEN as nat,
        <E::B as KeyEncode>::KEY_LEN as nat,
        a,
        b,
    );
    assert forall|i: int| 0 <= i < from_a.len() implies <E::B as KeyEncode>::canon(
        #[trigger] from_a[i],
    ) == from_a[i] by {
        assert(from_a.contains(from_a[i]));
        crate::rows::lemma_live_call(calls, a, from_a[i]);
    }
    assert forall|i: int| 0 <= i < from_b.len() implies <E::A as KeyEncode>::canon(
        #[trigger] from_b[i],
    ) == from_b[i] by {
        assert(from_b.contains(from_b[i]));
        crate::rows::lemma_live_call(calls, from_b[i], b);
    }
    assert(from_a.map_values(|s: Seq<u8>| <E::B as KeyEncode>::canon(s)) =~= from_a);
    assert(from_b.map_values(|s: Seq<u8>| <E::A as KeyEncode>::canon(s)) =~= from_b);
}

} // verus!
