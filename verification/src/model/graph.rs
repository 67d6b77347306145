//! Graph edges: facts with an identity of their own between any two nodes,
//! with a kind, attributes and parallel edges.
//!
//! Keys inside the edge namespace, by slot:
//!
//! ```text
//! primary      [edge id u64 BE]                → edge body
//! kind         [kind id u16 BE][edge id]
//! out          [source reference][edge id]
//! in           [target reference][edge id]
//! kind + out   [kind id][source reference][edge id]
//! kind + in    [kind id][target reference][edge id]
//! ```
//!
//! Kind names have their numbers from the dictionary of the namespace. A
//! declared attribute adds a key `[value][edge id]` in a slot of its own. The
//! edge body is `[source][target][kind id u16 BE][attributes]`.

use vstd::prelude::*;
use vstd::string::StringExecFns;

use crate::bytes::{be_vec, push_be, read_be, slice_from, to_vec};
use crate::engine::storage::{MemBatch, VirtualStorage};
use crate::model::index::{make_key, Slot, DICT_ID_SLOT, DICT_NAME_SLOT, PRIMARY_SLOT};
use crate::model::obj_dict::DictCache;
use crate::text::decimal_string;
use crate::wrappers::wire::{put_len, take_len};

verus! {

/// Edges by kind.
pub const EDGE_KIND_INDEX_SLOT: Slot = 0x4001;

/// Edges by source.
pub const EDGE_OUT_SLOT: Slot = 0x5001;

/// Edges by target.
pub const EDGE_IN_SLOT: Slot = 0x6001;

/// Edges by kind and source.
pub const EDGE_KIND_OUT_SLOT: Slot = 0x7001;

/// Edges by kind and target.
pub const EDGE_KIND_IN_SLOT: Slot = 0x8001;

/// Reference to a node: the namespace of its collection and its key. The
/// stored form `[namespace 2 bytes][key length varint][key]` tells where it
/// ends.
#[derive(Clone, Debug, PartialEq, Eq, Hash, PartialOrd, Ord)]
pub struct NodeRef {
    pub ns: [u8; 2],
    pub pkey: Vec<u8>,
}

/// A node reference as a mathematical value.
#[verifier::ext_equal]
pub struct NodeView {
    pub ns: Seq<u8>,
    pub pkey: Seq<u8>,
}

impl View for NodeRef {
    type V = NodeView;

    open spec fn view(&self) -> NodeView {
        NodeView { ns: self.ns@, pkey: self.pkey@ }
    }
}

/// The stored form of a reference.
pub open spec fn ref_bytes(n: NodeView) -> Seq<u8> {
    n.ns + crate::wrappers::wire::wire_bytes(n.pkey.len()) + n.pkey
}

/// The reference at the front of `b` and its length. `None` when `b` ends
/// before it does.
pub open spec fn read_ref(b: Seq<u8>) -> Option<(NodeView, nat)> {
    if b.len() < 3 {
        None
    } else {
        match crate::wrappers::wire::wire_value(b.skip(2)) {
            None => None,
            Some((len, w)) => if 2 + w + len <= b.len() {
                Some(
                    (
                        NodeView {
                            ns: b.subrange(0, 2),
                            pkey: b.subrange((2 + w) as int, (2 + w + len) as int),
                        },
                        2 + w + len,
                    ),
                )
            } else {
                None
            },
        }
    }
}

/// A reference has a two-byte namespace and a key of a 64-bit length.
pub open spec fn ref_ok(n: NodeView) -> bool {
    n.ns.len() == 2 && n.pkey.len() <= u64::MAX
}

/// A reference reads back as written and takes exactly its bytes, whatever
/// follows.
pub proof fn law_ref_round_trip(n: NodeView, rest: Seq<u8>)
    requires
        ref_ok(n),
    ensures
        read_ref(ref_bytes(n) + rest) == Some((n, ref_bytes(n).len())),
{
    let b = ref_bytes(n) + rest;
    let wire = crate::wrappers::wire::wire_bytes(n.pkey.len());
    crate::wrappers::wire::law_wire_round_trip(n.pkey.len(), n.pkey + rest);
    let w = crate::wrappers::wire::wire_width(n.pkey.len());
    assert(b.skip(2) =~= wire + (n.pkey + rest));
    assert(b.subrange(0, 2) =~= n.ns);
    assert(b.subrange((2 + w) as int, (2 + w + n.pkey.len()) as int) =~= n.pkey);
}

/// References are told apart by their stored forms, whatever follows.
pub proof fn lemma_ref_injective(a: NodeView, b: NodeView, s: Seq<u8>, t: Seq<u8>)
    requires
        ref_ok(a),
        ref_ok(b),
        ref_bytes(a) + s == ref_bytes(b) + t,
    ensures
        a == b,
        s == t,
{
    law_ref_round_trip(a, s);
    law_ref_round_trip(b, t);
    crate::bytes::lemma_starts_with_concat(ref_bytes(a), s);
    crate::bytes::lemma_starts_with_concat(ref_bytes(b), t);
}

impl NodeRef {
    /// The reference to a key of a namespace.
    pub fn new(ns_prefix: &[u8], pkey: &[u8]) -> (r: Self)
        requires
            ns_prefix@.len() == 2,
        ensures
            r@ == (NodeView { ns: ns_prefix@, pkey: pkey@ }),
    {
        let r = NodeRef { ns: [ns_prefix[0], ns_prefix[1]], pkey: to_vec(pkey) };
        assert(r.ns@ =~= ns_prefix@);
        r
    }

    /// The two bytes of the namespace.
    pub fn ns_prefix(&self) -> (r: &[u8])
        ensures
            r@ == self@.ns,
    {
        self.ns.as_slice()
    }

    /// The number of the namespace.
    pub fn ns_id(&self) -> (r: u16)
        ensures
            r == crate::bytes::be_value(self@.ns),
    {
        proof {
            crate::bytes::lemma_be_value_round_trip(self.ns@);
            crate::bytes::lemma_pow256_small();
        }
        read_be(self.ns.as_slice()) as u16
    }

    /// A reference of its own to the same node.
    pub fn copy(&self) -> (r: Self)
        ensures
            r@ == self@,
    {
        NodeRef { ns: self.ns, pkey: to_vec(self.pkey.as_slice()) }
    }

    /// The stored form.
    pub fn encode(&self) -> (r: Vec<u8>)
        ensures
            r@ == ref_bytes(self@),
            ref_ok(self@),
    {
        let mut buf: Vec<u8> = Vec::new();
        buf.extend_from_slice(self.ns.as_slice());
        put_len(&mut buf, self.pkey.len());
        buf.extend_from_slice(self.pkey.as_slice());
        assert(buf@ =~= ref_bytes(self@));
        buf
    }

    /// The reference at the front of `wire` and the bytes it takes.
    pub fn decode(wire: &[u8]) -> (r: Option<(Self, usize)>)
        ensures
            match r {
                Some((n, total)) => read_ref(wire@) == Some((n@, total as nat)) && total
                    <= wire@.len(),
                None => read_ref(wire@) is None,
            },
    {
        let n: usize = wire.len();
        if n < 3 {
            return None;
        }
        proof {
            if crate::wrappers::wire::wire_value(wire@.skip(2)) is Some {
                crate::wrappers::wire::lemma_wire_value_bounds(wire@.skip(2));
            }
        }
        match take_len(slice_from(wire, 2)) {
            None => None,
            Some((len, w)) => {
                let start: usize = 2 + w;
                if len > n - start {
                    None
                } else {
                    let r = NodeRef {
                        ns: [wire[0], wire[1]],
                        pkey: to_vec(vstd::slice::slice_subrange(wire, start, start + len)),
                    };
                    assert(r.ns@ =~= wire@.subrange(0, 2));
                    Some((r, start + len))
                }
            },
        }
    }
}

/// One edge to be written: its ends, the name of its kind, its encoded
/// attributes.
#[derive(Clone, Debug)]
pub struct EdgeFact {
    pub src: NodeRef,
    pub dst: NodeRef,
    pub kind: String,
    pub attrs: Vec<u8>,
}

/// A stored edge. The kind is a number; the dictionary has its name.
#[derive(Clone, Debug)]
pub struct EdgeBody {
    pub src: NodeRef,
    pub dst: NodeRef,
    pub kind_id: u16,
    pub attrs: Vec<u8>,
}

/// A stored edge as a mathematical value.
#[verifier::ext_equal]
pub struct EdgeView {
    pub src: NodeView,
    pub dst: NodeView,
    pub kind_id: u16,
    pub attrs: Seq<u8>,
}

impl View for EdgeBody {
    type V = EdgeView;

    open spec fn view(&self) -> EdgeView {
        EdgeView { src: self.src@, dst: self.dst@, kind_id: self.kind_id, attrs: self.attrs@ }
    }
}

/// The stored form of an edge.
pub open spec fn edge_bytes(e: EdgeView) -> Seq<u8> {
    ref_bytes(e.src) + ref_bytes(e.dst) + crate::bytes::be_bytes(e.kind_id as nat, 2) + e.attrs
}

/// The edge that a body holds. `None` when it ends too early.
pub open spec fn read_edge(b: Seq<u8>) -> Option<EdgeView> {
    match read_ref(b) {
        None => None,
        Some((src, n)) => match read_ref(b.skip(n as int)) {
            None => None,
            Some((dst, m)) => if n + m + 2 <= b.len() {
                Some(
                    EdgeView {
                        src,
                        dst,
                        kind_id: crate::bytes::be_value(
                            b.subrange((n + m) as int, (n + m + 2) as int),
                        ) as u16,
                        attrs: b.skip((n + m + 2) as int),
                    },
                )
            } else {
                None
            },
        },
    }
}

/// An edge reads back as written.
pub proof fn law_edge_round_trip(e: EdgeView)
    requires
        ref_ok(e.src),
        ref_ok(e.dst),
    ensures
        read_edge(edge_bytes(e)) == Some(e),
{
    let b = edge_bytes(e);
    let s = ref_bytes(e.src);
    let d = ref_bytes(e.dst);
    let k = crate::bytes::be_bytes(e.kind_id as nat, 2);
    crate::bytes::lemma_be_bytes_len(e.kind_id as nat, 2);
    crate::bytes::lemma_pow256_small();
    crate::bytes::lemma_be_round_trip(e.kind_id as nat, 2);
    law_ref_round_trip(e.src, d + k + e.attrs);
    assert(b =~= s + (d + k + e.attrs));
    assert(b.skip(s.len() as int) =~= d + (k + e.attrs));
    law_ref_round_trip(e.dst, k + e.attrs);
    let n = (s.len() + d.len()) as int;
    assert(b.subrange(n, n + 2) =~= k);
    assert(b.skip(n + 2) =~= e.attrs);
}

/// The body of an edge whose kind has the number `kind_id`.
fn edge_body(fact: &EdgeFact, kind_id: u16) -> (r: Vec<u8>)
    ensures
        r@ == edge_bytes(
            EdgeView { src: fact.src@, dst: fact.dst@, kind_id, attrs: fact.attrs@ },
        ),
{
    let mut v: Vec<u8> = fact.src.encode();
    let mut d: Vec<u8> = fact.dst.encode();
    v.append(&mut d);
    push_be(&mut v, kind_id as u64, 2);
    v.extend_from_slice(fact.attrs.as_slice());
    v
}

/// The edge that a body holds.
fn decode_body(bytes: &[u8]) -> (r: EdgeBody)
    requires
        read_edge(bytes@) is Some,
    ensures
        read_edge(bytes@) == Some(r@),
{
    match NodeRef::decode(bytes) {
        Some((src, n1)) => {
            let rest = slice_from(bytes, n1);
            match NodeRef::decode(rest) {
                Some((dst, n2)) => {
                    let total: usize = bytes.len();
                    let at: usize = n1 + n2;
                    let kind = vstd::slice::slice_subrange(bytes, at, at + 2);
                    proof {
                        crate::bytes::lemma_be_value_round_trip(kind@);
                        crate::bytes::lemma_pow256_small();
                    }
                    EdgeBody {
                        src,
                        dst,
                        kind_id: read_be(kind) as u16,
                        attrs: to_vec(slice_from(bytes, at + 2)),
                    }
                },
                None => vstd::pervasive::unreached(),
            }
        },
        None => vstd::pervasive::unreached(),
    }
}

/// A slot that declared attributes may use.
pub open spec fn attr_slot(slot: Slot) -> bool {
    0x1000 <= slot < 0x2000
}

/// A kind of graph: the namespace of its edges and their declared
/// attributes.
pub trait KvGraph: Sized {
    /// The two bytes of the edge namespace.
    const NS_PREFIX: [u8; 2];

    /// The encoded attributes of the edge.
    fn attrs(&self) -> Vec<u8>;

    /// Slot and value of each declared attribute.
    spec fn faces(&self, edge_id: u64) -> Seq<(Slot, Seq<u8>)>;

    /// The slots of the declared attributes.
    spec fn slots() -> Seq<Slot>;

    /// Slot and value of each declared attribute.
    fn attr_faces(&self, edge_id: u64) -> (r: Vec<(Slot, Vec<u8>)>)
        ensures
            r@.map_values(|f: (Slot, Vec<u8>)| (f.0, f.1@)) == self.faces(edge_id),
            forall|i: int|
                0 <= i < self.faces(edge_id).len() ==> attr_slot(
                    (#[trigger] self.faces(edge_id)[i]).0,
                ),
    ;

    /// The slots of the declared attributes, in order of declaration.
    fn attr_slots() -> (r: Vec<Slot>)
        ensures
            r@ == Self::slots(),
            forall|i: int| 0 <= i < r@.len() ==> attr_slot(#[trigger] r@[i]),
    ;
}

/// The stored form of an edge id.
pub open spec fn edge_id_bytes(id: u64) -> Seq<u8> {
    crate::bytes::be_bytes(id as nat, 8)
}

/// The stored form of a kind id.
pub open spec fn kind_bytes(id: u16) -> Seq<u8> {
    crate::bytes::be_bytes(id as nat, 2)
}

/// The key of an edge's body.
pub open spec fn edge_key(ns: Seq<u8>, id: u64) -> Seq<u8> {
    crate::model::index::slot_key(ns, PRIMARY_SLOT, edge_id_bytes(id))
}

/// The front of the keys of a slot that go on with `lead`.
pub open spec fn face_prefix(ns: Seq<u8>, slot: Slot, lead: Seq<u8>) -> Seq<u8> {
    crate::model::index::slot_key(ns, slot, lead)
}

/// The key of an edge in a slot.
pub open spec fn face_key(ns: Seq<u8>, slot: Slot, lead: Seq<u8>, id: u64) -> Seq<u8> {
    crate::model::index::slot_key(ns, slot, lead + edge_id_bytes(id))
}

/// The keys of an edge: its body and one per index.
pub open spec fn edge_keys(ns: Seq<u8>, e: EdgeView, id: u64) -> Seq<Seq<u8>> {
    let src = ref_bytes(e.src);
    let dst = ref_bytes(e.dst);
    let kind = kind_bytes(e.kind_id);
    seq![
        edge_key(ns, id),
        face_key(ns, EDGE_KIND_INDEX_SLOT, kind, id),
        face_key(ns, EDGE_OUT_SLOT, src, id),
        face_key(ns, EDGE_IN_SLOT, dst, id),
        face_key(ns, EDGE_KIND_OUT_SLOT, kind + src, id),
        face_key(ns, EDGE_KIND_IN_SLOT, kind + dst, id),
    ]
}

/// The write of an empty value under each key.
pub open spec fn index_writes(keys: Seq<Seq<u8>>) -> Seq<(Seq<u8>, Option<Seq<u8>>)> {
    keys.map_values(|k: Seq<u8>| (k, Some(Seq::<u8>::empty())))
}

/// The keys of the declared attributes of an edge.
pub open spec fn attr_keys(ns: Seq<u8>, faces: Seq<(Slot, Seq<u8>)>, id: u64) -> Seq<Seq<u8>> {
    faces.map_values(|f: (Slot, Seq<u8>)| face_key(ns, f.0, f.1, id))
}

/// The writes that store an edge.
pub open spec fn link_writes(
    ns: Seq<u8>,
    e: EdgeView,
    faces: Seq<(Slot, Seq<u8>)>,
    id: u64,
) -> Seq<(Seq<u8>, Option<Seq<u8>>)> {
    seq![(edge_key(ns, id), Some(edge_bytes(e)))] + index_writes(edge_keys(ns, e, id).skip(1))
        + index_writes(attr_keys(ns, faces, id))
}

/// A stored key of an attribute slot whose edge id is `id`.
pub open spec fn attr_entry(ns: Seq<u8>, slots: Seq<Slot>, id: u64, k: Seq<u8>) -> bool {
    exists|i: int| #[trigger] attr_entry_at(ns, slots, id, k, i)
}

/// `k` belongs to slot number `i` and its edge id is `id`.
pub open spec fn attr_entry_at(ns: Seq<u8>, slots: Seq<Slot>, id: u64, k: Seq<u8>, i: int) -> bool {
    &&& 0 <= i < slots.len()
    &&& crate::bytes::starts_with(k, face_prefix(ns, slots[i], Seq::empty()))
    &&& crate::bytes::ends_with(
        k.skip(face_prefix(ns, slots[i], Seq::empty()).len() as int),
        edge_id_bytes(id),
    )
}

/// The keys that go when an edge does: its own, and every attribute key
/// that ends in its id.
pub open spec fn unlink_keys(ns: Seq<u8>, e: EdgeView, slots: Seq<Slot>, id: u64) -> Set<Seq<u8>> {
    Set::new(|k: Seq<u8>| edge_keys(ns, e, id).contains(k) || attr_entry(ns, slots, id, k))
}

/// Every stored edge has a body that can be read.
pub open spec fn bodies_ok(m: crate::engine::storage::Contents, ns: Seq<u8>) -> bool {
    forall|id: u64| #[trigger]
        m.dom().contains(edge_key(ns, id)) ==> read_edge(m[edge_key(ns, id)]) is Some
}

/// `ids` are, in ascending order, the ids of the edges under a key front.
pub open spec fn ids_under(
    m: crate::engine::storage::Contents,
    prefix: Seq<u8>,
    ids: Seq<u64>,
) -> bool {
    &&& forall|i: int, j: int| 0 <= i < j < ids.len() ==> ids[i] < ids[j]
    &&& forall|id: u64| #[trigger]
        ids.contains(id) <==> m.dom().contains(prefix + edge_id_bytes(id))
}

/// The far ends of the edges of a list that are stored.
pub open spec fn far_ends(
    m: crate::engine::storage::Contents,
    ns: Seq<u8>,
    ids: Seq<u64>,
    target: bool,
) -> Seq<NodeView>
    decreases ids.len(),
{
    if ids.len() == 0 {
        Seq::empty()
    } else {
        let before = far_ends(m, ns, ids.drop_last(), target);
        let k = edge_key(ns, ids.last());
        if m.dom().contains(k) {
            let e = read_edge(m[k])->0;
            before.push(
                if target {
                    e.dst
                } else {
                    e.src
                },
            )
        } else {
            before
        }
    }
}

/// The nodes that a list of references stands for.
pub open spec fn node_views(v: Seq<NodeRef>) -> Seq<NodeView> {
    v.map_values(|n: NodeRef| n@)
}

/// The answer to linking an id that is taken.
pub open spec fn live_message(id: u64) -> Seq<char> {
    "edge_id "@ + crate::text::decimal(id as nat) + " already live"@
}

/// The answer to unlinking an id that is not stored.
pub open spec fn missing_message(id: u64) -> Seq<char> {
    "unlink: edge_id "@ + crate::text::decimal(id as nat) + " not found"@
}

/// Deletes only: what remains are the other keys.
proof fn lemma_deletes(
    m: crate::engine::storage::Contents,
    keys: Seq<Seq<u8>>,
    ops: Seq<(Seq<u8>, Option<Seq<u8>>)>,
)
    requires
        ops == keys.map_values(|k: Seq<u8>| (k, None::<Seq<u8>>)),
    ensures
        crate::engine::storage::apply_ops(m, ops) == m.remove_keys(keys.to_set()),
    decreases keys.len(),
{
    if keys.len() == 0 {
        assert(m.remove_keys(keys.to_set()) =~= m);
    } else {
        let init = keys.drop_last();
        assert(ops.drop_last() =~= init.map_values(|k: Seq<u8>| (k, None::<Seq<u8>>)));
        lemma_deletes(m, init, ops.drop_last());
        let a = m.remove_keys(init.to_set()).remove(keys.last());
        let b = m.remove_keys(keys.to_set());
        assert forall|k: Seq<u8>| keys.to_set().contains(k) <==> init.to_set().contains(k) || k
            == keys.last() by {
            if keys.contains(k) {
                let i = choose|i: int| 0 <= i < keys.len() && keys[i] == k;
                if i < init.len() {
                    assert(init[i] == k);
                }
            }
            if init.contains(k) {
                let i = choose|i: int| 0 <= i < init.len() && init[i] == k;
                assert(keys[i] == k);
            }
            assert(keys[keys.len() - 1] == keys.last());
        }
        assert(a =~= b);
    }
}

/// An engine with a kind of graph: the operations on its edges.
pub struct Graph<S: VirtualStorage, E: KvGraph> {
    store: S,
    dict: DictCache,
    marker: std::marker::PhantomData<E>,
}

impl<S: VirtualStorage, E: KvGraph> Graph<S, E> {
    /// What the engine holds.
    pub closed spec fn contents(&self) -> crate::engine::storage::Contents {
        self.store.contents()
    }

    /// What is known of the kind names, and the engine.
    pub open spec fn state(&self) -> GraphView {
        GraphView { dict: self.dict(), store: self.contents() }
    }

    /// What is known of the kind names.
    pub closed spec fn dict(&self) -> crate::model::obj_dict::DictView {
        self.dict@
    }

    /// The edges on an engine.
    pub fn new(store: S) -> (r: Self)
        ensures
            r.contents() == store.contents(),
            r.dict() == crate::model::obj_dict::fresh_dict(),
    {
        Graph { store, dict: DictCache::new(), marker: std::marker::PhantomData }
    }

    /// The engine.
    pub fn store(&self) -> (r: &S)
        ensures
            r.contents() == self.contents(),
    {
        &self.store
    }

    fn primary_key(&self, edge_id: u64) -> (r: Vec<u8>)
        ensures
            r@ == edge_key(E::NS_PREFIX@, edge_id),
    {
        let ns: [u8; 2] = E::NS_PREFIX;
        let id = be_vec(edge_id, 8);
        make_key(ns.as_slice(), PRIMARY_SLOT, id.as_slice())
    }

    fn face_key(&self, slot: Slot, lead: &[u8], edge_id: u64) -> (r: Vec<u8>)
        ensures
            r@ == face_key(E::NS_PREFIX@, slot, lead@, edge_id),
    {
        let ns: [u8; 2] = E::NS_PREFIX;
        let mut rest: Vec<u8> = to_vec(lead);
        push_be(&mut rest, edge_id, 8);
        make_key(ns.as_slice(), slot, rest.as_slice())
    }

    fn face_prefix(&self, slot: Slot, lead: &[u8]) -> (r: Vec<u8>)
        ensures
            r@ == face_prefix(E::NS_PREFIX@, slot, lead@),
    {
        let ns: [u8; 2] = E::NS_PREFIX;
        make_key(ns.as_slice(), slot, lead)
    }

    /// The number of a kind, given on first sight.
    fn kind_id(&mut self, kind: &str) -> (r: u16)
        requires
            crate::model::obj_dict::resolvable(
                old(self).dict(),
                old(self).contents(),
                crate::model::obj_dict::home(E::NS_PREFIX@),
                kind@,
            ),
        ensures
            crate::model::obj_dict::resolved::<S>(
                old(self).dict(),
                old(self).contents(),
                crate::model::obj_dict::home(E::NS_PREFIX@),
                kind@,
                final(self).dict(),
                final(self).contents(),
            ),
            r == final(self).dict().names[kind@],
    {
        let ns: [u8; 2] = E::NS_PREFIX;
        self.dict.id_for(&mut self.store, ns.as_slice(), kind)
    }

    /// The name of a kind.
    pub fn kind_name(&mut self, id: u16) -> (r: Option<String>)
        ensures
            final(self).contents() == old(self).contents(),
            crate::model::obj_dict::looked_up(
                old(self).dict(),
                old(self).contents(),
                crate::model::obj_dict::home(E::NS_PREFIX@),
                id,
                r,
                final(self).dict(),
            ),
    {
        let ns: [u8; 2] = E::NS_PREFIX;
        self.dict.name_for(&self.store, ns.as_slice(), id)
    }

    /// Adds the writes that store an edge to a batch.
    fn put_edge(&self, batch: &mut MemBatch, fact: &EdgeFact, kind_id: u16, edge: &E, edge_id: u64)
        ensures
            final(batch)@ == old(batch)@ + link_writes(
                E::NS_PREFIX@,
                EdgeView { src: fact.src@, dst: fact.dst@, kind_id, attrs: fact.attrs@ },
                edge.faces(edge_id),
                edge_id,
            ),
            ref_ok(fact.src@),
            ref_ok(fact.dst@),
            forall|i: int|
                0 <= i < edge.faces(edge_id).len() ==> attr_slot(
                    (#[trigger] edge.faces(edge_id)[i]).0,
                ),
    {
        let ghost ns = E::NS_PREFIX@;
        let ghost e = EdgeView { src: fact.src@, dst: fact.dst@, kind_id, attrs: fact.attrs@ };
        let ghost start = batch@;
        let src = fact.src.encode();
        let dst = fact.dst.encode();
        let kind = be_vec(kind_id as u64, 2);
        let kind_src = crate::bytes::concat(kind.as_slice(), src.as_slice());
        let kind_dst = crate::bytes::concat(kind.as_slice(), dst.as_slice());
        batch.put(self.primary_key(edge_id), edge_body(fact, kind_id));
        batch.put(self.face_key(EDGE_KIND_INDEX_SLOT, kind.as_slice(), edge_id), Vec::new());
        batch.put(self.face_key(EDGE_OUT_SLOT, src.as_slice(), edge_id), Vec::new());
        batch.put(self.face_key(EDGE_IN_SLOT, dst.as_slice(), edge_id), Vec::new());
        batch.put(self.face_key(EDGE_KIND_OUT_SLOT, kind_src.as_slice(), edge_id), Vec::new());
        batch.put(self.face_key(EDGE_KIND_IN_SLOT, kind_dst.as_slice(), edge_id), Vec::new());
        let ghost own = seq![(edge_key(ns, edge_id), Some(edge_bytes(e)))] + index_writes(
            edge_keys(ns, e, edge_id).skip(1),
        );
        let ghost keys = edge_keys(ns, e, edge_id).skip(1);
        assert(keys =~= seq![
            face_key(ns, EDGE_KIND_INDEX_SLOT, kind@, edge_id),
            face_key(ns, EDGE_OUT_SLOT, src@, edge_id),
            face_key(ns, EDGE_IN_SLOT, dst@, edge_id),
            face_key(ns, EDGE_KIND_OUT_SLOT, kind@ + src@, edge_id),
            face_key(ns, EDGE_KIND_IN_SLOT, kind@ + dst@, edge_id),
        ]);
        assert(batch@ =~= start + own);
        let faces = edge.attr_faces(edge_id);
        let ghost fv = edge.faces(edge_id);
        let mut i: usize = 0;
        assert(batch@ =~= start + own + index_writes(attr_keys(ns, fv.take(0), edge_id)));
        while i < faces.len()
            invariant
                i <= faces@.len(),
                ns == E::NS_PREFIX@,
                fv == faces@.map_values(|f: (Slot, Vec<u8>)| (f.0, f.1@)),
                batch@ == start + own + index_writes(attr_keys(ns, fv.take(i as int), edge_id)),
            decreases faces@.len() - i,
        {
            let ghost before = batch@;
            batch.put(self.face_key(faces[i].0, faces[i].1.as_slice(), edge_id), Vec::new());
            proof {
                let f = fv[i as int];
                assert(fv.take(i + 1) =~= fv.take(i as int).push(f));
                assert(attr_keys(ns, fv.take(i + 1), edge_id) =~= attr_keys(
                    ns,
                    fv.take(i as int),
                    edge_id,
                ).push(face_key(ns, f.0, f.1, edge_id)));
                assert(batch@ =~= start + own + index_writes(
                    attr_keys(ns, fv.take(i + 1), edge_id),
                ));
            }
            i = i + 1;
        }
        assert(fv.take(i as int) =~= fv);
        assert(batch@ =~= start + link_writes(ns, e, fv, edge_id));
    }
}

/// A message that begins with `what`.
pub open spec fn message_begins(msg: Seq<char>, what: Seq<char>) -> bool {
    exists|rest: Seq<char>| msg == #[trigger] (what + rest)
}

/// `what` and then `e`.
fn failed(what: &str, e: String) -> (r: String)
    ensures
        message_begins(r@, what@),
{
    let mut s = String::from_str(what);
    s.append(e.as_str());
    assert(s@ == what@ + e@);
    s
}

/// A number between two texts.
fn numbered(before: &str, n: u64, after: &str) -> (r: String)
    ensures
        r@ == before@ + crate::text::decimal(n as nat) + after@,
{
    let mut s = String::from_str(before);
    let d = decimal_string(n);
    s.append(d.as_str());
    s.append(after);
    s
}

/// The keys of different slots of one namespace differ.
proof fn lemma_faces_apart(ns: Seq<u8>, s: Slot, t: Slot, a: Seq<u8>, b: Seq<u8>)
    requires
        s != t,
    ensures
        crate::model::index::slot_key(ns, s, a) != crate::model::index::slot_key(ns, t, b),
{
    crate::model::index::lemma_slot_key(ns, s, t, a, b);
}

/// Edge ids are told apart by their stored forms.
proof fn lemma_edge_id_bytes(a: u64, b: u64)
    ensures
        edge_id_bytes(a).len() == 8,
        edge_id_bytes(a) == edge_id_bytes(b) <==> a == b,
        crate::bytes::be_value(edge_id_bytes(a)) == a,
{
    crate::bytes::lemma_be_bytes_len(a as nat, 8);
    crate::bytes::lemma_pow256_small();
    crate::bytes::lemma_be_round_trip(a as nat, 8);
    if edge_id_bytes(a) == edge_id_bytes(b) {
        crate::bytes::lemma_be_injective(a as nat, b as nat, 8);
    }
}

/// Behind the body, no write of an edge touches a primary key.
proof fn lemma_link_writes_primary(
    ns: Seq<u8>,
    e: EdgeView,
    faces: Seq<(Slot, Seq<u8>)>,
    id: u64,
    other: u64,
)
    requires
        forall|i: int| 0 <= i < faces.len() ==> attr_slot((#[trigger] faces[i]).0),
    ensures
        ({
            let w = link_writes(ns, e, faces, id);
            &&& w[0] == (edge_key(ns, id), Some(edge_bytes(e)))
            &&& forall|i: int| 1 <= i < w.len() ==> (#[trigger] w[i]).0 != edge_key(ns, other)
            &&& other != id ==> w[0].0 != edge_key(ns, other)
        }),
{
    let w = link_writes(ns, e, faces, id);
    let keys = edge_keys(ns, e, id);
    let k = edge_key(ns, other);
    let src = ref_bytes(e.src);
    let dst = ref_bytes(e.dst);
    let kind = kind_bytes(e.kind_id);
    let x = edge_id_bytes(other);
    let y = edge_id_bytes(id);
    lemma_faces_apart(ns, EDGE_KIND_INDEX_SLOT, PRIMARY_SLOT, kind + y, x);
    lemma_faces_apart(ns, EDGE_OUT_SLOT, PRIMARY_SLOT, src + y, x);
    lemma_faces_apart(ns, EDGE_IN_SLOT, PRIMARY_SLOT, dst + y, x);
    lemma_faces_apart(ns, EDGE_KIND_OUT_SLOT, PRIMARY_SLOT, kind + src + y, x);
    lemma_faces_apart(ns, EDGE_KIND_IN_SLOT, PRIMARY_SLOT, kind + dst + y, x);
    assert forall|i: int| 1 <= i < w.len() implies (#[trigger] w[i]).0 != k by {
        if i < 6 {
            assert(w[i].0 == keys[i]);
        } else {
            let f = faces[i - 6];
            assert(w[i].0 == face_key(ns, f.0, f.1, id));
            assert(attr_slot(f.0));
            lemma_faces_apart(ns, f.0, PRIMARY_SLOT, f.1 + y, x);
        }
    }
    crate::model::index::lemma_slot_key(ns, PRIMARY_SLOT, PRIMARY_SLOT, x, y);
    lemma_edge_id_bytes(other, id);
}

/// Storing an edge keeps every stored body readable.
pub proof fn law_link_keeps_bodies(
    m: crate::engine::storage::Contents,
    ns: Seq<u8>,
    e: EdgeView,
    faces: Seq<(Slot, Seq<u8>)>,
    id: u64,
)
    requires
        bodies_ok(m, ns),
        ref_ok(e.src),
        ref_ok(e.dst),
        forall|i: int| 0 <= i < faces.len() ==> attr_slot((#[trigger] faces[i]).0),
    ensures
        bodies_ok(crate::engine::storage::apply_ops(m, link_writes(ns, e, faces, id)), ns),
{
    let w = link_writes(ns, e, faces, id);
    let after = crate::engine::storage::apply_ops(m, w);
    assert forall|other: u64| #[trigger] after.dom().contains(edge_key(ns, other)) implies read_edge(
        after[edge_key(ns, other)],
    ) is Some by {
        lemma_link_writes_primary(ns, e, faces, id, other);
        if other == id {
            crate::engine::storage::lemma_ops_last(m, w, edge_key(ns, id), 0);
            law_edge_round_trip(e);
        } else {
            crate::engine::storage::lemma_ops_untouched(m, w, edge_key(ns, other));
            assert(m.dom().contains(edge_key(ns, other)));
        }
    }
}

/// Numbering a kind keeps every stored body as it is.
proof fn lemma_dict_keeps_edges(
    m: crate::engine::storage::Contents,
    ns: Seq<u8>,
    name: Seq<char>,
    kind: u16,
    id: u64,
)
    ensures
        crate::engine::storage::same_at(
            crate::engine::storage::apply_ops(
                m,
                crate::model::obj_dict::dict_writes(
                    crate::model::obj_dict::home(ns),
                    name,
                    kind,
                ),
            ),
            m,
            edge_key(ns, id),
        ),
{
    let w = crate::model::obj_dict::dict_writes(crate::model::obj_dict::home(ns), name, kind);
    let k = edge_key(ns, id);
    let x = edge_id_bytes(id);
    lemma_faces_apart(
        ns,
        crate::model::index::DICT_ID_SLOT,
        PRIMARY_SLOT,
        crate::bytes::be_bytes(kind as nat, 2),
        x,
    );
    lemma_faces_apart(
        ns,
        crate::model::index::DICT_NAME_SLOT,
        PRIMARY_SLOT,
        vstd::utf8::encode_utf8(name),
        x,
    );
    let u = crate::bytes::be_bytes(kind as nat, 2);
    let v = vstd::utf8::encode_utf8(name);
    crate::model::index::lemma_slot_key(
        ns,
        crate::model::index::DICT_ID_SLOT,
        PRIMARY_SLOT,
        u,
        x,
    );
    crate::model::index::lemma_slot_key(
        ns,
        crate::model::index::DICT_NAME_SLOT,
        PRIMARY_SLOT,
        v,
        x,
    );
    assert forall|i: int| 0 <= i < w.len() implies (#[trigger] w[i]).0 != k by {
        assert(i == 0 || i == 1);
    }
    crate::engine::storage::lemma_ops_untouched(m, w, k);
}

/// Storing the number of a kind leaves the stored edges as they were.
proof fn lemma_named_keeps_edges(
    d: crate::model::obj_dict::DictView,
    m: crate::engine::storage::Contents,
    ns: Seq<u8>,
    name: Seq<char>,
)
    ensures
        ({
            let m2 = crate::engine::storage::apply_ops(
                m,
                crate::model::obj_dict::name_writes(crate::model::obj_dict::home(ns), d, name),
            );
            &&& forall|id: u64|
                crate::engine::storage::same_at(m2, m, #[trigger] edge_key(ns, id))
            &&& bodies_ok(m, ns) ==> bodies_ok(m2, ns)
        }),
{
    let m2 = crate::engine::storage::apply_ops(
        m,
        crate::model::obj_dict::name_writes(crate::model::obj_dict::home(ns), d, name),
    );
    assert forall|id: u64| crate::engine::storage::same_at(m2, m, #[trigger] edge_key(ns, id)) by {
        lemma_dict_keeps_edges(m, ns, name, d.next as u16, id);
    }
    if bodies_ok(m, ns) {
        assert forall|id: u64| #[trigger] m2.dom().contains(edge_key(ns, id)) implies read_edge(
            m2[edge_key(ns, id)],
        ) is Some by {
            assert(crate::engine::storage::same_at(m2, m, edge_key(ns, id)));
            assert(m.dom().contains(edge_key(ns, id)));
        }
    }
}

/// Whatever became of a kind name, the stored edges are as they were.
proof fn lemma_resolved_keeps_edges<S: VirtualStorage>(
    d: crate::model::obj_dict::DictView,
    m: crate::engine::storage::Contents,
    ns: Seq<u8>,
    name: Seq<char>,
    d2: crate::model::obj_dict::DictView,
    m2: crate::engine::storage::Contents,
)
    requires
        crate::model::obj_dict::resolved::<S>(d, m, crate::model::obj_dict::home(ns), name, d2, m2),
    ensures
        bodies_ok(m, ns) ==> bodies_ok(m2, ns),
{
    let h = crate::model::obj_dict::home(ns);
    lemma_named_keeps_edges(crate::model::obj_dict::load_dict(d, m, h), m, ns, name);
}

impl<S: VirtualStorage, E: KvGraph> Graph<S, E> {
    /// Every stored edge has a body that can be read.
    pub open spec fn wf(&self) -> bool {
        bodies_ok(self.contents(), E::NS_PREFIX@)
    }

    /// Stores an edge under an id of the caller's choice: its body, its
    /// index keys and those of its attributes and, on first sight of its
    /// kind, the kind's number, all in one batch. An id that is taken is
    /// refused. A batch that the engine refuses leaves everything as it was.
    pub fn link(&mut self, fact: &EdgeFact, edge: &E, edge_id: u64) -> (r: Result<(), String>)
        requires
            old(self).contents().dom().contains(edge_key(E::NS_PREFIX@, edge_id))
                || crate::model::obj_dict::resolvable(
                old(self).dict(),
                old(self).contents(),
                crate::model::obj_dict::home(E::NS_PREFIX@),
                fact.kind@,
            ),
        ensures
            old(self).wf() ==> final(self).wf(),
            old(self).contents().dom().contains(edge_key(E::NS_PREFIX@, edge_id)) ==> {
                &&& r matches Err(msg) && msg@ == live_message(edge_id)
                &&& final(self).contents() == old(self).contents()
                &&& final(self).dict() == old(self).dict()
            },
            !old(self).contents().dom().contains(edge_key(E::NS_PREFIX@, edge_id)) ==> {
                let h = crate::model::obj_dict::home(E::NS_PREFIX@);
                let known = crate::model::obj_dict::load_dict(
                    old(self).dict(),
                    old(self).contents(),
                    h,
                );
                let named = crate::model::obj_dict::with_name(known, fact.kind@);
                let e = EdgeView {
                    src: fact.src@,
                    dst: fact.dst@,
                    kind_id: named.names[fact.kind@],
                    attrs: fact.attrs@,
                };
                match r {
                    Ok(_) => {
                        &&& final(self).dict() == named
                        &&& final(self).contents() == crate::engine::storage::apply_ops(
                            old(self).contents(),
                            crate::model::obj_dict::name_writes(h, known, fact.kind@)
                                + link_writes(E::NS_PREFIX@, e, edge.faces(edge_id), edge_id),
                        )
                    },
                    Err(msg) => {
                        &&& !S::never_refuses()
                        &&& final(self).contents() == old(self).contents()
                        &&& final(self).dict() == known
                        &&& message_begins(msg@, "graph link commit failed: "@)
                    },
                }
            },
            r is Ok ==> linked(
                E::NS_PREFIX@,
                old(self).state(),
                final(self).state(),
                fact.kind@,
                EdgeView {
                    src: fact.src@,
                    dst: fact.dst@,
                    kind_id: final(self).dict().names[fact.kind@],
                    attrs: fact.attrs@,
                },
                edge.faces(edge_id),
                edge_id,
            ),
    {
        let ghost m0 = self.contents();
        let ghost ns = E::NS_PREFIX@;
        let ghost h = crate::model::obj_dict::home(ns);
        let pk = self.primary_key(edge_id);
        if self.store.get(pk.as_slice()).is_some() {
            return Err(numbered("edge_id ", edge_id, " already live"));
        }
        let prefix: [u8; 2] = E::NS_PREFIX;
        let ids = make_key(prefix.as_slice(), DICT_ID_SLOT, &[]);
        let names = make_key(prefix.as_slice(), DICT_NAME_SLOT, &[]);
        assert(crate::model::obj_dict::DictHome { ids: ids@, names: names@ } =~= h);
        self.dict.load_at(&self.store, ids.as_slice(), names.as_slice());
        let ghost known = self.dict();
        let mut batch = MemBatch::new();
        let kind_id: u16 = self.dict.stage_at(
            ids.as_slice(),
            names.as_slice(),
            fact.kind.as_str(),
            &mut batch,
        );
        let ghost first = crate::model::obj_dict::name_writes(h, known, fact.kind@);
        assert(batch@ =~= first);
        self.put_edge(&mut batch, fact, kind_id, edge, edge_id);
        let ghost e = EdgeView { src: fact.src@, dst: fact.dst@, kind_id, attrs: fact.attrs@ };
        let ghost w = link_writes(ns, e, edge.faces(edge_id), edge_id);
        proof {
            assert(batch@ =~= first + w);
            let mid = crate::engine::storage::apply_ops(m0, first);
            crate::engine::storage::lemma_apply_ops_concat(m0, first, w);
            lemma_named_keeps_edges(known, m0, ns, fact.kind@);
            if bodies_ok(m0, ns) {
                law_link_keeps_bodies(mid, ns, e, edge.faces(edge_id), edge_id);
            }
        }
        match self.store.commit_batch(batch) {
            Ok(_) => {
                self.dict.note(fact.kind.as_str());
                assert(linked(
                    ns,
                    old(self).state(),
                    self.state(),
                    fact.kind@,
                    e,
                    edge.faces(edge_id),
                    edge_id,
                ));
                Ok(())
            },
            Err(e) => Err(failed("graph link commit failed: ", e)),
        }
    }
}

/// The keys collected by the sweep of the attribute slots, up to slot `i`.
spec fn swept(
    m: crate::engine::storage::Contents,
    ns: Seq<u8>,
    slots: Seq<Slot>,
    id: u64,
    i: int,
    keys: Seq<Seq<u8>>,
) -> bool {
    forall|k: Seq<u8>, t: int|
        m.dom().contains(k) && t < i && #[trigger] attr_entry_at(ns, slots, id, k, t)
            ==> keys.contains(k)
}

/// The prefix scan of a slot holds every stored key of the slot.
proof fn lemma_slot_scan(m: crate::engine::storage::Contents, p: Seq<u8>, k: Seq<u8>)
    requires
        crate::engine::storage::is_listing(
            crate::engine::storage::prefix_keys(m, p),
            crate::engine::storage::prefix_set(m, p),
        ),
        m.dom().contains(k),
        crate::bytes::starts_with(k, p),
    ensures
        exists|j: int|
            0 <= j < crate::engine::storage::prefix_suffixes(m, p).len()
                && #[trigger] crate::engine::storage::prefix_suffixes(m, p)[j] == k.skip(
                p.len() as int,
            ),
{
    assert(crate::engine::storage::prefix_set(m, p).contains(k));
    let ks = crate::engine::storage::prefix_keys(m, p);
    let j = choose|j: int| 0 <= j < ks.len() && ks[j] == k;
    assert(crate::engine::storage::prefix_suffixes(m, p)[j] == k.skip(p.len() as int));
}

/// Whether `s` ends with `t`.
fn has_suffix(s: &[u8], t: &[u8]) -> (r: bool)
    ensures
        r == crate::bytes::ends_with(s@, t@),
{
    let n: usize = s.len();
    let k: usize = t.len();
    if n < k {
        return false;
    }
    let tail = vstd::slice::slice_subrange(s, n - k, n);
    crate::bytes::bytes_eq(tail, t)
}

impl<S: VirtualStorage, E: KvGraph> Graph<S, E> {
    /// Adds the writes that store an edge to a batch of the caller's, which
    /// may hold other writes that are to commit with it. The kind gets its
    /// number at once, on first sight.
    pub fn link_into(
        &mut self,
        batch: &mut MemBatch,
        fact: &EdgeFact,
        edge: &E,
        edge_id: u64,
    ) -> (r: Result<(), String>)
        requires
            crate::model::obj_dict::resolvable(
                old(self).dict(),
                old(self).contents(),
                crate::model::obj_dict::home(E::NS_PREFIX@),
                fact.kind@,
            ),
        ensures
            r is Ok,
            old(self).wf() ==> final(self).wf(),
            crate::model::obj_dict::resolved::<S>(
                old(self).dict(),
                old(self).contents(),
                crate::model::obj_dict::home(E::NS_PREFIX@),
                fact.kind@,
                final(self).dict(),
                final(self).contents(),
            ),
            final(batch)@ == old(batch)@ + link_writes(
                E::NS_PREFIX@,
                EdgeView {
                    src: fact.src@,
                    dst: fact.dst@,
                    kind_id: final(self).dict().names[fact.kind@],
                    attrs: fact.attrs@,
                },
                edge.faces(edge_id),
                edge_id,
            ),
    {
        let ghost d0 = self.dict();
        let ghost m0 = self.contents();
        let kind_id: u16 = self.kind_id(fact.kind.as_str());
        proof {
            lemma_resolved_keeps_edges::<S>(
                d0,
                m0,
                E::NS_PREFIX@,
                fact.kind@,
                self.dict(),
                self.contents(),
            );
        }
        self.put_edge(batch, fact, kind_id, edge, edge_id);
        Ok(())
    }

    /// Adds the deletion of every attribute key that ends in the id.
    fn sweep_attrs(&self, batch: &mut MemBatch, edge_id: u64) -> (keys: Ghost<Seq<Seq<u8>>>)
        ensures
            final(batch)@ == old(batch)@ + keys@.map_values(|k: Seq<u8>| (k, None::<Seq<u8>>)),
            forall|i: int|
                0 <= i < keys@.len() ==> attr_entry(
                    E::NS_PREFIX@,
                    E::slots(),
                    edge_id,
                    #[trigger] keys@[i],
                ),
            forall|k: Seq<u8>|
                self.contents().dom().contains(k) && #[trigger] attr_entry(
                    E::NS_PREFIX@,
                    E::slots(),
                    edge_id,
                    k,
                ) ==> keys@.contains(k),
    {
        let ghost ns = E::NS_PREFIX@;
        let ghost m = self.contents();
        let ghost start = batch@;
        let ghost mut keys: Seq<Seq<u8>> = Seq::empty();
        let slots = E::attr_slots();
        let id_be = be_vec(edge_id, 8);
        let mut i: usize = 0;
        assert(batch@ =~= start + keys.map_values(|k: Seq<u8>| (k, None::<Seq<u8>>)));
        while i < slots.len()
            invariant
                i <= slots@.len(),
                slots@ == E::slots(),
                ns == E::NS_PREFIX@,
                m == self.contents(),
                id_be@ == edge_id_bytes(edge_id),
                batch@ == start + keys.map_values(|k: Seq<u8>| (k, None::<Seq<u8>>)),
                forall|t: int|
                    0 <= t < keys.len() ==> attr_entry(ns, slots@, edge_id, #[trigger] keys[t]),
                swept(m, ns, slots@, edge_id, i as int, keys),
            decreases slots@.len() - i,
        {
            let p = self.face_prefix(slots[i], &[]);
            proof {
                assert(p@ =~= face_prefix(ns, slots@[i as int], Seq::empty()));
            }
            let found = self.store.scan_suffix(p.as_slice());
            let ghost sfx = crate::engine::storage::prefix_suffixes(m, p@);
            let ghost keys0 = keys;
            let mut j: usize = 0;
            while j < found.len()
                invariant
                    i < slots@.len(),
                    j <= found@.len(),
                    slots@ == E::slots(),
                    ns == E::NS_PREFIX@,
                    m == self.contents(),
                    id_be@ == edge_id_bytes(edge_id),
                    p@ == face_prefix(ns, slots@[i as int], Seq::empty()),
                    crate::engine::storage::views(found@) == sfx,
                    sfx == crate::engine::storage::prefix_suffixes(m, p@),
                    crate::engine::storage::is_listing(
                        crate::engine::storage::prefix_keys(m, p@),
                        crate::engine::storage::prefix_set(m, p@),
                    ),
                    batch@ == start + keys.map_values(|k: Seq<u8>| (k, None::<Seq<u8>>)),
                    forall|t: int|
                        0 <= t < keys.len() ==> attr_entry(
                            ns,
                            slots@,
                            edge_id,
                            #[trigger] keys[t],
                        ),
                    swept(m, ns, slots@, edge_id, i as int, keys),
                    forall|t: int|
                        0 <= t < j && crate::bytes::ends_with(
                            #[trigger] sfx[t],
                            edge_id_bytes(edge_id),
                        ) ==> keys.contains(p@ + sfx[t]),
                decreases found@.len() - j,
            {
                let ghost x = sfx[j as int];
                let ghost before = keys;
                assert(x == found@[j as int]@);
                if has_suffix(found[j].as_slice(), id_be.as_slice()) {
                    let full = crate::bytes::concat(p.as_slice(), found[j].as_slice());
                    batch.del(full.as_slice());
                    proof {
                        let k = p@ + x;
                        keys = before.push(k);
                        crate::bytes::lemma_starts_with_concat(p@, x);
                        assert(attr_entry_at(ns, slots@, edge_id, k, i as int));
                        assert(batch@ =~= start + keys.map_values(
                            |k: Seq<u8>| (k, None::<Seq<u8>>),
                        ));
                        assert(keys[before.len() as int] == k);
                        assert forall|t: int| 0 <= t < keys.len() implies attr_entry(
                            ns,
                            slots@,
                            edge_id,
                            #[trigger] keys[t],
                        ) by {
                            if t < before.len() {
                                assert(keys[t] == before[t]);
                            }
                        }
                        assert forall|y: Seq<u8>| before.contains(y) implies keys.contains(y) by {
                            let t = choose|t: int| 0 <= t < before.len() && before[t] == y;
                            assert(keys[t] == y);
                        }
                    }
                }
                j = j + 1;
            }
            proof {
                assert forall|k: Seq<u8>, t: int|
                    m.dom().contains(k) && t < i + 1 && #[trigger] attr_entry_at(
                        ns,
                        slots@,
                        edge_id,
                        k,
                        t,
                    ) implies keys.contains(k) by {
                    if t == i {
                        lemma_slot_scan(m, p@, k);
                        let u = choose|u: int|
                            0 <= u < sfx.len() && #[trigger] sfx[u] == k.skip(p@.len() as int);
                        crate::bytes::lemma_starts_with_split(k, p@);
                        assert(keys.contains(p@ + sfx[u]));
                    }
                }
            }
            i = i + 1;
        }
        proof {
            assert forall|k: Seq<u8>|
                m.dom().contains(k) && #[trigger] attr_entry(
                    ns,
                    E::slots(),
                    edge_id,
                    k,
                ) implies keys.contains(k) by {
                let t = choose|t: int| #[trigger] attr_entry_at(ns, E::slots(), edge_id, k, t);
            }
        }
        Ghost(keys)
    }

    /// Removes an edge: its body, its index keys, and every attribute key
    /// that ends in its id. An id that is not stored is refused.
    pub fn unlink(&mut self, edge_id: u64) -> (r: Result<(), String>)
        requires
            old(self).wf(),
        ensures
            final(self).wf(),
            final(self).dict() == old(self).dict(),
            ({
                let m = old(self).contents();
                let k = edge_key(E::NS_PREFIX@, edge_id);
                if !m.dom().contains(k) {
                    &&& r matches Err(msg) && msg@ == missing_message(edge_id)
                    &&& final(self).contents() == m
                } else {
                    match r {
                        Ok(_) => final(self).contents() == m.remove_keys(
                            unlink_keys(
                                E::NS_PREFIX@,
                                read_edge(m[k])->0,
                                E::slots(),
                                edge_id,
                            ),
                        ),
                        Err(msg) => !S::never_refuses() && final(self).contents() == m
                            && message_begins(msg@, "graph unlink commit failed: "@),
                    }
                }
            }),
            r is Ok ==> unlinked(
                E::NS_PREFIX@,
                E::slots(),
                old(self).state(),
                final(self).state(),
                edge_id,
            ),
    {
        let ghost ns = E::NS_PREFIX@;
        let ghost m = self.contents();
        let pk = self.primary_key(edge_id);
        match self.store.get(pk.as_slice()) {
            None => Err(numbered("unlink: edge_id ", edge_id, " not found")),
            Some(body) => {
                let parsed = decode_body(body.as_slice());
                let ghost e = parsed@;
                let src = parsed.src.encode();
                let dst = parsed.dst.encode();
                let kind = be_vec(parsed.kind_id as u64, 2);
                let kind_src = crate::bytes::concat(kind.as_slice(), src.as_slice());
                let kind_dst = crate::bytes::concat(kind.as_slice(), dst.as_slice());
                let k1 = self.face_key(EDGE_KIND_INDEX_SLOT, kind.as_slice(), edge_id);
                let k2 = self.face_key(EDGE_OUT_SLOT, src.as_slice(), edge_id);
                let k3 = self.face_key(EDGE_IN_SLOT, dst.as_slice(), edge_id);
                let k4 = self.face_key(EDGE_KIND_OUT_SLOT, kind_src.as_slice(), edge_id);
                let k5 = self.face_key(EDGE_KIND_IN_SLOT, kind_dst.as_slice(), edge_id);
                let mut batch = MemBatch::new();
                batch.del(pk.as_slice());
                batch.del(k1.as_slice());
                batch.del(k2.as_slice());
                batch.del(k3.as_slice());
                batch.del(k4.as_slice());
                batch.del(k5.as_slice());
                let ghost own = edge_keys(ns, e, edge_id);
                assert(batch@ =~= own.map_values(|k: Seq<u8>| (k, None::<Seq<u8>>)));
                let Ghost(swept) = self.sweep_attrs(&mut batch, edge_id);
                proof {
                    let keys = own + swept;
                    assert(batch@ =~= keys.map_values(|k: Seq<u8>| (k, None::<Seq<u8>>)));
                    lemma_deletes(m, keys, batch@);
                    let dead = unlink_keys(ns, e, E::slots(), edge_id);
                    assert forall|k: Seq<u8>| m.dom().contains(k) implies (keys.to_set().contains(k)
                        <==> dead.contains(k)) by {
                        if keys.contains(k) {
                            let t = choose|t: int| 0 <= t < keys.len() && keys[t] == k;
                            if t < own.len() {
                                assert(own[t] == k);
                            } else {
                                assert(swept[t - own.len()] == k);
                            }
                        }
                        if own.contains(k) {
                            let t = choose|t: int| 0 <= t < own.len() && own[t] == k;
                            assert(keys[t] == k);
                        } else if dead.contains(k) {
                            assert(swept.contains(k));
                            let t = choose|t: int| 0 <= t < swept.len() && swept[t] == k;
                            assert(keys[own.len() + t] == k);
                        }
                    }
                    assert(m.remove_keys(keys.to_set()) =~= m.remove_keys(dead));
                }
                match self.store.commit_batch(batch) {
                    Ok(_) => Ok(()),
                    Err(e) => Err(failed("graph unlink commit failed: ", e)),
                }
            },
        }
    }

    /// The stored edge of an id.
    pub fn get_edge(&self, edge_id: u64) -> (r: Option<EdgeBody>)
        requires
            self.wf(),
        ensures
            ({
                let m = self.contents();
                let k = edge_key(E::NS_PREFIX@, edge_id);
                match r {
                    Some(b) => m.dom().contains(k) && read_edge(m[k]) == Some(b@),
                    None => !m.dom().contains(k),
                }
            }),
    {
        let pk = self.primary_key(edge_id);
        match self.store.get(pk.as_slice()) {
            Some(body) => Some(decode_body(body.as_slice())),
            None => None,
        }
    }

    /// The ids of the edges under a key front.
    fn ids_under(&self, p: &[u8]) -> (r: Vec<u64>)
        ensures
            ids_under(self.contents(), p@, r@),
    {
        let ghost m = self.contents();
        let found = self.store.scan_suffix(p);
        let ghost sfx = crate::engine::storage::prefix_suffixes(m, p@);
        let ghost ks = crate::engine::storage::prefix_keys(m, p@);
        let mut out: Vec<u64> = Vec::new();
        let mut i: usize = 0;
        assert(crate::engine::storage::views(found@).len() == ks.len());
        while i < found.len()
            invariant
                i <= found@.len() == ks.len(),
                m == self.contents(),
                crate::engine::storage::views(found@) == sfx,
                sfx == crate::engine::storage::prefix_suffixes(m, p@),
                ks == crate::engine::storage::prefix_keys(m, p@),
                crate::engine::storage::is_listing(
                    ks,
                    crate::engine::storage::prefix_set(m, p@),
                ),
                forall|a: int, b: int| 0 <= a < b < out@.len() ==> out@[a] < out@[b],
                forall|a: int|
                    0 <= a < out@.len() ==> m.dom().contains(
                        p@ + edge_id_bytes(#[trigger] out@[a]),
                    ),
                forall|a: int, t: int|
                    0 <= a < out@.len() && i <= t < ks.len() ==> crate::bytes::lex_lt(
                        p@ + edge_id_bytes(#[trigger] out@[a]),
                        #[trigger] ks[t],
                    ),
                forall|t: int|
                    0 <= t < i && (#[trigger] sfx[t]).len() == 8 ==> out@.contains(
                        crate::bytes::be_value(sfx[t]) as u64,
                    ),
            decreases found@.len() - i,
        {
            let ghost x = sfx[i as int];
            let ghost before = out@;
            proof {
                assert(x == found@[i as int]@);
                assert(crate::engine::storage::prefix_set(m, p@).contains(ks[i as int]));
                crate::bytes::lemma_starts_with_split(ks[i as int], p@);
            }
            if found[i].len() == 8 {
                let id: u64 = read_be(found[i].as_slice());
                out.push(id);
                proof {
                    crate::bytes::lemma_be_value_round_trip(x);
                    assert(edge_id_bytes(id) == x);
                    assert(p@ + x == ks[i as int]);
                    assert forall|a: int, b: int| 0 <= a < b < out@.len() implies out@[a]
                        < out@[b] by {
                        if b == before.len() {
                            assert(out@[a] == before[a]);
                            crate::bytes::lemma_lex_shared_prefix(
                                p@,
                                edge_id_bytes(out@[a]),
                                x,
                            );
                            lemma_edge_id_bytes(out@[a], id);
                            lemma_edge_id_bytes(id, id);
                            crate::engine::storage::lemma_lex_is_value_order(
                                edge_id_bytes(out@[a]),
                                x,
                            );
                        } else {
                            assert(out@[a] == before[a] && out@[b] == before[b]);
                        }
                    }
                    assert forall|a: int| 0 <= a < out@.len() implies m.dom().contains(
                        p@ + edge_id_bytes(#[trigger] out@[a]),
                    ) by {
                        if a < before.len() {
                            assert(out@[a] == before[a]);
                        }
                    }
                    assert forall|a: int, t: int|
                        0 <= a < out@.len() && i + 1 <= t < ks.len() implies crate::bytes::lex_lt(
                        p@ + edge_id_bytes(#[trigger] out@[a]),
                        #[trigger] ks[t],
                    ) by {
                        if a < before.len() {
                            assert(out@[a] == before[a]);
                        }
                    }
                    assert forall|t: int|
                        0 <= t < i + 1 && (#[trigger] sfx[t]).len() == 8 implies out@.contains(
                        crate::bytes::be_value(sfx[t]) as u64,
                    ) by {
                        if t < i {
                            let v = crate::bytes::be_value(sfx[t]) as u64;
                            let a = choose|a: int| 0 <= a < before.len() && before[a] == v;
                            assert(out@[a] == v);
                        } else {
                            assert(out@[before.len() as int] == id);
                        }
                    }
                }
            }
            i = i + 1;
        }
        proof {
            assert forall|id: u64| #[trigger]
                out@.contains(id) <==> m.dom().contains(p@ + edge_id_bytes(id)) by {
                lemma_edge_id_bytes(id, id);
                let k = p@ + edge_id_bytes(id);
                if m.dom().contains(k) {
                    crate::bytes::lemma_starts_with_concat(p@, edge_id_bytes(id));
                    lemma_slot_scan(m, p@, k);
                    let t = choose|t: int|
                        0 <= t < sfx.len() && #[trigger] sfx[t] == k.skip(p@.len() as int);
                    assert(sfx[t] == edge_id_bytes(id));
                }
            }
        }
        out
    }

    /// The ids of the edges from a node, ascending.
    pub fn out_edges(&self, src: &NodeRef) -> (r: Vec<u64>)
        ensures
            ids_under(
                self.contents(),
                face_prefix(E::NS_PREFIX@, EDGE_OUT_SLOT, ref_bytes(src@)),
                r@,
            ),
    {
        let p = self.face_prefix(EDGE_OUT_SLOT, src.encode().as_slice());
        self.ids_under(p.as_slice())
    }

    /// The ids of the edges to a node, ascending.
    pub fn in_edges(&self, dst: &NodeRef) -> (r: Vec<u64>)
        ensures
            ids_under(
                self.contents(),
                face_prefix(E::NS_PREFIX@, EDGE_IN_SLOT, ref_bytes(dst@)),
                r@,
            ),
    {
        let p = self.face_prefix(EDGE_IN_SLOT, dst.encode().as_slice());
        self.ids_under(p.as_slice())
    }

    /// The ids of the edges of a kind at a node, by the index of `slot`. A
    /// kind that this handle does not know has none.
    pub fn typed_edges(&mut self, slot: Slot, kind: &str, node: &NodeRef) -> (r: Vec<u64>)
        ensures
            *final(self) == *old(self),
            if old(self).dict().names.dom().contains(kind@) {
                ids_under(
                    old(self).contents(),
                    face_prefix(
                        E::NS_PREFIX@,
                        slot,
                        kind_bytes(old(self).dict().names[kind@]) + ref_bytes(node@),
                    ),
                    r@,
                )
            } else {
                r@.len() == 0
            },
    {
        match self.dict.by_name_get(kind) {
            None => Vec::new(),
            Some(id) => {
                let mut lead: Vec<u8> = be_vec(id as u64, 2);
                let mut wire: Vec<u8> = node.encode();
                lead.append(&mut wire);
                let p = self.face_prefix(slot, lead.as_slice());
                self.ids_under(p.as_slice())
            },
        }
    }

    /// The ids of the edges of a kind from a node.
    pub fn typed_out(&mut self, kind: &str, src: &NodeRef) -> (r: Vec<u64>)
        ensures
            *final(self) == *old(self),
            if old(self).dict().names.dom().contains(kind@) {
                ids_under(
                    old(self).contents(),
                    face_prefix(
                        E::NS_PREFIX@,
                        EDGE_KIND_OUT_SLOT,
                        kind_bytes(old(self).dict().names[kind@]) + ref_bytes(src@),
                    ),
                    r@,
                )
            } else {
                r@.len() == 0
            },
    {
        self.typed_edges(EDGE_KIND_OUT_SLOT, kind, src)
    }

    /// The ids of the edges of a kind to a node.
    pub fn typed_in(&mut self, kind: &str, dst: &NodeRef) -> (r: Vec<u64>)
        ensures
            *final(self) == *old(self),
            if old(self).dict().names.dom().contains(kind@) {
                ids_under(
                    old(self).contents(),
                    face_prefix(
                        E::NS_PREFIX@,
                        EDGE_KIND_IN_SLOT,
                        kind_bytes(old(self).dict().names[kind@]) + ref_bytes(dst@),
                    ),
                    r@,
                )
            } else {
                r@.len() == 0
            },
    {
        self.typed_edges(EDGE_KIND_IN_SLOT, kind, dst)
    }

    /// The ids of all edges of a kind.
    pub fn edges_of_kind(&mut self, kind: &str) -> (r: Vec<u64>)
        ensures
            *final(self) == *old(self),
            if old(self).dict().names.dom().contains(kind@) {
                ids_under(
                    old(self).contents(),
                    face_prefix(
                        E::NS_PREFIX@,
                        EDGE_KIND_INDEX_SLOT,
                        kind_bytes(old(self).dict().names[kind@]),
                    ),
                    r@,
                )
            } else {
                r@.len() == 0
            },
    {
        match self.dict.by_name_get(kind) {
            None => Vec::new(),
            Some(id) => {
                let lead: Vec<u8> = be_vec(id as u64, 2);
                let p = self.face_prefix(EDGE_KIND_INDEX_SLOT, lead.as_slice());
                self.ids_under(p.as_slice())
            },
        }
    }

    /// The ids of the edges whose declared attribute has the encoded value.
    pub fn by_attr_face(&self, slot: Slot, encoded: &[u8]) -> (r: Vec<u64>)
        ensures
            ids_under(self.contents(), face_prefix(E::NS_PREFIX@, slot, encoded@), r@),
    {
        let p = self.face_prefix(slot, encoded);
        self.ids_under(p.as_slice())
    }

    /// The far ends of those edges of a list that are stored.
    fn endpoints(&self, ids: &Vec<u64>, target: bool) -> (r: Vec<NodeRef>)
        requires
            self.wf(),
        ensures
            node_views(r@) == far_ends(self.contents(), E::NS_PREFIX@, ids@, target),
    {
        let ghost m = self.contents();
        let ghost ns = E::NS_PREFIX@;
        let mut out: Vec<NodeRef> = Vec::new();
        let mut i: usize = 0;
        assert(node_views(out@) =~= far_ends(m, ns, ids@.take(0), target));
        while i < ids.len()
            invariant
                i <= ids@.len(),
                m == self.contents(),
                ns == E::NS_PREFIX@,
                self.wf(),
                node_views(out@) == far_ends(m, ns, ids@.take(i as int), target),
            decreases ids@.len() - i,
        {
            let ghost before = node_views(out@);
            proof {
                assert(ids@.take(i + 1).drop_last() =~= ids@.take(i as int));
                assert(ids@.take(i + 1).last() == ids@[i as int]);
            }
            match self.get_edge(ids[i]) {
                Some(b) => {
                    if target {
                        out.push(b.dst);
                        assert(node_views(out@) =~= before.push(b@.dst));
                    } else {
                        out.push(b.src);
                        assert(node_views(out@) =~= before.push(b@.src));
                    }
                },
                None => {},
            }
            i = i + 1;
        }
        assert(ids@.take(i as int) =~= ids@);
        out
    }

    /// The nodes one edge away from a node, once per edge.
    pub fn out_nodes(&self, src: &NodeRef) -> (r: Vec<NodeRef>)
        requires
            self.wf(),
        ensures
            exists|ids: Seq<u64>|
                {
                    &&& #[trigger] ids_under(
                        self.contents(),
                        face_prefix(E::NS_PREFIX@, EDGE_OUT_SLOT, ref_bytes(src@)),
                        ids,
                    )
                    &&& node_views(r@) == far_ends(self.contents(), E::NS_PREFIX@, ids, true)
                },
    {
        let ids = self.out_edges(src);
        self.endpoints(&ids, true)
    }

    /// The nodes with an edge to a node, once per edge.
    pub fn in_nodes(&self, dst: &NodeRef) -> (r: Vec<NodeRef>)
        requires
            self.wf(),
        ensures
            exists|ids: Seq<u64>|
                {
                    &&& #[trigger] ids_under(
                        self.contents(),
                        face_prefix(E::NS_PREFIX@, EDGE_IN_SLOT, ref_bytes(dst@)),
                        ids,
                    )
                    &&& node_views(r@) == far_ends(self.contents(), E::NS_PREFIX@, ids, false)
                },
    {
        let ids = self.in_edges(dst);
        self.endpoints(&ids, false)
    }

    /// The nodes one edge of a kind away from a node, once per edge.
    pub fn typed_out_nodes(&mut self, kind: &str, src: &NodeRef) -> (r: Vec<NodeRef>)
        requires
            old(self).wf(),
        ensures
            *final(self) == *old(self),
            if old(self).dict().names.dom().contains(kind@) {
                exists|ids: Seq<u64>|
                    {
                        &&& #[trigger] ids_under(
                            old(self).contents(),
                            face_prefix(
                                E::NS_PREFIX@,
                                EDGE_KIND_OUT_SLOT,
                                kind_bytes(old(self).dict().names[kind@]) + ref_bytes(src@),
                            ),
                            ids,
                        )
                        &&& node_views(r@) == far_ends(
                            old(self).contents(),
                            E::NS_PREFIX@,
                            ids,
                            true,
                        )
                    }
            } else {
                r@.len() == 0
            },
    {
        let ids = self.typed_out(kind, src);
        let r = self.endpoints(&ids, true);
        assert(node_views(r@).len() == r@.len());
        r
    }

    /// The nodes with an edge of a kind to a node, once per edge.
    pub fn typed_in_nodes(&mut self, kind: &str, dst: &NodeRef) -> (r: Vec<NodeRef>)
        requires
            old(self).wf(),
        ensures
            *final(self) == *old(self),
            if old(self).dict().names.dom().contains(kind@) {
                exists|ids: Seq<u64>|
                    {
                        &&& #[trigger] ids_under(
                            old(self).contents(),
                            face_prefix(
                                E::NS_PREFIX@,
                                EDGE_KIND_IN_SLOT,
                                kind_bytes(old(self).dict().names[kind@]) + ref_bytes(dst@),
                            ),
                            ids,
                        )
                        &&& node_views(r@) == far_ends(
                            old(self).contents(),
                            E::NS_PREFIX@,
                            ids,
                            false,
                        )
                    }
            } else {
                r@.len() == 0
            },
    {
        let ids = self.typed_in(kind, dst);
        let r = self.endpoints(&ids, false);
        assert(node_views(r@).len() == r@.len());
        r
    }
}

/// The edges under a key front have one ascending list.
pub proof fn law_ids_unique(
    m: crate::engine::storage::Contents,
    prefix: Seq<u8>,
    a: Seq<u64>,
    b: Seq<u64>,
)
    requires
        ids_under(m, prefix, a),
        ids_under(m, prefix, b),
    ensures
        a == b,
{
    assert forall|x: u64| a.contains(x) <==> b.contains(x) by {
        assert(a.contains(x) <==> m.dom().contains(prefix + edge_id_bytes(x)));
        assert(b.contains(x) <==> m.dom().contains(prefix + edge_id_bytes(x)));
    }
    lemma_ascending_unique(a, b);
}

proof fn lemma_ascending_unique(a: Seq<u64>, b: Seq<u64>)
    requires
        forall|i: int, j: int| 0 <= i < j < a.len() ==> a[i] < a[j],
        forall|i: int, j: int| 0 <= i < j < b.len() ==> b[i] < b[j],
        forall|x: u64| a.contains(x) <==> b.contains(x),
    ensures
        a == b,
    decreases a.len(),
{
    if a.len() == 0 {
        if b.len() > 0 {
            assert(b.contains(b[0]));
        }
        assert(a =~= b);
    } else {
        assert(a.contains(a[0]));
        let j = choose|j: int| 0 <= j < b.len() && b[j] == a[0];
        assert(b.contains(b[0]));
        let i = choose|i: int| 0 <= i < a.len() && a[i] == b[0];
        assert(a[0] == b[0]);
        let a2 = a.drop_first();
        let b2 = b.drop_first();
        assert forall|x: u64| a2.contains(x) <==> b2.contains(x) by {
            if a2.contains(x) {
                let t = choose|t: int| 0 <= t < a2.len() && a2[t] == x;
                assert(a[t + 1] == x);
                assert(a.contains(x));
                let u = choose|u: int| 0 <= u < b.len() && b[u] == x;
                assert(b2[u - 1] == x);
            }
            if b2.contains(x) {
                let t = choose|t: int| 0 <= t < b2.len() && b2[t] == x;
                assert(b[t + 1] == x);
                assert(b.contains(x));
                let u = choose|u: int| 0 <= u < a.len() && a[u] == x;
                assert(a2[u - 1] == x);
            }
        }
        lemma_ascending_unique(a2, b2);
        assert(a =~= seq![a[0]] + a2);
        assert(b =~= seq![b[0]] + b2);
    }
}

/// Which key a write of an edge touches.
proof fn lemma_link_key(
    ns: Seq<u8>,
    e: EdgeView,
    faces: Seq<(Slot, Seq<u8>)>,
    id: u64,
    slot: Slot,
    rest: Seq<u8>,
)
    requires
        slot == EDGE_KIND_INDEX_SLOT || slot == EDGE_OUT_SLOT || slot == EDGE_IN_SLOT || slot
            == EDGE_KIND_OUT_SLOT || slot == EDGE_KIND_IN_SLOT,
        forall|i: int| 0 <= i < faces.len() ==> attr_slot((#[trigger] faces[i]).0),
    ensures
        ({
            let w = link_writes(ns, e, faces, id);
            let k = crate::model::index::slot_key(ns, slot, rest);
            let kind = kind_bytes(e.kind_id);
            let lead = if slot == EDGE_KIND_INDEX_SLOT {
                kind
            } else if slot == EDGE_OUT_SLOT {
                ref_bytes(e.src)
            } else if slot == EDGE_IN_SLOT {
                ref_bytes(e.dst)
            } else if slot == EDGE_KIND_OUT_SLOT {
                kind + ref_bytes(e.src)
            } else {
                kind + ref_bytes(e.dst)
            };
            &&& (exists|i: int| 0 <= i < w.len() && (#[trigger] w[i]).0 == k) <==> rest == lead
                + edge_id_bytes(id)
            &&& forall|i: int| 0 <= i < w.len() ==> (#[trigger] w[i]).1 is Some
        }),
{
    let w = link_writes(ns, e, faces, id);
    let k = crate::model::index::slot_key(ns, slot, rest);
    let y = edge_id_bytes(id);
    let src = ref_bytes(e.src);
    let dst = ref_bytes(e.dst);
    let kind = kind_bytes(e.kind_id);
    let keys = edge_keys(ns, e, id);
    crate::model::index::lemma_slot_key(ns, PRIMARY_SLOT, slot, y, rest);
    crate::model::index::lemma_slot_key(ns, EDGE_KIND_INDEX_SLOT, slot, kind + y, rest);
    crate::model::index::lemma_slot_key(ns, EDGE_OUT_SLOT, slot, src + y, rest);
    crate::model::index::lemma_slot_key(ns, EDGE_IN_SLOT, slot, dst + y, rest);
    crate::model::index::lemma_slot_key(ns, EDGE_KIND_OUT_SLOT, slot, kind + src + y, rest);
    crate::model::index::lemma_slot_key(ns, EDGE_KIND_IN_SLOT, slot, kind + dst + y, rest);
    assert(w[0].0 == keys[0]);
    assert(w[1].0 == keys[1]);
    assert(w[2].0 == keys[2]);
    assert(w[3].0 == keys[3]);
    assert(w[4].0 == keys[4]);
    assert(w[5].0 == keys[5]);
    assert forall|i: int| 6 <= i < w.len() implies (#[trigger] w[i]).0 != k by {
        let f = faces[i - 6];
        assert(w[i].0 == face_key(ns, f.0, f.1, id));
        assert(attr_slot(f.0));
        lemma_faces_apart(ns, f.0, slot, f.1 + y, rest);
    }
    if exists|i: int| 0 <= i < w.len() && (#[trigger] w[i]).0 == k {
        let i = choose|i: int| 0 <= i < w.len() && (#[trigger] w[i]).0 == k;
        assert(0 <= i < 6);
        assert(w[i].0 == keys[i]);
    }
}

/// Storing an edge adds it to the edges of its ends and of its kind, and to
/// no others: parallel edges are separate facts.
pub proof fn law_link_is_found(
    m: crate::engine::storage::Contents,
    ns: Seq<u8>,
    e: EdgeView,
    faces: Seq<(Slot, Seq<u8>)>,
    id: u64,
    n: NodeView,
    kind: u16,
    x: u64,
)
    requires
        ref_ok(e.src),
        ref_ok(e.dst),
        ref_ok(n),
        forall|i: int| 0 <= i < faces.len() ==> attr_slot((#[trigger] faces[i]).0),
    ensures
        ({
            let after = crate::engine::storage::apply_ops(m, link_writes(ns, e, faces, id));
            let has = |c: crate::engine::storage::Contents, slot: Slot, lead: Seq<u8>|
                c.dom().contains(face_prefix(ns, slot, lead) + edge_id_bytes(x));
            let r = ref_bytes(n);
            let kr = kind_bytes(kind) + r;
            &&& has(after, EDGE_OUT_SLOT, r) <==> has(m, EDGE_OUT_SLOT, r) || (n == e.src && x
                == id)
            &&& has(after, EDGE_IN_SLOT, r) <==> has(m, EDGE_IN_SLOT, r) || (n == e.dst && x == id)
            &&& has(after, EDGE_KIND_OUT_SLOT, kr) <==> has(m, EDGE_KIND_OUT_SLOT, kr) || (n
                == e.src && kind == e.kind_id && x == id)
            &&& has(after, EDGE_KIND_IN_SLOT, kr) <==> has(m, EDGE_KIND_IN_SLOT, kr) || (n == e.dst
                && kind == e.kind_id && x == id)
            &&& has(after, EDGE_KIND_INDEX_SLOT, kind_bytes(kind)) <==> has(
                m,
                EDGE_KIND_INDEX_SLOT,
                kind_bytes(kind),
            ) || (kind == e.kind_id && x == id)
        }),
{
    let w = link_writes(ns, e, faces, id);
    let r = ref_bytes(n);
    let kb = kind_bytes(kind);
    let y = edge_id_bytes(x);
    lemma_edge_id_bytes(x, id);
    lemma_edge_id_bytes(id, x);
    lemma_face_concat(ns, EDGE_OUT_SLOT, r, y);
    lemma_face_concat(ns, EDGE_IN_SLOT, r, y);
    lemma_face_concat(ns, EDGE_KIND_OUT_SLOT, kb + r, y);
    lemma_face_concat(ns, EDGE_KIND_IN_SLOT, kb + r, y);
    lemma_face_concat(ns, EDGE_KIND_INDEX_SLOT, kb, y);
    lemma_link_key(ns, e, faces, id, EDGE_OUT_SLOT, r + y);
    lemma_link_key(ns, e, faces, id, EDGE_IN_SLOT, r + y);
    lemma_link_key(ns, e, faces, id, EDGE_KIND_OUT_SLOT, kb + r + y);
    lemma_link_key(ns, e, faces, id, EDGE_KIND_IN_SLOT, kb + r + y);
    lemma_link_key(ns, e, faces, id, EDGE_KIND_INDEX_SLOT, kb + y);
    crate::engine::storage::lemma_ops_puts(
        m,
        w,
        crate::model::index::slot_key(ns, EDGE_OUT_SLOT, r + y),
    );
    crate::engine::storage::lemma_ops_puts(
        m,
        w,
        crate::model::index::slot_key(ns, EDGE_IN_SLOT, r + y),
    );
    crate::engine::storage::lemma_ops_puts(
        m,
        w,
        crate::model::index::slot_key(ns, EDGE_KIND_OUT_SLOT, kb + r + y),
    );
    crate::engine::storage::lemma_ops_puts(
        m,
        w,
        crate::model::index::slot_key(ns, EDGE_KIND_IN_SLOT, kb + r + y),
    );
    crate::engine::storage::lemma_ops_puts(
        m,
        w,
        crate::model::index::slot_key(ns, EDGE_KIND_INDEX_SLOT, kb + y),
    );
    lemma_same_end(n, e.src, x, id);
    lemma_same_end(n, e.dst, x, id);
    lemma_same_kind_end(kind, e.kind_id, n, e.src, x, id);
    lemma_same_kind_end(kind, e.kind_id, n, e.dst, x, id);
    lemma_same_kind(kind, e.kind_id, x, id);
}

proof fn lemma_face_concat(ns: Seq<u8>, slot: Slot, lead: Seq<u8>, y: Seq<u8>)
    ensures
        face_prefix(ns, slot, lead) + y == crate::model::index::slot_key(ns, slot, lead + y),
{
    assert(face_prefix(ns, slot, lead) + y =~= crate::model::index::slot_key(ns, slot, lead + y));
}

proof fn lemma_same_end(a: NodeView, b: NodeView, x: u64, y: u64)
    requires
        ref_ok(a),
        ref_ok(b),
    ensures
        ref_bytes(a) + edge_id_bytes(x) == ref_bytes(b) + edge_id_bytes(y) <==> a == b && x == y,
{
    lemma_edge_id_bytes(x, y);
    if ref_bytes(a) + edge_id_bytes(x) == ref_bytes(b) + edge_id_bytes(y) {
        lemma_ref_injective(a, b, edge_id_bytes(x), edge_id_bytes(y));
    }
}

proof fn lemma_same_kind(k: u16, l: u16, x: u64, y: u64)
    ensures
        kind_bytes(k) + edge_id_bytes(x) == kind_bytes(l) + edge_id_bytes(y) <==> k == l && x == y,
{
    lemma_edge_id_bytes(x, y);
    crate::bytes::lemma_be_bytes_len(k as nat, 2);
    crate::bytes::lemma_be_bytes_len(l as nat, 2);
    crate::bytes::lemma_pow256_small();
    let a = kind_bytes(k) + edge_id_bytes(x);
    let b = kind_bytes(l) + edge_id_bytes(y);
    if a == b {
        assert(a.subrange(0, 2) =~= kind_bytes(k));
        assert(b.subrange(0, 2) =~= kind_bytes(l));
        assert(a.skip(2) =~= edge_id_bytes(x));
        assert(b.skip(2) =~= edge_id_bytes(y));
        crate::bytes::lemma_be_injective(k as nat, l as nat, 2);
    }
}

proof fn lemma_same_kind_end(k: u16, l: u16, a: NodeView, b: NodeView, x: u64, y: u64)
    requires
        ref_ok(a),
        ref_ok(b),
    ensures
        kind_bytes(k) + ref_bytes(a) + edge_id_bytes(x) == kind_bytes(l) + ref_bytes(b)
            + edge_id_bytes(y) <==> k == l && a == b && x == y,
{
    crate::bytes::lemma_be_bytes_len(k as nat, 2);
    crate::bytes::lemma_be_bytes_len(l as nat, 2);
    crate::bytes::lemma_pow256_small();
    let u = ref_bytes(a) + edge_id_bytes(x);
    let v = ref_bytes(b) + edge_id_bytes(y);
    let p = kind_bytes(k) + ref_bytes(a) + edge_id_bytes(x);
    let q = kind_bytes(l) + ref_bytes(b) + edge_id_bytes(y);
    if p == q {
        assert(p.subrange(0, 2) =~= kind_bytes(k));
        assert(q.subrange(0, 2) =~= kind_bytes(l));
        assert(p.skip(2) =~= u);
        assert(q.skip(2) =~= v);
        crate::bytes::lemma_be_injective(k as nat, l as nat, 2);
        lemma_same_end(a, b, x, y);
    }
}

/// No key that storing the edge would write is there, nor an attribute key
/// of its id.
pub open spec fn edge_is_new(
    m: crate::engine::storage::Contents,
    ns: Seq<u8>,
    e: EdgeView,
    slots: Seq<Slot>,
    id: u64,
) -> bool {
    forall|k: Seq<u8>| #[trigger] unlink_keys(ns, e, slots, id).contains(k) ==> !m.dom().contains(k)
}

/// Removing an edge takes back everything that storing it wrote.
pub proof fn law_unlink_undoes_link(
    m: crate::engine::storage::Contents,
    ns: Seq<u8>,
    e: EdgeView,
    faces: Seq<(Slot, Seq<u8>)>,
    slots: Seq<Slot>,
    id: u64,
)
    requires
        edge_is_new(m, ns, e, slots, id),
        forall|i: int| 0 <= i < faces.len() ==> slots.contains((#[trigger] faces[i]).0),
    ensures
        crate::engine::storage::apply_ops(m, link_writes(ns, e, faces, id)).remove_keys(
            unlink_keys(ns, e, slots, id),
        ) == m,
{
    let w = link_writes(ns, e, faces, id);
    let dead = unlink_keys(ns, e, slots, id);
    let after = crate::engine::storage::apply_ops(m, w);
    let keys = edge_keys(ns, e, id);
    assert forall|i: int| 0 <= i < w.len() implies dead.contains((#[trigger] w[i]).0) by {
        if i < 6 {
            assert(w[i].0 == keys[i]);
        } else {
            let f = faces[i - 6];
            let k = face_key(ns, f.0, f.1, id);
            assert(w[i].0 == k);
            assert(slots.contains(f.0));
            let t = choose|t: int| 0 <= t < slots.len() && slots[t] == f.0;
            let p = face_prefix(ns, f.0, Seq::empty());
            let rest = f.1 + edge_id_bytes(id);
            crate::model::index::lemma_slot_key(ns, f.0, f.0, rest, rest);
            crate::bytes::lemma_starts_with_concat(p, rest);
            lemma_edge_id_bytes(id, id);
            assert(rest.subrange(rest.len() - 8, rest.len() as int) =~= edge_id_bytes(id));
            assert(attr_entry_at(ns, slots, id, k, t));
        }
    }
    let back = after.remove_keys(dead);
    assert forall|k: Seq<u8>| #[trigger] back.dom().contains(k) == m.dom().contains(k) && (
    m.dom().contains(k) ==> back[k] == m[k]) by {
        if dead.contains(k) {
            assert(!m.dom().contains(k));
        } else {
            crate::engine::storage::lemma_ops_untouched(m, w, k);
            assert(crate::engine::storage::same_at(after, m, k));
        }
    }
    assert(back =~= m);
}

/// An edge that was removed is on no list of edges any more.
pub proof fn law_unlink_is_gone(
    m: crate::engine::storage::Contents,
    ns: Seq<u8>,
    e: EdgeView,
    slots: Seq<Slot>,
    id: u64,
)
    ensures
        ({
            let after = m.remove_keys(unlink_keys(ns, e, slots, id));
            let kind = kind_bytes(e.kind_id);
            let gone = |slot: Slot, lead: Seq<u8>|
                !after.dom().contains(face_prefix(ns, slot, lead) + edge_id_bytes(id));
            &&& !after.dom().contains(edge_key(ns, id))
            &&& gone(EDGE_KIND_INDEX_SLOT, kind)
            &&& gone(EDGE_OUT_SLOT, ref_bytes(e.src))
            &&& gone(EDGE_IN_SLOT, ref_bytes(e.dst))
            &&& gone(EDGE_KIND_OUT_SLOT, kind + ref_bytes(e.src))
            &&& gone(EDGE_KIND_IN_SLOT, kind + ref_bytes(e.dst))
        }),
{
    let keys = edge_keys(ns, e, id);
    let kind = kind_bytes(e.kind_id);
    let y = edge_id_bytes(id);
    lemma_face_concat(ns, EDGE_KIND_INDEX_SLOT, kind, y);
    lemma_face_concat(ns, EDGE_OUT_SLOT, ref_bytes(e.src), y);
    lemma_face_concat(ns, EDGE_IN_SLOT, ref_bytes(e.dst), y);
    lemma_face_concat(ns, EDGE_KIND_OUT_SLOT, kind + ref_bytes(e.src), y);
    lemma_face_concat(ns, EDGE_KIND_IN_SLOT, kind + ref_bytes(e.dst), y);
    assert(keys.contains(keys[0]));
    assert(keys.contains(keys[1]));
    assert(keys.contains(keys[2]));
    assert(keys.contains(keys[3]));
    assert(keys.contains(keys[4]));
    assert(keys.contains(keys[5]));
}

/// The stored edge of an id.
pub open spec fn body_at(
    m: crate::engine::storage::Contents,
    ns: Seq<u8>,
    id: u64,
) -> Option<EdgeView> {
    if m.dom().contains(edge_key(ns, id)) {
        read_edge(m[edge_key(ns, id)])
    } else {
        None
    }
}

/// The edge `id` stands in a slot behind `lead`.
pub open spec fn listed(
    m: crate::engine::storage::Contents,
    ns: Seq<u8>,
    slot: Slot,
    lead: Seq<u8>,
    id: u64,
) -> bool {
    m.dom().contains(face_prefix(ns, slot, lead) + edge_id_bytes(id))
}

/// The edge `id` is listed at node `n` and under `kind` exactly as its body
/// says.
pub open spec fn indexed_at(
    m: crate::engine::storage::Contents,
    ns: Seq<u8>,
    id: u64,
    n: NodeView,
    kind: u16,
) -> bool {
    let b = body_at(m, ns, id);
    let r = ref_bytes(n);
    let k = kind_bytes(kind);
    &&& listed(m, ns, EDGE_OUT_SLOT, r, id) <==> b is Some && b->0.src == n
    &&& listed(m, ns, EDGE_IN_SLOT, r, id) <==> b is Some && b->0.dst == n
    &&& listed(m, ns, EDGE_KIND_OUT_SLOT, k + r, id) <==> b is Some && b->0.src == n
        && b->0.kind_id == kind
    &&& listed(m, ns, EDGE_KIND_IN_SLOT, k + r, id) <==> b is Some && b->0.dst == n
        && b->0.kind_id == kind
    &&& listed(m, ns, EDGE_KIND_INDEX_SLOT, k, id) <==> b is Some && b->0.kind_id == kind
}

/// Every stored edge can be read, and the lists of edges are those that the
/// bodies tell.
pub open spec fn graph_ok(m: crate::engine::storage::Contents, ns: Seq<u8>) -> bool {
    &&& bodies_ok(m, ns)
    &&& forall|id: u64|
        (#[trigger] body_at(m, ns, id)) is Some ==> ref_ok(body_at(m, ns, id)->0.src) && ref_ok(
            body_at(m, ns, id)->0.dst,
        )
    &&& forall|id: u64, n: NodeView, kind: u16|
        ref_ok(n) ==> #[trigger] indexed_at(m, ns, id, n, kind)
}

/// The slots of edges and of their lists.
pub open spec fn edge_slot(slot: Slot) -> bool {
    slot == PRIMARY_SLOT || slot == EDGE_KIND_INDEX_SLOT || slot == EDGE_OUT_SLOT || slot
        == EDGE_IN_SLOT || slot == EDGE_KIND_OUT_SLOT || slot == EDGE_KIND_IN_SLOT
}

/// Where the keys of edges and of their lists are as they were, so is the
/// graph.
proof fn lemma_graph_same(
    m: crate::engine::storage::Contents,
    m2: crate::engine::storage::Contents,
    ns: Seq<u8>,
)
    requires
        graph_ok(m, ns),
        forall|slot: Slot, rest: Seq<u8>|
            edge_slot(slot) ==> crate::engine::storage::same_at(
                m2,
                m,
                #[trigger] crate::model::index::slot_key(ns, slot, rest),
            ),
    ensures
        graph_ok(m2, ns),
        forall|id: u64| #[trigger] body_at(m2, ns, id) == body_at(m, ns, id),
{
    assert forall|id: u64| #[trigger] body_at(m2, ns, id) == body_at(m, ns, id) by {
        assert(crate::engine::storage::same_at(
            m2,
            m,
            crate::model::index::slot_key(ns, PRIMARY_SLOT, edge_id_bytes(id)),
        ));
    }
    assert forall|id: u64| #[trigger] m2.dom().contains(edge_key(ns, id)) implies read_edge(
        m2[edge_key(ns, id)],
    ) is Some by {
        assert(crate::engine::storage::same_at(
            m2,
            m,
            crate::model::index::slot_key(ns, PRIMARY_SLOT, edge_id_bytes(id)),
        ));
        assert(m.dom().contains(edge_key(ns, id)));
    }
    assert forall|id: u64| (#[trigger] body_at(m2, ns, id)) is Some implies ref_ok(
        body_at(m2, ns, id)->0.src,
    ) && ref_ok(body_at(m2, ns, id)->0.dst) by {
        assert(body_at(m2, ns, id) == body_at(m, ns, id));
    }
    assert forall|id: u64, n: NodeView, kind: u16| ref_ok(n) implies #[trigger] indexed_at(
        m2,
        ns,
        id,
        n,
        kind,
    ) by {
        assert(indexed_at(m, ns, id, n, kind));
        assert(body_at(m2, ns, id) == body_at(m, ns, id));
        let y = edge_id_bytes(id);
        let r = ref_bytes(n);
        let k = kind_bytes(kind);
        lemma_face_concat(ns, EDGE_OUT_SLOT, r, y);
        lemma_face_concat(ns, EDGE_IN_SLOT, r, y);
        lemma_face_concat(ns, EDGE_KIND_OUT_SLOT, k + r, y);
        lemma_face_concat(ns, EDGE_KIND_IN_SLOT, k + r, y);
        lemma_face_concat(ns, EDGE_KIND_INDEX_SLOT, k, y);
    }
}

/// A namespace without keys is a graph without edges.
pub proof fn law_no_edges(m: crate::engine::storage::Contents, ns: Seq<u8>)
    requires
        forall|k: Seq<u8>| #[trigger] m.dom().contains(k) ==> !crate::bytes::starts_with(k, ns),
    ensures
        graph_ok(m, ns),
        forall|id: u64| #[trigger] body_at(m, ns, id) is None,
{
    assert forall|slot: Slot, rest: Seq<u8>| !m.dom().contains(
        #[trigger] crate::model::index::slot_key(ns, slot, rest),
    ) by {
        let k = crate::model::index::slot_key(ns, slot, rest);
        assert(k.subrange(0, ns.len() as int) =~= ns);
    }
    assert forall|id: u64, n: NodeView, kind: u16| ref_ok(n) implies #[trigger] indexed_at(
        m,
        ns,
        id,
        n,
        kind,
    ) by {
        let y = edge_id_bytes(id);
        let r = ref_bytes(n);
        let k = kind_bytes(kind);
        lemma_face_concat(ns, EDGE_OUT_SLOT, r, y);
        lemma_face_concat(ns, EDGE_IN_SLOT, r, y);
        lemma_face_concat(ns, EDGE_KIND_OUT_SLOT, k + r, y);
        lemma_face_concat(ns, EDGE_KIND_IN_SLOT, k + r, y);
        lemma_face_concat(ns, EDGE_KIND_INDEX_SLOT, k, y);
    }
}

/// Storing an edge under a new id leaves a graph, with this edge and the
/// others as they were.
pub proof fn law_link_keeps_graph(
    m: crate::engine::storage::Contents,
    ns: Seq<u8>,
    e: EdgeView,
    faces: Seq<(Slot, Seq<u8>)>,
    id: u64,
)
    requires
        graph_ok(m, ns),
        !m.dom().contains(edge_key(ns, id)),
        ref_ok(e.src),
        ref_ok(e.dst),
        forall|i: int| 0 <= i < faces.len() ==> attr_slot((#[trigger] faces[i]).0),
    ensures
        ({
            let after = crate::engine::storage::apply_ops(m, link_writes(ns, e, faces, id));
            &&& graph_ok(after, ns)
            &&& body_at(after, ns, id) == Some(e)
            &&& forall|x: u64| x != id ==> #[trigger] body_at(after, ns, x) == body_at(m, ns, x)
        }),
{
    let w = link_writes(ns, e, faces, id);
    let after = crate::engine::storage::apply_ops(m, w);
    law_link_keeps_bodies(m, ns, e, faces, id);
    assert forall|x: u64| #[trigger] body_at(after, ns, x) == (if x == id {
        Some(e)
    } else {
        body_at(m, ns, x)
    }) by {
        lemma_link_writes_primary(ns, e, faces, id, x);
        if x == id {
            crate::engine::storage::lemma_ops_last(m, w, edge_key(ns, id), 0);
            law_edge_round_trip(e);
        } else {
            crate::engine::storage::lemma_ops_untouched(m, w, edge_key(ns, x));
            assert(crate::engine::storage::same_at(after, m, edge_key(ns, x)));
        }
    }
    assert forall|x: u64| (#[trigger] body_at(after, ns, x)) is Some implies ref_ok(
        body_at(after, ns, x)->0.src,
    ) && ref_ok(body_at(after, ns, x)->0.dst) by {
        if x != id {
            assert(body_at(m, ns, x) is Some);
        }
    }
    assert forall|x: u64, n: NodeView, kind: u16| ref_ok(n) implies #[trigger] indexed_at(
        after,
        ns,
        x,
        n,
        kind,
    ) by {
        assert(indexed_at(m, ns, x, n, kind));
        law_link_is_found(m, ns, e, faces, id, n, kind, x);
        assert(body_at(after, ns, x) == (if x == id {
            Some(e)
        } else {
            body_at(m, ns, x)
        }));
        assert(x == id ==> body_at(m, ns, x) is None);
    }
}

/// Which key of a list an edge has.
proof fn lemma_edge_has_key(ns: Seq<u8>, e: EdgeView, id: u64, slot: Slot, rest: Seq<u8>)
    requires
        edge_slot(slot),
        slot != PRIMARY_SLOT,
    ensures
        ({
            let kind = kind_bytes(e.kind_id);
            let lead = if slot == EDGE_KIND_INDEX_SLOT {
                kind
            } else if slot == EDGE_OUT_SLOT {
                ref_bytes(e.src)
            } else if slot == EDGE_IN_SLOT {
                ref_bytes(e.dst)
            } else if slot == EDGE_KIND_OUT_SLOT {
                kind + ref_bytes(e.src)
            } else {
                kind + ref_bytes(e.dst)
            };
            edge_keys(ns, e, id).contains(crate::model::index::slot_key(ns, slot, rest)) <==> rest
                == lead + edge_id_bytes(id)
        }),
{
    let none = Seq::<(Slot, Seq<u8>)>::empty();
    let w = link_writes(ns, e, none, id);
    let keys = edge_keys(ns, e, id);
    let k = crate::model::index::slot_key(ns, slot, rest);
    lemma_link_key(ns, e, none, id, slot, rest);
    assert(attr_keys(ns, none, id) =~= Seq::empty());
    assert(w.len() == 6);
    assert forall|i: int| 0 <= i < 6 implies (#[trigger] w[i]).0 == keys[i] by {}
    if keys.contains(k) {
        let i = choose|i: int| 0 <= i < keys.len() && keys[i] == k;
        assert(w[i].0 == k);
    }
    if exists|i: int| 0 <= i < w.len() && (#[trigger] w[i]).0 == k {
        let i = choose|i: int| 0 <= i < w.len() && (#[trigger] w[i]).0 == k;
        assert(keys[i] == k);
    }
}

/// No key of an edge or of a list is one of a declared attribute.
proof fn lemma_not_attr(ns: Seq<u8>, slots: Seq<Slot>, id: u64, slot: Slot, rest: Seq<u8>)
    requires
        !attr_slot(slot),
        forall|i: int| 0 <= i < slots.len() ==> attr_slot(#[trigger] slots[i]),
    ensures
        !attr_entry(ns, slots, id, crate::model::index::slot_key(ns, slot, rest)),
{
    let k = crate::model::index::slot_key(ns, slot, rest);
    if attr_entry(ns, slots, id, k) {
        let i = choose|i: int| #[trigger] attr_entry_at(ns, slots, id, k, i);
        assert(attr_slot(slots[i]));
        crate::model::index::lemma_slot_key(ns, slot, slots[i], rest, rest);
    }
}

/// Removing an edge leaves a graph, without this edge and with the others as
/// they were.
#[verifier::rlimit(40)]
pub proof fn law_unlink_keeps_graph(
    m: crate::engine::storage::Contents,
    ns: Seq<u8>,
    slots: Seq<Slot>,
    id: u64,
)
    requires
        graph_ok(m, ns),
        body_at(m, ns, id) is Some,
        forall|i: int| 0 <= i < slots.len() ==> attr_slot(#[trigger] slots[i]),
    ensures
        ({
            let after = m.remove_keys(unlink_keys(ns, body_at(m, ns, id)->0, slots, id));
            &&& graph_ok(after, ns)
            &&& body_at(after, ns, id) is None
            &&& forall|x: u64| x != id ==> #[trigger] body_at(after, ns, x) == body_at(m, ns, x)
        }),
{
    let e = body_at(m, ns, id)->0;
    let dead = unlink_keys(ns, e, slots, id);
    let after = m.remove_keys(dead);
    let keys = edge_keys(ns, e, id);
    assert(keys.contains(keys[0]));
    assert forall|x: u64| x != id implies !dead.contains(#[trigger] edge_key(ns, x)) by {
        lemma_link_writes_primary(ns, e, Seq::empty(), id, x);
        let w = link_writes(ns, e, Seq::empty(), id);
        lemma_not_attr(ns, slots, id, PRIMARY_SLOT, edge_id_bytes(x));
        if keys.contains(edge_key(ns, x)) {
            let i = choose|i: int| 0 <= i < keys.len() && keys[i] == edge_key(ns, x);
            assert(w[i].0 == keys[i]);
        }
    }
    assert forall|x: u64| #[trigger] body_at(after, ns, x) == (if x == id {
        None
    } else {
        body_at(m, ns, x)
    }) by {
        if x != id {
            assert(!dead.contains(edge_key(ns, x)));
        }
    }
    assert forall|x: u64| #[trigger] after.dom().contains(edge_key(ns, x)) implies read_edge(
        after[edge_key(ns, x)],
    ) is Some by {
        assert(m.dom().contains(edge_key(ns, x)));
    }
    assert forall|x: u64| (#[trigger] body_at(after, ns, x)) is Some implies ref_ok(
        body_at(after, ns, x)->0.src,
    ) && ref_ok(body_at(after, ns, x)->0.dst) by {
        assert(body_at(m, ns, x) is Some);
    }
    assert forall|x: u64, n: NodeView, kind: u16| ref_ok(n) implies #[trigger] indexed_at(
        after,
        ns,
        x,
        n,
        kind,
    ) by {
        let y = edge_id_bytes(x);
        let r = ref_bytes(n);
        let k = kind_bytes(kind);
        assert(indexed_at(m, ns, x, n, kind));
        assert(ref_ok(e.src) && ref_ok(e.dst));
        lemma_face_concat(ns, EDGE_OUT_SLOT, r, y);
        lemma_face_concat(ns, EDGE_IN_SLOT, r, y);
        lemma_face_concat(ns, EDGE_KIND_OUT_SLOT, k + r, y);
        lemma_face_concat(ns, EDGE_KIND_IN_SLOT, k + r, y);
        lemma_face_concat(ns, EDGE_KIND_INDEX_SLOT, k, y);
        lemma_edge_has_key(ns, e, id, EDGE_OUT_SLOT, r + y);
        lemma_edge_has_key(ns, e, id, EDGE_IN_SLOT, r + y);
        lemma_edge_has_key(ns, e, id, EDGE_KIND_OUT_SLOT, k + r + y);
        lemma_edge_has_key(ns, e, id, EDGE_KIND_IN_SLOT, k + r + y);
        lemma_edge_has_key(ns, e, id, EDGE_KIND_INDEX_SLOT, k + y);
        lemma_not_attr(ns, slots, id, EDGE_OUT_SLOT, r + y);
        lemma_not_attr(ns, slots, id, EDGE_IN_SLOT, r + y);
        lemma_not_attr(ns, slots, id, EDGE_KIND_OUT_SLOT, k + r + y);
        lemma_not_attr(ns, slots, id, EDGE_KIND_IN_SLOT, k + r + y);
        lemma_not_attr(ns, slots, id, EDGE_KIND_INDEX_SLOT, k + y);
        lemma_same_end(n, e.src, x, id);
        lemma_same_end(n, e.dst, x, id);
        lemma_same_kind_end(kind, e.kind_id, n, e.src, x, id);
        lemma_same_kind_end(kind, e.kind_id, n, e.dst, x, id);
        lemma_same_kind(kind, e.kind_id, x, id);
        assert(body_at(after, ns, x) == (if x == id {
            None
        } else {
            body_at(m, ns, x)
        }));
    }
}

/// The list of the edges from a node holds exactly the ids whose stored edge
/// begins at it; so does that of the edges to a node, and those of one kind.
pub proof fn law_lists_are_exact(
    m: crate::engine::storage::Contents,
    ns: Seq<u8>,
    n: NodeView,
    kind: u16,
    id: u64,
    outs: Seq<u64>,
    ins: Seq<u64>,
    of_kind: Seq<u64>,
)
    requires
        graph_ok(m, ns),
        ref_ok(n),
        ids_under(m, face_prefix(ns, EDGE_OUT_SLOT, ref_bytes(n)), outs),
        ids_under(m, face_prefix(ns, EDGE_IN_SLOT, ref_bytes(n)), ins),
        ids_under(m, face_prefix(ns, EDGE_KIND_INDEX_SLOT, kind_bytes(kind)), of_kind),
    ensures
        outs.contains(id) <==> body_at(m, ns, id) is Some && body_at(m, ns, id)->0.src == n,
        ins.contains(id) <==> body_at(m, ns, id) is Some && body_at(m, ns, id)->0.dst == n,
        of_kind.contains(id) <==> body_at(m, ns, id) is Some && body_at(m, ns, id)->0.kind_id
            == kind,
{
    assert(indexed_at(m, ns, id, n, kind));
}

/// The ids of a list whose stored edge has a kind.
pub open spec fn cut_to_kind(
    m: crate::engine::storage::Contents,
    ns: Seq<u8>,
    ids: Seq<u64>,
    kind: u16,
) -> Seq<u64>
    decreases ids.len(),
{
    if ids.len() == 0 {
        Seq::empty()
    } else {
        let before = cut_to_kind(m, ns, ids.drop_last(), kind);
        let b = body_at(m, ns, ids.last());
        if b is Some && b->0.kind_id == kind {
            before.push(ids.last())
        } else {
            before
        }
    }
}

proof fn lemma_cut(
    m: crate::engine::storage::Contents,
    ns: Seq<u8>,
    ids: Seq<u64>,
    kind: u16,
)
    requires
        forall|i: int, j: int| 0 <= i < j < ids.len() ==> ids[i] < ids[j],
    ensures
        ({
            let out = cut_to_kind(m, ns, ids, kind);
            &&& forall|i: int, j: int| 0 <= i < j < out.len() ==> out[i] < out[j]
            &&& forall|x: u64| #[trigger]
                out.contains(x) <==> ids.contains(x) && body_at(m, ns, x) is Some && body_at(
                    m,
                    ns,
                    x,
                )->0.kind_id == kind
        }),
    decreases ids.len(),
{
    let out = cut_to_kind(m, ns, ids, kind);
    if ids.len() > 0 {
        let init = ids.drop_last();
        let before = cut_to_kind(m, ns, init, kind);
        assert forall|i: int, j: int| 0 <= i < j < init.len() implies init[i] < init[j] by {
            assert(init[i] == ids[i] && init[j] == ids[j]);
        }
        lemma_cut(m, ns, init, kind);
        assert forall|i: int, j: int| 0 <= i < j < out.len() implies out[i] < out[j] by {
            assert(out[i] == before[i]);
            if j < before.len() {
                assert(out[j] == before[j]);
            } else {
                assert(before.contains(before[i]));
                let t = choose|t: int| 0 <= t < init.len() && init[t] == before[i];
                assert(ids[t] < ids[ids.len() - 1]);
            }
        }
        assert forall|x: u64| #[trigger]
            out.contains(x) <==> ids.contains(x) && body_at(m, ns, x) is Some && body_at(
                m,
                ns,
                x,
            )->0.kind_id == kind by {
            if out.contains(x) {
                let t = choose|t: int| 0 <= t < out.len() && out[t] == x;
                if t < before.len() {
                    assert(before[t] == x);
                    assert(before.contains(x));
                    let u = choose|u: int| 0 <= u < init.len() && init[u] == x;
                    assert(ids[u] == x);
                } else {
                    assert(ids[ids.len() - 1] == x);
                }
            }
            if ids.contains(x) && body_at(m, ns, x) is Some && body_at(m, ns, x)->0.kind_id
                == kind {
                let t = choose|t: int| 0 <= t < ids.len() && ids[t] == x;
                if t < init.len() {
                    assert(init[t] == x);
                    assert(init.contains(x));
                    assert(before.contains(x));
                    let u = choose|u: int| 0 <= u < before.len() && before[u] == x;
                    assert(out[u] == x);
                } else {
                    assert(out[out.len() - 1] == x);
                }
            }
        }
    }
}

/// The list of the edges of a kind at a node is the list of its edges, cut
/// to that kind.
pub proof fn law_typed_list_is_cut(
    m: crate::engine::storage::Contents,
    ns: Seq<u8>,
    n: NodeView,
    kind: u16,
    target: bool,
    plain: Seq<u64>,
    typed: Seq<u64>,
)
    requires
        graph_ok(m, ns),
        ref_ok(n),
        ids_under(
            m,
            face_prefix(
                ns,
                if target {
                    EDGE_IN_SLOT
                } else {
                    EDGE_OUT_SLOT
                },
                ref_bytes(n),
            ),
            plain,
        ),
        ids_under(
            m,
            face_prefix(
                ns,
                if target {
                    EDGE_KIND_IN_SLOT
                } else {
                    EDGE_KIND_OUT_SLOT
                },
                kind_bytes(kind) + ref_bytes(n),
            ),
            typed,
        ),
    ensures
        typed == cut_to_kind(m, ns, plain, kind),
{
    lemma_cut(m, ns, plain, kind);
    let out = cut_to_kind(m, ns, plain, kind);
    assert forall|x: u64| typed.contains(x) <==> out.contains(x) by {
        assert(indexed_at(m, ns, x, n, kind));
    }
    lemma_ascending_unique(typed, out);
}

proof fn lemma_far_ends_all(
    m: crate::engine::storage::Contents,
    ns: Seq<u8>,
    ids: Seq<u64>,
    target: bool,
)
    requires
        forall|i: int| 0 <= i < ids.len() ==> body_at(m, ns, #[trigger] ids[i]) is Some,
    ensures
        far_ends(m, ns, ids, target) == ids.map_values(
            |id: u64|
                if target {
                    body_at(m, ns, id)->0.dst
                } else {
                    body_at(m, ns, id)->0.src
                },
        ),
    decreases ids.len(),
{
    let f = |id: u64|
        if target {
            body_at(m, ns, id)->0.dst
        } else {
            body_at(m, ns, id)->0.src
        };
    if ids.len() == 0 {
        assert(far_ends(m, ns, ids, target) =~= ids.map_values(f));
    } else {
        let init = ids.drop_last();
        assert forall|i: int| 0 <= i < init.len() implies body_at(
            m,
            ns,
            #[trigger] init[i],
        ) is Some by {
            assert(init[i] == ids[i]);
        }
        lemma_far_ends_all(m, ns, init, target);
        assert(body_at(m, ns, ids[ids.len() - 1]) is Some);
        assert(far_ends(m, ns, ids, target) =~= ids.map_values(f));
    }
}

/// Every listed edge is stored, so that the nodes one edge away come once
/// per listed edge, in its order.
pub proof fn law_nodes_follow_edges(
    m: crate::engine::storage::Contents,
    ns: Seq<u8>,
    n: NodeView,
    outs: Seq<u64>,
    ins: Seq<u64>,
)
    requires
        graph_ok(m, ns),
        ref_ok(n),
        ids_under(m, face_prefix(ns, EDGE_OUT_SLOT, ref_bytes(n)), outs),
        ids_under(m, face_prefix(ns, EDGE_IN_SLOT, ref_bytes(n)), ins),
    ensures
        far_ends(m, ns, outs, true) == outs.map_values(
            |id: u64| body_at(m, ns, id)->0.dst,
        ),
        far_ends(m, ns, ins, false) == ins.map_values(|id: u64| body_at(m, ns, id)->0.src),
{
    assert forall|i: int| 0 <= i < outs.len() implies body_at(
        m,
        ns,
        #[trigger] outs[i],
    ) is Some by {
        assert(outs.contains(outs[i]));
        assert(indexed_at(m, ns, outs[i], n, 0));
    }
    assert forall|i: int| 0 <= i < ins.len() implies body_at(m, ns, #[trigger] ins[i]) is Some by {
        assert(ins.contains(ins[i]));
        assert(indexed_at(m, ns, ins[i], n, 0));
    }
    lemma_far_ends_all(m, ns, outs, true);
    lemma_far_ends_all(m, ns, ins, false);
    assert(far_ends(m, ns, outs, true) =~= outs.map_values(
        |id: u64| body_at(m, ns, id)->0.dst,
    ));
    assert(far_ends(m, ns, ins, false) =~= ins.map_values(|id: u64| body_at(m, ns, id)->0.src));
}

/// A graph handle: what it knows of the kind names, and its engine.
pub struct GraphView {
    pub dict: crate::model::obj_dict::DictView,
    pub store: crate::engine::storage::Contents,
}

/// What a handle knows of the kind names once it has read the dictionary.
pub open spec fn known(g: GraphView, ns: Seq<u8>) -> crate::model::obj_dict::DictView {
    crate::model::obj_dict::load_dict(g.dict, g.store, crate::model::obj_dict::home(ns))
}

/// The graph is whole, the dictionary is in step with the engine, and the
/// kind of every stored edge has a name.
pub open spec fn graph_sound(g: GraphView, ns: Seq<u8>) -> bool {
    &&& graph_ok(g.store, ns)
    &&& crate::model::obj_dict::in_sync(
        known(g, ns),
        g.store,
        crate::model::obj_dict::home(ns),
    )
    &&& forall|id: u64|
        (#[trigger] body_at(g.store, ns, id)) is Some ==> known(g, ns).ids.dom().contains(
            body_at(g.store, ns, id)->0.kind_id,
        )
}

/// What linking an edge under a new id makes of a handle.
pub open spec fn linked(
    ns: Seq<u8>,
    a: GraphView,
    b: GraphView,
    name: Seq<char>,
    e: EdgeView,
    faces: Seq<(Slot, Seq<u8>)>,
    id: u64,
) -> bool {
    &&& !a.store.dom().contains(edge_key(ns, id))
    &&& ref_ok(e.src)
    &&& ref_ok(e.dst)
    &&& forall|i: int| 0 <= i < faces.len() ==> attr_slot((#[trigger] faces[i]).0)
    &&& crate::model::obj_dict::resolvable(
        a.dict,
        a.store,
        crate::model::obj_dict::home(ns),
        name,
    )
    &&& b.dict == crate::model::obj_dict::with_name(known(a, ns), name)
    &&& e.kind_id == b.dict.names[name]
    &&& b.store == crate::engine::storage::apply_ops(
        a.store,
        crate::model::obj_dict::name_writes(
            crate::model::obj_dict::home(ns),
            known(a, ns),
            name,
        ) + link_writes(ns, e, faces, id),
    )
}

/// What unlinking a stored edge makes of a handle.
pub open spec fn unlinked(
    ns: Seq<u8>,
    slots: Seq<Slot>,
    a: GraphView,
    b: GraphView,
    id: u64,
) -> bool {
    &&& body_at(a.store, ns, id) is Some
    &&& b.dict == a.dict
    &&& b.store == a.store.remove_keys(
        unlink_keys(ns, body_at(a.store, ns, id)->0, slots, id),
    )
}

/// What one call makes of a handle: nothing, for one that is refused or only
/// reads; a dictionary read; a new handle on the engine; an edge linked or
/// unlinked.
pub open spec fn graph_step(
    ns: Seq<u8>,
    slots: Seq<Slot>,
    a: GraphView,
    b: GraphView,
) -> bool {
    ||| b == a
    ||| b.store == a.store && (b.dict == crate::model::obj_dict::fresh_dict() || b.dict == known(
        a,
        ns,
    ))
    ||| exists|name: Seq<char>, e: EdgeView, faces: Seq<(Slot, Seq<u8>)>, id: u64| #[trigger]
        linked(ns, a, b, name, e, faces, id)
    ||| exists|id: u64| #[trigger] unlinked(ns, slots, a, b, id)
}

/// Writes leave an engine finite.
proof fn lemma_ops_finite(
    m: crate::engine::storage::Contents,
    ops: Seq<(Seq<u8>, Option<Seq<u8>>)>,
)
    requires
        m.dom().finite(),
    ensures
        crate::engine::storage::apply_ops(m, ops).dom().finite(),
    decreases ops.len(),
{
    if ops.len() > 0 {
        lemma_ops_finite(m, ops.drop_last());
    }
}

/// A key behind the front of one slot is behind that of no other.
proof fn lemma_one_slot(ns: Seq<u8>, s: Slot, t: Slot, k: Seq<u8>)
    requires
        crate::bytes::starts_with(k, crate::model::index::slot_key(ns, s, Seq::empty())),
        crate::bytes::starts_with(k, crate::model::index::slot_key(ns, t, Seq::empty())),
    ensures
        s == t,
{
    let p = crate::model::index::slot_key(ns, s, Seq::empty());
    let rest = k.skip(p.len() as int);
    crate::bytes::lemma_starts_with_split(k, p);
    crate::model::index::lemma_slot_key(ns, s, t, rest, rest);
}

/// The slot of each write of an edge.
proof fn lemma_link_slots(
    ns: Seq<u8>,
    e: EdgeView,
    faces: Seq<(Slot, Seq<u8>)>,
    id: u64,
    i: int,
)
    requires
        0 <= i < link_writes(ns, e, faces, id).len(),
        forall|i: int| 0 <= i < faces.len() ==> attr_slot((#[trigger] faces[i]).0),
    ensures
        exists|slot: Slot, rest: Seq<u8>|
            (edge_slot(slot) || attr_slot(slot)) && link_writes(ns, e, faces, id)[i].0
                == #[trigger] crate::model::index::slot_key(ns, slot, rest),
{
    let w = link_writes(ns, e, faces, id);
    let keys = edge_keys(ns, e, id);
    let y = edge_id_bytes(id);
    let src = ref_bytes(e.src);
    let dst = ref_bytes(e.dst);
    let kind = kind_bytes(e.kind_id);
    if i < 6 {
        assert(w[i].0 == keys[i]);
        if i == 0 {
            assert(w[i].0 == crate::model::index::slot_key(ns, PRIMARY_SLOT, y));
        } else if i == 1 {
            assert(w[i].0 == crate::model::index::slot_key(ns, EDGE_KIND_INDEX_SLOT, kind + y));
        } else if i == 2 {
            assert(w[i].0 == crate::model::index::slot_key(ns, EDGE_OUT_SLOT, src + y));
        } else if i == 3 {
            assert(w[i].0 == crate::model::index::slot_key(ns, EDGE_IN_SLOT, dst + y));
        } else if i == 4 {
            assert(w[i].0 == crate::model::index::slot_key(
                ns,
                EDGE_KIND_OUT_SLOT,
                kind + src + y,
            ));
        } else {
            assert(w[i].0 == crate::model::index::slot_key(
                ns,
                EDGE_KIND_IN_SLOT,
                kind + dst + y,
            ));
        }
    } else {
        let f = faces[i - 6];
        assert(attr_slot(f.0));
        assert(w[i].0 == crate::model::index::slot_key(ns, f.0, f.1 + y));
    }
}

/// The writes of an edge are outside the dictionary.
proof fn lemma_link_spares_dict(
    ns: Seq<u8>,
    e: EdgeView,
    faces: Seq<(Slot, Seq<u8>)>,
    id: u64,
    k: Seq<u8>,
)
    requires
        crate::bytes::starts_with(k, crate::model::obj_dict::home(ns).ids)
            || crate::bytes::starts_with(k, crate::model::obj_dict::home(ns).names),
        forall|i: int| 0 <= i < faces.len() ==> attr_slot((#[trigger] faces[i]).0),
    ensures
        forall|i: int|
            0 <= i < link_writes(ns, e, faces, id).len() ==> (#[trigger] link_writes(
                ns,
                e,
                faces,
                id,
            )[i]).0 != k,
{
    let w = link_writes(ns, e, faces, id);
    assert forall|i: int| 0 <= i < w.len() implies (#[trigger] w[i]).0 != k by {
        lemma_link_slots(ns, e, faces, id, i);
        let (slot, rest) = choose|slot: Slot, rest: Seq<u8>|
            (edge_slot(slot) || attr_slot(slot)) && w[i].0
                == #[trigger] crate::model::index::slot_key(ns, slot, rest);
        crate::model::index::lemma_slot_key(
            ns,
            slot,
            crate::model::index::DICT_ID_SLOT,
            rest,
            rest,
        );
        crate::model::index::lemma_slot_key(
            ns,
            slot,
            crate::model::index::DICT_NAME_SLOT,
            rest,
            rest,
        );
    }
}

/// What storing the number of a kind does outside the dictionary: nothing.
proof fn lemma_named_elsewhere(
    d: crate::model::obj_dict::DictView,
    m: crate::engine::storage::Contents,
    ns: Seq<u8>,
    name: Seq<char>,
    k: Seq<u8>,
)
    requires
        k != crate::model::obj_dict::id_key(
            crate::model::obj_dict::home(ns),
            crate::model::obj_dict::with_name(d, name).names[name],
        ) && k != crate::model::obj_dict::name_key(crate::model::obj_dict::home(ns), name) || (
        !crate::bytes::starts_with(k, crate::model::obj_dict::home(ns).ids)
            && !crate::bytes::starts_with(k, crate::model::obj_dict::home(ns).names)),
    ensures
        crate::engine::storage::same_at(
            crate::engine::storage::apply_ops(
                m,
                crate::model::obj_dict::name_writes(crate::model::obj_dict::home(ns), d, name),
            ),
            m,
            k,
        ),
{
    let h = crate::model::obj_dict::home(ns);
    if !d.names.dom().contains(name) {
        let id = d.next as u16;
        let w = crate::model::obj_dict::dict_writes(h, name, id);
        crate::bytes::lemma_starts_with_concat(h.ids, crate::bytes::be_bytes(id as nat, 2));
        crate::bytes::lemma_starts_with_concat(h.names, vstd::utf8::encode_utf8(name));
        assert forall|i: int| 0 <= i < w.len() implies (#[trigger] w[i]).0 != k by {
            assert(i == 0 || i == 1);
        }
        crate::engine::storage::lemma_ops_untouched(m, w, k);
    }
}

/// Linking an edge under a new id leaves a sound handle. The edge is there
/// with what was given, the others are as they were, and the kind is found
/// by its number. Names and numbers given before stay. No key changes but
/// those of the edge, of its attributes and, for a new kind, of its name.
pub proof fn law_linked(
    ns: Seq<u8>,
    a: GraphView,
    b: GraphView,
    name: Seq<char>,
    e: EdgeView,
    faces: Seq<(Slot, Seq<u8>)>,
    id: u64,
    k: Seq<u8>,
)
    requires
        graph_sound(a, ns),
        linked(ns, a, b, name, e, faces, id),
    ensures
        graph_sound(b, ns),
        body_at(b.store, ns, id) == Some(e),
        forall|x: u64| x != id ==> #[trigger] body_at(b.store, ns, x) == body_at(a.store, ns, x),
        known(b, ns) == b.dict,
        known(a, ns).names.submap_of(b.dict.names),
        known(a, ns).ids.submap_of(b.dict.ids),
        b.dict.names.dom().contains(name),
        b.dict.ids.dom().contains(e.kind_id),
        b.dict.ids[e.kind_id] == name,
        edge_keys(ns, e, id).contains(k) || attr_keys(ns, faces, id).contains(k)
            ==> b.store.dom().contains(k),
        !edge_keys(ns, e, id).contains(k) && !attr_keys(ns, faces, id).contains(k) && k
            != crate::model::obj_dict::id_key(crate::model::obj_dict::home(ns), e.kind_id) && k
            != crate::model::obj_dict::name_key(crate::model::obj_dict::home(ns), name)
            ==> crate::engine::storage::same_at(b.store, a.store, k),
        known(a, ns).names.dom().contains(name) && !edge_keys(ns, e, id).contains(k)
            && !attr_keys(ns, faces, id).contains(k) ==> crate::engine::storage::same_at(
            b.store,
            a.store,
            k,
        ),
{
    let h = crate::model::obj_dict::home(ns);
    let l = known(a, ns);
    let first = crate::model::obj_dict::name_writes(h, l, name);
    let mid = crate::engine::storage::apply_ops(a.store, first);
    crate::engine::storage::lemma_apply_ops_concat(
        a.store,
        first,
        link_writes(ns, e, faces, id),
    );
    crate::model::obj_dict::lemma_home_apart(ns);
    crate::model::obj_dict::law_naming_keeps_sync(l, a.store, h, name);
    lemma_named_keeps_graph(l, a.store, ns, name);
    assert(body_at(mid, ns, id) is None);
    assert(!mid.dom().contains(edge_key(ns, id))) by {
        if mid.dom().contains(edge_key(ns, id)) {
            assert(read_edge(mid[edge_key(ns, id)]) is Some);
        }
    }
    law_link_keeps_graph(mid, ns, e, faces, id);
    lemma_link_keeps_sync(b.dict, mid, ns, e, faces, id);
    assert(known(b, ns) == b.dict);
    assert forall|x: u64| x != id implies #[trigger] body_at(b.store, ns, x) == body_at(
        a.store,
        ns,
        x,
    ) by {
        assert(body_at(b.store, ns, x) == body_at(mid, ns, x));
        assert(body_at(mid, ns, x) == body_at(a.store, ns, x));
    }
    assert forall|x: u64| (#[trigger] body_at(b.store, ns, x)) is Some implies known(
        b,
        ns,
    ).ids.dom().contains(body_at(b.store, ns, x)->0.kind_id) by {
        if x != id {
            assert(body_at(b.store, ns, x) == body_at(a.store, ns, x));
            assert(known(a, ns).ids.dom().contains(body_at(a.store, ns, x)->0.kind_id));
        }
    }
    lemma_link_at(mid, ns, e, faces, id, k);
    if !edge_keys(ns, e, id).contains(k) && !attr_keys(ns, faces, id).contains(k) {
        if known(a, ns).names.dom().contains(name) {
            assert(mid == a.store);
        } else if k != crate::model::obj_dict::id_key(h, e.kind_id) && k
            != crate::model::obj_dict::name_key(h, name) {
            lemma_named_elsewhere(l, a.store, ns, name, k);
        }
    }
}

/// Storing the number of a kind leaves the edges as they were.
proof fn lemma_named_keeps_graph(
    d: crate::model::obj_dict::DictView,
    m: crate::engine::storage::Contents,
    ns: Seq<u8>,
    name: Seq<char>,
)
    requires
        graph_ok(m, ns),
    ensures
        ({
            let mid = crate::engine::storage::apply_ops(
                m,
                crate::model::obj_dict::name_writes(crate::model::obj_dict::home(ns), d, name),
            );
            &&& graph_ok(mid, ns)
            &&& forall|x: u64| #[trigger] body_at(mid, ns, x) == body_at(m, ns, x)
        }),
{
    let mid = crate::engine::storage::apply_ops(
        m,
        crate::model::obj_dict::name_writes(crate::model::obj_dict::home(ns), d, name),
    );
    assert forall|slot: Slot, rest: Seq<u8>| edge_slot(slot) implies crate::engine::storage::same_at(
        mid,
        m,
        #[trigger] crate::model::index::slot_key(ns, slot, rest),
    ) by {
        crate::model::index::lemma_slot_key(
            ns,
            slot,
            crate::model::index::DICT_ID_SLOT,
            rest,
            rest,
        );
        crate::model::index::lemma_slot_key(
            ns,
            slot,
            crate::model::index::DICT_NAME_SLOT,
            rest,
            rest,
        );
        lemma_named_elsewhere(
            d,
            m,
            ns,
            name,
            crate::model::index::slot_key(ns, slot, rest),
        );
    }
    lemma_graph_same(m, mid, ns);
}

/// Storing an edge leaves the dictionary in step.
proof fn lemma_link_keeps_sync(
    d: crate::model::obj_dict::DictView,
    mid: crate::engine::storage::Contents,
    ns: Seq<u8>,
    e: EdgeView,
    faces: Seq<(Slot, Seq<u8>)>,
    id: u64,
)
    requires
        crate::model::obj_dict::in_sync(d, mid, crate::model::obj_dict::home(ns)),
        forall|i: int| 0 <= i < faces.len() ==> attr_slot((#[trigger] faces[i]).0),
    ensures
        crate::model::obj_dict::in_sync(
            d,
            crate::engine::storage::apply_ops(mid, link_writes(ns, e, faces, id)),
            crate::model::obj_dict::home(ns),
        ),
{
    let h = crate::model::obj_dict::home(ns);
    let w = link_writes(ns, e, faces, id);
    let after = crate::engine::storage::apply_ops(mid, w);
    lemma_ops_finite(mid, w);
    assert forall|k: Seq<u8>|
        #![trigger mid.dom().contains(k)]
        #![trigger after.dom().contains(k)]
        crate::bytes::starts_with(k, h.ids) || crate::bytes::starts_with(k, h.names) implies (
    mid.dom().contains(k) == after.dom().contains(k) && (mid.dom().contains(k) ==> mid[k]
        == after[k])) by {
        lemma_link_spares_dict(ns, e, faces, id, k);
        crate::engine::storage::lemma_ops_untouched(mid, w, k);
    }
    crate::model::obj_dict::law_sync_elsewhere(d, mid, after, h);
}

/// Storing an edge writes its keys and those of its attributes.
proof fn lemma_link_at(
    m: crate::engine::storage::Contents,
    ns: Seq<u8>,
    e: EdgeView,
    faces: Seq<(Slot, Seq<u8>)>,
    id: u64,
    k: Seq<u8>,
)
    ensures
        ({
            let after = crate::engine::storage::apply_ops(m, link_writes(ns, e, faces, id));
            if edge_keys(ns, e, id).contains(k) || attr_keys(ns, faces, id).contains(k) {
                after.dom().contains(k)
            } else {
                crate::engine::storage::same_at(after, m, k)
            }
        }),
{
    let w = link_writes(ns, e, faces, id);
    let keys = edge_keys(ns, e, id);
    let more = attr_keys(ns, faces, id);
    assert forall|i: int| 0 <= i < w.len() implies (keys.contains((#[trigger] w[i]).0)
        || more.contains(w[i].0)) && w[i].1 is Some by {
        if i < 6 {
            assert(w[i].0 == keys[i]);
        } else {
            assert(w[i].0 == more[i - 6]);
        }
    }
    if keys.contains(k) || more.contains(k) {
        let i = if keys.contains(k) {
            choose|i: int| 0 <= i < keys.len() && keys[i] == k
        } else {
            6 + choose|i: int| 0 <= i < more.len() && more[i] == k
        };
        assert(w[i].0 == k);
        crate::engine::storage::lemma_ops_puts(m, w, k);
    } else {
        crate::engine::storage::lemma_ops_untouched(m, w, k);
    }
}

/// Unlinking a stored edge, whatever happened since it was linked, leaves a
/// sound handle without it. Every key that linking it wrote is gone, the
/// other edges and the dictionary are as they were, and so is every key that
/// is neither one of the edge nor an attribute key with its id.
pub proof fn law_unlinked(
    ns: Seq<u8>,
    slots: Seq<Slot>,
    a: GraphView,
    b: GraphView,
    faces: Seq<(Slot, Seq<u8>)>,
    id: u64,
    k: Seq<u8>,
)
    requires
        graph_sound(a, ns),
        unlinked(ns, slots, a, b, id),
        forall|i: int| 0 <= i < slots.len() ==> attr_slot(#[trigger] slots[i]),
        forall|i: int| 0 <= i < faces.len() ==> slots.contains((#[trigger] faces[i]).0),
    ensures
        graph_sound(b, ns),
        known(b, ns) == known(a, ns),
        !b.store.dom().contains(edge_key(ns, id)),
        body_at(b.store, ns, id) is None,
        forall|x: u64| x != id ==> #[trigger] body_at(b.store, ns, x) == body_at(a.store, ns, x),
        ({
            let e = body_at(a.store, ns, id)->0;
            &&& edge_keys(ns, e, id).contains(k) || attr_keys(ns, faces, id).contains(k)
                ==> !b.store.dom().contains(k)
            &&& !edge_keys(ns, e, id).contains(k) && !attr_entry(ns, slots, id, k)
                ==> crate::engine::storage::same_at(b.store, a.store, k)
        }),
        forall|x: u64, slot: Slot, value: Seq<u8>|
            x != id && attr_slot(slot) ==> crate::engine::storage::same_at(
                b.store,
                a.store,
                #[trigger] face_key(ns, slot, value, x),
            ),
{
    let h = crate::model::obj_dict::home(ns);
    let e = body_at(a.store, ns, id)->0;
    let dead = unlink_keys(ns, e, slots, id);
    let keys = edge_keys(ns, e, id);
    law_unlink_keeps_graph(a.store, ns, slots, id);
    assert(keys.contains(keys[0]));
    assert(b.store.dom().subset_of(a.store.dom()));
    vstd::set_lib::lemma_set_subset_finite(a.store.dom(), b.store.dom());
    assert forall|k: Seq<u8>|
        #![trigger a.store.dom().contains(k)]
        #![trigger b.store.dom().contains(k)]
        crate::bytes::starts_with(k, h.ids) || crate::bytes::starts_with(k, h.names) implies (
    a.store.dom().contains(k) == b.store.dom().contains(k) && (a.store.dom().contains(k)
        ==> a.store[k] == b.store[k])) by {
        lemma_unlink_spares_dict(ns, e, slots, id, k);
    }
    let l = known(a, ns);
    crate::model::obj_dict::law_sync_elsewhere(l, a.store, b.store, h);
    assert(known(b, ns) == l) by {
        if !a.dict.loaded {
            lemma_same_dict(a.dict, a.store, b.store, h);
        }
    }
    assert forall|x: u64| (#[trigger] body_at(b.store, ns, x)) is Some implies known(
        b,
        ns,
    ).ids.dom().contains(body_at(b.store, ns, x)->0.kind_id) by {
        assert(body_at(b.store, ns, x) == body_at(a.store, ns, x));
    }
    if attr_keys(ns, faces, id).contains(k) {
        let i = choose|i: int| 0 <= i < faces.len() && attr_keys(ns, faces, id)[i] == k;
        let f = faces[i];
        assert(slots.contains(f.0));
        let t = choose|t: int| 0 <= t < slots.len() && slots[t] == f.0;
        let p = face_prefix(ns, f.0, Seq::empty());
        let rest = f.1 + edge_id_bytes(id);
        crate::model::index::lemma_slot_key(ns, f.0, f.0, rest, rest);
        crate::bytes::lemma_starts_with_concat(p, rest);
        lemma_edge_id_bytes(id, id);
        assert(rest.subrange(rest.len() - 8, rest.len() as int) =~= edge_id_bytes(id));
        assert(attr_entry_at(ns, slots, id, k, t));
    }
    assert forall|x: u64, slot: Slot, value: Seq<u8>|
        x != id && attr_slot(slot) implies crate::engine::storage::same_at(
        b.store,
        a.store,
        #[trigger] face_key(ns, slot, value, x),
    ) by {
        let rest = value + edge_id_bytes(x);
        let fk = face_key(ns, slot, value, x);
        lemma_edge_id_bytes(x, id);
        lemma_edge_id_bytes(id, x);
        assert(!keys.contains(fk)) by {
            lemma_not_edge_key(ns, e, id, slot, rest);
        }
        if attr_entry(ns, slots, id, fk) {
            let t = choose|t: int| #[trigger] attr_entry_at(ns, slots, id, fk, t);
            crate::model::index::lemma_slot_key(ns, slot, slots[t], rest, rest);
            let p = face_prefix(ns, slots[t], Seq::empty());
            crate::model::index::lemma_slot_key(ns, slot, slot, rest, Seq::empty());
            assert(fk.skip(p.len() as int) =~= rest);
            assert(rest.subrange(rest.len() - 8, rest.len() as int) =~= edge_id_bytes(x));
        }
    }
}

proof fn lemma_not_edge_key(ns: Seq<u8>, e: EdgeView, id: u64, slot: Slot, rest: Seq<u8>)
    requires
        !edge_slot(slot),
    ensures
        !edge_keys(ns, e, id).contains(crate::model::index::slot_key(ns, slot, rest)),
{
    let none = Seq::<(Slot, Seq<u8>)>::empty();
    let w = link_writes(ns, e, none, id);
    let keys = edge_keys(ns, e, id);
    let k = crate::model::index::slot_key(ns, slot, rest);
    assert(attr_keys(ns, none, id) =~= Seq::empty());
    let y = edge_id_bytes(id);
    let src = ref_bytes(e.src);
    let dst = ref_bytes(e.dst);
    let kind = kind_bytes(e.kind_id);
    crate::model::index::lemma_slot_key(ns, PRIMARY_SLOT, slot, y, rest);
    crate::model::index::lemma_slot_key(ns, EDGE_KIND_INDEX_SLOT, slot, kind + y, rest);
    crate::model::index::lemma_slot_key(ns, EDGE_OUT_SLOT, slot, src + y, rest);
    crate::model::index::lemma_slot_key(ns, EDGE_IN_SLOT, slot, dst + y, rest);
    crate::model::index::lemma_slot_key(ns, EDGE_KIND_OUT_SLOT, slot, kind + src + y, rest);
    crate::model::index::lemma_slot_key(ns, EDGE_KIND_IN_SLOT, slot, kind + dst + y, rest);
}

/// The keys that go with an edge are outside the dictionary.
proof fn lemma_unlink_spares_dict(
    ns: Seq<u8>,
    e: EdgeView,
    slots: Seq<Slot>,
    id: u64,
    k: Seq<u8>,
)
    requires
        crate::bytes::starts_with(k, crate::model::obj_dict::home(ns).ids)
            || crate::bytes::starts_with(k, crate::model::obj_dict::home(ns).names),
        forall|i: int| 0 <= i < slots.len() ==> attr_slot(#[trigger] slots[i]),
    ensures
        !unlink_keys(ns, e, slots, id).contains(k),
{
    let none = Seq::<(Slot, Seq<u8>)>::empty();
    let w = link_writes(ns, e, none, id);
    let keys = edge_keys(ns, e, id);
    lemma_link_spares_dict(ns, e, none, id, k);
    if keys.contains(k) {
        let i = choose|i: int| 0 <= i < keys.len() && keys[i] == k;
        assert(w[i].0 == keys[i]);
    }
    if attr_entry(ns, slots, id, k) {
        let i = choose|i: int| #[trigger] attr_entry_at(ns, slots, id, k, i);
        assert(attr_slot(slots[i]));
        if crate::bytes::starts_with(k, crate::model::obj_dict::home(ns).ids) {
            lemma_one_slot(ns, slots[i], crate::model::index::DICT_ID_SLOT, k);
        } else {
            lemma_one_slot(ns, slots[i], crate::model::index::DICT_NAME_SLOT, k);
        }
    }
}

/// A dictionary that is stored alike is read alike.
proof fn lemma_same_dict(
    d: crate::model::obj_dict::DictView,
    m: crate::engine::storage::Contents,
    m2: crate::engine::storage::Contents,
    h: crate::model::obj_dict::DictHome,
)
    requires
        m.dom().finite(),
        forall|k: Seq<u8>|
            #![trigger m.dom().contains(k)]
            #![trigger m2.dom().contains(k)]
            crate::bytes::starts_with(k, h.ids) || crate::bytes::starts_with(k, h.names) ==> (
            m.dom().contains(k) == m2.dom().contains(k) && (m.dom().contains(k) ==> m[k]
                == m2[k])),
    ensures
        crate::model::obj_dict::load_dict(d, m2, h) == crate::model::obj_dict::load_dict(d, m, h),
{
    crate::model::obj_dict::lemma_pairs_elsewhere(m, m2, h.ids);
    crate::model::obj_dict::lemma_pairs_elsewhere(m, m2, h.names);
}

/// A new handle on an engine without a key under the prefix is sound.
pub proof fn law_new_graph_is_sound(m: crate::engine::storage::Contents, ns: Seq<u8>)
    requires
        m.dom().finite(),
        forall|k: Seq<u8>| #[trigger] m.dom().contains(k) ==> !crate::bytes::starts_with(k, ns),
    ensures
        graph_sound(
            GraphView { dict: crate::model::obj_dict::fresh_dict(), store: m },
            ns,
        ),
{
    let h = crate::model::obj_dict::home(ns);
    law_no_edges(m, ns);
    assert forall|k: Seq<u8>| #[trigger] m.dom().contains(k) implies !crate::bytes::starts_with(
        k,
        h.ids,
    ) && !crate::bytes::starts_with(k, h.names) by {
        if crate::bytes::starts_with(k, h.ids) {
            assert(k.subrange(0, ns.len() as int) =~= h.ids.subrange(0, ns.len() as int));
            assert(h.ids.subrange(0, ns.len() as int) =~= ns);
        }
        if crate::bytes::starts_with(k, h.names) {
            assert(k.subrange(0, ns.len() as int) =~= h.names.subrange(0, ns.len() as int));
            assert(h.names.subrange(0, ns.len() as int) =~= ns);
        }
    }
    crate::model::obj_dict::law_new_dict_in_sync(m, h);
}

/// Every call leaves a sound handle, and names and numbers given before
/// stay.
pub proof fn law_step_is_sound(
    ns: Seq<u8>,
    slots: Seq<Slot>,
    a: GraphView,
    b: GraphView,
)
    requires
        graph_sound(a, ns),
        graph_step(ns, slots, a, b),
        forall|i: int| 0 <= i < slots.len() ==> attr_slot(#[trigger] slots[i]),
    ensures
        graph_sound(b, ns),
        known(a, ns).names.submap_of(known(b, ns).names),
        known(a, ns).ids.submap_of(known(b, ns).ids),
{
    if b == a {
    } else if b.store == a.store && (b.dict == crate::model::obj_dict::fresh_dict() || b.dict
        == known(a, ns)) {
        assert(known(b, ns) == known(a, ns));
    } else if exists|name: Seq<char>, e: EdgeView, faces: Seq<(Slot, Seq<u8>)>, id: u64| #[trigger]
        linked(ns, a, b, name, e, faces, id) {
        let (name, e, faces, id) = choose|
            name: Seq<char>,
            e: EdgeView,
            faces: Seq<(Slot, Seq<u8>)>,
            id: u64,
        | #[trigger]
            linked(ns, a, b, name, e, faces, id);
        law_linked(ns, a, b, name, e, faces, id, Seq::empty());
    } else {
        let id = choose|id: u64| #[trigger] unlinked(ns, slots, a, b, id);
        law_unlinked(ns, slots, a, b, Seq::empty(), id, Seq::empty());
    }
}

/// A run of calls.
pub open spec fn graph_run(
    ns: Seq<u8>,
    slots: Seq<Slot>,
    states: Seq<GraphView>,
) -> bool {
    forall|i: int| 0 <= i < states.len() - 1 ==> #[trigger] step_at(ns, slots, states, i)
}

/// One call leads from a state of a run to the next.
pub open spec fn step_at(
    ns: Seq<u8>,
    slots: Seq<Slot>,
    states: Seq<GraphView>,
    i: int,
) -> bool {
    graph_step(ns, slots, states[i], states[i + 1])
}

/// The call behind a state of a run unlinks an edge.
pub open spec fn unlinked_at(
    ns: Seq<u8>,
    slots: Seq<Slot>,
    states: Seq<GraphView>,
    i: int,
    id: u64,
) -> bool {
    unlinked(ns, slots, states[i], states[i + 1], id)
}

/// Every state that calls reach is sound, and names and numbers given in an
/// earlier one stay.
pub proof fn law_run_is_sound(
    ns: Seq<u8>,
    slots: Seq<Slot>,
    states: Seq<GraphView>,
    i: int,
    j: int,
)
    requires
        0 <= i <= j < states.len(),
        graph_sound(states[0], ns),
        graph_run(ns, slots, states),
        forall|i: int| 0 <= i < slots.len() ==> attr_slot(#[trigger] slots[i]),
    ensures
        graph_sound(states[j], ns),
        known(states[i], ns).names.submap_of(known(states[j], ns).names),
        known(states[i], ns).ids.submap_of(known(states[j], ns).ids),
    decreases j,
{
    if j > 0 {
        if i < j {
            law_run_is_sound(ns, slots, states, i, j - 1);
        } else {
            law_run_is_sound(ns, slots, states, j - 1, j - 1);
        }
        assert(step_at(ns, slots, states, j - 1));
        law_step_is_sound(ns, slots, states[j - 1], states[j]);
        let x = known(states[i], ns);
        let y = known(states[j - 1], ns);
        let z = known(states[j], ns);
        if i < j {
            lemma_submap_chain(x.names, y.names, z.names);
            lemma_submap_chain(x.ids, y.ids, z.ids);
        }
    }
}

proof fn lemma_submap_chain<K, V>(a: Map<K, V>, b: Map<K, V>, c: Map<K, V>)
    requires
        a.submap_of(b),
        b.submap_of(c),
    ensures
        a.submap_of(c),
{
    assert forall|k: K| #[trigger] a.dom().contains(k) implies c.dom().contains(k) && a[k]
        == c[k] by {
        assert(b.dom().contains(k));
    }
}

/// The kind of a linked edge is found by its number ever after, also through
/// a new handle. Two kinds have one number only if they are the same. A
/// number that was never given has no name.
pub proof fn law_kind_names_stay(
    ns: Seq<u8>,
    slots: Seq<Slot>,
    states: Seq<GraphView>,
    i: int,
    j: int,
    name: Seq<char>,
    e: EdgeView,
    faces: Seq<(Slot, Seq<u8>)>,
    id: u64,
    asked: u16,
    r: Option<String>,
    d: crate::model::obj_dict::DictView,
    other: Seq<char>,
)
    requires
        0 <= i < j < states.len(),
        graph_sound(states[0], ns),
        graph_run(ns, slots, states),
        forall|i: int| 0 <= i < slots.len() ==> attr_slot(#[trigger] slots[i]),
        linked(ns, states[i], states[i + 1], name, e, faces, id),
        crate::model::obj_dict::looked_up(
            states[j].dict,
            states[j].store,
            crate::model::obj_dict::home(ns),
            asked,
            r,
            d,
        ) || crate::model::obj_dict::looked_up(
            crate::model::obj_dict::fresh_dict(),
            states[j].store,
            crate::model::obj_dict::home(ns),
            asked,
            r,
            d,
        ),
    ensures
        asked == e.kind_id ==> r is Some && r->0@ == name,
        !known(states[j], ns).ids.dom().contains(asked) ==> r is None,
        known(states[j], ns).names.dom().contains(other) ==> (known(states[j], ns).names[other]
            == e.kind_id <==> other == name),
{
    let h = crate::model::obj_dict::home(ns);
    law_run_is_sound(ns, slots, states, i, i);
    law_linked(ns, states[i], states[i + 1], name, e, faces, id, Seq::empty());
    law_run_is_sound(ns, slots, states, i + 1, j);
    let l = known(states[j], ns);
    let now = known(states[i + 1], ns);
    assert(now == states[i + 1].dict);
    assert(now.ids.dom().contains(e.kind_id) && now.ids[e.kind_id] == name);
    assert(now.ids.submap_of(l.ids));
    assert(l.ids.dom().contains(e.kind_id));
    assert(l.ids[e.kind_id] == now.ids[e.kind_id]);
    assert(crate::model::obj_dict::load_dict(
        crate::model::obj_dict::fresh_dict(),
        states[j].store,
        h,
    ) == l);
    crate::model::obj_dict::law_load_ids(states[j].store, h, asked);
    if l.names.dom().contains(other) {
        assert(l.ids[l.names[other]] == other);
    }
}

/// An edge stays as it was linked until it is unlinked, whatever else
/// happens.
pub proof fn law_edge_stays(
    ns: Seq<u8>,
    slots: Seq<Slot>,
    states: Seq<GraphView>,
    i: int,
    j: int,
    id: u64,
)
    requires
        0 <= i <= j < states.len(),
        graph_sound(states[0], ns),
        graph_run(ns, slots, states),
        forall|i: int| 0 <= i < slots.len() ==> attr_slot(#[trigger] slots[i]),
        body_at(states[i].store, ns, id) is Some,
        forall|t: int| i <= t < j ==> !#[trigger] unlinked_at(ns, slots, states, t, id),
    ensures
        body_at(states[j].store, ns, id) == body_at(states[i].store, ns, id),
    decreases j - i,
{
    if i < j {
        law_edge_stays(ns, slots, states, i, j - 1, id);
        let a = states[j - 1];
        let b = states[j];
        law_run_is_sound(ns, slots, states, j - 1, j - 1);
        assert(step_at(ns, slots, states, j - 1));
        assert(!unlinked_at(ns, slots, states, j - 1, id));
        if exists|name: Seq<char>, e: EdgeView, faces: Seq<(Slot, Seq<u8>)>, x: u64| #[trigger]
            linked(ns, a, b, name, e, faces, x) {
            let (name, e, faces, x) = choose|
                name: Seq<char>,
                e: EdgeView,
                faces: Seq<(Slot, Seq<u8>)>,
                x: u64,
            | #[trigger]
                linked(ns, a, b, name, e, faces, x);
            law_linked(ns, a, b, name, e, faces, x, Seq::empty());
        } else if exists|x: u64| #[trigger] unlinked(ns, slots, a, b, x) {
            let x = choose|x: u64| #[trigger] unlinked(ns, slots, a, b, x);
            law_unlinked(ns, slots, a, b, Seq::empty(), x, Seq::empty());
        }
    }
}

/// A key of a declared attribute tells its slot, its value and its edge.
proof fn lemma_attr_key(
    ns: Seq<u8>,
    s: Slot,
    t: Slot,
    a: Seq<u8>,
    b: Seq<u8>,
    x: u64,
    y: u64,
)
    ensures
        face_prefix(ns, s, a) + edge_id_bytes(x) == face_key(ns, t, b, y) <==> s == t && a == b && x
            == y,
{
    let p = a + edge_id_bytes(x);
    let q = b + edge_id_bytes(y);
    lemma_face_concat(ns, s, a, edge_id_bytes(x));
    lemma_edge_id_bytes(x, y);
    lemma_edge_id_bytes(y, x);
    crate::model::index::lemma_slot_key(ns, s, t, p, q);
    if p == q {
        assert(p.subrange(p.len() - 8, p.len() as int) =~= edge_id_bytes(x));
        assert(q.subrange(q.len() - 8, q.len() as int) =~= edge_id_bytes(y));
        assert(p.subrange(0, p.len() - 8) =~= a);
        assert(q.subrange(0, q.len() - 8) =~= b);
    }
}

/// Storing an edge adds it to the edges of each value of its declared
/// attributes, and to no others.
pub proof fn law_link_is_found_by_attribute(
    m: crate::engine::storage::Contents,
    ns: Seq<u8>,
    e: EdgeView,
    faces: Seq<(Slot, Seq<u8>)>,
    id: u64,
    slot: Slot,
    encoded: Seq<u8>,
    x: u64,
)
    requires
        attr_slot(slot),
    ensures
        ({
            let after = crate::engine::storage::apply_ops(m, link_writes(ns, e, faces, id));
            let k = face_prefix(ns, slot, encoded) + edge_id_bytes(x);
            after.dom().contains(k) <==> m.dom().contains(k) || (x == id && faces.contains(
                (slot, encoded),
            ))
        }),
{
    let w = link_writes(ns, e, faces, id);
    let after = crate::engine::storage::apply_ops(m, w);
    let k = face_prefix(ns, slot, encoded) + edge_id_bytes(x);
    let keys = edge_keys(ns, e, id);
    let rest = encoded + edge_id_bytes(x);
    lemma_face_concat(ns, slot, encoded, edge_id_bytes(x));
    crate::model::index::lemma_slot_key(ns, slot, PRIMARY_SLOT, rest, edge_id_bytes(id));
    lemma_faces_apart(ns, slot, PRIMARY_SLOT, rest, edge_id_bytes(id));
    lemma_faces_apart(
        ns,
        slot,
        EDGE_KIND_INDEX_SLOT,
        rest,
        kind_bytes(e.kind_id) + edge_id_bytes(id),
    );
    lemma_faces_apart(ns, slot, EDGE_OUT_SLOT, rest, ref_bytes(e.src) + edge_id_bytes(id));
    lemma_faces_apart(ns, slot, EDGE_IN_SLOT, rest, ref_bytes(e.dst) + edge_id_bytes(id));
    lemma_faces_apart(
        ns,
        slot,
        EDGE_KIND_OUT_SLOT,
        rest,
        kind_bytes(e.kind_id) + ref_bytes(e.src) + edge_id_bytes(id),
    );
    lemma_faces_apart(
        ns,
        slot,
        EDGE_KIND_IN_SLOT,
        rest,
        kind_bytes(e.kind_id) + ref_bytes(e.dst) + edge_id_bytes(id),
    );
    assert forall|i: int| 0 <= i < w.len() implies ((#[trigger] w[i]).0 == k <==> i >= 6 && x == id
        && faces[i - 6] == (slot, encoded)) && w[i].1 is Some by {
        if i < 6 {
            assert(w[i].0 == keys[i]);
        } else {
            let f = faces[i - 6];
            lemma_attr_key(ns, slot, f.0, encoded, f.1, x, id);
            assert(w[i].0 == face_key(ns, f.0, f.1, id));
        }
    }
    lemma_puts_at(m, w, k);
    if x == id && faces.contains((slot, encoded)) {
        let j = choose|j: int| 0 <= j < faces.len() && faces[j] == (slot, encoded);
        assert(w[j + 6].0 == k);
    }
}

/// Writes without deletes leave a key if it was there or one of them writes
/// it.
proof fn lemma_puts_at(
    m: crate::engine::storage::Contents,
    w: Seq<(Seq<u8>, Option<Seq<u8>>)>,
    k: Seq<u8>,
)
    requires
        forall|i: int| 0 <= i < w.len() ==> (#[trigger] w[i]).1 is Some,
    ensures
        crate::engine::storage::apply_ops(m, w).dom().contains(k) <==> m.dom().contains(k)
            || exists|i: int| 0 <= i < w.len() && (#[trigger] w[i]).0 == k,
    decreases w.len(),
{
    if w.len() > 0 {
        let init = w.drop_last();
        let n = w.len() - 1;
        assert forall|i: int| 0 <= i < init.len() implies (#[trigger] init[i]).1 is Some by {
            assert(init[i] == w[i]);
        }
        lemma_puts_at(m, init, k);
        assert(w[n] == w.last());
        if exists|i: int| 0 <= i < init.len() && (#[trigger] init[i]).0 == k {
            let i = choose|i: int| 0 <= i < init.len() && (#[trigger] init[i]).0 == k;
            assert(w[i].0 == k);
        }
        if exists|i: int| 0 <= i < w.len() && (#[trigger] w[i]).0 == k {
            let i = choose|i: int| 0 <= i < w.len() && (#[trigger] w[i]).0 == k;
            if i < n {
                assert(init[i].0 == k);
            }
        }
    }
}

/// An edge that was removed is found by no declared attribute any more,
/// whatever its value was, and the other edges are found as before.
pub proof fn law_unlink_is_not_found_by_attribute(
    m: crate::engine::storage::Contents,
    ns: Seq<u8>,
    e: EdgeView,
    slots: Seq<Slot>,
    id: u64,
    slot: Slot,
    encoded: Seq<u8>,
    x: u64,
)
    requires
        attr_slot(slot),
        slots.contains(slot),
        forall|i: int| 0 <= i < slots.len() ==> attr_slot(#[trigger] slots[i]),
    ensures
        ({
            let after = m.remove_keys(unlink_keys(ns, e, slots, id));
            let k = face_prefix(ns, slot, encoded) + edge_id_bytes(x);
            if x == id {
                !after.dom().contains(k)
            } else {
                crate::engine::storage::same_at(after, m, k)
            }
        }),
{
    let k = face_prefix(ns, slot, encoded) + edge_id_bytes(x);
    let rest = encoded + edge_id_bytes(x);
    let p = face_prefix(ns, slot, Seq::empty());
    lemma_face_concat(ns, slot, encoded, edge_id_bytes(x));
    lemma_edge_id_bytes(x, id);
    lemma_edge_id_bytes(id, x);
    crate::model::index::lemma_slot_key(ns, slot, slot, rest, rest);
    crate::bytes::lemma_starts_with_concat(p, rest);
    assert(k == p + rest);
    assert(k.skip(p.len() as int) =~= rest);
    assert(rest.subrange(rest.len() - 8, rest.len() as int) =~= edge_id_bytes(x));
    if x == id {
        let t = choose|t: int| 0 <= t < slots.len() && slots[t] == slot;
        assert(attr_entry_at(ns, slots, id, k, t));
    } else {
        if attr_entry(ns, slots, id, k) {
            let t = choose|t: int| #[trigger] attr_entry_at(ns, slots, id, k, t);
            crate::model::index::lemma_slot_key(ns, slot, slots[t], rest, rest);
            assert(slots[t] == slot);
        }
        let keys = edge_keys(ns, e, id);
        if keys.contains(k) {
            let i = choose|i: int| 0 <= i < keys.len() && keys[i] == k;
            lemma_faces_apart(ns, slot, PRIMARY_SLOT, rest, edge_id_bytes(id));
            lemma_faces_apart(
                ns,
                slot,
                EDGE_KIND_INDEX_SLOT,
                rest,
                kind_bytes(e.kind_id) + edge_id_bytes(id),
            );
            lemma_faces_apart(ns, slot, EDGE_OUT_SLOT, rest, ref_bytes(e.src) + edge_id_bytes(id));
            lemma_faces_apart(ns, slot, EDGE_IN_SLOT, rest, ref_bytes(e.dst) + edge_id_bytes(id));
            lemma_faces_apart(
                ns,
                slot,
                EDGE_KIND_OUT_SLOT,
                rest,
                kind_bytes(e.kind_id) + ref_bytes(e.src) + edge_id_bytes(id),
            );
            lemma_faces_apart(
                ns,
                slot,
                EDGE_KIND_IN_SLOT,
                rest,
                kind_bytes(e.kind_id) + ref_bytes(e.dst) + edge_id_bytes(id),
            );
            assert(0 <= i < 6);
        }
    }
}

/// The answers to a taken and to a missing id name the id, and no two ids
/// get the same answer.
pub proof fn law_answers_name_the_id(a: u64, b: u64)
    ensures
        live_message(a) == live_message(b) <==> a == b,
        missing_message(a) == missing_message(b) <==> a == b,
        live_message(a) != missing_message(b),
{
    reveal_strlit("edge_id ");
    reveal_strlit("unlink: edge_id ");
    crate::text::law_decimal_reads(a as nat);
    crate::text::law_decimal_reads(b as nat);
    lemma_numbered_apart("edge_id "@, crate::text::decimal(a as nat), crate::text::decimal(b as nat), " already live"@);
    lemma_numbered_apart("unlink: edge_id "@, crate::text::decimal(a as nat), crate::text::decimal(b as nat), " not found"@);
    assert(live_message(a)[0] == 'e');
    assert(missing_message(b)[0] == 'u');
}

proof fn lemma_numbered_apart(front: Seq<char>, x: Seq<char>, y: Seq<char>, back: Seq<char>)
    ensures
        front + x + back == front + y + back ==> x == y,
{
    let a = front + x + back;
    let b = front + y + back;
    if a == b {
        let n = front.len() as int;
        assert(a.subrange(n, a.len() - back.len()) =~= x);
        assert(b.subrange(n, b.len() - back.len()) =~= y);
    }
}

/// The far ends of a list are those of its stored edges, one after another.
pub proof fn law_far_ends_in_order(
    m: crate::engine::storage::Contents,
    ns: Seq<u8>,
    a: Seq<u64>,
    b: Seq<u64>,
    id: u64,
    target: bool,
)
    ensures
        far_ends(m, ns, a + b, target) == far_ends(m, ns, a, target) + far_ends(m, ns, b, target),
        far_ends(m, ns, seq![id], target) == (match body_at(m, ns, id) {
            Some(e) => if target {
                seq![e.dst]
            } else {
                seq![e.src]
            },
            None => far_ends(m, ns, seq![id], target),
        }),
        !m.dom().contains(edge_key(ns, id)) ==> far_ends(m, ns, seq![id], target).len() == 0,
    decreases b.len(),
{
    let one = seq![id];
    assert(one.drop_last() =~= Seq::empty());
    assert(far_ends(m, ns, one.drop_last(), target) =~= Seq::empty());
    assert(one.last() == id);
    if b.len() == 0 {
        assert(a + b =~= a);
        assert(far_ends(m, ns, a, target) + far_ends(m, ns, b, target) =~= far_ends(
            m,
            ns,
            a,
            target,
        ));
    } else {
        law_far_ends_in_order(m, ns, a, b.drop_last(), id, target);
        assert((a + b).drop_last() =~= a + b.drop_last());
        assert((a + b).last() == b.last());
        assert(far_ends(m, ns, a + b, target) =~= far_ends(m, ns, a, target) + far_ends(
            m,
            ns,
            b,
            target,
        ));
    }
    if body_at(m, ns, id) is Some {
        assert(far_ends(m, ns, one, target) =~= if target {
            seq![body_at(m, ns, id)->0.dst]
        } else {
            seq![body_at(m, ns, id)->0.src]
        });
    }
}

} // verus!
