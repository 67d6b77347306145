//! Graphs: nodes, edges and their indexes.

use okm::engine::mem_store::MemStore;
use okm::engine::storage::{MemBatch, VirtualStorage};
use okm::model::graph::{EdgeFact, Graph, KvGraph, NodeRef};
use okm::model::index::{Slot, PRIMARY_SLOT};

struct Follows;

impl KvGraph for Follows {
    const NS_PREFIX: [u8; 2] = [0x00, 0x64];

    fn attrs(&self) -> Vec<u8> {
        Vec::new()
    }

    fn faces(&self, _edge_id: u64) -> vstd::seq::Seq<(Slot, vstd::seq::Seq<u8>)> {
        unreachable!()
    }

    fn slots() -> vstd::seq::Seq<Slot> {
        unreachable!()
    }

    fn attr_faces(&self, _edge_id: u64) -> Vec<(Slot, Vec<u8>)> {
        Vec::new()
    }

    fn attr_slots() -> Vec<Slot> {
        Vec::new()
    }
}

fn node(ns: u16, key: u64) -> NodeRef {
    NodeRef::new(&ns.to_be_bytes(), &key.to_be_bytes())
}

fn person(id: u64) -> NodeRef {
    node(0x10, id)
}

fn org(id: u32) -> NodeRef {
    node(0x11, id as u64)
}

fn fact(src: NodeRef, dst: NodeRef) -> EdgeFact {
    EdgeFact { src, dst, kind: "has".into(), attrs: Vec::new() }
}

#[test]
fn noderef_wire_is_self_describing() {
    let wire = person(7).encode();
    assert_eq!(wire.len(), 2 + 1 + 8);
    let (back, n) = NodeRef::decode(&wire).unwrap();
    assert_eq!(n, wire.len());
    assert_eq!(back, person(7));
    let mut w2 = wire.clone();
    w2.extend_from_slice(&0xEEu64.to_be_bytes());
    let (back2, n2) = NodeRef::decode(&w2).unwrap();
    assert_eq!(n2, wire.len());
    assert_eq!(back2.pkey, 7u64.to_be_bytes().to_vec());
    assert!(NodeRef::decode(&[0x00, 0x10]).is_none());
    let small = NodeRef::new(&0x11u16.to_be_bytes(), &[1, 2]);
    assert_eq!(small.encode().len(), 2 + 1 + 2);
}

#[test]
fn link_writes_six_faces_and_kind_dict() {
    let mut g: Graph<_, Follows> = Graph::new(MemStore::new());
    let e = EdgeFact { src: person(1), dst: org(9), kind: "has".into(), attrs: Vec::new() };
    g.link(&e, &Follows, 100).unwrap();

    let pk = {
        let mut k = vec![0x00, 0x64];
        k.extend_from_slice(&PRIMARY_SLOT.to_be_bytes());
        k.extend_from_slice(&100u64.to_be_bytes());
        k
    };
    let body = g.store().get(&pk).unwrap();
    assert_eq!(&body[..2], &0x10u16.to_be_bytes());
    assert_eq!(body[2], 8, "pkey len varint (one byte for 8)");
    assert_eq!(&body[3..11], &1u64.to_be_bytes());
    assert_eq!(&body[11..13], &0x11u16.to_be_bytes());
    assert_eq!(body[13], 8);
    assert_eq!(&body[14..22], &9u64.to_be_bytes());
    assert_eq!(&body[22..24], &0u16.to_be_bytes(), "first-seen kind gets id 0");

    assert_eq!(g.out_edges(&person(1)), vec![100]);
    assert_eq!(g.in_edges(&org(9)), vec![100]);
    assert_eq!(g.typed_out("has", &person(1)), vec![100]);
    assert_eq!(g.typed_in("has", &org(9)), vec![100]);
    assert_eq!(g.edges_of_kind("has"), vec![100]);
    assert!(g.typed_out("owns", &person(1)).is_empty());
    assert!(g.edges_of_kind("owns").is_empty());
}

#[test]
fn parallel_edges_are_separate_facts() {
    let mut g: Graph<_, Follows> = Graph::new(MemStore::new());
    g.link(&fact(person(1), org(9)), &Follows, 1).unwrap();
    g.link(&fact(person(1), org(9)), &Follows, 2).unwrap();
    assert_eq!(g.out_edges(&person(1)), vec![1, 2]);
    assert_eq!(g.in_edges(&org(9)), vec![1, 2]);
    assert_eq!(g.edges_of_kind("has"), vec![1, 2]);
}

#[test]
fn unlink_removes_all_faces() {
    let mut g: Graph<_, Follows> = Graph::new(MemStore::new());
    g.link(&fact(person(1), org(9)), &Follows, 1).unwrap();
    g.link(&fact(person(2), org(9)), &Follows, 2).unwrap();
    g.unlink(1).unwrap();
    assert_eq!(g.out_edges(&person(1)), Vec::<u64>::new());
    assert_eq!(g.edges_of_kind("has"), vec![2]);
    assert!(g.get_edge(1).is_none());
    assert!(g.unlink(1).is_err(), "double unlink errors, not silently re-deletes");
}

#[test]
fn link_rejects_live_edge_id() {
    let mut g: Graph<_, Follows> = Graph::new(MemStore::new());
    g.link(&fact(person(1), org(9)), &Follows, 1).unwrap();
    assert!(g.link(&fact(person(2), org(8)), &Follows, 1).is_err());
}

#[test]
fn shared_ns_of_both_endpoints_still_scans() {
    let mut g: Graph<_, Follows> = Graph::new(MemStore::new());
    g.link(&fact(person(1), person(2)), &Follows, 5).unwrap();
    assert_eq!(g.out_edges(&person(1)), vec![5]);
    assert_eq!(g.in_edges(&person(2)), vec![5]);
    assert_eq!(g.out_edges(&person(2)), Vec::<u64>::new());
}

#[test]
fn edges_lead_to_their_ends() {
    let mut g: Graph<_, Follows> = Graph::new(MemStore::new());
    g.link(&fact(person(1), org(9)), &Follows, 1).unwrap();
    g.link(&fact(person(1), org(8)), &Follows, 2).unwrap();
    assert_eq!(g.out_nodes(&person(1)), vec![org(9), org(8)]);
    assert_eq!(g.in_nodes(&org(8)), vec![person(1)]);
    assert_eq!(g.typed_out_nodes("has", &person(1)).len(), 2);
    assert_eq!(g.typed_in_nodes("has", &org(9)), vec![person(1)]);
    assert_eq!(g.kind_name(0).as_deref(), Some("has"));
    assert_eq!(g.kind_name(1), None);
    let body = g.get_edge(2).unwrap();
    assert_eq!(body.dst, org(8));
    assert_eq!(body.kind_id, 0);
}

/// An edge with a weight that can be searched by.
struct Weighted(u8);

const WEIGHT_SLOT: Slot = 0x1000;

impl KvGraph for Weighted {
    const NS_PREFIX: [u8; 2] = [0x00, 0x65];

    fn attrs(&self) -> Vec<u8> {
        vec![self.0]
    }

    fn faces(&self, _edge_id: u64) -> vstd::seq::Seq<(Slot, vstd::seq::Seq<u8>)> {
        unreachable!()
    }

    fn slots() -> vstd::seq::Seq<Slot> {
        unreachable!()
    }

    fn attr_faces(&self, _edge_id: u64) -> Vec<(Slot, Vec<u8>)> {
        vec![(WEIGHT_SLOT, vec![self.0])]
    }

    fn attr_slots() -> Vec<Slot> {
        vec![WEIGHT_SLOT]
    }
}

#[test]
fn attributes_are_indexed_and_swept() {
    let mut g: Graph<_, Weighted> = Graph::new(MemStore::new());
    let e = EdgeFact { src: person(1), dst: org(9), kind: "has".into(), attrs: vec![3] };
    g.link(&e, &Weighted(3), 7).unwrap();
    assert_eq!(g.by_attr_face(WEIGHT_SLOT, &[3]), vec![7]);
    assert_eq!(g.by_attr_face(WEIGHT_SLOT, &[4]), Vec::<u64>::new());
    g.unlink(7).unwrap();
    assert_eq!(g.by_attr_face(WEIGHT_SLOT, &[3]), Vec::<u64>::new());
}

#[test]
fn linking_into_a_batch_waits_for_its_commit() {
    let mut g: Graph<_, Follows> = Graph::new(MemStore::new());
    let mut batch = MemBatch::new();
    g.link_into(&mut batch, &fact(person(1), org(9)), &Follows, 4).unwrap();
    assert!(g.get_edge(4).is_none());
}

#[test]
fn edges_outlive_other_calls() {
    let mut g: Graph<_, Follows> = Graph::new(MemStore::new());
    let kind = |k: &str, src, dst| EdgeFact {
        src,
        dst,
        kind: k.to_string(),
        attrs: vec![7],
    };
    g.link(&kind("has", person(1), org(9)), &Follows, 1).unwrap();
    let keys = g.store().scan_range(b"", None);
    g.link(&kind("owns", person(1), org(8)), &Follows, 2).unwrap();
    g.link(&kind("has", person(2), org(9)), &Follows, 3).unwrap();
    assert!(g.link(&kind("has", person(2), org(8)), &Follows, 3).is_err());
    let body = g.get_edge(1).unwrap();
    assert_eq!((body.src, body.dst, body.attrs), (person(1), org(9), vec![7]));
    assert_eq!(g.kind_name(body.kind_id).as_deref(), Some("has"));
    assert_eq!(g.out_edges(&person(1)), vec![1, 2]);
    assert_eq!(g.typed_out("has", &person(1)), vec![1]);
    assert_eq!(g.typed_out("owns", &person(1)), vec![2]);
    assert_eq!(g.out_nodes(&person(1)), vec![org(9), org(8)]);
    g.unlink(2).unwrap();
    g.unlink(1).unwrap();
    assert!(g.unlink(1).is_err());
    assert!(g.get_edge(1).is_none());
    assert!(g.out_edges(&person(1)).is_empty());
    assert_eq!(g.in_edges(&org(9)), vec![3]);
    assert_eq!(g.kind_name(body.kind_id).as_deref(), Some("has"));
    assert_eq!(g.kind_name(77), None);
    let left = g.store().scan_range(b"", None);
    let dict = keys.iter().filter(|k| left.contains(k)).count();
    assert_eq!(dict, 2, "only the name of the kind is left of the first edge");
}
