//! Writes on an engine that may refuse a batch.

use std::cell::{Cell, RefCell};
use std::rc::Rc;

use okm::engine::mem_store::MemStore;
use okm::engine::storage::{Contents, MemBatch, VirtualStorage};
use okm::model::document::Collection;
use okm::model::graph::{EdgeFact, Graph, KvGraph, NodeRef};
use okm::model::index::Slot;
use okm::model::obj_dynamic::{DynamicValue, FieldMap};
use okm::obj_dynamic::{DynamicValue as FlatValue, VariantMap};
use okm::table::Table;
use okm::users::{User, UserKey};

/// An engine that refuses batches on demand and counts those it took.
#[derive(Clone)]
struct Picky {
    inner: Rc<RefCell<MemStore>>,
    refuses: Rc<Cell<bool>>,
    taken: Rc<Cell<usize>>,
}

impl Picky {
    fn new() -> Self {
        Picky {
            inner: Rc::new(RefCell::new(MemStore::new())),
            refuses: Rc::new(Cell::new(false)),
            taken: Rc::new(Cell::new(0)),
        }
    }

    fn keys(&self) -> usize {
        self.scan_range(b"", None).len()
    }
}

impl VirtualStorage for Picky {
    fn contents(&self) -> Contents {
        unreachable!()
    }

    fn never_refuses() -> bool {
        unreachable!()
    }

    fn put(&mut self, key: Vec<u8>, value: Vec<u8>) {
        self.inner.borrow_mut().put(key, value)
    }

    fn get(&self, key: &[u8]) -> Option<Vec<u8>> {
        self.inner.borrow().get(key)
    }

    fn del(&mut self, key: &[u8]) {
        self.inner.borrow_mut().del(key)
    }

    fn scan_range(&self, begin: &[u8], end: Option<&[u8]>) -> Vec<Vec<u8>> {
        self.inner.borrow().scan_range(begin, end)
    }

    fn commit_batch(&mut self, batch: MemBatch) -> Result<(), String> {
        if self.refuses.get() {
            return Err("full".to_string());
        }
        self.taken.set(self.taken.get() + 1);
        self.inner.borrow_mut().commit_batch(batch)
    }
}

struct Knows;

impl KvGraph for Knows {
    const NS_PREFIX: [u8; 2] = [0x00, 0x65];

    fn attrs(&self) -> Vec<u8> {
        Vec::new()
    }

    fn faces(&self, _edge_id: u64) -> vstd::seq::Seq<(Slot, vstd::seq::Seq<u8>)> {
        unreachable!()
    }

    fn slots() -> vstd::seq::Seq<Slot> {
        unreachable!()
    }

    fn attr_faces(&self, _edge_id: u64) -> Vec<(Slot, Vec<u8>)> {
        Vec::new()
    }

    fn attr_slots() -> Vec<Slot> {
        Vec::new()
    }
}

fn fact(kind: &str) -> EdgeFact {
    let node = |key: u64| NodeRef::new(&[0, 0x10], &key.to_be_bytes());
    EdgeFact { src: node(1), dst: node(2), kind: kind.to_string(), attrs: Vec::new() }
}

#[test]
fn a_refused_edge_leaves_no_kind_behind() {
    let store = Picky::new();
    let mut g: Graph<Picky, Knows> = Graph::new(store.clone());
    store.refuses.set(true);
    let e = g.link(&fact("has"), &Knows, 1).unwrap_err();
    assert!(e.starts_with("graph link commit failed: "));
    assert_eq!(store.keys(), 0);
    assert_eq!(g.kind_name(0), None);
    store.refuses.set(false);
    g.link(&fact("owns"), &Knows, 1).unwrap();
    assert_eq!(store.taken.get(), 1);
    assert_eq!(store.keys(), 2 + 6);
    g.link(&fact("owns"), &Knows, 2).unwrap();
    assert_eq!(store.keys(), 2 + 6 + 6);
    let kind = g.get_edge(2).unwrap().kind_id;
    assert_eq!(kind, 0);
    let mut other: Graph<Picky, Knows> = Graph::new(store.clone());
    assert_eq!(other.kind_name(kind).as_deref(), Some("owns"));
    store.refuses.set(true);
    assert!(g.unlink(1).unwrap_err().starts_with("graph unlink commit failed: "));
    assert!(g.get_edge(1).is_some());
}

#[test]
fn fields_and_their_names_are_stored_together() {
    let store = Picky::new();
    let mut c: Collection<Picky, UserKey, User> = Collection::new(store.clone());
    let key = UserKey { org_id: 1, user_id: 2 };
    let mut inner = FieldMap::new();
    inner.insert("x".to_string(), DynamicValue::Int(-3));
    let mut m = FieldMap::new();
    m.insert("a".to_string(), DynamicValue::UInt(3));
    m.insert("b".to_string(), DynamicValue::Obj(inner));
    store.refuses.set(true);
    c.put_fields(&key, &m);
    assert!(c.get_fields(&key).is_none());
    assert_eq!(store.keys(), 0);
    store.refuses.set(false);
    c.put_fields(&key, &m);
    assert_eq!(c.get_fields(&key), Some(m));
    assert_eq!((store.taken.get(), store.keys()), (1, 3 * 2 + 1));
    // Known names need no batch.
    store.refuses.set(true);
    let mut n = FieldMap::new();
    n.insert("b".to_string(), DynamicValue::Bool(true));
    c.put_fields(&key, &n);
    assert_eq!(c.get_fields(&key), Some(n));
    c.put_fields(&key, &FieldMap::new());
    assert!(c.get_fields(&key).is_none());
}

#[test]
fn variants_and_their_names_are_stored_together() {
    let store = Picky::new();
    let mut t: Table<Picky, UserKey, User> = Table::new(store.clone());
    let key = UserKey { org_id: 1, user_id: 2 };
    let mut m = VariantMap::new();
    m.insert("a".to_string(), FlatValue::UInt(3));
    m.insert("b".to_string(), FlatValue::Null);
    store.refuses.set(true);
    t.set_variants(&key, &m);
    assert!(t.get_variants(&key).is_none());
    assert_eq!(store.keys(), 0);
    store.refuses.set(false);
    t.set_variants(&key, &m);
    assert_eq!(t.get_variants(&key), Some(m));
    assert_eq!((store.taken.get(), store.keys()), (1, 2 * 2 + 1));
    store.refuses.set(true);
    let mut n = VariantMap::new();
    n.insert("a".to_string(), FlatValue::Bool(false));
    t.set_variants(&key, &n);
    assert_eq!(t.get_variants(&key), Some(n));
}
