//! Collections, tables, junctions and edges of users.

use okm::collection::EdgeTable;
use okm::edge::KvEdge;
use okm::engine::mem_store::MemStore;
use okm::engine::storage::{MemBatch, VirtualStorage};
use okm::index::{func_entry_pairs, Document, scan_index, IndexFuncResult, IndexFuncValues};
use okm::junction::a_side_key;
use okm::key::{encode_prefix_named, KeyEncode};
use okm::model::collection::Junction;
use okm::model::document::Collection;
use okm::model::obj_dynamic::{DynamicValue, FieldMap};
use okm::obj_dynamic::{DynamicValue as FlatValue, VariantMap};
use okm::payload::{cold_segment, cold_value, hot_segment, push_cold, start_payload};
use okm::subscribe::{delivered, ChannelCell, Event, Op};
use okm::table::Table;
use okm::users::{ByLevel, Follows, GroupCount, GroupError, Members, User, UserKey};

fn key(org_id: u32, user_id: u64) -> UserKey {
    UserKey { org_id, user_id }
}

fn user(level: u32, score: u16, name: &str) -> User {
    User { level, score, name: name.to_string() }
}

fn users() -> Collection<MemStore, UserKey, User> {
    Collection::new(MemStore::new())
}

#[test]
fn keys_are_their_fields_side_by_side() {
    let k = key(1, 2);
    assert_eq!(k.encode(), vec![0, 0, 0, 1, 0, 0, 0, 0, 0, 0, 0, 2]);
    assert_eq!(UserKey::decode(&k.encode()), k);
    let mut buf = Vec::new();
    let n = encode_prefix_named(&k, &mut buf, &vec!["org_id"]);
    assert_eq!((n, buf), (4, vec![0, 0, 0, 1]));
}

#[test]
fn a_document_reads_back_until_deleted() {
    let mut c = users();
    assert_eq!(c.get(&key(1, 1)), None);
    c.put(&key(1, 1), &user(7, 9, "ada"));
    assert_eq!(c.get(&key(1, 1)), Some(user(7, 9, "ada")));
    assert_eq!(c.get(&key(1, 2)), None);
    c.put(&key(1, 1), &user(8, 9, "ada"));
    assert_eq!(c.get(&key(1, 1)), Some(user(8, 9, "ada")));
    assert!(c.delete_by_pkey(&key(1, 1)));
    assert_eq!(c.get(&key(1, 1)), None);
    assert!(!c.delete_by_pkey(&key(1, 1)));
}

#[test]
fn documents_stand_behind_their_namespace() {
    let mut c = users();
    c.put(&key(1, 1), &user(7, 9, "ada"));
    let pk = c.primary_key(&key(1, 1));
    assert_eq!(pk[..4], [0, 42, 0, 0]);
    let payload = c.store().get(&pk).unwrap();
    assert_eq!(payload[..3], [2, 0, 6]);
    assert_eq!(payload[3..9], [0, 0, 0, 7, 0, 9]);
    assert_eq!(payload[9..], [2, 0, 0, 0, 3, b'a', b'd', b'a']);
}

#[test]
fn index_entries_follow_their_documents() {
    let mut c = users();
    c.put(&key(1, 1), &user(7, 9, "ada"));
    c.put(&key(1, 2), &user(3, 5, "bob"));
    let found = c.scan::<ByLevel>(&7u32.to_be_bytes());
    assert_eq!(found.len(), 1);
    assert_eq!(found[0].0.decoded, key(1, 1));
    assert_eq!(found[0].0.taken, 12);
    assert_eq!(found[0].1, Some(user(7, 9, "ada")));
    let covered = c.scan_covered::<ByLevel>(&7u32.to_be_bytes());
    assert_eq!(covered[0].1, vec![0, 9]);
    c.put(&key(1, 1), &user(8, 9, "ada"));
    assert_eq!(c.scan::<ByLevel>(&7u32.to_be_bytes()).len(), 1, "the old entry stays");
    let at = c.index_key::<ByLevel>(&key(1, 1), &user(8, 9, "ada"));
    assert!(c.store().get(&at).is_some());
    c.delete(&key(1, 1), &user(8, 9, "ada"));
    assert!(c.store().get(&at).is_none());
}

#[test]
fn ranges_go_both_ways() {
    let mut c = users();
    for level in 1..=5u32 {
        c.put(&key(1, level as u64), &user(level, 0, "u"));
    }
    let rows = c.scan_range::<ByLevel>(&2u32.to_be_bytes(), Some(&4u32.to_be_bytes()));
    let levels: Vec<u32> = rows.iter().map(|r| r.1.as_ref().unwrap().level).collect();
    assert_eq!(levels, vec![2, 3]);
    let mut it = c.scan_range_iter::<ByLevel>(&2u32.to_be_bytes(), None);
    assert_eq!(it.next().unwrap().1.unwrap().level, 2);
    assert_eq!(it.next_back().unwrap().1.unwrap().level, 5);
    assert_eq!(it.next_back().unwrap().1.unwrap().level, 4);
    assert_eq!(it.next().unwrap().1.unwrap().level, 3);
    assert!(it.next().is_none());
}

#[test]
fn upserts_see_what_was_there() {
    let mut c = users();
    let first = c.upsert_with(&key(1, 1), |old| {
        assert!(old.is_none());
        user(1, 1, "a")
    });
    assert_eq!(first.level, 1);
    let next = c.upsert_with(&key(1, 1), |old| user(old.unwrap().level + 1, 1, "a"));
    assert_eq!(next.level, 2);
    assert_eq!(c.get(&key(1, 1)).unwrap().level, 2);
}

#[test]
fn batches_carry_documents() {
    let mut batch = MemBatch::new();
    users().save_into(&mut batch, &key(1, 1), &user(7, 9, "ada"));
    let mut store = MemStore::new();
    store.commit_batch(batch).unwrap();
    let c: Collection<MemStore, UserKey, User> = Collection::new(store);
    assert_eq!(c.get(&key(1, 1)), Some(user(7, 9, "ada")));
    assert_eq!(c.scan::<ByLevel>(&7u32.to_be_bytes()).len(), 1);
}

#[test]
fn keys_come_in_order() {
    let mut c = users();
    for k in [key(2, 1), key(1, 9), key(1, 2)] {
        c.put(&k, &user(0, 0, "x"));
    }
    assert_eq!(c.scan_keys(), vec![key(1, 2), key(1, 9), key(2, 1)]);
    assert_eq!(c.scan_documents_raw().len(), 3);
    assert_eq!(c.prune_deprecated_slots(), 0);
}

#[test]
fn undeclared_fields_stand_beside_the_document() {
    let mut c = users();
    let mut m = FieldMap::new();
    m.insert("nick".to_string(), DynamicValue::Str("al".to_string()));
    c.put_fields(&key(1, 1), &m);
    assert_eq!(c.get_fields(&key(1, 1)), Some(m));
    assert_eq!(c.get(&key(1, 1)), None);
    assert!(c.delete_fields(&key(1, 1)));
    assert_eq!(c.get_fields(&key(1, 1)), None);
    assert!(!c.delete_fields(&key(1, 1)));
}

#[test]
fn whole_documents_split_and_join() {
    let mut c = users();
    let mut m = FieldMap::new();
    m.insert("level".to_string(), DynamicValue::UInt(4));
    m.insert("score".to_string(), DynamicValue::UInt(2));
    m.insert("name".to_string(), DynamicValue::Str("ada".to_string()));
    m.insert("nick".to_string(), DynamicValue::Null);
    c.put_document(&key(1, 1), &m);
    assert_eq!(c.get(&key(1, 1)), Some(user(4, 2, "ada")));
    assert_eq!(c.get_document(&key(1, 1)), Some(m));
    assert_eq!(c.get_fields(&key(1, 1)).unwrap().len(), 1);
    assert!(c.delete_document(&key(1, 1)));
    assert_eq!(c.get_document(&key(1, 1)), None);
}

#[test]
fn an_older_layout_lacks_later_fields() {
    let payload = start_payload(1, &7u32.to_be_bytes());
    let mut store = MemStore::new();
    let pk = users().primary_key(&key(1, 1));
    store.put(pk, payload);
    let c: Collection<MemStore, UserKey, User> = Collection::new(store);
    assert_eq!(c.get(&key(1, 1)), Some(user(7, 0, "")));
}

#[test]
fn payload_segments_part() {
    let mut b = start_payload(3, &[1, 2]);
    push_cold(&mut b, 5, b"xy");
    assert_eq!(b, vec![3, 0, 2, 1, 2, 5, 0, 0, 0, 2, b'x', b'y']);
    assert_eq!(hot_segment(&b), &[1, 2]);
    assert_eq!(cold_value(cold_segment(&b), 5), Some(b"xy".to_vec()));
    assert_eq!(cold_value(cold_segment(&b), 6), None);
}

#[test]
fn tables_have_narrow_slots() {
    let mut t: Table<MemStore, UserKey, User> = Table::new(MemStore::new());
    t.put(&key(1, 1), &user(7, 9, "ada"));
    assert_eq!(t.primary_key(&key(1, 1))[..3], [0, 42, 0]);
    assert_eq!(t.get(&key(1, 1)), Some(user(7, 9, "ada")));
    assert_eq!(t.scan_keys(), vec![key(1, 1)]);
    assert_eq!(t.scan::<ByLevel>(&7u32.to_be_bytes()).len(), 1);
    assert_eq!(t.scan_covered::<ByLevel>(&7u32.to_be_bytes())[0].1, vec![0, 9]);
    assert_eq!(t.row_width(), 12 + 6);
    assert!(t.delete_by_pkey(&key(1, 1)));
    assert_eq!(t.get(&key(1, 1)), None);
}

#[test]
fn table_variants_read_back() {
    let mut t: Table<MemStore, UserKey, User> = Table::new(MemStore::new());
    let mut m = VariantMap::new();
    m.insert("b".to_string(), FlatValue::Bool(true));
    m.insert("a".to_string(), FlatValue::UInt(3));
    t.set_variants(&key(1, 1), &m);
    let back = t.get_variants(&key(1, 1)).unwrap();
    assert_eq!(back.len(), 2);
    assert_eq!(back.get("a"), Some(&FlatValue::UInt(3)));
    assert!(t.delete_variants(&key(1, 1)));
    assert!(t.get_variants(&key(1, 1)).is_none());
    assert!(!t.delete_variants(&key(1, 1)));
}

#[test]
fn junctions_link_both_ways() {
    let mut j: Junction<MemStore, Follows> = Junction::new(MemStore::new());
    j.link(&key(1, 1), &key(1, 2));
    j.link(&key(1, 1), &key(1, 3));
    j.link(&key(1, 4), &key(1, 2));
    assert_eq!(j.forward(&key(1, 1)), vec![key(1, 2), key(1, 3)]);
    assert_eq!(j.reverse(&key(1, 2)), vec![key(1, 1), key(1, 4)]);
    assert_eq!(j.reverse_raw(&key(1, 3)), vec![key(1, 1).encode()]);
    assert_eq!(j.reverse_prefix(&key(1, 3))[0].taken, 12);
    j.unlink(&key(1, 1), &key(1, 2));
    assert_eq!(j.forward(&key(1, 1)), vec![key(1, 3)]);
    assert_eq!(j.reverse(&key(1, 2)), vec![key(1, 4)]);
}

#[test]
fn edges_may_know_a_part_of_a_key() {
    let mut e: EdgeTable<MemStore, Members> = EdgeTable::new(MemStore::new());
    e.link(&key(7, 0), &42);
    assert_eq!(e.forward(&key(7, 0)), vec![42]);
    let back = e.reverse_prefix(&42);
    assert_eq!(back.len(), 1);
    assert_eq!(back[0].taken, 4);
    assert_eq!(back[0].decoded, key(7, 0));
    assert_eq!(e.reverse_raw(&42), vec![vec![0, 0, 0, 7]]);
    let mut batch = MemBatch::new();
    e.save_into(&mut batch, &key(8, 0), &42);
    e.unlink(&key(7, 0), &42);
    assert!(e.forward(&key(7, 0)).is_empty());
    assert!(e.reverse_prefix(&42).is_empty());
}

#[test]
fn groups_count_up_and_down() {
    let mut acc = GroupCount::seed();
    assert_eq!(GroupCount::fold(&mut acc), Ok(()));
    assert_eq!(acc, 1u64.to_be_bytes().to_vec());
    assert_eq!(GroupCount::unfold(&mut acc), Ok(()));
    assert_eq!(GroupCount::unfold(&mut acc), Err(GroupError::Underflow));
    let mut short = vec![1];
    assert_eq!(GroupCount::fold(&mut short), Err(GroupError::Width));
    assert_eq!(GroupCount::unfold(&mut short), Err(GroupError::Width));
}

#[test]
fn index_functions_give_entries() {
    let mut buf = Vec::new();
    5u16.encode_index(&mut buf);
    assert_eq!(buf, vec![0, 5]);
    assert_eq!("ab".to_string().func_values(), vec![b"ab".to_vec()]);
    assert_eq!(vec![1u8, 2].func_values(), vec![vec![1], vec![2]]);
    assert_eq!(7u32.func_values(), vec![vec![0, 0, 0, 7]]);
}

#[test]
fn computed_indexes_have_an_entry_per_value() {
    let (k, u) = (key(1, 1), user(7, 9, "ada"));
    let pairs = func_entry_pairs::<ByLevel, Vec<u16>>(&[0, 42], &k, &u, vec![1, 2]);
    assert_eq!(pairs.len(), 2);
    assert_eq!(pairs[0].0[..6], [0, 42, 0x10, 0x01, 0, 1]);
    assert_eq!(pairs[1].0[6..], k.encode());
    assert_eq!(pairs[1].1, vec![0, 9]);
    let mut store = MemStore::new();
    for (ek, ev) in pairs {
        store.put(ek, ev);
    }
    let found = scan_index::<MemStore, ByLevel>(&store, &[0, 42], &[0, 2]);
    assert_eq!(found.len(), 1);
    assert_eq!(found[0].decoded, k);
    assert_eq!(a_side_key(&Follows { follower: key(1, 1), followed: key(1, 2) }).len(), 2 + 2 + 24);
}

#[test]
fn events_reach_a_registered_sink() {
    let mut none: ChannelCell<fn(u32) -> bool> = ChannelCell::new();
    assert!(!none.has_sink());
    assert!(!none.emit(1u32));
    none.register(|e| e == 1);
    assert!(none.has_sink());
    assert!(none.emit(1u32));
    assert!(!none.emit(2u32));
    let e = Event::new(Op::Put, key(1, 1), user(1, 1, "a"));
    assert_eq!(e.op, Op::Put);
    assert!(!delivered(None));
    assert!(delivered(Some(true)));
}

#[test]
fn partners_follow_links_and_unlinks() {
    let mut j: Junction<MemStore, Follows> = Junction::new(MemStore::new());
    j.link(&key(1, 5), &key(1, 9));
    j.link(&key(1, 5), &key(1, 7));
    j.link(&key(1, 5), &key(1, 9));
    j.unlink(&key(1, 5), &key(1, 7));
    j.unlink(&key(1, 5), &key(1, 8));
    j.link(&key(1, 6), &key(1, 7));
    assert_eq!(j.forward(&key(1, 5)), vec![key(1, 9)]);
    assert!(j.forward(&key(1, 9)).is_empty(), "a link goes one way");
    assert_eq!(j.reverse(&key(1, 7)), vec![key(1, 6)]);

    let mut e: EdgeTable<MemStore, Whole> = EdgeTable::new(MemStore::new());
    for a in [9u64, 3, 5] {
        e.link(&a, &1);
    }
    e.unlink(&5, &1);
    e.link(&3, &2);
    assert_eq!(e.reverse(&1), vec![3, 9]);
    assert_eq!(e.forward(&3), vec![1, 2]);
    assert_eq!(e.reverse_raw(&2), vec![3u64.to_be_bytes().to_vec()]);
}

struct Whole;

impl KvEdge for Whole {
    type A = u64;

    type B = u64;

    const NS: u16 = 51;

    fn a_fields() -> vstd::seq::Seq<vstd::seq::Seq<char>> {
        unreachable!()
    }

    fn b_fields() -> vstd::seq::Seq<vstd::seq::Seq<char>> {
        unreachable!()
    }

    fn a_head() -> Vec<&'static str> {
        Vec::new()
    }

    fn b_head() -> Vec<&'static str> {
        Vec::new()
    }
}

#[test]
fn raw_rows_are_the_last_written() {
    let mut t: Table<MemStore, UserKey, User> = Table::new(MemStore::new());
    t.put(&key(1, 2), &user(1, 1, "b"));
    t.put(&key(1, 1), &user(1, 1, "a"));
    t.put(&key(1, 2), &user(2, 1, "c"));
    let raw = t.scan_rows_raw();
    let keys: Vec<Vec<u8>> = raw.iter().map(|p| p.0.clone()).collect();
    assert_eq!(keys, vec![key(1, 1).encode(), key(1, 2).encode()]);
    assert_eq!(raw[1].1, user(2, 1, "c").encode_payload());
    let entry = t.index_key::<ByLevel>(&key(1, 1), &user(1, 1, "a"));
    assert_eq!(t.store().get(&entry), Some(1u16.to_be_bytes().to_vec()));
}

#[test]
fn batches_overwrite_rows_as_writes_do() {
    let mut t: Table<MemStore, UserKey, User> = Table::new(MemStore::new());
    let mut u: Table<MemStore, UserKey, User> = Table::new(MemStore::new());
    t.put(&key(1, 1), &user(1, 1, "a"));
    u.put(&key(1, 1), &user(1, 1, "a"));
    t.put(&key(1, 1), &user(2, 2, "b"));
    let mut batch = MemBatch::new();
    u.save_into(&mut batch, &key(1, 1), &user(2, 2, "b"));
    let mut store = MemStore::new();
    for k in u.store().scan_range(b"", None) {
        let v = u.store().get(&k).unwrap();
        store.put(k, v);
    }
    store.commit_batch(batch).unwrap();
    let all = store.scan_range(b"", None);
    assert_eq!(all, t.store().scan_range(b"", None));
    for k in all {
        assert_eq!(store.get(&k), t.store().get(&k));
    }
}

#[test]
fn tables_split_objects_by_declared_names() {
    let mut t: Table<MemStore, UserKey, User> = Table::new(MemStore::new());
    assert!(t.get_object(&key(1, 1)).is_none());
    let mut only = VariantMap::new();
    only.insert("color".to_string(), FlatValue::Str("red".to_string()));
    t.set_object(&key(1, 1), &only);
    assert_eq!(t.get(&key(1, 1)), None);
    let bare = t.get_object(&key(1, 1)).unwrap();
    assert_eq!(bare.len(), 1);
    assert_eq!(bare.get("color"), Some(&DynamicValue::Str("red".to_string())));

    let mut m = VariantMap::new();
    m.insert("level".to_string(), FlatValue::UInt(7));
    m.insert("name".to_string(), FlatValue::Str("ada".to_string()));
    m.insert("tags".to_string(), FlatValue::Array(vec![FlatValue::UInt(1), FlatValue::Null]));
    t.set_object(&key(1, 1), &m);
    assert_eq!(t.get(&key(1, 1)), Some(user(7, 0, "ada")));
    assert_eq!(t.scan::<ByLevel>(&7u32.to_be_bytes()).len(), 1);
    let variants = t.get_variants(&key(1, 1)).unwrap();
    assert_eq!(variants.len(), 1);
    assert!(variants.contains_key("tags"));
    let whole = t.get_object(&key(1, 1)).unwrap();
    assert_eq!(whole.len(), 4);
    assert_eq!(whole.get("level"), Some(&DynamicValue::UInt(7)));
    assert_eq!(whole.get("score"), Some(&DynamicValue::UInt(0)));
    assert_eq!(
        whole.get("tags"),
        Some(&DynamicValue::Array(vec![DynamicValue::UInt(1), DynamicValue::Null]))
    );

    // Declared fields that are not given stay, dynamic ones do not.
    let mut part = VariantMap::new();
    part.insert("score".to_string(), FlatValue::UInt(9));
    t.set_object(&key(1, 1), &part);
    assert_eq!(t.get(&key(1, 1)), Some(user(7, 9, "ada")));
    assert!(t.get_variants(&key(1, 1)).is_none());
    assert_eq!(t.get_object(&key(1, 1)).unwrap().len(), 3);

    // A declared field is put over a dynamic one of its name.
    let mut shadow = VariantMap::new();
    shadow.insert("score".to_string(), FlatValue::UInt(1));
    t.set_variants(&key(1, 1), &shadow);
    let whole = t.get_object(&key(1, 1)).unwrap();
    assert_eq!(whole.get("score"), Some(&DynamicValue::UInt(9)));
}
