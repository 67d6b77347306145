//! The dictionary of field names.

use okm::engine::mem_store::MemStore;
use okm::engine::storage::{MemBatch, VirtualStorage};
use okm::model::index::{DICT_ID_SLOT, DICT_NAME_SLOT};
use okm::model::obj_dict::DictCache;

const HEADER: &[u8] = &[0x00, 0x21];

#[test]
fn allocates_sequentially_and_is_cached() {
    let mut store = MemStore::new();
    let mut d = DictCache::new();
    let a = d.id_for(&mut store, HEADER, "alpha");
    let b = d.id_for(&mut store, HEADER, "beta");
    let a2 = d.id_for(&mut store, HEADER, "alpha");
    assert_eq!((a, b, a2), (0, 1, 0), "first-seen claims next, repeat hits cache");

    let mut k2 = HEADER.to_vec();
    k2.extend_from_slice(&DICT_ID_SLOT.to_be_bytes());
    k2.extend_from_slice(&0u16.to_be_bytes());
    assert_eq!(store.get(&k2).unwrap(), b"alpha");
    let mut k3 = HEADER.to_vec();
    k3.extend_from_slice(&DICT_NAME_SLOT.to_be_bytes());
    k3.extend_from_slice(b"beta");
    assert_eq!(store.get(&k3).unwrap(), &1u16.to_be_bytes());
}

#[test]
fn fresh_cache_loads_from_engine_and_resumes_numbering() {
    let mut store = MemStore::new();
    {
        let mut d = DictCache::new();
        d.id_for(&mut store, HEADER, "one");
        d.id_for(&mut store, HEADER, "two");
    }
    let mut d2 = DictCache::new();
    assert_eq!(d2.name_for(&store, HEADER, 0).unwrap(), "one");
    assert_eq!(d2.name_for(&store, HEADER, 1).unwrap(), "two");
    let fresh = d2.id_for(&mut store, HEADER, "three");
    assert_eq!(fresh, 2, "numbering resumes after the loaded max");
}

#[test]
fn compact_ids_use_one_byte_and_escape_beyond() {
    let mut store = MemStore::new();
    let mut d = DictCache::new();
    let small = d.id_for(&mut store, HEADER, "small");
    assert!(small < 0xFF);
    let mut batch = MemBatch::new();
    let mut k2 = HEADER.to_vec();
    k2.extend_from_slice(&DICT_ID_SLOT.to_be_bytes());
    k2.extend_from_slice(&0x1234u16.to_be_bytes());
    batch.put(k2, b"big".to_vec());
    let mut k3 = HEADER.to_vec();
    k3.extend_from_slice(&DICT_NAME_SLOT.to_be_bytes());
    k3.extend_from_slice(b"big");
    batch.put(k3, 0x1234u16.to_be_bytes().to_vec());
    let _ = store.commit_batch(batch);
    assert_eq!(d.name_for(&store, HEADER, 0x1234).unwrap(), "big");
}

#[test]
fn unknown_numbers_have_no_name() {
    let store = MemStore::new();
    let mut d = DictCache::new();
    assert_eq!(d.name_for(&store, HEADER, 3), None);
    assert_eq!(d.by_name_get("alpha"), None);
}

#[test]
fn dictionaries_of_two_headers_are_apart() {
    let mut store = MemStore::new();
    let mut a = DictCache::new();
    let mut b = DictCache::new();
    a.id_for(&mut store, &[0, 1], "x");
    assert_eq!(b.id_for(&mut store, &[0, 2], "y"), 0);
    let mut again = DictCache::new();
    assert_eq!(again.name_for(&store, &[0, 1], 0).as_deref(), Some("x"));
}

#[test]
fn names_are_numbered_as_they_first_appear() {
    let mut store = MemStore::new();
    let names = ["one", "two", "one", "three", "two", "four"];
    let want = [0u16, 1, 0, 2, 1, 3];
    let mut d = DictCache::new();
    for (i, name) in names.iter().enumerate() {
        if i % 2 == 1 {
            d = DictCache::new();
        }
        assert_eq!(d.id_for(&mut store, HEADER, name), want[i]);
    }
    assert_eq!(store.scan_range(b"", None).len(), 8, "two entries per name");
}
