//! Engines: the in-memory one, and engines nested behind a prefix.

use okm::engine::mem_store::MemStore;
use okm::engine::nest::{
    scan_range_request, stream_request, NestStorage, OpFrame, OpTag, RemoteScanIter, Tail,
};
use okm::engine::storage::{prefix_end, scan_suffix_kv, MemBatch, VirtualStorage};
use okm::engine::subspace::sub_range;
use okm::remote::{ReadFrame, StorageHost, WriteFrame};

fn store(keys: &[&str]) -> MemStore {
    let mut s = MemStore::new();
    for k in keys {
        s.put(k.as_bytes().to_vec(), k.as_bytes().to_vec());
    }
    s
}

fn bytes(keys: &[&str]) -> Vec<Vec<u8>> {
    keys.iter().map(|k| k.as_bytes().to_vec()).collect()
}

#[test]
fn the_memory_engine_keeps_order() {
    let mut s = store(&["b", "a", "c"]);
    assert_eq!(s.scan_range(b"", None), bytes(&["a", "b", "c"]));
    assert_eq!(s.scan_range(b"a", Some(b"c")), bytes(&["a", "b"]));
    s.put(b"b".to_vec(), b"new".to_vec());
    assert_eq!(s.get(b"b").as_deref(), Some(b"new".as_slice()));
    s.del(b"b");
    assert_eq!(s.get(b"b"), None);
    assert_eq!(s.scan_range(b"", None).len(), 2);
}

#[test]
fn prefix_scans_give_what_follows() {
    let s = store(&["k", "ka", "kb", "l"]);
    assert_eq!(s.scan_suffix(b"k"), bytes(&["", "a", "b"]));
    assert_eq!(scan_suffix_kv(&s, b"ka"), vec![(vec![], b"ka".to_vec())]);
    assert_eq!(prefix_end(&[1, 0xFF]), Some(vec![2, 0]));
    assert_eq!(prefix_end(&[0xFF]), None);
    let mut it = s.scan_range_iter(b"ka", None);
    assert_eq!(it.next_back().unwrap().0, b"l".to_vec());
    assert_eq!(it.next().unwrap().0, b"ka".to_vec());
    assert_eq!(it.next().unwrap().0, b"kb".to_vec());
    assert!(it.next_back().is_none());
}

#[test]
fn a_batch_applies_in_order() {
    let mut s = store(&["a"]);
    let mut batch = MemBatch::new();
    batch.put(b"x".to_vec(), b"1".to_vec());
    batch.del(b"a");
    batch.put(b"x".to_vec(), b"2".to_vec());
    s.commit_batch(batch).unwrap();
    assert_eq!(s.get(b"a"), None);
    assert_eq!(s.get(b"x").as_deref(), Some(b"2".as_slice()));
}

#[test]
fn apply_put_get_round_trip() {
    let mut host = NestStorage::new(MemStore::new(), &[0, 9]);
    let put = OpFrame::one(OpTag::Put, b"k".to_vec(), b"v".to_vec());
    let r = host.apply(&put);
    assert!(r.is_some(), "put apply must succeed");
    let get = OpFrame::one(OpTag::Get, b"k".to_vec(), Vec::new());
    let r = host.apply(&get);
    assert_eq!(r.unwrap().value.as_deref(), Some(b"v".as_slice()));
}

#[test]
fn round_trip_via_handle() {
    let mut host = NestStorage::bare(MemStore::new());
    host.apply(&OpFrame::one(OpTag::Put, b"k".to_vec(), b"v".to_vec()));
    let r = host.apply(&OpFrame::one(OpTag::Get, b"k".to_vec(), Vec::new()));
    assert_eq!(r.unwrap().value.as_deref(), Some(b"v".as_slice()));
}

#[test]
fn tenants_do_not_see_each_other() {
    let mut engine = MemStore::new();
    engine.put(vec![0, 8, b'x'], b"other".to_vec());
    engine.put(vec![0, 9, b'y'], b"mine".to_vec());
    assert_eq!(sub_range(&engine, &[0, 9], b"", None), vec![b"y".to_vec()]);
    let mut host = NestStorage::new(engine, &[0, 9]);
    let r = host.apply(&OpFrame::one(OpTag::Get, b"x".to_vec(), Vec::new())).unwrap();
    assert_eq!(r.value, None);
    let r = host.apply(&scan_range_request(b"", None)).unwrap();
    assert_eq!(r.suffixes, vec![b"y".to_vec()]);
}

#[test]
fn unknown_operations_refuse_the_frame() {
    let mut host = NestStorage::bare(MemStore::new());
    assert!(host.apply(&OpFrame::one(OpTag::Other(9), Vec::new(), Vec::new())).is_none());
}

#[test]
fn a_frame_of_writes_commits_before_its_queries() {
    let mut host = NestStorage::bare(MemStore::new());
    let mut batch = MemBatch::new();
    batch.put(b"a".to_vec(), b"1".to_vec());
    batch.put(b"b".to_vec(), b"2".to_vec());
    batch.del(b"a");
    host.apply(&OpFrame::write_batch(&batch)).unwrap();
    let r = host.apply(&scan_range_request(b"", None)).unwrap();
    assert_eq!(r.suffixes, vec![b"b".to_vec()]);
}

#[test]
fn streams_come_page_by_page() {
    let keys = ["a", "b", "c", "d", "e"];
    let mut host = NestStorage::new(MemStore::new(), &[7, 7]);
    for k in keys {
        host.apply(&OpFrame::one(OpTag::Put, k.as_bytes().to_vec(), vec![1]));
    }
    let first = host.apply(&stream_request(b"a", None, false, 2)).unwrap();
    assert_eq!(first.hits.len(), 2);
    assert_eq!(first.tail, Some(Tail::More));
    let last = host.apply(&stream_request(b"d", None, true, 2)).unwrap();
    assert_eq!(last.hits, vec![(b"e".to_vec(), vec![1])]);
    assert_eq!(last.tail, Some(Tail::Final));

    let mut it = RemoteScanIter::new(b"b", None);
    let mut seen = Vec::new();
    loop {
        while it.needs_page() {
            let page = host.apply(&it.refill()).unwrap();
            it.absorb(page);
        }
        match it.consume_front() {
            Some((k, _)) => seen.push(k),
            None => break,
        }
    }
    assert_eq!(seen, bytes(&["b", "c", "d", "e"]));
}

#[test]
fn streams_end_from_the_back_too() {
    let mut host = NestStorage::bare(store(&["a", "b", "c"]));
    let mut it = RemoteScanIter::new(b"", None);
    while it.needs_page_back() {
        let page = host.apply(&it.refill()).unwrap();
        it.absorb(page);
    }
    assert_eq!(it.consume_back().unwrap().0, b"c".to_vec());
    assert_eq!(it.consume_front().unwrap().0, b"a".to_vec());
    assert_eq!(it.consume_back().unwrap().0, b"b".to_vec());
    assert!(it.consume_back().is_none());
}

#[test]
fn hosts_answer_reads_under_their_prefix() {
    let mut host = StorageHost::new(MemStore::new(), &[5]);
    let ops = OpFrame::one(OpTag::Put, b"ka".to_vec(), b"v".to_vec()).ops;
    host.apply_write(&WriteFrame { ops });
    let r = host.apply_read(&ReadFrame::Get { key: b"ka".to_vec() });
    assert_eq!(r.value.as_deref(), Some(b"v".as_slice()));
    let r = host.apply_read(&ReadFrame::Scan { prefix: b"k".to_vec() });
    assert_eq!(r.suffixes, vec![b"a".to_vec()]);
    let r = host.apply_read(&ReadFrame::Get { key: b"kb".to_vec() });
    assert_eq!(r.value, None);
}

#[test]
fn pages_leave_no_key_out() {
    let keys: Vec<Vec<u8>> = vec![
        vec![1],
        vec![1, 0],
        vec![1, 0, 0],
        vec![1, 0xFF],
        vec![1, 0xFF, 0],
        vec![2],
        vec![0xFF],
        vec![0xFF, 0xFF],
    ];
    for prefix in [vec![7u8, 0xFF], vec![]] {
        let mut host = NestStorage::new(MemStore::new(), &prefix);
        for k in &keys {
            host.apply(&OpFrame::one(OpTag::Put, k.clone(), vec![1]));
        }
        for page in [1u8, 2, 3] {
            let mut seen: Vec<Vec<u8>> = Vec::new();
            let mut request = stream_request(b"", None, false, page);
            loop {
                let r = host.apply(&request).unwrap();
                seen.extend(r.hits.into_iter().map(|(k, _)| k));
                if r.tail != Some(Tail::More) {
                    break;
                }
                request = stream_request(seen.last().unwrap(), None, true, page);
            }
            assert_eq!(seen, keys);
        }
        let end = host.apply(&stream_request(&[0xFF, 0xFF], None, true, 2)).unwrap();
        assert!(end.hits.is_empty());
        let some = host.apply(&stream_request(&[1], Some(&[1, 0xFF]), true, 9)).unwrap();
        assert_eq!(some.hits.len(), 2);
    }
}
