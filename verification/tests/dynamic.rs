//! Dynamic values: frames, nested objects and collections keyed by values.

use std::collections::HashMap;

use okm::engine::mem_store::MemStore;
use okm::engine::storage::VirtualStorage;
use okm::model::dynamic_collection::{
    decode_key_frame, escape_terminator, unescape_terminator, Doc, DynamicCollection, KeyError,
    KeyField, KeyKind,
};
use okm::model::index::{Slot, DICT_ID_SLOT, DICT_NAME_SLOT};
use okm::model::obj_dynamic::{
    decode_frame, decode_named, decode_variants, put_frame, put_frame_named, DynamicValue,
    FieldMap, IdTable, NameLookup, NameResolver, NameTable,
};
use okm::obj_dynamic::decode_frame as decode_flat_frame;
use okm::obj_dynamic::decode_variants as decode_flat;
use okm::obj_dynamic::put_frame as put_flat_frame;
use okm::obj_dynamic::DynamicValue as FlatValue;

fn coll(ns: u16) -> DynamicCollection<MemStore> {
    DynamicCollection::new(MemStore::new(), ns)
}

fn s(v: &str) -> DynamicValue {
    DynamicValue::Str(v.into())
}

fn fields(entries: Vec<(&str, DynamicValue)>) -> FieldMap {
    let mut m = FieldMap::new();
    for (k, v) in entries {
        m.insert(k.to_string(), v);
    }
    m
}

fn key(entries: Vec<(&str, DynamicValue)>) -> Vec<KeyField> {
    entries.into_iter().map(|(k, v)| (k.to_string(), v)).collect()
}

#[test]
fn put_get_delete_roundtrip() {
    let mut c = coll(700);
    let key = key(vec![("user", s("alice")), ("seq", DynamicValue::UInt(3))]);
    c.put(&key, &fields(vec![("items", DynamicValue::UInt(42)), ("note", s("hello"))])).unwrap();
    let doc = c.get(&key).unwrap().unwrap();
    assert_eq!(doc.get("items"), Some(&DynamicValue::UInt(42)));
    assert_eq!(doc.get("note"), Some(&s("hello")));
    c.delete(&key).unwrap();
    assert!(c.get(&key).unwrap().is_none());
}

fn values<T>(rows: &[(Vec<DynamicValue>, Doc)], name: &str, f: fn(&DynamicValue) -> T) -> Vec<T> {
    rows.iter().map(|(_, d)| f(d.get(name).unwrap())).collect()
}

#[test]
fn key_order_is_value_order() {
    let mut c = coll(701);
    let kinds = [KeyKind::Int];
    for v in [5i64, -1, 0, 100, -50] {
        c.put(
            &key(vec![("v", DynamicValue::Int(v))]),
            &fields(vec![("v", DynamicValue::Int(v))]),
        )
        .unwrap();
    }
    let rows = c.scan_prefix(&kinds, &[], None).unwrap();
    let vals = values(&rows, "v", |d| match d {
        DynamicValue::Int(v) => *v,
        _ => panic!(),
    });
    assert_eq!(vals, vec![-50, -1, 0, 5, 100], "int key order must be numeric order");
}

#[test]
fn str_keys_order_and_embedded_null() {
    let mut c = coll(702);
    let kinds = [KeyKind::Str];
    for name in ["b", "a\u{0}b", "ab", "a"] {
        c.put(&key(vec![("name", s(name))]), &fields(vec![("name", s(name))])).unwrap();
    }
    let rows = c.scan_prefix(&kinds, &[], None).unwrap();
    let names = values(&rows, "name", |d| match d {
        DynamicValue::Str(s) => s.clone(),
        _ => panic!(),
    });
    assert_eq!(
        names,
        vec!["a", "a\u{0}b", "ab", "b"],
        "escaped terminator keeps lexicographic order"
    );
}

#[test]
fn f64_total_order() {
    let mut c = coll(703);
    let kinds = [KeyKind::F64];
    for v in [1.5f64, -2.0, 0.0, -0.0, 100.25] {
        c.put(
            &key(vec![("v", DynamicValue::F64(v.to_bits()))]),
            &fields(vec![("v", DynamicValue::F64(v.to_bits()))]),
        )
        .unwrap();
    }
    let rows = c.scan_prefix(&kinds, &[], None).unwrap();
    let vals = values(&rows, "v", |d| match d {
        DynamicValue::F64(v) => f64::from_bits(*v),
        _ => panic!(),
    });
    assert_eq!(vals, vec![-2.0, 0.0, 0.0, 1.5, 100.25]);
}

#[test]
fn scan_prefix_by_leading_field() {
    let mut c = coll(704);
    for (user, seq) in [("alice", 1), ("alice", 2), ("bob", 1)] {
        c.put(
            &key(vec![("user", s(user)), ("seq", DynamicValue::UInt(seq))]),
            &fields(vec![("seq", DynamicValue::UInt(seq))]),
        )
        .unwrap();
    }
    let kinds = [KeyKind::Str, KeyKind::UInt];
    let rows = c.scan_prefix(&kinds, &key(vec![("user", s("alice"))]), None).unwrap();
    assert_eq!(rows.len(), 2, "prefix scan sees only alice's rows");
    let mut other = coll(705);
    assert!(other
        .get(&key(vec![("user", s("alice")), ("seq", DynamicValue::UInt(1))]))
        .unwrap()
        .is_none());
}

#[test]
fn obj_key_field_is_rejected() {
    let mut c = coll(706);
    let bad = key(vec![("bad", DynamicValue::Obj(FieldMap::new()))]);
    assert!(c.put(&bad, &FieldMap::new()).is_err());
}

#[test]
fn array_key_field_is_rejected_with_words() {
    let mut c = coll(707);
    let bad = key(vec![("bad", DynamicValue::Array(vec![]))]);
    let e = c.get(&bad).unwrap_err();
    assert_eq!(e, KeyError::Unsupported);
    assert!(!e.message().is_empty());
    assert_eq!(
        e.message_with("Array([])"),
        "unsupported key field value: Array([]) (Array/Obj keys are rejected — flatten first)"
    );
    assert_eq!(KeyError::Truncated.message_with("x"), "key frame truncated");
    assert_eq!(KeyError::NotUtf8.message_with("bad byte"), "bad byte");
    assert_eq!(c.ns_prefix(), 707u16.to_be_bytes().to_vec());
}

#[test]
fn scans_are_limited_and_show_keys() {
    let mut c = coll(708);
    for v in [3u64, 1, 2] {
        c.put(&key(vec![("v", DynamicValue::UInt(v))]), &fields(vec![("x", DynamicValue::Null)]))
            .unwrap();
    }
    let rows = c.scan_prefix(&[KeyKind::UInt], &[], Some(2)).unwrap();
    assert_eq!(rows.len(), 2);
    assert_eq!(rows[0].0, vec![DynamicValue::UInt(1)]);
    assert_eq!(rows[1].0, vec![DynamicValue::UInt(2)]);
}

#[test]
fn an_empty_document_is_not_stored() {
    let mut c = coll(709);
    let k = key(vec![("v", DynamicValue::UInt(1))]);
    c.put(&k, &fields(vec![("x", DynamicValue::Null)])).unwrap();
    c.put(&k, &fields(vec![])).unwrap();
    assert!(c.get(&k).unwrap().is_none());
}

#[test]
fn broken_key_frames_are_errors() {
    assert_eq!(
        decode_key_frame(&[KeyKind::Bool], &[0]).unwrap_err(),
        KeyError::Truncated
    );
    assert_eq!(
        decode_key_frame(&[KeyKind::F64], &[0, 0, 1, 2]).unwrap_err(),
        KeyError::Truncated
    );
    assert_eq!(
        decode_key_frame(&[KeyKind::Str], &[0, 0, b'a']).unwrap_err(),
        KeyError::StrTerminator
    );
    assert_eq!(
        decode_key_frame(&[KeyKind::Bytes], &[0, 0, b'a']).unwrap_err(),
        KeyError::BytesTerminator
    );
    assert_eq!(
        decode_key_frame(&[KeyKind::Str], &[0, 0, 0xC3, 0]).unwrap_err(),
        KeyError::NotUtf8
    );
    assert_eq!(
        decode_key_frame(&[KeyKind::Null, KeyKind::Bool], &[0, 0, 0, 1, 1]).unwrap(),
        vec![DynamicValue::Null, DynamicValue::Bool(true)]
    );
}

/// A dictionary of fixed numbers.
struct Numbers(fn(&str) -> u16);

impl NameResolver for Numbers {
    type State = ();
    type World = ();

    fn state(&self) {}

    fn world(&self) {}

    fn table(_state: ()) -> NameTable {
        unreachable!()
    }

    fn ready(_state: (), _name: vstd::seq::Seq<char>) -> bool {
        unreachable!()
    }

    fn step(_state: (), _name: vstd::seq::Seq<char>) {}

    fn moved(_state: (), _name: vstd::seq::Seq<char>, _a: (), _b: ()) -> bool {
        unreachable!()
    }

    fn step_appends(_state: (), _name: vstd::seq::Seq<char>) {}

    fn resolve(&mut self, name: &str) -> u16 {
        (self.0)(name)
    }
}

/// The names of numbers.
struct Names(fn(u16) -> Option<String>);

impl NameLookup for Names {
    fn ids(&self) -> IdTable {
        unreachable!()
    }

    fn name_of(&mut self, id: u16) -> Option<String> {
        (self.0)(id)
    }
}

#[test]
fn obj_in_array_roundtrip() {
    let nested = fields(vec![("c", DynamicValue::Int(0))]);
    let val = DynamicValue::Obj(fields(vec![("item", DynamicValue::Obj(nested))]));
    let mut body = Vec::new();
    let mut resolver = Numbers(|name: &str| match name {
        "a" => 1,
        "item" => 2,
        "c" => 3,
        _ => 99,
    });
    put_frame_named(&mut body, "a", &DynamicValue::Array(vec![val]), &mut resolver);
    let frames = decode_named(
        &body,
        &mut Names(|id| match id {
            1 => Some("a".into()),
            2 => Some("item".into()),
            3 => Some("c".into()),
            _ => None,
        }),
    );
    assert_eq!(frames.len(), 1);
    let DynamicValue::Array(items) = &frames[0].value else {
        panic!("expected array, got {:?}", frames[0].value);
    };
    assert_eq!(items.len(), 1);
    let DynamicValue::Obj(m) = &items[0] else {
        panic!("nested obj inside array must decode, got {:?}", items[0]);
    };
    assert!(m.contains_key("item"), "nested obj keys resolve: {m:?}");
}

#[test]
fn frames_round_trip() {
    let cases: Vec<(u16, DynamicValue)> = vec![
        (1, DynamicValue::UInt(0)),
        (2, DynamicValue::UInt(42)),
        (3, DynamicValue::UInt(u64::MAX)),
        (1, DynamicValue::F64(3.25f64.to_bits())),
        (4, DynamicValue::Str("hello".into())),
        (5, DynamicValue::Str("你好".into())),
        (6, DynamicValue::Bytes(vec![0, 1, 0xFF])),
        (7, DynamicValue::Bool(true)),
        (8, DynamicValue::Bool(false)),
        (9, DynamicValue::Null),
        (
            10,
            DynamicValue::Array(vec![
                DynamicValue::UInt(1),
                DynamicValue::Str("x".into()),
                DynamicValue::Null,
            ]),
        ),
    ];
    for (id, v) in &cases {
        let mut buf = Vec::new();
        put_frame(&mut buf, *id, v);
        let mut off = 0usize;
        let f = decode_frame(&buf, &mut off);
        if f.is_err() {
            panic!("case id={} v={:?} buf={:02x?} err={:?}", id, v, buf, f);
        }
        let f = f.unwrap().unwrap();
        assert_eq!(f.id, *id);
        assert_eq!(f.value, *v);
        assert_eq!(off, buf.len(), "frame consumed exactly");
    }
}

#[test]
fn short_ids_take_one_byte_and_large_escape() {
    let mut buf = Vec::new();
    put_frame(&mut buf, 0xFE, &DynamicValue::UInt(1));
    assert_eq!(buf[0], 0xFE, "id 254 stays in the u8 lane");
    let mut buf = Vec::new();
    put_frame(&mut buf, 0xFF, &DynamicValue::UInt(1));
    assert_eq!(&buf[..3], &[0xFF, 0x00, 0xFF], "id 255 escapes");
    let mut buf = Vec::new();
    put_frame(&mut buf, 0x1234, &DynamicValue::UInt(1));
    assert_eq!(&buf[..3], &[0xFF, 0x12, 0x34]);
    let fields = decode_variants(&buf);
    assert_eq!(fields[0].id, 0x1234);
}

#[test]
fn list_decode_is_partial_on_malformed_tail() {
    let mut buf = Vec::new();
    put_frame(&mut buf, 1, &DynamicValue::UInt(7));
    buf.extend_from_slice(&[0x05, 0x00, 0x09, 0xAA]);
    let fields = decode_variants(&buf);
    assert_eq!(fields.len(), 1);
    assert_eq!(fields[0].value, DynamicValue::UInt(7));
}

#[test]
fn unknown_value_type_skips_by_length() {
    let mut buf = Vec::new();
    put_frame(&mut buf, 1, &DynamicValue::UInt(7));
    buf.extend_from_slice(&[0x02, 0xFE, 0x03, 0xAA, 0xBB, 0xCC]);
    put_frame(&mut buf, 3, &DynamicValue::Str("after".into()));
    let fields = decode_variants(&buf);
    assert_eq!(fields.len(), 2, "unknown frame skipped by length");
    assert_eq!(fields[0].id, 1);
    assert_eq!(fields[1].id, 3);
}

/// A dictionary that numbers names by order of first sight.
struct StubDict {
    next: u16,
    names: HashMap<String, u16>,
}

impl StubDict {
    fn new() -> Self {
        StubDict { next: 0, names: HashMap::new() }
    }

    fn name(&self, id: u16) -> Option<String> {
        self.names.iter().find(|ent| *ent.1 == id).map(|(k, _)| k.clone())
    }
}

impl NameResolver for StubDict {
    type State = ();
    type World = ();

    fn state(&self) {}

    fn world(&self) {}

    fn table(_state: ()) -> NameTable {
        unreachable!()
    }

    fn ready(_state: (), _name: vstd::seq::Seq<char>) -> bool {
        unreachable!()
    }

    fn step(_state: (), _name: vstd::seq::Seq<char>) {}

    fn moved(_state: (), _name: vstd::seq::Seq<char>, _a: (), _b: ()) -> bool {
        unreachable!()
    }

    fn step_appends(_state: (), _name: vstd::seq::Seq<char>) {}

    fn resolve(&mut self, name: &str) -> u16 {
        if let Some(&id) = self.names.get(name) {
            return id;
        }
        let id = self.next;
        self.next += 1;
        self.names.insert(name.to_string(), id);
        id
    }
}

impl NameLookup for StubDict {
    fn ids(&self) -> IdTable {
        unreachable!()
    }

    fn name_of(&mut self, id: u16) -> Option<String> {
        self.name(id)
    }
}

#[test]
fn nested_obj_roundtrip() {
    let inner = fields(vec![
        ("lat", DynamicValue::F64(52.3f64.to_bits())),
        ("lon", DynamicValue::F64(4.9f64.to_bits())),
    ]);
    let outer = fields(vec![("loc", DynamicValue::Obj(inner)), ("n", DynamicValue::UInt(7))]);

    let mut dict = StubDict::new();
    let mut buf = Vec::new();
    for i in 0..outer.len() {
        let (k, v) = outer.entry(i);
        put_frame_named(&mut buf, k, v, &mut dict);
    }

    let fields = decode_named(&buf, &mut dict);
    assert_eq!(fields.len(), 2);

    let by_name: HashMap<String, &DynamicValue> =
        fields.iter().filter_map(|f| Some((dict.name(f.id)?, &f.value))).collect();
    assert_eq!(by_name["n"], &DynamicValue::UInt(7));
    match by_name["loc"] {
        DynamicValue::Obj(m) => {
            assert_eq!(m.len(), 2);
            assert_eq!(m.get("lat"), Some(&DynamicValue::F64(52.3f64.to_bits())));
            assert_eq!(m.get("lon"), Some(&DynamicValue::F64(4.9f64.to_bits())));
        }
        other => panic!("expected nested Obj, got {other:?}"),
    }
}

#[test]
fn nested_deep_recursion() {
    let leaf = fields(vec![("v", DynamicValue::Int(-3))]);
    let mid = fields(vec![("leaf", DynamicValue::Obj(leaf))]);
    let top = fields(vec![("mid", DynamicValue::Obj(mid))]);

    let mut dict = StubDict::new();
    let mut buf = Vec::new();
    for i in 0..top.len() {
        let (k, v) = top.entry(i);
        put_frame_named(&mut buf, k, v, &mut dict);
    }
    assert_eq!(dict.names.len(), 3);

    let fields = decode_named(&buf, &mut dict);
    let DynamicValue::Obj(mid_m) = &fields[0].value else {
        panic!("top must be Obj");
    };
    let Some(DynamicValue::Obj(leaf_m)) = mid_m.get("leaf") else {
        panic!("mid must contain Obj leaf");
    };
    assert_eq!(leaf_m.get("v"), Some(&DynamicValue::Int(-3)));
}

#[test]
fn signed_numbers_keep_their_sign() {
    for v in [0i64, 1, -1, i64::MAX, i64::MIN] {
        let mut buf = Vec::new();
        put_frame(&mut buf, 1, &DynamicValue::Int(v));
        assert_eq!(decode_variants(&buf)[0].value, DynamicValue::Int(v));
    }
}

#[test]
fn field_maps_sort_and_replace() {
    let mut m = fields(vec![("b", DynamicValue::UInt(1)), ("a", DynamicValue::UInt(2))]);
    assert_eq!(m.entry(0).0, "a");
    m.insert("b".to_string(), DynamicValue::Null);
    assert_eq!(m.len(), 2);
    assert_eq!(m.get("b"), Some(&DynamicValue::Null));
    assert_eq!(m.get("c"), None);
}

#[test]
fn obj_dynamic_frames_round_trip() {
    let cases: Vec<(u16, FlatValue)> = vec![
        (1, FlatValue::UInt(0)),
        (2, FlatValue::UInt(42)),
        (3, FlatValue::UInt(u64::MAX)),
        (1, FlatValue::F64(3.25f64.to_bits())),
        (4, FlatValue::Str("hello".into())),
        (5, FlatValue::Str("你好".into())),
        (6, FlatValue::Bytes(vec![0, 1, 0xFF])),
        (7, FlatValue::Bool(true)),
        (8, FlatValue::Bool(false)),
        (9, FlatValue::Null),
        (
            10,
            FlatValue::Array(vec![FlatValue::UInt(1), FlatValue::Str("x".into()), FlatValue::Null]),
        ),
    ];
    for (id, v) in &cases {
        let mut buf = Vec::new();
        put_flat_frame(&mut buf, *id, v);
        let mut off = 0usize;
        let f = decode_flat_frame(&buf, &mut off).unwrap().unwrap();
        assert_eq!(f.id, *id);
        assert_eq!(f.value, *v);
        assert_eq!(off, buf.len(), "frame consumed exactly");
    }
}

#[test]
fn obj_dynamic_short_ids_take_one_byte_and_large_escape() {
    let mut buf = Vec::new();
    put_flat_frame(&mut buf, 0xFE, &FlatValue::UInt(1));
    assert_eq!(buf[0], 0xFE, "id 254 stays in the u8 lane");
    let mut buf = Vec::new();
    put_flat_frame(&mut buf, 0xFF, &FlatValue::UInt(1));
    assert_eq!(&buf[..3], &[0xFF, 0x00, 0xFF], "id 255 escapes");
    let mut buf = Vec::new();
    put_flat_frame(&mut buf, 0x1234, &FlatValue::UInt(1));
    assert_eq!(&buf[..3], &[0xFF, 0x12, 0x34]);
    let fields = decode_flat(&buf);
    assert_eq!(fields[0].id, 0x1234);
}

#[test]
fn obj_dynamic_list_decode_is_partial_on_malformed_tail() {
    let mut buf = Vec::new();
    put_flat_frame(&mut buf, 1, &FlatValue::UInt(7));
    buf.extend_from_slice(&[0x05, 0, 0, 0, 99]);
    let fields = decode_flat(&buf);
    assert_eq!(fields.len(), 1);
    assert_eq!(fields[0].value, FlatValue::UInt(7));
}

#[test]
fn obj_dynamic_unknown_value_type_skips_by_length() {
    let mut buf = Vec::new();
    put_flat_frame(&mut buf, 1, &FlatValue::UInt(7));
    buf.extend_from_slice(&[0x02, 0xFE, 0, 0, 0, 3, 0xAA, 0xBB, 0xCC]);
    put_flat_frame(&mut buf, 3, &FlatValue::Str("after".into()));
    let fields = decode_flat(&buf);
    assert_eq!(fields.len(), 2, "unknown frame skipped by length");
    assert_eq!(fields[0].id, 1);
    assert_eq!(fields[1].id, 3);
}

#[test]
fn scan_prefix_tells_text_from_longer_text() {
    let mut c = coll(714);
    for name in ["a", "a\u{0}b", "ab"] {
        for seq in [2u64, 1] {
            c.put(
                &key(vec![("name", s(name)), ("seq", DynamicValue::UInt(seq))]),
                &fields(vec![("name", s(name))]),
            )
            .unwrap();
        }
    }
    let kinds = [KeyKind::Str, KeyKind::UInt];
    for name in ["a", "a\u{0}b", "ab"] {
        let rows = c.scan_prefix(&kinds, &key(vec![("name", s(name))]), None).unwrap();
        let keys: Vec<Vec<DynamicValue>> = rows.into_iter().map(|(k, _)| k).collect();
        assert_eq!(
            keys,
            vec![vec![s(name), DynamicValue::UInt(1)], vec![s(name), DynamicValue::UInt(2)]]
        );
    }
    let one = c.scan_prefix(&kinds, &key(vec![("name", s("a"))]), Some(1)).unwrap();
    assert_eq!(one.len(), 1);
    assert_eq!(one[0].0[0], s("a"));
    let docs = c.scan_prefix(&[], &key(vec![("name", s("a"))]), None).unwrap();
    assert_eq!(docs.len(), 2);
}

#[test]
fn scan_prefix_skips_longer_bytes() {
    let mut c = coll(715);
    let raw = DynamicValue::Bytes(vec![0x61, 0x00, 0x62]);
    c.put(&key(vec![("raw", raw)]), &fields(vec![("x", DynamicValue::Null)])).unwrap();
    let short = key(vec![("raw", DynamicValue::Bytes(vec![0x61]))]);
    assert_eq!(c.scan_prefix(&[KeyKind::Bytes], &short, None).unwrap().len(), 0);
}

#[test]
fn torn_frames_end_a_list() {
    let mut buf = Vec::new();
    put_frame(&mut buf, 1, &DynamicValue::UInt(7));
    put_frame(&mut buf, 300, &s("hello"));
    let whole = buf.len();
    put_frame(&mut buf, 400, &DynamicValue::Bytes(vec![9; 200]));
    for n in whole..buf.len() {
        let fields = decode_variants(&buf[..n]);
        assert_eq!(fields.len(), 2);
        assert_eq!(fields[1].value, s("hello"));
    }
    assert_eq!(decode_variants(&buf).len(), 3);

    let mut flat = Vec::new();
    put_flat_frame(&mut flat, 1, &FlatValue::UInt(7));
    let whole = flat.len();
    put_flat_frame(&mut flat, 400, &FlatValue::Bytes(vec![9; 3]));
    for n in whole..flat.len() {
        assert_eq!(decode_flat(&flat[..n]).len(), 1);
    }
    assert_eq!(decode_flat(&flat).len(), 2);
}

#[test]
fn keys_sort_field_by_field() {
    let mut c = coll(716);
    let names = ["a", "a\u{0}b", "ab", "b"];
    for name in ["ab", "b", "a\u{0}b", "a"] {
        for v in [5i64, -1] {
            c.put(
                &key(vec![("name", s(name)), ("v", DynamicValue::Int(v))]),
                &fields(vec![("x", DynamicValue::Null)]),
            )
            .unwrap();
        }
    }
    let rows = c.scan_prefix(&[KeyKind::Str, KeyKind::Int], &[], None).unwrap();
    let mut want = Vec::new();
    for name in names {
        for v in [-1i64, 5] {
            want.push(vec![s(name), DynamicValue::Int(v)]);
        }
    }
    let got: Vec<Vec<DynamicValue>> = rows.into_iter().map(|(k, _)| k).collect();
    assert_eq!(got, want);
}

#[test]
fn scans_follow_writes_and_deletes() {
    let mut c = coll(716);
    let at = |name: &str, seq: u64| key(vec![("name", s(name)), ("seq", DynamicValue::UInt(seq))]);
    let doc = |n: u64| fields(vec![("n", DynamicValue::UInt(n))]);
    for (name, seq, n) in [("b", 1u64, 10u64), ("a", 2, 20), ("a", 1, 30), ("a", 3, 40)] {
        c.put(&at(name, seq), &doc(n)).unwrap();
    }
    c.put(&at("a", 2), &doc(50)).unwrap();
    c.put(&at("b", 1), &fields(vec![])).unwrap();
    c.delete(&at("a", 3)).unwrap();
    c.delete(&at("c", 9)).unwrap();
    let kinds = [KeyKind::Str, KeyKind::UInt];
    let rows = c.scan_prefix(&kinds, &key(vec![]), None).unwrap();
    assert_eq!(rows.len(), 2);
    assert_eq!(rows[0].0, vec![s("a"), DynamicValue::UInt(1)]);
    assert_eq!(rows[0].1, doc(30));
    assert_eq!(rows[1].0, vec![s("a"), DynamicValue::UInt(2)]);
    assert_eq!(rows[1].1, doc(50));
    let one = c.scan_prefix(&kinds, &key(vec![("name", s("a"))]), Some(1)).unwrap();
    assert_eq!(one.len(), 1);
    assert_eq!(one[0].1, doc(30));
    assert_eq!(c.scan_prefix(&kinds, &key(vec![("name", s("b"))]), None).unwrap().len(), 0);
}

/// An engine whose dictionary gives a name a number of the caller's choice.
fn numbered(ns: u16, name: &str, id: u16) -> MemStore {
    let front = |slot: Slot| [ns.to_be_bytes(), slot.to_be_bytes()].concat();
    let mut store = MemStore::new();
    store.put([front(DICT_ID_SLOT), id.to_be_bytes().to_vec()].concat(), name.into());
    store.put([front(DICT_NAME_SLOT), name.into()].concat(), id.to_be_bytes().to_vec());
    store
}

#[test]
fn high_name_numbers_sort_behind_numbers() {
    let mut c = DynamicCollection::new(numbered(717, "late", 0xFF62), 717);
    let at = |n: u64, name: &str| key(vec![("late", DynamicValue::UInt(n)), ("later", s(name))]);
    for (n, name) in [(2u64, "a"), (1, "b"), (1, "a\u{0}b"), (1, "a")] {
        c.put(&at(n, name), &fields(vec![("name", s(name))])).unwrap();
    }
    let kinds = [KeyKind::UInt, KeyKind::Str];
    let rows = c.scan_prefix(&kinds, &key(vec![]), None).unwrap();
    let keys: Vec<Vec<DynamicValue>> = rows.into_iter().map(|(k, _)| k).collect();
    let want: Vec<Vec<DynamicValue>> = [(1u64, "a"), (1, "a\u{0}b"), (1, "b"), (2, "a")]
        .iter()
        .map(|(n, name)| vec![DynamicValue::UInt(*n), s(name)])
        .collect();
    assert_eq!(keys, want);
    let one = c.scan_prefix(&kinds, &at(1, "a"), None).unwrap();
    assert_eq!(one.len(), 1);
}

#[test]
fn escaped_bytes_read_back_and_sort() {
    assert_eq!(escape_terminator(&[1, 0, 2]), vec![1, 0, 0xFF, 2, 0]);
    assert_eq!(escape_terminator(&[]), vec![0]);
    assert_eq!(unescape_terminator(&[1, 0, 0xFF, 2, 0, 7]), Some(vec![1, 0, 2]));
    assert_eq!(unescape_terminator(&[1, 0, 0xFF, 2]), None);
    assert_eq!(unescape_terminator(&[]), None);
    let sorted: [&[u8]; 6] = [&[], &[0], &[0, 0], &[0, 1], &[0, 0xFF], &[1]];
    for pair in sorted.windows(2) {
        assert!(escape_terminator(pair[0]) < escape_terminator(pair[1]));
    }
}
