//! Declarations as data, and tables as record batches.

use arrow::array::{
    Array, BinaryArray, Float64Array, Int64Array, RecordBatch, StringArray, UInt16Array,
    UInt32Array, UInt64Array, UInt8Array,
};

use okm::arrow_bridge::{
    arrow_type, batch_rows, build_batch, can_export, Batch, ColumnType,
};
use okm::cell::{key_from_cells, payload_from_cells, read_cell, wire_bytes, Cell};
use okm::engine::mem_store::MemStore;
use okm::engine::storage::{Contents, VirtualStorage};
use okm::field::{DefaultValueConst, FieldDesc, FieldType, FieldView};
use okm::index::{table_header, Document};
use okm::model::document::Collection;
use okm::model::obj_dynamic::{DynView, FieldMap};
use okm::schema::{DefaultValue, ObjValueTypeSchema, TableSchema};
use okm::subscribe::Op;
use okm::table::Table;
use okm::tooling::{import_rows, json_schema, table_fields};
use okm::users::{User, UserKey};

/// A row with a field of every kind.
struct Sample;

fn desc(name: &'static str, width: usize, ty: FieldType) -> FieldDesc {
    FieldDesc { name, width, ty }
}

type Bytes = vstd::seq::Seq<u8>;

type Named = vstd::seq::Seq<(vstd::seq::Seq<char>, DynView)>;

impl Document for Sample {
    type Key = u32;
    type Model = ();
    const LAYOUT_VERSION: u8 = 1;
    const HOT_WIDTH: usize = 26;

    fn model(&self) {}

    fn payload(_d: ()) -> Bytes {
        unreachable!()
    }

    fn readable(_b: Bytes) -> bool {
        unreachable!()
    }

    fn decoded(_b: Bytes) {}

    fn bare(_d: ()) {}

    fn storable(_d: ()) -> bool {
        unreachable!()
    }

    fn entries(_k: Bytes, _d: (), _h: Bytes) -> vstd::seq::Seq<(Bytes, Bytes)> {
        unreachable!()
    }

    fn dereferenced(_d: (), _m: Contents) {}

    fn embeds(_d: ()) -> vstd::seq::Seq<(Bytes, Bytes)> {
        unreachable!()
    }

    fn embedded(_d: ()) -> vstd::seq::Seq<Bytes> {
        unreachable!()
    }

    fn reduced(m: Contents, _k: Bytes, _d: (), _h: Bytes, _fold: bool) -> Contents {
        m
    }

    fn announced(_op: Op, _epoch: u64, _k: Bytes, _d: ()) -> bool {
        true
    }

    fn mapped(_d: ()) -> Named {
        unreachable!()
    }

    fn unmapped(_fields: Named) {}

    fn declared() -> vstd::seq::Seq<FieldView> {
        unreachable!()
    }

    fn literals() -> vstd::seq::Seq<(vstd::seq::Seq<char>, DefaultValueConst)> {
        unreachable!()
    }

    fn ns_bytes() -> Bytes {
        unreachable!()
    }

    fn partition() -> Option<u8> {
        Some(3)
    }

    fn retired() -> vstd::seq::Seq<Bytes> {
        unreachable!()
    }

    fn reads_back(_d: ()) {}

    fn keeps_to_slots(_m: Contents, _k: Bytes, _d: (), _h: Bytes, _fold: bool) {}

    fn encode_payload(&self) -> Vec<u8> {
        Vec::new()
    }

    fn decode_payload(_b: &[u8]) -> Self {
        Sample
    }

    fn index_entries(_k: &u32, _row: &Self, _header: &[u8]) -> Vec<(Vec<u8>, Vec<u8>)> {
        Vec::new()
    }

    fn embed_deref<S: VirtualStorage>(&mut self, _store: &S) {}

    fn embed_entries(&self) -> Vec<(Vec<u8>, Vec<u8>)> {
        Vec::new()
    }

    fn embed_keys(&self) -> Vec<Vec<u8>> {
        Vec::new()
    }

    fn apply_reduces<S: VirtualStorage>(
        _store: &mut S,
        _k: &u32,
        _row: &Self,
        _header: &[u8],
        _fold: bool,
    ) {
    }

    fn emit_event(_op: Op, _epoch: u64, _k: &u32, _row: &Self) {}

    fn to_map(&self) -> FieldMap {
        FieldMap::new()
    }

    fn from_map(_map: &FieldMap) -> Self {
        Sample
    }

    fn fields() -> Vec<FieldDesc> {
        vec![
            desc("a", 1, FieldType::U8),
            desc("b", 2, FieldType::U16),
            desc("c", 8, FieldType::U64),
            desc("d", 2, FieldType::FixedBytes),
            desc("text", 0, FieldType::Str),
            desc("e", 8, FieldType::Quant(2)),
            desc("f", 1, FieldType::Enum),
            desc("g", 4, FieldType::Offset(1000)),
            desc("n", 0, FieldType::VarInt),
            desc("raw", 0, FieldType::Bytes),
        ]
    }

    fn defaults() -> Vec<(&'static str, DefaultValueConst)> {
        vec![("b", DefaultValueConst::U64(9)), ("text", DefaultValueConst::Str("none"))]
    }

    fn ns_prefix() -> Vec<u8> {
        vec![0, 77]
    }

    fn partition_id() -> Option<u8> {
        Some(3)
    }

    fn retired_slots() -> Vec<Vec<u8>> {
        vec![vec![0x10, 0x05]]
    }
}

fn cells(n: u64) -> Vec<Cell> {
    vec![
        Cell::UInt(n),
        Cell::UInt(1),
        Cell::UInt(0x0203),
        Cell::UInt(u64::MAX),
        Cell::Bytes(vec![4, 5]),
        Cell::Str("grün".to_string()),
        Cell::Fixed(-250),
        Cell::UInt(6),
        Cell::Int(1007),
        Cell::UInt(300),
        Cell::Bytes(vec![]),
    ]
}

fn to_double(w: i64, places: u32) -> u64 {
    (w as f64 / 10f64.powi(places as i32)).to_bits()
}

fn to_fixed(bits: u64, places: u32) -> i64 {
    (f64::from_bits(bits) * 10f64.powi(places as i32)).round() as i64
}

fn sample_rows() -> Vec<(Vec<u8>, Vec<u8>)> {
    [7u64, 8]
        .iter()
        .map(|n| {
            let all = cells(*n);
            let key = key_from_cells(&vec![desc("id", 4, FieldType::U32)], &all[..1]).unwrap();
            let payload = payload_from_cells(1, &Sample::fields(), &all[1..]).unwrap();
            (key, payload)
        })
        .collect()
}

#[test]
fn partitions_stand_before_namespaces() {
    assert_eq!(table_header::<Sample>(), vec![0xFF, 3, 0, 77]);
    assert_eq!(table_header::<User>(), vec![0, 42]);
}

#[test]
fn retired_slots_are_pruned() {
    let mut store = MemStore::new();
    for key in [
        [0xFF, 3, 0, 77, 0x10, 0x05, 1],
        [0xFF, 3, 0, 77, 0x10, 0x05, 2],
        [0xFF, 3, 0, 77, 0x10, 0x06, 1],
    ] {
        store.put(key.to_vec(), vec![]);
    }
    let mut c: Collection<MemStore, u32, Sample> = Collection::new(store);
    assert_eq!(c.prune_deprecated_slots(), 2);
    assert_eq!(
        c.store().scan_range(b"", None),
        vec![vec![0xFF, 3, 0, 77, 0x10, 0x06, 1]]
    );
    assert_eq!(c.prune_deprecated_slots(), 0);
}

#[test]
fn rows_that_do_not_match_cannot_be_exported() {
    assert!(can_export::<u32, Sample>(&sample_rows()));
    let mut short = sample_rows();
    short[1].1.pop();
    assert!(!can_export::<u32, Sample>(&short));
    let mut no_key = sample_rows();
    no_key[0].0.clear();
    assert!(!can_export::<u32, Sample>(&no_key));
}

#[test]
fn cells_are_stored_by_kind() {
    let rows = sample_rows();
    assert_eq!(rows[0].0, vec![0, 0, 0, 7]);
    let p = &rows[0].1;
    assert_eq!(p[..3], [1, 0, 26]);
    assert_eq!(p[3..6], [1, 2, 3]);
    assert_eq!(p[14..16], [4, 5]);
    assert_eq!(p[24], 6);
    assert_eq!(p[25..29], [0, 0, 0, 7]);
    assert_eq!(p[29..34], [4, 0, 0, 0, 5]);
    assert_eq!(p[39..46], [8, 0, 0, 0, 2, 0xAC, 0x02]);
    assert_eq!(p[46..], [9, 0, 0, 0, 0]);
}

#[test]
fn cells_that_do_not_fit_are_refused() {
    let f = desc("a", 1, FieldType::U8);
    assert_eq!(wire_bytes(&f, &Cell::UInt(256)), None);
    assert_eq!(wire_bytes(&f, &Cell::Int(1)), None);
    let g = desc("g", 4, FieldType::Offset(10));
    assert_eq!(wire_bytes(&g, &Cell::Int(9)), None);
    assert_eq!(wire_bytes(&g, &Cell::Int(12)), Some(vec![0, 0, 0, 2]));
    assert_eq!(read_cell(FieldType::U16, &[1]), None);
    assert_eq!(read_cell(FieldType::Str, &[0xFF]), None);
    assert_eq!(read_cell(FieldType::Offset(10), &[0, 0, 0, 2]), Some(Cell::Int(12)));
}

fn column<'a, T: 'static>(b: &'a RecordBatch, name: &str) -> &'a T {
    b.column_by_name(name).unwrap().as_any().downcast_ref::<T>().unwrap()
}

#[test]
fn batches_show_every_kind() {
    let b = build_batch::<u32, Sample, _>(&sample_rows(), &to_double).inner;
    assert_eq!(b.num_rows(), 2);
    assert_eq!(b.num_columns(), 11);
    let id = b.column(0).as_any().downcast_ref::<UInt32Array>().unwrap();
    assert_eq!(id.values().to_vec(), vec![7, 8]);
    assert_eq!(column::<UInt8Array>(&b, "a").value(0), 1);
    assert_eq!(column::<UInt16Array>(&b, "b").value(1), 0x0203);
    assert_eq!(column::<UInt64Array>(&b, "c").value(0), u64::MAX);
    assert_eq!(column::<BinaryArray>(&b, "d").value(1), &[4, 5]);
    assert_eq!(column::<StringArray>(&b, "text").value(1), "grün");
    assert_eq!(column::<Float64Array>(&b, "e").value(0), -2.5);
    assert_eq!(column::<UInt8Array>(&b, "f").value(0), 6);
    assert_eq!(column::<Int64Array>(&b, "g").value(1), 1007);
    assert_eq!(column::<UInt64Array>(&b, "n").value(0), 300);
    assert_eq!(column::<BinaryArray>(&b, "raw").value(0).len(), 0);
    assert!(b.schema().fields().iter().all(|f| !f.is_nullable()));
    assert_eq!(b.column(3).null_count(), 0);
}

#[test]
fn batches_are_taken_back() {
    let b = build_batch::<u32, Sample, _>(&sample_rows(), &to_double);
    let rows = batch_rows::<u32, Sample, _>(&b, &to_fixed).unwrap();
    assert_eq!(rows, vec![cells(7), cells(8)]);
}

#[test]
fn foreign_batches_are_not_taken() {
    let b = build_batch::<u32, Sample, _>(&sample_rows(), &to_double);
    assert!(batch_rows::<UserKey, User, _>(&b, &to_fixed).is_none());
    let few = Batch { inner: b.inner.project(&[0]).unwrap() };
    assert!(batch_rows::<u32, Sample, _>(&few, &to_fixed).is_none());
}

fn users() -> Collection<MemStore, UserKey, User> {
    let mut c = Collection::new(MemStore::new());
    for (i, name) in ["ada", "bob"].iter().enumerate() {
        let key = UserKey { org_id: 1, user_id: i as u64 };
        c.put(&key, &User { level: 4, score: i as u16, name: name.to_string() });
    }
    c
}

#[test]
fn collections_are_exported_and_restored() {
    let c = users();
    let b = c.to_record_batch(&to_double);
    assert_eq!(column::<StringArray>(&b.inner, "name").value(1), "bob");
    assert_eq!(column::<UInt64Array>(&b.inner, "user_id").value(1), 1);
    let rows = batch_rows::<UserKey, User, _>(&b, &to_fixed).unwrap();
    let mut fresh: Collection<MemStore, UserKey, User> = Collection::new(MemStore::new());
    assert_eq!(import_rows(&mut fresh, &rows), 2);
    assert_eq!(fresh.scan_documents_raw(), c.scan_documents_raw());
    let key = UserKey { org_id: 1, user_id: 1 };
    assert_eq!(fresh.get(&key), c.get(&key));
    assert_eq!(fresh.store().scan_range(b"", None), c.store().scan_range(b"", None));
}

#[test]
fn tables_tell_their_columns() {
    let mut t: Table<MemStore, UserKey, User> = Table::new(MemStore::new());
    t.put(
        &UserKey { org_id: 1, user_id: 2 },
        &User { level: 3, score: 4, name: "x".to_string() },
    );
    assert_eq!(
        t.export_columns(),
        vec![
            ("org_id", ColumnType::UInt32),
            ("user_id", ColumnType::UInt64),
            ("level", ColumnType::UInt32),
            ("score", ColumnType::UInt16),
            ("name", ColumnType::Utf8),
        ]
    );
    let b = t.to_record_batch(&to_double).inner;
    assert_eq!(column::<UInt16Array>(&b, "score").value(0), 4);
    assert_eq!(arrow_type(FieldType::Quant(3)), ColumnType::Float64);
    assert_eq!(table_fields::<UserKey, User>().len(), 5);
}

#[test]
fn the_schema_places_every_field() {
    let s = TableSchema::of::<UserKey, User>();
    assert_eq!(s.key_len, 12);
    assert_eq!(s.key_fields[1].offset, 4);
    assert_eq!(s.layout_version, 2);
    assert_eq!(s.hot_width, 6);
    assert_eq!(s.payload_header_len, 3);
    assert_eq!(s.hot_fields[1].name, "score");
    assert_eq!(s.hot_fields[1].offset, 4);
    assert_eq!(s.cold_fields[0].tag, Some(2));
    assert_eq!(s.slots.declared_base, 16);
    assert_eq!((s.slots.edge_fwd, s.slots.edge_rev), (14, 15));
    let d = TableSchema::of::<u32, Sample>();
    assert_eq!(d.hot_fields[1].default, Some(DefaultValue::U64(9)));
    assert_eq!(d.cold_fields[0].default, Some(DefaultValue::Str("none".to_string())));
    assert_eq!(d.cold_fields[1].tag, Some(8));
    assert_eq!(d.hot_fields[4].offset, 13);
    assert_eq!(TableSchema::PRIMARY_SLOT, 0);
}

#[test]
fn value_types_have_stable_bytes() {
    for b in 0u8..=8 {
        assert_eq!(ObjValueTypeSchema::from_tag(b).unwrap().tag(), b);
    }
    assert_eq!(ObjValueTypeSchema::from_tag(9), None);
    assert_eq!(ObjValueTypeSchema::Int.tag(), 8);
    assert_eq!(ObjValueTypeSchema::Obj.tag(), 7);
}

#[test]
fn the_json_schema_is_exact() {
    let text = json_schema::<UserKey, User>();
    let want = concat(&[
        "{\n  \"$schema\": \"https://json-schema.org/draft/2020-12/schema\",\n",
        "  \"type\": \"object\",\n  \"properties\": {\n",
        "    \"org_id\":{ \"type\": \"integer\", \"description\": \"4 width, U32 (declaration order)\" },\n",
        "    \"user_id\":{ \"type\": \"integer\", \"description\": \"8 width, U64 (declaration order)\" },\n",
        "    \"level\":{ \"type\": \"integer\", \"description\": \"4 width, U32 (declaration order)\" },\n",
        "    \"score\":{ \"type\": \"integer\", \"description\": \"2 width, U16 (declaration order)\" },\n",
        "    \"name\":{ \"type\": \"string\", \"description\": \"0 width, Str (declaration order)\" }",
        "\n  },\n  \"x-okm-column-order\": [\n",
        "    \"org_id\",\n    \"user_id\",\n    \"level\",\n    \"score\",\n    \"name\"\n  ]\n}\n",
    ]);
    assert_eq!(text, want);
    let sample = json_schema::<u32, Sample>();
    assert!(sample.contains("\"type\": \"number\", \"description\": \"8 width, Quant(2)"));
    assert!(sample.contains("4 width, Offset(1000)"));
}

fn concat(parts: &[&str]) -> String {
    parts.concat()
}

#[test]
fn what_stands_behind_the_frames_is_not_read() {
    let mut rows = sample_rows();
    rows[0].1.extend_from_slice(&[9, 0, 0]);
    assert!(can_export::<u32, Sample>(&rows));
}
