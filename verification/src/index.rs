//! Documents and their access methods.
//!
//! A document is an identity, its key, and a payload. The table that holds
//! it writes one primary entry and one entry per access method:
//!
//! ```text
//! [header][primary slot][key]                  → payload
//! [header][slot][index fields][key prefix]     → covered fields
//! ```
//!
//! The index fields come first, so entries sort by them; the key prefix
//! behind them leads back to the document.

use vstd::prelude::*;

use crate::bytes::{concat, slice_from, to_vec};
use crate::engine::storage::{scan_suffix_kv, VirtualStorage};
use crate::field::{DefaultValueConst, FieldDesc};
use crate::key::{encode_prefix_named, KeyEncode, PrefixKey};
use crate::model::obj_dynamic::FieldMap;
use crate::subscribe::Op;

verus! {

/// One-byte slot of primary entries.
pub const PRIMARY_SLOT: u8 = 0;

/// One-byte slot of dynamic fields.
pub const DYNAMIC_SLOT: u8 = 1;

/// One-byte slot of the dictionary, number to name.
pub const DICT_ID_SLOT: u8 = 2;

/// One-byte slot of the dictionary, name to number.
pub const DICT_NAME_SLOT: u8 = 3;

/// One-byte slot of forward edges.
pub const EDGE_FWD_SLOT: u8 = 14;

/// One-byte slot of reverse edges.
pub const EDGE_REV_SLOT: u8 = 15;

/// First one-byte slot of declared access methods.
pub const DECLARED_SLOT_BASE: u8 = 16;

/// A value that a function index can sort by: text by its bytes, unsigned
/// numbers by size.
pub trait IndexFuncResult {
    /// The bytes that stand in the entry key.
    spec fn index_bytes(&self) -> Seq<u8>;

    /// Appends the bytes that stand in the entry key.
    fn encode_index(&self, buf: &mut Vec<u8>)
        ensures
            final(buf)@ == old(buf)@ + self.index_bytes(),
    ;
}

impl IndexFuncResult for String {
    open spec fn index_bytes(&self) -> Seq<u8> {
        vstd::utf8::encode_utf8(self@)
    }

    fn encode_index(&self, buf: &mut Vec<u8>) {
        buf.extend_from_slice(self.as_str().as_bytes());
    }
}

impl IndexFuncResult for u8 {
    open spec fn index_bytes(&self) -> Seq<u8> {
        crate::bytes::be_bytes(*self as nat, 1)
    }

    fn encode_index(&self, buf: &mut Vec<u8>) {
        crate::bytes::push_be(buf, *self as u64, 1);
    }
}

impl IndexFuncResult for u16 {
    open spec fn index_bytes(&self) -> Seq<u8> {
        crate::bytes::be_bytes(*self as nat, 2)
    }

    fn encode_index(&self, buf: &mut Vec<u8>) {
        crate::bytes::push_be(buf, *self as u64, 2);
    }
}

impl IndexFuncResult for u32 {
    open spec fn index_bytes(&self) -> Seq<u8> {
        crate::bytes::be_bytes(*self as nat, 4)
    }

    fn encode_index(&self, buf: &mut Vec<u8>) {
        crate::bytes::push_be(buf, *self as u64, 4);
    }
}

impl IndexFuncResult for u64 {
    open spec fn index_bytes(&self) -> Seq<u8> {
        crate::bytes::be_bytes(*self as nat, 8)
    }

    fn encode_index(&self, buf: &mut Vec<u8>) {
        crate::bytes::push_be(buf, *self, 8);
    }
}

/// What a function index returns: one value, or a list with an entry for
/// each.
pub trait IndexFuncValues: Sized {
    /// The bytes of each entry.
    spec fn entry_bytes(&self) -> Seq<Seq<u8>>;

    /// The bytes of each entry.
    fn func_values(self) -> (r: Vec<Vec<u8>>)
        ensures
            crate::engine::storage::views(r@) == self.entry_bytes(),
    ;
}

/// The entry of a single value.
fn one_value<V: IndexFuncResult>(v: &V) -> (r: Vec<Vec<u8>>)
    ensures
        crate::engine::storage::views(r@) == seq![v.index_bytes()],
{
    let mut buf: Vec<u8> = Vec::new();
    v.encode_index(&mut buf);
    let mut r: Vec<Vec<u8>> = Vec::new();
    assert(buf@ =~= v.index_bytes());
    r.push(buf);
    assert(crate::engine::storage::views(r@) =~= seq![v.index_bytes()]);
    r
}

impl IndexFuncValues for String {
    open spec fn entry_bytes(&self) -> Seq<Seq<u8>> {
        seq![self.index_bytes()]
    }

    fn func_values(self) -> (r: Vec<Vec<u8>>) {
        one_value(&self)
    }
}

impl IndexFuncValues for u8 {
    open spec fn entry_bytes(&self) -> Seq<Seq<u8>> {
        seq![self.index_bytes()]
    }

    fn func_values(self) -> (r: Vec<Vec<u8>>) {
        one_value(&self)
    }
}

impl IndexFuncValues for u16 {
    open spec fn entry_bytes(&self) -> Seq<Seq<u8>> {
        seq![self.index_bytes()]
    }

    fn func_values(self) -> (r: Vec<Vec<u8>>) {
        one_value(&self)
    }
}

impl IndexFuncValues for u32 {
    open spec fn entry_bytes(&self) -> Seq<Seq<u8>> {
        seq![self.index_bytes()]
    }

    fn func_values(self) -> (r: Vec<Vec<u8>>) {
        one_value(&self)
    }
}

impl IndexFuncValues for u64 {
    open spec fn entry_bytes(&self) -> Seq<Seq<u8>> {
        seq![self.index_bytes()]
    }

    fn func_values(self) -> (r: Vec<Vec<u8>>) {
        one_value(&self)
    }
}

impl<V: IndexFuncResult> IndexFuncValues for Vec<V> {
    open spec fn entry_bytes(&self) -> Seq<Seq<u8>> {
        self@.map_values(|v: V| v.index_bytes())
    }

    fn func_values(self) -> (r: Vec<Vec<u8>>) {
        let mut out: Vec<Vec<u8>> = Vec::new();
        let mut i: usize = 0;
        let ghost all = self.entry_bytes();
        assert(crate::engine::storage::views(out@) =~= all.take(0));
        while i < self.len()
            invariant
                i <= self@.len() == all.len(),
                all == self.entry_bytes(),
                crate::engine::storage::views(out@) == all.take(i as int),
            decreases self@.len() - i,
        {
            let ghost before = crate::engine::storage::views(out@);
            let mut buf: Vec<u8> = Vec::new();
            self[i].encode_index(&mut buf);
            assert(buf@ =~= all[i as int]);
            out.push(buf);
            proof {
                assert(crate::engine::storage::views(out@) =~= before.push(all[i as int]));
                assert(all.take(i + 1) =~= all.take(i as int).push(all[i as int]));
            }
            i = i + 1;
        }
        assert(all.take(i as int) =~= all);
        out
    }
}

/// Function indexes over numbers sort by size.
pub proof fn law_number_index_order(a: u64, b: u64)
    requires
        a < b,
    ensures
        crate::bytes::lex_lt(a.index_bytes(), b.index_bytes()),
{
    crate::bytes::lemma_pow256_small();
    crate::bytes::lemma_be_order(a as nat, b as nat, 8);
}

/// A function index over `u8` holds the number itself, in 1 byte, and sorts by
/// size. One value makes one entry.
pub proof fn law_u8_index(a: u8, b: u8)
    ensures
        a.index_bytes().len() == 1,
        crate::bytes::be_value(a.index_bytes()) == a,
        crate::bytes::lex_lt(a.index_bytes(), b.index_bytes()) <==> a < b,
        a.entry_bytes().len() == 1,
        a.entry_bytes()[0].len() == 1,
        crate::bytes::be_value(a.entry_bytes()[0]) == a,
{
    crate::bytes::lemma_pow256_small();
    crate::bytes::lemma_be_bytes_len(a as nat, 1);
    crate::bytes::lemma_be_round_trip(a as nat, 1);
    crate::bytes::lemma_be_sorts(a as nat, b as nat, 1);
}

/// A function index over `u16` holds the number itself, in 2 bytes, and sorts by
/// size. One value makes one entry.
pub proof fn law_u16_index(a: u16, b: u16)
    ensures
        a.index_bytes().len() == 2,
        crate::bytes::be_value(a.index_bytes()) == a,
        crate::bytes::lex_lt(a.index_bytes(), b.index_bytes()) <==> a < b,
        a.entry_bytes().len() == 1,
        a.entry_bytes()[0].len() == 2,
        crate::bytes::be_value(a.entry_bytes()[0]) == a,
{
    crate::bytes::lemma_pow256_small();
    crate::bytes::lemma_be_bytes_len(a as nat, 2);
    crate::bytes::lemma_be_round_trip(a as nat, 2);
    crate::bytes::lemma_be_sorts(a as nat, b as nat, 2);
}

/// A function index over `u32` holds the number itself, in 4 bytes, and sorts by
/// size. One value makes one entry.
pub proof fn law_u32_index(a: u32, b: u32)
    ensures
        a.index_bytes().len() == 4,
        crate::bytes::be_value(a.index_bytes()) == a,
        crate::bytes::lex_lt(a.index_bytes(), b.index_bytes()) <==> a < b,
        a.entry_bytes().len() == 1,
        a.entry_bytes()[0].len() == 4,
        crate::bytes::be_value(a.entry_bytes()[0]) == a,
{
    crate::bytes::lemma_pow256_small();
    crate::bytes::lemma_be_bytes_len(a as nat, 4);
    crate::bytes::lemma_be_round_trip(a as nat, 4);
    crate::bytes::lemma_be_sorts(a as nat, b as nat, 4);
}

/// A function index over `u64` holds the number itself, in 8 bytes, and sorts by
/// size. One value makes one entry.
pub proof fn law_u64_index(a: u64, b: u64)
    ensures
        a.index_bytes().len() == 8,
        crate::bytes::be_value(a.index_bytes()) == a,
        crate::bytes::lex_lt(a.index_bytes(), b.index_bytes()) <==> a < b,
        a.entry_bytes().len() == 1,
        a.entry_bytes()[0].len() == 8,
        crate::bytes::be_value(a.entry_bytes()[0]) == a,
{
    crate::bytes::lemma_pow256_small();
    crate::bytes::lemma_be_bytes_len(a as nat, 8);
    crate::bytes::lemma_be_round_trip(a as nat, 8);
    crate::bytes::lemma_be_sorts(a as nat, b as nat, 8);
}

/// A function index over text sorts by the text, and different texts have
/// different entries. One value makes one entry.
pub proof fn law_text_index(a: String, b: String)
    ensures
        vstd::utf8::valid_utf8(a.index_bytes()),
        vstd::utf8::decode_utf8(a.index_bytes()) == a@,
        crate::bytes::lex_lt(a.index_bytes(), b.index_bytes()) <==> crate::text::name_lt(a@, b@),
        a.entry_bytes().len() == 1,
        vstd::utf8::decode_utf8(a.entry_bytes()[0]) == a@,
{
    broadcast use vstd::utf8::encode_utf8_decode_utf8, vstd::utf8::encode_utf8_valid_utf8;

}

/// A list of values makes one entry for each of them, in the order of the
/// list.
pub proof fn law_list_index<V: IndexFuncResult>(values: Vec<V>, i: int)
    requires
        0 <= i < values@.len(),
    ensures
        values.entry_bytes().len() == values@.len(),
        values.entry_bytes()[i] == values@[i].index_bytes(),
{
}

/// A literal default by the name of its field.
pub open spec fn default_list(v: Seq<(&'static str, DefaultValueConst)>) -> Seq<
    (Seq<char>, DefaultValueConst),
> {
    v.map_values(|d: (&'static str, DefaultValueConst)| (d.0@, d.1))
}

/// A key of a declared access method of the table with a header: the byte
/// behind the header is 16 or more, which leaves out primary entries,
/// dynamic fields and the dictionary.
pub open spec fn declared_key(header: Seq<u8>, k: Seq<u8>) -> bool {
    &&& crate::bytes::starts_with(k, header)
    &&& k.len() > header.len()
    &&& k[header.len() as int] >= DECLARED_SLOT_BASE
}

/// A document: what it says, how it is stored, and what is stored along with
/// it.
pub trait Document: Sized {
    /// The identity of the document.
    type Key: KeyEncode;

    /// What a document says.
    type Model;

    /// Version of the payload layout. Older payloads can be read, newer ones
    /// not.
    const LAYOUT_VERSION: u8;

    /// Bytes of the fixed-width fields of a payload.
    const HOT_WIDTH: usize;

    /// What the document says.
    spec fn model(&self) -> Self::Model;

    /// The payload.
    spec fn payload(d: Self::Model) -> Seq<u8>;

    /// Whether these bytes are a payload.
    spec fn readable(b: Seq<u8>) -> bool;

    /// The document that a payload holds.
    spec fn decoded(b: Seq<u8>) -> Self::Model;

    /// What the payload keeps of a document: all but embedded documents.
    spec fn bare(d: Self::Model) -> Self::Model;

    /// Whether the document fits the payload layout.
    spec fn storable(d: Self::Model) -> bool;

    /// The entries of all access methods.
    spec fn entries(key: Seq<u8>, d: Self::Model, header: Seq<u8>) -> Seq<(Seq<u8>, Seq<u8>)>;

    /// The document once embedded documents have been fetched.
    spec fn dereferenced(
        d: Self::Model,
        m: crate::engine::storage::Contents,
    ) -> Self::Model;

    /// The entries of embedded documents that are carried along.
    spec fn embeds(d: Self::Model) -> Seq<(Seq<u8>, Seq<u8>)>;

    /// The keys of all embedded documents.
    spec fn embedded(d: Self::Model) -> Seq<Seq<u8>>;

    /// The engine once the document has been folded into every group it
    /// belongs to, or out of it.
    spec fn reduced(
        m: crate::engine::storage::Contents,
        key: Seq<u8>,
        d: Self::Model,
        header: Seq<u8>,
        fold: bool,
    ) -> crate::engine::storage::Contents;

    /// A write has been handed to whoever listens. What becomes of it there
    /// is up to the transport.
    spec fn announced(op: Op, epoch: u64, key: Seq<u8>, d: Self::Model) -> bool;

    /// The declared fields by name.
    spec fn mapped(d: Self::Model) -> Seq<(Seq<char>, crate::model::obj_dynamic::DynView)>;

    /// The document that fields by name give; the others have their
    /// defaults.
    spec fn unmapped(
        fields: Seq<(Seq<char>, crate::model::obj_dynamic::DynView)>,
    ) -> Self::Model;

    /// The declared fields.
    spec fn declared() -> Seq<crate::field::FieldView>;

    /// The literal defaults of declared fields.
    spec fn literals() -> Seq<(Seq<char>, DefaultValueConst)>;

    /// The namespace of the table.
    spec fn ns_bytes() -> Seq<u8>;

    /// The partition of the table, if it has one.
    spec fn partition() -> Option<u8>;

    /// The slots of access methods that are no longer written.
    spec fn retired() -> Seq<Seq<u8>>;

    /// A payload that was written can be read.
    proof fn reads_back(d: Self::Model)
        requires
            Self::storable(d),
        ensures
            Self::readable(Self::payload(d)),
            Self::decoded(Self::payload(d)) == Self::bare(d),
    ;

    /// Entries and groups keep to declared slots.
    proof fn keeps_to_slots(
        m: crate::engine::storage::Contents,
        key: Seq<u8>,
        d: Self::Model,
        header: Seq<u8>,
        fold: bool,
    )
        ensures
            forall|i: int|
                0 <= i < Self::entries(key, d, header).len() ==> declared_key(
                    header,
                    (#[trigger] Self::entries(key, d, header)[i]).0,
                ),
            forall|k: Seq<u8>|
                !declared_key(header, k) ==> (#[trigger] Self::reduced(
                    m,
                    key,
                    d,
                    header,
                    fold,
                ).dom().contains(k) == m.dom().contains(k) && (m.dom().contains(k)
                    ==> Self::reduced(m, key, d, header, fold)[k] == m[k])),
    ;

    /// The payload.
    fn encode_payload(&self) -> (r: Vec<u8>)
        requires
            Self::storable(self.model()),
        ensures
            r@ == Self::payload(self.model()),
    ;

    /// The document that a payload holds.
    fn decode_payload(b: &[u8]) -> (r: Self)
        requires
            Self::readable(b@),
        ensures
            r.model() == Self::decoded(b@),
    ;

    /// The entries of all access methods, in slot order.
    fn index_entries(key: &Self::Key, row: &Self, header: &[u8]) -> (r: Vec<(Vec<u8>, Vec<u8>)>)
        ensures
            crate::engine::storage::pair_views(r@) == Self::entries(
                key.bytes(),
                row.model(),
                header@,
            ),
    ;

    /// Fetches embedded documents.
    fn embed_deref<S: VirtualStorage>(&mut self, store: &S)
        ensures
            final(self).model() == Self::dereferenced(old(self).model(), store.contents()),
    ;

    /// The entries of embedded documents that are carried along.
    fn embed_entries(&self) -> (r: Vec<(Vec<u8>, Vec<u8>)>)
        ensures
            crate::engine::storage::pair_views(r@) == Self::embeds(self.model()),
    ;

    /// The keys of all embedded documents.
    fn embed_keys(&self) -> (r: Vec<Vec<u8>>)
        ensures
            crate::engine::storage::views(r@) == Self::embedded(self.model()),
    ;

    /// Folds the document into every group it belongs to, or out of it.
    fn apply_reduces<S: VirtualStorage>(
        store: &mut S,
        key: &Self::Key,
        row: &Self,
        header: &[u8],
        fold: bool,
    )
        ensures
            final(store).contents() == Self::reduced(
                old(store).contents(),
                key.bytes(),
                row.model(),
                header@,
                fold,
            ),
    ;

    /// Hands a write to whoever listens. Delivery is best effort: what becomes
    /// of it there is not promised.
    fn emit_event(op: Op, epoch: u64, key: &Self::Key, row: &Self)
        ensures
            Self::announced(op, epoch, key.bytes(), row.model()),
    ;

    /// The declared fields by name.
    fn to_map(&self) -> (r: FieldMap)
        ensures
            r@ == Self::mapped(self.model()),
    ;

    /// The document that fields by name give; the others have their
    /// defaults.
    fn from_map(map: &FieldMap) -> (r: Self)
        ensures
            r.model() == Self::unmapped(map@),
    ;

    /// The declared fields, in declaration order.
    fn fields() -> (r: Vec<FieldDesc>)
        ensures
            crate::field::field_list(r@) == Self::declared(),
    ;

    /// The literal defaults of declared fields.
    fn defaults() -> (r: Vec<(&'static str, DefaultValueConst)>)
        ensures
            default_list(r@) == Self::literals(),
    ;

    /// The namespace of the table.
    fn ns_prefix() -> (r: Vec<u8>)
        ensures
            r@ == Self::ns_bytes(),
    ;

    /// The partition of the table, if it has one.
    fn partition_id() -> (r: Option<u8>)
        ensures
            r == Self::partition(),
    ;

    /// The slots of access methods that are no longer written.
    fn retired_slots() -> (r: Vec<Vec<u8>>)
        ensures
            crate::engine::storage::views(r@) == Self::retired(),
    ;
}

/// The segment in front of the namespace of a table with a partition: an
/// escape byte that no namespace begins with, and the partition.
pub open spec fn partition_segment(id: Option<u8>) -> Seq<u8> {
    match id {
        Some(n) => seq![0xFFu8, n],
        None => Seq::empty(),
    }
}

/// The header of a table: the partition segment, then the namespace.
pub open spec fn header_bytes<R: Document>() -> Seq<u8> {
    partition_segment(R::partition()) + R::ns_bytes()
}

/// The header of a table: the partition segment, then the namespace.
pub fn table_header<R: Document>() -> (r: Vec<u8>)
    ensures
        r@ == header_bytes::<R>(),
{
    let mut r: Vec<u8> = Vec::new();
    if let Some(n) = R::partition_id() {
        r.push(0xFF);
        r.push(n);
    }
    assert(r@ =~= partition_segment(R::partition()));
    let ns = R::ns_prefix();
    r.extend_from_slice(ns.as_slice());
    r
}

/// Tables with and without a partition never share a key, as long as no
/// namespace begins with the escape byte.
pub proof fn law_partitions_are_disjoint(id: u8, ns: u16, other: u16, a: Seq<u8>, b: Seq<u8>)
    requires
        other < 0xFF00,
    ensures
        partition_segment(Some(id)) + crate::bytes::be_bytes(ns as nat, 2) + a != partition_segment(
            None,
        ) + crate::bytes::be_bytes(other as nat, 2) + b,
{
    let x = partition_segment(Some(id)) + crate::bytes::be_bytes(ns as nat, 2) + a;
    let y = partition_segment(None) + crate::bytes::be_bytes(other as nat, 2) + b;
    crate::bytes::lemma_be_bytes_len(other as nat, 2);
    crate::bytes::lemma_high_byte(other as nat);
    assert(x[0] == 0xFF);
    assert(y[0] == crate::bytes::be_bytes(other as nat, 2)[0]);
}

/// Tables with different headers of one length never share a key, whatever
/// stands behind the headers.
pub proof fn law_tables_are_disjoint<R: Document, T: Document>(a: Seq<u8>, b: Seq<u8>)
    requires
        header_bytes::<R>().len() == header_bytes::<T>().len(),
        header_bytes::<R>() != header_bytes::<T>(),
    ensures
        header_bytes::<R>() + a != header_bytes::<T>() + b,
{
    let n = header_bytes::<R>().len() as int;
    assert((header_bytes::<R>() + a).take(n) =~= header_bytes::<R>());
    assert((header_bytes::<T>() + b).take(n) =~= header_bytes::<T>());
}

/// Engine contents once pairs have been written, one after another.
pub open spec fn put_pairs(
    m: crate::engine::storage::Contents,
    pairs: Seq<(Seq<u8>, Seq<u8>)>,
) -> crate::engine::storage::Contents
    decreases pairs.len(),
{
    if pairs.len() == 0 {
        m
    } else {
        put_pairs(m, pairs.drop_last()).insert(pairs.last().0, pairs.last().1)
    }
}

/// Engine contents once keys have been removed.
pub open spec fn del_keys(
    m: crate::engine::storage::Contents,
    keys: Seq<Seq<u8>>,
) -> crate::engine::storage::Contents
    decreases keys.len(),
{
    if keys.len() == 0 {
        m
    } else {
        del_keys(m, keys.drop_last()).remove(keys.last())
    }
}

/// The keys of `old` that are not among `new`.
pub open spec fn stale_keys(old_keys: Seq<Seq<u8>>, new_keys: Seq<Seq<u8>>) -> Seq<Seq<u8>>
    decreases old_keys.len(),
{
    if old_keys.len() == 0 {
        Seq::empty()
    } else {
        let before = stale_keys(old_keys.drop_last(), new_keys);
        if new_keys.contains(old_keys.last()) {
            before
        } else {
            before.push(old_keys.last())
        }
    }
}

/// The keys of pairs.
pub open spec fn keys_of(pairs: Seq<(Seq<u8>, Seq<u8>)>) -> Seq<Seq<u8>> {
    pairs.map_values(|p: (Seq<u8>, Seq<u8>)| p.0)
}

/// Writing pairs changes only their keys.
pub proof fn lemma_put_pairs_elsewhere(
    m: crate::engine::storage::Contents,
    pairs: Seq<(Seq<u8>, Seq<u8>)>,
    k: Seq<u8>,
)
    requires
        forall|i: int| 0 <= i < pairs.len() ==> (#[trigger] pairs[i]).0 != k,
    ensures
        put_pairs(m, pairs).dom().contains(k) == m.dom().contains(k),
        m.dom().contains(k) ==> put_pairs(m, pairs)[k] == m[k],
    decreases pairs.len(),
{
    if pairs.len() > 0 {
        let init = pairs.drop_last();
        assert forall|i: int| 0 <= i < init.len() implies (#[trigger] init[i]).0 != k by {
            assert(init[i] == pairs[i]);
        }
        lemma_put_pairs_elsewhere(m, init, k);
        assert(pairs[pairs.len() - 1] == pairs.last());
    }
}

/// A pair that was written is there, unless a later one has its key.
pub proof fn lemma_put_pairs_found(
    m: crate::engine::storage::Contents,
    pairs: Seq<(Seq<u8>, Seq<u8>)>,
    at: int,
)
    requires
        0 <= at < pairs.len(),
        forall|i: int| at < i < pairs.len() ==> (#[trigger] pairs[i]).0 != pairs[at].0,
    ensures
        put_pairs(m, pairs).dom().contains(pairs[at].0),
        put_pairs(m, pairs)[pairs[at].0] == pairs[at].1,
    decreases pairs.len(),
{
    let init = pairs.drop_last();
    if at < init.len() {
        assert forall|i: int| at < i < init.len() implies (#[trigger] init[i]).0 != init[at].0 by {
            assert(init[i] == pairs[i]);
        }
        lemma_put_pairs_found(m, init, at);
        assert(pairs[pairs.len() - 1] == pairs.last());
    }
}

/// Removing keys changes only those keys.
pub proof fn lemma_del_keys(
    m: crate::engine::storage::Contents,
    keys: Seq<Seq<u8>>,
    k: Seq<u8>,
)
    ensures
        del_keys(m, keys).dom().contains(k) == (m.dom().contains(k) && !keys.contains(k)),
        del_keys(m, keys).dom().contains(k) ==> del_keys(m, keys)[k] == m[k],
    decreases keys.len(),
{
    if keys.len() > 0 {
        let init = keys.drop_last();
        lemma_del_keys(m, init, k);
        assert(keys =~= init.push(keys.last()));
        if init.contains(k) {
            let i = choose|i: int| 0 <= i < init.len() && init[i] == k;
            assert(keys[i] == k);
        }
        if keys.contains(k) && k != keys.last() {
            let i = choose|i: int| 0 <= i < keys.len() && keys[i] == k;
            assert(init[i] == k);
        }
        assert(keys[keys.len() - 1] == keys.last());
    }
}

/// Stale keys are old keys that are not new ones.
pub proof fn lemma_stale_keys(old_keys: Seq<Seq<u8>>, new_keys: Seq<Seq<u8>>, k: Seq<u8>)
    ensures
        stale_keys(old_keys, new_keys).contains(k) == (old_keys.contains(k) && !new_keys.contains(
            k,
        )),
    decreases old_keys.len(),
{
    if old_keys.len() > 0 {
        let init = old_keys.drop_last();
        let before = stale_keys(init, new_keys);
        let all = stale_keys(old_keys, new_keys);
        lemma_stale_keys(init, new_keys, k);
        assert(old_keys[old_keys.len() - 1] == old_keys.last());
        if init.contains(k) {
            let i = choose|i: int| 0 <= i < init.len() && init[i] == k;
            assert(old_keys[i] == k);
        }
        if old_keys.contains(k) && k != old_keys.last() {
            let i = choose|i: int| 0 <= i < old_keys.len() && old_keys[i] == k;
            assert(init[i] == k);
        }
        if !new_keys.contains(old_keys.last()) {
            if before.contains(k) {
                let i = choose|i: int| 0 <= i < before.len() && before[i] == k;
                assert(all[i] == k);
            }
            if all.contains(k) && k != old_keys.last() {
                let i = choose|i: int| 0 <= i < all.len() && all[i] == k;
                assert(before[i] == k);
            }
            assert(all[before.len() as int] == old_keys.last());
        }
    }
}

/// Writes pairs, one after another.
pub fn put_all<S: VirtualStorage>(store: &mut S, pairs: &Vec<(Vec<u8>, Vec<u8>)>)
    ensures
        final(store).contents() == put_pairs(
            old(store).contents(),
            crate::engine::storage::pair_views(pairs@),
        ),
{
    let ghost all = crate::engine::storage::pair_views(pairs@);
    let ghost m = store.contents();
    let mut i: usize = 0;
    assert(all.take(0) =~= Seq::empty());
    while i < pairs.len()
        invariant
            i <= pairs@.len() == all.len(),
            all == crate::engine::storage::pair_views(pairs@),
            store.contents() == put_pairs(m, all.take(i as int)),
        decreases pairs@.len() - i,
    {
        let key = to_vec(pairs[i].0.as_slice());
        let value = to_vec(pairs[i].1.as_slice());
        store.put(key, value);
        proof {
            assert(all.take(i + 1).drop_last() =~= all.take(i as int));
            assert(all.take(i + 1).last() == all[i as int]);
        }
        i = i + 1;
    }
    assert(all.take(i as int) =~= all);
}

/// Removes the keys of pairs.
pub fn del_entries<S: VirtualStorage>(store: &mut S, pairs: &Vec<(Vec<u8>, Vec<u8>)>)
    ensures
        final(store).contents() == del_keys(
            old(store).contents(),
            keys_of(crate::engine::storage::pair_views(pairs@)),
        ),
{
    let ghost all = keys_of(crate::engine::storage::pair_views(pairs@));
    let ghost m = store.contents();
    let mut i: usize = 0;
    assert(all.take(0) =~= Seq::empty());
    while i < pairs.len()
        invariant
            i <= pairs@.len() == all.len(),
            all == keys_of(crate::engine::storage::pair_views(pairs@)),
            store.contents() == del_keys(m, all.take(i as int)),
        decreases pairs@.len() - i,
    {
        store.del(pairs[i].0.as_slice());
        proof {
            assert(all.take(i + 1).drop_last() =~= all.take(i as int));
            assert(all.take(i + 1).last() == all[i as int]);
        }
        i = i + 1;
    }
    assert(all.take(i as int) =~= all);
}

/// Whether a key is in a list.
fn in_list(keys: &Vec<Vec<u8>>, k: &[u8]) -> (r: bool)
    ensures
        r == crate::engine::storage::views(keys@).contains(k@),
{
    let mut i: usize = 0;
    while i < keys.len()
        invariant
            i <= keys@.len(),
            forall|j: int| 0 <= j < i ==> crate::engine::storage::views(keys@)[j] != k@,
        decreases keys@.len() - i,
    {
        if crate::bytes::bytes_eq(keys[i].as_slice(), k) {
            assert(crate::engine::storage::views(keys@)[i as int] == k@);
            return true;
        }
        i = i + 1;
    }
    false
}

/// Removes the keys of `old_keys` that are not among `new_keys`.
pub fn release<S: VirtualStorage>(
    store: &mut S,
    old_keys: &Vec<Vec<u8>>,
    new_keys: &Vec<Vec<u8>>,
)
    ensures
        final(store).contents() == del_keys(
            old(store).contents(),
            stale_keys(
                crate::engine::storage::views(old_keys@),
                crate::engine::storage::views(new_keys@),
            ),
        ),
{
    let ghost all = crate::engine::storage::views(old_keys@);
    let ghost kept = crate::engine::storage::views(new_keys@);
    let ghost m = store.contents();
    let mut i: usize = 0;
    assert(all.take(0) =~= Seq::empty());
    while i < old_keys.len()
        invariant
            i <= old_keys@.len() == all.len(),
            all == crate::engine::storage::views(old_keys@),
            kept == crate::engine::storage::views(new_keys@),
            store.contents() == del_keys(m, stale_keys(all.take(i as int), kept)),
        decreases old_keys@.len() - i,
    {
        proof {
            assert(all.take(i + 1).drop_last() =~= all.take(i as int));
            assert(all.take(i + 1).last() == all[i as int]);
        }
        let ghost before = stale_keys(all.take(i as int), kept);
        if !in_list(new_keys, old_keys[i].as_slice()) {
            store.del(old_keys[i].as_slice());
            proof {
                assert(before.push(all[i as int]).drop_last() =~= before);
            }
        }
        i = i + 1;
    }
    assert(all.take(i as int) =~= all);
}

/// An access method over documents of one type.
pub trait KvIndex {
    /// The documents.
    type Document: Document;

    /// The stored slot.
    spec fn slot() -> Seq<u8>;

    /// The fields that entries sort by, in that order.
    spec fn sorted_by() -> Seq<Seq<char>>;

    /// The fields that entries carry along.
    spec fn covered() -> Seq<Seq<char>>;

    /// The key fields behind the sorted fields; none stands for all.
    spec fn tail_fields() -> Seq<Seq<char>>;

    /// The stored form of named fields.
    spec fn named(
        key: Seq<u8>,
        d: <Self::Document as Document>::Model,
        names: Seq<Seq<char>>,
    ) -> Seq<u8>;

    /// The stored slot.
    fn slot_bytes() -> (r: Vec<u8>)
        ensures
            r@ == Self::slot(),
    ;

    /// The fields that entries sort by, in that order.
    fn sort_fields() -> (r: Vec<&'static str>)
        ensures
            crate::key::name_list(r@) == Self::sorted_by(),
    ;

    /// The fields that entries carry along.
    fn includes() -> (r: Vec<&'static str>)
        ensures
            crate::key::name_list(r@) == Self::covered(),
    ;

    /// The key fields behind the sorted fields; none stands for all.
    fn key_prefix() -> (r: Vec<&'static str>)
        ensures
            crate::key::name_list(r@) == Self::tail_fields(),
    ;

    /// Appends the stored form of named fields.
    fn encode_named(
        key: &<Self::Document as Document>::Key,
        row: &Self::Document,
        names: &Vec<&'static str>,
        buf: &mut Vec<u8>,
    )
        ensures
            final(buf)@ == old(buf)@ + Self::named(
                key.bytes(),
                row.model(),
                crate::key::name_list(names@),
            ),
    ;
}

/// Bytes of the key prefix behind the sorted fields.
pub open spec fn tail_width<I: KvIndex>() -> nat {
    if I::tail_fields().len() == 0 {
        <<I::Document as Document>::Key as KeyEncode>::KEY_LEN as nat
    } else {
        <<I::Document as Document>::Key as KeyEncode>::named_len(I::tail_fields())
    }
}

/// The key of an entry, given the stored form of its sorted fields.
pub open spec fn entry_at<I: KvIndex>(header: Seq<u8>, sorted: Seq<u8>, key: Seq<u8>) -> Seq<u8> {
    header + I::slot() + sorted + key.take(tail_width::<I>() as int)
}

/// The value of an entry.
pub open spec fn entry_body<I: KvIndex>(
    key: Seq<u8>,
    d: <I::Document as Document>::Model,
) -> Seq<u8> {
    if I::covered().len() == 0 {
        Seq::empty()
    } else {
        I::named(key, d, I::covered())
    }
}

/// The stored form of the sorted fields.
pub fn fields_bytes<I: KvIndex>(
    key: &<I::Document as Document>::Key,
    row: &I::Document,
) -> (r: Vec<u8>)
    ensures
        r@ == I::named(key.bytes(), row.model(), I::sorted_by()),
{
    let mut buf: Vec<u8> = Vec::new();
    let names = I::sort_fields();
    I::encode_named(key, row, &names, &mut buf);
    assert(buf@ =~= I::named(key.bytes(), row.model(), I::sorted_by()));
    buf
}

/// Bytes of the key prefix behind the sorted fields.
pub fn key_prefix_width<I: KvIndex>() -> (r: usize)
    ensures
        r == tail_width::<I>(),
        r <= <<I::Document as Document>::Key as KeyEncode>::KEY_LEN,
{
    let names = I::key_prefix();
    proof {
        <<I::Document as Document>::Key as KeyEncode>::prefix_fits(I::tail_fields());
    }
    if names.len() == 0 {
        <<I::Document as Document>::Key as KeyEncode>::KEY_LEN
    } else {
        <<I::Document as Document>::Key as KeyEncode>::prefix_width(&names)
    }
}

/// The key prefix behind the sorted fields.
pub fn key_prefix_bytes<I: KvIndex>(key: &<I::Document as Document>::Key) -> (r: Vec<u8>)
    ensures
        r@ == key.bytes().take(tail_width::<I>() as int),
{
    let names = I::key_prefix();
    proof {
        key.reads_back();
        assert(key.bytes().take(key.bytes().len() as int) =~= key.bytes());
    }
    if names.len() == 0 {
        key.encode()
    } else {
        let mut buf: Vec<u8> = Vec::new();
        let _n: usize = encode_prefix_named(key, &mut buf, &names);
        assert(buf@ =~= key.bytes().take(tail_width::<I>() as int));
        buf
    }
}

/// The key of an entry, given the stored form of its sorted fields.
fn entry_key_at<I: KvIndex>(
    header: &[u8],
    sorted: &[u8],
    key: &<I::Document as Document>::Key,
) -> (r: Vec<u8>)
    ensures
        r@ == entry_at::<I>(header@, sorted@, key.bytes()),
{
    let mut buf: Vec<u8> = to_vec(header);
    let slot = I::slot_bytes();
    buf.extend_from_slice(slot.as_slice());
    buf.extend_from_slice(sorted);
    let tail = key_prefix_bytes::<I>(key);
    buf.extend_from_slice(tail.as_slice());
    assert(buf@ =~= entry_at::<I>(header@, sorted@, key.bytes()));
    buf
}

/// The key of the entry of a document.
pub fn entry_key<I: KvIndex>(
    header: &[u8],
    key: &<I::Document as Document>::Key,
    row: &I::Document,
) -> (r: Vec<u8>)
    ensures
        r@ == entry_at::<I>(
            header@,
            I::named(key.bytes(), row.model(), I::sorted_by()),
            key.bytes(),
        ),
{
    let sorted = fields_bytes::<I>(key, row);
    entry_key_at::<I>(header, sorted.as_slice(), key)
}

/// The value of the entry of a document: the covered fields.
pub fn entry_value<I: KvIndex>(
    key: &<I::Document as Document>::Key,
    row: &I::Document,
) -> (r: Vec<u8>)
    ensures
        r@ == entry_body::<I>(key.bytes(), row.model()),
{
    let mut buf: Vec<u8> = Vec::new();
    let names = I::includes();
    if names.len() > 0 {
        I::encode_named(key, row, &names, &mut buf);
    }
    assert(buf@ =~= entry_body::<I>(key.bytes(), row.model()));
    buf
}

/// The entries of a document in an access method over plain fields: one.
pub fn entry_pairs<I: KvIndex>(
    header: &[u8],
    key: &<I::Document as Document>::Key,
    row: &I::Document,
) -> (r: Vec<(Vec<u8>, Vec<u8>)>)
    ensures
        crate::engine::storage::pair_views(r@) == seq![
            (
                entry_at::<I>(
                    header@,
                    I::named(key.bytes(), row.model(), I::sorted_by()),
                    key.bytes(),
                ),
                entry_body::<I>(key.bytes(), row.model()),
            ),
        ],
{
    let mut r: Vec<(Vec<u8>, Vec<u8>)> = Vec::new();
    let k = entry_key::<I>(header, key, row);
    let v = entry_value::<I>(key, row);
    let ghost pair = (k@, v@);
    r.push((k, v));
    assert(crate::engine::storage::pair_views(r@) =~= seq![pair]);
    r
}

/// The entries of a document in a function index: one for each value that
/// the function returned.
pub fn func_entry_pairs<I: KvIndex, V: IndexFuncValues>(
    header: &[u8],
    key: &<I::Document as Document>::Key,
    row: &I::Document,
    values: V,
) -> (r: Vec<(Vec<u8>, Vec<u8>)>)
    ensures
        crate::engine::storage::pair_views(r@) == values.entry_bytes().map_values(
            |b: Seq<u8>|
                (
                    entry_at::<I>(header@, b, key.bytes()),
                    entry_body::<I>(key.bytes(), row.model()),
                ),
        ),
{
    let ghost all = values.entry_bytes();
    let ghost f = |b: Seq<u8>|
        (entry_at::<I>(header@, b, key.bytes()), entry_body::<I>(key.bytes(), row.model()));
    let list = values.func_values();
    let mut r: Vec<(Vec<u8>, Vec<u8>)> = Vec::new();
    let mut i: usize = 0;
    assert(crate::engine::storage::pair_views(r@) =~= all.take(0).map_values(f));
    while i < list.len()
        invariant
            i <= list@.len() == all.len(),
            all == crate::engine::storage::views(list@),
            f == (|b: Seq<u8>|
                (
                    entry_at::<I>(header@, b, key.bytes()),
                    entry_body::<I>(key.bytes(), row.model()),
                )),
            crate::engine::storage::pair_views(r@) == all.take(i as int).map_values(f),
        decreases list@.len() - i,
    {
        let ghost before = crate::engine::storage::pair_views(r@);
        let k = entry_key_at::<I>(header, list[i].as_slice(), key);
        let v = entry_value::<I>(key, row);
        let ghost pair = (k@, v@);
        r.push((k, v));
        proof {
            assert(pair == f(all[i as int]));
            assert(crate::engine::storage::pair_views(r@) =~= before.push(pair));
            assert(all.take(i + 1) =~= all.take(i as int).push(all[i as int]));
            assert(all.take(i + 1).map_values(f) =~= before.push(pair));
        }
        i = i + 1;
    }
    assert(all.take(i as int) =~= all);
    r
}

/// The front that entries share whose sorted fields begin with `encoded`.
pub fn entry_prefix<I: KvIndex>(header: &[u8], encoded: &[u8]) -> (r: Vec<u8>)
    ensures
        r@ == header@ + I::slot() + encoded@,
{
    let slot = I::slot_bytes();
    let mut buf = concat(header, slot.as_slice());
    buf.extend_from_slice(encoded);
    assert(buf@ =~= header@ + I::slot() + encoded@);
    buf
}

/// Entries of one access method sort by the stored form of their fields.
pub proof fn law_entries_sort_by_fields<I: KvIndex>(
    header: Seq<u8>,
    a: Seq<u8>,
    b: Seq<u8>,
    ka: Seq<u8>,
    kb: Seq<u8>,
)
    requires
        a.len() == b.len(),
        crate::bytes::lex_lt(a, b),
    ensures
        crate::bytes::lex_lt(entry_at::<I>(header, a, ka), entry_at::<I>(header, b, kb)),
{
    let p = header + I::slot();
    let ta = ka.take(tail_width::<I>() as int);
    let tb = kb.take(tail_width::<I>() as int);
    crate::bytes::lemma_lex_extend(a, b, ta, tb);
    crate::bytes::lemma_lex_shared_prefix(p, a + ta, b + tb);
    assert(entry_at::<I>(header, a, ka) =~= p + (a + ta));
    assert(entry_at::<I>(header, b, kb) =~= p + (b + tb));
}

/// The key that the tail of an entry gives: its last `taken` bytes, filled
/// with zeros to the width of a key.
pub open spec fn tail_key<K: KeyEncode>(suffix: Seq<u8>, taken: nat) -> Seq<u8> {
    K::canon(
        suffix.skip(suffix.len() - taken) + Seq::new((K::KEY_LEN - taken) as nat, |i: int| 0u8),
    )
}

/// What partial keys say: the stored form, and how many bytes of it are
/// known.
pub open spec fn prefix_key_views<K: KeyEncode>(v: Seq<PrefixKey<K>>) -> Seq<(Seq<u8>, nat)> {
    v.map_values(|p: PrefixKey<K>| (p.decoded.bytes(), p.taken as nat))
}

/// The key that the tail of an entry gives.
pub fn decode_tail<K: KeyEncode>(suffix: &[u8], taken: usize) -> (r: PrefixKey<K>)
    requires
        taken <= suffix@.len(),
        taken <= K::KEY_LEN,
    ensures
        r.decoded.bytes() == tail_key::<K>(suffix@, taken as nat),
        r.taken == taken,
{
    let mut buf = to_vec(slice_from(suffix, suffix.len() - taken));
    let ghost tail = buf@;
    let mut n: usize = taken;
    while n < K::KEY_LEN
        invariant
            taken <= n <= K::KEY_LEN,
            buf@ =~= tail + Seq::new((n - taken) as nat, |i: int| 0u8),
            buf@.len() == n,
        decreases K::KEY_LEN - n,
    {
        buf.push(0);
        n = n + 1;
    }
    PrefixKey { decoded: K::decode(buf.as_slice()), taken }
}

/// The keys of all entries whose sorted fields begin with `encoded`, in
/// entry order.
pub fn scan_index<S: VirtualStorage, I: KvIndex>(store: &S, header: &[u8], encoded: &[u8]) -> (r:
    Vec<PrefixKey<<I::Document as Document>::Key>>)
    requires
        forall|i: int|
            0 <= i < crate::engine::storage::prefix_suffixes(
                store.contents(),
                header@ + I::slot() + encoded@,
            ).len() ==> tail_width::<I>() <= (#[trigger] crate::engine::storage::prefix_suffixes(
                store.contents(),
                header@ + I::slot() + encoded@,
            )[i]).len(),
    ensures
        prefix_key_views(r@) == crate::engine::storage::prefix_suffixes(
            store.contents(),
            header@ + I::slot() + encoded@,
        ).map_values(
            |s: Seq<u8>|
                (
                    tail_key::<<I::Document as Document>::Key>(s, tail_width::<I>()),
                    tail_width::<I>(),
                ),
        ),
{
    let p = entry_prefix::<I>(header, encoded);
    let taken: usize = key_prefix_width::<I>();
    let list = store.scan_suffix(p.as_slice());
    let ghost all = crate::engine::storage::prefix_suffixes(store.contents(), p@);
    let ghost f = |s: Seq<u8>|
        (tail_key::<<I::Document as Document>::Key>(s, tail_width::<I>()), tail_width::<I>());
    let mut out: Vec<PrefixKey<<I::Document as Document>::Key>> = Vec::new();
    let mut i: usize = 0;
    assert(prefix_key_views(out@) =~= all.take(0).map_values(f));
    while i < list.len()
        invariant
            i <= list@.len() == all.len(),
            all == crate::engine::storage::views(list@),
            taken == tail_width::<I>(),
            taken <= <<I::Document as Document>::Key as KeyEncode>::KEY_LEN,
            forall|j: int| 0 <= j < all.len() ==> taken <= (#[trigger] all[j]).len(),
            f == (|s: Seq<u8>|
                (
                    tail_key::<<I::Document as Document>::Key>(s, tail_width::<I>()),
                    tail_width::<I>(),
                )),
            prefix_key_views(out@) == all.take(i as int).map_values(f),
        decreases list@.len() - i,
    {
        let ghost before = prefix_key_views(out@);
        assert(all[i as int] == list@[i as int]@);
        let k = decode_tail::<<I::Document as Document>::Key>(list[i].as_slice(), taken);
        let ghost kv = (k.decoded.bytes(), k.taken as nat);
        out.push(k);
        proof {
            assert(kv == f(all[i as int]));
            assert(prefix_key_views(out@) =~= before.push(kv));
            assert(all.take(i + 1) =~= all.take(i as int).push(all[i as int]));
            assert(all.take(i + 1).map_values(f) =~= before.push(kv));
        }
        i = i + 1;
    }
    assert(all.take(i as int) =~= all);
    out
}

/// The keys of all entries whose sorted fields begin with `encoded`, with
/// the covered fields, in entry order.
pub fn scan_covering<S: VirtualStorage, I: KvIndex>(
    store: &S,
    header: &[u8],
    encoded: &[u8],
) -> (r: Vec<(PrefixKey<<I::Document as Document>::Key>, Vec<u8>)>)
    requires
        forall|i: int|
            0 <= i < crate::engine::storage::prefix_suffix_pairs(
                store.contents(),
                header@ + I::slot() + encoded@,
            ).len() ==> tail_width::<I>() <= (
            #[trigger] crate::engine::storage::prefix_suffix_pairs(
                store.contents(),
                header@ + I::slot() + encoded@,
            )[i]).0.len(),
    ensures
        r@.map_values(
            |p: (PrefixKey<<I::Document as Document>::Key>, Vec<u8>)|
                (p.0.decoded.bytes(), p.0.taken as nat, p.1@),
        ) == crate::engine::storage::prefix_suffix_pairs(
            store.contents(),
            header@ + I::slot() + encoded@,
        ).map_values(
            |s: (Seq<u8>, Seq<u8>)|
                (
                    tail_key::<<I::Document as Document>::Key>(s.0, tail_width::<I>()),
                    tail_width::<I>(),
                    s.1,
                ),
        ),
{
    let p = entry_prefix::<I>(header, encoded);
    let taken: usize = key_prefix_width::<I>();
    let list = scan_suffix_kv(store, p.as_slice());
    let ghost all = crate::engine::storage::prefix_suffix_pairs(store.contents(), p@);
    let ghost f = |s: (Seq<u8>, Seq<u8>)|
        (
            tail_key::<<I::Document as Document>::Key>(s.0, tail_width::<I>()),
            tail_width::<I>(),
            s.1,
        );
    let ghost g = |p: (PrefixKey<<I::Document as Document>::Key>, Vec<u8>)|
        (p.0.decoded.bytes(), p.0.taken as nat, p.1@);
    let mut out: Vec<(PrefixKey<<I::Document as Document>::Key>, Vec<u8>)> = Vec::new();
    let mut i: usize = 0;
    assert(out@.map_values(g) =~= all.take(0).map_values(f));
    while i < list.len()
        invariant
            i <= list@.len() == all.len(),
            all == crate::engine::storage::pair_views(list@),
            taken == tail_width::<I>(),
            taken <= <<I::Document as Document>::Key as KeyEncode>::KEY_LEN,
            forall|j: int| 0 <= j < all.len() ==> taken <= (#[trigger] all[j]).0.len(),
            f == (|s: (Seq<u8>, Seq<u8>)|
                (
                    tail_key::<<I::Document as Document>::Key>(s.0, tail_width::<I>()),
                    tail_width::<I>(),
                    s.1,
                )),
            g == (|p: (PrefixKey<<I::Document as Document>::Key>, Vec<u8>)|
                (p.0.decoded.bytes(), p.0.taken as nat, p.1@)),
            out@.map_values(g) == all.take(i as int).map_values(f),
        decreases list@.len() - i,
    {
        let ghost before = out@.map_values(g);
        assert(all[i as int] == (list@[i as int].0@, list@[i as int].1@));
        let k = decode_tail::<<I::Document as Document>::Key>(list[i].0.as_slice(), taken);
        let v = to_vec(list[i].1.as_slice());
        let ghost kv = (k.decoded.bytes(), k.taken as nat, v@);
        out.push((k, v));
        proof {
            assert(kv == f(all[i as int]));
            assert(out@.map_values(g) =~= before.push(kv));
            assert(all.take(i + 1) =~= all.take(i as int).push(all[i as int]));
            assert(all.take(i + 1).map_values(f) =~= before.push(kv));
        }
        i = i + 1;
    }
    assert(all.take(i as int) =~= all);
    out
}

} // verus!
