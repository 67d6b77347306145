//! Tables: rows of one type on one engine, with one-byte slots.
//!
//! Behind the header of the table stand, each behind a one-byte slot, the
//! payloads, the dynamic fields, the dictionary of their names, and the
//! entries of the declared access methods.

use std::marker::PhantomData;

use vstd::prelude::*;
use vstd::string::StringExecFns;

use crate::bytes::{concat, to_vec};
use crate::engine::storage::{scan_suffix_kv, MemBatch, VirtualStorage};
use crate::index::{
    entry_key, scan_covering, table_header, Document, KvIndex, DICT_ID_SLOT, DICT_NAME_SLOT,
    DYNAMIC_SLOT, PRIMARY_SLOT,
};
use crate::key::{KeyEncode, PrefixKey};
use crate::model::document::{has_name, overlay_fields};
use crate::model::obj_dict::{store_entry, DictStore, PendingNames, StoreNames};
use crate::model::obj_dynamic::{FieldMap, NameLookup, NameResolver};
use crate::obj_dynamic::{
    copy_plain, decode_variants, lift_value, put_frame, DynamicField, VariantMap,
};
use crate::rows::{
    delete_row, get_row, prune_slots, put_row, save_row, scan_row_keys, scan_rows,
};
use crate::subscribe::Op;

verus! {

/// A one-byte slot of the table with a header.
pub open spec fn narrow_front(header: Seq<u8>, slot: u8) -> Seq<u8> {
    header + seq![slot]
}

/// In front of the payloads of a table.
pub open spec fn primary_front<R: Document>() -> Seq<u8> {
    narrow_front(crate::index::header_bytes::<R>(), PRIMARY_SLOT)
}

/// In front of the dynamic fields of a table.
pub open spec fn variants_front<R: Document>() -> Seq<u8> {
    narrow_front(crate::index::header_bytes::<R>(), DYNAMIC_SLOT)
}

/// Where the dictionary of the table with a header is stored.
pub open spec fn narrow_home(header: Seq<u8>) -> crate::model::obj_dict::DictHome {
    crate::model::obj_dict::DictHome {
        ids: narrow_front(header, DICT_ID_SLOT),
        names: narrow_front(header, DICT_NAME_SLOT),
    }
}

/// The two directions of the dictionary are apart.
pub proof fn lemma_narrow_apart(header: Seq<u8>)
    ensures
        crate::model::obj_dict::apart(narrow_home(header)),
{
    let h = narrow_home(header);
    assert(h.ids[header.len() as int] == DICT_ID_SLOT);
    assert(h.names[header.len() as int] == DICT_NAME_SLOT);
    if crate::bytes::starts_with(h.ids, h.names) {
        assert(h.ids.subrange(0, h.names.len() as int)[header.len() as int] == DICT_ID_SLOT);
    }
    if crate::bytes::starts_with(h.names, h.ids) {
        assert(h.names.subrange(0, h.ids.len() as int)[header.len() as int] == DICT_NAME_SLOT);
    }
}

/// A one-byte slot of the table with a header.
fn narrow_key(header: &[u8], slot: u8) -> (r: Vec<u8>)
    ensures
        r@ == narrow_front(header@, slot),
{
    let mut r = to_vec(header);
    r.push(slot);
    assert(r@ =~= narrow_front(header@, slot));
    r
}

/// A fresh dictionary cache of the table, once it has read what the engine
/// holds.
pub open spec fn names_on<R: Document>(
    m: crate::engine::storage::Contents,
) -> crate::model::obj_dict::DictState {
    let h = narrow_home(crate::index::header_bytes::<R>());
    crate::model::obj_dict::DictState {
        dict: crate::model::obj_dict::load_dict(crate::model::obj_dict::fresh_dict(), m, h),
        home: h,
    }
}

/// The names of dynamic fields.
pub open spec fn variant_names(
    fields: Seq<(Seq<char>, crate::model::obj_dynamic::DynView)>,
) -> Seq<Seq<char>> {
    fields.map_values(|f: (Seq<char>, crate::model::obj_dynamic::DynView)| f.0)
}

/// The frames of dynamic fields.
pub open spec fn variants_bytes(
    fields: Seq<(Seq<char>, crate::model::obj_dynamic::DynView)>,
    names: crate::model::obj_dynamic::NameTable,
) -> Seq<u8>
    decreases fields.len(),
{
    if fields.len() == 0 {
        Seq::empty()
    } else {
        crate::obj_dynamic::frame_bytes(names[fields[0].0], fields[0].1) + variants_bytes(
            fields.drop_first(),
            names,
        )
    }
}

/// Every body fits its length field.
pub open spec fn variants_fit(
    fields: Seq<(Seq<char>, crate::model::obj_dynamic::DynView)>,
) -> bool {
    forall|i: int|
        0 <= i < fields.len() ==> crate::obj_dynamic::value_body((#[trigger] fields[i]).1).len()
            <= u32::MAX
}

/// The engine may hold `after` once the dynamic fields of a row have been
/// replaced: names seen for the first time and the entry are stored in one
/// batch. There is no entry without fields.
pub open spec fn variants_written<S: VirtualStorage, R: Document>(
    m: crate::engine::storage::Contents,
    key: Seq<u8>,
    fields: Seq<(Seq<char>, crate::model::obj_dynamic::DynView)>,
    after: crate::engine::storage::Contents,
) -> bool {
    let s = names_on::<R>(m);
    let order = variant_names(fields);
    crate::model::obj_dict::entry_stored::<S>(
        m,
        s,
        order,
        variants_front::<R>() + key,
        variants_bytes(
            fields,
            crate::model::obj_dynamic::steps::<PendingNames>(s, order).dict.names,
        ),
        after,
    )
}

/// Every name of dynamic fields has a number or can get one, and every body
/// fits its length field.
pub open spec fn can_set_variants<R: Document>(
    m: crate::engine::storage::Contents,
    fields: Seq<(Seq<char>, crate::model::obj_dynamic::DynView)>,
) -> bool {
    &&& variants_fit(fields)
    &&& crate::model::obj_dynamic::ready_all::<PendingNames>(
        names_on::<R>(m),
        variant_names(fields),
    )
}

/// The dynamic fields of a row, if it has any.
pub open spec fn variants_at<R: Document>(
    m: crate::engine::storage::Contents,
    key: Seq<u8>,
) -> Option<Seq<(Seq<char>, crate::model::obj_dynamic::DynView)>> {
    let k = variants_front::<R>() + key;
    let ids = crate::model::obj_dict::lookup_table(
        crate::model::obj_dict::fresh_dict(),
        m,
        narrow_home(crate::index::header_bytes::<R>()),
    );
    if m.dom().contains(k) && crate::obj_dynamic::read_frames(m[k]).len() > 0 {
        Some(
            crate::model::dynamic_collection::named_fields(
                crate::obj_dynamic::read_frames(m[k]),
                ids,
            ),
        )
    } else {
        None
    }
}

/// The whole row by name, if there is a row or a dynamic field: the dynamic
/// fields with the declared ones put over them.
pub open spec fn object_at<R: Document>(
    m: crate::engine::storage::Contents,
    key: Seq<u8>,
) -> Option<Seq<(Seq<char>, crate::model::obj_dynamic::DynView)>> {
    let variants = variants_at::<R>(m, key);
    match crate::rows::found::<R>(m, primary_front::<R>() + key, false) {
        Some(d) => Some(
            crate::model::document::overlay(
                match variants {
                    Some(v) => v,
                    None => Seq::empty(),
                },
                R::mapped(d),
            ),
        ),
        None => variants,
    }
}

/// The engine once the declared part of fields by name has been written.
pub open spec fn typed_set<R: Document>(
    m: crate::engine::storage::Contents,
    key: Seq<u8>,
    fields: Seq<(Seq<char>, crate::model::obj_dynamic::DynView)>,
) -> crate::engine::storage::Contents {
    let typed = crate::model::document::part_of::<R>(fields, true);
    if typed.len() == 0 {
        m
    } else {
        crate::rows::put_result::<R>(
            m,
            crate::index::header_bytes::<R>(),
            primary_front::<R>(),
            key,
            crate::model::document::patched::<R>(
                crate::rows::found::<R>(m, primary_front::<R>() + key, false),
                typed,
            ),
            false,
        )
    }
}

/// Rows of one type on one engine.
#[verifier::reject_recursive_types(K)]
#[verifier::reject_recursive_types(R)]
pub struct Table<S: VirtualStorage, K: KeyEncode, R: Document<Key = K>> {
    inner: DictStore<S>,
    epoch: u64,
    _marker: PhantomData<(K, R)>,
}

impl<S: VirtualStorage, K: KeyEncode, R: Document<Key = K>> Table<S, K, R> {
    /// What the engine holds.
    pub closed spec fn contents(&self) -> crate::engine::storage::Contents {
        self.inner.store.contents()
    }

    /// How many writes this table has made.
    pub closed spec fn epoch(&self) -> u64 {
        self.epoch
    }

    /// The dictionary stands in the table.
    pub closed spec fn wf(&self) -> bool {
        self.inner.home() == narrow_home(crate::index::header_bytes::<R>())
    }

    /// The rows on an engine.
    pub fn new(store: S) -> (r: Self)
        ensures
            r.wf(),
            r.contents() == store.contents(),
            r.epoch() == 0,
    {
        let header = table_header::<R>();
        let ids = narrow_key(header.as_slice(), DICT_ID_SLOT);
        let names = narrow_key(header.as_slice(), DICT_NAME_SLOT);
        Table { inner: DictStore::new(store, ids, names), epoch: 0, _marker: PhantomData }
    }

    /// The engine.
    pub fn store(&self) -> (r: &S)
        ensures
            r.contents() == self.contents(),
    {
        &self.inner.store
    }

    /// In front of the payloads.
    fn primary(&self) -> (r: Vec<u8>)
        ensures
            r@ == primary_front::<R>(),
    {
        let header = table_header::<R>();
        narrow_key(header.as_slice(), PRIMARY_SLOT)
    }

    /// The key of a payload.
    pub fn primary_key(&self, key: &K) -> (r: Vec<u8>)
        ensures
            r@ == primary_front::<R>() + key.bytes(),
    {
        let front = self.primary();
        let enc = key.encode();
        concat(front.as_slice(), enc.as_slice())
    }

    /// Writes a row: its payload and the entries of all access methods. A
    /// row stored before is folded out of its groups first, so that groups
    /// count each row once; entries of access methods that it leaves behind
    /// stay until they are deleted.
    pub fn put(&mut self, key: &K, row: &R)
        requires
            old(self).wf(),
            crate::rows::readable_at::<R>(
                old(self).contents(),
                primary_front::<R>() + key.bytes(),
            ),
            R::storable(row.model()),
            old(self).epoch() < u64::MAX,
        ensures
            final(self).wf(),
            final(self).contents() == crate::rows::put_result::<R>(
                old(self).contents(),
                crate::index::header_bytes::<R>(),
                primary_front::<R>(),
                key.bytes(),
                row.model(),
                false,
            ),
            final(self).epoch() == old(self).epoch() + 1,
            R::announced(Op::Put, final(self).epoch(), key.bytes(), row.model()),
    {
        let header = table_header::<R>();
        let front = self.primary();
        put_row::<S, R>(
            &mut self.inner.store,
            header.as_slice(),
            front.as_slice(),
            key,
            row,
            false,
        );
        self.epoch = self.epoch + 1;
        R::emit_event(Op::Put, self.epoch, key, row);
    }

    /// Writes what `f` makes of the row under a key, or of none, and
    /// returns it.
    pub fn upsert_with<F: FnOnce(Option<R>) -> R>(&mut self, key: &K, f: F) -> (r: R)
        requires
            old(self).wf(),
            crate::rows::readable_at::<R>(
                old(self).contents(),
                primary_front::<R>() + key.bytes(),
            ),
            old(self).epoch() < u64::MAX,
            forall|o: Option<R>|
                crate::rows::opt_model(o) == crate::rows::found::<R>(
                    old(self).contents(),
                    primary_front::<R>() + key.bytes(),
                    false,
                ) ==> #[trigger] f.requires((o,)),
            forall|o: Option<R>, n: R| #[trigger]
                f.ensures((o,), n) ==> R::storable(n.model()),
        ensures
            final(self).wf(),
            exists|o: Option<R>|
                crate::rows::opt_model(o) == crate::rows::found::<R>(
                    old(self).contents(),
                    primary_front::<R>() + key.bytes(),
                    false,
                ) && #[trigger] f.ensures((o,), r),
            final(self).contents() == crate::rows::put_result::<R>(
                old(self).contents(),
                crate::index::header_bytes::<R>(),
                primary_front::<R>(),
                key.bytes(),
                r.model(),
                false,
            ),
            final(self).epoch() == old(self).epoch() + 1,
            R::announced(Op::Put, final(self).epoch(), key.bytes(), r.model()),
    {
        let before = self.get(key);
        let new = f(before);
        self.put(key, &new);
        new
    }

    /// Adds the writes of a row to a batch; nothing is written before
    /// the batch is. Groups and events are left to the caller.
    pub fn save_into(&self, batch: &mut MemBatch, key: &K, row: &R)
        requires
            R::storable(row.model()),
        ensures
            final(batch)@ == old(batch)@ + crate::rows::row_writes::<R>(
                crate::index::header_bytes::<R>(),
                primary_front::<R>(),
                key.bytes(),
                row.model(),
            ),
    {
        let header = table_header::<R>();
        let front = self.primary();
        save_row::<R>(batch, header.as_slice(), front.as_slice(), key, row);
    }

    /// The key of the entry of a row in an access method.
    pub fn index_key<I: KvIndex<Document = R>>(&self, key: &K, row: &R) -> (r: Vec<u8>)
        ensures
            r@ == crate::index::entry_at::<I>(
                crate::index::header_bytes::<R>(),
                I::named(key.bytes(), row.model(), I::sorted_by()),
                key.bytes(),
            ),
    {
        let header = table_header::<R>();
        entry_key::<I>(header.as_slice(), key, row)
    }

    /// Removes a row: its payload and the entries of all access
    /// methods. The row must be the one stored under the key, since the
    /// entries are derived from it.
    pub fn delete(&mut self, key: &K, row: &R)
        requires
            old(self).wf(),
            old(self).epoch() < u64::MAX,
        ensures
            final(self).wf(),
            final(self).contents() == crate::rows::delete_result::<R>(
                old(self).contents(),
                crate::index::header_bytes::<R>(),
                primary_front::<R>(),
                key.bytes(),
                row.model(),
            ),
            final(self).epoch() == old(self).epoch() + 1,
            R::announced(Op::Delete, final(self).epoch(), key.bytes(), row.model()),
    {
        let header = table_header::<R>();
        let front = self.primary();
        delete_row::<S, R>(
            &mut self.inner.store,
            header.as_slice(),
            front.as_slice(),
            key,
            row,
        );
        self.epoch = self.epoch + 1;
        R::emit_event(Op::Delete, self.epoch, key, row);
    }

    /// Removes the row under a key, as it is stored; tells whether
    /// there was one.
    pub fn delete_by_pkey(&mut self, key: &K) -> (r: bool)
        requires
            old(self).wf(),
            crate::rows::readable_at::<R>(
                old(self).contents(),
                primary_front::<R>() + key.bytes(),
            ),
            old(self).epoch() < u64::MAX,
        ensures
            final(self).wf(),
            match crate::rows::found::<R>(
                old(self).contents(),
                primary_front::<R>() + key.bytes(),
                false,
            ) {
                Some(d) => r && final(self).epoch() == old(self).epoch() + 1
                    && R::announced(Op::Delete, final(self).epoch(), key.bytes(), d)
                    && final(self).contents() == crate::rows::delete_result::<R>(
                    old(self).contents(),
                    crate::index::header_bytes::<R>(),
                    primary_front::<R>(),
                    key.bytes(),
                    d,
                ),
                None => !r && *final(self) == *old(self),
            },
    {
        match self.get(key) {
            Some(row) => {
                self.delete(key, &row);
                true
            },
            None => false,
        }
    }

    /// The row under a key.
    pub fn get(&self, key: &K) -> (r: Option<R>)
        requires
            crate::rows::readable_at::<R>(self.contents(), primary_front::<R>() + key.bytes()),
        ensures
            crate::rows::opt_model(r) == crate::rows::found::<R>(
                self.contents(),
                primary_front::<R>() + key.bytes(),
                false,
            ),
    {
        let front = self.primary();
        get_row::<S, R>(&self.inner.store, front.as_slice(), key, false)
    }

    /// The rows of all entries whose sorted fields begin with `encoded`, in
    /// entry order. Where entries hold only part of a key there is no
    /// row.
    pub fn scan<I: KvIndex<Document = R>>(&self, encoded: &[u8]) -> (r: Vec<
        (PrefixKey<K>, Option<R>),
    >)
        requires
            crate::rows::all_readable::<R>(self.contents(), primary_front::<R>()),
            forall|i: int|
                0 <= i < crate::engine::storage::prefix_suffixes(
                    self.contents(),
                    crate::index::header_bytes::<R>() + I::slot() + encoded@,
                ).len() ==> crate::index::tail_width::<I>() <= (
                #[trigger] crate::engine::storage::prefix_suffixes(
                    self.contents(),
                    crate::index::header_bytes::<R>() + I::slot() + encoded@,
                )[i]).len(),
        ensures
            crate::rows::row_views::<R>(r@) == crate::engine::storage::prefix_suffixes(
                self.contents(),
                crate::index::header_bytes::<R>() + I::slot() + encoded@,
            ).map_values(
                |s: Seq<u8>|
                    crate::rows::row_at::<R>(
                        self.contents(),
                        primary_front::<R>(),
                        s,
                        crate::index::tail_width::<I>(),
                        false,
                    ),
            ),
    {
        let header = table_header::<R>();
        let front = self.primary();
        scan_rows::<S, R, I>(
            &self.inner.store,
            header.as_slice(),
            front.as_slice(),
            encoded,
            false,
        )
    }

    /// The keys of all entries whose sorted fields begin with `encoded`,
    /// with the covered fields, in entry order.
    pub fn scan_covered<I: KvIndex<Document = R>>(&self, encoded: &[u8]) -> (r: Vec<
        (PrefixKey<K>, Vec<u8>),
    >)
        requires
            forall|i: int|
                0 <= i < crate::engine::storage::prefix_suffix_pairs(
                    self.contents(),
                    crate::index::header_bytes::<R>() + I::slot() + encoded@,
                ).len() ==> crate::index::tail_width::<I>() <= (
                #[trigger] crate::engine::storage::prefix_suffix_pairs(
                    self.contents(),
                    crate::index::header_bytes::<R>() + I::slot() + encoded@,
                )[i]).0.len(),
        ensures
            r@.map_values(
                |p: (PrefixKey<K>, Vec<u8>)| (p.0.decoded.bytes(), p.0.taken as nat, p.1@),
            ) == crate::engine::storage::prefix_suffix_pairs(
                self.contents(),
                crate::index::header_bytes::<R>() + I::slot() + encoded@,
            ).map_values(
                |s: (Seq<u8>, Seq<u8>)|
                    (
                        crate::index::tail_key::<K>(s.0, crate::index::tail_width::<I>()),
                        crate::index::tail_width::<I>(),
                        s.1,
                    ),
            ),
    {
        let header = table_header::<R>();
        let ghost all = crate::engine::storage::prefix_suffix_pairs(
            self.contents(),
            crate::index::header_bytes::<R>() + I::slot() + encoded@,
        );
        assert forall|i: int| 0 <= i < all.len() implies crate::index::tail_width::<I>() <= (
        #[trigger] all[i]).0.len() by {
            assert(crate::index::tail_width::<I>()
                <= crate::engine::storage::prefix_suffix_pairs(
                self.contents(),
                crate::index::header_bytes::<R>() + I::slot() + encoded@,
            )[i].0.len());
        }
        scan_covering::<S, I>(&self.inner.store, header.as_slice(), encoded)
    }

    /// The stored form of all keys with their payloads, in key order.
    pub fn scan_rows_raw(&self) -> (r: Vec<(Vec<u8>, Vec<u8>)>)
        ensures
            crate::engine::storage::pair_views(r@) == crate::engine::storage::prefix_suffix_pairs(
                self.contents(),
                primary_front::<R>(),
            ),
    {
        let front = self.primary();
        scan_suffix_kv(&self.inner.store, front.as_slice())
    }

    /// Removes the entries that access methods no longer in use have left
    /// behind; tells how many there were.
    pub fn prune_deprecated_slots(&mut self) -> (r: usize)
        requires
            old(self).wf(),
            crate::rows::retired_keys(
                old(self).contents(),
                crate::index::header_bytes::<R>(),
                R::retired(),
            ).len() <= usize::MAX,
        ensures
            final(self).wf(),
            final(self).epoch() == old(self).epoch(),
            final(self).contents() == crate::index::del_keys(
                old(self).contents(),
                crate::rows::retired_keys(
                    old(self).contents(),
                    crate::index::header_bytes::<R>(),
                    R::retired(),
                ),
            ),
            r == crate::rows::retired_keys(
                old(self).contents(),
                crate::index::header_bytes::<R>(),
                R::retired(),
            ).len(),
    {
        let header = table_header::<R>();
        let slots = R::retired_slots();
        prune_slots(&mut self.inner.store, header.as_slice(), &slots)
    }

    /// The keys of all rows, in key order.
    pub fn scan_keys(&self) -> (r: Vec<K>)
        requires
            forall|i: int|
                0 <= i < crate::engine::storage::prefix_suffixes(
                    self.contents(),
                    primary_front::<R>(),
                ).len() ==> K::KEY_LEN <= (#[trigger] crate::engine::storage::prefix_suffixes(
                    self.contents(),
                    primary_front::<R>(),
                )[i]).len(),
        ensures
            r@.map_values(|k: K| k.bytes()) == crate::engine::storage::prefix_suffixes(
                self.contents(),
                primary_front::<R>(),
            ).map_values(|s: Seq<u8>| K::canon(s.skip(s.len() - K::KEY_LEN))),
    {
        let front = self.primary();
        let ghost all = crate::engine::storage::prefix_suffixes(
            self.contents(),
            primary_front::<R>(),
        );
        assert forall|i: int| 0 <= i < all.len() implies K::KEY_LEN <= (#[trigger] all[i]).len() by {
            assert(K::KEY_LEN <= crate::engine::storage::prefix_suffixes(
                self.contents(),
                primary_front::<R>(),
            )[i].len());
        }
        scan_row_keys::<S, K>(&self.inner.store, front.as_slice())
    }
}

/// Names given later do not change stored frames.
proof fn lemma_variants_stable(
    fields: Seq<(Seq<char>, crate::model::obj_dynamic::DynView)>,
    a: crate::model::obj_dynamic::NameTable,
    b: crate::model::obj_dynamic::NameTable,
)
    requires
        a.submap_of(b),
        forall|i: int| 0 <= i < fields.len() ==> a.dom().contains((#[trigger] fields[i]).0),
    ensures
        variants_bytes(fields, a) == variants_bytes(fields, b),
    decreases fields.len(),
{
    if fields.len() > 0 {
        let t = fields.drop_first();
        assert forall|i: int| 0 <= i < t.len() implies a.dom().contains((#[trigger] t[i]).0) by {
            assert(t[i] == fields[i + 1]);
        }
        lemma_variants_stable(t, a, b);
        assert(a.dom().contains(fields[0].0));
        assert(b.dom().contains(fields[0].0));
    }
}

/// One more frame behind others.
proof fn lemma_variants_push(
    fields: Seq<(Seq<char>, crate::model::obj_dynamic::DynView)>,
    f: (Seq<char>, crate::model::obj_dynamic::DynView),
    names: crate::model::obj_dynamic::NameTable,
)
    ensures
        variants_bytes(fields.push(f), names) == variants_bytes(fields, names)
            + crate::obj_dynamic::frame_bytes(names[f.0], f.1),
    decreases fields.len(),
{
    let all = fields.push(f);
    let frame = crate::obj_dynamic::frame_bytes(names[f.0], f.1);
    if fields.len() == 0 {
        assert(all.drop_first() =~= Seq::empty());
        assert(variants_bytes(all.drop_first(), names) =~= Seq::empty());
    } else {
        assert(all.drop_first() =~= fields.drop_first().push(f));
        lemma_variants_push(fields.drop_first(), f, names);
    }
    assert(variants_bytes(all, names) =~= variants_bytes(fields, names) + frame);
}

/// The frames of dynamic fields.
#[verifier::spinoff_prover]
#[verifier::rlimit(60)]
fn encode_variants<R: NameResolver>(fields: &VariantMap, dict: &mut R) -> (r: Vec<u8>)
    requires
        variants_fit(fields@),
        crate::model::obj_dynamic::ready_all::<R>(old(dict).state(), variant_names(fields@)),
    ensures
        r@ == variants_bytes(fields@, R::table(final(dict).state())),
        final(dict).state() == crate::model::obj_dynamic::steps::<R>(
            old(dict).state(),
            variant_names(fields@),
        ),
        crate::model::obj_dynamic::moved_all::<R>(
            old(dict).state(),
            variant_names(fields@),
            old(dict).world(),
            final(dict).world(),
        ),
{
    let ghost all = fields@;
    let ghost order = variant_names(all);
    let ghost s0 = dict.state();
    let ghost w0 = dict.world();
    let mut body: Vec<u8> = Vec::new();
    let mut i: usize = 0;
    proof {
        crate::model::obj_dynamic::lemma_moved_none::<R>(s0, w0);
        assert(order.take(0) =~= Seq::empty());
        assert(all.take(0) =~= Seq::empty());
        assert(body@ =~= variants_bytes(all.take(0), R::table(s0)));
    }
    while i < fields.len()
        invariant
            i <= fields@.len(),
            all == fields@,
            order == variant_names(all),
            variants_fit(all),
            crate::model::obj_dynamic::ready_all::<R>(s0, order),
            dict.state() == crate::model::obj_dynamic::steps::<R>(s0, order.take(i as int)),
            crate::model::obj_dynamic::moved_all::<R>(s0, order.take(i as int), w0, dict.world()),
            body@ == variants_bytes(all.take(i as int), R::table(dict.state())),
            s0 == old(dict).state(),
            w0 == old(dict).world(),
        decreases fields@.len() - i,
    {
        let ghost done = order.take(i as int);
        let ghost name = all[i as int].0;
        let ghost s1 = dict.state();
        let ghost w1 = dict.world();
        proof {
            assert(order.take(i + 1) =~= done + seq![name]);
            assert(order =~= order.take(i + 1) + order.skip(i + 1));
            crate::model::obj_dynamic::lemma_steps_concat::<R>(
                s0,
                order.take(i + 1),
                order.skip(i + 1),
            );
            crate::model::obj_dynamic::lemma_steps_concat::<R>(s0, done, seq![name]);
            crate::model::obj_dynamic::lemma_steps_one::<R>(s1, name);
        }
        let (n, value) = fields.entry(i);
        let id: u16 = dict.resolve(n);
        proof {
            crate::model::obj_dynamic::lemma_moved_concat::<R>(
                s0,
                done,
                seq![name],
                w0,
                w1,
                dict.world(),
            );
            crate::model::obj_dynamic::law_steps_append::<R>(s0, done);
            R::step_appends(s1, name);
            let front = all.take(i as int);
            assert forall|j: int| 0 <= j < front.len() implies R::table(s1).dom().contains(
                (#[trigger] front[j]).0,
            ) by {
                assert(done[j] == all[j].0);
            }
            lemma_variants_stable(front, R::table(s1), R::table(dict.state()));
            lemma_variants_push(front, all[i as int], R::table(dict.state()));
            assert(all.take(i + 1) =~= front.push(all[i as int]));
        }
        put_frame(&mut body, id, value);
        i = i + 1;
    }
    proof {
        assert(order.take(i as int) =~= order);
        assert(all.take(i as int) =~= all);
    }
    body
}

/// The fields of frames by name; a frame whose id has no name is dropped.
fn name_variants<L: NameLookup>(frames: Vec<DynamicField>, names: &mut L) -> (r: VariantMap)
    ensures
        final(names).ids() == old(names).ids(),
        r@ == crate::model::dynamic_collection::named_fields(
            crate::obj_dynamic::field_views(frames@),
            old(names).ids(),
        ),
{
    let ghost ids = names.ids();
    let ghost all = crate::obj_dynamic::field_views(frames@);
    let mut left = frames;
    let mut rest: Vec<DynamicField> = Vec::new();
    // Fields move out of the list from its end; turn it round first.
    while left.len() > 0
        invariant
            ids == names.ids(),
            crate::obj_dynamic::field_views(left@) + crate::obj_dynamic::field_views(
                rest@,
            ).reverse() == all,
        decreases left@.len(),
    {
        let ghost f0 = crate::obj_dynamic::field_views(left@);
        let ghost r0 = crate::obj_dynamic::field_views(rest@);
        if let Some(f) = left.pop() {
            let ghost fv = f.view();
            rest.push(f);
            proof {
                assert(f0 =~= crate::obj_dynamic::field_views(left@).push(fv));
                assert(crate::obj_dynamic::field_views(rest@) =~= r0.push(fv));
                assert(r0.push(fv).reverse() =~= seq![fv] + r0.reverse());
                assert(crate::obj_dynamic::field_views(left@) + crate::obj_dynamic::field_views(
                    rest@,
                ).reverse() =~= f0 + r0.reverse());
            }
        }
    }
    let mut out = VariantMap::new();
    let ghost mut done: Seq<(u16, crate::model::obj_dynamic::DynView)> = Seq::empty();
    proof {
        assert(crate::obj_dynamic::field_views(left@) =~= Seq::empty());
        assert(done + crate::obj_dynamic::field_views(rest@).reverse() =~= all);
    }
    while rest.len() > 0
        invariant
            ids == names.ids(),
            done + crate::obj_dynamic::field_views(rest@).reverse() == all,
            out@ == crate::model::dynamic_collection::named_fields(done, ids),
        decreases rest@.len(),
    {
        let ghost r0 = crate::obj_dynamic::field_views(rest@);
        let ghost before = done;
        if let Some(f) = rest.pop() {
            let ghost fv = f.view();
            proof {
                assert(r0 =~= crate::obj_dynamic::field_views(rest@).push(fv));
                assert(r0.reverse() =~= seq![fv] + crate::obj_dynamic::field_views(
                    rest@,
                ).reverse());
                done = before.push(fv);
                assert(done.drop_last() =~= before);
                assert(done + crate::obj_dynamic::field_views(rest@).reverse() =~= before
                    + r0.reverse());
            }
            if let Some(name) = names.name_of(f.id) {
                out.insert(name, f.value);
            }
        }
    }
    proof {
        assert(crate::obj_dynamic::field_views(rest@).reverse() =~= Seq::empty());
        assert(done =~= all);
    }
    out
}

/// Named fields are in order.
proof fn lemma_named_sorted(
    pairs: Seq<(u16, crate::model::obj_dynamic::DynView)>,
    ids: crate::model::obj_dynamic::IdTable,
)
    ensures
        crate::model::obj_dynamic::names_sorted(
            crate::model::dynamic_collection::named_fields(pairs, ids),
        ),
    decreases pairs.len(),
{
    if pairs.len() > 0 {
        let before = crate::model::dynamic_collection::named_fields(pairs.drop_last(), ids);
        let (id, value) = pairs.last();
        lemma_named_sorted(pairs.drop_last(), ids);
        crate::model::obj_dynamic::law_insert_field(before, ids[id], value, ids[id]);
    }
}

/// Dynamic fields as those of a document.
fn lift_fields(fields: &VariantMap) -> (r: FieldMap)
    requires
        crate::model::obj_dynamic::names_sorted(fields@),
    ensures
        r@ == fields@,
{
    let ghost all = fields@;
    let mut out = FieldMap::new();
    let mut i: usize = 0;
    assert(all.take(0) =~= Seq::empty());
    while i < fields.len()
        invariant
            i <= fields@.len(),
            all == fields@,
            crate::model::obj_dynamic::names_sorted(all),
            out@ == all.take(i as int),
        decreases fields@.len() - i,
    {
        let (name, value) = fields.entry(i);
        proof {
            let done = all.take(i as int);
            assert forall|j: int| 0 <= j < done.len() implies crate::text::name_lt(
                (#[trigger] done[j]).0,
                name@,
            ) by {
                assert(done[j] == all[j]);
            }
            crate::model::obj_dynamic::lemma_insert_at(done, name@, value.view(), i as int);
            assert(all.take(i + 1) =~= done.insert(i as int, all[i as int]));
        }
        out.insert(String::from_str(name), lift_value(value));
        i = i + 1;
    }
    assert(all.take(i as int) =~= all);
    out
}

/// The declared fields among others.
fn take_declared<R: Document>(fields: &VariantMap) -> (r: FieldMap)
    ensures
        r@ == crate::model::document::part_of::<R>(fields@, true),
{
    let names = R::fields();
    let ghost all = fields@;
    let mut out = FieldMap::new();
    let mut i: usize = 0;
    assert(all.take(0) =~= Seq::empty());
    while i < fields.len()
        invariant
            i <= fields@.len(),
            all == fields@,
            crate::field::field_list(names@) == R::declared(),
            out@ == crate::model::document::part_of::<R>(all.take(i as int), true),
        decreases fields@.len() - i,
    {
        proof {
            assert(all.take(i + 1).drop_last() =~= all.take(i as int));
            assert(all.take(i + 1).last() == all[i as int]);
        }
        let (name, value) = fields.entry(i);
        if has_name(&names, name) {
            out.insert(String::from_str(name), lift_value(value));
        }
        i = i + 1;
    }
    assert(all.take(i as int) =~= all);
    out
}

/// The fields among others that are not declared.
fn take_rest<R: Document>(fields: &VariantMap) -> (r: VariantMap)
    ensures
        r@ == crate::model::document::part_of::<R>(fields@, false),
{
    let names = R::fields();
    let ghost all = fields@;
    let mut out = VariantMap::new();
    let mut i: usize = 0;
    assert(all.take(0) =~= Seq::empty());
    while i < fields.len()
        invariant
            i <= fields@.len(),
            all == fields@,
            crate::field::field_list(names@) == R::declared(),
            out@ == crate::model::document::part_of::<R>(all.take(i as int), false),
        decreases fields@.len() - i,
    {
        proof {
            assert(all.take(i + 1).drop_last() =~= all.take(i as int));
            assert(all.take(i + 1).last() == all[i as int]);
        }
        let (name, value) = fields.entry(i);
        if !has_name(&names, name) {
            out.insert(String::from_str(name), copy_plain(value));
        }
        i = i + 1;
    }
    assert(all.take(i as int) =~= all);
    out
}

impl<S: VirtualStorage, K: KeyEncode, R: Document<Key = K>> Table<S, K, R> {
    /// The key of the dynamic fields of a row.
    fn variants_key(&self, key: &K) -> (r: Vec<u8>)
        ensures
            r@ == variants_front::<R>() + key.bytes(),
    {
        let header = table_header::<R>();
        let front = narrow_key(header.as_slice(), DYNAMIC_SLOT);
        let enc = key.encode();
        concat(front.as_slice(), enc.as_slice())
    }

    /// The dynamic fields of a row by name. `None` if it has none. A field
    /// whose name the dictionary does not know is dropped.
    pub fn get_variants(&self, key: &K) -> (r: Option<VariantMap>)
        requires
            self.wf(),
        ensures
            match r {
                Some(fields) => variants_at::<R>(self.contents(), key.bytes()) == Some(fields@),
                None => variants_at::<R>(self.contents(), key.bytes()) is None,
            },
    {
        let k = self.variants_key(key);
        match self.inner.store.get(k.as_slice()) {
            None => None,
            Some(raw) => {
                let frames = decode_variants(raw.as_slice());
                if frames.len() == 0 {
                    return None;
                }
                let mut names = StoreNames::new(
                    &self.inner.store,
                    self.inner.ids.as_slice(),
                    self.inner.names.as_slice(),
                );
                Some(name_variants(frames, &mut names))
            },
        }
    }

    /// Replaces the dynamic fields of a row.
    fn write_variants(&mut self, key: &K, variants: &VariantMap)
        requires
            old(self).wf(),
            can_set_variants::<R>(old(self).contents(), variants@),
        ensures
            final(self).wf(),
            final(self).epoch() == old(self).epoch(),
            variants_written::<S, R>(
                old(self).contents(),
                key.bytes(),
                variants@,
                final(self).contents(),
            ),
    {
        let k = self.variants_key(key);
        let ghost m = self.contents();
        let ghost s = names_on::<R>(m);
        let ghost order = variant_names(variants@);
        let mut names = PendingNames::new(
            &self.inner.store,
            self.inner.ids.as_slice(),
            self.inner.names.as_slice(),
        );
        assert(names.state() =~= s);
        let ghost none = names.world();
        let body = encode_variants(variants, &mut names);
        proof {
            crate::model::obj_dict::lemma_pending_growth(s, order, none, names.world());
            assert(names.world() =~= crate::model::obj_dict::growth(s, order));
        }
        store_entry(&mut self.inner.store, names, k, body);
    }

    /// Replaces the dynamic fields of a row: fields that are not given are
    /// gone. Names seen for the first time get a number, which is stored in
    /// one batch with the fields.
    pub fn set_variants(&mut self, key: &K, variants: &VariantMap)
        requires
            old(self).wf(),
            old(self).epoch() < u64::MAX,
            can_set_variants::<R>(old(self).contents(), variants@),
        ensures
            final(self).wf(),
            final(self).epoch() == old(self).epoch() + 1,
            variants_written::<S, R>(
                old(self).contents(),
                key.bytes(),
                variants@,
                final(self).contents(),
            ),
    {
        self.write_variants(key, variants);
        self.epoch = self.epoch + 1;
    }

    /// The whole row by name: the dynamic fields with the declared ones put
    /// over them. `None` where there is neither a row nor a dynamic field.
    /// Declared fields may be signed, which dynamic fields of tables are
    /// not.
    pub fn get_object(&self, key: &K) -> (r: Option<FieldMap>)
        requires
            self.wf(),
            crate::rows::readable_at::<R>(self.contents(), primary_front::<R>() + key.bytes()),
        ensures
            match r {
                Some(fields) => object_at::<R>(self.contents(), key.bytes()) == Some(fields@),
                None => object_at::<R>(self.contents(), key.bytes()) is None,
            },
    {
        let variants = self.get_variants(key);
        proof {
            let m = self.contents();
            lemma_named_sorted(
                crate::obj_dynamic::read_frames(m[variants_front::<R>() + key.bytes()]),
                crate::model::obj_dict::lookup_table(
                    crate::model::obj_dict::fresh_dict(),
                    m,
                    narrow_home(crate::index::header_bytes::<R>()),
                ),
            );
        }
        match self.get(key) {
            None => match variants {
                Some(v) => Some(lift_fields(&v)),
                None => None,
            },
            Some(row) => {
                let mut out = match variants {
                    Some(v) => lift_fields(&v),
                    None => FieldMap::new(),
                };
                let typed = row.to_map();
                overlay_fields(&mut out, &typed);
                Some(out)
            },
        }
    }

    /// Writes a whole row by name. Fields that rows declare are put over
    /// those of the stored row, or over the defaults, and the result is
    /// written like any row; the others become its dynamic fields. One call
    /// is one write.
    pub fn set_object(&mut self, key: &K, object: &VariantMap)
        requires
            old(self).wf(),
            old(self).epoch() < u64::MAX,
            crate::rows::readable_at::<R>(
                old(self).contents(),
                primary_front::<R>() + key.bytes(),
            ),
            crate::model::document::part_of::<R>(object@, true).len() > 0 ==> R::storable(
                crate::model::document::patched::<R>(
                    crate::rows::found::<R>(
                        old(self).contents(),
                        primary_front::<R>() + key.bytes(),
                        false,
                    ),
                    crate::model::document::part_of::<R>(object@, true),
                ),
            ),
            can_set_variants::<R>(
                typed_set::<R>(old(self).contents(), key.bytes(), object@),
                crate::model::document::part_of::<R>(object@, false),
            ),
        ensures
            final(self).wf(),
            final(self).epoch() == old(self).epoch() + 1,
            crate::model::document::part_of::<R>(object@, true).len() > 0 ==> R::announced(
                Op::Put,
                final(self).epoch(),
                key.bytes(),
                crate::model::document::patched::<R>(
                    crate::rows::found::<R>(
                        old(self).contents(),
                        primary_front::<R>() + key.bytes(),
                        false,
                    ),
                    crate::model::document::part_of::<R>(object@, true),
                ),
            ),
            variants_written::<S, R>(
                typed_set::<R>(old(self).contents(), key.bytes(), object@),
                key.bytes(),
                crate::model::document::part_of::<R>(object@, false),
                final(self).contents(),
            ),
    {
        let typed = take_declared::<R>(object);
        let dynamic = take_rest::<R>(object);
        if typed.is_empty() {
            self.epoch = self.epoch + 1;
        } else {
            let base = match self.get(key) {
                Some(row) => row,
                None => {
                    let none = FieldMap::new();
                    R::from_map(&none)
                },
            };
            let mut merged = base.to_map();
            overlay_fields(&mut merged, &typed);
            let row = R::from_map(&merged);
            self.put(key, &row);
        }
        self.write_variants(key, &dynamic);
    }

    /// Removes the dynamic fields of a row; tells whether there were any.
    pub fn delete_variants(&mut self, key: &K) -> (r: bool)
        requires
            old(self).wf(),
            old(self).epoch() < u64::MAX,
        ensures
            final(self).wf(),
            r == old(self).contents().dom().contains(variants_front::<R>() + key.bytes()),
            final(self).contents() == old(self).contents().remove(
                variants_front::<R>() + key.bytes(),
            ),
            final(self).epoch() == old(self).epoch() + (if r { 1int } else { 0int }),
    {
        let k = self.variants_key(key);
        if self.inner.store.get(k.as_slice()).is_some() {
            self.inner.store.del(k.as_slice());
            self.epoch = self.epoch + 1;
            true
        } else {
            assert(self.contents() =~= self.contents().remove(k@));
            false
        }
    }
}

/// A key behind the payload front is no key of a declared access method.
proof fn lemma_primary_apart<R: Document>(key: Seq<u8>)
    ensures
        !crate::index::declared_key(crate::index::header_bytes::<R>(), primary_front::<R>() + key),
{
    let h = crate::index::header_bytes::<R>();
    assert((primary_front::<R>() + key)[h.len() as int] == PRIMARY_SLOT);
}

/// A row that was written is found again as it was, and every other row is
/// what it was.
pub proof fn law_get_after_put<R: Document>(
    m: crate::engine::storage::Contents,
    key: Seq<u8>,
    d: R::Model,
    other: Seq<u8>,
)
    requires
        R::storable(d),
    ensures
        ({
            let p = primary_front::<R>();
            let m2 = crate::rows::put_result::<R>(m, crate::index::header_bytes::<R>(), p, key, d, false);
            &&& crate::rows::readable_at::<R>(m2, p + key)
            &&& crate::rows::found::<R>(m2, p + key, false) == Some(R::bare(d))
            &&& other != key ==> crate::rows::found::<R>(m2, p + other, false)
                == crate::rows::found::<R>(m, p + other, false)
        }),
{
    let h = crate::index::header_bytes::<R>();
    let p = primary_front::<R>();
    let prev = crate::rows::stored::<R>(m, p + key);
    let m0 = crate::rows::unfolded::<R>(m, h, key, prev);
    let m1 = m0.insert(p + key, R::payload(d));
    let entries = R::entries(key, d, h);
    let m2 = crate::index::put_pairs(m1, entries);
    R::reads_back(d);
    lemma_primary_apart::<R>(key);
    lemma_primary_apart::<R>(other);
    if prev is Some {
        R::keeps_to_slots(m, key, prev->0, h, false);
    }
    R::keeps_to_slots(m2, key, d, h, true);
    assert(m0.dom().contains(p + other) == m.dom().contains(p + other));
    assert forall|i: int| 0 <= i < entries.len() implies (#[trigger] entries[i]).0 != p + key
        && entries[i].0 != p + other by {
        assert(crate::index::declared_key(h, R::entries(key, d, h)[i].0));
    }
    crate::index::lemma_put_pairs_elsewhere(m1, entries, p + key);
    crate::index::lemma_put_pairs_elsewhere(m1, entries, p + other);
    assert(R::reduced(m2, key, d, h, true).dom().contains(p + key) == m2.dom().contains(p + key));
    assert(R::reduced(m2, key, d, h, true).dom().contains(p + other) == m2.dom().contains(
        p + other,
    ));
    assert(other != key ==> p + other != p + key) by {
        assert((p + other).skip(p.len() as int) =~= other);
        assert((p + key).skip(p.len() as int) =~= key);
    }
}

/// After a row has been removed there is none under its key, and every other
/// row is what it was.
pub proof fn law_delete_is_gone<R: Document>(
    m: crate::engine::storage::Contents,
    key: Seq<u8>,
    d: R::Model,
    other: Seq<u8>,
)
    ensures
        ({
            let p = primary_front::<R>();
            let m2 = crate::rows::delete_result::<R>(m, crate::index::header_bytes::<R>(), p, key, d);
            &&& crate::rows::found::<R>(m2, p + key, false) is None
            &&& other != key ==> crate::rows::found::<R>(m2, p + other, false)
                == crate::rows::found::<R>(m, p + other, false)
        }),
{
    let h = crate::index::header_bytes::<R>();
    let p = primary_front::<R>();
    let keys = crate::index::keys_of(R::entries(key, d, h));
    let m1 = m.remove(p + key);
    let m2 = crate::index::del_keys(m1, keys);
    R::keeps_to_slots(m2, key, d, h, false);
    lemma_primary_apart::<R>(key);
    lemma_primary_apart::<R>(other);
    crate::index::lemma_del_keys(m1, keys, p + key);
    crate::index::lemma_del_keys(m1, keys, p + other);
    assert(R::reduced(m2, key, d, h, false).dom().contains(p + key) == m2.dom().contains(p + key));
    assert(R::reduced(m2, key, d, h, false).dom().contains(p + other) == m2.dom().contains(
        p + other,
    ));
    if keys.contains(p + other) {
        let i = choose|i: int| 0 <= i < keys.len() && keys[i] == p + other;
        assert(crate::index::declared_key(h, R::entries(key, d, h)[i].0));
    }
    assert(other != key ==> p + other != p + key) by {
        assert((p + other).skip(p.len() as int) =~= other);
        assert((p + key).skip(p.len() as int) =~= key);
    }
}

/// Frames of dynamic fields read back as the numbers and values of those
/// fields, in their order.
proof fn lemma_variants_read_back(
    fields: Seq<(Seq<char>, crate::model::obj_dynamic::DynView)>,
    names: crate::model::obj_dynamic::NameTable,
)
    requires
        variants_fit(fields),
        forall|i: int| 0 <= i < fields.len() ==> crate::obj_dynamic::plain((#[trigger] fields[i]).1),
    ensures
        crate::obj_dynamic::read_frames(variants_bytes(fields, names)) == fields.map_values(
            |f: (Seq<char>, crate::model::obj_dynamic::DynView)| (names[f.0], f.1),
        ),
    decreases fields.len(),
{
    let pick = |f: (Seq<char>, crate::model::obj_dynamic::DynView)| (names[f.0], f.1);
    if fields.len() == 0 {
        assert(fields.map_values(pick) =~= Seq::empty());
    } else {
        let t = fields.drop_first();
        assert forall|i: int| 0 <= i < t.len() implies crate::obj_dynamic::plain(
            (#[trigger] t[i]).1,
        ) && crate::obj_dynamic::value_body(t[i].1).len() <= u32::MAX by {
            assert(t[i] == fields[i + 1]);
        }
        lemma_variants_read_back(t, names);
        assert(crate::obj_dynamic::plain(fields[0].1));
        crate::obj_dynamic::law_frame_round_trip(
            names[fields[0].0],
            fields[0].1,
            variants_bytes(t, names),
        );
        assert(fields.map_values(pick) =~= seq![pick(fields[0])] + t.map_values(pick));
    }
}

/// Dynamic fields that were written are read back as they were, and none are
/// if none were written; the dictionary still tells the same on either side.
/// This is on engines that refuse no write, with a dictionary whose two
/// directions agree.
pub proof fn law_get_variants_after_set<S: VirtualStorage, R: Document>(
    m: crate::engine::storage::Contents,
    key: Seq<u8>,
    fields: Seq<(Seq<char>, crate::model::obj_dynamic::DynView)>,
    after: crate::engine::storage::Contents,
)
    requires
        S::never_refuses(),
        crate::model::obj_dict::in_sync(
            names_on::<R>(m).dict,
            m,
            narrow_home(crate::index::header_bytes::<R>()),
        ),
        crate::model::obj_dynamic::names_sorted(fields),
        forall|i: int| 0 <= i < fields.len() ==> crate::obj_dynamic::plain((#[trigger] fields[i]).1),
        can_set_variants::<R>(m, fields),
        variants_written::<S, R>(m, key, fields, after),
    ensures
        crate::model::obj_dict::in_sync(
            names_on::<R>(after).dict,
            after,
            narrow_home(crate::index::header_bytes::<R>()),
        ),
        variants_at::<R>(after, key) == (if fields.len() == 0 {
            None
        } else {
            Some(fields)
        }),
{
    let s = names_on::<R>(m);
    let header = crate::index::header_bytes::<R>();
    let h = s.home;
    let order = variant_names(fields);
    let end = crate::model::obj_dynamic::steps::<PendingNames>(s, order);
    let d = end.dict;
    let k = variants_front::<R>() + key;
    let body = variants_bytes(fields, d.names);
    let first = crate::model::obj_dict::growth(s, order);
    let w = crate::engine::storage::apply_ops(m, first);
    crate::model::obj_dict::lemma_entry_last(m, first, k, body);
    lemma_narrow_apart(header);
    crate::model::obj_dict::law_growth_keeps_sync(s, order, m);
    crate::model::obj_dynamic::law_steps_append::<PendingNames>(s, order);
    assert(k[header.len() as int] == DYNAMIC_SLOT);
    assert(!crate::bytes::starts_with(k, h.ids)) by {
        assert(h.ids[header.len() as int] == DICT_ID_SLOT);
        if crate::bytes::starts_with(k, h.ids) {
            assert(k.subrange(0, h.ids.len() as int)[header.len() as int] == DYNAMIC_SLOT);
        }
    }
    assert(!crate::bytes::starts_with(k, h.names)) by {
        assert(h.names[header.len() as int] == DICT_NAME_SLOT);
        if crate::bytes::starts_with(k, h.names) {
            assert(k.subrange(0, h.names.len() as int)[header.len() as int] == DYNAMIC_SLOT);
        }
    }
    assert(after.dom().finite());
    crate::model::obj_dict::law_sync_elsewhere(d, w, after, h);
    crate::model::obj_dict::law_sync_lookup(d, after, h);
    lemma_variants_read_back(fields, d.names);
    assert forall|i: int| 0 <= i < fields.len() implies d.ids.dom().contains(
        d.names[(#[trigger] fields[i]).0],
    ) && d.ids[d.names[fields[i].0]] == fields[i].0 by {
        assert(order[i] == fields[i].0);
        assert(d.names.dom().contains(fields[i].0));
    }
    crate::model::dynamic_collection::lemma_named_back(fields, d.names, d.ids);
    if fields.len() > 0 {
        crate::model::wrappers::obj_value::law_type_bytes(
            crate::model::obj_dynamic::value_type(fields[0].1),
            0,
        );
        assert(body.len() > 0);
    }
}

/// Writing the dynamic fields of a row leaves every payload as it was.
pub proof fn law_variants_spare_payloads<S: VirtualStorage, R: Document>(
    m: crate::engine::storage::Contents,
    key: Seq<u8>,
    fields: Seq<(Seq<char>, crate::model::obj_dynamic::DynView)>,
    after: crate::engine::storage::Contents,
    other: Seq<u8>,
)
    requires
        variants_written::<S, R>(m, key, fields, after),
    ensures
        crate::engine::storage::same_at(after, m, primary_front::<R>() + other),
{
    let s = names_on::<R>(m);
    let header = crate::index::header_bytes::<R>();
    let h = s.home;
    let order = variant_names(fields);
    let end = crate::model::obj_dynamic::steps::<PendingNames>(s, order);
    let k = variants_front::<R>() + key;
    let p = primary_front::<R>() + other;
    crate::model::obj_dict::lemma_entry_last(
        m,
        crate::model::obj_dict::growth(s, order),
        k,
        variants_bytes(fields, end.dict.names),
    );
    assert(k[header.len() as int] == DYNAMIC_SLOT);
    assert(p[header.len() as int] == PRIMARY_SLOT);
    assert(!crate::bytes::starts_with(p, h.ids)) by {
        assert(h.ids[header.len() as int] == DICT_ID_SLOT);
        if crate::bytes::starts_with(p, h.ids) {
            assert(p.subrange(0, h.ids.len() as int)[header.len() as int] == PRIMARY_SLOT);
        }
    }
    assert(!crate::bytes::starts_with(p, h.names)) by {
        assert(h.names[header.len() as int] == DICT_NAME_SLOT);
        if crate::bytes::starts_with(p, h.names) {
            assert(p.subrange(0, h.names.len() as int)[header.len() as int] == PRIMARY_SLOT);
        }
    }
    crate::model::obj_dict::law_growth_spares_others(s, order, m, p);
}

/// A part of fields holds no value that they do not.
proof fn lemma_part_plain<R: Document>(
    fields: Seq<(Seq<char>, crate::model::obj_dynamic::DynView)>,
    declared: bool,
)
    requires
        forall|i: int| 0 <= i < fields.len() ==> crate::obj_dynamic::plain((#[trigger] fields[i]).1),
    ensures
        forall|i: int|
            0 <= i < crate::model::document::part_of::<R>(fields, declared).len()
                ==> crate::obj_dynamic::plain(
                (#[trigger] crate::model::document::part_of::<R>(fields, declared)[i]).1,
            ),
    decreases fields.len(),
{
    if fields.len() > 0 {
        let init = fields.drop_last();
        assert forall|i: int| 0 <= i < init.len() implies crate::obj_dynamic::plain(
            (#[trigger] init[i]).1,
        ) by {
            assert(init[i] == fields[i]);
        }
        lemma_part_plain::<R>(init, declared);
        assert(crate::obj_dynamic::plain(fields[fields.len() - 1].1));
        lemma_insert_plain(
            crate::model::document::part_of::<R>(init, declared),
            fields.last().0,
            fields.last().1,
        );
    }
}

proof fn lemma_insert_plain(
    fields: Seq<(Seq<char>, crate::model::obj_dynamic::DynView)>,
    name: Seq<char>,
    value: crate::model::obj_dynamic::DynView,
)
    requires
        forall|i: int| 0 <= i < fields.len() ==> crate::obj_dynamic::plain((#[trigger] fields[i]).1),
        crate::obj_dynamic::plain(value),
    ensures
        forall|i: int|
            0 <= i < crate::model::obj_dynamic::insert_field(fields, name, value).len()
                ==> crate::obj_dynamic::plain(
                (#[trigger] crate::model::obj_dynamic::insert_field(fields, name, value)[i]).1,
            ),
    decreases fields.len(),
{
    let out = crate::model::obj_dynamic::insert_field(fields, name, value);
    if fields.len() > 0 {
        let rest = fields.drop_first();
        assert forall|i: int| 0 <= i < rest.len() implies crate::obj_dynamic::plain(
            (#[trigger] rest[i]).1,
        ) by {
            assert(rest[i] == fields[i + 1]);
        }
        lemma_insert_plain(rest, name, value);
        let inner = crate::model::obj_dynamic::insert_field(rest, name, value);
        assert forall|i: int| 0 <= i < out.len() implies crate::obj_dynamic::plain(
            (#[trigger] out[i]).1,
        ) by {
            if i > 0 {
                if crate::text::name_lt(fields[0].0, name) && fields[0].0 != name {
                    assert(out[i] == inner[i - 1]);
                } else if fields[0].0 == name {
                    assert(out[i] == fields[i]);
                } else {
                    assert(out[i] == fields[i - 1]);
                }
            }
        }
    }
}

/// A row that was written by name reads back in both its parts: the declared
/// fields over those it had, and the other fields as they were given. This is
/// on engines that refuse no write, with a dictionary whose two directions
/// agree.
pub proof fn law_get_object_after_set<S: VirtualStorage, R: Document>(
    m: crate::engine::storage::Contents,
    key: Seq<u8>,
    object: Seq<(Seq<char>, crate::model::obj_dynamic::DynView)>,
    after: crate::engine::storage::Contents,
)
    requires
        S::never_refuses(),
        forall|i: int| 0 <= i < object.len() ==> crate::obj_dynamic::plain((#[trigger] object[i]).1),
        ({
            let t = typed_set::<R>(m, key, object);
            let p = primary_front::<R>() + key;
            let typed = crate::model::document::part_of::<R>(object, true);
            let rest = crate::model::document::part_of::<R>(object, false);
            let prev = crate::rows::found::<R>(m, p, false);
            &&& typed.len() > 0 ==> R::storable(crate::model::document::patched::<R>(prev, typed))
            &&& crate::model::obj_dict::in_sync(
                names_on::<R>(t).dict,
                t,
                narrow_home(crate::index::header_bytes::<R>()),
            )
            &&& can_set_variants::<R>(t, rest)
            &&& variants_written::<S, R>(t, key, rest, after)
        }),
    ensures
        ({
            let p = primary_front::<R>() + key;
            let typed = crate::model::document::part_of::<R>(object, true);
            let rest = crate::model::document::part_of::<R>(object, false);
            let prev = crate::rows::found::<R>(m, p, false);
            let now = if typed.len() == 0 {
                prev
            } else {
                Some(R::bare(crate::model::document::patched::<R>(prev, typed)))
            };
            &&& crate::rows::found::<R>(after, p, false) == now
            &&& variants_at::<R>(after, key) == (if rest.len() == 0 {
                None
            } else {
                Some(rest)
            })
            &&& object_at::<R>(after, key) == (match now {
                Some(d) => Some(crate::model::document::overlay(rest, R::mapped(d))),
                None => if rest.len() == 0 {
                    None
                } else {
                    Some(rest)
                },
            })
        }),
{
    let t = typed_set::<R>(m, key, object);
    let p = primary_front::<R>() + key;
    let typed = crate::model::document::part_of::<R>(object, true);
    let rest = crate::model::document::part_of::<R>(object, false);
    let prev = crate::rows::found::<R>(m, p, false);
    crate::model::document::lemma_part_sorted::<R>(object, false);
    lemma_part_plain::<R>(object, false);
    law_get_variants_after_set::<S, R>(t, key, rest, after);
    law_variants_spare_payloads::<S, R>(t, key, rest, after, key);
    if typed.len() > 0 {
        law_get_after_put::<R>(
            m,
            key,
            crate::model::document::patched::<R>(prev, typed),
            key,
        );
    }
    if rest.len() == 0 {
        assert(rest =~= Seq::empty());
    }
}

/// The entries of a row are there after it has been written, so that its
/// access methods find it. This is where no two entries share a key, and
/// groups stand apart from them.
pub proof fn law_put_is_indexed<R: Document>(
    m: crate::engine::storage::Contents,
    key: Seq<u8>,
    d: R::Model,
    at: int,
)
    requires
        0 <= at < R::entries(key, d, crate::index::header_bytes::<R>()).len(),
        forall|i: int|
            at < i < R::entries(key, d, crate::index::header_bytes::<R>()).len() ==> (
            #[trigger] R::entries(key, d, crate::index::header_bytes::<R>())[i]).0 != R::entries(
                key,
                d,
                crate::index::header_bytes::<R>(),
            )[at].0,
        forall|w: crate::engine::storage::Contents|
            w.dom().contains(R::entries(key, d, crate::index::header_bytes::<R>())[at].0) ==> {
                let k = R::entries(key, d, crate::index::header_bytes::<R>())[at].0;
                let w2 = #[trigger] R::reduced(w, key, d, crate::index::header_bytes::<R>(), true);
                w2.dom().contains(k) && w2[k] == w[k]
            },
    ensures
        ({
            let (k, v) = R::entries(key, d, crate::index::header_bytes::<R>())[at];
            let m2 = crate::rows::put_result::<R>(
                m,
                crate::index::header_bytes::<R>(),
                primary_front::<R>(),
                key,
                d,
                false,
            );
            m2.dom().contains(k) && m2[k] == v
        }),
{
    let h = crate::index::header_bytes::<R>();
    let p = primary_front::<R>();
    let prev = crate::rows::stored::<R>(m, p + key);
    let m1 = crate::rows::unfolded::<R>(m, h, key, prev).insert(p + key, R::payload(d));
    crate::index::lemma_put_pairs_found(m1, R::entries(key, d, h), at);
}

/// What rows written one after another leave of a table.
pub open spec fn put_history<R: Document>(
    m: crate::engine::storage::Contents,
    rows: Seq<(Seq<u8>, R::Model)>,
) -> crate::engine::storage::Contents
    decreases rows.len(),
{
    if rows.len() == 0 {
        m
    } else {
        crate::rows::put_result::<R>(
            put_history::<R>(m, rows.drop_last()),
            crate::index::header_bytes::<R>(),
            primary_front::<R>(),
            rows.last().0,
            rows.last().1,
            false,
        )
    }
}

/// The last row written under a key.
pub open spec fn last_put<M>(rows: Seq<(Seq<u8>, M)>, key: Seq<u8>) -> Option<M>
    decreases rows.len(),
{
    if rows.len() == 0 {
        None
    } else if rows.last().0 == key {
        Some(rows.last().1)
    } else {
        last_put(rows.drop_last(), key)
    }
}

/// Writing a row stores its payload and leaves the others.
proof fn lemma_put_payloads<R: Document>(
    m: crate::engine::storage::Contents,
    key: Seq<u8>,
    d: R::Model,
    other: Seq<u8>,
)
    ensures
        ({
            let p = primary_front::<R>();
            let m2 = crate::rows::put_result::<R>(
                m,
                crate::index::header_bytes::<R>(),
                p,
                key,
                d,
                false,
            );
            &&& m2.dom().contains(p + key) && m2[p + key] == R::payload(d)
            &&& other != key ==> crate::engine::storage::same_at(m2, m, p + other)
        }),
{
    let h = crate::index::header_bytes::<R>();
    let p = primary_front::<R>();
    let prev = crate::rows::stored::<R>(m, p + key);
    let m0 = crate::rows::unfolded::<R>(m, h, key, prev);
    let m1 = m0.insert(p + key, R::payload(d));
    let entries = R::entries(key, d, h);
    let m2 = crate::index::put_pairs(m1, entries);
    lemma_primary_apart::<R>(key);
    lemma_primary_apart::<R>(other);
    if prev is Some {
        R::keeps_to_slots(m, key, prev->0, h, false);
    }
    R::keeps_to_slots(m2, key, d, h, true);
    assert(m0.dom().contains(p + other) == m.dom().contains(p + other));
    assert forall|i: int| 0 <= i < entries.len() implies (#[trigger] entries[i]).0 != p + key
        && entries[i].0 != p + other by {
        assert(crate::index::declared_key(h, R::entries(key, d, h)[i].0));
    }
    crate::index::lemma_put_pairs_elsewhere(m1, entries, p + key);
    crate::index::lemma_put_pairs_elsewhere(m1, entries, p + other);
    assert(R::reduced(m2, key, d, h, true).dom().contains(p + key) == m2.dom().contains(p + key));
    assert(R::reduced(m2, key, d, h, true).dom().contains(p + other) == m2.dom().contains(
        p + other,
    ));
    assert(other != key ==> p + other != p + key) by {
        assert((p + other).skip(p.len() as int) =~= other);
        assert((p + key).skip(p.len() as int) =~= key);
    }
}

proof fn lemma_put_history<R: Document>(
    m: crate::engine::storage::Contents,
    rows: Seq<(Seq<u8>, R::Model)>,
    key: Seq<u8>,
)
    requires
        crate::rows::none_behind(m, primary_front::<R>()),
    ensures
        ({
            let after = put_history::<R>(m, rows);
            let k = primary_front::<R>() + key;
            match last_put(rows, key) {
                Some(d) => after.dom().contains(k) && after[k] == R::payload(d),
                None => !after.dom().contains(k),
            }
        }),
        crate::engine::storage::prefix_set(
            put_history::<R>(m, rows),
            primary_front::<R>(),
        ).finite(),
    decreases rows.len(),
{
    let p = primary_front::<R>();
    let after = put_history::<R>(m, rows);
    let set = crate::engine::storage::prefix_set(after, p);
    if rows.len() == 0 {
        assert forall|k: Seq<u8>| !set.contains(k) by {
            if set.contains(k) {
                crate::bytes::lemma_starts_with_split(k, p);
                assert(m.dom().contains(p + k.skip(p.len() as int)));
            }
        }
        assert(set =~= Set::empty());
    } else {
        let before = put_history::<R>(m, rows.drop_last());
        let (last, d) = rows.last();
        let old_set = crate::engine::storage::prefix_set(before, p);
        lemma_put_history::<R>(m, rows.drop_last(), key);
        lemma_put_payloads::<R>(before, last, d, key);
        assert(set.subset_of(old_set.insert(p + last))) by {
            assert forall|k: Seq<u8>| set.contains(k) implies old_set.insert(p + last).contains(
                k,
            ) by {
                crate::bytes::lemma_starts_with_split(k, p);
                let rest = k.skip(p.len() as int);
                lemma_put_payloads::<R>(before, last, d, rest);
            }
        }
        vstd::set_lib::lemma_set_subset_finite(old_set.insert(p + last), set);
    }
}

/// The raw rows of a table that came from writes alone are the keys that were
/// written, each once, in ascending order, with the payload of the row last
/// written under it.
pub proof fn law_raw_rows_over_puts<R: Document>(
    m: crate::engine::storage::Contents,
    rows: Seq<(Seq<u8>, R::Model)>,
)
    requires
        crate::rows::none_behind(m, primary_front::<R>()),
    ensures
        ({
            let out = crate::engine::storage::prefix_suffix_pairs(
                put_history::<R>(m, rows),
                primary_front::<R>(),
            );
            &&& forall|i: int|
                0 <= i < out.len() ==> last_put(rows, (#[trigger] out[i]).0) is Some && out[i].1
                    == R::payload(last_put(rows, out[i].0)->0)
            &&& forall|key: Seq<u8>|
                (#[trigger] last_put(rows, key)) is Some ==> out.contains(
                    (key, R::payload(last_put(rows, key)->0)),
                )
            &&& forall|i: int, j: int|
                0 <= i < j < out.len() ==> crate::bytes::lex_lt((#[trigger] out[i]).0, (
                #[trigger] out[j]).0)
        }),
{
    let p = primary_front::<R>();
    let after = put_history::<R>(m, rows);
    let set = crate::engine::storage::prefix_set(after, p);
    let keys = crate::engine::storage::prefix_keys(after, p);
    let out = crate::engine::storage::prefix_suffix_pairs(after, p);
    lemma_put_history::<R>(m, rows, Seq::empty());
    crate::engine::storage::lemma_finite_listing(set);
    assert forall|i: int| 0 <= i < out.len() implies last_put(rows, (#[trigger] out[i]).0) is Some
        && out[i].1 == R::payload(last_put(rows, out[i].0)->0) by {
        assert(set.contains(keys[i]));
        crate::bytes::lemma_starts_with_split(keys[i], p);
        lemma_put_history::<R>(m, rows, out[i].0);
    }
    assert forall|key: Seq<u8>| (#[trigger] last_put(rows, key)) is Some implies out.contains(
        (key, R::payload(last_put(rows, key)->0)),
    ) by {
        lemma_put_history::<R>(m, rows, key);
        crate::bytes::lemma_starts_with_concat(p, key);
        assert(set.contains(p + key));
        let i = choose|i: int| 0 <= i < keys.len() && keys[i] == p + key;
        assert(out[i] == (key, R::payload(last_put(rows, key)->0)));
    }
    assert forall|i: int, j: int| 0 <= i < j < out.len() implies crate::bytes::lex_lt(
        (#[trigger] out[i]).0,
        (#[trigger] out[j]).0,
    ) by {
        assert(set.contains(keys[i]) && set.contains(keys[j]));
        crate::bytes::lemma_starts_with_split(keys[i], p);
        crate::bytes::lemma_starts_with_split(keys[j], p);
        crate::bytes::lemma_lex_shared_prefix(p, out[i].0, out[j].0);
    }
}

/// Writing the dynamic fields of a row leaves those of every other row
/// stored as they were.
pub proof fn law_variants_spare_others<S: VirtualStorage, R: Document>(
    m: crate::engine::storage::Contents,
    key: Seq<u8>,
    fields: Seq<(Seq<char>, crate::model::obj_dynamic::DynView)>,
    after: crate::engine::storage::Contents,
    other: Seq<u8>,
)
    requires
        variants_written::<S, R>(m, key, fields, after),
        other != key,
    ensures
        crate::engine::storage::same_at(after, m, variants_front::<R>() + other),
{
    let s = names_on::<R>(m);
    let header = crate::index::header_bytes::<R>();
    let h = s.home;
    let order = variant_names(fields);
    let end = crate::model::obj_dynamic::steps::<PendingNames>(s, order);
    let f = variants_front::<R>();
    let k = f + key;
    let p = f + other;
    crate::model::obj_dict::lemma_entry_last(
        m,
        crate::model::obj_dict::growth(s, order),
        k,
        variants_bytes(fields, end.dict.names),
    );
    assert(p != k) by {
        assert(p.skip(f.len() as int) =~= other);
        assert(k.skip(f.len() as int) =~= key);
    }
    assert(p[header.len() as int] == DYNAMIC_SLOT);
    assert(!crate::bytes::starts_with(p, h.ids)) by {
        assert(h.ids[header.len() as int] == DICT_ID_SLOT);
        if crate::bytes::starts_with(p, h.ids) {
            assert(p.subrange(0, h.ids.len() as int)[header.len() as int] == DYNAMIC_SLOT);
        }
    }
    assert(!crate::bytes::starts_with(p, h.names)) by {
        assert(h.names[header.len() as int] == DICT_NAME_SLOT);
        if crate::bytes::starts_with(p, h.names) {
            assert(p.subrange(0, h.names.len() as int)[header.len() as int] == DYNAMIC_SLOT);
        }
    }
    crate::model::obj_dict::law_growth_spares_others(s, order, m, p);
}

} // verus!
