//! Collections: documents of one type on one engine.
//!
//! Behind the header of the collection stand, each behind a two-byte slot,
//! the payloads, the fields that no document type declares, the dictionary
//! of their names, and the entries of the declared access methods. All of
//! them are derived from the documents that are written.

use std::marker::PhantomData;

use vstd::prelude::*;
use vstd::string::StringExecFns;

use crate::bytes::{concat, slice_from};
use crate::engine::storage::{as_bound, prefix_end, scan_suffix_kv, MemBatch, ScanIter, VirtualStorage};
use crate::field::FieldDesc;
use crate::index::{
    entry_key, entry_prefix, key_prefix_width, scan_covering, table_header, Document, KvIndex,
};
use crate::key::{KeyEncode, PrefixKey};
use crate::model::dynamic_collection::decode_doc;
use crate::model::index::{make_key, DICT_ID_SLOT, DICT_NAME_SLOT, DYNAMIC_SLOT, PRIMARY_SLOT};
use crate::model::obj_dict::{store_entry, DictStore, PendingNames, StoreNames};
use crate::model::obj_dynamic::{
    copy_value, decode_named, encode_fields, FieldMap, NameResolver,
};
use crate::rows::{
    delete_row, fetch_row, get_row, prune_slots, put_row, save_row, scan_row_keys, scan_rows,
};
use crate::subscribe::Op;
use crate::text::str_eq;

verus! {

/// In front of the payloads of a collection.
pub open spec fn primary_front<R: Document>() -> Seq<u8> {
    crate::model::index::slot_key(crate::index::header_bytes::<R>(), PRIMARY_SLOT, Seq::empty())
}

/// In front of the undeclared fields of a collection.
pub open spec fn fields_front<R: Document>() -> Seq<u8> {
    crate::model::index::slot_key(crate::index::header_bytes::<R>(), DYNAMIC_SLOT, Seq::empty())
}

/// A fresh dictionary cache of the collection, once it has read what the
/// engine holds.
pub open spec fn names_on<R: Document>(
    m: crate::engine::storage::Contents,
) -> crate::model::obj_dict::DictState {
    let h = crate::model::obj_dict::home(crate::index::header_bytes::<R>());
    crate::model::obj_dict::DictState {
        dict: crate::model::obj_dict::load_dict(crate::model::obj_dict::fresh_dict(), m, h),
        home: h,
    }
}

/// The engine may hold `after` once the undeclared fields of a document have
/// been replaced: names seen for the first time and the entry are stored in
/// one batch. There is no entry without fields.
pub open spec fn fields_written<S: VirtualStorage, R: Document>(
    m: crate::engine::storage::Contents,
    key: Seq<u8>,
    fields: Seq<(Seq<char>, crate::model::obj_dynamic::DynView)>,
    after: crate::engine::storage::Contents,
) -> bool {
    let s = names_on::<R>(m);
    let order = crate::model::obj_dynamic::fields_names(fields);
    crate::model::obj_dict::entry_stored::<S>(
        m,
        s,
        order,
        fields_front::<R>() + key,
        crate::model::obj_dynamic::fields_bytes(
            fields,
            crate::model::obj_dynamic::steps::<PendingNames>(s, order).dict.names,
        ),
        after,
    )
}

/// Every name of the fields has a number or can get one.
pub open spec fn can_write_fields<R: Document>(
    m: crate::engine::storage::Contents,
    fields: Seq<(Seq<char>, crate::model::obj_dynamic::DynView)>,
) -> bool {
    crate::model::obj_dynamic::ready_all::<PendingNames>(
        names_on::<R>(m),
        crate::model::obj_dynamic::fields_names(fields),
    )
}

/// The undeclared fields of a document, if it has any.
pub open spec fn fields_at<R: Document>(
    m: crate::engine::storage::Contents,
    key: Seq<u8>,
) -> Option<Seq<(Seq<char>, crate::model::obj_dynamic::DynView)>> {
    let k = fields_front::<R>() + key;
    let ids = crate::model::obj_dict::lookup_table(
        crate::model::obj_dict::fresh_dict(),
        m,
        crate::model::obj_dict::home(crate::index::header_bytes::<R>()),
    );
    if m.dom().contains(k) && crate::model::obj_dynamic::read_frames(m[k], ids).len() > 0 {
        Some(crate::model::dynamic_collection::doc_of(m[k], ids))
    } else {
        None
    }
}

/// Fields with others put over them.
pub open spec fn overlay(
    base: Seq<(Seq<char>, crate::model::obj_dynamic::DynView)>,
    over: Seq<(Seq<char>, crate::model::obj_dynamic::DynView)>,
) -> Seq<(Seq<char>, crate::model::obj_dynamic::DynView)>
    decreases over.len(),
{
    if over.len() == 0 {
        base
    } else {
        crate::model::obj_dynamic::insert_field(
            overlay(base, over.drop_last()),
            over.last().0,
            over.last().1,
        )
    }
}

/// The declared fields among others, or the rest.
pub open spec fn part_of<R: Document>(
    fields: Seq<(Seq<char>, crate::model::obj_dynamic::DynView)>,
    declared: bool,
) -> Seq<(Seq<char>, crate::model::obj_dynamic::DynView)>
    decreases fields.len(),
{
    if fields.len() == 0 {
        Seq::empty()
    } else {
        let before = part_of::<R>(fields.drop_last(), declared);
        if is_declared::<R>(fields.last().0) == declared {
            crate::model::obj_dynamic::insert_field(before, fields.last().0, fields.last().1)
        } else {
            before
        }
    }
}

/// Whether documents declare a field of this name.
pub open spec fn is_declared<R: Document>(name: Seq<char>) -> bool {
    exists|i: int| 0 <= i < R::declared().len() && (#[trigger] R::declared()[i]).name == name
}

/// A document with declared fields put over those it has; a new document
/// has its defaults.
pub open spec fn patched<R: Document>(
    prev: Option<R::Model>,
    typed: Seq<(Seq<char>, crate::model::obj_dynamic::DynView)>,
) -> R::Model {
    let base = match prev {
        Some(d) => d,
        None => R::unmapped(Seq::empty()),
    };
    R::unmapped(overlay(R::mapped(base), typed))
}

/// The engine once the declared part of fields by name has been written.
pub open spec fn typed_written<R: Document>(
    m: crate::engine::storage::Contents,
    key: Seq<u8>,
    fields: Seq<(Seq<char>, crate::model::obj_dynamic::DynView)>,
) -> crate::engine::storage::Contents {
    let typed = part_of::<R>(fields, true);
    if typed.len() == 0 {
        m
    } else {
        crate::rows::put_result::<R>(
            m,
            crate::index::header_bytes::<R>(),
            primary_front::<R>(),
            key,
            patched::<R>(
                crate::rows::found::<R>(m, primary_front::<R>() + key, true),
                typed,
            ),
            true,
        )
    }
}

/// Of keys in a range that begins `from` bytes into the key, the tails that
/// are long enough to hold an identity of `taken` bytes.
pub open spec fn long_tails(keys: Seq<Seq<u8>>, from: nat, taken: nat) -> Seq<Seq<u8>>
    decreases keys.len(),
{
    if keys.len() == 0 {
        Seq::empty()
    } else {
        let before = long_tails(keys.drop_last(), from, taken);
        if keys.last().len() >= from + taken {
            before.push(keys.last().skip(from as int))
        } else {
            before
        }
    }
}

/// One list of keys after another.
proof fn lemma_long_tails_concat(a: Seq<Seq<u8>>, b: Seq<Seq<u8>>, from: nat, taken: nat)
    ensures
        long_tails(a + b, from, taken) == long_tails(a, from, taken) + long_tails(b, from, taken),
    decreases b.len(),
{
    if b.len() == 0 {
        assert(a + b =~= a);
        assert(long_tails(a, from, taken) + long_tails(b, from, taken) =~= long_tails(
            a,
            from,
            taken,
        ));
    } else {
        lemma_long_tails_concat(a, b.drop_last(), from, taken);
        assert((a + b).drop_last() =~= a + b.drop_last());
        assert((a + b).last() == b.last());
        assert(long_tails(a + b, from, taken) =~= long_tails(a, from, taken) + long_tails(
            b,
            from,
            taken,
        ));
    }
}

/// The upper end of a range within an access method; without one, the end
/// of the access method.
pub open spec fn range_end(front: Seq<u8>, end: Option<Seq<u8>>) -> Option<Seq<u8>> {
    match end {
        Some(e) => Some(front + e),
        None => crate::engine::storage::prefix_bound(front),
    }
}

/// Documents pulled one by one from a range of an access method, from either
/// end.
#[verifier::reject_recursive_types(K)]
#[verifier::reject_recursive_types(R)]
pub struct DocumentScan<'a, S: VirtualStorage, K: KeyEncode, R: Document<Key = K>> {
    store: &'a S,
    it: ScanIter,
    front: Vec<u8>,
    from: usize,
    taken: usize,
    _marker: PhantomData<(K, R)>,
}

impl<'a, S: VirtualStorage, K: KeyEncode, R: Document<Key = K>> DocumentScan<'a, S, K, R> {
    /// Every payload can be read, and identities have the width of a key at
    /// most.
    pub closed spec fn wf(&self) -> bool {
        &&& crate::rows::all_readable::<R>(self.store.contents(), self.front@)
        &&& self.taken <= K::KEY_LEN
    }

    /// The rows not yet handed out.
    pub closed spec fn rest(&self) -> Seq<(Seq<u8>, nat, Option<R::Model>)> {
        long_tails(
            crate::index::keys_of(self.it@),
            self.from as nat,
            self.taken as nat,
        ).map_values(
            |s: Seq<u8>|
                crate::rows::row_at::<R>(
                    self.store.contents(),
                    self.front@,
                    s,
                    self.taken as nat,
                    true,
                ),
        )
    }

    /// The next row from the front.
    pub fn next(&mut self) -> (r: Option<(PrefixKey<K>, Option<R>)>)
        requires
            old(self).wf(),
        ensures
            final(self).wf(),
            match r {
                Some(row) => old(self).rest().len() > 0 && (
                    row.0.decoded.bytes(),
                    row.0.taken as nat,
                    crate::rows::opt_model(row.1),
                ) == old(self).rest()[0] && final(self).rest() == old(self).rest().drop_first(),
                None => old(self).rest().len() == 0 && final(self).rest().len() == 0,
            },
    {
        let ghost all = self.rest();
        let mut more: bool = true;
        while more
            invariant
                self.wf(),
                self.rest() == all,
                all == old(self).rest(),
                !more ==> self.it@.len() == 0,
            decreases self.it@.len(), (if more { 1int } else { 0int }),
        {
            let ghost left = self.it@;
            let ghost from = self.from as nat;
            let ghost taken = self.taken as nat;
            match self.it.next() {
                None => {
                    more = false;
                },
                Some((full, _)) => {
                    proof {
                        let keys = crate::index::keys_of(left);
                        let one = seq![full@];
                        assert(keys =~= one + crate::index::keys_of(self.it@));
                        lemma_long_tails_concat(
                            one,
                            crate::index::keys_of(self.it@),
                            from,
                            taken,
                        );
                        assert(one.drop_last() =~= Seq::empty());
                        assert(long_tails(one.drop_last(), from, taken) =~= Seq::empty());
                        assert(long_tails(one, from, taken) =~= if full@.len() >= from + taken {
                            seq![full@.skip(from as int)]
                        } else {
                            Seq::empty()
                        });
                    }
                    if full.len() >= self.from && full.len() - self.from >= self.taken {
                        let suffix = slice_from(full.as_slice(), self.from);
                        let row = fetch_row::<S, R>(
                            self.store,
                            self.front.as_slice(),
                            suffix,
                            self.taken,
                            true,
                        );
                        assert(self.rest() =~= all.drop_first());
                        return Some(row);
                    }
                    assert(self.rest() =~= all);
                },
            }
        }
        proof {
            assert(crate::index::keys_of(self.it@) =~= Seq::empty());
            assert(self.rest() =~= Seq::empty());
        }
        None
    }

    /// The next row from the back.
    pub fn next_back(&mut self) -> (r: Option<(PrefixKey<K>, Option<R>)>)
        requires
            old(self).wf(),
        ensures
            final(self).wf(),
            match r {
                Some(row) => old(self).rest().len() > 0 && (
                    row.0.decoded.bytes(),
                    row.0.taken as nat,
                    crate::rows::opt_model(row.1),
                ) == old(self).rest().last() && final(self).rest() == old(self).rest().drop_last(),
                None => old(self).rest().len() == 0 && final(self).rest().len() == 0,
            },
    {
        let ghost all = self.rest();
        let mut more: bool = true;
        while more
            invariant
                self.wf(),
                self.rest() == all,
                all == old(self).rest(),
                !more ==> self.it@.len() == 0,
            decreases self.it@.len(), (if more { 1int } else { 0int }),
        {
            let ghost left = self.it@;
            let ghost from = self.from as nat;
            let ghost taken = self.taken as nat;
            match self.it.next_back() {
                None => {
                    more = false;
                },
                Some((full, _)) => {
                    proof {
                        let keys = crate::index::keys_of(left);
                        assert(keys.drop_last() =~= crate::index::keys_of(self.it@));
                        assert(keys.last() == full@);
                    }
                    if full.len() >= self.from && full.len() - self.from >= self.taken {
                        let suffix = slice_from(full.as_slice(), self.from);
                        let row = fetch_row::<S, R>(
                            self.store,
                            self.front.as_slice(),
                            suffix,
                            self.taken,
                            true,
                        );
                        assert(self.rest() =~= all.drop_last());
                        return Some(row);
                    }
                    assert(self.rest() =~= all);
                },
            }
        }
        proof {
            assert(crate::index::keys_of(self.it@) =~= Seq::empty());
            assert(self.rest() =~= Seq::empty());
        }
        None
    }
}

/// Documents of one type on one engine.
#[verifier::reject_recursive_types(K)]
#[verifier::reject_recursive_types(R)]
pub struct Collection<S: VirtualStorage, K: KeyEncode, R: Document<Key = K>> {
    inner: DictStore<S>,
    epoch: u64,
    _marker: PhantomData<(K, R)>,
}

impl<S: VirtualStorage, K: KeyEncode, R: Document<Key = K>> Collection<S, K, R> {
    /// What the engine holds.
    pub closed spec fn contents(&self) -> crate::engine::storage::Contents {
        self.inner.store.contents()
    }

    /// How many writes this collection has made.
    pub closed spec fn epoch(&self) -> u64 {
        self.epoch
    }

    /// The dictionary stands in the collection.
    pub closed spec fn wf(&self) -> bool {
        self.inner.home() == crate::model::obj_dict::home(crate::index::header_bytes::<R>())
    }

    /// The documents on an engine.
    pub fn new(store: S) -> (r: Self)
        ensures
            r.wf(),
            r.contents() == store.contents(),
            r.epoch() == 0,
    {
        let header = table_header::<R>();
        let none: Vec<u8> = Vec::new();
        let ids = make_key(header.as_slice(), DICT_ID_SLOT, none.as_slice());
        let names = make_key(header.as_slice(), DICT_NAME_SLOT, none.as_slice());
        assert(none@ =~= Seq::empty());
        Collection { inner: DictStore::new(store, ids, names), epoch: 0, _marker: PhantomData }
    }

    /// The engine.
    pub fn store(&self) -> (r: &S)
        ensures
            r.contents() == self.contents(),
    {
        &self.inner.store
    }

    /// In front of the payloads.
    fn primary(&self) -> (r: Vec<u8>)
        ensures
            r@ == primary_front::<R>(),
    {
        let header = table_header::<R>();
        let none: Vec<u8> = Vec::new();
        assert(none@ =~= Seq::empty());
        make_key(header.as_slice(), PRIMARY_SLOT, none.as_slice())
    }

    /// The key of a payload.
    pub fn primary_key(&self, key: &K) -> (r: Vec<u8>)
        ensures
            r@ == crate::model::index::slot_key(crate::index::header_bytes::<R>(), PRIMARY_SLOT, key.bytes()),
            r@ == primary_front::<R>() + key.bytes(),
    {
        let header = table_header::<R>();
        let enc = key.encode();
        proof {
            crate::model::index::lemma_slot_key(
                crate::index::header_bytes::<R>(),
                PRIMARY_SLOT,
                PRIMARY_SLOT,
                key.bytes(),
                key.bytes(),
            );
        }
        make_key(header.as_slice(), PRIMARY_SLOT, enc.as_slice())
    }

    /// Writes a document: its payload, the entries of all access methods and
    /// the documents embedded in it. A document stored before is folded out
    /// of its groups first, so that groups count each document once; entries
    /// of access methods that it leaves behind stay until they are deleted.
    pub fn put(&mut self, key: &K, document: &R)
        requires
            old(self).wf(),
            crate::rows::readable_at::<R>(
                old(self).contents(),
                primary_front::<R>() + key.bytes(),
            ),
            R::storable(document.model()),
            old(self).epoch() < u64::MAX,
        ensures
            final(self).wf(),
            final(self).contents() == crate::rows::put_result::<R>(
                old(self).contents(),
                crate::index::header_bytes::<R>(),
                primary_front::<R>(),
                key.bytes(),
                document.model(),
                true,
            ),
            final(self).epoch() == old(self).epoch() + 1,
            R::announced(Op::Put, final(self).epoch(), key.bytes(), document.model()),
    {
        let header = table_header::<R>();
        let front = self.primary();
        put_row::<S, R>(
            &mut self.inner.store,
            header.as_slice(),
            front.as_slice(),
            key,
            document,
            true,
        );
        self.epoch = self.epoch + 1;
        R::emit_event(Op::Put, self.epoch, key, document);
    }

    /// Writes what `f` makes of the document under a key, or of none, and
    /// returns it.
    pub fn upsert_with<F: FnOnce(Option<R>) -> R>(&mut self, key: &K, f: F) -> (r: R)
        requires
            old(self).wf(),
            crate::rows::readable_at::<R>(
                old(self).contents(),
                primary_front::<R>() + key.bytes(),
            ),
            old(self).epoch() < u64::MAX,
            forall|o: Option<R>|
                crate::rows::opt_model(o) == crate::rows::found::<R>(
                    old(self).contents(),
                    primary_front::<R>() + key.bytes(),
                    true,
                ) ==> #[trigger] f.requires((o,)),
            forall|o: Option<R>, n: R| #[trigger]
                f.ensures((o,), n) ==> R::storable(n.model()),
        ensures
            final(self).wf(),
            exists|o: Option<R>|
                crate::rows::opt_model(o) == crate::rows::found::<R>(
                    old(self).contents(),
                    primary_front::<R>() + key.bytes(),
                    true,
                ) && #[trigger] f.ensures((o,), r),
            final(self).contents() == crate::rows::put_result::<R>(
                old(self).contents(),
                crate::index::header_bytes::<R>(),
                primary_front::<R>(),
                key.bytes(),
                r.model(),
                true,
            ),
            final(self).epoch() == old(self).epoch() + 1,
            R::announced(Op::Put, final(self).epoch(), key.bytes(), r.model()),
    {
        let before = self.get(key);
        let new = f(before);
        self.put(key, &new);
        new
    }

    /// Adds the writes of a document to a batch; nothing is written before
    /// the batch is. Groups and events are left to the caller.
    pub fn save_into(&self, batch: &mut MemBatch, key: &K, document: &R)
        requires
            R::storable(document.model()),
        ensures
            final(batch)@ == old(batch)@ + crate::rows::row_writes::<R>(
                crate::index::header_bytes::<R>(),
                primary_front::<R>(),
                key.bytes(),
                document.model(),
            ),
    {
        let header = table_header::<R>();
        let front = self.primary();
        save_row::<R>(batch, header.as_slice(), front.as_slice(), key, document);
    }

    /// The key of the entry of a document in an access method.
    pub fn index_key<I: KvIndex<Document = R>>(&self, key: &K, document: &R) -> (r: Vec<u8>)
        ensures
            r@ == crate::index::entry_at::<I>(
                crate::index::header_bytes::<R>(),
                I::named(key.bytes(), document.model(), I::sorted_by()),
                key.bytes(),
            ),
    {
        let header = table_header::<R>();
        entry_key::<I>(header.as_slice(), key, document)
    }

    /// Removes a document: its payload and the entries of all access
    /// methods. The document must be the one stored under the key, since the
    /// entries are derived from it.
    pub fn delete(&mut self, key: &K, document: &R)
        requires
            old(self).wf(),
            old(self).epoch() < u64::MAX,
        ensures
            final(self).wf(),
            final(self).contents() == crate::rows::delete_result::<R>(
                old(self).contents(),
                crate::index::header_bytes::<R>(),
                primary_front::<R>(),
                key.bytes(),
                document.model(),
            ),
            final(self).epoch() == old(self).epoch() + 1,
            R::announced(Op::Delete, final(self).epoch(), key.bytes(), document.model()),
    {
        let header = table_header::<R>();
        let front = self.primary();
        delete_row::<S, R>(
            &mut self.inner.store,
            header.as_slice(),
            front.as_slice(),
            key,
            document,
        );
        self.epoch = self.epoch + 1;
        R::emit_event(Op::Delete, self.epoch, key, document);
    }

    /// Removes the document under a key, as it is stored; tells whether
    /// there was one.
    pub fn delete_by_pkey(&mut self, key: &K) -> (r: bool)
        requires
            old(self).wf(),
            crate::rows::readable_at::<R>(
                old(self).contents(),
                primary_front::<R>() + key.bytes(),
            ),
            old(self).epoch() < u64::MAX,
        ensures
            final(self).wf(),
            match crate::rows::found::<R>(
                old(self).contents(),
                primary_front::<R>() + key.bytes(),
                true,
            ) {
                Some(d) => r && final(self).epoch() == old(self).epoch() + 1
                    && R::announced(Op::Delete, final(self).epoch(), key.bytes(), d)
                    && final(self).contents() == crate::rows::delete_result::<R>(
                    old(self).contents(),
                    crate::index::header_bytes::<R>(),
                    primary_front::<R>(),
                    key.bytes(),
                    d,
                ),
                None => !r && *final(self) == *old(self),
            },
    {
        match self.get(key) {
            Some(document) => {
                self.delete(key, &document);
                true
            },
            None => false,
        }
    }

    /// The document under a key, with the documents embedded in it.
    pub fn get(&self, key: &K) -> (r: Option<R>)
        requires
            crate::rows::readable_at::<R>(self.contents(), primary_front::<R>() + key.bytes()),
        ensures
            crate::rows::opt_model(r) == crate::rows::found::<R>(
                self.contents(),
                primary_front::<R>() + key.bytes(),
                true,
            ),
    {
        let front = self.primary();
        get_row::<S, R>(&self.inner.store, front.as_slice(), key, true)
    }

    /// The rows of all entries whose sorted fields begin with `encoded`, in
    /// entry order. Where entries hold only part of a key there is no
    /// document.
    pub fn scan<I: KvIndex<Document = R>>(&self, encoded: &[u8]) -> (r: Vec<
        (PrefixKey<K>, Option<R>),
    >)
        requires
            crate::rows::all_readable::<R>(self.contents(), primary_front::<R>()),
            forall|i: int|
                0 <= i < crate::engine::storage::prefix_suffixes(
                    self.contents(),
                    crate::index::header_bytes::<R>() + I::slot() + encoded@,
                ).len() ==> crate::index::tail_width::<I>() <= (
                #[trigger] crate::engine::storage::prefix_suffixes(
                    self.contents(),
                    crate::index::header_bytes::<R>() + I::slot() + encoded@,
                )[i]).len(),
        ensures
            crate::rows::row_views::<R>(r@) == crate::engine::storage::prefix_suffixes(
                self.contents(),
                crate::index::header_bytes::<R>() + I::slot() + encoded@,
            ).map_values(
                |s: Seq<u8>|
                    crate::rows::row_at::<R>(
                        self.contents(),
                        primary_front::<R>(),
                        s,
                        crate::index::tail_width::<I>(),
                        true,
                    ),
            ),
    {
        let header = table_header::<R>();
        let front = self.primary();
        scan_rows::<S, R, I>(
            &self.inner.store,
            header.as_slice(),
            front.as_slice(),
            encoded,
            true,
        )
    }

    /// The rows of an access method whose entries lie in `[begin, end)`,
    /// where both are stored forms of leading sorted fields, pulled one by
    /// one. Without an end the range ends with the access method.
    pub fn scan_range_iter<'a, I: KvIndex<Document = R>>(
        &'a self,
        begin: &[u8],
        end: Option<&[u8]>,
    ) -> (r: DocumentScan<'a, S, K, R>)
        requires
            crate::rows::all_readable::<R>(self.contents(), primary_front::<R>()),
            crate::index::header_bytes::<R>().len() + I::slot().len() + begin@.len() <= usize::MAX,
        ensures
            r.wf(),
            r.rest() == long_tails(
                crate::engine::storage::range_keys(
                    self.contents(),
                    crate::index::header_bytes::<R>() + I::slot() + begin@,
                    range_end(
                        crate::index::header_bytes::<R>() + I::slot(),
                        crate::engine::storage::bound_view(end),
                    ),
                ),
                (crate::index::header_bytes::<R>() + I::slot() + begin@).len(),
                crate::index::tail_width::<I>(),
            ).map_values(
                |s: Seq<u8>|
                    crate::rows::row_at::<R>(
                        self.contents(),
                        primary_front::<R>(),
                        s,
                        crate::index::tail_width::<I>(),
                        true,
                    ),
            ),
    {
        let header = table_header::<R>();
        let b = entry_prefix::<I>(header.as_slice(), begin);
        let none: Vec<u8> = Vec::new();
        let whole = entry_prefix::<I>(header.as_slice(), none.as_slice());
        proof {
            assert(none@ =~= Seq::empty());
            assert(whole@ =~= crate::index::header_bytes::<R>() + I::slot());
        }
        let e: Option<Vec<u8>> = match end {
            Some(x) => Some(concat(whole.as_slice(), x)),
            None => prefix_end(whole.as_slice()),
        };
        let it = self.inner.store.scan_range_iter(b.as_slice(), as_bound(&e));
        let taken: usize = key_prefix_width::<I>();
        let front = self.primary();
        let r: DocumentScan<'a, S, K, R> = DocumentScan {
            store: &self.inner.store,
            it,
            front,
            from: b.len(),
            taken,
            _marker: PhantomData,
        };
        proof {
            let ks = crate::engine::storage::range_keys(
                self.contents(),
                b@,
                range_end(whole@, crate::engine::storage::bound_view(end)),
            );
            assert(crate::index::keys_of(r.it@) =~= ks);
            assert(r.rest() =~= long_tails(
                ks,
                b@.len(),
                crate::index::tail_width::<I>(),
            ).map_values(
                |s: Seq<u8>|
                    crate::rows::row_at::<R>(
                        self.contents(),
                        primary_front::<R>(),
                        s,
                        crate::index::tail_width::<I>(),
                        true,
                    ),
            ));
        }
        r
    }

    /// The rows of an access method whose entries lie in `[begin, end)`,
    /// where both are stored forms of leading sorted fields, in entry order.
    /// Without an end the range ends with the access method.
    pub fn scan_range<I: KvIndex<Document = R>>(&self, begin: &[u8], end: Option<&[u8]>) -> (r: Vec<
        (PrefixKey<K>, Option<R>),
    >)
        requires
            crate::rows::all_readable::<R>(self.contents(), primary_front::<R>()),
            crate::index::header_bytes::<R>().len() + I::slot().len() + begin@.len() <= usize::MAX,
        ensures
            crate::rows::row_views::<R>(r@) == long_tails(
                crate::engine::storage::range_keys(
                    self.contents(),
                    crate::index::header_bytes::<R>() + I::slot() + begin@,
                    range_end(
                        crate::index::header_bytes::<R>() + I::slot(),
                        crate::engine::storage::bound_view(end),
                    ),
                ),
                (crate::index::header_bytes::<R>() + I::slot() + begin@).len(),
                crate::index::tail_width::<I>(),
            ).map_values(
                |s: Seq<u8>|
                    crate::rows::row_at::<R>(
                        self.contents(),
                        primary_front::<R>(),
                        s,
                        crate::index::tail_width::<I>(),
                        true,
                    ),
            ),
    {
        let mut it = self.scan_range_iter::<I>(begin, end);
        let ghost all = it.rest();
        let mut out: Vec<(PrefixKey<K>, Option<R>)> = Vec::new();
        let mut more: bool = true;
        assert(crate::rows::row_views::<R>(out@) + it.rest() =~= all);
        while more
            invariant
                it.wf(),
                crate::rows::row_views::<R>(out@) + it.rest() == all,
                !more ==> it.rest().len() == 0,
            decreases it.rest().len(), (if more { 1int } else { 0int }),
        {
            let ghost before = crate::rows::row_views::<R>(out@);
            let ghost left = it.rest();
            match it.next() {
                Some(row) => {
                    let ghost rv = (
                        row.0.decoded.bytes(),
                        row.0.taken as nat,
                        crate::rows::opt_model(row.1),
                    );
                    out.push(row);
                    proof {
                        assert(crate::rows::row_views::<R>(out@) =~= before.push(rv));
                        assert(left =~= seq![rv] + it.rest());
                        assert(before.push(rv) + it.rest() =~= before + left);
                    }
                },
                None => {
                    proof {
                        assert(left =~= it.rest());
                    }
                    more = false;
                },
            }
        }
        assert(crate::rows::row_views::<R>(out@) =~= all);
        out
    }

    /// The keys of all entries whose sorted fields begin with `encoded`,
    /// with the covered fields, in entry order.
    pub fn scan_covered<I: KvIndex<Document = R>>(&self, encoded: &[u8]) -> (r: Vec<
        (PrefixKey<K>, Vec<u8>),
    >)
        requires
            forall|i: int|
                0 <= i < crate::engine::storage::prefix_suffix_pairs(
                    self.contents(),
                    crate::index::header_bytes::<R>() + I::slot() + encoded@,
                ).len() ==> crate::index::tail_width::<I>() <= (
                #[trigger] crate::engine::storage::prefix_suffix_pairs(
                    self.contents(),
                    crate::index::header_bytes::<R>() + I::slot() + encoded@,
                )[i]).0.len(),
        ensures
            r@.map_values(
                |p: (PrefixKey<K>, Vec<u8>)| (p.0.decoded.bytes(), p.0.taken as nat, p.1@),
            ) == crate::engine::storage::prefix_suffix_pairs(
                self.contents(),
                crate::index::header_bytes::<R>() + I::slot() + encoded@,
            ).map_values(
                |s: (Seq<u8>, Seq<u8>)|
                    (
                        crate::index::tail_key::<K>(s.0, crate::index::tail_width::<I>()),
                        crate::index::tail_width::<I>(),
                        s.1,
                    ),
            ),
    {
        let header = table_header::<R>();
        let ghost all = crate::engine::storage::prefix_suffix_pairs(
            self.contents(),
            crate::index::header_bytes::<R>() + I::slot() + encoded@,
        );
        assert forall|i: int| 0 <= i < all.len() implies crate::index::tail_width::<I>() <= (
        #[trigger] all[i]).0.len() by {
            assert(crate::index::tail_width::<I>()
                <= crate::engine::storage::prefix_suffix_pairs(
                self.contents(),
                crate::index::header_bytes::<R>() + I::slot() + encoded@,
            )[i].0.len());
        }
        scan_covering::<S, I>(&self.inner.store, header.as_slice(), encoded)
    }

    /// The stored form of all keys with their payloads, in key order.
    pub fn scan_documents_raw(&self) -> (r: Vec<(Vec<u8>, Vec<u8>)>)
        ensures
            crate::engine::storage::pair_views(r@) == crate::engine::storage::prefix_suffix_pairs(
                self.contents(),
                primary_front::<R>(),
            ),
    {
        let front = self.primary();
        scan_suffix_kv(&self.inner.store, front.as_slice())
    }

    /// Removes the entries that access methods no longer in use have left
    /// behind; tells how many there were.
    pub fn prune_deprecated_slots(&mut self) -> (r: usize)
        requires
            old(self).wf(),
            crate::rows::retired_keys(
                old(self).contents(),
                crate::index::header_bytes::<R>(),
                R::retired(),
            ).len() <= usize::MAX,
        ensures
            final(self).wf(),
            final(self).epoch() == old(self).epoch(),
            final(self).contents() == crate::index::del_keys(
                old(self).contents(),
                crate::rows::retired_keys(
                    old(self).contents(),
                    crate::index::header_bytes::<R>(),
                    R::retired(),
                ),
            ),
            r == crate::rows::retired_keys(
                old(self).contents(),
                crate::index::header_bytes::<R>(),
                R::retired(),
            ).len(),
    {
        let header = table_header::<R>();
        let slots = R::retired_slots();
        prune_slots(&mut self.inner.store, header.as_slice(), &slots)
    }

    /// The keys of all documents, in key order.
    pub fn scan_keys(&self) -> (r: Vec<K>)
        requires
            forall|i: int|
                0 <= i < crate::engine::storage::prefix_suffixes(
                    self.contents(),
                    primary_front::<R>(),
                ).len() ==> K::KEY_LEN <= (#[trigger] crate::engine::storage::prefix_suffixes(
                    self.contents(),
                    primary_front::<R>(),
                )[i]).len(),
        ensures
            r@.map_values(|k: K| k.bytes()) == crate::engine::storage::prefix_suffixes(
                self.contents(),
                primary_front::<R>(),
            ).map_values(|s: Seq<u8>| K::canon(s.skip(s.len() - K::KEY_LEN))),
    {
        let front = self.primary();
        let ghost all = crate::engine::storage::prefix_suffixes(
            self.contents(),
            primary_front::<R>(),
        );
        assert forall|i: int| 0 <= i < all.len() implies K::KEY_LEN <= (#[trigger] all[i]).len() by {
            assert(K::KEY_LEN <= crate::engine::storage::prefix_suffixes(
                self.contents(),
                primary_front::<R>(),
            )[i].len());
        }
        scan_row_keys::<S, K>(&self.inner.store, front.as_slice())
    }
}

/// Puts fields over others.
pub fn overlay_fields(base: &mut FieldMap, over: &FieldMap)
    ensures
        final(base)@ == overlay(old(base)@, over@),
{
    let ghost all = over@;
    let ghost start = base@;
    let mut i: usize = 0;
    assert(all.take(0) =~= Seq::empty());
    while i < over.len()
        invariant
            i <= over@.len(),
            all == over@,
            base@ == overlay(start, all.take(i as int)),
        decreases over@.len() - i,
    {
        proof {
            assert(all.take(i + 1).drop_last() =~= all.take(i as int));
            assert(all.take(i + 1).last() == all[i as int]);
        }
        let (name, value) = over.entry(i);
        base.insert(String::from_str(name), copy_value(value));
        i = i + 1;
    }
    assert(all.take(i as int) =~= all);
}

/// Whether a list of declared fields has one of this name.
pub fn has_name(fields: &Vec<FieldDesc>, name: &str) -> (r: bool)
    ensures
        r == (exists|i: int|
            0 <= i < crate::field::field_list(fields@).len() && (
            #[trigger] crate::field::field_list(fields@)[i]).name == name@),
{
    let mut i: usize = 0;
    while i < fields.len()
        invariant
            i <= fields@.len(),
            forall|j: int|
                0 <= j < i ==> (#[trigger] crate::field::field_list(fields@)[j]).name != name@,
        decreases fields@.len() - i,
    {
        if str_eq(fields[i].name, name) {
            assert(crate::field::field_list(fields@)[i as int].name == name@);
            return true;
        }
        i = i + 1;
    }
    false
}

/// The declared fields among others, or the rest.
fn take_part<R: Document>(fields: &FieldMap, declared: bool) -> (r: FieldMap)
    ensures
        r@ == part_of::<R>(fields@, declared),
{
    let names = R::fields();
    let ghost all = fields@;
    let mut out = FieldMap::new();
    let mut i: usize = 0;
    assert(all.take(0) =~= Seq::empty());
    while i < fields.len()
        invariant
            i <= fields@.len(),
            all == fields@,
            crate::field::field_list(names@) == R::declared(),
            out@ == part_of::<R>(all.take(i as int), declared),
        decreases fields@.len() - i,
    {
        proof {
            assert(all.take(i + 1).drop_last() =~= all.take(i as int));
            assert(all.take(i + 1).last() == all[i as int]);
        }
        let (name, value) = fields.entry(i);
        if has_name(&names, name) == declared {
            out.insert(String::from_str(name), copy_value(value));
        }
        i = i + 1;
    }
    assert(all.take(i as int) =~= all);
    out
}

impl<S: VirtualStorage, K: KeyEncode, R: Document<Key = K>> Collection<S, K, R> {
    /// The key of the undeclared fields of a document.
    fn fields_key(&self, key: &K) -> (r: Vec<u8>)
        ensures
            r@ == fields_front::<R>() + key.bytes(),
    {
        let header = table_header::<R>();
        let enc = key.encode();
        proof {
            crate::model::index::lemma_slot_key(
                crate::index::header_bytes::<R>(),
                DYNAMIC_SLOT,
                DYNAMIC_SLOT,
                key.bytes(),
                key.bytes(),
            );
        }
        make_key(header.as_slice(), DYNAMIC_SLOT, enc.as_slice())
    }

    /// The undeclared fields of a document by name. `None` if it has none.
    /// A field whose name the dictionary does not know is dropped.
    pub fn get_fields(&self, key: &K) -> (r: Option<FieldMap>)
        requires
            self.wf(),
        ensures
            match r {
                Some(fields) => fields_at::<R>(self.contents(), key.bytes()) == Some(fields@),
                None => fields_at::<R>(self.contents(), key.bytes()) is None,
            },
    {
        let k = self.fields_key(key);
        match self.inner.store.get(k.as_slice()) {
            None => None,
            Some(raw) => {
                let mut names = StoreNames::new(
                    &self.inner.store,
                    self.inner.ids.as_slice(),
                    self.inner.names.as_slice(),
                );
                let frames = decode_named(raw.as_slice(), &mut names);
                if frames.len() == 0 {
                    return None;
                }
                Some(decode_doc(raw.as_slice(), &mut names))
            },
        }
    }

    /// Replaces the undeclared fields of a document.
    fn write_fields(&mut self, key: &K, fields: &FieldMap)
        requires
            old(self).wf(),
            can_write_fields::<R>(old(self).contents(), fields@),
        ensures
            final(self).wf(),
            final(self).epoch() == old(self).epoch(),
            fields_written::<S, R>(
                old(self).contents(),
                key.bytes(),
                fields@,
                final(self).contents(),
            ),
    {
        let k = self.fields_key(key);
        let ghost m = self.contents();
        let ghost s = names_on::<R>(m);
        let ghost order = crate::model::obj_dynamic::fields_names(fields@);
        let mut names = PendingNames::new(
            &self.inner.store,
            self.inner.ids.as_slice(),
            self.inner.names.as_slice(),
        );
        assert(names.state() =~= s);
        let ghost none = names.world();
        let body = encode_fields(fields, &mut names);
        proof {
            crate::model::obj_dict::lemma_pending_growth(s, order, none, names.world());
            assert(names.world() =~= crate::model::obj_dict::growth(s, order));
        }
        store_entry(&mut self.inner.store, names, k, body);
    }

    /// Replaces the undeclared fields of a document: fields that are not
    /// given are gone. Names seen for the first time get a number, which is
    /// stored in one batch with the fields.
    pub fn put_fields(&mut self, key: &K, fields: &FieldMap)
        requires
            old(self).wf(),
            old(self).epoch() < u64::MAX,
            can_write_fields::<R>(old(self).contents(), fields@),
        ensures
            final(self).wf(),
            final(self).epoch() == old(self).epoch() + 1,
            fields_written::<S, R>(
                old(self).contents(),
                key.bytes(),
                fields@,
                final(self).contents(),
            ),
    {
        self.write_fields(key, fields);
        self.epoch = self.epoch + 1;
    }

    /// The whole document by name: the undeclared fields with the declared
    /// ones put over them. `None` without a document.
    pub fn get_document(&self, key: &K) -> (r: Option<FieldMap>)
        requires
            self.wf(),
            crate::rows::readable_at::<R>(self.contents(), primary_front::<R>() + key.bytes()),
        ensures
            match crate::rows::found::<R>(
                self.contents(),
                primary_front::<R>() + key.bytes(),
                true,
            ) {
                Some(d) => r is Some && r->0@ == overlay(
                    match fields_at::<R>(self.contents(), key.bytes()) {
                        Some(f) => f,
                        None => Seq::empty(),
                    },
                    R::mapped(d),
                ),
                None => r is None,
            },
    {
        match self.get(key) {
            None => None,
            Some(document) => {
                let mut out = match self.get_fields(key) {
                    Some(f) => f,
                    None => FieldMap::new(),
                };
                let typed = document.to_map();
                overlay_fields(&mut out, &typed);
                Some(out)
            },
        }
    }

    /// Writes a whole document by name. Fields that documents declare are
    /// put over those of the stored document, or over the defaults, and the
    /// result is written like any document; the others become its undeclared
    /// fields. One call is one write.
    pub fn put_document(&mut self, key: &K, object: &FieldMap)
        requires
            old(self).wf(),
            old(self).epoch() < u64::MAX,
            crate::rows::readable_at::<R>(
                old(self).contents(),
                primary_front::<R>() + key.bytes(),
            ),
            part_of::<R>(object@, true).len() > 0 ==> R::storable(
                patched::<R>(
                    crate::rows::found::<R>(
                        old(self).contents(),
                        primary_front::<R>() + key.bytes(),
                        true,
                    ),
                    part_of::<R>(object@, true),
                ),
            ),
            can_write_fields::<R>(
                typed_written::<R>(old(self).contents(), key.bytes(), object@),
                part_of::<R>(object@, false),
            ),
        ensures
            final(self).wf(),
            final(self).epoch() == old(self).epoch() + 1,
            part_of::<R>(object@, true).len() > 0 ==> R::announced(
                Op::Put,
                final(self).epoch(),
                key.bytes(),
                patched::<R>(
                    crate::rows::found::<R>(
                        old(self).contents(),
                        primary_front::<R>() + key.bytes(),
                        true,
                    ),
                    part_of::<R>(object@, true),
                ),
            ),
            fields_written::<S, R>(
                typed_written::<R>(old(self).contents(), key.bytes(), object@),
                key.bytes(),
                part_of::<R>(object@, false),
                final(self).contents(),
            ),
    {
        let typed = take_part::<R>(object, true);
        let dynamic = take_part::<R>(object, false);
        if typed.is_empty() {
            self.epoch = self.epoch + 1;
        } else {
            let base = match self.get(key) {
                Some(d) => d,
                None => {
                    let none = FieldMap::new();
                    R::from_map(&none)
                },
            };
            let mut merged = base.to_map();
            overlay_fields(&mut merged, &typed);
            let document = R::from_map(&merged);
            self.put(key, &document);
        }
        self.write_fields(key, &dynamic);
    }

    /// Removes the undeclared fields of a document; tells whether there were
    /// any.
    pub fn delete_fields(&mut self, key: &K) -> (r: bool)
        requires
            old(self).wf(),
            old(self).epoch() < u64::MAX,
        ensures
            final(self).wf(),
            r == old(self).contents().dom().contains(fields_front::<R>() + key.bytes()),
            final(self).contents() == old(self).contents().remove(
                fields_front::<R>() + key.bytes(),
            ),
            final(self).epoch() == old(self).epoch() + (if r { 1int } else { 0int }),
    {
        let k = self.fields_key(key);
        if self.inner.store.get(k.as_slice()).is_some() {
            self.inner.store.del(k.as_slice());
            self.epoch = self.epoch + 1;
            true
        } else {
            assert(self.contents() =~= self.contents().remove(k@));
            false
        }
    }

    /// Removes a whole document, undeclared fields and all; tells whether
    /// there was anything.
    pub fn delete_document(&mut self, key: &K) -> (r: bool)
        requires
            old(self).wf(),
            old(self).epoch() < u64::MAX - 1,
            crate::rows::readable_at::<R>(
                old(self).contents(),
                primary_front::<R>() + key.bytes(),
            ),
        ensures
            final(self).wf(),
            ({
                let m = old(self).contents().remove(fields_front::<R>() + key.bytes());
                let had = old(self).contents().dom().contains(fields_front::<R>() + key.bytes());
                let bump = if had {
                    1int
                } else {
                    0int
                };
                match crate::rows::found::<R>(m, primary_front::<R>() + key.bytes(), true) {
                    Some(d) => r && final(self).epoch() == old(self).epoch() + bump + 1
                        && R::announced(Op::Delete, final(self).epoch(), key.bytes(), d)
                        && final(self).contents() == crate::rows::delete_result::<R>(
                        m,
                        crate::index::header_bytes::<R>(),
                        primary_front::<R>(),
                        key.bytes(),
                        d,
                    ),
                    None => r == had && final(self).epoch() == old(self).epoch() + bump
                        && final(self).contents() == m,
                }
            }),
    {
        let fields_gone = self.delete_fields(key);
        let primary_gone = self.delete_by_pkey(key);
        fields_gone || primary_gone
    }
}

/// A key behind the payload front is no key of another slot of the
/// collection.
proof fn lemma_primary_apart<R: Document>(key: Seq<u8>)
    ensures
        !crate::index::declared_key(crate::index::header_bytes::<R>(), primary_front::<R>() + key),
        !crate::index::declared_key(crate::index::header_bytes::<R>(), fields_front::<R>() + key),
{
    let h = crate::index::header_bytes::<R>();
    let p = primary_front::<R>() + key;
    let f = fields_front::<R>() + key;
    crate::bytes::lemma_high_byte(PRIMARY_SLOT as nat);
    crate::bytes::lemma_high_byte(DYNAMIC_SLOT as nat);
    lemma_low_slot(PRIMARY_SLOT);
    lemma_low_slot(DYNAMIC_SLOT);
    assert(p[h.len() as int] == crate::model::index::slot_bytes(PRIMARY_SLOT)[0]);
    assert(f[h.len() as int] == crate::model::index::slot_bytes(DYNAMIC_SLOT)[0]);
}

/// The first byte of a low slot is zero.
proof fn lemma_low_slot(slot: u16)
    requires
        slot < 0x100,
    ensures
        crate::model::index::slot_bytes(slot).len() == 2,
        crate::model::index::slot_bytes(slot)[0] == 0,
{
    let b = crate::model::index::slot_bytes(slot);
    crate::bytes::lemma_be_bytes_len(slot as nat, 2);
    crate::bytes::lemma_pow256_small();
    crate::bytes::lemma_be_round_trip(slot as nat, 2);
    reveal_with_fuel(crate::bytes::be_value, 3);
    assert(b.drop_last().drop_last() =~= Seq::empty());
    assert(b.drop_last().last() == b[0]);
    assert(crate::bytes::be_value(b) == 256 * (b[0] as nat) + b[1] as nat);
}

/// Embedded documents stand outside the payloads of the collection itself,
/// at least away from this one.
pub open spec fn embeds_elsewhere<R: Document>(
    d: R::Model,
    prev: Option<R::Model>,
    pkey: Seq<u8>,
) -> bool {
    &&& forall|i: int| 0 <= i < R::embeds(d).len() ==> (#[trigger] R::embeds(d)[i]).0 != pkey
    &&& prev is Some ==> !R::embedded(prev->0).contains(pkey)
}

/// Writing a document stores its payload under its key and leaves every
/// other payload as it was, as far as embedded documents stand elsewhere.
pub proof fn law_put_stores<R: Document>(
    m: crate::engine::storage::Contents,
    key: Seq<u8>,
    d: R::Model,
    other: Seq<u8>,
)
    requires
        embeds_elsewhere::<R>(
            d,
            crate::rows::stored::<R>(m, primary_front::<R>() + key),
            primary_front::<R>() + key,
        ),
        embeds_elsewhere::<R>(
            d,
            crate::rows::stored::<R>(m, primary_front::<R>() + key),
            primary_front::<R>() + other,
        ),
    ensures
        ({
            let p = primary_front::<R>();
            let m2 = crate::rows::put_result::<R>(m, crate::index::header_bytes::<R>(), p, key, d, true);
            &&& m2.dom().contains(p + key)
            &&& m2[p + key] == R::payload(d)
            &&& other != key ==> m2.dom().contains(p + other) == m.dom().contains(p + other)
            &&& other != key && m.dom().contains(p + other) ==> m2[p + other] == m[p + other]
        }),
{
    let h = crate::index::header_bytes::<R>();
    let p = primary_front::<R>();
    let prev = crate::rows::stored::<R>(m, p + key);
    let m0 = crate::rows::unfolded::<R>(m, h, key, prev);
    let m1 = m0.insert(p + key, R::payload(d));
    let m2 = crate::index::put_pairs(m1, R::entries(key, d, h));
    let m3 = crate::rows::embeds_kept::<R>(m2, d, prev);
    lemma_put_path::<R>(m, key, d, key);
    lemma_put_path::<R>(m, key, d, other);
    assert(other != key ==> p + other != p + key) by {
        assert((p + other).skip(p.len() as int) =~= other);
        assert((p + key).skip(p.len() as int) =~= key);
    }
}

/// What becomes of one payload on the way of a write.
proof fn lemma_put_path<R: Document>(
    m: crate::engine::storage::Contents,
    key: Seq<u8>,
    d: R::Model,
    at: Seq<u8>,
)
    requires
        embeds_elsewhere::<R>(
            d,
            crate::rows::stored::<R>(m, primary_front::<R>() + key),
            primary_front::<R>() + at,
        ),
    ensures
        ({
            let p = primary_front::<R>();
            let m1 = m.insert(p + key, R::payload(d));
            let m2 = crate::rows::put_result::<R>(m, crate::index::header_bytes::<R>(), p, key, d, true);
            &&& m2.dom().contains(p + at) == m1.dom().contains(p + at)
            &&& m1.dom().contains(p + at) ==> m2[p + at] == m1[p + at]
        }),
{
    let h = crate::index::header_bytes::<R>();
    let p = primary_front::<R>();
    let k = p + at;
    let prev = crate::rows::stored::<R>(m, p + key);
    let m0 = crate::rows::unfolded::<R>(m, h, key, prev);
    let m1 = m0.insert(p + key, R::payload(d));
    let entries = R::entries(key, d, h);
    let m2 = crate::index::put_pairs(m1, entries);
    let written = crate::index::put_pairs(m2, R::embeds(d));
    let m3 = crate::rows::embeds_kept::<R>(m2, d, prev);
    lemma_primary_apart::<R>(at);
    if prev is Some {
        R::keeps_to_slots(m, key, prev->0, h, false);
    }
    assert(m0.dom().contains(k) == m.dom().contains(k));
    R::keeps_to_slots(m3, key, d, h, true);
    assert forall|i: int| 0 <= i < entries.len() implies (#[trigger] entries[i]).0 != k by {
        assert(crate::index::declared_key(h, R::entries(key, d, h)[i].0));
    }
    crate::index::lemma_put_pairs_elsewhere(m1, entries, k);
    crate::index::lemma_put_pairs_elsewhere(m2, R::embeds(d), k);
    if prev is Some {
        let stale = crate::index::stale_keys(R::embedded(prev->0), R::embedded(d));
        crate::index::lemma_del_keys(written, stale, k);
        crate::index::lemma_stale_keys(R::embedded(prev->0), R::embedded(d), k);
    }
    assert(m3.dom().contains(k) == m1.dom().contains(k));
    assert(R::reduced(m3, key, d, h, true).dom().contains(k) == m3.dom().contains(k));
}

/// A document that was written is found again as it was, with embedded
/// documents fetched anew.
pub proof fn law_get_after_put<R: Document>(
    m: crate::engine::storage::Contents,
    key: Seq<u8>,
    d: R::Model,
)
    requires
        R::storable(d),
        embeds_elsewhere::<R>(
            d,
            crate::rows::stored::<R>(m, primary_front::<R>() + key),
            primary_front::<R>() + key,
        ),
    ensures
        ({
            let p = primary_front::<R>();
            let m2 = crate::rows::put_result::<R>(m, crate::index::header_bytes::<R>(), p, key, d, true);
            &&& crate::rows::readable_at::<R>(m2, p + key)
            &&& crate::rows::stored::<R>(m2, p + key) == Some(R::bare(d))
            &&& crate::rows::found::<R>(m2, p + key, true) == Some(
                R::dereferenced(R::bare(d), m2),
            )
        }),
{
    law_put_stores::<R>(m, key, d, key);
    R::reads_back(d);
}

/// After a document has been removed there is none under its key, and every
/// other payload is as it was.
pub proof fn law_delete_is_gone<R: Document>(
    m: crate::engine::storage::Contents,
    key: Seq<u8>,
    d: R::Model,
    other: Seq<u8>,
)
    ensures
        ({
            let p = primary_front::<R>();
            let m2 = crate::rows::delete_result::<R>(m, crate::index::header_bytes::<R>(), p, key, d);
            &&& crate::rows::found::<R>(m2, p + key, true) is None
            &&& other != key ==> m2.dom().contains(p + other) == m.dom().contains(p + other)
            &&& other != key && m.dom().contains(p + other) ==> m2[p + other] == m[p + other]
        }),
{
    let h = crate::index::header_bytes::<R>();
    let p = primary_front::<R>();
    let keys = crate::index::keys_of(R::entries(key, d, h));
    let m1 = m.remove(p + key);
    let m2 = crate::index::del_keys(m1, keys);
    R::keeps_to_slots(m2, key, d, h, false);
    lemma_primary_apart::<R>(key);
    lemma_primary_apart::<R>(other);
    crate::index::lemma_del_keys(m1, keys, p + key);
    crate::index::lemma_del_keys(m1, keys, p + other);
    assert(R::reduced(m2, key, d, h, false).dom().contains(p + key) == m2.dom().contains(p + key));
    assert(R::reduced(m2, key, d, h, false).dom().contains(p + other) == m2.dom().contains(
        p + other,
    ));
    if keys.contains(p + other) {
        let i = choose|i: int| 0 <= i < keys.len() && keys[i] == p + other;
        assert(crate::index::declared_key(h, R::entries(key, d, h)[i].0));
    }
    assert(other != key ==> p + other != p + key) by {
        assert((p + other).skip(p.len() as int) =~= other);
        assert((p + key).skip(p.len() as int) =~= key);
    }
}

/// The entries of a document are there after it has been written, so that
/// its access methods find it. This is where no two entries share a key, and
/// embedded documents and groups stand apart from them.
pub proof fn law_put_is_indexed<R: Document>(
    m: crate::engine::storage::Contents,
    key: Seq<u8>,
    d: R::Model,
    at: int,
)
    requires
        0 <= at < R::entries(key, d, crate::index::header_bytes::<R>()).len(),
        forall|i: int|
            at < i < R::entries(key, d, crate::index::header_bytes::<R>()).len() ==> (#[trigger] R::entries(
                key,
                d,
                crate::index::header_bytes::<R>(),
            )[i]).0 != R::entries(key, d, crate::index::header_bytes::<R>())[at].0,
        embeds_elsewhere::<R>(
            d,
            crate::rows::stored::<R>(m, primary_front::<R>() + key),
            R::entries(key, d, crate::index::header_bytes::<R>())[at].0,
        ),
        forall|w: crate::engine::storage::Contents|
            w.dom().contains(R::entries(key, d, crate::index::header_bytes::<R>())[at].0) ==> {
                let k = R::entries(key, d, crate::index::header_bytes::<R>())[at].0;
                let w2 = #[trigger] R::reduced(w, key, d, crate::index::header_bytes::<R>(), true);
                w2.dom().contains(k) && w2[k] == w[k]
            },
    ensures
        ({
            let (k, v) = R::entries(key, d, crate::index::header_bytes::<R>())[at];
            let m2 = crate::rows::put_result::<R>(
                m,
                crate::index::header_bytes::<R>(),
                primary_front::<R>(),
                key,
                d,
                true,
            );
            m2.dom().contains(k) && m2[k] == v
        }),
{
    let h = crate::index::header_bytes::<R>();
    let p = primary_front::<R>();
    let prev = crate::rows::stored::<R>(m, p + key);
    let m1 = crate::rows::unfolded::<R>(m, h, key, prev).insert(p + key, R::payload(d));
    let entries = R::entries(key, d, h);
    let (k, v) = entries[at];
    let m2 = crate::index::put_pairs(m1, entries);
    let written = crate::index::put_pairs(m2, R::embeds(d));
    let m3 = crate::rows::embeds_kept::<R>(m2, d, prev);
    crate::index::lemma_put_pairs_found(m1, entries, at);
    crate::index::lemma_put_pairs_elsewhere(m2, R::embeds(d), k);
    if prev is Some {
        let stale = crate::index::stale_keys(R::embedded(prev->0), R::embedded(d));
        crate::index::lemma_del_keys(written, stale, k);
        crate::index::lemma_stale_keys(R::embedded(prev->0), R::embedded(d), k);
    }
    assert(m3.dom().contains(k) && m3[k] == v);
}

/// Undeclared fields that were written are read back as they were, and none
/// are if none were written; the dictionary still tells the same on either
/// side. This is on engines that refuse no write, with a dictionary whose
/// two directions agree.
pub proof fn law_get_fields_after_put<S: VirtualStorage, R: Document>(
    m: crate::engine::storage::Contents,
    key: Seq<u8>,
    fields: Seq<(Seq<char>, crate::model::obj_dynamic::DynView)>,
    after: crate::engine::storage::Contents,
)
    requires
        S::never_refuses(),
        crate::model::obj_dict::in_sync(
            names_on::<R>(m).dict,
            m,
            crate::model::obj_dict::home(crate::index::header_bytes::<R>()),
        ),
        crate::model::obj_dynamic::names_sorted(fields),
        crate::model::obj_dynamic::canonical_fields(fields),
        can_write_fields::<R>(m, fields),
        fields_written::<S, R>(m, key, fields, after),
        crate::model::obj_dynamic::fields_bytes(
            fields,
            crate::model::obj_dynamic::steps::<PendingNames>(
                names_on::<R>(m),
                crate::model::obj_dynamic::fields_names(fields),
            ).dict.names,
        ).len() <= u64::MAX,
    ensures
        crate::model::obj_dict::in_sync(
            names_on::<R>(after).dict,
            after,
            crate::model::obj_dict::home(crate::index::header_bytes::<R>()),
        ),
        fields_at::<R>(after, key) == (if fields.len() == 0 {
            None
        } else {
            Some(fields)
        }),
{
    let s = names_on::<R>(m);
    let h = s.home;
    let order = crate::model::obj_dynamic::fields_names(fields);
    let end = crate::model::obj_dynamic::steps::<PendingNames>(s, order);
    let k = fields_front::<R>() + key;
    let first = crate::model::obj_dict::growth(s, order);
    let w = crate::engine::storage::apply_ops(m, first);
    crate::model::obj_dict::lemma_entry_last(
        m,
        first,
        k,
        crate::model::obj_dynamic::fields_bytes(fields, end.dict.names),
    );
    crate::model::obj_dict::lemma_home_apart(crate::index::header_bytes::<R>());
    crate::model::obj_dict::law_growth_keeps_sync(s, order, m);
    crate::model::obj_dynamic::law_steps_append::<PendingNames>(s, order);
    crate::model::index::lemma_slot_key(crate::index::header_bytes::<R>(), DYNAMIC_SLOT, DICT_ID_SLOT, key, key);
    crate::model::index::lemma_slot_key(crate::index::header_bytes::<R>(), DYNAMIC_SLOT, DICT_NAME_SLOT, key, key);
    crate::model::index::lemma_slot_key(crate::index::header_bytes::<R>(), DYNAMIC_SLOT, DYNAMIC_SLOT, key, key);
    crate::model::dynamic_collection::law_entry_round_trip(h, w, end.dict, k, fields);
}

/// Writing the undeclared fields of a document leaves every payload as it
/// was.
pub proof fn law_fields_spare_payloads<S: VirtualStorage, R: Document>(
    m: crate::engine::storage::Contents,
    key: Seq<u8>,
    fields: Seq<(Seq<char>, crate::model::obj_dynamic::DynView)>,
    after: crate::engine::storage::Contents,
    other: Seq<u8>,
)
    requires
        fields_written::<S, R>(m, key, fields, after),
    ensures
        after.dom().contains(primary_front::<R>() + other) == m.dom().contains(
            primary_front::<R>() + other,
        ),
        m.dom().contains(primary_front::<R>() + other) ==> after[primary_front::<R>() + other]
            == m[primary_front::<R>() + other],
{
    let s = names_on::<R>(m);
    let h = crate::index::header_bytes::<R>();
    let order = crate::model::obj_dynamic::fields_names(fields);
    let end = crate::model::obj_dynamic::steps::<PendingNames>(s, order);
    let k = fields_front::<R>() + key;
    let p = primary_front::<R>() + other;
    let first = crate::model::obj_dict::growth(s, order);
    crate::model::obj_dict::lemma_entry_last(
        m,
        first,
        k,
        crate::model::obj_dynamic::fields_bytes(fields, end.dict.names),
    );
    crate::model::index::lemma_slot_key(h, PRIMARY_SLOT, DICT_ID_SLOT, other, other);
    crate::model::index::lemma_slot_key(h, PRIMARY_SLOT, DICT_NAME_SLOT, other, other);
    crate::model::index::lemma_slot_key(h, PRIMARY_SLOT, DYNAMIC_SLOT, other, key);
    crate::model::index::lemma_slot_key(h, DYNAMIC_SLOT, PRIMARY_SLOT, key, other);
    assert(p == crate::model::index::slot_key(h, PRIMARY_SLOT, other));
    assert(k == crate::model::index::slot_key(h, DYNAMIC_SLOT, key));
    crate::model::obj_dict::law_growth_spares_others(s, order, m, p);
}

/// A part of fields is in order.
pub proof fn lemma_part_sorted<R: Document>(
    fields: Seq<(Seq<char>, crate::model::obj_dynamic::DynView)>,
    declared: bool,
)
    ensures
        crate::model::obj_dynamic::names_sorted(part_of::<R>(fields, declared)),
    decreases fields.len(),
{
    if fields.len() > 0 {
        lemma_part_sorted::<R>(fields.drop_last(), declared);
        crate::model::obj_dynamic::law_insert_field(
            part_of::<R>(fields.drop_last(), declared),
            fields.last().0,
            fields.last().1,
            fields.last().0,
        );
    }
}

/// Fields stay such as can be held when one is put among them.
proof fn lemma_insert_canonical(
    fields: Seq<(Seq<char>, crate::model::obj_dynamic::DynView)>,
    name: Seq<char>,
    value: crate::model::obj_dynamic::DynView,
)
    requires
        crate::model::obj_dynamic::canonical_fields(fields),
        crate::model::obj_dynamic::canonical(value),
    ensures
        crate::model::obj_dynamic::canonical_fields(
            crate::model::obj_dynamic::insert_field(fields, name, value),
        ),
    decreases fields.len(),
{
    let out = crate::model::obj_dynamic::insert_field(fields, name, value);
    if fields.len() == 0 {
        assert(out.drop_first() =~= fields);
    } else if fields[0].0 == name {
        assert(out.drop_first() =~= fields.drop_first());
    } else if crate::text::name_lt(fields[0].0, name) {
        lemma_insert_canonical(fields.drop_first(), name, value);
        assert(out.drop_first() =~= crate::model::obj_dynamic::insert_field(
            fields.drop_first(),
            name,
            value,
        ));
    } else {
        assert(out.drop_first() =~= fields);
    }
    assert(crate::model::obj_dynamic::canonical(out[0].1));
    assert(crate::model::obj_dynamic::canonical_fields(out.drop_first()));
}

/// The last field and those before it are such as can be held.
proof fn lemma_canonical_last(fields: Seq<(Seq<char>, crate::model::obj_dynamic::DynView)>)
    requires
        crate::model::obj_dynamic::canonical_fields(fields),
        fields.len() > 0,
    ensures
        crate::model::obj_dynamic::canonical_fields(fields.drop_last()),
        crate::model::obj_dynamic::canonical(fields.last().1),
    decreases fields.len(),
{
    if fields.len() > 1 {
        lemma_canonical_last(fields.drop_first());
        assert(fields.drop_first().last() == fields.last());
        assert(fields.drop_last().drop_first() =~= fields.drop_first().drop_last());
    }
}

/// A part of fields is such as can be held.
proof fn lemma_part_canonical<R: Document>(
    fields: Seq<(Seq<char>, crate::model::obj_dynamic::DynView)>,
    declared: bool,
)
    requires
        crate::model::obj_dynamic::canonical_fields(fields),
    ensures
        crate::model::obj_dynamic::canonical_fields(part_of::<R>(fields, declared)),
    decreases fields.len(),
{
    if fields.len() > 0 {
        lemma_canonical_last(fields);
        lemma_part_canonical::<R>(fields.drop_last(), declared);
        lemma_insert_canonical(
            part_of::<R>(fields.drop_last(), declared),
            fields.last().0,
            fields.last().1,
        );
    }
}

/// A document that was written by name reads back in both its parts: the
/// declared fields over those it had, and the other fields as they were
/// given. This is on engines that refuse no write, with a dictionary whose
/// two directions agree, and embedded documents that stand elsewhere.
pub proof fn law_get_document_after_put<S: VirtualStorage, R: Document>(
    m: crate::engine::storage::Contents,
    key: Seq<u8>,
    object: Seq<(Seq<char>, crate::model::obj_dynamic::DynView)>,
    after: crate::engine::storage::Contents,
)
    requires
        S::never_refuses(),
        crate::model::obj_dynamic::canonical_fields(object),
        ({
            let t = typed_written::<R>(m, key, object);
            let p = primary_front::<R>() + key;
            let typed = part_of::<R>(object, true);
            let rest = part_of::<R>(object, false);
            let d = patched::<R>(crate::rows::found::<R>(m, p, true), typed);
            &&& typed.len() > 0 ==> R::storable(d) && embeds_elsewhere::<R>(
                d,
                crate::rows::stored::<R>(m, p),
                p,
            )
            &&& crate::model::obj_dict::in_sync(
                names_on::<R>(t).dict,
                t,
                crate::model::obj_dict::home(crate::index::header_bytes::<R>()),
            )
            &&& can_write_fields::<R>(t, rest)
            &&& fields_written::<S, R>(t, key, rest, after)
            &&& crate::model::obj_dynamic::fields_bytes(
                rest,
                crate::model::obj_dynamic::steps::<PendingNames>(
                    names_on::<R>(t),
                    crate::model::obj_dynamic::fields_names(rest),
                ).dict.names,
            ).len() <= u64::MAX
        }),
    ensures
        ({
            let p = primary_front::<R>() + key;
            let typed = part_of::<R>(object, true);
            let rest = part_of::<R>(object, false);
            let d = patched::<R>(crate::rows::found::<R>(m, p, true), typed);
            &&& fields_at::<R>(after, key) == (if rest.len() == 0 {
                None
            } else {
                Some(rest)
            })
            &&& typed.len() > 0 ==> crate::rows::stored::<R>(after, p) == Some(R::bare(d))
            &&& typed.len() == 0 ==> crate::rows::stored::<R>(after, p) == crate::rows::stored::<R>(
                m,
                p,
            )
        }),
{
    let t = typed_written::<R>(m, key, object);
    let p = primary_front::<R>() + key;
    let typed = part_of::<R>(object, true);
    let rest = part_of::<R>(object, false);
    lemma_part_sorted::<R>(object, false);
    lemma_part_canonical::<R>(object, false);
    law_get_fields_after_put::<S, R>(t, key, rest, after);
    law_fields_spare_payloads::<S, R>(t, key, rest, after, key);
    if typed.len() > 0 {
        law_get_after_put::<R>(
            m,
            key,
            patched::<R>(crate::rows::found::<R>(m, p, true), typed),
        );
    }
}

/// Fields with others put over them are in order, hold the last value of
/// every name that is put over, and keep the others.
pub proof fn law_overlay_wins(
    base: Seq<(Seq<char>, crate::model::obj_dynamic::DynView)>,
    over: Seq<(Seq<char>, crate::model::obj_dynamic::DynView)>,
    name: Seq<char>,
    i: int,
)
    requires
        crate::model::obj_dynamic::names_sorted(base),
    ensures
        crate::model::obj_dynamic::names_sorted(overlay(base, over)),
        0 <= i < over.len() && over[i].0 == name && (forall|j: int|
            i < j < over.len() ==> (#[trigger] over[j]).0 != name)
            ==> crate::model::obj_dynamic::find_field(overlay(base, over), name) == Some(
            over[i].1,
        ),
        (forall|j: int| 0 <= j < over.len() ==> (#[trigger] over[j]).0 != name)
            ==> crate::model::obj_dynamic::find_field(overlay(base, over), name)
            == crate::model::obj_dynamic::find_field(base, name),
    decreases over.len(),
{
    if over.len() > 0 {
        let init = over.drop_last();
        let n = over.len() - 1;
        law_overlay_wins(base, init, name, i);
        crate::model::obj_dynamic::law_insert_field(
            overlay(base, init),
            over.last().0,
            over.last().1,
            name,
        );
        assert(over[n] == over.last());
        if 0 <= i < n && over[i].0 == name && (forall|j: int|
            i < j < over.len() ==> (#[trigger] over[j]).0 != name) {
            assert(over[n].0 != name);
            assert(init[i] == over[i]);
            assert forall|j: int| i < j < init.len() implies (#[trigger] init[j]).0 != name by {
                assert(init[j] == over[j]);
            }
        }
        if forall|j: int| 0 <= j < over.len() ==> (#[trigger] over[j]).0 != name {
            assert(over[n].0 != name);
            assert forall|j: int| 0 <= j < init.len() implies (#[trigger] init[j]).0 != name by {
                assert(init[j] == over[j]);
            }
        }
    }
}

/// Where the fields put over others are in order, a name is found in them
/// first and among the others then.
pub proof fn law_overlay_finds(
    base: Seq<(Seq<char>, crate::model::obj_dynamic::DynView)>,
    over: Seq<(Seq<char>, crate::model::obj_dynamic::DynView)>,
    name: Seq<char>,
)
    requires
        crate::model::obj_dynamic::names_sorted(base),
        crate::model::obj_dynamic::names_sorted(over),
    ensures
        crate::model::obj_dynamic::names_sorted(overlay(base, over)),
        crate::model::obj_dynamic::find_field(overlay(base, over), name) == (
        if crate::model::obj_dynamic::find_field(over, name) is Some {
            crate::model::obj_dynamic::find_field(over, name)
        } else {
            crate::model::obj_dynamic::find_field(base, name)
        }),
{
    if exists|i: int| 0 <= i < over.len() && (#[trigger] over[i]).0 == name {
        let i = choose|i: int| 0 <= i < over.len() && (#[trigger] over[i]).0 == name;
        assert forall|j: int| 0 <= j < over.len() && j != i implies (#[trigger] over[j]).0
            != name by {
            crate::text::lemma_name_order(over[i].0, over[j].0);
            if i < j {
                assert(crate::text::name_lt(over[i].0, over[j].0));
            } else {
                assert(crate::text::name_lt(over[j].0, over[i].0));
            }
        }
        crate::model::obj_dynamic::law_first_field_is_found(over, name, i);
        law_overlay_wins(base, over, name, i);
    } else {
        assert forall|j: int| 0 <= j < over.len() implies (#[trigger] over[j]).0 != name by {
        }
        crate::model::obj_dynamic::law_first_field_is_found(over, name, 0);
        law_overlay_wins(base, over, name, 0);
    }
}

/// Fields are parted by whether documents declare them: a declared name is
/// found in the declared part with the value that it has, and in the other
/// part not at all, and the other way round.
pub proof fn law_parts_by_declaration<R: Document>(
    fields: Seq<(Seq<char>, crate::model::obj_dynamic::DynView)>,
    declared: bool,
    name: Seq<char>,
)
    requires
        crate::model::obj_dynamic::names_sorted(fields),
    ensures
        crate::model::obj_dynamic::names_sorted(part_of::<R>(fields, declared)),
        crate::model::obj_dynamic::find_field(part_of::<R>(fields, declared), name) == (
        if is_declared::<R>(name) == declared {
            crate::model::obj_dynamic::find_field(fields, name)
        } else {
            None
        }),
    decreases fields.len(),
{
    lemma_part_sorted::<R>(fields, declared);
    if fields.len() > 0 {
        let init = fields.drop_last();
        let n = fields.len() - 1;
        let last = fields.last();
        assert(crate::model::obj_dynamic::names_sorted(init)) by {
            assert forall|i: int, j: int| 0 <= i < j < init.len() implies crate::text::name_lt(
                init[i].0,
                init[j].0,
            ) by {
                assert(crate::text::name_lt(fields[i].0, fields[j].0));
            }
        }
        law_parts_by_declaration::<R>(init, declared, name);
        lemma_part_sorted::<R>(init, declared);
        crate::model::obj_dynamic::law_insert_field(
            part_of::<R>(init, declared),
            last.0,
            last.1,
            name,
        );
        assert forall|i: int| 0 <= i < init.len() implies crate::text::name_lt(
            (#[trigger] init[i]).0,
            last.0,
        ) by {
            assert(crate::text::name_lt(fields[i].0, fields[n].0));
        }
        crate::model::obj_dynamic::lemma_insert_last(init, last.0, last.1);
        assert(init.push(last) =~= fields);
        crate::model::obj_dynamic::law_insert_field(init, last.0, last.1, name);
    }
}

/// The two parts of fields make up the fields.
pub proof fn law_parts_make_up_whole<R: Document>(
    fields: Seq<(Seq<char>, crate::model::obj_dynamic::DynView)>,
)
    requires
        crate::model::obj_dynamic::names_sorted(fields),
    ensures
        overlay(part_of::<R>(fields, false), part_of::<R>(fields, true)) == fields,
{
    let all = overlay(part_of::<R>(fields, false), part_of::<R>(fields, true));
    lemma_part_sorted::<R>(fields, false);
    lemma_part_sorted::<R>(fields, true);
    law_overlay_finds(part_of::<R>(fields, false), part_of::<R>(fields, true), Seq::empty());
    assert forall|name: Seq<char>| #[trigger]
        crate::model::obj_dynamic::find_field(all, name) == crate::model::obj_dynamic::find_field(
            fields,
            name,
        ) by {
        law_overlay_finds(part_of::<R>(fields, false), part_of::<R>(fields, true), name);
        law_parts_by_declaration::<R>(fields, true, name);
        law_parts_by_declaration::<R>(fields, false, name);
    }
    crate::model::obj_dynamic::law_fields_are_what_is_found(all, fields);
}

/// A document that is written by name is made of fields in which every name
/// that was given has the value given, and every other name the value that
/// the stored document has, or that a new document has by default.
pub proof fn law_patch_keeps_the_rest<R: Document>(
    prev: Option<R::Model>,
    typed: Seq<(Seq<char>, crate::model::obj_dynamic::DynView)>,
    fields: Seq<(Seq<char>, crate::model::obj_dynamic::DynView)>,
)
    requires
        crate::model::obj_dynamic::names_sorted(typed),
        crate::model::obj_dynamic::names_sorted(fields),
        ({
            let had = R::mapped(
                if prev is Some {
                    prev->0
                } else {
                    R::unmapped(Seq::empty())
                },
            );
            &&& crate::model::obj_dynamic::names_sorted(had)
            &&& forall|name: Seq<char>| #[trigger]
                crate::model::obj_dynamic::find_field(fields, name) == (
                if crate::model::obj_dynamic::find_field(typed, name) is Some {
                    crate::model::obj_dynamic::find_field(typed, name)
                } else {
                    crate::model::obj_dynamic::find_field(had, name)
                })
        }),
    ensures
        patched::<R>(prev, typed) == R::unmapped(fields),
{
    let had = R::mapped(
        if prev is Some {
            prev->0
        } else {
            R::unmapped(Seq::empty())
        },
    );
    let all = overlay(had, typed);
    law_overlay_finds(had, typed, Seq::empty());
    assert forall|name: Seq<char>| #[trigger]
        crate::model::obj_dynamic::find_field(all, name) == crate::model::obj_dynamic::find_field(
            fields,
            name,
        ) by {
        law_overlay_finds(had, typed, name);
    }
    crate::model::obj_dynamic::law_fields_are_what_is_found(all, fields);
}

/// Writing the undeclared fields of a document leaves those of every other
/// document stored as they were.
pub proof fn law_fields_spare_others<S: VirtualStorage, R: Document>(
    m: crate::engine::storage::Contents,
    key: Seq<u8>,
    fields: Seq<(Seq<char>, crate::model::obj_dynamic::DynView)>,
    after: crate::engine::storage::Contents,
    other: Seq<u8>,
)
    requires
        fields_written::<S, R>(m, key, fields, after),
        other != key,
    ensures
        crate::engine::storage::same_at(after, m, fields_front::<R>() + other),
{
    let s = names_on::<R>(m);
    let h = crate::index::header_bytes::<R>();
    let order = crate::model::obj_dynamic::fields_names(fields);
    let end = crate::model::obj_dynamic::steps::<PendingNames>(s, order);
    let k = fields_front::<R>() + key;
    let p = fields_front::<R>() + other;
    let first = crate::model::obj_dict::growth(s, order);
    crate::model::obj_dict::lemma_entry_last(
        m,
        first,
        k,
        crate::model::obj_dynamic::fields_bytes(fields, end.dict.names),
    );
    crate::model::index::lemma_slot_key(h, DYNAMIC_SLOT, DICT_ID_SLOT, other, other);
    crate::model::index::lemma_slot_key(h, DYNAMIC_SLOT, DICT_NAME_SLOT, other, other);
    crate::model::index::lemma_slot_key(h, DYNAMIC_SLOT, DYNAMIC_SLOT, other, key);
    crate::model::index::lemma_slot_key(h, DYNAMIC_SLOT, DYNAMIC_SLOT, key, other);
    assert(p == crate::model::index::slot_key(h, DYNAMIC_SLOT, other));
    assert(k == crate::model::index::slot_key(h, DYNAMIC_SLOT, key));
    crate::model::obj_dict::law_growth_spares_others(s, order, m, p);
}

} // verus!
