//! Field-name dictionary: names and their numbers, per table, stored in
//! both directions inside the table's key segment:
//!
//! ```text
//! [header][dict id slot][number u16 BE] → name bytes
//! [header][dict name slot][name bytes]  → number u16 BE
//! ```
//!
//! The dictionary only grows: numbers are never reused and never change. A
//! name seen for the first time on the write path claims the next number.

use vstd::prelude::*;
use vstd::string::StringExecFns;

use crate::bytes::{be_vec, concat, read_be, to_vec};
use crate::engine::storage::{scan_suffix_kv, MemBatch, VirtualStorage};
use crate::model::index::{make_key, DICT_ID_SLOT, DICT_NAME_SLOT};
use crate::model::obj_dynamic::{NameLookup, NameResolver};
use crate::text::{str_eq, utf8_string};

verus! {

/// What a cache knows of a dictionary.
#[verifier::ext_equal]
pub struct DictView {
    /// Numbers by name.
    pub names: crate::model::obj_dynamic::NameTable,
    /// Names by number.
    pub ids: crate::model::obj_dynamic::IdTable,
    /// The number of the next new name.
    pub next: nat,
    /// Whether the stored dictionary has been read.
    pub loaded: bool,
}

/// A cache that knows nothing yet.
pub open spec fn fresh_dict() -> DictView {
    DictView { names: Map::empty(), ids: Map::empty(), next: 0, loaded: false }
}

/// The pairs of a name list as a map; later pairs win.
spec fn name_map(s: Seq<(String, u16)>) -> crate::model::obj_dynamic::NameTable
    decreases s.len(),
{
    if s.len() == 0 {
        Map::empty()
    } else {
        name_map(s.drop_last()).insert(s.last().0@, s.last().1)
    }
}

/// The pairs of a number list as a map; later pairs win.
spec fn id_map(s: Seq<(u16, String)>) -> crate::model::obj_dynamic::IdTable
    decreases s.len(),
{
    if s.len() == 0 {
        Map::empty()
    } else {
        id_map(s.drop_last()).insert(s.last().0, s.last().1@)
    }
}

/// Where a dictionary is stored: the key fronts of its two directions.
#[verifier::ext_equal]
pub struct DictHome {
    /// In front of the numbers.
    pub ids: Seq<u8>,
    /// In front of the names.
    pub names: Seq<u8>,
}

/// Where the dictionary of the table with a header is stored.
pub open spec fn home(header: Seq<u8>) -> DictHome {
    DictHome {
        ids: crate::model::index::slot_key(header, DICT_ID_SLOT, Seq::empty()),
        names: crate::model::index::slot_key(header, DICT_NAME_SLOT, Seq::empty()),
    }
}

/// The two directions share no key.
pub open spec fn apart(h: DictHome) -> bool {
    !crate::bytes::starts_with(h.ids, h.names) && !crate::bytes::starts_with(h.names, h.ids)
}

/// The directions of a table's dictionary are apart.
pub proof fn lemma_home_apart(header: Seq<u8>)
    ensures
        apart(home(header)),
{
    crate::model::index::lemma_slot_key(
        header,
        DICT_ID_SLOT,
        DICT_NAME_SLOT,
        Seq::empty(),
        Seq::empty(),
    );
    crate::model::index::lemma_slot_key(
        header,
        DICT_NAME_SLOT,
        DICT_ID_SLOT,
        Seq::empty(),
        Seq::empty(),
    );
}

/// The key of the entry from number to name.
pub open spec fn id_key(h: DictHome, id: u16) -> Seq<u8> {
    h.ids + crate::bytes::be_bytes(id as nat, 2)
}

/// The key of the entry from name to number.
pub open spec fn name_key(h: DictHome, name: Seq<char>) -> Seq<u8> {
    h.names + vstd::utf8::encode_utf8(name)
}

/// The writes that give `name` the number `id`.
pub open spec fn dict_writes(h: DictHome, name: Seq<char>, id: u16) -> Seq<
    (Seq<u8>, Option<Seq<u8>>),
> {
    seq![
        (id_key(h, id), Some(vstd::utf8::encode_utf8(name))),
        (name_key(h, name), Some(crate::bytes::be_bytes(id as nat, 2))),
    ]
}

/// The names by number that stored entries give: those with a two-byte
/// number and a valid name.
pub open spec fn read_ids(
    pairs: Seq<(Seq<u8>, Seq<u8>)>,
    ids: crate::model::obj_dynamic::IdTable,
) -> crate::model::obj_dynamic::IdTable
    decreases pairs.len(),
{
    if pairs.len() == 0 {
        ids
    } else {
        let before = read_ids(pairs.drop_last(), ids);
        let (suffix, name) = pairs.last();
        if suffix.len() == 2 && vstd::utf8::valid_utf8(name) {
            before.insert(crate::bytes::be_value(suffix) as u16, vstd::utf8::decode_utf8(name))
        } else {
            before
        }
    }
}

/// The numbers by name that stored entries give: those with a valid name
/// and a two-byte number.
pub open spec fn read_names(
    pairs: Seq<(Seq<u8>, Seq<u8>)>,
    names: crate::model::obj_dynamic::NameTable,
) -> crate::model::obj_dynamic::NameTable
    decreases pairs.len(),
{
    if pairs.len() == 0 {
        names
    } else {
        let before = read_names(pairs.drop_last(), names);
        let (suffix, id) = pairs.last();
        if vstd::utf8::valid_utf8(suffix) && id.len() == 2 {
            before.insert(vstd::utf8::decode_utf8(suffix), crate::bytes::be_value(id) as u16)
        } else {
            before
        }
    }
}

/// The next number after those that stored entries give.
pub open spec fn read_next(pairs: Seq<(Seq<u8>, Seq<u8>)>, next: nat) -> nat
    decreases pairs.len(),
{
    if pairs.len() == 0 {
        next
    } else {
        let before = read_next(pairs.drop_last(), next);
        let (suffix, id) = pairs.last();
        if vstd::utf8::valid_utf8(suffix) && id.len() == 2 && crate::bytes::be_value(id) >= before {
            crate::bytes::be_value(id) + 1
        } else {
            before
        }
    }
}

/// The stored entries from number to name.
pub open spec fn stored_id_pairs(m: crate::engine::storage::Contents, h: DictHome) -> Seq<
    (Seq<u8>, Seq<u8>),
> {
    crate::engine::storage::prefix_suffix_pairs(m, h.ids)
}

/// The stored entries from name to number.
pub open spec fn stored_name_pairs(m: crate::engine::storage::Contents, h: DictHome) -> Seq<
    (Seq<u8>, Seq<u8>),
> {
    crate::engine::storage::prefix_suffix_pairs(m, h.names)
}

/// A cache once it has read the stored dictionary.
pub open spec fn load_dict(
    d: DictView,
    m: crate::engine::storage::Contents,
    h: DictHome,
) -> DictView {
    if d.loaded {
        d
    } else {
        DictView {
            names: read_names(stored_name_pairs(m, h), d.names),
            ids: read_ids(stored_id_pairs(m, h), d.ids),
            next: read_next(stored_name_pairs(m, h), d.next),
            loaded: true,
        }
    }
}

/// A cache once it has given `name` the next number.
pub open spec fn claim(d: DictView, name: Seq<char>) -> DictView {
    DictView {
        names: d.names.insert(name, d.next as u16),
        ids: d.ids.insert(d.next as u16, name),
        next: d.next + 1,
        ..d
    }
}

/// A cache once `name` has a number: the one it had, or else the next.
pub open spec fn with_name(d: DictView, name: Seq<char>) -> DictView {
    if d.names.dom().contains(name) {
        d
    } else {
        claim(d, name)
    }
}

/// The writes that the number of `name` takes: both directions for a new
/// name, none for one that has a number.
pub open spec fn name_writes(h: DictHome, d: DictView, name: Seq<char>) -> Seq<
    (Seq<u8>, Option<Seq<u8>>),
> {
    if d.names.dom().contains(name) {
        Seq::empty()
    } else {
        dict_writes(h, name, d.next as u16)
    }
}

/// A cache once it has found the stored name of a number it did not know.
pub open spec fn catch_up(d: DictView, id: u16, name: Seq<char>) -> DictView {
    DictView {
        names: d.names.insert(name, id),
        ids: d.ids.insert(id, name),
        next: if id >= d.next {
            id as nat + 1
        } else {
            d.next
        },
        ..d
    }
}

/// The stored name of a number.
pub open spec fn probe(m: crate::engine::storage::Contents, h: DictHome, id: u16) -> Option<
    Seq<char>,
> {
    if m.dom().contains(id_key(h, id)) && vstd::utf8::valid_utf8(m[id_key(h, id)]) {
        Some(vstd::utf8::decode_utf8(m[id_key(h, id)]))
    } else {
        None
    }
}

/// Whether `name` has a number or can get one.
pub open spec fn resolvable(
    d: DictView,
    m: crate::engine::storage::Contents,
    h: DictHome,
    name: Seq<char>,
) -> bool {
    let l = load_dict(d, m, h);
    l.names.dom().contains(name) || l.next <= u16::MAX
}

/// Cache and engine once `name` has been resolved: a known name changes
/// neither but for the cache having read the dictionary; a new one claims a
/// number, and both directions are stored, unless the engine refuses.
pub open spec fn resolved<S: VirtualStorage>(
    d: DictView,
    m: crate::engine::storage::Contents,
    h: DictHome,
    name: Seq<char>,
    d2: DictView,
    m2: crate::engine::storage::Contents,
) -> bool {
    let l = load_dict(d, m, h);
    if l.names.dom().contains(name) {
        d2 == l && m2 == m
    } else {
        &&& d2 == claim(l, name)
        &&& m2 == crate::engine::storage::apply_ops(
            m,
            dict_writes(h, name, l.next as u16),
        ) || (!S::never_refuses() && m2 == m)
    }
}

/// What looking up a number gives, and the cache after it: a number that
/// the cache knows, or else the stored name, which the cache then knows too.
pub open spec fn looked_up(
    d: DictView,
    m: crate::engine::storage::Contents,
    h: DictHome,
    id: u16,
    r: Option<String>,
    d2: DictView,
) -> bool {
    let l = load_dict(d, m, h);
    match r {
        Some(s) => if l.ids.dom().contains(id) {
            s@ == l.ids[id] && d2 == l
        } else {
            probe(m, h, id) == Some(s@) && d2 == catch_up(l, id, s@)
        },
        None => !l.ids.dom().contains(id) && probe(m, h, id) is None && d2 == l,
    }
}

/// A dictionary cache, bound to one table.
#[derive(Debug, Default)]
pub struct DictCache {
    by_id: Vec<(u16, String)>,
    by_name: Vec<(String, u16)>,
    next_id: u32,
    loaded: bool,
}

impl View for DictCache {
    type V = DictView;

    closed spec fn view(&self) -> DictView {
        DictView {
            names: name_map(self.by_name@),
            ids: id_map(self.by_id@),
            next: self.next_id as nat,
            loaded: self.loaded,
        }
    }
}

impl DictCache {
    /// A cache that knows nothing yet.
    pub fn new() -> (r: Self)
        ensures
            r@ == fresh_dict(),
    {
        let r = DictCache { by_id: Vec::new(), by_name: Vec::new(), next_id: 0, loaded: false };
        assert(r@ =~= fresh_dict());
        r
    }

    /// The number of `name`, where the cache knows it. The engine is not
    /// asked.
    pub fn by_name_get(&self, name: &str) -> (r: Option<u16>)
        ensures
            r == (if self@.names.dom().contains(name@) {
                Some(self@.names[name@])
            } else {
                None
            }),
    {
        let mut i: usize = self.by_name.len();
        assert(self.by_name@.take(i as int) =~= self.by_name@);
        while i > 0
            invariant
                i <= self.by_name@.len(),
                ({
                    let all = name_map(self.by_name@);
                    let front = name_map(self.by_name@.take(i as int));
                    &&& all.dom().contains(name@) == front.dom().contains(name@)
                    &&& all.dom().contains(name@) ==> all[name@] == front[name@]
                }),
            decreases i,
        {
            proof {
                let front = self.by_name@.take(i as int);
                assert(front.drop_last() =~= self.by_name@.take(i - 1));
                assert(front.last() == self.by_name@[i - 1]);
            }
            if str_eq(self.by_name[i - 1].0.as_str(), name) {
                return Some(self.by_name[i - 1].1);
            }
            i = i - 1;
        }
        None
    }

    /// The name of `id`, where the cache knows it.
    fn by_id_get(&self, id: u16) -> (r: Option<String>)
        ensures
            match r {
                Some(s) => self@.ids.dom().contains(id) && self@.ids[id] == s@,
                None => !self@.ids.dom().contains(id),
            },
    {
        let mut i: usize = self.by_id.len();
        assert(self.by_id@.take(i as int) =~= self.by_id@);
        while i > 0
            invariant
                i <= self.by_id@.len(),
                ({
                    let all = id_map(self.by_id@);
                    let front = id_map(self.by_id@.take(i as int));
                    &&& all.dom().contains(id) == front.dom().contains(id)
                    &&& all.dom().contains(id) ==> all[id] == front[id]
                }),
            decreases i,
        {
            proof {
                let front = self.by_id@.take(i as int);
                assert(front.drop_last() =~= self.by_id@.take(i - 1));
                assert(front.last() == self.by_id@[i - 1]);
            }
            if self.by_id[i - 1].0 == id {
                return Some(self.by_id[i - 1].1.clone());
            }
            i = i - 1;
        }
        None
    }

    /// Notes that `id` stands for `name`.
    fn add_id(&mut self, id: u16, name: String)
        ensures
            final(self)@ == (DictView { ids: old(self)@.ids.insert(id, name@), ..old(self)@ }),
    {
        self.by_id.push((id, name));
        assert(self.by_id@.drop_last() =~= old(self).by_id@);
    }

    /// Notes that `name` has the number `id`.
    fn add_name(&mut self, name: String, id: u16)
        ensures
            final(self)@ == (DictView { names: old(self)@.names.insert(name@, id), ..old(self)@ }),
    {
        self.by_name.push((name, id));
        assert(self.by_name@.drop_last() =~= old(self).by_name@);
    }

    /// Reads both directions from the engine, once.
    pub fn load_at<S: VirtualStorage>(&mut self, store: &S, ids: &[u8], names: &[u8])
        ensures
            final(self)@ == load_dict(
                old(self)@,
                store.contents(),
                DictHome { ids: ids@, names: names@ },
            ),
    {
        if self.loaded {
            return;
        }
        let ghost start = self@;
        let ghost m = store.contents();
        let ghost h = DictHome { ids: ids@, names: names@ };
        let id_pairs = scan_suffix_kv(store, ids);
        let ghost ips = crate::engine::storage::pair_views(id_pairs@);
        proof {
            assert(ips == stored_id_pairs(m, h));
            assert(ips.take(0) =~= Seq::empty());
            assert(self@ =~= DictView { ids: read_ids(ips.take(0), start.ids), ..start });
        }
        let mut i: usize = 0;
        while i < id_pairs.len()
            invariant
                i <= id_pairs@.len(),
                ips == crate::engine::storage::pair_views(id_pairs@),
                self@ == (DictView { ids: read_ids(ips.take(i as int), start.ids), ..start }),
            decreases id_pairs@.len() - i,
        {
            proof {
                assert(ips.take(i + 1).drop_last() =~= ips.take(i as int));
                assert(ips.take(i + 1).last() == (id_pairs@[i as int].0@, id_pairs@[i as int].1@));
            }
            if id_pairs[i].0.len() == 2 {
                let id: u64 = read_be(id_pairs[i].0.as_slice());
                proof {
                    crate::bytes::lemma_be_value_round_trip(id_pairs@[i as int].0@);
                    crate::bytes::lemma_pow256_small();
                }
                match utf8_string(id_pairs[i].1.as_slice()) {
                    Some(n) => self.add_id(id as u16, n),
                    None => {},
                }
            }
            i = i + 1;
            assert(self@ =~= DictView { ids: read_ids(ips.take(i as int), start.ids), ..start });
        }
        assert(ips.take(i as int) =~= ips);
        let ghost mid = self@;
        let name_pairs = scan_suffix_kv(store, names);
        let ghost nps = crate::engine::storage::pair_views(name_pairs@);
        proof {
            assert(nps == stored_name_pairs(m, h));
            assert(nps.take(0) =~= Seq::empty());
            assert(self@ =~= DictView {
                names: read_names(nps.take(0), start.names),
                next: read_next(nps.take(0), start.next),
                ..mid
            });
        }
        let mut j: usize = 0;
        while j < name_pairs.len()
            invariant
                j <= name_pairs@.len(),
                nps == crate::engine::storage::pair_views(name_pairs@),
                self@ == (DictView {
                    names: read_names(nps.take(j as int), start.names),
                    next: read_next(nps.take(j as int), start.next),
                    ..mid
                }),
            decreases name_pairs@.len() - j,
        {
            proof {
                assert(nps.take(j + 1).drop_last() =~= nps.take(j as int));
                assert(nps.take(j + 1).last() == (
                    name_pairs@[j as int].0@,
                    name_pairs@[j as int].1@,
                ));
            }
            match utf8_string(name_pairs[j].0.as_slice()) {
                Some(n) => {
                    if name_pairs[j].1.len() == 2 {
                        let id: u64 = read_be(name_pairs[j].1.as_slice());
                        proof {
                            crate::bytes::lemma_be_value_round_trip(name_pairs@[j as int].1@);
                            crate::bytes::lemma_pow256_small();
                        }
                        self.add_name(n, id as u16);
                        if id >= self.next_id as u64 {
                            self.next_id = id as u32 + 1;
                        }
                    }
                },
                None => {},
            }
            j = j + 1;
            assert(self@ =~= DictView {
                names: read_names(nps.take(j as int), start.names),
                next: read_next(nps.take(j as int), start.next),
                ..mid
            });
        }
        assert(nps.take(j as int) =~= nps);
        self.loaded = true;
        assert(self@ =~= load_dict(start, m, h));
    }

    /// The number that `name` has or will have in the dictionary stored
    /// behind the key fronts `ids` and `names`. What a new name takes is put
    /// into a batch of the caller's; the cache learns the name with `note`,
    /// once the batch is stored.
    pub fn stage_at(
        &self,
        ids: &[u8],
        names: &[u8],
        name: &str,
        batch: &mut MemBatch,
    ) -> (r: u16)
        requires
            self@.names.dom().contains(name@) || self@.next <= u16::MAX,
        ensures
            final(batch)@ == old(batch)@ + name_writes(
                DictHome { ids: ids@, names: names@ },
                self@,
                name@,
            ),
            r == with_name(self@, name@).names[name@],
    {
        match self.by_name_get(name) {
            Some(id) => {
                assert(batch@ =~= batch@ + Seq::empty());
                id
            },
            None => {
                let id: u16 = self.next_id as u16;
                let id_bytes = be_vec(id as u64, 2);
                batch.put(concat(ids, id_bytes.as_slice()), to_vec(name.as_bytes()));
                batch.put(concat(names, name.as_bytes()), id_bytes);
                assert(batch@ =~= old(batch)@ + dict_writes(
                    DictHome { ids: ids@, names: names@ },
                    name@,
                    id,
                ));
                id
            },
        }
    }

    /// Gives a new name the next number, in the cache alone.
    pub fn note(&mut self, name: &str)
        requires
            old(self)@.names.dom().contains(name@) || old(self)@.next <= u16::MAX,
        ensures
            final(self)@ == with_name(old(self)@, name@),
    {
        if self.by_name_get(name).is_none() {
            let ghost d = self@;
            let id: u16 = self.next_id as u16;
            self.next_id = self.next_id + 1;
            self.add_id(id, String::from_str(name));
            self.add_name(String::from_str(name), id);
            assert(self@ =~= claim(d, name@));
        }
    }

    /// The number of `name` in the dictionary stored behind the key fronts
    /// `ids` and `names`; a new name claims the next number, and both
    /// directions are stored in one batch.
    pub fn id_for_at<S: VirtualStorage>(
        &mut self,
        store: &mut S,
        ids: &[u8],
        names: &[u8],
        name: &str,
    ) -> (r: u16)
        requires
            resolvable(
                old(self)@,
                old(store).contents(),
                DictHome { ids: ids@, names: names@ },
                name@,
            ),
        ensures
            resolved::<S>(
                old(self)@,
                old(store).contents(),
                DictHome { ids: ids@, names: names@ },
                name@,
                final(self)@,
                final(store).contents(),
            ),
            r == final(self)@.names[name@],
    {
        self.load_at(&*store, ids, names);
        let mut batch = MemBatch::new();
        let known: bool = self.by_name_get(name).is_some();
        let id: u16 = self.stage_at(ids, names, name, &mut batch);
        if !known {
            assert(batch@ =~= dict_writes(DictHome { ids: ids@, names: names@ }, name@, id));
            let _ = store.commit_batch(batch);
            self.note(name);
        }
        id
    }

    /// The number of `name` in the dictionary of the table with `header`.
    pub fn id_for<S: VirtualStorage>(&mut self, store: &mut S, header: &[u8], name: &str) -> (r:
        u16)
        requires
            resolvable(old(self)@, old(store).contents(), home(header@), name@),
        ensures
            resolved::<S>(
                old(self)@,
                old(store).contents(),
                home(header@),
                name@,
                final(self)@,
                final(store).contents(),
            ),
            r == final(self)@.names[name@],
    {
        let ids = make_key(header, DICT_ID_SLOT, &[]);
        let names = make_key(header, DICT_NAME_SLOT, &[]);
        assert(DictHome { ids: ids@, names: names@ } =~= home(header@));
        self.id_for_at(store, ids.as_slice(), names.as_slice(), name)
    }

    /// The name of `id` in the dictionary stored behind the key fronts `ids`
    /// and `names`. A number that the cache does not know is looked up in
    /// the engine.
    pub fn name_for_at<S: VirtualStorage>(
        &mut self,
        store: &S,
        ids: &[u8],
        names: &[u8],
        id: u16,
    ) -> (r: Option<String>)
        ensures
            looked_up(
                old(self)@,
                store.contents(),
                DictHome { ids: ids@, names: names@ },
                id,
                r,
                final(self)@,
            ),
    {
        self.load_at(store, ids, names);
        match self.by_id_get(id) {
            Some(n) => Some(n),
            None => {
                let ghost d = self@;
                let id_bytes = be_vec(id as u64, 2);
                let key = concat(ids, id_bytes.as_slice());
                match store.get(key.as_slice()) {
                    None => None,
                    Some(b) => match utf8_string(b.as_slice()) {
                        None => None,
                        Some(name) => {
                            self.add_id(id, name.clone());
                            self.add_name(name.clone(), id);
                            if id as u32 >= self.next_id {
                                self.next_id = id as u32 + 1;
                            }
                            assert(self@ =~= catch_up(d, id, name@));
                            Some(name)
                        },
                    },
                }
            },
        }
    }

    /// The name of `id` in the dictionary of the table with `header`.
    pub fn name_for<S: VirtualStorage>(&mut self, store: &S, header: &[u8], id: u16) -> (r: Option<
        String,
    >)
        ensures
            looked_up(old(self)@, store.contents(), home(header@), id, r, final(self)@),
    {
        let ids = make_key(header, DICT_ID_SLOT, &[]);
        let names = make_key(header, DICT_NAME_SLOT, &[]);
        assert(DictHome { ids: ids@, names: names@ } =~= home(header@));
        self.name_for_at(store, ids.as_slice(), names.as_slice(), id)
    }
}

/// The names by number that a cache on an engine can tell: those it knows,
/// and those stored.
pub open spec fn lookup_table(
    d: DictView,
    m: crate::engine::storage::Contents,
    h: DictHome,
) -> crate::model::obj_dynamic::IdTable {
    let l = load_dict(d, m, h);
    Map::new(
        |id: u16| l.ids.dom().contains(id) || probe(m, h, id) is Some,
        |id: u16|
            if l.ids.dom().contains(id) {
                l.ids[id]
            } else {
                probe(m, h, id)->0
            },
    )
}

/// Names by number, from a cache on an engine.
pub struct StoreNames<'a, S: VirtualStorage> {
    store: &'a S,
    ids: &'a [u8],
    names: &'a [u8],
    dict: DictCache,
}

impl<'a, S: VirtualStorage> StoreNames<'a, S> {
    /// A fresh cache on an engine whose dictionary stands behind the key
    /// fronts `ids` and `names`.
    pub fn new(store: &'a S, ids: &'a [u8], names: &'a [u8]) -> (r: Self)
        ensures
            r.ids() == lookup_table(
                fresh_dict(),
                store.contents(),
                DictHome { ids: ids@, names: names@ },
            ),
    {
        StoreNames { store, ids, names, dict: DictCache::new() }
    }
}

impl<'a, S: VirtualStorage> NameLookup for StoreNames<'a, S> {
    closed spec fn ids(&self) -> crate::model::obj_dynamic::IdTable {
        lookup_table(
            self.dict@,
            self.store.contents(),
            DictHome { ids: self.ids@, names: self.names@ },
        )
    }

    fn name_of(&mut self, id: u16) -> (r: Option<String>) {
        let r = self.dict.name_for_at(self.store, self.ids, self.names, id);
        assert(self.ids() =~= old(self).ids());
        r
    }
}

/// What decides the numbers of a dictionary that is stored.
#[verifier::ext_equal]
pub struct DictState {
    pub dict: DictView,
    pub home: DictHome,
}

/// An engine with a dictionary cache on it.
pub struct DictStore<S: VirtualStorage> {
    pub store: S,
    pub dict: DictCache,
    /// The key front of the numbers.
    pub ids: Vec<u8>,
    /// The key front of the names.
    pub names: Vec<u8>,
}

impl<S: VirtualStorage> DictStore<S> {
    /// Where the dictionary is stored.
    pub open spec fn home(&self) -> DictHome {
        DictHome { ids: self.ids@, names: self.names@ }
    }

    /// A fresh cache on an engine whose dictionary stands behind the key
    /// fronts `ids` and `names`.
    pub fn new(store: S, ids: Vec<u8>, names: Vec<u8>) -> (r: Self)
        ensures
            r.store == store,
            r.dict@ == fresh_dict(),
            r.home() == (DictHome { ids: ids@, names: names@ }),
    {
        DictStore { store, dict: DictCache::new(), ids, names }
    }

    /// Reads the stored dictionary, once.
    pub fn load(&mut self)
        ensures
            final(self).store == old(self).store,
            final(self).home() == old(self).home(),
            final(self).dict@ == load_dict(
                old(self).dict@,
                old(self).store.contents(),
                old(self).home(),
            ),
    {
        self.dict.load_at(&self.store, self.ids.as_slice(), self.names.as_slice());
    }
}

impl<S: VirtualStorage> NameResolver for DictStore<S> {
    type State = DictState;

    type World = crate::engine::storage::Contents;

    open spec fn state(&self) -> DictState {
        DictState { dict: self.dict@, home: self.home() }
    }

    open spec fn world(&self) -> crate::engine::storage::Contents {
        self.store.contents()
    }

    open spec fn table(s: DictState) -> crate::model::obj_dynamic::NameTable {
        s.dict.names
    }

    open spec fn ready(s: DictState, name: Seq<char>) -> bool {
        s.dict.loaded && (s.dict.names.dom().contains(name) || s.dict.next <= u16::MAX)
    }

    open spec fn step(s: DictState, name: Seq<char>) -> DictState {
        if s.dict.names.dom().contains(name) {
            s
        } else {
            DictState { dict: claim(s.dict, name), ..s }
        }
    }

    open spec fn moved(
        s: DictState,
        name: Seq<char>,
        w: crate::engine::storage::Contents,
        w2: crate::engine::storage::Contents,
    ) -> bool {
        if s.dict.names.dom().contains(name) {
            w2 == w
        } else {
            w2 == crate::engine::storage::apply_ops(
                w,
                dict_writes(s.home, name, s.dict.next as u16),
            ) || (!S::never_refuses() && w2 == w)
        }
    }

    proof fn step_appends(s: DictState, name: Seq<char>) {
    }

    fn resolve(&mut self, name: &str) -> (r: u16) {
        self.dict.id_for_at(&mut self.store, self.ids.as_slice(), self.names.as_slice(), name)
    }
}

/// Names with their numbers, those given last not stored yet.
pub struct PendingNames {
    dict: DictCache,
    ids: Vec<u8>,
    names: Vec<u8>,
    /// The writes that store the new names.
    batch: MemBatch,
}

impl PendingNames {
    /// What the engine holds of the dictionary behind the key fronts `ids`
    /// and `names`, and nothing new.
    pub fn new<S: VirtualStorage>(store: &S, ids: &[u8], names: &[u8]) -> (r: Self)
        ensures
            r.state() == (DictState {
                dict: load_dict(
                    fresh_dict(),
                    store.contents(),
                    DictHome { ids: ids@, names: names@ },
                ),
                home: DictHome { ids: ids@, names: names@ },
            }),
            r.world() == Seq::<(Seq<u8>, Option<Seq<u8>>)>::empty(),
    {
        let mut dict = DictCache::new();
        dict.load_at(store, ids, names);
        PendingNames { dict, ids: to_vec(ids), names: to_vec(names), batch: MemBatch::new() }
    }
}

impl NameResolver for PendingNames {
    type State = DictState;

    /// The writes that are pending.
    type World = Seq<(Seq<u8>, Option<Seq<u8>>)>;

    closed spec fn state(&self) -> DictState {
        DictState { dict: self.dict@, home: DictHome { ids: self.ids@, names: self.names@ } }
    }

    closed spec fn world(&self) -> Seq<(Seq<u8>, Option<Seq<u8>>)> {
        self.batch@
    }

    open spec fn table(s: DictState) -> crate::model::obj_dynamic::NameTable {
        s.dict.names
    }

    open spec fn ready(s: DictState, name: Seq<char>) -> bool {
        s.dict.names.dom().contains(name) || s.dict.next <= u16::MAX
    }

    open spec fn step(s: DictState, name: Seq<char>) -> DictState {
        DictState { dict: with_name(s.dict, name), ..s }
    }

    open spec fn moved(
        s: DictState,
        name: Seq<char>,
        w: Seq<(Seq<u8>, Option<Seq<u8>>)>,
        w2: Seq<(Seq<u8>, Option<Seq<u8>>)>,
    ) -> bool {
        w2 == w + name_writes(s.home, s.dict, name)
    }

    proof fn step_appends(s: DictState, name: Seq<char>) {
    }

    fn resolve(&mut self, name: &str) -> (r: u16) {
        let id: u16 = self.dict.stage_at(
            self.ids.as_slice(),
            self.names.as_slice(),
            name,
            &mut self.batch,
        );
        self.dict.note(name);
        id
    }
}

/// The writes that the numbers of these names take, in the order of the
/// names.
pub open spec fn growth(s: DictState, order: Seq<Seq<char>>) -> Seq<(Seq<u8>, Option<Seq<u8>>)>
    decreases order.len(),
{
    if order.len() == 0 {
        Seq::empty()
    } else {
        growth(s, order.drop_last()) + name_writes(
            s.home,
            crate::model::obj_dynamic::steps::<PendingNames>(s, order.drop_last()).dict,
            order.last(),
        )
    }
}

/// The write of an entry: there is none with an empty body.
pub open spec fn entry_write(key: Seq<u8>, body: Seq<u8>) -> (Seq<u8>, Option<Seq<u8>>) {
    (
        key,
        if body.len() == 0 {
            None
        } else {
            Some(body)
        },
    )
}

/// The engine may hold `after` once names have been numbered and an entry
/// has been written: all of it is stored in one batch, or nothing where the
/// engine refuses the batch. An entry without new names is not refused.
pub open spec fn entry_stored<S: VirtualStorage>(
    m: crate::engine::storage::Contents,
    s: DictState,
    order: Seq<Seq<char>>,
    key: Seq<u8>,
    body: Seq<u8>,
    after: crate::engine::storage::Contents,
) -> bool {
    ||| after == crate::engine::storage::apply_ops(
        m,
        growth(s, order).push(entry_write(key, body)),
    )
    ||| !S::never_refuses() && growth(s, order).len() > 0 && after == m
}

/// Stores an entry together with the new names, in one batch. An entry
/// without new names is a write of its own.
pub fn store_entry<S: VirtualStorage>(
    store: &mut S,
    names: PendingNames,
    key: Vec<u8>,
    body: Vec<u8>,
)
    ensures
        ({
            let all = names.world().push(entry_write(key@, body@));
            ||| final(store).contents() == crate::engine::storage::apply_ops(
                old(store).contents(),
                all,
            )
            ||| !S::never_refuses() && names.world().len() > 0 && final(store).contents() == old(
                store,
            ).contents()
        }),
{
    let ghost first = names.world();
    let ghost all = first.push(entry_write(key@, body@));
    let ghost m = store.contents();
    let mut batch = names.batch;
    proof {
        assert(all.drop_last() =~= first);
        if first.len() == 0 {
            assert(crate::engine::storage::apply_ops(m, first) == m);
        }
    }
    if batch.ops.len() == 0 {
        if body.is_empty() {
            store.del(key.as_slice());
        } else {
            store.put(key, body);
        }
    } else {
        if body.is_empty() {
            batch.del(key.as_slice());
        } else {
            batch.put(key, body);
        }
        assert(batch@ =~= all);
        let _ = store.commit_batch(batch);
    }
}

/// What numbering names has put into the batch.
pub proof fn lemma_pending_growth(
    s: DictState,
    order: Seq<Seq<char>>,
    w: Seq<(Seq<u8>, Option<Seq<u8>>)>,
    w2: Seq<(Seq<u8>, Option<Seq<u8>>)>,
)
    requires
        crate::model::obj_dynamic::moved_all::<PendingNames>(s, order, w, w2),
    ensures
        w2 == w + growth(s, order),
{
    let trail = choose|t: Seq<Seq<(Seq<u8>, Option<Seq<u8>>)>>| #[trigger]
        crate::model::obj_dynamic::is_trail::<PendingNames>(s, order, t) && t[0] == w && t.last()
            == w2;
    lemma_trail_growth(s, order, trail, order.len() as int);
    assert(order.take(order.len() as int) =~= order);
}

proof fn lemma_trail_growth(
    s: DictState,
    order: Seq<Seq<char>>,
    trail: Seq<Seq<(Seq<u8>, Option<Seq<u8>>)>>,
    n: int,
)
    requires
        0 <= n <= order.len(),
        crate::model::obj_dynamic::is_trail::<PendingNames>(s, order, trail),
    ensures
        trail[n] == trail[0] + growth(s, order.take(n)),
    decreases n,
{
    if n == 0 {
        assert(trail[0] =~= trail[0] + growth(s, order.take(0)));
    } else {
        lemma_trail_growth(s, order, trail, n - 1);
        lemma_pending_home(s, order.take(n - 1));
        assert(order.take(n).drop_last() =~= order.take(n - 1));
        assert(order.take(n).last() == order[n - 1]);
        assert(PendingNames::moved(
            crate::model::obj_dynamic::steps::<PendingNames>(s, order.take(n - 1)),
            order[n - 1],
            trail[n - 1],
            trail[n],
        ));
        assert(trail[n] =~= trail[0] + growth(s, order.take(n)));
    }
}

/// Numbering names does not move the dictionary.
pub proof fn lemma_pending_home(s: DictState, order: Seq<Seq<char>>)
    ensures
        crate::model::obj_dynamic::steps::<PendingNames>(s, order).home == s.home,
    decreases order.len(),
{
    if order.len() > 0 {
        lemma_pending_home(s, order.drop_last());
    }
}

/// Both directions agree, and the next number is above all that were given.
pub open spec fn coherent(d: DictView) -> bool {
    &&& forall|n: Seq<char>| #[trigger]
        d.names.dom().contains(n) ==> d.ids.dom().contains(d.names[n]) && d.ids[d.names[n]] == n
            && d.names[n] < d.next
    &&& forall|id: u16| #[trigger]
        d.ids.dom().contains(id) ==> d.names.dom().contains(d.ids[id]) && d.names[d.ids[id]] == id
}

/// Claiming a number keeps both directions in agreement, and every name and
/// number given before as it was.
pub proof fn law_claim_appends(d: DictView, name: Seq<char>)
    requires
        coherent(d),
        !d.names.dom().contains(name),
        d.next <= u16::MAX,
    ensures
        coherent(claim(d, name)),
        d.names.submap_of(claim(d, name).names),
        d.ids.submap_of(claim(d, name).ids),
        !d.ids.dom().contains(d.next as u16),
{
    let id = d.next as u16;
    if d.ids.dom().contains(id) {
        assert(d.names.dom().contains(d.ids[id]));
        assert(false);
    }
    let c = claim(d, name);
    assert forall|n: Seq<char>| #[trigger] c.names.dom().contains(n) implies c.ids.dom().contains(
        c.names[n],
    ) && c.ids[c.names[n]] == n && c.names[n] < c.next by {
        if n != name {
            assert(d.names.dom().contains(n));
        }
    }
    assert forall|i: u16| #[trigger] c.ids.dom().contains(i) implies c.names.dom().contains(
        c.ids[i],
    ) && c.names[c.ids[i]] == i by {
        if i != id {
            assert(d.ids.dom().contains(i));
        }
    }
}

/// An empty dictionary is coherent.
pub proof fn law_fresh_is_coherent()
    ensures
        coherent(fresh_dict()),
{
}

/// A stored entry from name to number.
spec fn names_entry(p: (Seq<u8>, Seq<u8>)) -> bool {
    vstd::utf8::valid_utf8(p.0) && p.1.len() == 2
}

/// A stored entry from number to name.
spec fn ids_entry(p: (Seq<u8>, Seq<u8>)) -> bool {
    p.0.len() == 2 && vstd::utf8::valid_utf8(p.1)
}

/// No two entries have the same suffix.
spec fn distinct(pairs: Seq<(Seq<u8>, Seq<u8>)>) -> bool {
    forall|i: int, j: int| 0 <= i < j < pairs.len() ==> pairs[i].0 != pairs[j].0
}

/// The name that entry `j` gives a number.
spec fn names_at(pairs: Seq<(Seq<u8>, Seq<u8>)>, n: Seq<char>, j: int) -> bool {
    0 <= j < pairs.len() && names_entry(pairs[j]) && pairs[j].0 == vstd::utf8::encode_utf8(n)
}

/// The number that entry `j` names.
spec fn ids_at(pairs: Seq<(Seq<u8>, Seq<u8>)>, id: u16, j: int) -> bool {
    0 <= j < pairs.len() && ids_entry(pairs[j]) && pairs[j].0 == crate::bytes::be_bytes(
        id as nat,
        2,
    )
}

proof fn lemma_utf8_back(b: Seq<u8>, n: Seq<char>)
    requires
        vstd::utf8::valid_utf8(b),
    ensures
        vstd::utf8::decode_utf8(b) == n <==> b == vstd::utf8::encode_utf8(n),
{
    broadcast use vstd::utf8::encode_utf8_decode_utf8, vstd::utf8::decode_utf8_encode_utf8;

    assert(vstd::utf8::encode_utf8(vstd::utf8::decode_utf8(b)) == b);
    assert(vstd::utf8::decode_utf8(vstd::utf8::encode_utf8(n)) == n);
}

proof fn lemma_be2_back(b: Seq<u8>, id: u16)
    requires
        b.len() == 2,
    ensures
        crate::bytes::be_value(b) as u16 == id <==> b == crate::bytes::be_bytes(id as nat, 2),
        crate::bytes::be_value(b) <= u16::MAX,
{
    crate::bytes::lemma_pow256_small();
    crate::bytes::lemma_be_value_round_trip(b);
    crate::bytes::lemma_be_round_trip(id as nat, 2);
}

/// What reading the name entries gives: the number of each name that an
/// entry has, and the first number above them.
proof fn lemma_read_names(pairs: Seq<(Seq<u8>, Seq<u8>)>)
    requires
        distinct(pairs),
    ensures
        forall|n: Seq<char>| #[trigger]
            read_names(pairs, Map::empty()).dom().contains(n) ==> exists|j: int|
                names_at(pairs, n, j),
        forall|n: Seq<char>, j: int| #[trigger]
            names_at(pairs, n, j) ==> read_names(pairs, Map::empty()).dom().contains(n)
                && read_names(pairs, Map::empty())[n] == crate::bytes::be_value(pairs[j].1) as u16,
        forall|j: int|
            0 <= j < pairs.len() && names_entry(#[trigger] pairs[j]) ==> crate::bytes::be_value(
                pairs[j].1,
            ) < read_next(pairs, 0),
        read_next(pairs, 0) == 0 || exists|j: int|
            0 <= j < pairs.len() && names_entry(#[trigger] pairs[j]) && crate::bytes::be_value(
                pairs[j].1,
            ) + 1 == read_next(pairs, 0),
    decreases pairs.len(),
{
    if pairs.len() > 0 {
        let init = pairs.drop_last();
        let last = pairs.len() - 1;
        assert forall|i: int, j: int| 0 <= i < j < init.len() implies init[i].0 != init[j].0 by {
            assert(pairs[i].0 != pairs[j].0);
        }
        lemma_read_names(init);
        let before = read_names(init, Map::empty());
        let now = read_names(pairs, Map::empty());
        let (suffix, id) = pairs.last();
        let name = vstd::utf8::decode_utf8(suffix);
        if names_entry(pairs.last()) {
            lemma_utf8_back(suffix, name);
        }
        assert forall|n: Seq<char>| #[trigger] now.dom().contains(n) implies exists|j: int|
            names_at(pairs, n, j) by {
            if names_entry(pairs.last()) && n == name {
                assert(names_at(pairs, n, last));
            } else {
                assert(before.dom().contains(n));
                let j = choose|j: int| names_at(init, n, j);
                assert(names_at(pairs, n, j));
            }
        }
        assert forall|n: Seq<char>, j: int| #[trigger] names_at(pairs, n, j) implies now.dom().contains(
            n,
        ) && now[n] == crate::bytes::be_value(pairs[j].1) as u16 by {
            if j < last {
                assert(names_at(init, n, j));
                assert(pairs[j].0 != pairs[last].0);
                if names_entry(pairs.last()) && n == name {
                    assert(suffix == vstd::utf8::encode_utf8(n));
                }
            } else {
                lemma_utf8_back(suffix, n);
            }
        }
        let next0 = read_next(init, 0);
        let next1 = read_next(pairs, 0);
        assert forall|j: int|
            0 <= j < pairs.len() && names_entry(
                #[trigger] pairs[j],
            ) implies crate::bytes::be_value(pairs[j].1) < next1 by {
            if j < last {
                assert(init[j] == pairs[j]);
                assert(names_entry(init[j]));
            }
        }
        if next1 != 0 {
            if next1 == next0 {
                let j = choose|j: int|
                    0 <= j < init.len() && names_entry(#[trigger] init[j])
                        && crate::bytes::be_value(init[j].1) + 1 == next0;
                assert(pairs[j] == init[j]);
            } else {
                assert(names_entry(pairs[last]));
            }
        }
    }
}

/// What reading the number entries gives: the name of each number that an
/// entry has.
proof fn lemma_read_ids(pairs: Seq<(Seq<u8>, Seq<u8>)>)
    requires
        distinct(pairs),
    ensures
        forall|id: u16| #[trigger]
            read_ids(pairs, Map::empty()).dom().contains(id) ==> exists|j: int|
                ids_at(pairs, id, j),
        forall|id: u16, j: int| #[trigger]
            ids_at(pairs, id, j) ==> read_ids(pairs, Map::empty()).dom().contains(id) && read_ids(
                pairs,
                Map::empty(),
            )[id] == vstd::utf8::decode_utf8(pairs[j].1),
    decreases pairs.len(),
{
    if pairs.len() > 0 {
        let init = pairs.drop_last();
        let last = pairs.len() - 1;
        assert forall|i: int, j: int| 0 <= i < j < init.len() implies init[i].0 != init[j].0 by {
            assert(pairs[i].0 != pairs[j].0);
        }
        lemma_read_ids(init);
        let before = read_ids(init, Map::empty());
        let now = read_ids(pairs, Map::empty());
        let (suffix, name) = pairs.last();
        let num = crate::bytes::be_value(suffix) as u16;
        if ids_entry(pairs.last()) {
            lemma_be2_back(suffix, num);
        }
        assert forall|id: u16| #[trigger] now.dom().contains(id) implies exists|j: int|
            ids_at(pairs, id, j) by {
            if ids_entry(pairs.last()) && id == num {
                assert(ids_at(pairs, id, last));
            } else {
                assert(before.dom().contains(id));
                let j = choose|j: int| ids_at(init, id, j);
                assert(ids_at(pairs, id, j));
            }
        }
        assert forall|id: u16, j: int| #[trigger] ids_at(pairs, id, j) implies now.dom().contains(id)
            && now[id] == vstd::utf8::decode_utf8(pairs[j].1) by {
            if j < last {
                assert(ids_at(init, id, j));
                assert(pairs[j].0 != pairs[last].0);
                if ids_entry(pairs.last()) && id == num {
                    assert(suffix == crate::bytes::be_bytes(id as nat, 2));
                }
            } else {
                lemma_be2_back(suffix, id);
            }
        }
    }
}

/// The suffix pairs under a prefix are distinct, and hold exactly what is
/// stored there.
proof fn lemma_suffix_pairs(m: crate::engine::storage::Contents, p: Seq<u8>)
    requires
        m.dom().finite(),
    ensures
        distinct(crate::engine::storage::prefix_suffix_pairs(m, p)),
        forall|j: int|
            0 <= j < crate::engine::storage::prefix_suffix_pairs(m, p).len() ==> {
                let pair = #[trigger] crate::engine::storage::prefix_suffix_pairs(m, p)[j];
                m.dom().contains(p + pair.0) && m[p + pair.0] == pair.1
            },
        forall|x: Seq<u8>| #[trigger]
            m.dom().contains(p + x) ==> crate::engine::storage::prefix_suffix_pairs(
                m,
                p,
            ).contains((x, m[p + x])),
{
    let set = crate::engine::storage::prefix_set(m, p);
    assert(set.subset_of(m.dom()));
    vstd::set_lib::lemma_set_subset_finite(m.dom(), set);
    crate::engine::storage::lemma_finite_listing(set);
    let ks = crate::engine::storage::prefix_keys(m, p);
    let pairs = crate::engine::storage::prefix_suffix_pairs(m, p);
    assert forall|j: int| 0 <= j < pairs.len() implies {
        let pair = #[trigger] pairs[j];
        m.dom().contains(p + pair.0) && m[p + pair.0] == pair.1
    } by {
        assert(set.contains(ks[j]));
        crate::bytes::lemma_starts_with_split(ks[j], p);
    }
    assert forall|i: int, j: int| 0 <= i < j < pairs.len() implies pairs[i].0 != pairs[j].0 by {
        assert(set.contains(ks[i]) && set.contains(ks[j]));
        crate::bytes::lemma_starts_with_split(ks[i], p);
        crate::bytes::lemma_starts_with_split(ks[j], p);
        crate::bytes::lemma_lex_asymmetric(ks[i], ks[j]);
    }
    assert forall|x: Seq<u8>| #[trigger] m.dom().contains(p + x) implies pairs.contains(
        (x, m[p + x]),
    ) by {
        crate::bytes::lemma_starts_with_concat(p, x);
        assert(set.contains(p + x));
        let j = choose|j: int| 0 <= j < ks.len() && ks[j] == p + x;
        assert(pairs[j] == (x, m[p + x]));
    }
}

/// The numbers by name of a fresh cache are the stored ones.
pub proof fn law_load_names(m: crate::engine::storage::Contents, h: DictHome, n: Seq<char>)
    requires
        m.dom().finite(),
    ensures
        ({
            let d = load_dict(fresh_dict(), m, h);
            let k = name_key(h, n);
            &&& d.names.dom().contains(n) <==> m.dom().contains(k) && m[k].len() == 2
            &&& d.names.dom().contains(n) ==> d.names[n] == crate::bytes::be_value(m[k]) as u16
                && d.names[n] < d.next
        }),
{
    broadcast use vstd::utf8::encode_utf8_valid_utf8;

    let p = h.names;
    let x = vstd::utf8::encode_utf8(n);
    let pairs = stored_name_pairs(m, h);
    lemma_suffix_pairs(m, p);
    lemma_read_names(pairs);
    let names = read_names(pairs, Map::empty());
    if names.dom().contains(n) {
        let j = choose|j: int| names_at(pairs, n, j);
        assert(m.dom().contains(p + pairs[j].0));
        lemma_be2_back(pairs[j].1, 0);
    }
    if m.dom().contains(p + x) && m[p + x].len() == 2 {
        let j = choose|j: int| 0 <= j < pairs.len() && pairs[j] == (x, m[p + x]);
        assert(names_at(pairs, n, j));
    }
}

/// The names by number of a fresh cache are the stored ones.
pub proof fn law_load_ids(m: crate::engine::storage::Contents, h: DictHome, id: u16)
    requires
        m.dom().finite(),
    ensures
        ({
            let d = load_dict(fresh_dict(), m, h);
            &&& d.ids.dom().contains(id) <==> probe(m, h, id) is Some
            &&& d.ids.dom().contains(id) ==> probe(m, h, id) == Some(d.ids[id])
        }),
{
    let p = h.ids;
    let x = crate::bytes::be_bytes(id as nat, 2);
    let pairs = stored_id_pairs(m, h);
    crate::bytes::lemma_be_bytes_len(id as nat, 2);
    lemma_suffix_pairs(m, p);
    lemma_read_ids(pairs);
    let ids = read_ids(pairs, Map::empty());
    if ids.dom().contains(id) {
        let j = choose|j: int| ids_at(pairs, id, j);
        assert(m.dom().contains(p + pairs[j].0));
    }
    if m.dom().contains(p + x) && vstd::utf8::valid_utf8(m[p + x]) {
        let j = choose|j: int| 0 <= j < pairs.len() && pairs[j] == (x, m[p + x]);
        assert(ids_at(pairs, id, j));
    }
}

/// A name that was given a number is found again after a restart: a fresh
/// cache reads the same dictionary and goes on numbering behind it.
pub proof fn law_restart_resumes(
    m: crate::engine::storage::Contents,
    h: DictHome,
    name: Seq<char>,
)
    requires
        m.dom().finite(),
        apart(h),
        !load_dict(fresh_dict(), m, h).names.dom().contains(name),
        load_dict(fresh_dict(), m, h).next <= u16::MAX,
    ensures
        ({
            let d = load_dict(fresh_dict(), m, h);
            let m2 = crate::engine::storage::apply_ops(
                m,
                dict_writes(h, name, d.next as u16),
            );
            load_dict(fresh_dict(), m2, h) == claim(d, name)
        }),
{
    broadcast use vstd::utf8::encode_utf8_valid_utf8, vstd::utf8::encode_utf8_decode_utf8;

    let d = load_dict(fresh_dict(), m, h);
    let id = d.next as u16;
    let writes = dict_writes(h, name, id);
    let m2 = crate::engine::storage::apply_ops(m, writes);
    let d2 = load_dict(fresh_dict(), m2, h);
    let c = claim(d, name);
    let ik = id_key(h, id);
    let nk = name_key(h, name);
    assert(writes.drop_last() =~= seq![writes[0]]);
    assert(seq![writes[0]].drop_last() =~= Seq::empty());
    assert(crate::engine::storage::apply_ops(m, Seq::empty()) == m);
    assert(crate::engine::storage::apply_ops(m, seq![writes[0]]) == m.insert(
        ik,
        vstd::utf8::encode_utf8(name),
    ));
    assert(m2 == m.insert(ik, vstd::utf8::encode_utf8(name)).insert(
        nk,
        crate::bytes::be_bytes(id as nat, 2),
    ));
    crate::bytes::lemma_be_bytes_len(id as nat, 2);
    crate::bytes::lemma_pow256_small();
    crate::bytes::lemma_be_round_trip(id as nat, 2);
    assert forall|n: Seq<char>| #[trigger] d2.names.dom().contains(n) == c.names.dom().contains(n)
        && (d2.names.dom().contains(n) ==> d2.names[n] == c.names[n]) by {
        law_load_names(m, h, n);
        law_load_names(m2, h, n);
        lemma_dict_keys(h, n, name, id, id);
    }
    assert(d2.names =~= c.names);
    assert forall|i: u16| #[trigger] d2.ids.dom().contains(i) == c.ids.dom().contains(i) && (
    d2.ids.dom().contains(i) ==> d2.ids[i] == c.ids[i]) by {
        law_load_ids(m, h, i);
        law_load_ids(m2, h, i);
        lemma_dict_keys(h, name, name, i, id);
    }
    assert(d2.ids =~= c.ids);
    assert(d2.next == c.next) by {
        let p = h.names;
        let a = stored_name_pairs(m, h);
        let b = stored_name_pairs(m2, h);
        lemma_suffix_pairs(m, p);
        lemma_suffix_pairs(m2, p);
        lemma_read_names(a);
        lemma_read_names(b);
        let x = vstd::utf8::encode_utf8(name);
        assert(m2.dom().contains(p + x));
        let j = choose|j: int| 0 <= j < b.len() && b[j] == (x, m2[p + x]);
        assert(names_entry(b[j]));
        assert(d2.next > id);
        let t = choose|t: int|
            0 <= t < b.len() && names_entry(#[trigger] b[t]) && crate::bytes::be_value(b[t].1) + 1
                == d2.next;
        assert(m2.dom().contains(p + b[t].0));
        let y = b[t].0;
        if y != x {
            lemma_fronts(p, p, y, x);
            lemma_fronts(p, h.ids, y, crate::bytes::be_bytes(id as nat, 2));
            assert(m.dom().contains(p + y) && m[p + y] == m2[p + y]);
            let u = choose|u: int| 0 <= u < a.len() && a[u] == (y, m[p + y]);
            assert(names_entry(a[u]));
        }
    }
    assert(d2 =~= c);
}

/// Keys behind one front differ as what follows it does; keys behind fronts
/// that part ways differ.
proof fn lemma_fronts(p: Seq<u8>, q: Seq<u8>, x: Seq<u8>, y: Seq<u8>)
    ensures
        p + x == p + y <==> x == y,
        !crate::bytes::starts_with(p, q) && !crate::bytes::starts_with(q, p) ==> p + x != q + y,
{
    if p + x == p + y {
        crate::bytes::lemma_starts_with_concat(p, x);
        crate::bytes::lemma_starts_with_concat(p, y);
    }
    if p + x == q + y {
        if p.len() <= q.len() {
            assert(q.subrange(0, p.len() as int) =~= (q + y).subrange(0, p.len() as int));
            assert((p + x).subrange(0, p.len() as int) =~= p);
        } else {
            assert(p.subrange(0, q.len() as int) =~= (p + x).subrange(0, q.len() as int));
            assert((q + y).subrange(0, q.len() as int) =~= q);
        }
    }
}

/// Entries of one direction share a key only for one name or number; those
/// of different directions never do.
proof fn lemma_dict_keys(h: DictHome, a: Seq<char>, b: Seq<char>, i: u16, j: u16)
    requires
        apart(h),
    ensures
        name_key(h, a) == name_key(h, b) <==> a == b,
        id_key(h, i) == id_key(h, j) <==> i == j,
        name_key(h, a) != id_key(h, j),
        id_key(h, i) != name_key(h, b),
{
    let x = vstd::utf8::encode_utf8(a);
    let y = vstd::utf8::encode_utf8(b);
    let u = crate::bytes::be_bytes(i as nat, 2);
    let v = crate::bytes::be_bytes(j as nat, 2);
    lemma_fronts(h.names, h.ids, x, y);
    lemma_fronts(h.ids, h.names, u, v);
    lemma_fronts(h.names, h.ids, x, v);
    lemma_fronts(h.ids, h.names, u, y);
    if x == y {
        crate::text::lemma_utf8_injective(a, b);
    }
    crate::bytes::lemma_pow256_small();
    if u == v {
        crate::bytes::lemma_be_injective(i as nat, j as nat, 2);
    }
}

/// What a cache knows is what the engine holds, and its two directions
/// agree.
pub open spec fn in_sync(
    d: DictView,
    m: crate::engine::storage::Contents,
    h: DictHome,
) -> bool {
    &&& m.dom().finite()
    &&& coherent(d)
    &&& d == load_dict(fresh_dict(), m, h)
}

/// A cache in step with an engine tells the same names as a fresh one.
pub proof fn law_sync_lookup(d: DictView, m: crate::engine::storage::Contents, h: DictHome)
    requires
        in_sync(d, m, h),
    ensures
        lookup_table(fresh_dict(), m, h) == d.ids,
{
    let t = lookup_table(fresh_dict(), m, h);
    assert forall|id: u16| #[trigger] t.dom().contains(id) == d.ids.dom().contains(id) && (
    t.dom().contains(id) ==> t[id] == d.ids[id]) by {
        law_load_ids(m, h, id);
    }
    assert(t =~= d.ids);
}

/// A new cache on an engine without a dictionary is in step with it.
pub proof fn law_new_dict_in_sync(m: crate::engine::storage::Contents, h: DictHome)
    requires
        m.dom().finite(),
        forall|k: Seq<u8>| #[trigger]
            m.dom().contains(k) ==> !crate::bytes::starts_with(k, h.ids)
                && !crate::bytes::starts_with(k, h.names),
    ensures
        in_sync(load_dict(fresh_dict(), m, h), m, h),
        load_dict(fresh_dict(), m, h).names == Map::<Seq<char>, u16>::empty(),
        load_dict(fresh_dict(), m, h).ids == Map::<u16, Seq<char>>::empty(),
        load_dict(fresh_dict(), m, h).next == 0,
{
    let d = load_dict(fresh_dict(), m, h);
    assert forall|n: Seq<char>| !#[trigger] d.names.dom().contains(n) by {
        law_load_names(m, h, n);
        crate::bytes::lemma_starts_with_concat(h.names, vstd::utf8::encode_utf8(n));
    }
    assert forall|id: u16| !#[trigger] d.ids.dom().contains(id) by {
        law_load_ids(m, h, id);
        crate::bytes::lemma_starts_with_concat(h.ids, crate::bytes::be_bytes(id as nat, 2));
    }
    assert(d.names =~= Map::empty());
    assert(d.ids =~= Map::empty());
    let pairs = stored_name_pairs(m, h);
    lemma_suffix_pairs(m, h.names);
    if pairs.len() > 0 {
        assert(m.dom().contains(h.names + pairs[0].0));
        crate::bytes::lemma_starts_with_concat(h.names, pairs[0].0);
    }
}

/// What is stored under a front does not change with keys elsewhere.
pub proof fn lemma_pairs_elsewhere(
    m: crate::engine::storage::Contents,
    m2: crate::engine::storage::Contents,
    p: Seq<u8>,
)
    requires
        m.dom().finite(),
        forall|k: Seq<u8>|
            #![trigger m.dom().contains(k)]
            #![trigger m2.dom().contains(k)]
            crate::bytes::starts_with(k, p) ==> (m.dom().contains(k) == m2.dom().contains(k) && (
            m.dom().contains(k) ==> m[k] == m2[k])),
    ensures
        crate::engine::storage::prefix_suffix_pairs(m, p)
            == crate::engine::storage::prefix_suffix_pairs(m2, p),
{
    let set = crate::engine::storage::prefix_set(m, p);
    assert(set =~= crate::engine::storage::prefix_set(m2, p));
    assert(set.subset_of(m.dom()));
    vstd::set_lib::lemma_set_subset_finite(m.dom(), set);
    crate::engine::storage::lemma_finite_listing(set);
    let ks = crate::engine::storage::prefix_keys(m, p);
    assert forall|j: int| 0 <= j < ks.len() implies m[#[trigger] ks[j]] == m2[ks[j]] by {
        assert(set.contains(ks[j]));
    }
    assert(crate::engine::storage::prefix_suffix_pairs(m, p)
        =~= crate::engine::storage::prefix_suffix_pairs(m2, p));
}

/// Writes outside the dictionary leave a cache in step.
pub proof fn law_sync_elsewhere(
    d: DictView,
    m: crate::engine::storage::Contents,
    m2: crate::engine::storage::Contents,
    h: DictHome,
)
    requires
        in_sync(d, m, h),
        m2.dom().finite(),
        forall|k: Seq<u8>|
            #![trigger m.dom().contains(k)]
            #![trigger m2.dom().contains(k)]
            crate::bytes::starts_with(k, h.ids) || crate::bytes::starts_with(k, h.names) ==> (
            m.dom().contains(k) == m2.dom().contains(k) && (m.dom().contains(k) ==> m[k]
                == m2[k])),
    ensures
        in_sync(d, m2, h),
{
    lemma_pairs_elsewhere(m, m2, h.ids);
    lemma_pairs_elsewhere(m, m2, h.names);
}

/// Looking up a name on an engine that refuses no write leaves the cache in
/// step.
proof fn lemma_step_sync<S: VirtualStorage>(
    s: DictState,
    name: Seq<char>,
    w: crate::engine::storage::Contents,
    w2: crate::engine::storage::Contents,
)
    requires
        S::never_refuses(),
        apart(s.home),
        in_sync(s.dict, w, s.home),
        DictStore::<S>::ready(s, name),
        DictStore::<S>::moved(s, name, w, w2),
    ensures
        in_sync(DictStore::<S>::step(s, name).dict, w2, s.home),
        DictStore::<S>::step(s, name).home == s.home,
{
    if !s.dict.names.dom().contains(name) {
        law_claim_appends(s.dict, name);
        law_restart_resumes(w, s.home, name);
        let ops = dict_writes(s.home, name, s.dict.next as u16);
        assert(ops.drop_last() =~= seq![ops[0]]);
        assert(seq![ops[0]].drop_last() =~= Seq::empty());
        assert(crate::engine::storage::apply_ops(w, Seq::empty()) == w);
        assert(crate::engine::storage::apply_ops(w, seq![ops[0]]).dom().finite());
        assert(w2.dom().finite());
    }
}

/// Looking up names on an engine that refuses no write leaves the cache in
/// step.
pub proof fn law_learning_keeps_sync<S: VirtualStorage>(
    s: DictState,
    order: Seq<Seq<char>>,
    w: crate::engine::storage::Contents,
    w2: crate::engine::storage::Contents,
)
    requires
        S::never_refuses(),
        apart(s.home),
        in_sync(s.dict, w, s.home),
        crate::model::obj_dynamic::ready_all::<DictStore<S>>(s, order),
        crate::model::obj_dynamic::moved_all::<DictStore<S>>(s, order, w, w2),
    ensures
        in_sync(crate::model::obj_dynamic::steps::<DictStore<S>>(s, order).dict, w2, s.home),
{
    let trail = choose|t: Seq<crate::engine::storage::Contents>| #[trigger]
        crate::model::obj_dynamic::is_trail::<DictStore<S>>(s, order, t) && t[0] == w && t.last()
            == w2;
    lemma_trail_sync::<S>(s, order, trail, order.len() as int);
    assert(order.take(order.len() as int) =~= order);
}

proof fn lemma_trail_sync<S: VirtualStorage>(
    s: DictState,
    order: Seq<Seq<char>>,
    trail: Seq<crate::engine::storage::Contents>,
    n: int,
)
    requires
        S::never_refuses(),
        apart(s.home),
        0 <= n <= order.len(),
        in_sync(s.dict, trail[0], s.home),
        crate::model::obj_dynamic::ready_all::<DictStore<S>>(s, order),
        crate::model::obj_dynamic::is_trail::<DictStore<S>>(s, order, trail),
    ensures
        in_sync(
            crate::model::obj_dynamic::steps::<DictStore<S>>(s, order.take(n)).dict,
            trail[n],
            s.home,
        ),
        crate::model::obj_dynamic::steps::<DictStore<S>>(s, order.take(n)).home == s.home,
    decreases n,
{
    if n == 0 {
        assert(order.take(0) =~= Seq::empty());
    } else {
        lemma_trail_sync::<S>(s, order, trail, n - 1);
        let before = order.take(n - 1);
        let mid = crate::model::obj_dynamic::steps::<DictStore<S>>(s, before);
        assert(order.take(n).drop_last() =~= before);
        assert(order.take(n).last() == order[n - 1]);
        assert(order =~= order.take(n) + order.skip(n));
        crate::model::obj_dynamic::lemma_steps_concat::<DictStore<S>>(
            s,
            order.take(n),
            order.skip(n),
        );
        assert(DictStore::<S>::moved(mid, order[n - 1], trail[n - 1], trail[n]));
        lemma_step_sync::<S>(mid, order[n - 1], trail[n - 1], trail[n]);
    }
}

/// Looking up names changes nothing outside the dictionary.
pub proof fn law_learning_spares_others<S: VirtualStorage>(
    s: DictState,
    order: Seq<Seq<char>>,
    w: crate::engine::storage::Contents,
    w2: crate::engine::storage::Contents,
    k: Seq<u8>,
)
    requires
        crate::model::obj_dynamic::moved_all::<DictStore<S>>(s, order, w, w2),
        !crate::bytes::starts_with(k, s.home.ids),
        !crate::bytes::starts_with(k, s.home.names),
    ensures
        w2.dom().contains(k) == w.dom().contains(k),
        w.dom().contains(k) ==> w2[k] == w[k],
{
    let trail = choose|t: Seq<crate::engine::storage::Contents>| #[trigger]
        crate::model::obj_dynamic::is_trail::<DictStore<S>>(s, order, t) && t[0] == w && t.last()
            == w2;
    lemma_trail_spares::<S>(s, order, trail, order.len() as int, k);
}

proof fn lemma_trail_spares<S: VirtualStorage>(
    s: DictState,
    order: Seq<Seq<char>>,
    trail: Seq<crate::engine::storage::Contents>,
    n: int,
    k: Seq<u8>,
)
    requires
        0 <= n <= order.len(),
        crate::model::obj_dynamic::is_trail::<DictStore<S>>(s, order, trail),
        !crate::bytes::starts_with(k, s.home.ids),
        !crate::bytes::starts_with(k, s.home.names),
    ensures
        crate::model::obj_dynamic::steps::<DictStore<S>>(s, order.take(n)).home == s.home,
        trail[n].dom().contains(k) == trail[0].dom().contains(k),
        trail[0].dom().contains(k) ==> trail[n][k] == trail[0][k],
    decreases n,
{
    if n == 0 {
        assert(order.take(0) =~= Seq::empty());
    } else {
        lemma_trail_spares::<S>(s, order, trail, n - 1, k);
        let name = order[n - 1];
        let mid = crate::model::obj_dynamic::steps::<DictStore<S>>(s, order.take(n - 1));
        assert(order.take(n).drop_last() =~= order.take(n - 1));
        assert(order.take(n).last() == name);
        assert(DictStore::<S>::moved(mid, name, trail[n - 1], trail[n]));
        let ops = dict_writes(mid.home, name, mid.dict.next as u16);
        let w = trail[n - 1];
        assert(ops.drop_last() =~= seq![ops[0]]);
        assert(seq![ops[0]].drop_last() =~= Seq::empty());
        assert(crate::engine::storage::apply_ops(w, Seq::empty()) == w);
        let one = crate::engine::storage::apply_ops(w, seq![ops[0]]);
        assert(one == crate::engine::storage::apply_op(w, ops[0]));
        assert(crate::engine::storage::apply_ops(w, ops) == crate::engine::storage::apply_op(
            one,
            ops[1],
        ));
        assert(ops[0].0 != k) by {
            crate::bytes::lemma_starts_with_concat(
                mid.home.ids,
                ops[0].0.skip(mid.home.ids.len() as int),
            );
            assert(ops[0].0 =~= mid.home.ids + ops[0].0.skip(mid.home.ids.len() as int));
        }
        assert(ops[1].0 != k) by {
            crate::bytes::lemma_starts_with_concat(
                mid.home.names,
                ops[1].0.skip(mid.home.names.len() as int),
            );
            assert(ops[1].0 =~= mid.home.names + ops[1].0.skip(mid.home.names.len() as int));
        }
    }
}

/// Looking up names that all have numbers changes nothing.
pub proof fn law_known_names_stay<S: VirtualStorage>(s: DictState, order: Seq<Seq<char>>)
    requires
        s.dict.loaded,
        crate::model::obj_dynamic::all_known(order, s.dict.names),
    ensures
        crate::model::obj_dynamic::ready_all::<DictStore<S>>(s, order),
        crate::model::obj_dynamic::steps::<DictStore<S>>(s, order) == s,
    decreases order.len(),
{
    if order.len() > 0 {
        assert forall|i: int| 0 <= i < order.drop_last().len() implies s.dict.names.dom().contains(
            #[trigger] order.drop_last()[i],
        ) by {
            assert(order.drop_last()[i] == order[i]);
        }
        law_known_names_stay::<S>(s, order.drop_last());
        assert(order.last() == order[order.len() - 1]);
    }
}

/// Giving a name its number and storing both directions leaves the cache in
/// step. What had a name or number keeps it, and the name is found by its
/// number.
pub proof fn law_naming_keeps_sync(
    d: DictView,
    m: crate::engine::storage::Contents,
    h: DictHome,
    name: Seq<char>,
)
    requires
        apart(h),
        in_sync(d, m, h),
        d.names.dom().contains(name) || d.next <= u16::MAX,
    ensures
        ({
            let d2 = with_name(d, name);
            &&& in_sync(
                d2,
                crate::engine::storage::apply_ops(m, name_writes(h, d, name)),
                h,
            )
            &&& d2.loaded
            &&& d.names.submap_of(d2.names)
            &&& d.ids.submap_of(d2.ids)
            &&& d2.names.dom().contains(name)
            &&& d2.ids.dom().contains(d2.names[name])
            &&& d2.ids[d2.names[name]] == name
        }),
{
    let m2 = crate::engine::storage::apply_ops(m, name_writes(h, d, name));
    if !d.names.dom().contains(name) {
        law_claim_appends(d, name);
        law_restart_resumes(m, h, name);
        let ops = dict_writes(h, name, d.next as u16);
        assert(ops.drop_last() =~= seq![ops[0]]);
        assert(seq![ops[0]].drop_last() =~= Seq::empty());
        assert(crate::engine::storage::apply_ops(m, Seq::empty()) == m);
        assert(crate::engine::storage::apply_ops(m, seq![ops[0]]).dom().finite());
        assert(m2.dom().finite());
    }
}

/// Numbering names and storing what they take leaves the cache in step.
pub proof fn law_growth_keeps_sync(
    s: DictState,
    order: Seq<Seq<char>>,
    m: crate::engine::storage::Contents,
)
    requires
        apart(s.home),
        in_sync(s.dict, m, s.home),
        crate::model::obj_dynamic::ready_all::<PendingNames>(s, order),
    ensures
        in_sync(
            crate::model::obj_dynamic::steps::<PendingNames>(s, order).dict,
            crate::engine::storage::apply_ops(m, growth(s, order)),
            s.home,
        ),
    decreases order.len(),
{
    if order.len() > 0 {
        let init = order.drop_last();
        let d = crate::model::obj_dynamic::steps::<PendingNames>(s, init).dict;
        law_growth_keeps_sync(s, init, m);
        lemma_pending_home(s, init);
        law_naming_keeps_sync(
            d,
            crate::engine::storage::apply_ops(m, growth(s, init)),
            s.home,
            order.last(),
        );
        crate::engine::storage::lemma_apply_ops_concat(
            m,
            growth(s, init),
            name_writes(s.home, d, order.last()),
        );
    }
}

/// Numbering names writes nothing outside the dictionary.
pub proof fn law_growth_spares_others(
    s: DictState,
    order: Seq<Seq<char>>,
    m: crate::engine::storage::Contents,
    k: Seq<u8>,
)
    requires
        !crate::bytes::starts_with(k, s.home.ids),
        !crate::bytes::starts_with(k, s.home.names),
    ensures
        crate::engine::storage::same_at(
            crate::engine::storage::apply_ops(m, growth(s, order)),
            m,
            k,
        ),
{
    let w = growth(s, order);
    lemma_growth_keys(s, order, k);
    crate::engine::storage::lemma_ops_untouched(m, w, k);
}

proof fn lemma_growth_keys(s: DictState, order: Seq<Seq<char>>, k: Seq<u8>)
    requires
        !crate::bytes::starts_with(k, s.home.ids),
        !crate::bytes::starts_with(k, s.home.names),
    ensures
        forall|i: int| 0 <= i < growth(s, order).len() ==> (#[trigger] growth(s, order)[i]).0 != k,
    decreases order.len(),
{
    if order.len() > 0 {
        let init = order.drop_last();
        let d = crate::model::obj_dynamic::steps::<PendingNames>(s, init).dict;
        let a = growth(s, init);
        let b = name_writes(s.home, d, order.last());
        lemma_growth_keys(s, init, k);
        crate::bytes::lemma_starts_with_concat(
            s.home.ids,
            crate::bytes::be_bytes(d.next as u16 as nat, 2),
        );
        crate::bytes::lemma_starts_with_concat(
            s.home.names,
            vstd::utf8::encode_utf8(order.last()),
        );
        assert forall|i: int| 0 <= i < growth(s, order).len() implies (#[trigger] growth(
            s,
            order,
        )[i]).0 != k by {
            if i < a.len() {
                assert(growth(s, order)[i] == a[i]);
            } else {
                assert(growth(s, order)[i] == b[i - a.len()]);
                assert(i - a.len() == 0 || i - a.len() == 1);
            }
        }
    }
}

/// An entry behind the writes of new names is set last.
pub proof fn lemma_entry_last(
    m: crate::engine::storage::Contents,
    first: Seq<(Seq<u8>, Option<Seq<u8>>)>,
    key: Seq<u8>,
    body: Seq<u8>,
)
    ensures
        crate::engine::storage::apply_ops(m, first.push(entry_write(key, body)))
            == crate::model::dynamic_collection::set_entry(
            crate::engine::storage::apply_ops(m, first),
            key,
            body,
        ),
{
    assert(first.push(entry_write(key, body)).drop_last() =~= first);
}

/// Giving a name its number, on an engine that refuses no write, leaves the
/// cache in step. What had a name or number keeps it, and the name is found
/// by its number.
pub proof fn law_resolving_keeps_sync<S: VirtualStorage>(
    d: DictView,
    m: crate::engine::storage::Contents,
    h: DictHome,
    name: Seq<char>,
    d2: DictView,
    m2: crate::engine::storage::Contents,
)
    requires
        S::never_refuses(),
        apart(h),
        in_sync(load_dict(d, m, h), m, h),
        resolvable(d, m, h, name),
        resolved::<S>(d, m, h, name, d2, m2),
    ensures
        in_sync(d2, m2, h),
        d2.loaded,
        load_dict(d, m, h).names.submap_of(d2.names),
        load_dict(d, m, h).ids.submap_of(d2.ids),
        d2.names.dom().contains(name),
        d2.ids.dom().contains(d2.names[name]),
        d2.ids[d2.names[name]] == name,
{
    law_naming_keeps_sync(load_dict(d, m, h), m, h, name);
}

/// Names in the order of their first appearance.
pub open spec fn first_seen(names: Seq<Seq<char>>) -> Seq<Seq<char>>
    decreases names.len(),
{
    if names.len() == 0 {
        Seq::empty()
    } else {
        let before = first_seen(names.drop_last());
        if before.contains(names.last()) {
            before
        } else {
            before.push(names.last())
        }
    }
}

/// The dictionary that numbers these names from 0 on.
pub open spec fn numbering(seen: Seq<Seq<char>>) -> DictView
    decreases seen.len(),
{
    if seen.len() == 0 {
        DictView { names: Map::empty(), ids: Map::empty(), next: 0, loaded: true }
    } else {
        claim(numbering(seen.drop_last()), seen.last())
    }
}

/// An engine once these names have been stored with their numbers from 0 on.
pub open spec fn with_numbers(
    m: crate::engine::storage::Contents,
    h: DictHome,
    seen: Seq<Seq<char>>,
) -> crate::engine::storage::Contents
    decreases seen.len(),
{
    if seen.len() == 0 {
        m
    } else {
        crate::engine::storage::apply_ops(
            with_numbers(m, h, seen.drop_last()),
            dict_writes(h, seen.last(), (seen.len() - 1) as u16),
        )
    }
}

/// A run of lookups: before each, the cache is the one that the lookup
/// before it left, or a new one.
pub open spec fn lookup_run<S: VirtualStorage>(
    h: DictHome,
    names: Seq<Seq<char>>,
    before: Seq<DictView>,
    after: Seq<DictView>,
    worlds: Seq<crate::engine::storage::Contents>,
) -> bool {
    &&& before.len() == names.len()
    &&& after.len() == names.len()
    &&& worlds.len() == names.len() + 1
    &&& forall|i: int|
        0 <= i < names.len() ==> {
            &&& #[trigger] before[i] == fresh_dict() || (i > 0 && before[i] == after[i - 1])
            &&& resolvable(before[i], worlds[i], h, names[i])
            &&& resolved::<S>(before[i], worlds[i], h, names[i], after[i], worlds[i + 1])
        }
}

proof fn lemma_first_seen(names: Seq<Seq<char>>)
    ensures
        first_seen(names).no_duplicates(),
        forall|x: Seq<char>| #[trigger] first_seen(names).contains(x) <==> names.contains(x),
    decreases names.len(),
{
    let out = first_seen(names);
    if names.len() > 0 {
        let init = names.drop_last();
        let before = first_seen(init);
        lemma_first_seen(init);
        assert forall|x: Seq<char>| #[trigger] out.contains(x) <==> names.contains(x) by {
            if names.contains(x) {
                let t = choose|t: int| 0 <= t < names.len() && names[t] == x;
                if t < init.len() {
                    assert(init[t] == x);
                    assert(before.contains(x));
                    let u = choose|u: int| 0 <= u < before.len() && before[u] == x;
                    assert(out[u] == x);
                } else if !before.contains(x) {
                    assert(out[out.len() - 1] == x);
                }
            }
            if out.contains(x) {
                let t = choose|t: int| 0 <= t < out.len() && out[t] == x;
                if t < before.len() {
                    assert(before[t] == x);
                    assert(before.contains(x));
                    let u = choose|u: int| 0 <= u < init.len() && init[u] == x;
                    assert(names[u] == x);
                } else {
                    assert(names[names.len() - 1] == x);
                }
            }
        }
        assert forall|i: int, j: int| 0 <= i < out.len() && 0 <= j < out.len() && i != j implies out[
            i
        ] != out[j] by {
            if i < before.len() && j < before.len() {
                assert(before[i] != before[j]);
            } else if i < before.len() {
                assert(before.contains(before[i]));
            } else {
                assert(before.contains(before[j]));
            }
        }
    }
}

proof fn lemma_numbering(seen: Seq<Seq<char>>)
    requires
        seen.no_duplicates(),
        seen.len() <= 0x1_0000,
    ensures
        ({
            let d = numbering(seen);
            &&& d.loaded
            &&& d.next == seen.len()
            &&& coherent(d)
            &&& forall|x: Seq<char>| #[trigger] d.names.dom().contains(x) <==> seen.contains(x)
            &&& forall|j: int| 0 <= j < seen.len() ==> d.names[#[trigger] seen[j]] == j
        }),
    decreases seen.len(),
{
    let d = numbering(seen);
    if seen.len() > 0 {
        let init = seen.drop_last();
        assert forall|i: int, j: int|
            0 <= i < init.len() && 0 <= j < init.len() && i != j implies init[i] != init[j] by {
            assert(seen[i] != seen[j]);
        }
        lemma_numbering(init);
        let last = seen.last();
        assert(!init.contains(last)) by {
            if init.contains(last) {
                let t = choose|t: int| 0 <= t < init.len() && init[t] == last;
                assert(seen[t] == seen[seen.len() - 1]);
            }
        }
        assert(!numbering(init).names.dom().contains(last));
        law_claim_appends(numbering(init), last);
        assert forall|x: Seq<char>| #[trigger] d.names.dom().contains(x) <==> seen.contains(x) by {
            if seen.contains(x) {
                let t = choose|t: int| 0 <= t < seen.len() && seen[t] == x;
                if t < init.len() {
                    assert(init[t] == x);
                    assert(init.contains(x));
                }
            }
            if init.contains(x) {
                let t = choose|t: int| 0 <= t < init.len() && init[t] == x;
                assert(seen[t] == x);
            }
            assert(seen[seen.len() - 1] == last);
        }
        assert forall|j: int| 0 <= j < seen.len() implies d.names[#[trigger] seen[j]] == j by {
            if j < init.len() {
                assert(seen[j] == init[j]);
                assert(init.contains(init[j]));
            }
        }
    } else {
        law_fresh_is_coherent();
        assert(coherent(d));
    }
}

/// Names looked up in any order, repeated or not, through any row of caches
/// on one engine that refuses no write and held no dictionary, are numbered
/// from 0 on as they first appear: a name has one number, another name
/// another. The engine gains the two entries of each name, and nothing
/// else; a known name writes nothing.
pub proof fn law_numbers_over_runs<S: VirtualStorage>(
    h: DictHome,
    names: Seq<Seq<char>>,
    before: Seq<DictView>,
    after: Seq<DictView>,
    worlds: Seq<crate::engine::storage::Contents>,
)
    requires
        S::never_refuses(),
        apart(h),
        worlds[0].dom().finite(),
        load_dict(fresh_dict(), worlds[0], h) == numbering(Seq::empty()),
        lookup_run::<S>(h, names, before, after, worlds),
        first_seen(names).len() <= 0x1_0000,
    ensures
        ({
            let seen = first_seen(names);
            &&& seen.no_duplicates()
            &&& worlds.last() == with_numbers(worlds[0], h, seen)
            &&& load_dict(fresh_dict(), worlds.last(), h) == numbering(seen)
            &&& forall|i: int|
                0 <= i < names.len() ==> {
                    let n = (#[trigger] after[i]).names[names[i]];
                    n < seen.len() && seen[n as int] == names[i]
                }
        }),
    decreases names.len(),
{
    let seen = first_seen(names);
    lemma_first_seen(names);
    if names.len() == 0 {
        assert(worlds.last() == worlds[0]);
    } else {
        let n = names.len() - 1;
        let init = names.drop_last();
        let old_seen = first_seen(init);
        let b = before.drop_last();
        let a = after.drop_last();
        let w = worlds.drop_last();
        let name = names.last();
        assert(lookup_run::<S>(h, init, b, a, w)) by {
            assert forall|i: int| 0 <= i < init.len() implies {
                &&& #[trigger] b[i] == fresh_dict() || (i > 0 && b[i] == a[i - 1])
                &&& resolvable(b[i], w[i], h, init[i])
                &&& resolved::<S>(b[i], w[i], h, init[i], a[i], w[i + 1])
            } by {
                assert(b[i] == before[i]);
            }
        }
        law_numbers_over_runs::<S>(h, init, b, a, w);
        lemma_first_seen(init);
        let m = w.last();
        assert(m == worlds[n]);
        assert(before[n] == fresh_dict() || (n > 0 && before[n] == after[n - 1]));
        lemma_run_cache::<S>(h, init, b, a, w);
        lemma_numbering(old_seen);
        lemma_numbering(seen);
        let l = load_dict(before[n], m, h);
        assert(l == numbering(old_seen));
        assert(resolved::<S>(before[n], m, h, name, after[n], worlds[n + 1]));
        if old_seen.contains(name) {
            assert(after[n] == l);
            assert(worlds.last() == m);
        } else {
            assert(seen.drop_last() =~= old_seen);
            assert(after[n] == numbering(seen));
            law_restart_resumes(m, h, name);
            assert(seen[seen.len() - 1] == name);
        }
        assert(names.contains(names[n]));
        assert(seen.contains(name));
        let t = choose|t: int| 0 <= t < seen.len() && seen[t] == name;
        assert(after[n].names[seen[t]] == t);
        assert forall|i: int| 0 <= i < names.len() implies {
            let k = (#[trigger] after[i]).names[names[i]];
            k < seen.len() && seen[k as int] == names[i]
        } by {
            if i < n {
                assert(a[i] == after[i]);
                let k = a[i].names[init[i]];
                assert(old_seen[k as int] == seen[k as int]);
            }
        }
    }
}

/// The cache that a run leaves is the one that a new one would read.
proof fn lemma_run_cache<S: VirtualStorage>(
    h: DictHome,
    names: Seq<Seq<char>>,
    before: Seq<DictView>,
    after: Seq<DictView>,
    worlds: Seq<crate::engine::storage::Contents>,
)
    requires
        S::never_refuses(),
        apart(h),
        worlds[0].dom().finite(),
        load_dict(fresh_dict(), worlds[0], h) == numbering(Seq::empty()),
        lookup_run::<S>(h, names, before, after, worlds),
    ensures
        worlds.last().dom().finite(),
        in_sync(load_dict(fresh_dict(), worlds.last(), h), worlds.last(), h),
        names.len() > 0 ==> after.last() == load_dict(fresh_dict(), worlds.last(), h)
            && after.last().loaded,
    decreases names.len(),
{
    if names.len() == 0 {
        lemma_numbering(Seq::empty());
        assert(worlds.last() == worlds[0]);
    } else {
        let n = names.len() - 1;
        let init = names.drop_last();
        let b = before.drop_last();
        let a = after.drop_last();
        let w = worlds.drop_last();
        assert(lookup_run::<S>(h, init, b, a, w)) by {
            assert forall|i: int| 0 <= i < init.len() implies {
                &&& #[trigger] b[i] == fresh_dict() || (i > 0 && b[i] == a[i - 1])
                &&& resolvable(b[i], w[i], h, init[i])
                &&& resolved::<S>(b[i], w[i], h, init[i], a[i], w[i + 1])
            } by {
                assert(b[i] == before[i]);
            }
        }
        lemma_run_cache::<S>(h, init, b, a, w);
        assert(before[n] == fresh_dict() || (n > 0 && before[n] == after[n - 1]));
        assert(w.last() == worlds[n]);
        law_resolving_keeps_sync::<S>(
            before[n],
            worlds[n],
            h,
            names[n],
            after[n],
            worlds[n + 1],
        );
    }
}

} // verus!
