//! Rows in an engine: what tables and collections share.
//!
//! A row stands under its key behind the primary front of its table; the
//! entries of its access methods stand behind the header of the table.
//! Collections also keep embedded documents, tables do not.

use vstd::prelude::*;

use crate::bytes::{concat, slice_from, to_vec};
use crate::engine::storage::{MemBatch, VirtualStorage};
use crate::index::{
    decode_tail, del_entries, entry_prefix, key_prefix_width, put_all, release, Document,
    KvIndex,
};
use crate::key::{KeyEncode, PrefixKey};

verus! {

/// What an optional document says.
pub open spec fn opt_model<R: Document>(r: Option<R>) -> Option<R::Model> {
    match r {
        Some(d) => Some(d.model()),
        None => None,
    }
}

/// The document stored under a key, as its payload holds it.
pub open spec fn stored<R: Document>(
    m: crate::engine::storage::Contents,
    pkey: Seq<u8>,
) -> Option<R::Model> {
    if m.dom().contains(pkey) {
        Some(R::decoded(m[pkey]))
    } else {
        None
    }
}

/// The document found under a key, with the documents embedded in it if
/// those are kept.
pub open spec fn found<R: Document>(
    m: crate::engine::storage::Contents,
    pkey: Seq<u8>,
    embed: bool,
) -> Option<R::Model> {
    match stored::<R>(m, pkey) {
        Some(d) => Some(
            if embed {
                R::dereferenced(d, m)
            } else {
                d
            },
        ),
        None => None,
    }
}

/// The payload under a key, if there is one, can be read.
pub open spec fn readable_at<R: Document>(
    m: crate::engine::storage::Contents,
    pkey: Seq<u8>,
) -> bool {
    m.dom().contains(pkey) ==> R::readable(m[pkey])
}

/// All payloads of a table can be read.
pub open spec fn all_readable<R: Document>(
    m: crate::engine::storage::Contents,
    front: Seq<u8>,
) -> bool {
    forall|k: Seq<u8>| #[trigger]
        m.dom().contains(k) && crate::bytes::starts_with(k, front) ==> R::readable(m[k])
}

/// The engine once a document that was stored has been folded out of its
/// groups.
pub open spec fn unfolded<R: Document>(
    m: crate::engine::storage::Contents,
    header: Seq<u8>,
    key: Seq<u8>,
    prev: Option<R::Model>,
) -> crate::engine::storage::Contents {
    match prev {
        Some(o) => R::reduced(m, key, o, header, false),
        None => m,
    }
}

/// The engine once embedded documents have been written and those no longer
/// referred to have been released.
pub open spec fn embeds_kept<R: Document>(
    m: crate::engine::storage::Contents,
    d: R::Model,
    prev: Option<R::Model>,
) -> crate::engine::storage::Contents {
    let written = crate::index::put_pairs(m, R::embeds(d));
    match prev {
        Some(o) => crate::index::del_keys(
            written,
            crate::index::stale_keys(R::embedded(o), R::embedded(d)),
        ),
        None => written,
    }
}

/// The engine once a document has been written: the document stored before
/// is folded out of its groups; the payload and the entries of all access
/// methods are written, then embedded documents; the new document is folded
/// into its groups.
pub open spec fn put_result<R: Document>(
    m: crate::engine::storage::Contents,
    header: Seq<u8>,
    front: Seq<u8>,
    key: Seq<u8>,
    d: R::Model,
    embed: bool,
) -> crate::engine::storage::Contents {
    let prev = stored::<R>(m, front + key);
    let m1 = unfolded::<R>(m, header, key, prev).insert(front + key, R::payload(d));
    let m2 = crate::index::put_pairs(m1, R::entries(key, d, header));
    let m3 = if embed {
        embeds_kept::<R>(m2, d, prev)
    } else {
        m2
    };
    R::reduced(m3, key, d, header, true)
}

/// The engine once a document has been removed: its payload and the entries
/// of all access methods are gone, and it is folded out of its groups.
pub open spec fn delete_result<R: Document>(
    m: crate::engine::storage::Contents,
    header: Seq<u8>,
    front: Seq<u8>,
    key: Seq<u8>,
    d: R::Model,
) -> crate::engine::storage::Contents {
    R::reduced(
        crate::index::del_keys(
            m.remove(front + key),
            crate::index::keys_of(R::entries(key, d, header)),
        ),
        key,
        d,
        header,
        false,
    )
}

/// Writes a document.
pub fn put_row<S: VirtualStorage, R: Document>(
    store: &mut S,
    header: &[u8],
    front: &[u8],
    key: &R::Key,
    row: &R,
    embed: bool,
)
    requires
        readable_at::<R>(old(store).contents(), front@ + key.bytes()),
        R::storable(row.model()),
    ensures
        final(store).contents() == put_result::<R>(
            old(store).contents(),
            header@,
            front@,
            key.bytes(),
            row.model(),
            embed,
        ),
{
    let enc = key.encode();
    let pkey = concat(front, enc.as_slice());
    let prev: Option<R> = match store.get(pkey.as_slice()) {
        Some(v) => Some(R::decode_payload(v.as_slice())),
        None => None,
    };
    if let Some(o) = &prev {
        R::apply_reduces(store, key, o, header, false);
    }
    store.put(pkey, row.encode_payload());
    let entries = R::index_entries(key, row, header);
    put_all(store, &entries);
    if embed {
        let children = row.embed_entries();
        put_all(store, &children);
        if let Some(o) = &prev {
            let kept = row.embed_keys();
            let before = o.embed_keys();
            release(store, &before, &kept);
        }
    }
    R::apply_reduces(store, key, row, header, true);
}

/// Removes a document.
pub fn delete_row<S: VirtualStorage, R: Document>(
    store: &mut S,
    header: &[u8],
    front: &[u8],
    key: &R::Key,
    row: &R,
)
    ensures
        final(store).contents() == delete_result::<R>(
            old(store).contents(),
            header@,
            front@,
            key.bytes(),
            row.model(),
        ),
{
    let enc = key.encode();
    let pkey = concat(front, enc.as_slice());
    store.del(pkey.as_slice());
    let entries = R::index_entries(key, row, header);
    del_entries(store, &entries);
    R::apply_reduces(store, key, row, header, false);
}

/// The document under a key.
pub fn get_row<S: VirtualStorage, R: Document>(
    store: &S,
    front: &[u8],
    key: &R::Key,
    embed: bool,
) -> (r: Option<R>)
    requires
        readable_at::<R>(store.contents(), front@ + key.bytes()),
    ensures
        opt_model(r) == found::<R>(store.contents(), front@ + key.bytes(), embed),
{
    let enc = key.encode();
    let pkey = concat(front, enc.as_slice());
    match store.get(pkey.as_slice()) {
        Some(v) => {
            let mut row = R::decode_payload(v.as_slice());
            if embed {
                row.embed_deref(store);
            }
            Some(row)
        },
        None => None,
    }
}

/// Adds the writes of a document to a batch: its payload and the entries of
/// all access methods.
pub fn save_row<R: Document>(
    batch: &mut MemBatch,
    header: &[u8],
    front: &[u8],
    key: &R::Key,
    row: &R,
)
    requires
        R::storable(row.model()),
    ensures
        final(batch)@ == old(batch)@ + row_writes::<R>(header@, front@, key.bytes(), row.model()),
{
    let enc = key.encode();
    let pkey = concat(front, enc.as_slice());
    batch.put(pkey, row.encode_payload());
    let entries = R::index_entries(key, row, header);
    let ghost all = crate::engine::storage::pair_views(entries@);
    let ghost start = batch@;
    let ghost put_op = |p: (Seq<u8>, Seq<u8>)| (p.0, Some(p.1));
    let mut i: usize = 0;
    assert(batch@ =~= start + all.take(0).map_values(put_op));
    while i < entries.len()
        invariant
            i <= entries@.len() == all.len(),
            all == crate::engine::storage::pair_views(entries@),
            put_op == (|p: (Seq<u8>, Seq<u8>)| (p.0, Some(p.1))),
            batch@ == start + all.take(i as int).map_values(put_op),
        decreases entries@.len() - i,
    {
        let ghost before = batch@;
        batch.put(to_vec(entries[i].0.as_slice()), to_vec(entries[i].1.as_slice()));
        proof {
            assert(all.take(i + 1) =~= all.take(i as int).push(all[i as int]));
            assert(all.take(i + 1).map_values(put_op) =~= all.take(i as int).map_values(
                put_op,
            ).push(put_op(all[i as int])));
            assert(batch@ =~= start + all.take(i + 1).map_values(put_op));
        }
        i = i + 1;
    }
    proof {
        assert(all.take(i as int) =~= all);
        assert(batch@ =~= old(batch)@ + row_writes::<R>(
            header@,
            front@,
            key.bytes(),
            row.model(),
        ));
    }
}

/// The writes of a document: its payload and the entries of all access
/// methods.
pub open spec fn row_writes<R: Document>(
    header: Seq<u8>,
    front: Seq<u8>,
    key: Seq<u8>,
    d: R::Model,
) -> Seq<(Seq<u8>, Option<Seq<u8>>)> {
    seq![(front + key, Some(R::payload(d)))] + R::entries(key, d, header).map_values(
        |p: (Seq<u8>, Seq<u8>)| (p.0, Some(p.1)),
    )
}

/// A batch of the writes of a document stores its payload and the entries of
/// its access methods, as writing it does. Where neither it nor the document
/// stored before takes part in groups or, as far as embedded documents are
/// kept, embeds any, that is all that writing it does.
pub proof fn law_saved_is_put<R: Document>(
    m: crate::engine::storage::Contents,
    header: Seq<u8>,
    front: Seq<u8>,
    key: Seq<u8>,
    d: R::Model,
    embed: bool,
)
    ensures
        crate::engine::storage::apply_ops(m, row_writes::<R>(header, front, key, d))
            == crate::index::put_pairs(
            m.insert(front + key, R::payload(d)),
            R::entries(key, d, header),
        ),
        ({
            let prev = stored::<R>(m, front + key);
            let ungrouped = |x: R::Model, fold: bool|
                forall|n: crate::engine::storage::Contents|
                    #[trigger] R::reduced(n, key, x, header, fold) == n;
            &&& ungrouped(d, true)
            &&& prev is Some ==> ungrouped(prev->0, false)
            &&& embed ==> R::embeds(d).len() == 0 && (prev is Some ==> R::embedded(
                prev->0,
            ).len() == 0)
        }) ==> crate::engine::storage::apply_ops(m, row_writes::<R>(header, front, key, d))
            == put_result::<R>(m, header, front, key, d, embed),
{
    let first = seq![(front + key, Some(R::payload(d)))];
    let entries = R::entries(key, d, header);
    let rest = entries.map_values(|p: (Seq<u8>, Seq<u8>)| (p.0, Some(p.1)));
    crate::engine::storage::lemma_apply_ops_concat(m, first, rest);
    assert(first.drop_last() =~= Seq::empty());
    assert(crate::engine::storage::apply_ops(m, first.drop_last()) == m);
    assert(crate::engine::storage::apply_ops(m, first) =~= m.insert(front + key, R::payload(d)));
    lemma_puts_are_ops(m.insert(front + key, R::payload(d)), entries);
    if R::embeds(d).len() == 0 {
        assert(R::embeds(d) =~= Seq::empty());
    }
}

/// Writing pairs one after another is applying their writes.
proof fn lemma_puts_are_ops(
    m: crate::engine::storage::Contents,
    pairs: Seq<(Seq<u8>, Seq<u8>)>,
)
    ensures
        crate::engine::storage::apply_ops(
            m,
            pairs.map_values(|p: (Seq<u8>, Seq<u8>)| (p.0, Some(p.1))),
        ) == crate::index::put_pairs(m, pairs),
    decreases pairs.len(),
{
    let ops = pairs.map_values(|p: (Seq<u8>, Seq<u8>)| (p.0, Some(p.1)));
    if pairs.len() > 0 {
        lemma_puts_are_ops(m, pairs.drop_last());
        assert(ops.drop_last() =~= pairs.drop_last().map_values(
            |p: (Seq<u8>, Seq<u8>)| (p.0, Some(p.1)),
        ));
    }
}

/// What rows reached through an access method say: the known part of the
/// key, how many bytes are known, and the document.
pub open spec fn row_views<R: Document>(v: Seq<(PrefixKey<R::Key>, Option<R>)>) -> Seq<
    (Seq<u8>, nat, Option<R::Model>),
> {
    v.map_values(
        |p: (PrefixKey<R::Key>, Option<R>)|
            (p.0.decoded.bytes(), p.0.taken as nat, opt_model(p.1)),
    )
}

/// The row that the tail of an entry leads to. Only a whole key leads to a
/// document.
pub open spec fn row_at<R: Document>(
    m: crate::engine::storage::Contents,
    front: Seq<u8>,
    suffix: Seq<u8>,
    taken: nat,
    embed: bool,
) -> (Seq<u8>, nat, Option<R::Model>) {
    let key = crate::index::tail_key::<R::Key>(suffix, taken);
    (
        key,
        taken,
        if taken == <R::Key as KeyEncode>::KEY_LEN {
            found::<R>(m, front + key, embed)
        } else {
            None
        },
    )
}

/// The row that the tail of an entry leads to.
pub fn fetch_row<S: VirtualStorage, R: Document>(
    store: &S,
    front: &[u8],
    suffix: &[u8],
    taken: usize,
    embed: bool,
) -> (r: (PrefixKey<R::Key>, Option<R>))
    requires
        taken <= suffix@.len(),
        taken <= <R::Key as KeyEncode>::KEY_LEN,
        all_readable::<R>(store.contents(), front@),
    ensures
        (r.0.decoded.bytes(), r.0.taken as nat, opt_model(r.1)) == row_at::<R>(
            store.contents(),
            front@,
            suffix@,
            taken as nat,
            embed,
        ),
{
    let k = decode_tail::<R::Key>(suffix, taken);
    let mut row: Option<R> = None;
    if taken == <R::Key as KeyEncode>::KEY_LEN {
        proof {
            crate::bytes::lemma_starts_with_concat(front@, k.decoded.bytes());
        }
        row = get_row::<S, R>(store, front, &k.decoded, embed);
    }
    (k, row)
}

/// The rows of all entries whose sorted fields begin with `encoded`, in
/// entry order.
pub fn scan_rows<S: VirtualStorage, R: Document, I: KvIndex<Document = R>>(
    store: &S,
    header: &[u8],
    front: &[u8],
    encoded: &[u8],
    embed: bool,
) -> (r: Vec<(PrefixKey<R::Key>, Option<R>)>)
    requires
        all_readable::<R>(store.contents(), front@),
        forall|i: int|
            0 <= i < crate::engine::storage::prefix_suffixes(
                store.contents(),
                header@ + I::slot() + encoded@,
            ).len() ==> crate::index::tail_width::<I>() <= (
            #[trigger] crate::engine::storage::prefix_suffixes(
                store.contents(),
                header@ + I::slot() + encoded@,
            )[i]).len(),
    ensures
        row_views::<R>(r@) == crate::engine::storage::prefix_suffixes(
            store.contents(),
            header@ + I::slot() + encoded@,
        ).map_values(
            |s: Seq<u8>|
                row_at::<R>(
                    store.contents(),
                    front@,
                    s,
                    crate::index::tail_width::<I>(),
                    embed,
                ),
        ),
{
    let p = entry_prefix::<I>(header, encoded);
    let taken: usize = key_prefix_width::<I>();
    let list = store.scan_suffix(p.as_slice());
    let ghost m = store.contents();
    let ghost all = crate::engine::storage::prefix_suffixes(m, p@);
    let ghost f = |s: Seq<u8>|
        row_at::<R>(m, front@, s, crate::index::tail_width::<I>(), embed);
    let mut out: Vec<(PrefixKey<R::Key>, Option<R>)> = Vec::new();
    let mut i: usize = 0;
    assert(row_views::<R>(out@) =~= all.take(0).map_values(f));
    while i < list.len()
        invariant
            i <= list@.len() == all.len(),
            m == store.contents(),
            all == crate::engine::storage::views(list@),
            taken == crate::index::tail_width::<I>(),
            taken <= <R::Key as KeyEncode>::KEY_LEN,
            all_readable::<R>(m, front@),
            forall|j: int| 0 <= j < all.len() ==> taken <= (#[trigger] all[j]).len(),
            f == (|s: Seq<u8>|
                row_at::<R>(m, front@, s, crate::index::tail_width::<I>(), embed)),
            row_views::<R>(out@) == all.take(i as int).map_values(f),
        decreases list@.len() - i,
    {
        let ghost before = row_views::<R>(out@);
        assert(all[i as int] == list@[i as int]@);
        let row = fetch_row::<S, R>(store, front, list[i].as_slice(), taken, embed);
        let ghost rv = (row.0.decoded.bytes(), row.0.taken as nat, opt_model(row.1));
        out.push(row);
        proof {
            assert(rv == f(all[i as int]));
            assert(row_views::<R>(out@) =~= before.push(rv));
            assert(all.take(i + 1) =~= all.take(i as int).push(all[i as int]));
            assert(all.take(i + 1).map_values(f) =~= before.push(rv));
        }
        i = i + 1;
    }
    assert(all.take(i as int) =~= all);
    out
}

/// The keys of all rows, in key order. What stands behind the front of a
/// primary entry ends with its key.
pub fn scan_row_keys<S: VirtualStorage, K: KeyEncode>(store: &S, front: &[u8]) -> (r: Vec<K>)
    requires
        forall|i: int|
            0 <= i < crate::engine::storage::prefix_suffixes(store.contents(), front@).len()
                ==> K::KEY_LEN <= (#[trigger] crate::engine::storage::prefix_suffixes(
                store.contents(),
                front@,
            )[i]).len(),
    ensures
        r@.map_values(|k: K| k.bytes()) == crate::engine::storage::prefix_suffixes(
            store.contents(),
            front@,
        ).map_values(|s: Seq<u8>| K::canon(s.skip(s.len() - K::KEY_LEN))),
{
    let list = store.scan_suffix(front);
    let ghost all = crate::engine::storage::prefix_suffixes(store.contents(), front@);
    let ghost f = |s: Seq<u8>| K::canon(s.skip(s.len() - K::KEY_LEN));
    let ghost g = |k: K| k.bytes();
    let mut out: Vec<K> = Vec::new();
    let mut i: usize = 0;
    assert(out@.map_values(g) =~= all.take(0).map_values(f));
    while i < list.len()
        invariant
            i <= list@.len() == all.len(),
            all == crate::engine::storage::views(list@),
            forall|j: int| 0 <= j < all.len() ==> K::KEY_LEN <= (#[trigger] all[j]).len(),
            f == (|s: Seq<u8>| K::canon(s.skip(s.len() - K::KEY_LEN))),
            g == (|k: K| k.bytes()),
            out@.map_values(g) == all.take(i as int).map_values(f),
        decreases list@.len() - i,
    {
        let ghost before = out@.map_values(g);
        let suffix = list[i].as_slice();
        assert(all[i as int] == suffix@);
        let tail = slice_from(suffix, suffix.len() - K::KEY_LEN);
        let k = K::decode(tail);
        let ghost kb = k.bytes();
        out.push(k);
        proof {
            assert(kb == f(all[i as int]));
            assert(out@.map_values(g) =~= before.push(kb));
            assert(all.take(i + 1) =~= all.take(i as int).push(all[i as int]));
            assert(all.take(i + 1).map_values(f) =~= before.push(kb));
        }
        i = i + 1;
    }
    assert(all.take(i as int) =~= all);
    out
}

/// The keys under retired slots, slot by slot.
pub open spec fn retired_keys(
    m: crate::engine::storage::Contents,
    header: Seq<u8>,
    slots: Seq<Seq<u8>>,
) -> Seq<Seq<u8>>
    decreases slots.len(),
{
    if slots.len() == 0 {
        Seq::empty()
    } else {
        let before = retired_keys(m, header, slots.drop_last());
        before + crate::engine::storage::prefix_keys(
            crate::index::del_keys(m, before),
            header + slots.last(),
        )
    }
}

/// One list of keys after another.
pub proof fn lemma_del_keys_concat(
    m: crate::engine::storage::Contents,
    a: Seq<Seq<u8>>,
    b: Seq<Seq<u8>>,
)
    ensures
        crate::index::del_keys(m, a + b) == crate::index::del_keys(
            crate::index::del_keys(m, a),
            b,
        ),
    decreases b.len(),
{
    if b.len() == 0 {
        assert(a + b =~= a);
    } else {
        lemma_del_keys_concat(m, a, b.drop_last());
        assert((a + b).drop_last() =~= a + b.drop_last());
        assert((a + b).last() == b.last());
    }
}

/// Removes what is stored under one front; tells how many entries that was.
fn clear_front<S: VirtualStorage>(store: &mut S, front: &[u8]) -> (r: usize)
    ensures
        final(store).contents() == crate::index::del_keys(
            old(store).contents(),
            crate::engine::storage::prefix_keys(old(store).contents(), front@),
        ),
        r == crate::engine::storage::prefix_keys(old(store).contents(), front@).len(),
{
    let list = store.scan_suffix(front);
    let ghost m = store.contents();
    let ghost ks = crate::engine::storage::prefix_keys(m, front@);
    let mut i: usize = 0;
    assert(ks.take(0) =~= Seq::empty());
    assert(crate::engine::storage::views(list@).len() == ks.len());
    while i < list.len()
        invariant
            i <= list@.len() == ks.len(),
            crate::engine::storage::is_listing(
                ks,
                crate::engine::storage::prefix_set(m, front@),
            ),
            crate::engine::storage::views(list@) == ks.map_values(
                |k: Seq<u8>| k.skip(front@.len() as int),
            ),
            store.contents() == crate::index::del_keys(m, ks.take(i as int)),
        decreases list@.len() - i,
    {
        let full = concat(front, list[i].as_slice());
        proof {
            let k = ks[i as int];
            assert(crate::engine::storage::prefix_set(m, front@).contains(k));
            crate::bytes::lemma_starts_with_split(k, front@);
            assert(crate::engine::storage::views(list@)[i as int] == k.skip(front@.len() as int));
            assert(full@ == k);
            assert(ks.take(i + 1).drop_last() =~= ks.take(i as int));
            assert(ks.take(i + 1).last() == k);
        }
        store.del(full.as_slice());
        i = i + 1;
    }
    assert(ks.take(i as int) =~= ks);
    list.len()
}

/// Removes what is stored under retired slots; tells how many entries that
/// was.
pub fn prune_slots<S: VirtualStorage>(store: &mut S, header: &[u8], slots: &Vec<Vec<u8>>) -> (r:
    usize)
    requires
        retired_keys(
            old(store).contents(),
            header@,
            crate::engine::storage::views(slots@),
        ).len() <= usize::MAX,
    ensures
        final(store).contents() == crate::index::del_keys(
            old(store).contents(),
            retired_keys(
                old(store).contents(),
                header@,
                crate::engine::storage::views(slots@),
            ),
        ),
        r == retired_keys(
            old(store).contents(),
            header@,
            crate::engine::storage::views(slots@),
        ).len(),
{
    let ghost m = store.contents();
    let ghost all = crate::engine::storage::views(slots@);
    let mut removed: usize = 0;
    let mut i: usize = 0;
    assert(all.take(0) =~= Seq::empty());
    while i < slots.len()
        invariant
            i <= slots@.len() == all.len(),
            all == crate::engine::storage::views(slots@),
            retired_keys(m, header@, all).len() <= usize::MAX,
            removed == retired_keys(m, header@, all.take(i as int)).len(),
            store.contents() == crate::index::del_keys(
                m,
                retired_keys(m, header@, all.take(i as int)),
            ),
        decreases slots@.len() - i,
    {
        let front = concat(header, slots[i].as_slice());
        let ghost before = retired_keys(m, header@, all.take(i as int));
        proof {
            assert(all.take(i + 1).drop_last() =~= all.take(i as int));
            assert(all.take(i + 1).last() == all[i as int]);
            lemma_retired_grow(m, header@, all, i + 1);
            lemma_del_keys_concat(
                m,
                before,
                crate::engine::storage::prefix_keys(store.contents(), front@),
            );
        }
        let n: usize = clear_front(store, front.as_slice());
        removed = removed + n;
        i = i + 1;
    }
    assert(all.take(i as int) =~= all);
    removed
}

proof fn lemma_retired_grow(
    m: crate::engine::storage::Contents,
    header: Seq<u8>,
    slots: Seq<Seq<u8>>,
    n: int,
)
    requires
        0 <= n <= slots.len(),
    ensures
        retired_keys(m, header, slots.take(n)).len() <= retired_keys(m, header, slots).len(),
    decreases slots.len(),
{
    if n == slots.len() {
        assert(slots.take(n) =~= slots);
    } else {
        assert(slots.drop_last().take(n) =~= slots.take(n));
        lemma_retired_grow(m, header, slots.drop_last(), n);
    }
}

/// The retired keys are stored keys under the retired slots.
proof fn lemma_retired_members(
    m: crate::engine::storage::Contents,
    header: Seq<u8>,
    slots: Seq<Seq<u8>>,
    k: Seq<u8>,
)
    requires
        m.dom().finite(),
    ensures
        retired_keys(m, header, slots).contains(k) <==> m.dom().contains(k) && exists|j: int|
            0 <= j < slots.len() && crate::bytes::starts_with(k, header + #[trigger] slots[j]),
    decreases slots.len(),
{
    if slots.len() > 0 {
        let init = slots.drop_last();
        let last = slots.last();
        let before = retired_keys(m, header, init);
        let m2 = crate::index::del_keys(m, before);
        let set = crate::engine::storage::prefix_set(m2, header + last);
        let more = crate::engine::storage::prefix_keys(m2, header + last);
        lemma_retired_members(m, header, init, k);
        crate::index::lemma_del_keys(m, before, k);
        assert(set.subset_of(m.dom())) by {
            assert forall|x: Seq<u8>| set.contains(x) implies m.dom().contains(x) by {
                crate::index::lemma_del_keys(m, before, x);
            }
        }
        vstd::set_lib::lemma_set_subset_finite(m.dom(), set);
        crate::engine::storage::lemma_finite_listing(set);
        let all = retired_keys(m, header, slots);
        assert(all =~= before + more);
        if before.contains(k) {
            let i = choose|i: int| 0 <= i < before.len() && before[i] == k;
            assert(all[i] == k);
            let j = choose|j: int|
                0 <= j < init.len() && crate::bytes::starts_with(k, header + #[trigger] init[j]);
            assert(slots[j] == init[j]);
        }
        if more.contains(k) {
            let i = choose|i: int| 0 <= i < more.len() && more[i] == k;
            assert(all[before.len() + i] == k);
            assert(set.contains(more[i]));
            assert(slots[slots.len() - 1] == last);
        }
        if all.contains(k) {
            let i = choose|i: int| 0 <= i < all.len() && all[i] == k;
            if i < before.len() {
                assert(before[i] == k);
            } else {
                assert(more[i - before.len()] == k);
            }
        }
        if m.dom().contains(k) && !before.contains(k) && exists|j: int|
            0 <= j < slots.len() && crate::bytes::starts_with(k, header + #[trigger] slots[j]) {
            let j = choose|j: int|
                0 <= j < slots.len() && crate::bytes::starts_with(k, header + #[trigger] slots[j]);
            if j < init.len() {
                assert(init[j] == slots[j]);
            }
            assert(set.contains(k));
        }
    }
}

/// Pruning removes what stands under retired slots and nothing else.
pub proof fn law_prune_spares_live_slots(
    m: crate::engine::storage::Contents,
    header: Seq<u8>,
    slots: Seq<Seq<u8>>,
    k: Seq<u8>,
)
    requires
        m.dom().finite(),
    ensures
        ({
            let m2 = crate::index::del_keys(m, retired_keys(m, header, slots));
            let live = forall|j: int|
                0 <= j < slots.len() ==> !crate::bytes::starts_with(k, header + #[trigger] slots[j]);
            &&& m2.dom().contains(k) <==> m.dom().contains(k) && live
            &&& m2.dom().contains(k) ==> m2[k] == m[k]
        }),
{
    lemma_retired_members(m, header, slots, k);
    crate::index::lemma_del_keys(m, retired_keys(m, header, slots), k);
}

/// Pruning a second time finds nothing.
pub proof fn law_prune_is_idempotent(
    m: crate::engine::storage::Contents,
    header: Seq<u8>,
    slots: Seq<Seq<u8>>,
)
    requires
        m.dom().finite(),
    ensures
        retired_keys(
            crate::index::del_keys(m, retired_keys(m, header, slots)),
            header,
            slots,
        ).len() == 0,
{
    let m2 = crate::index::del_keys(m, retired_keys(m, header, slots));
    let again = retired_keys(m2, header, slots);
    assert(m2.dom().subset_of(m.dom())) by {
        assert forall|x: Seq<u8>| m2.dom().contains(x) implies m.dom().contains(x) by {
            crate::index::lemma_del_keys(m, retired_keys(m, header, slots), x);
        }
    }
    vstd::set_lib::lemma_set_subset_finite(m.dom(), m2.dom());
    if again.len() > 0 {
        let k = again[0];
        assert(again.contains(k));
        lemma_retired_members(m2, header, slots, k);
        law_prune_spares_live_slots(m, header, slots, k);
        let j = choose|j: int|
            0 <= j < slots.len() && crate::bytes::starts_with(k, header + #[trigger] slots[j]);
        assert(false);
    }
}

/// Whatever follows a front has this many bytes.
pub open spec fn suffixes_have(
    m: crate::engine::storage::Contents,
    front: Seq<u8>,
    n: nat,
) -> bool {
    forall|i: int|
        0 <= i < crate::engine::storage::prefix_suffixes(m, front).len() ==> (
        #[trigger] crate::engine::storage::prefix_suffixes(m, front)[i]).len() == n
}

/// The keys that follow a front, in key order.
pub fn scan_partners<S: VirtualStorage, K: KeyEncode>(store: &S, front: &[u8]) -> (r: Vec<K>)
    requires
        suffixes_have(store.contents(), front@, K::KEY_LEN as nat),
    ensures
        r@.map_values(|k: K| k.bytes()) == crate::engine::storage::prefix_suffixes(
            store.contents(),
            front@,
        ).map_values(|s: Seq<u8>| K::canon(s)),
{
    let list = store.scan_suffix(front);
    let ghost all = crate::engine::storage::prefix_suffixes(store.contents(), front@);
    let ghost f = |s: Seq<u8>| K::canon(s);
    let ghost g = |k: K| k.bytes();
    let mut out: Vec<K> = Vec::new();
    let mut i: usize = 0;
    assert(out@.map_values(g) =~= all.take(0).map_values(f));
    while i < list.len()
        invariant
            i <= list@.len() == all.len(),
            all == crate::engine::storage::views(list@),
            forall|j: int| 0 <= j < all.len() ==> (#[trigger] all[j]).len() == K::KEY_LEN,
            f == (|s: Seq<u8>| K::canon(s)),
            g == (|k: K| k.bytes()),
            out@.map_values(g) == all.take(i as int).map_values(f),
        decreases list@.len() - i,
    {
        let ghost before = out@.map_values(g);
        assert(all[i as int] == list@[i as int]@);
        let k = K::decode(list[i].as_slice());
        let ghost kb = k.bytes();
        out.push(k);
        proof {
            assert(kb == f(all[i as int]));
            assert(out@.map_values(g) =~= before.push(kb));
            assert(all.take(i + 1) =~= all.take(i as int).push(all[i as int]));
            assert(all.take(i + 1).map_values(f) =~= before.push(kb));
        }
        i = i + 1;
    }
    assert(all.take(i as int) =~= all);
    out
}

/// What is stored behind a front is listed there.
pub proof fn lemma_suffix_found(
    m: crate::engine::storage::Contents,
    front: Seq<u8>,
    rest: Seq<u8>,
)
    requires
        m.dom().finite(),
        m.dom().contains(front + rest),
    ensures
        crate::engine::storage::prefix_suffixes(m, front).contains(rest),
{
    let set = crate::engine::storage::prefix_set(m, front);
    assert(set.subset_of(m.dom()));
    vstd::set_lib::lemma_set_subset_finite(m.dom(), set);
    crate::engine::storage::lemma_finite_listing(set);
    crate::bytes::lemma_starts_with_concat(front, rest);
    assert(set.contains(front + rest));
    let ks = crate::engine::storage::prefix_keys(m, front);
    let i = choose|i: int| 0 <= i < ks.len() && ks[i] == front + rest;
    assert((front + rest).skip(front.len() as int) =~= rest);
    assert(crate::engine::storage::prefix_suffixes(m, front)[i] == rest);
}

/// A link made or undone, with the stored forms of the two keys.
pub struct LinkCall {
    pub made: bool,
    pub a: Seq<u8>,
    pub b: Seq<u8>,
}

/// Two keys are linked after these calls: the last that concerned them made
/// the link.
pub open spec fn live(calls: Seq<LinkCall>, a: Seq<u8>, b: Seq<u8>) -> bool
    decreases calls.len(),
{
    if calls.len() == 0 {
        false
    } else if calls.last().a == a && calls.last().b == b {
        calls.last().made
    } else {
        live(calls.drop_last(), a, b)
    }
}

/// What calls leave behind that keep a link under `p`, the first key and the
/// second, and under `q`, the second and the first.
pub open spec fn pair_history(
    m: crate::engine::storage::Contents,
    p: Seq<u8>,
    q: Seq<u8>,
    calls: Seq<LinkCall>,
) -> crate::engine::storage::Contents
    decreases calls.len(),
{
    if calls.len() == 0 {
        m
    } else {
        let c = calls.last();
        let before = pair_history(m, p, q, calls.drop_last());
        if c.made {
            before.insert(p + c.a + c.b, Seq::empty()).insert(q + c.b + c.a, Seq::empty())
        } else {
            before.remove(p + c.a + c.b).remove(q + c.b + c.a)
        }
    }
}

/// The keys of every call have these widths.
pub open spec fn widths(calls: Seq<LinkCall>, n: nat, k: nat) -> bool {
    forall|i: int|
        0 <= i < calls.len() ==> (#[trigger] calls[i]).a.len() == n && calls[i].b.len() == k
}

/// Nothing is stored behind `p`.
pub open spec fn none_behind(m: crate::engine::storage::Contents, p: Seq<u8>) -> bool {
    forall|x: Seq<u8>| !m.dom().contains(#[trigger] (p + x))
}

/// Keys behind one front, of which the first part has one width.
proof fn lemma_pair_keys(p: Seq<u8>, q: Seq<u8>, a: Seq<u8>, b: Seq<u8>, c: Seq<u8>, d: Seq<u8>)
    requires
        a.len() == c.len(),
        !crate::bytes::starts_with(p, q),
        !crate::bytes::starts_with(q, p),
    ensures
        p + a + b == p + c + d <==> a == c && b == d,
        p + a + b != q + c + d,
        q + a + b != p + c + d,
{
    let x = p + a + b;
    let y = p + c + d;
    let n = p.len() as int;
    let k = a.len() as int;
    if x == y {
        assert(x.subrange(n, n + k) =~= a);
        assert(y.subrange(n, n + k) =~= c);
        assert(x.skip(n + k) =~= b);
        assert(y.skip(n + k) =~= d);
    }
    lemma_fronts_differ(p, q, a + b, c + d);
    lemma_fronts_differ(q, p, a + b, c + d);
    assert(p + a + b =~= p + (a + b));
    assert(q + c + d =~= q + (c + d));
    assert(q + a + b =~= q + (a + b));
    assert(p + c + d =~= p + (c + d));
}

proof fn lemma_fronts_differ(p: Seq<u8>, q: Seq<u8>, x: Seq<u8>, y: Seq<u8>)
    requires
        !crate::bytes::starts_with(p, q),
        !crate::bytes::starts_with(q, p),
    ensures
        p + x != q + y,
{
    if p + x == q + y {
        if p.len() <= q.len() {
            assert(q.subrange(0, p.len() as int) =~= (q + y).subrange(0, p.len() as int));
            assert((p + x).subrange(0, p.len() as int) =~= p);
        } else {
            assert(p.subrange(0, q.len() as int) =~= (p + x).subrange(0, q.len() as int));
            assert((q + y).subrange(0, q.len() as int) =~= q);
        }
    }
}

/// What is stored behind a first key, and behind a second key, are exactly
/// its partners.
pub proof fn lemma_pair_history(
    m: crate::engine::storage::Contents,
    p: Seq<u8>,
    q: Seq<u8>,
    calls: Seq<LinkCall>,
    n: nat,
    k: nat,
    a: Seq<u8>,
    b: Seq<u8>,
    s: Seq<u8>,
)
    requires
        !crate::bytes::starts_with(p, q),
        !crate::bytes::starts_with(q, p),
        none_behind(m, p),
        none_behind(m, q),
        widths(calls, n, k),
        a.len() == n,
        b.len() == k,
    ensures
        pair_history(m, p, q, calls).dom().contains(p + a + s) <==> s.len() == k && live(
            calls,
            a,
            s,
        ),
        pair_history(m, p, q, calls).dom().contains(q + b + s) <==> s.len() == n && live(
            calls,
            s,
            b,
        ),
        m.dom().finite() ==> pair_history(m, p, q, calls).dom().finite(),
    decreases calls.len(),
{
    if calls.len() == 0 {
        assert(p + a + s =~= p + (a + s));
        assert(q + b + s =~= q + (b + s));
    } else {
        let init = calls.drop_last();
        let c = calls.last();
        assert(widths(init, n, k)) by {
            assert forall|i: int| 0 <= i < init.len() implies (#[trigger] init[i]).a.len() == n
                && init[i].b.len() == k by {
                assert(init[i] == calls[i]);
            }
        }
        assert(calls[calls.len() - 1].a.len() == n);
        lemma_pair_history(m, p, q, init, n, k, a, b, s);
        lemma_pair_keys(p, q, a, s, c.a, c.b);
        lemma_pair_keys(q, p, b, s, c.b, c.a);
        lemma_front_pair(p, q, a, s, c.b, c.a);
        lemma_front_pair(q, p, b, s, c.a, c.b);
    }
}

proof fn lemma_front_pair(p: Seq<u8>, q: Seq<u8>, a: Seq<u8>, s: Seq<u8>, c: Seq<u8>, d: Seq<u8>)
    requires
        !crate::bytes::starts_with(p, q),
        !crate::bytes::starts_with(q, p),
    ensures
        p + a + s != q + c + d,
{
    lemma_fronts_differ(p, q, a + s, c + d);
    assert(p + a + s =~= p + (a + s));
    assert(q + c + d =~= q + (c + d));
}

/// What follows a front in the stored keys comes in ascending order, each
/// once.
pub proof fn lemma_suffixes_exact(m: crate::engine::storage::Contents, p: Seq<u8>)
    requires
        m.dom().finite(),
    ensures
        ({
            let out = crate::engine::storage::prefix_suffixes(m, p);
            &&& forall|s: Seq<u8>| #[trigger] out.contains(s) <==> m.dom().contains(p + s)
            &&& forall|i: int, j: int|
                0 <= i < j < out.len() ==> crate::bytes::lex_lt(out[i], out[j])
        }),
{
    let set = crate::engine::storage::prefix_set(m, p);
    let keys = crate::engine::storage::prefix_keys(m, p);
    let out = crate::engine::storage::prefix_suffixes(m, p);
    assert(set.subset_of(m.dom()));
    vstd::set_lib::lemma_set_subset_finite(m.dom(), set);
    crate::engine::storage::lemma_finite_listing(set);
    assert forall|s: Seq<u8>| #[trigger] out.contains(s) <==> m.dom().contains(p + s) by {
        if out.contains(s) {
            let i = choose|i: int| 0 <= i < out.len() && out[i] == s;
            assert(set.contains(keys[i]));
            crate::bytes::lemma_starts_with_split(keys[i], p);
        }
        if m.dom().contains(p + s) {
            crate::bytes::lemma_starts_with_concat(p, s);
            assert(set.contains(p + s));
            let i = choose|i: int| 0 <= i < keys.len() && keys[i] == p + s;
            assert(out[i] == s);
        }
    }
    assert forall|i: int, j: int| 0 <= i < j < out.len() implies crate::bytes::lex_lt(
        out[i],
        out[j],
    ) by {
        assert(set.contains(keys[i]) && set.contains(keys[j]));
        crate::bytes::lemma_starts_with_split(keys[i], p);
        crate::bytes::lemma_starts_with_split(keys[j], p);
        crate::bytes::lemma_lex_shared_prefix(p, out[i], out[j]);
    }
}

/// The partners that calls leave a key: those linked to it and not unlinked
/// since, each once, in ascending order.
pub open spec fn partners_of(out: Seq<Seq<u8>>, calls: Seq<LinkCall>, x: Seq<u8>, first: bool) -> bool {
    &&& forall|s: Seq<u8>| #[trigger]
        out.contains(s) <==> if first {
            live(calls, x, s)
        } else {
            live(calls, s, x)
        }
    &&& forall|i: int, j: int| 0 <= i < j < out.len() ==> crate::bytes::lex_lt(out[i], out[j])
}

/// The widths of keys that are linked.
proof fn lemma_live_width(calls: Seq<LinkCall>, a: Seq<u8>, b: Seq<u8>, n: nat, k: nat)
    requires
        widths(calls, n, k),
        live(calls, a, b),
    ensures
        a.len() == n,
        b.len() == k,
    decreases calls.len(),
{
    assert(calls[calls.len() - 1].a.len() == n);
    if !(calls.last().a == a && calls.last().b == b) {
        let init = calls.drop_last();
        assert forall|i: int| 0 <= i < init.len() implies (#[trigger] init[i]).a.len() == n
            && init[i].b.len() == k by {
            assert(init[i] == calls[i]);
        }
        lemma_live_width(init, a, b, n, k);
    }
}

/// A scan behind a first key gives its partners, and one behind a second
/// key too.
pub proof fn lemma_history_partners(
    m: crate::engine::storage::Contents,
    p: Seq<u8>,
    q: Seq<u8>,
    calls: Seq<LinkCall>,
    n: nat,
    k: nat,
    a: Seq<u8>,
    b: Seq<u8>,
)
    requires
        m.dom().finite(),
        !crate::bytes::starts_with(p, q),
        !crate::bytes::starts_with(q, p),
        none_behind(m, p),
        none_behind(m, q),
        widths(calls, n, k),
        a.len() == n,
        b.len() == k,
    ensures
        ({
            let after = pair_history(m, p, q, calls);
            let from_a = crate::engine::storage::prefix_suffixes(after, p + a);
            let from_b = crate::engine::storage::prefix_suffixes(after, q + b);
            &&& after.dom().finite()
            &&& partners_of(from_a, calls, a, true)
            &&& partners_of(from_b, calls, b, false)
            &&& suffixes_have(after, p + a, k)
            &&& suffixes_have(after, q + b, n)
        }),
{
    let after = pair_history(m, p, q, calls);
    let from_a = crate::engine::storage::prefix_suffixes(after, p + a);
    let from_b = crate::engine::storage::prefix_suffixes(after, q + b);
    lemma_pair_history(m, p, q, calls, n, k, a, b, Seq::empty());
    lemma_suffixes_exact(after, p + a);
    lemma_suffixes_exact(after, q + b);
    assert forall|s: Seq<u8>| #[trigger] from_a.contains(s) <==> live(calls, a, s) by {
        lemma_pair_history(m, p, q, calls, n, k, a, b, s);
        if live(calls, a, s) {
            lemma_live_width(calls, a, s, n, k);
        }
    }
    assert forall|s: Seq<u8>| #[trigger] from_b.contains(s) <==> live(calls, s, b) by {
        lemma_pair_history(m, p, q, calls, n, k, a, b, s);
        if live(calls, s, b) {
            lemma_live_width(calls, s, b, n, k);
        }
    }
    assert forall|i: int| 0 <= i < from_a.len() implies (#[trigger] from_a[i]).len() == k by {
        assert(from_a.contains(from_a[i]));
        lemma_live_width(calls, a, from_a[i], n, k);
    }
    assert forall|i: int| 0 <= i < from_b.len() implies (#[trigger] from_b[i]).len() == n by {
        assert(from_b.contains(from_b[i]));
        lemma_live_width(calls, from_b[i], b, n, k);
    }
}

/// What is linked was linked by a call.
pub proof fn lemma_live_call(calls: Seq<LinkCall>, a: Seq<u8>, b: Seq<u8>)
    requires
        live(calls, a, b),
    ensures
        exists|i: int| 0 <= i < calls.len() && (#[trigger] calls[i]).a == a && calls[i].b == b,
    decreases calls.len(),
{
    if calls.last().a == a && calls.last().b == b {
        assert(calls[calls.len() - 1].a == a);
    } else {
        let init = calls.drop_last();
        lemma_live_call(init, a, b);
        let i = choose|i: int|
            0 <= i < init.len() && (#[trigger] init[i]).a == a && init[i].b == b;
        assert(calls[i] == init[i]);
    }
}

/// Pruning counts each entry that it removes once: the count is by how much
/// the engine shrinks.
pub proof fn law_prune_counts_removed(
    m: crate::engine::storage::Contents,
    header: Seq<u8>,
    slots: Seq<Seq<u8>>,
)
    requires
        m.dom().finite(),
    ensures
        ({
            let gone = retired_keys(m, header, slots);
            let m2 = crate::index::del_keys(m, gone);
            &&& gone.no_duplicates()
            &&& forall|k: Seq<u8>| #[trigger]
                gone.contains(k) <==> m.dom().contains(k) && !m2.dom().contains(k)
            &&& m2.dom().len() + gone.len() == m.dom().len()
        }),
{
    let gone = retired_keys(m, header, slots);
    let m2 = crate::index::del_keys(m, gone);
    lemma_retired_distinct(m, header, slots);
    assert forall|k: Seq<u8>| #[trigger] gone.contains(k) <==> m.dom().contains(k)
        && !m2.dom().contains(k) by {
        lemma_retired_members(m, header, slots, k);
        crate::index::lemma_del_keys(m, gone, k);
    }
    let set = gone.to_set();
    assert forall|k: Seq<u8>| #[trigger] m.dom().contains(k) <==> m2.dom().union(set).contains(
        k,
    ) by {
        crate::index::lemma_del_keys(m, gone, k);
        assert(gone.contains(k) <==> m.dom().contains(k) && !m2.dom().contains(k));
        assert(set.contains(k) <==> gone.contains(k));
    }
    assert(m.dom() =~= m2.dom().union(set));
    assert(m2.dom().disjoint(set)) by {
        assert forall|k: Seq<u8>| !(m2.dom().contains(k) && set.contains(k)) by {
            if set.contains(k) {
                assert(gone.contains(k));
            }
        }
    }
    gone.unique_seq_to_set();
    vstd::set_lib::lemma_set_subset_finite(m.dom(), m2.dom());
    vstd::set_lib::lemma_set_subset_finite(m.dom(), set);
    vstd::set_lib::lemma_set_disjoint_lens(m2.dom(), set);
}

proof fn lemma_retired_distinct(
    m: crate::engine::storage::Contents,
    header: Seq<u8>,
    slots: Seq<Seq<u8>>,
)
    requires
        m.dom().finite(),
    ensures
        retired_keys(m, header, slots).no_duplicates(),
    decreases slots.len(),
{
    if slots.len() > 0 {
        let before = retired_keys(m, header, slots.drop_last());
        let m2 = crate::index::del_keys(m, before);
        let set = crate::engine::storage::prefix_set(m2, header + slots.last());
        let more = crate::engine::storage::prefix_keys(m2, header + slots.last());
        lemma_retired_distinct(m, header, slots.drop_last());
        assert(set.subset_of(m.dom())) by {
            assert forall|x: Seq<u8>| set.contains(x) implies m.dom().contains(x) by {
                crate::index::lemma_del_keys(m, before, x);
            }
        }
        vstd::set_lib::lemma_set_subset_finite(m.dom(), set);
        crate::engine::storage::lemma_finite_listing(set);
        let all = before + more;
        assert forall|i: int, j: int| 0 <= i < j < all.len() implies all[i] != all[j] by {
            if j < before.len() {
                assert(before[i] != before[j]);
            } else {
                let k = more[j - before.len()];
                assert(set.contains(k));
                crate::index::lemma_del_keys(m, before, k);
                if i < before.len() {
                    assert(before.contains(before[i]));
                } else {
                    assert(crate::bytes::lex_lt(more[i - before.len()], k));
                    crate::bytes::lemma_lex_irreflexive(k);
                }
            }
        }
    }
}

} // verus!
