//! What holds of rows as a whole: what a write leaves under every key, how
//! scans lead back to the rows that were written, and what groups count.
//!
//! The header and the primary front of a table are left open, so that all of
//! it holds of tables and of collections.

use vstd::prelude::*;

use crate::index::{Document, KvIndex};
use crate::key::KeyEncode;

verus! {

/// No group of a document keeps its value under `k`.
pub open spec fn ungrouped_at<R: Document>(
    header: Seq<u8>,
    key: Seq<u8>,
    d: R::Model,
    k: Seq<u8>,
) -> bool {
    forall|n: crate::engine::storage::Contents, fold: bool|
        crate::engine::storage::same_at(#[trigger] R::reduced(n, key, d, header, fold), n, k)
}

/// Groups keep to declared slots.
pub proof fn lemma_ungrouped<R: Document>(
    header: Seq<u8>,
    key: Seq<u8>,
    d: R::Model,
    k: Seq<u8>,
)
    requires
        !crate::index::declared_key(header, k),
    ensures
        ungrouped_at::<R>(header, key, d, k),
{
    assert forall|n: crate::engine::storage::Contents, fold: bool|
        crate::engine::storage::same_at(#[trigger] R::reduced(n, key, d, header, fold), n, k) by {
        R::keeps_to_slots(n, key, d, header, fold);
        assert(R::reduced(n, key, d, header, fold).dom().contains(k) == n.dom().contains(k));
    }
}

/// The pair at this place is the last with its key.
pub open spec fn last_with_key(pairs: Seq<(Seq<u8>, Seq<u8>)>, at: int) -> bool {
    &&& 0 <= at < pairs.len()
    &&& forall|i: int| at < i < pairs.len() ==> (#[trigger] pairs[i]).0 != pairs[at].0
}

/// Some pair has this key.
pub open spec fn has_key(pairs: Seq<(Seq<u8>, Seq<u8>)>, k: Seq<u8>) -> bool {
    exists|i: int| 0 <= i < pairs.len() && (#[trigger] pairs[i]).0 == k
}

/// A write that keeps embedded documents gives up this key: the document
/// stored before embeds one there, the new document does not.
pub open spec fn given_up<R: Document>(
    prev: Option<R::Model>,
    d: R::Model,
    embed: bool,
    k: Seq<u8>,
) -> bool {
    embed && prev is Some && R::embedded(prev->0).contains(k) && !R::embedded(d).contains(k)
}

/// What a write leaves under a key that no group uses. Embedded documents
/// that the new document no longer has are gone; those that it carries along
/// are there, whether or not a document stood under its key before; the
/// entries of its access methods are there, and its payload. Everything else
/// is as it was.
pub proof fn law_put_writes_exactly<R: Document>(
    m: crate::engine::storage::Contents,
    header: Seq<u8>,
    front: Seq<u8>,
    key: Seq<u8>,
    d: R::Model,
    embed: bool,
    k: Seq<u8>,
)
    requires
        ungrouped_at::<R>(header, key, d, k),
        m.dom().contains(front + key) ==> ungrouped_at::<R>(
            header,
            key,
            R::decoded(m[front + key]),
            k,
        ),
    ensures
        ({
            let prev = if m.dom().contains(front + key) {
                Some(R::decoded(m[front + key]))
            } else {
                None
            };
            let m2 = crate::rows::put_result::<R>(m, header, front, key, d, embed);
            let children = R::embeds(d);
            let entries = R::entries(key, d, header);
            let gone = given_up::<R>(prev, d, embed, k);
            let child = embed && has_key(children, k);
            let entry = has_key(entries, k);
            &&& gone ==> !m2.dom().contains(k)
            &&& !gone && embed ==> forall|at: int|
                #[trigger] last_with_key(children, at) && children[at].0 == k
                    ==> m2.dom().contains(k) && m2[k] == children[at].1
            &&& !gone && !child ==> forall|at: int|
                #[trigger] last_with_key(entries, at) && entries[at].0 == k
                    ==> m2.dom().contains(k) && m2[k] == entries[at].1
            &&& !gone && !child && !entry && k == front + key ==> m2.dom().contains(k) && m2[k]
                == R::payload(d)
            &&& !gone && !child && !entry && k != front + key
                ==> crate::engine::storage::same_at(m2, m, k)
        }),
{
    let prev = crate::rows::stored::<R>(m, front + key);
    let m0 = crate::rows::unfolded::<R>(m, header, key, prev);
    let m1 = m0.insert(front + key, R::payload(d));
    let entries = R::entries(key, d, header);
    let children = R::embeds(d);
    let m2 = crate::index::put_pairs(m1, entries);
    let written = crate::index::put_pairs(m2, children);
    let m3 = if embed {
        crate::rows::embeds_kept::<R>(m2, d, prev)
    } else {
        m2
    };
    let after = R::reduced(m3, key, d, header, true);
    assert(crate::engine::storage::same_at(after, m3, k));
    if prev is Some {
        assert(crate::engine::storage::same_at(
            R::reduced(m, key, prev->0, header, false),
            m,
            k,
        ));
        crate::index::lemma_del_keys(
            written,
            crate::index::stale_keys(R::embedded(prev->0), R::embedded(d)),
            k,
        );
        crate::index::lemma_stale_keys(R::embedded(prev->0), R::embedded(d), k);
    }
    assert(crate::engine::storage::same_at(m0, m, k));
    assert forall|at: int| #[trigger] last_with_key(children, at) && children[at].0 == k implies
        written.dom().contains(k) && written[k] == children[at].1 by {
        crate::index::lemma_put_pairs_found(m2, children, at);
    }
    assert forall|at: int| #[trigger] last_with_key(entries, at) && entries[at].0 == k implies
        m2.dom().contains(k) && m2[k] == entries[at].1 by {
        crate::index::lemma_put_pairs_found(m1, entries, at);
    }
    if !has_key(children, k) {
        crate::index::lemma_put_pairs_elsewhere(m2, children, k);
    }
    if !has_key(entries, k) {
        crate::index::lemma_put_pairs_elsewhere(m1, entries, k);
    }
}

/// What a removal leaves under a key that no group uses: the payload and the
/// entries of all access methods are gone, everything else is as it was.
pub proof fn law_delete_removes_exactly<R: Document>(
    m: crate::engine::storage::Contents,
    header: Seq<u8>,
    front: Seq<u8>,
    key: Seq<u8>,
    d: R::Model,
    k: Seq<u8>,
)
    requires
        ungrouped_at::<R>(header, key, d, k),
    ensures
        ({
            let m2 = crate::rows::delete_result::<R>(m, header, front, key, d);
            if k == front + key || has_key(R::entries(key, d, header), k) {
                !m2.dom().contains(k)
            } else {
                crate::engine::storage::same_at(m2, m, k)
            }
        }),
{
    let entries = R::entries(key, d, header);
    let keys = crate::index::keys_of(entries);
    let m1 = crate::index::del_keys(m.remove(front + key), keys);
    crate::index::lemma_del_keys(m.remove(front + key), keys, k);
    assert(crate::engine::storage::same_at(R::reduced(m1, key, d, header, false), m1, k));
    if has_key(entries, k) {
        let i = choose|i: int| 0 <= i < entries.len() && (#[trigger] entries[i]).0 == k;
        assert(keys[i] == k);
    }
    if keys.contains(k) {
        let i = choose|i: int| 0 <= i < keys.len() && keys[i] == k;
        assert(entries[i].0 == k);
    }
}

/// `count` says something of groups alone: it depends on the keys of `groups`
/// only, and folding a document in or out makes one thing of engines of which
/// it says the same.
pub open spec fn tells_groups<R: Document, A>(
    header: Seq<u8>,
    groups: spec_fn(Seq<u8>) -> bool,
    count: spec_fn(crate::engine::storage::Contents) -> A,
) -> bool {
    &&& forall|a: crate::engine::storage::Contents, b: crate::engine::storage::Contents|
        (forall|k: Seq<u8>|
            groups(k) ==> #[trigger] crate::engine::storage::same_at(a, b, k)) ==> #[trigger] count(
            a,
        ) == #[trigger] count(b)
    &&& forall|
        a: crate::engine::storage::Contents,
        b: crate::engine::storage::Contents,
        key: Seq<u8>,
        d: R::Model,
        fold: bool,
    |
        count(a) == count(b) ==> count(#[trigger] R::reduced(a, key, d, header, fold)) == count(
            #[trigger] R::reduced(b, key, d, header, fold),
        )
}

/// Groups keep no value under the keys that writing a document uses.
pub open spec fn groups_apart<R: Document>(
    header: Seq<u8>,
    front: Seq<u8>,
    key: Seq<u8>,
    d: R::Model,
    groups: spec_fn(Seq<u8>) -> bool,
) -> bool {
    &&& !groups(front + key)
    &&& forall|i: int|
        0 <= i < R::entries(key, d, header).len() ==> !groups(
            (#[trigger] R::entries(key, d, header)[i]).0,
        )
    &&& forall|i: int| 0 <= i < R::embeds(d).len() ==> !groups((#[trigger] R::embeds(d)[i]).0)
    &&& forall|i: int| 0 <= i < R::embedded(d).len() ==> !groups(#[trigger] R::embedded(d)[i])
}

/// A write folds the document into its groups once, and the document stored
/// before, if there was one, out of them first.
pub proof fn law_put_folds_once<R: Document, A>(
    m: crate::engine::storage::Contents,
    header: Seq<u8>,
    front: Seq<u8>,
    key: Seq<u8>,
    d: R::Model,
    embed: bool,
    groups: spec_fn(Seq<u8>) -> bool,
    count: spec_fn(crate::engine::storage::Contents) -> A,
)
    requires
        tells_groups::<R, A>(header, groups, count),
        groups_apart::<R>(header, front, key, d, groups),
        m.dom().contains(front + key) ==> groups_apart::<R>(
            header,
            front,
            key,
            R::decoded(m[front + key]),
            groups,
        ),
    ensures
        ({
            let before = if m.dom().contains(front + key) {
                R::reduced(m, key, R::decoded(m[front + key]), header, false)
            } else {
                m
            };
            count(crate::rows::put_result::<R>(m, header, front, key, d, embed)) == count(
                R::reduced(before, key, d, header, true),
            )
        }),
{
    let prev = crate::rows::stored::<R>(m, front + key);
    let m0 = crate::rows::unfolded::<R>(m, header, key, prev);
    let m1 = m0.insert(front + key, R::payload(d));
    let entries = R::entries(key, d, header);
    let children = R::embeds(d);
    let m2 = crate::index::put_pairs(m1, entries);
    let written = crate::index::put_pairs(m2, children);
    let m3 = if embed {
        crate::rows::embeds_kept::<R>(m2, d, prev)
    } else {
        m2
    };
    assert forall|k: Seq<u8>| groups(k) implies #[trigger] crate::engine::storage::same_at(
        m3,
        m0,
        k,
    ) by {
        assert forall|i: int| 0 <= i < entries.len() implies (#[trigger] entries[i]).0 != k by {
            assert(!groups(R::entries(key, d, header)[i].0));
        }
        assert forall|i: int| 0 <= i < children.len() implies (#[trigger] children[i]).0 != k by {
            assert(!groups(R::embeds(d)[i].0));
        }
        crate::index::lemma_put_pairs_elsewhere(m1, entries, k);
        crate::index::lemma_put_pairs_elsewhere(m2, children, k);
        if prev is Some {
            let stale = crate::index::stale_keys(R::embedded(prev->0), R::embedded(d));
            crate::index::lemma_del_keys(written, stale, k);
            crate::index::lemma_stale_keys(R::embedded(prev->0), R::embedded(d), k);
            if R::embedded(prev->0).contains(k) {
                let i = choose|i: int|
                    0 <= i < R::embedded(prev->0).len() && R::embedded(prev->0)[i] == k;
                assert(!groups(R::embedded(prev->0)[i]));
            }
        }
    }
    assert(count(m3) == count(m0));
    assert(count(R::reduced(m3, key, d, header, true)) == count(
        R::reduced(m0, key, d, header, true),
    ));
}

/// A removal folds the document out of its groups.
pub proof fn law_delete_folds_out<R: Document, A>(
    m: crate::engine::storage::Contents,
    header: Seq<u8>,
    front: Seq<u8>,
    key: Seq<u8>,
    d: R::Model,
    groups: spec_fn(Seq<u8>) -> bool,
    count: spec_fn(crate::engine::storage::Contents) -> A,
)
    requires
        tells_groups::<R, A>(header, groups, count),
        groups_apart::<R>(header, front, key, d, groups),
    ensures
        count(crate::rows::delete_result::<R>(m, header, front, key, d)) == count(
            R::reduced(m, key, d, header, false),
        ),
{
    let entries = R::entries(key, d, header);
    let keys = crate::index::keys_of(entries);
    let m1 = crate::index::del_keys(m.remove(front + key), keys);
    assert forall|k: Seq<u8>| groups(k) implies #[trigger] crate::engine::storage::same_at(
        m1,
        m,
        k,
    ) by {
        crate::index::lemma_del_keys(m.remove(front + key), keys, k);
        if keys.contains(k) {
            let i = choose|i: int| 0 <= i < keys.len() && keys[i] == k;
            assert(!groups(R::entries(key, d, header)[i].0));
        }
    }
    assert(count(m1) == count(m));
    assert(count(R::reduced(m1, key, d, header, false)) == count(
        R::reduced(m, key, d, header, false),
    ));
}

/// Groups count exactly the stored documents. Where folding the stored
/// document out undoes folding the written one in, a write under a free key
/// that is followed by the removal leaves the groups as they were, and
/// overwriting the document leaves them as if only the new one had been
/// written.
pub proof fn law_groups_count_stored<R: Document, A>(
    m: crate::engine::storage::Contents,
    header: Seq<u8>,
    front: Seq<u8>,
    key: Seq<u8>,
    d: R::Model,
    removed: R::Model,
    newer: R::Model,
    embed: bool,
    groups: spec_fn(Seq<u8>) -> bool,
    count: spec_fn(crate::engine::storage::Contents) -> A,
)
    requires
        !m.dom().contains(front + key),
        R::storable(d),
        !crate::index::declared_key(header, front + key),
        embed ==> !has_key(R::embeds(d), front + key),
        tells_groups::<R, A>(header, groups, count),
        groups_apart::<R>(header, front, key, d, groups),
        groups_apart::<R>(header, front, key, R::bare(d), groups),
        groups_apart::<R>(header, front, key, removed, groups),
        groups_apart::<R>(header, front, key, newer, groups),
        count(R::reduced(R::reduced(m, key, d, header, true), key, removed, header, false))
            == count(m),
        count(R::reduced(R::reduced(m, key, d, header, true), key, R::bare(d), header, false))
            == count(m),
    ensures
        ({
            let once = crate::rows::put_result::<R>(m, header, front, key, d, embed);
            &&& count(crate::rows::delete_result::<R>(once, header, front, key, removed)) == count(
                m,
            )
            &&& count(
                crate::rows::put_result::<R>(once, header, front, key, newer, embed),
            ) == count(crate::rows::put_result::<R>(m, header, front, key, newer, embed))
        }),
{
    let once = crate::rows::put_result::<R>(m, header, front, key, d, embed);
    let folded = R::reduced(m, key, d, header, true);
    law_put_folds_once::<R, A>(m, header, front, key, d, embed, groups, count);
    law_put_folds_once::<R, A>(m, header, front, key, newer, embed, groups, count);
    law_delete_folds_out::<R, A>(once, header, front, key, removed, groups, count);
    assert(count(R::reduced(once, key, removed, header, false)) == count(
        R::reduced(folded, key, removed, header, false),
    ));
    lemma_ungrouped::<R>(header, key, d, front + key);
    law_put_writes_exactly::<R>(m, header, front, key, d, embed, front + key);
    assert(!has_key(R::entries(key, d, header), front + key)) by {
        R::keeps_to_slots(m, key, d, header, true);
        if has_key(R::entries(key, d, header), front + key) {
            let i = choose|i: int|
                0 <= i < R::entries(key, d, header).len() && (#[trigger] R::entries(
                    key,
                    d,
                    header,
                )[i]).0 == front + key;
            assert(crate::index::declared_key(header, R::entries(key, d, header)[i].0));
        }
    }
    assert(once.dom().contains(front + key) && once[front + key] == R::payload(d));
    R::reads_back(d);
    law_put_folds_once::<R, A>(once, header, front, key, newer, embed, groups, count);
    assert(count(R::reduced(once, key, R::bare(d), header, false)) == count(
        R::reduced(folded, key, R::bare(d), header, false),
    ));
    assert(count(R::reduced(once, key, R::bare(d), header, false)) == count(m));
    assert(count(
        R::reduced(R::reduced(once, key, R::bare(d), header, false), key, newer, header, true),
    ) == count(R::reduced(m, key, newer, header, true)));
}

/// The stored form of the fields that an access method sorts a document by.
pub open spec fn sorted_form<I: KvIndex>(
    key: Seq<u8>,
    d: <I::Document as Document>::Model,
) -> Seq<u8> {
    I::named(key, d, I::sorted_by())
}

/// Writing a document makes one entry of this access method: behind the
/// front stand its sorted fields and then its key, and the value holds the
/// covered fields.
pub open spec fn one_entry<I: KvIndex>(
    header: Seq<u8>,
    key: Seq<u8>,
    d: <I::Document as Document>::Model,
    at: int,
) -> bool {
    let entries = <I::Document as Document>::entries(key, d, header);
    &&& 0 <= at < entries.len()
    &&& entries[at].0 == header + I::slot() + (sorted_form::<I>(key, d) + key)
    &&& entries[at].1 == if I::covered().len() == 0 {
        Seq::empty()
    } else {
        I::named(key, d, I::covered())
    }
    &&& forall|i: int|
        0 <= i < entries.len() && i != at ==> !crate::bytes::starts_with(
            (#[trigger] entries[i]).0,
            header + I::slot(),
        )
}

/// Whatever else a document is stored as stands apart from the entries of
/// this access method and from the payloads of the table: groups and, if
/// they are kept, embedded documents.
pub open spec fn stands_apart<I: KvIndex>(
    header: Seq<u8>,
    front: Seq<u8>,
    key: Seq<u8>,
    d: <I::Document as Document>::Model,
    embed: bool,
) -> bool {
    &&& forall|k: Seq<u8>|
        crate::bytes::starts_with(k, header + I::slot()) ==> #[trigger] ungrouped_at::<I::Document>(
            header,
            key,
            d,
            k,
        )
    &&& embed ==> forall|i: int|
        0 <= i < <I::Document as Document>::embeds(d).len() ==> {
            let k = (#[trigger] <I::Document as Document>::embeds(d)[i]).0;
            !crate::bytes::starts_with(k, header + I::slot()) && !crate::bytes::starts_with(
                k,
                front,
            )
        }
    &&& embed ==> forall|i: int|
        0 <= i < <I::Document as Document>::embedded(d).len() ==> {
            let k = #[trigger] <I::Document as Document>::embedded(d)[i];
            !crate::bytes::starts_with(k, header + I::slot()) && !crate::bytes::starts_with(
                k,
                front,
            )
        }
}

/// Payloads stand neither in declared slots nor among the entries of this
/// access method.
pub open spec fn payloads_apart<I: KvIndex>(header: Seq<u8>, front: Seq<u8>) -> bool {
    forall|k: Seq<u8>| #[trigger]
        crate::bytes::starts_with(k, front) ==> !crate::index::declared_key(header, k)
            && !crate::bytes::starts_with(k, header + I::slot())
}

/// A stored key that reads back as it is.
pub open spec fn whole_key<K: KeyEncode>(key: Seq<u8>) -> bool {
    key.len() == K::KEY_LEN && K::canon(key) == key
}

/// A table holds these documents by key, and each of them has one entry in
/// this access method. There are no other entries.
pub open spec fn indexed<I: KvIndex>(
    m: crate::engine::storage::Contents,
    header: Seq<u8>,
    front: Seq<u8>,
    docs: Map<Seq<u8>, <I::Document as Document>::Model>,
) -> bool {
    &&& m.dom().finite()
    &&& forall|k: Seq<u8>|
        m.dom().contains(k) && #[trigger] crate::bytes::starts_with(k, header + I::slot())
            ==> exists|key: Seq<u8>| #[trigger]
            docs.dom().contains(key) && k == header + I::slot() + (sorted_form::<I>(
                key,
                docs[key],
            ) + key)
    &&& forall|key: Seq<u8>| #[trigger]
        docs.dom().contains(key) ==> {
            let k = header + I::slot() + (sorted_form::<I>(key, docs[key]) + key);
            &&& whole_key::<<I::Document as Document>::Key>(key)
            &&& m.dom().contains(k)
            &&& m[k] == if I::covered().len() == 0 {
                Seq::empty()
            } else {
                I::named(key, docs[key], I::covered())
            }
            &&& m.dom().contains(front + key)
            &&& <I::Document as Document>::readable(m[front + key])
            &&& <I::Document as Document>::decoded(m[front + key])
                == <I::Document as Document>::bare(docs[key])
        }
}

/// An engine without a key of the table holds no documents.
pub proof fn law_nothing_indexed<I: KvIndex>(
    m: crate::engine::storage::Contents,
    header: Seq<u8>,
    front: Seq<u8>,
)
    requires
        m.dom().finite(),
        forall|k: Seq<u8>| #[trigger]
            m.dom().contains(k) ==> !crate::bytes::starts_with(k, header + I::slot()),
    ensures
        indexed::<I>(m, header, front, Map::empty()),
{
}

proof fn lemma_front_differs(front: Seq<u8>, a: Seq<u8>, b: Seq<u8>)
    ensures
        front + a == front + b <==> a == b,
        crate::bytes::starts_with(front + a, front),
{
    crate::bytes::lemma_starts_with_concat(front, a);
    crate::bytes::lemma_starts_with_concat(front, b);
}

/// Entries with whole keys are the same only for one key.
proof fn lemma_entry_tells_key(p: Seq<u8>, s: Seq<u8>, a: Seq<u8>, t: Seq<u8>, b: Seq<u8>)
    requires
        a.len() == b.len(),
        p + (s + a) == p + (t + b),
    ensures
        a == b,
        s == t,
{
    crate::bytes::lemma_starts_with_concat(p, s + a);
    crate::bytes::lemma_starts_with_concat(p, t + b);
    assert(s + a == t + b);
    assert((s + a).skip(s.len() as int) =~= a);
    assert((t + b).skip(t.len() as int) =~= b);
    assert((s + a).take(s.len() as int) =~= s);
    assert((t + b).take(t.len() as int) =~= t);
}

/// Writing a document under a key that has none, or that has one with the
/// same sorted fields, leaves the table with it among its documents and
/// reachable by its entry. The documents around it are as they were.
pub proof fn law_put_keeps_indexed<I: KvIndex>(
    m: crate::engine::storage::Contents,
    header: Seq<u8>,
    front: Seq<u8>,
    docs: Map<Seq<u8>, <I::Document as Document>::Model>,
    key: Seq<u8>,
    d: <I::Document as Document>::Model,
    embed: bool,
    at: int,
)
    requires
        indexed::<I>(m, header, front, docs),
        payloads_apart::<I>(header, front),
        whole_key::<<I::Document as Document>::Key>(key),
        <I::Document as Document>::storable(d),
        one_entry::<I>(header, key, d, at),
        stands_apart::<I>(header, front, key, d, embed),
        docs.dom().contains(key) ==> sorted_form::<I>(key, docs[key]) == sorted_form::<I>(key, d),
        !docs.dom().contains(key) ==> !m.dom().contains(front + key),
        docs.dom().contains(key) ==> stands_apart::<I>(
            header,
            front,
            key,
            <I::Document as Document>::bare(docs[key]),
            embed,
        ),
        crate::rows::put_result::<I::Document>(
            m,
            header,
            front,
            key,
            d,
            embed,
        ).dom().finite(),
    ensures
        indexed::<I>(
            crate::rows::put_result::<I::Document>(m, header, front, key, d, embed),
            header,
            front,
            docs.insert(key, d),
        ),
{
    let p = header + I::slot();
    let m2 = crate::rows::put_result::<I::Document>(m, header, front, key, d, embed);
    let docs2 = docs.insert(key, d);
    let entries = <I::Document as Document>::entries(key, d, header);
    let children = <I::Document as Document>::embeds(d);
    let e = p + (sorted_form::<I>(key, d) + key);
    crate::bytes::lemma_starts_with_concat(p, sorted_form::<I>(key, d) + key);
    assert(last_with_key(entries, at)) by {
        assert forall|i: int| at < i < entries.len() implies (#[trigger] entries[i]).0
            != entries[at].0 by {
            assert(!crate::bytes::starts_with(entries[i].0, p));
        }
    }
    // Behind the front of the access method, only the one entry is written.
    assert forall|k: Seq<u8>| #[trigger] crate::bytes::starts_with(k, p) implies if k == e {
        m2.dom().contains(k) && m2[k] == entries[at].1
    } else {
        crate::engine::storage::same_at(m2, m, k)
    } by {
        lemma_put_at_entry::<I>(m, header, front, docs, key, d, embed, at, k);
    }
    // Among the payloads, only the one is written.
    assert forall|other: Seq<u8>| true implies if other == key {
        m2.dom().contains(front + other) && m2[front + other]
            == <I::Document as Document>::payload(d)
    } else {
        crate::engine::storage::same_at(m2, m, #[trigger] (front + other))
    } by {
        lemma_put_at_payload::<I>(m, header, front, docs, key, d, embed, other);
    }
    <I::Document as Document>::reads_back(d);
    assert forall|k: Seq<u8>|
        m2.dom().contains(k) && #[trigger] crate::bytes::starts_with(k, p) implies exists|
        x: Seq<u8>,
    | #[trigger] docs2.dom().contains(x) && k == p + (sorted_form::<I>(x, docs2[x]) + x) by {
        if k == e {
            assert(docs2.dom().contains(key));
        } else {
            let x = choose|x: Seq<u8>| #[trigger]
                docs.dom().contains(x) && k == p + (sorted_form::<I>(x, docs[x]) + x);
            assert(docs.dom().contains(x));
            assert(docs2.dom().contains(x));
        }
    }
    assert forall|x: Seq<u8>| #[trigger] docs2.dom().contains(x) implies {
        let k = p + (sorted_form::<I>(x, docs2[x]) + x);
        &&& whole_key::<<I::Document as Document>::Key>(x)
        &&& m2.dom().contains(k)
        &&& m2[k] == if I::covered().len() == 0 {
            Seq::empty()
        } else {
            I::named(x, docs2[x], I::covered())
        }
        &&& m2.dom().contains(front + x)
        &&& <I::Document as Document>::readable(m2[front + x])
        &&& <I::Document as Document>::decoded(m2[front + x])
            == <I::Document as Document>::bare(docs2[x])
    } by {
        let k = p + (sorted_form::<I>(x, docs2[x]) + x);
        crate::bytes::lemma_starts_with_concat(p, sorted_form::<I>(x, docs2[x]) + x);
        if x != key {
            assert(docs.dom().contains(x));
            if k == e {
                lemma_entry_tells_key(
                    p,
                    sorted_form::<I>(x, docs2[x]),
                    x,
                    sorted_form::<I>(key, d),
                    key,
                );
            }
            assert(crate::engine::storage::same_at(m2, m, front + x));
        } else {
            assert(m2.dom().contains(front + key));
        }
    }
}

/// What a write leaves behind the front of an access method.
proof fn lemma_put_at_entry<I: KvIndex>(
    m: crate::engine::storage::Contents,
    header: Seq<u8>,
    front: Seq<u8>,
    docs: Map<Seq<u8>, <I::Document as Document>::Model>,
    key: Seq<u8>,
    d: <I::Document as Document>::Model,
    embed: bool,
    at: int,
    k: Seq<u8>,
)
    requires
        indexed::<I>(m, header, front, docs),
        payloads_apart::<I>(header, front),
        one_entry::<I>(header, key, d, at),
        stands_apart::<I>(header, front, key, d, embed),
        !docs.dom().contains(key) ==> !m.dom().contains(front + key),
        docs.dom().contains(key) ==> stands_apart::<I>(
            header,
            front,
            key,
            <I::Document as Document>::bare(docs[key]),
            embed,
        ),
        crate::bytes::starts_with(k, header + I::slot()),
    ensures
        ({
            let m2 = crate::rows::put_result::<I::Document>(m, header, front, key, d, embed);
            let entries = <I::Document as Document>::entries(key, d, header);
            if k == entries[at].0 {
                m2.dom().contains(k) && m2[k] == entries[at].1
            } else {
                crate::engine::storage::same_at(m2, m, k)
            }
        }),
{
    let p = header + I::slot();
    let entries = <I::Document as Document>::entries(key, d, header);
    let children = <I::Document as Document>::embeds(d);
    crate::bytes::lemma_starts_with_concat(p, sorted_form::<I>(key, d) + key);
    lemma_front_differs(front, key, key);
    assert(ungrouped_at::<I::Document>(header, key, d, k));
    if m.dom().contains(front + key) {
        assert(docs.dom().contains(key));
        let o = <I::Document as Document>::bare(docs[key]);
        assert(ungrouped_at::<I::Document>(header, key, o, k));
        if embed && <I::Document as Document>::embedded(o).contains(k) {
            let i = choose|i: int|
                0 <= i < <I::Document as Document>::embedded(o).len()
                    && <I::Document as Document>::embedded(o)[i] == k;
            assert(!crate::bytes::starts_with(<I::Document as Document>::embedded(o)[i], p));
        }
    }
    law_put_writes_exactly::<I::Document>(m, header, front, key, d, embed, k);
    if embed && has_key(children, k) {
        let i = choose|i: int| 0 <= i < children.len() && (#[trigger] children[i]).0 == k;
        assert(!crate::bytes::starts_with(<I::Document as Document>::embeds(d)[i].0, p));
    }
    assert(last_with_key(entries, at)) by {
        assert forall|i: int| at < i < entries.len() implies (#[trigger] entries[i]).0
            != entries[at].0 by {
            assert(!crate::bytes::starts_with(entries[i].0, p));
        }
    }
    if k != entries[at].0 && has_key(entries, k) {
        let i = choose|i: int| 0 <= i < entries.len() && (#[trigger] entries[i]).0 == k;
        assert(!crate::bytes::starts_with(entries[i].0, p));
    }
}

/// What a write leaves of the payloads.
proof fn lemma_put_at_payload<I: KvIndex>(
    m: crate::engine::storage::Contents,
    header: Seq<u8>,
    front: Seq<u8>,
    docs: Map<Seq<u8>, <I::Document as Document>::Model>,
    key: Seq<u8>,
    d: <I::Document as Document>::Model,
    embed: bool,
    other: Seq<u8>,
)
    requires
        indexed::<I>(m, header, front, docs),
        payloads_apart::<I>(header, front),
        stands_apart::<I>(header, front, key, d, embed),
        !docs.dom().contains(key) ==> !m.dom().contains(front + key),
        docs.dom().contains(key) ==> stands_apart::<I>(
            header,
            front,
            key,
            <I::Document as Document>::bare(docs[key]),
            embed,
        ),
    ensures
        ({
            let m2 = crate::rows::put_result::<I::Document>(m, header, front, key, d, embed);
            if other == key {
                m2.dom().contains(front + key) && m2[front + key]
                    == <I::Document as Document>::payload(d)
            } else {
                crate::engine::storage::same_at(m2, m, front + other)
            }
        }),
{
    let k = front + other;
    let entries = <I::Document as Document>::entries(key, d, header);
    let children = <I::Document as Document>::embeds(d);
    lemma_front_differs(front, key, other);
    lemma_front_differs(front, other, key);
    lemma_ungrouped::<I::Document>(header, key, d, k);
    if m.dom().contains(front + key) {
        assert(docs.dom().contains(key));
        let o = <I::Document as Document>::bare(docs[key]);
        lemma_ungrouped::<I::Document>(header, key, o, k);
        if embed && <I::Document as Document>::embedded(o).contains(k) {
            let i = choose|i: int|
                0 <= i < <I::Document as Document>::embedded(o).len()
                    && <I::Document as Document>::embedded(o)[i] == k;
            assert(!crate::bytes::starts_with(<I::Document as Document>::embedded(o)[i], front));
        }
    }
    law_put_writes_exactly::<I::Document>(m, header, front, key, d, embed, k);
    if embed && has_key(children, k) {
        let i = choose|i: int| 0 <= i < children.len() && (#[trigger] children[i]).0 == k;
        assert(!crate::bytes::starts_with(<I::Document as Document>::embeds(d)[i].0, front));
    }
    if has_key(entries, k) {
        <I::Document as Document>::keeps_to_slots(m, key, d, header, true);
        let i = choose|i: int| 0 <= i < entries.len() && (#[trigger] entries[i]).0 == k;
        assert(crate::index::declared_key(
            header,
            <I::Document as Document>::entries(key, d, header)[i].0,
        ));
    }
}

/// Removing a document leaves the table without it and its entry, and the
/// documents around it as they were.
pub proof fn law_delete_keeps_indexed<I: KvIndex>(
    m: crate::engine::storage::Contents,
    header: Seq<u8>,
    front: Seq<u8>,
    docs: Map<Seq<u8>, <I::Document as Document>::Model>,
    key: Seq<u8>,
    d: <I::Document as Document>::Model,
    at: int,
)
    requires
        indexed::<I>(m, header, front, docs),
        payloads_apart::<I>(header, front),
        docs.dom().contains(key),
        sorted_form::<I>(key, d) == sorted_form::<I>(key, docs[key]),
        one_entry::<I>(header, key, d, at),
        stands_apart::<I>(header, front, key, d, false),
        crate::rows::delete_result::<I::Document>(m, header, front, key, d).dom().finite(),
    ensures
        indexed::<I>(
            crate::rows::delete_result::<I::Document>(m, header, front, key, d),
            header,
            front,
            docs.remove(key),
        ),
{
    let p = header + I::slot();
    let m2 = crate::rows::delete_result::<I::Document>(m, header, front, key, d);
    let docs2 = docs.remove(key);
    let entries = <I::Document as Document>::entries(key, d, header);
    let e = p + (sorted_form::<I>(key, d) + key);
    lemma_front_differs(front, key, key);
    assert forall|k: Seq<u8>| #[trigger] crate::bytes::starts_with(k, p) implies if k == e {
        !m2.dom().contains(k)
    } else {
        crate::engine::storage::same_at(m2, m, k)
    } by {
        assert(ungrouped_at::<I::Document>(header, key, d, k));
        law_delete_removes_exactly::<I::Document>(m, header, front, key, d, k);
        if k == e {
            assert(entries[at].0 == k);
        } else if has_key(entries, k) {
            let i = choose|i: int| 0 <= i < entries.len() && (#[trigger] entries[i]).0 == k;
            assert(!crate::bytes::starts_with(entries[i].0, p));
        }
    }
    assert forall|other: Seq<u8>| other != key implies crate::engine::storage::same_at(
        m2,
        m,
        #[trigger] (front + other),
    ) by {
        let k = front + other;
        lemma_front_differs(front, other, key);
        lemma_ungrouped::<I::Document>(header, key, d, k);
        law_delete_removes_exactly::<I::Document>(m, header, front, key, d, k);
        if has_key(entries, k) {
            <I::Document as Document>::keeps_to_slots(m, key, d, header, true);
            let i = choose|i: int| 0 <= i < entries.len() && (#[trigger] entries[i]).0 == k;
            assert(crate::index::declared_key(
                header,
                <I::Document as Document>::entries(key, d, header)[i].0,
            ));
        }
    }
    assert forall|k: Seq<u8>|
        m2.dom().contains(k) && #[trigger] crate::bytes::starts_with(k, p) implies exists|
        x: Seq<u8>,
    | #[trigger] docs2.dom().contains(x) && k == p + (sorted_form::<I>(x, docs2[x]) + x) by {
        let x = choose|x: Seq<u8>| #[trigger]
            docs.dom().contains(x) && k == p + (sorted_form::<I>(x, docs[x]) + x);
        assert(docs.dom().contains(x));
        assert(docs2.dom().contains(x));
    }
    assert forall|x: Seq<u8>| #[trigger] docs2.dom().contains(x) implies {
        let k = p + (sorted_form::<I>(x, docs2[x]) + x);
        &&& whole_key::<<I::Document as Document>::Key>(x)
        &&& m2.dom().contains(k)
        &&& m2[k] == if I::covered().len() == 0 {
            Seq::empty()
        } else {
            I::named(x, docs2[x], I::covered())
        }
        &&& m2.dom().contains(front + x)
        &&& <I::Document as Document>::readable(m2[front + x])
        &&& <I::Document as Document>::decoded(m2[front + x])
            == <I::Document as Document>::bare(docs2[x])
    } by {
        let k = p + (sorted_form::<I>(x, docs2[x]) + x);
        crate::bytes::lemma_starts_with_concat(p, sorted_form::<I>(x, docs2[x]) + x);
        assert(docs.dom().contains(x));
        assert(docs.dom().contains(key));
        if k == e {
            lemma_entry_tells_key(
                p,
                sorted_form::<I>(x, docs2[x]),
                x,
                sorted_form::<I>(key, d),
                key,
            );
        }
        assert(crate::engine::storage::same_at(m2, m, front + x));
    }
}

/// The row of a document that an access method leads to: its whole key, and
/// the document as it is stored, with embedded documents fetched if they are
/// kept.
pub open spec fn doc_row<R: Document>(
    m: crate::engine::storage::Contents,
    key: Seq<u8>,
    d: R::Model,
    embed: bool,
) -> (Seq<u8>, nat, Option<R::Model>) {
    (
        key,
        <R::Key as KeyEncode>::KEY_LEN as nat,
        Some(
            if embed {
                R::dereferenced(R::bare(d), m)
            } else {
                R::bare(d)
            },
        ),
    )
}

/// Whatever part of the sorted fields was scanned for, what stands behind it
/// in an entry leads back to the document: to its key, as far as entries hold
/// it, with zeros for the rest.
pub proof fn law_tail_leads_back<I: KvIndex>(
    header: Seq<u8>,
    encoded: Seq<u8>,
    rest: Seq<u8>,
    key: Seq<u8>,
)
    requires
        key.len() == <<I::Document as Document>::Key as KeyEncode>::KEY_LEN,
    ensures
        ({
            let n = crate::index::tail_width::<I>();
            let e = crate::index::entry_at::<I>(header, encoded + rest, key);
            let scanned = header + I::slot() + encoded;
            &&& crate::bytes::starts_with(e, scanned)
            &&& n <= e.skip(scanned.len() as int).len()
            &&& crate::index::tail_key::<<I::Document as Document>::Key>(
                e.skip(scanned.len() as int),
                n,
            ) == <<I::Document as Document>::Key as KeyEncode>::canon(
                Seq::new(
                    key.len(),
                    |i: int|
                        if i < n {
                            key[i]
                        } else {
                            0u8
                        },
                ),
            )
            &&& n == key.len() && whole_key::<<I::Document as Document>::Key>(key)
                ==> crate::index::tail_key::<<I::Document as Document>::Key>(
                e.skip(scanned.len() as int),
                n,
            ) == key
        }),
{
    let n = crate::index::tail_width::<I>();
    <<I::Document as Document>::Key as KeyEncode>::prefix_fits(I::tail_fields());
    let e = crate::index::entry_at::<I>(header, encoded + rest, key);
    let scanned = header + I::slot() + encoded;
    let tail = key.take(n as int);
    assert(e =~= scanned + (rest + tail));
    crate::bytes::lemma_starts_with_concat(scanned, rest + tail);
    let s = rest + tail;
    assert(s.skip(s.len() - n) =~= tail);
    let filled = tail + Seq::new((key.len() - n) as nat, |i: int| 0u8);
    assert(filled =~= Seq::new(
        key.len(),
        |i: int|
            if i < n {
                key[i]
            } else {
                0u8
            },
    ));
    if n == key.len() {
        assert(filled =~= key);
    }
}

/// The row that the tail of the entry of a document leads to.
proof fn lemma_tail_row<I: KvIndex>(
    m: crate::engine::storage::Contents,
    header: Seq<u8>,
    front: Seq<u8>,
    docs: Map<Seq<u8>, <I::Document as Document>::Model>,
    key: Seq<u8>,
    skipped: nat,
    embed: bool,
)
    requires
        indexed::<I>(m, header, front, docs),
        docs.dom().contains(key),
        skipped <= sorted_form::<I>(key, docs[key]).len(),
    ensures
        ({
            let s = (sorted_form::<I>(key, docs[key]) + key).skip(skipped as int);
            let n = <<I::Document as Document>::Key as KeyEncode>::KEY_LEN as nat;
            &&& n <= s.len()
            &&& crate::index::tail_key::<<I::Document as Document>::Key>(s, n) == key
            &&& crate::rows::row_at::<I::Document>(m, front, s, n, embed) == doc_row::<
                I::Document,
            >(m, key, docs[key], embed)
        }),
{
    let sorted = sorted_form::<I>(key, docs[key]);
    let s = (sorted + key).skip(skipped as int);
    assert(s.skip(s.len() - key.len()) =~= key);
    assert(key + Seq::new(0nat, |i: int| 0u8) =~= key);
    assert(Seq::new((key.len() - key.len()) as nat, |i: int| 0u8) =~= Seq::empty());
    assert(s.skip(s.len() - key.len()) + Seq::new((key.len() - key.len()) as nat, |i: int| 0u8)
        =~= key);
}

/// A row is that of one of these documents.
pub open spec fn is_row_of<R: Document>(
    row: (Seq<u8>, nat, Option<R::Model>),
    m: crate::engine::storage::Contents,
    docs: Map<Seq<u8>, R::Model>,
    embed: bool,
) -> bool {
    docs.dom().contains(row.0) && row == doc_row::<R>(m, row.0, docs[row.0], embed)
}

/// One document stands before another in an access method: by the stored form
/// of its sorted fields, then by its key.
pub open spec fn entry_before<I: KvIndex>(
    docs: Map<Seq<u8>, <I::Document as Document>::Model>,
    a: Seq<u8>,
    b: Seq<u8>,
) -> bool {
    crate::bytes::lex_lt(sorted_form::<I>(a, docs[a]) + a, sorted_form::<I>(b, docs[b]) + b)
}

/// A scan for the first part of the sorted fields gives exactly the documents
/// whose sorted fields begin with it, each once with its whole key, in the
/// order of their entries. Nothing to scan for gives all of them. The covered
/// fields that come with them are theirs.
pub proof fn law_scan_gives_documents<I: KvIndex>(
    m: crate::engine::storage::Contents,
    header: Seq<u8>,
    front: Seq<u8>,
    docs: Map<Seq<u8>, <I::Document as Document>::Model>,
    encoded: Seq<u8>,
    embed: bool,
)
    requires
        indexed::<I>(m, header, front, docs),
        crate::index::tail_width::<I>()
            == <<I::Document as Document>::Key as KeyEncode>::KEY_LEN,
        forall|key: Seq<u8>| #[trigger]
            docs.dom().contains(key) ==> encoded.len() <= sorted_form::<I>(key, docs[key]).len(),
    ensures
        ({
            let n = crate::index::tail_width::<I>();
            let suffixes = crate::engine::storage::prefix_suffixes(
                m,
                header + I::slot() + encoded,
            );
            let pairs = crate::engine::storage::prefix_suffix_pairs(
                m,
                header + I::slot() + encoded,
            );
            let out = suffixes.map_values(
                |s: Seq<u8>| crate::rows::row_at::<I::Document>(m, front, s, n, embed),
            );
            let keys = suffixes.map_values(
                |s: Seq<u8>|
                    (crate::index::tail_key::<<I::Document as Document>::Key>(s, n), n),
            );
            let covering = pairs.map_values(
                |s: (Seq<u8>, Seq<u8>)|
                    (crate::index::tail_key::<<I::Document as Document>::Key>(s.0, n), n, s.1),
            );
            &&& forall|i: int| 0 <= i < suffixes.len() ==> n <= (#[trigger] suffixes[i]).len()
            &&& forall|i: int| 0 <= i < pairs.len() ==> n <= (#[trigger] pairs[i]).0.len()
            &&& forall|i: int|
                0 <= i < out.len() ==> is_row_of::<I::Document>(#[trigger] out[i], m, docs, embed)
                    && crate::bytes::starts_with(
                    sorted_form::<I>(out[i].0, docs[out[i].0]),
                    encoded,
                )
            &&& forall|key: Seq<u8>|
                docs.dom().contains(key) && crate::bytes::starts_with(
                    sorted_form::<I>(key, docs[key]),
                    encoded,
                ) ==> out.contains(#[trigger] doc_row::<I::Document>(m, key, docs[key], embed))
            &&& forall|i: int, j: int|
                0 <= i < j < out.len() ==> entry_before::<I>(
                    docs,
                    (#[trigger] out[i]).0,
                    (#[trigger] out[j]).0,
                )
            &&& keys.len() == out.len() && covering.len() == out.len()
            &&& forall|i: int|
                0 <= i < out.len() ==> #[trigger] keys[i] == (out[i].0, out[i].1)
            &&& forall|i: int|
                0 <= i < out.len() ==> #[trigger] covering[i] == (
                    out[i].0,
                    out[i].1,
                    if I::covered().len() == 0 {
                        Seq::empty()
                    } else {
                        I::named(out[i].0, docs[out[i].0], I::covered())
                    },
                )
        }),
{
    let n = crate::index::tail_width::<I>();
    let p = header + I::slot();
    let q = p + encoded;
    let suffixes = crate::engine::storage::prefix_suffixes(m, q);
    let pairs = crate::engine::storage::prefix_suffix_pairs(m, q);
    let ks = crate::engine::storage::prefix_keys(m, q);
    let set = crate::engine::storage::prefix_set(m, q);
    let f = |s: Seq<u8>| crate::rows::row_at::<I::Document>(m, front, s, n, embed);
    let out = suffixes.map_values(f);
    let keys = suffixes.map_values(
        |s: Seq<u8>| (crate::index::tail_key::<<I::Document as Document>::Key>(s, n), n),
    );
    let covering = pairs.map_values(
        |s: (Seq<u8>, Seq<u8>)|
            (crate::index::tail_key::<<I::Document as Document>::Key>(s.0, n), n, s.1),
    );
    assert(set.subset_of(m.dom()));
    vstd::set_lib::lemma_set_subset_finite(m.dom(), set);
    crate::engine::storage::lemma_finite_listing(set);
    // Which document stands under the i-th key.
    let of = |i: int|
        choose|x: Seq<u8>| #[trigger]
            docs.dom().contains(x) && ks[i] == p + (sorted_form::<I>(x, docs[x]) + x);
    assert forall|i: int| 0 <= i < ks.len() implies {
        let x = of(i);
        &&& docs.dom().contains(x)
        &&& #[trigger] ks[i] == p + (sorted_form::<I>(x, docs[x]) + x)
        &&& suffixes[i] == (sorted_form::<I>(x, docs[x]) + x).skip(encoded.len() as int)
        &&& crate::bytes::starts_with(sorted_form::<I>(x, docs[x]), encoded)
        &&& out[i] == doc_row::<I::Document>(m, x, docs[x], embed)
        &&& n <= suffixes[i].len()
        &&& crate::index::tail_key::<<I::Document as Document>::Key>(suffixes[i], n) == x
    } by {
        assert(set.contains(ks[i]));
        crate::bytes::lemma_starts_with_split(ks[i], q);
        let rest = ks[i].skip(q.len() as int);
        assert(ks[i] =~= p + (encoded + rest));
        crate::bytes::lemma_starts_with_concat(p, encoded + rest);
        let x = of(i);
        assert(docs.dom().contains(x) && ks[i] == p + (sorted_form::<I>(x, docs[x]) + x));
        let sorted = sorted_form::<I>(x, docs[x]);
        crate::bytes::lemma_starts_with_concat(p, sorted + x);
        assert(encoded + rest == sorted + x);
        assert((sorted + x).skip(encoded.len() as int) =~= rest);
        assert(sorted.subrange(0, encoded.len() as int) =~= encoded) by {
            assert forall|j: int| 0 <= j < encoded.len() implies sorted[j] == encoded[j] by {
                assert((sorted + x)[j] == (encoded + rest)[j]);
            }
        }
        lemma_tail_row::<I>(m, header, front, docs, x, encoded.len(), embed);
    }
    assert forall|i: int| 0 <= i < suffixes.len() implies n <= (#[trigger] suffixes[i]).len() by {
        assert(ks[i] == ks[i]);
    }
    assert forall|i: int| 0 <= i < pairs.len() implies n <= (#[trigger] pairs[i]).0.len() by {
        assert(pairs[i].0 == suffixes[i]);
    }
    assert forall|i: int| 0 <= i < out.len() implies is_row_of::<I::Document>(
        #[trigger] out[i],
        m,
        docs,
        embed,
    ) && crate::bytes::starts_with(sorted_form::<I>(out[i].0, docs[out[i].0]), encoded) by {
        assert(ks[i] == ks[i]);
    }
    assert forall|key: Seq<u8>|
        docs.dom().contains(key) && crate::bytes::starts_with(
            sorted_form::<I>(key, docs[key]),
            encoded,
        ) implies out.contains(#[trigger] doc_row::<I::Document>(m, key, docs[key], embed)) by {
        let sorted = sorted_form::<I>(key, docs[key]);
        let e = p + (sorted + key);
        crate::bytes::lemma_starts_with_split(sorted, encoded);
        let rest = sorted.skip(encoded.len() as int) + key;
        assert(e =~= q + rest);
        crate::bytes::lemma_starts_with_concat(q, rest);
        assert(set.contains(e));
        let i = choose|i: int| 0 <= i < ks.len() && ks[i] == e;
        let x = of(i);
        assert(ks[i] == p + (sorted_form::<I>(x, docs[x]) + x));
        lemma_entry_tells_key(p, sorted_form::<I>(x, docs[x]), x, sorted, key);
        assert(out[i] == doc_row::<I::Document>(m, key, docs[key], embed));
    }
    assert forall|i: int, j: int| 0 <= i < j < out.len() implies entry_before::<I>(
        docs,
        (#[trigger] out[i]).0,
        (#[trigger] out[j]).0,
    ) by {
        assert(crate::bytes::lex_lt(ks[i], ks[j]));
        let (a, b) = (of(i), of(j));
        crate::bytes::lemma_lex_shared_prefix(
            p,
            sorted_form::<I>(a, docs[a]) + a,
            sorted_form::<I>(b, docs[b]) + b,
        );
    }
    assert forall|i: int| 0 <= i < out.len() implies #[trigger] keys[i] == (out[i].0, out[i].1) by {
        assert(ks[i] == ks[i]);
    }
    assert forall|i: int| 0 <= i < out.len() implies #[trigger] covering[i] == (
        out[i].0,
        out[i].1,
        if I::covered().len() == 0 {
            Seq::empty()
        } else {
            I::named(out[i].0, docs[out[i].0], I::covered())
        },
    ) by {
        let x = of(i);
        assert(ks[i] == p + (sorted_form::<I>(x, docs[x]) + x));
        assert(pairs[i] == (suffixes[i], m[ks[i]]));
    }
}

/// What lies between two strings that begin alike begins so too.
proof fn lemma_between(p: Seq<u8>, a: Seq<u8>, k: Seq<u8>, b: Seq<u8>)
    requires
        crate::bytes::lex_le(p + a, k),
        crate::bytes::lex_lt(k, p + b),
    ensures
        crate::bytes::starts_with(k, p),
    decreases p.len(),
{
    if p.len() == 0 {
        assert(k.subrange(0, 0) =~= p);
    } else {
        let x = p + a;
        let y = p + b;
        if x == k {
            crate::bytes::lemma_starts_with_concat(p, a);
        } else {
            let t = p.drop_first();
            assert(x[0] == p[0] && y[0] == p[0]);
            assert(k.len() > 0);
            assert(k[0] == p[0]);
            assert(x.drop_first() =~= t + a);
            assert(y.drop_first() =~= t + b);
            lemma_between(t, a, k.drop_first(), b);
            assert(k.subrange(0, p.len() as int) =~= seq![k[0]] + k.drop_first().subrange(
                0,
                t.len() as int,
            ));
            assert(p =~= seq![p[0]] + t);
        }
    }
}

/// The keys of this length at least.
spec fn long_keys(keys: Seq<Seq<u8>>, least: nat) -> Seq<Seq<u8>>
    decreases keys.len(),
{
    if keys.len() == 0 {
        Seq::empty()
    } else if keys.last().len() >= least {
        long_keys(keys.drop_last(), least).push(keys.last())
    } else {
        long_keys(keys.drop_last(), least)
    }
}

/// The tails of a range are those of its long keys, in their order.
proof fn lemma_long_keys(keys: Seq<Seq<u8>>, from: nat, taken: nat)
    requires
        forall|i: int, j: int|
            0 <= i < j < keys.len() ==> crate::bytes::lex_lt(keys[i], keys[j]),
    ensures
        ({
            let long = long_keys(keys, from + taken);
            &&& crate::model::document::long_tails(keys, from, taken) == long.map_values(
                |k: Seq<u8>| k.skip(from as int),
            )
            &&& forall|k: Seq<u8>| #[trigger]
                long.contains(k) <==> keys.contains(k) && k.len() >= from + taken
            &&& forall|i: int, j: int|
                0 <= i < j < long.len() ==> crate::bytes::lex_lt(long[i], long[j])
        }),
    decreases keys.len(),
{
    let f = |k: Seq<u8>| k.skip(from as int);
    let long = long_keys(keys, from + taken);
    if keys.len() > 0 {
        let init = keys.drop_last();
        let last = keys.last();
        assert forall|i: int, j: int| 0 <= i < j < init.len() implies crate::bytes::lex_lt(
            init[i],
            init[j],
        ) by {
            assert(crate::bytes::lex_lt(keys[i], keys[j]));
        }
        lemma_long_keys(init, from, taken);
        let before = long_keys(init, from + taken);
        assert forall|k: Seq<u8>| #[trigger]
            keys.contains(k) <==> init.contains(k) || k == last by {
            if keys.contains(k) {
                let i = choose|i: int| 0 <= i < keys.len() && keys[i] == k;
                if i < init.len() {
                    assert(init[i] == k);
                }
            }
            if init.contains(k) {
                let i = choose|i: int| 0 <= i < init.len() && init[i] == k;
                assert(keys[i] == k);
            }
            assert(keys[keys.len() - 1] == last);
        }
        if last.len() >= from + taken {
            assert(long.map_values(f) =~= before.map_values(f).push(f(last)));
            assert forall|k: Seq<u8>| #[trigger]
                long.contains(k) <==> before.contains(k) || k == last by {
                if long.contains(k) {
                    let i = choose|i: int| 0 <= i < long.len() && long[i] == k;
                    if i < before.len() {
                        assert(before[i] == k);
                    }
                }
                if before.contains(k) {
                    let i = choose|i: int| 0 <= i < before.len() && before[i] == k;
                    assert(long[i] == k);
                }
                assert(long[before.len() as int] == last);
            }
            assert forall|i: int, j: int| 0 <= i < j < long.len() implies crate::bytes::lex_lt(
                long[i],
                long[j],
            ) by {
                if j == before.len() {
                    assert(before.contains(before[i]));
                    let t = choose|t: int| 0 <= t < init.len() && init[t] == before[i];
                    assert(crate::bytes::lex_lt(keys[t], keys[keys.len() - 1]));
                }
            }
        }
    } else {
        assert(long.map_values(f) =~= Seq::empty());
    }
}

/// A range scan gives exactly the documents whose sorted fields, followed by
/// the key, lie in the range, each once with its whole key, in the order of
/// their entries. The lower bound may be any first part of the sorted fields,
/// or nothing; without an upper bound the range goes on to the end of the
/// access method.
#[verifier::spinoff_prover]
#[verifier::rlimit(40)]
pub proof fn law_range_gives_documents<I: KvIndex>(
    m: crate::engine::storage::Contents,
    header: Seq<u8>,
    front: Seq<u8>,
    docs: Map<Seq<u8>, <I::Document as Document>::Model>,
    begin: Seq<u8>,
    end: Option<Seq<u8>>,
)
    requires
        indexed::<I>(m, header, front, docs),
        crate::index::tail_width::<I>()
            == <<I::Document as Document>::Key as KeyEncode>::KEY_LEN,
        forall|key: Seq<u8>| #[trigger]
            docs.dom().contains(key) ==> begin.len() <= sorted_form::<I>(key, docs[key]).len(),
    ensures
        ({
            let n = crate::index::tail_width::<I>();
            let out = crate::model::document::long_tails(
                crate::engine::storage::range_keys(
                    m,
                    header + I::slot() + begin,
                    crate::model::document::range_end(header + I::slot(), end),
                ),
                (header + I::slot() + begin).len(),
                n,
            ).map_values(|s: Seq<u8>| crate::rows::row_at::<I::Document>(m, front, s, n, true));
            &&& forall|i: int|
                0 <= i < out.len() ==> is_row_of::<I::Document>(#[trigger] out[i], m, docs, true)
                    && crate::engine::storage::in_range(
                    sorted_form::<I>(out[i].0, docs[out[i].0]) + out[i].0,
                    begin,
                    end,
                )
            &&& forall|key: Seq<u8>|
                docs.dom().contains(key) && crate::engine::storage::in_range(
                    sorted_form::<I>(key, docs[key]) + key,
                    begin,
                    end,
                ) ==> out.contains(#[trigger] doc_row::<I::Document>(m, key, docs[key], true))
            &&& forall|i: int, j: int|
                0 <= i < j < out.len() ==> entry_before::<I>(
                    docs,
                    (#[trigger] out[i]).0,
                    (#[trigger] out[j]).0,
                )
        }),
{
    let n = crate::index::tail_width::<I>();
    let p = header + I::slot();
    let b = p + begin;
    let e = crate::model::document::range_end(p, end);
    let set = crate::engine::storage::range_set(m, b, e);
    let all = crate::engine::storage::range_keys(m, b, e);
    let ks = long_keys(all, b.len() + n);
    let tails = crate::model::document::long_tails(all, b.len(), n);
    let f = |s: Seq<u8>| crate::rows::row_at::<I::Document>(m, front, s, n, true);
    let out = tails.map_values(f);
    assert(set.subset_of(m.dom()));
    vstd::set_lib::lemma_set_subset_finite(m.dom(), set);
    crate::engine::storage::lemma_finite_listing(set);
    lemma_long_keys(all, b.len(), n);
    let of = |i: int|
        choose|x: Seq<u8>| #[trigger]
            docs.dom().contains(x) && ks[i] == p + (sorted_form::<I>(x, docs[x]) + x);
    assert forall|i: int| 0 <= i < ks.len() implies {
        let x = of(i);
        let sorted = sorted_form::<I>(x, docs[x]);
        &&& docs.dom().contains(x)
        &&& #[trigger] ks[i] == p + (sorted + x)
        &&& crate::engine::storage::in_range(sorted + x, begin, end)
        &&& ks[i].skip(b.len() as int) == (sorted + x).skip(begin.len() as int)
        &&& f(ks[i].skip(b.len() as int)) == doc_row::<I::Document>(m, x, docs[x], true)
    } by {
        let k = ks[i];
        assert(ks.contains(k));
        assert(all.contains(k) && k.len() >= b.len() + n);
        let t = choose|t: int| 0 <= t < all.len() && all[t] == k;
        assert(set.contains(all[t]));
        lemma_range_front(p, begin, end, k);
        let x = of(i);
        assert(docs.dom().contains(x) && k == p + (sorted_form::<I>(x, docs[x]) + x));
        let sorted = sorted_form::<I>(x, docs[x]);
        lemma_range_behind(p, begin, end, sorted + x);
        assert(k.skip(b.len() as int) =~= (sorted + x).skip(begin.len() as int));
        lemma_tail_row::<I>(m, header, front, docs, x, begin.len(), true);
    }
    assert(out.len() == ks.len());
    assert forall|i: int| 0 <= i < out.len() implies #[trigger] out[i] == f(
        ks[i].skip(b.len() as int),
    ) by {}
    assert forall|i: int| 0 <= i < out.len() implies is_row_of::<I::Document>(
        #[trigger] out[i],
        m,
        docs,
        true,
    ) && crate::engine::storage::in_range(
        sorted_form::<I>(out[i].0, docs[out[i].0]) + out[i].0,
        begin,
        end,
    ) by {
        let x = of(i);
        assert(ks[i] == p + (sorted_form::<I>(x, docs[x]) + x));
        assert(out[i] == doc_row::<I::Document>(m, x, docs[x], true));
    }
    assert forall|key: Seq<u8>|
        docs.dom().contains(key) && crate::engine::storage::in_range(
            sorted_form::<I>(key, docs[key]) + key,
            begin,
            end,
        ) implies out.contains(#[trigger] doc_row::<I::Document>(m, key, docs[key], true)) by {
        let sorted = sorted_form::<I>(key, docs[key]);
        lemma_range_behind(p, begin, end, sorted + key);
        assert(set.contains(p + (sorted + key)));
        assert(all.contains(p + (sorted + key)));
        assert((p + (sorted + key)).len() >= b.len() + n);
        assert(ks.contains(p + (sorted + key)));
        let i = choose|i: int| 0 <= i < ks.len() && ks[i] == p + (sorted + key);
        let x = of(i);
        assert(ks[i] == p + (sorted_form::<I>(x, docs[x]) + x));
        lemma_entry_tells_key(p, sorted_form::<I>(x, docs[x]), x, sorted, key);
        assert(out[i] == doc_row::<I::Document>(m, key, docs[key], true));
    }
    assert forall|i: int, j: int| 0 <= i < j < out.len() implies entry_before::<I>(
        docs,
        (#[trigger] out[i]).0,
        (#[trigger] out[j]).0,
    ) by {
        assert(crate::bytes::lex_lt(ks[i], ks[j]));
        let (x, y) = (of(i), of(j));
        assert(ks[i] == p + (sorted_form::<I>(x, docs[x]) + x));
        assert(ks[j] == p + (sorted_form::<I>(y, docs[y]) + y));
        crate::bytes::lemma_lex_shared_prefix(
            p,
            sorted_form::<I>(x, docs[x]) + x,
            sorted_form::<I>(y, docs[y]) + y,
        );
    }
}

/// A key in a range of an access method is one of its entries.
proof fn lemma_range_front(p: Seq<u8>, begin: Seq<u8>, end: Option<Seq<u8>>, k: Seq<u8>)
    requires
        crate::engine::storage::in_range(
            k,
            p + begin,
            crate::model::document::range_end(p, end),
        ),
        k.len() >= p.len(),
    ensures
        crate::bytes::starts_with(k, p),
{
    match end {
        Some(e) => lemma_between(p, begin, k, e),
        None => {
            crate::bytes::lemma_starts_with_concat(p, begin);
            crate::bytes::lemma_lex_prefix_first(p, p + begin);
            lemma_le_trans(p, p + begin, k);
            crate::engine::storage::law_prefix_is_range(p, k);
        },
    }
}

proof fn lemma_le_trans(a: Seq<u8>, b: Seq<u8>, c: Seq<u8>)
    requires
        crate::bytes::lex_le(a, b),
        crate::bytes::lex_le(b, c),
    ensures
        crate::bytes::lex_le(a, c),
{
    if a != b && b != c {
        crate::bytes::lemma_lex_transitive(a, b, c);
    }
}

/// An entry lies in a range of an access method if what stands behind its
/// front lies between the bounds.
proof fn lemma_range_behind(p: Seq<u8>, begin: Seq<u8>, end: Option<Seq<u8>>, x: Seq<u8>)
    ensures
        crate::engine::storage::in_range(
            p + x,
            p + begin,
            crate::model::document::range_end(p, end),
        ) <==> crate::engine::storage::in_range(x, begin, end),
{
    crate::bytes::lemma_lex_shared_prefix(p, begin, x);
    crate::bytes::lemma_starts_with_concat(p, begin);
    crate::bytes::lemma_starts_with_concat(p, x);
    match end {
        Some(e) => crate::bytes::lemma_lex_shared_prefix(p, x, e),
        None => crate::engine::storage::law_prefix_is_range(p, p + x),
    }
}

/// Where a document is stored as the entry that its access method builds of
/// it, and the method keeps whole keys, writing it makes that one entry: its
/// sorted fields and its key behind the front, its covered fields as the
/// value.
pub proof fn law_built_entry_is_the_one<I: KvIndex>(
    header: Seq<u8>,
    key: Seq<u8>,
    d: <I::Document as Document>::Model,
)
    requires
        key.len() == <<I::Document as Document>::Key as KeyEncode>::KEY_LEN,
        crate::index::tail_width::<I>() == <<I::Document as Document>::Key as KeyEncode>::KEY_LEN,
        <I::Document as Document>::entries(key, d, header) == seq![
            (
                crate::index::entry_at::<I>(header, sorted_form::<I>(key, d), key),
                crate::index::entry_body::<I>(key, d),
            ),
        ],
    ensures
        one_entry::<I>(header, key, d, 0),
{
    assert(key.take(key.len() as int) =~= key);
    assert(crate::index::entry_at::<I>(header, sorted_form::<I>(key, d), key) =~= header
        + I::slot() + (sorted_form::<I>(key, d) + key));
}

} // verus!
