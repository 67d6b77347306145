//! Subspaces: what an engine holds under one prefix, as a keyspace of its
//! own.

use vstd::prelude::*;

use crate::bytes::{concat, has_prefix, slice_from, to_vec};
use crate::engine::storage::{as_bound, prefix_end, VirtualStorage};

verus! {

/// What lies under a prefix: the keys that start with it, without it.
pub open spec fn tenant(
    m: crate::engine::storage::Contents,
    p: Seq<u8>,
) -> crate::engine::storage::Contents {
    Map::new(|k: Seq<u8>| m.dom().contains(p + k), |k: Seq<u8>| m[p + k])
}

/// What remains of the keys of `s` that start with `p`.
pub open spec fn stripped(s: Set<Seq<u8>>, p: Seq<u8>) -> Set<Seq<u8>> {
    Set::new(|k: Seq<u8>| s.contains(p + k))
}

/// What remains of the keys of a list that start with `p`, in order.
pub open spec fn strip_list(ks: Seq<Seq<u8>>, p: Seq<u8>) -> Seq<Seq<u8>>
    decreases ks.len(),
{
    if ks.len() == 0 {
        Seq::empty()
    } else {
        let before = strip_list(ks.drop_last(), p);
        if crate::bytes::starts_with(ks.last(), p) {
            before.push(ks.last().skip(p.len() as int))
        } else {
            before
        }
    }
}

/// Every stripped key comes from the list, and every key of the list with
/// the prefix is there.
pub proof fn lemma_strip_members(ks: Seq<Seq<u8>>, p: Seq<u8>)
    ensures
        forall|a: int|
            0 <= a < strip_list(ks, p).len() ==> ks.contains(p + #[trigger] strip_list(ks, p)[a]),
        forall|j: int|
            0 <= j < ks.len() && crate::bytes::starts_with(#[trigger] ks[j], p) ==> strip_list(
                ks,
                p,
            ).contains(ks[j].skip(p.len() as int)),
    decreases ks.len(),
{
    if ks.len() > 0 {
        let init = ks.drop_last();
        let before = strip_list(init, p);
        let now = strip_list(ks, p);
        lemma_strip_members(init, p);
        assert forall|a: int| 0 <= a < now.len() implies ks.contains(p + #[trigger] now[a]) by {
            if a < before.len() {
                assert(now[a] == before[a]);
                let j = choose|j: int| 0 <= j < init.len() && init[j] == p + before[a];
                assert(ks[j] == p + now[a]);
            } else {
                crate::bytes::lemma_starts_with_split(ks.last(), p);
                assert(ks[ks.len() - 1] == p + now[a]);
            }
        }
        assert forall|j: int|
            0 <= j < ks.len() && crate::bytes::starts_with(#[trigger] ks[j], p) implies now.contains(
            ks[j].skip(p.len() as int),
        ) by {
            let x = ks[j].skip(p.len() as int);
            if j < init.len() {
                assert(init[j] == ks[j]);
                let a = choose|a: int| 0 <= a < before.len() && before[a] == x;
                assert(now[a] == x);
            } else {
                assert(now[now.len() - 1] == x);
            }
        }
    }
}

/// Stripping keeps an ascending list ascending.
pub proof fn lemma_strip_sorted(ks: Seq<Seq<u8>>, p: Seq<u8>)
    requires
        forall|i: int, j: int| 0 <= i < j < ks.len() ==> crate::bytes::lex_lt(ks[i], ks[j]),
    ensures
        forall|a: int, b: int|
            0 <= a < b < strip_list(ks, p).len() ==> crate::bytes::lex_lt(
                strip_list(ks, p)[a],
                strip_list(ks, p)[b],
            ),
    decreases ks.len(),
{
    if ks.len() > 0 {
        let init = ks.drop_last();
        let before = strip_list(init, p);
        let now = strip_list(ks, p);
        lemma_strip_sorted(init, p);
        lemma_strip_members(init, p);
        assert forall|a: int, b: int| 0 <= a < b < now.len() implies crate::bytes::lex_lt(
            now[a],
            now[b],
        ) by {
            if b < before.len() {
                assert(now[a] == before[a] && now[b] == before[b]);
            } else {
                assert(now[a] == before[a]);
                let j = choose|j: int| 0 <= j < init.len() && init[j] == p + before[a];
                assert(crate::bytes::lex_lt(ks[j], ks[ks.len() - 1]));
                crate::bytes::lemma_starts_with_split(ks.last(), p);
                crate::bytes::lemma_lex_shared_prefix(p, now[a], now[b]);
            }
        }
    }
}

/// Stripping a listing lists the stripped set.
pub proof fn lemma_strip_listing(ks: Seq<Seq<u8>>, s: Set<Seq<u8>>, p: Seq<u8>)
    requires
        crate::engine::storage::is_listing(ks, s),
    ensures
        crate::engine::storage::is_listing(strip_list(ks, p), stripped(s, p)),
        strip_list(ks, p) == crate::engine::storage::ordered(stripped(s, p)),
{
    let out = strip_list(ks, p);
    let set = stripped(s, p);
    lemma_strip_members(ks, p);
    lemma_strip_sorted(ks, p);
    assert forall|a: int| 0 <= a < out.len() implies set.contains(#[trigger] out[a]) by {
        assert(ks.contains(p + out[a]));
    }
    assert forall|k: Seq<u8>| #[trigger] set.contains(k) implies out.contains(k) by {
        assert(s.contains(p + k));
        let j = choose|j: int| 0 <= j < ks.len() && ks[j] == p + k;
        crate::bytes::lemma_starts_with_concat(p, k);
        assert(out.contains(ks[j].skip(p.len() as int)));
    }
    crate::engine::storage::lemma_listing_is_ordered(out, set);
}

/// The stripped keys of the front of a list are the front of its stripped
/// keys.
pub proof fn lemma_strip_front(ks: Seq<Seq<u8>>, p: Seq<u8>, n: int)
    requires
        0 <= n <= ks.len(),
    ensures
        strip_list(ks.take(n), p).len() <= strip_list(ks, p).len(),
        strip_list(ks, p).take(strip_list(ks.take(n), p).len() as int) == strip_list(ks.take(n), p),
    decreases ks.len() - n,
{
    let front = strip_list(ks.take(n), p);
    if n == ks.len() {
        assert(ks.take(n) =~= ks);
        assert(front.take(front.len() as int) =~= front);
    } else {
        lemma_strip_front(ks, p, n + 1);
        let more = strip_list(ks.take(n + 1), p);
        assert(ks.take(n + 1).drop_last() =~= ks.take(n));
        assert(strip_list(ks, p).take(front.len() as int) =~= more.take(front.len() as int));
        assert(more.take(front.len() as int) =~= front);
    }
}

/// What remains of those of `keys` that start with `prefix`.
pub fn strip_keys(keys: &Vec<Vec<u8>>, prefix: &[u8]) -> (r: Vec<Vec<u8>>)
    ensures
        crate::engine::storage::views(r@) == strip_list(
            crate::engine::storage::views(keys@),
            prefix@,
        ),
{
    let mut out: Vec<Vec<u8>> = Vec::new();
    let ghost ks = crate::engine::storage::views(keys@);
    let mut i: usize = 0;
    assert(crate::engine::storage::views(out@) =~= strip_list(ks.take(0), prefix@));
    while i < keys.len()
        invariant
            i <= keys@.len(),
            ks == crate::engine::storage::views(keys@),
            crate::engine::storage::views(out@) == strip_list(ks.take(i as int), prefix@),
        decreases keys@.len() - i,
    {
        let ghost before = crate::engine::storage::views(out@);
        proof {
            assert(ks.take(i + 1).drop_last() =~= ks.take(i as int));
            assert(ks.take(i + 1).last() == keys@[i as int]@);
        }
        if has_prefix(keys[i].as_slice(), prefix) {
            out.push(to_vec(slice_from(keys[i].as_slice(), prefix.len())));
            assert(crate::engine::storage::views(out@) =~= before.push(
                keys@[i as int]@.skip(prefix@.len() as int),
            ));
        }
        i = i + 1;
    }
    assert(ks.take(i as int) =~= ks);
    out
}

/// The order of keys under one prefix is that of what follows it.
pub proof fn lemma_hosted_order(p: Seq<u8>, a: Seq<u8>, b: Seq<u8>)
    ensures
        crate::bytes::lex_lt(p + a, p + b) == crate::bytes::lex_lt(a, b),
        crate::bytes::lex_le(p + a, p + b) == crate::bytes::lex_le(a, b),
{
    crate::bytes::lemma_lex_shared_prefix(p, a, b);
    if p + a == p + b {
        crate::bytes::lemma_starts_with_concat(p, a);
        crate::bytes::lemma_starts_with_concat(p, b);
    }
}

/// A bounded range under the prefix is a range of what lies under it.
pub proof fn lemma_tenant_range(
    m: crate::engine::storage::Contents,
    p: Seq<u8>,
    b: Seq<u8>,
    e: Seq<u8>,
)
    ensures
        stripped(crate::engine::storage::range_set(m, p + b, Some(p + e)), p)
            == crate::engine::storage::range_set(tenant(m, p), b, Some(e)),
{
    let x = stripped(crate::engine::storage::range_set(m, p + b, Some(p + e)), p);
    let y = crate::engine::storage::range_set(tenant(m, p), b, Some(e));
    assert forall|k: Seq<u8>| x.contains(k) <==> y.contains(k) by {
        lemma_hosted_order(p, b, k);
        lemma_hosted_order(p, k, e);
    }
    assert(x =~= y);
}

/// A range up to the bound of the prefix is an unbounded range of what lies
/// under it.
pub proof fn lemma_tenant_unbounded(m: crate::engine::storage::Contents, p: Seq<u8>, b: Seq<u8>)
    ensures
        stripped(
            crate::engine::storage::range_set(
                m,
                p + b,
                crate::engine::storage::prefix_bound(p),
            ),
            p,
        ) == crate::engine::storage::range_set(tenant(m, p), b, None),
{
    let x = stripped(
        crate::engine::storage::range_set(m, p + b, crate::engine::storage::prefix_bound(p)),
        p,
    );
    let y = crate::engine::storage::range_set(tenant(m, p), b, None);
    assert forall|k: Seq<u8>| x.contains(k) <==> y.contains(k) by {
        lemma_hosted_order(p, b, k);
        crate::bytes::lemma_starts_with_concat(p, k);
        crate::engine::storage::lemma_prefix_in_range(p, p + k);
    }
    assert(x =~= y);
}

/// Where every key has the prefix, stripping drops it from each.
pub proof fn lemma_strip_all(ks: Seq<Seq<u8>>, p: Seq<u8>)
    requires
        forall|i: int| 0 <= i < ks.len() ==> crate::bytes::starts_with(#[trigger] ks[i], p),
    ensures
        strip_list(ks, p) == ks.map_values(|k: Seq<u8>| k.skip(p.len() as int)),
    decreases ks.len(),
{
    if ks.len() > 0 {
        assert forall|i: int| 0 <= i < ks.drop_last().len() implies crate::bytes::starts_with(
            #[trigger] ks.drop_last()[i],
            p,
        ) by {
            assert(ks.drop_last()[i] == ks[i]);
        }
        lemma_strip_all(ks.drop_last(), p);
        assert(crate::bytes::starts_with(ks[ks.len() - 1], p));
    }
    assert(strip_list(ks, p) =~= ks.map_values(|k: Seq<u8>| k.skip(p.len() as int)));
}

/// A prefix scan under the prefix is a prefix scan of what lies under it.
pub proof fn lemma_tenant_suffixes(m: crate::engine::storage::Contents, p: Seq<u8>, key: Seq<u8>)
    requires
        crate::engine::storage::is_listing(
            crate::engine::storage::prefix_keys(m, p + key),
            crate::engine::storage::prefix_set(m, p + key),
        ),
    ensures
        crate::engine::storage::prefix_suffixes(m, p + key)
            == crate::engine::storage::prefix_suffixes(tenant(m, p), key),
{
    let ks = crate::engine::storage::prefix_keys(m, p + key);
    let s = crate::engine::storage::prefix_set(m, p + key);
    let t = tenant(m, p);
    lemma_strip_listing(ks, s, p);
    let x = stripped(s, p);
    let y = crate::engine::storage::prefix_set(t, key);
    assert forall|k: Seq<u8>| x.contains(k) <==> y.contains(k) by {
        lemma_hosted_starts(p, k, key);
    }
    assert(x =~= y);
    assert forall|i: int| 0 <= i < ks.len() implies crate::bytes::starts_with(#[trigger] ks[i], p) by {
        assert(s.contains(ks[i]));
        crate::bytes::lemma_starts_with_split(ks[i], p + key);
        let rest = ks[i].skip((p + key).len() as int);
        assert(ks[i] =~= p + (key + rest));
        crate::bytes::lemma_starts_with_concat(p, key + rest);
    }
    lemma_strip_all(ks, p);
    let a = crate::engine::storage::prefix_suffixes(m, p + key);
    let b = crate::engine::storage::prefix_suffixes(t, key);
    assert forall|i: int| 0 <= i < ks.len() implies #[trigger] a[i] == b[i] by {
        assert(s.contains(ks[i]));
        assert(ks[i].skip(p.len() as int).skip(key.len() as int) =~= ks[i].skip(
            (p + key).len() as int,
        ));
    }
    assert(a =~= b);
}

/// Whether a key under the prefix goes on with `key` is decided behind it.
pub proof fn lemma_hosted_starts(p: Seq<u8>, k: Seq<u8>, key: Seq<u8>)
    ensures
        crate::bytes::starts_with(p + k, p + key) <==> crate::bytes::starts_with(k, key),
{
    if crate::bytes::starts_with(k, key) {
        assert((p + k).subrange(0, (p + key).len() as int) =~= p + k.subrange(
            0,
            key.len() as int,
        ));
    }
    if crate::bytes::starts_with(p + k, p + key) {
        let h = (p + k).subrange(0, (p + key).len() as int);
        assert(k.subrange(0, key.len() as int) =~= h.skip(p.len() as int));
        assert(h.skip(p.len() as int) =~= key);
    }
}

/// The keys under a prefix that lie in `[begin, end)`, without the prefix,
/// ascending.
pub fn sub_range<S: VirtualStorage>(
    store: &S,
    prefix: &[u8],
    begin: &[u8],
    end: Option<&[u8]>,
) -> (r: Vec<Vec<u8>>)
    ensures
        crate::engine::storage::views(r@) == crate::engine::storage::range_keys(
            tenant(store.contents(), prefix@),
            begin@,
            crate::engine::storage::bound_view(end),
        ),
        crate::engine::storage::is_listing(
            crate::engine::storage::views(r@),
            crate::engine::storage::range_set(
                tenant(store.contents(), prefix@),
                begin@,
                crate::engine::storage::bound_view(end),
            ),
        ),
{
    let ghost m = store.contents();
    let from = concat(prefix, begin);
    let to: Option<Vec<u8>> = match end {
        Some(e) => Some(concat(prefix, e)),
        None => prefix_end(prefix),
    };
    let keys = store.scan_range(from.as_slice(), as_bound(&to));
    proof {
        let bound = crate::engine::storage::opt_view(to);
        lemma_strip_listing(
            crate::engine::storage::views(keys@),
            crate::engine::storage::range_set(m, from@, bound),
            prefix@,
        );
        match end {
            Some(e) => lemma_tenant_range(m, prefix@, begin@, e@),
            None => lemma_tenant_unbounded(m, prefix@, begin@),
        }
    }
    strip_keys(&keys, prefix)
}

} // verus!
