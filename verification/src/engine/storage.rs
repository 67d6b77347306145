//! The storage contract: an ordered map from byte strings to byte strings
//! with point reads, one ordered range read and atomic batches.

use std::collections::VecDeque;

use vstd::prelude::*;

use crate::bytes::{slice_from, to_vec};

verus! {

/// What an engine holds: byte-string keys and their values.
pub type Contents = Map<Seq<u8>, Seq<u8>>;

/// The byte strings that a list of buffers holds.
pub open spec fn views(v: Seq<Vec<u8>>) -> Seq<Seq<u8>> {
    v.map_values(|b: Vec<u8>| b@)
}

/// The byte strings that a list of buffer pairs holds.
pub open spec fn pair_views(v: Seq<(Vec<u8>, Vec<u8>)>) -> Seq<(Seq<u8>, Seq<u8>)> {
    v.map_values(|p: (Vec<u8>, Vec<u8>)| (p.0@, p.1@))
}

/// The byte string behind an optional bound.
pub open spec fn bound_view(end: Option<&[u8]>) -> Option<Seq<u8>> {
    match end {
        Some(e) => Some(e@),
        None => None,
    }
}

/// The byte string behind an optional owned buffer.
pub open spec fn opt_view(end: Option<Vec<u8>>) -> Option<Seq<u8>> {
    match end {
        Some(e) => Some(e@),
        None => None,
    }
}

/// `k` lies in `[begin, end)`; without an end the range is unbounded.
pub open spec fn in_range(k: Seq<u8>, begin: Seq<u8>, end: Option<Seq<u8>>) -> bool {
    crate::bytes::lex_le(begin, k) && (end is Some ==> crate::bytes::lex_lt(k, end->0))
}

/// `ks` lists every key of `s` once, in ascending byte order.
pub open spec fn is_listing(ks: Seq<Seq<u8>>, s: Set<Seq<u8>>) -> bool {
    &&& forall|i: int, j: int| 0 <= i < j < ks.len() ==> crate::bytes::lex_lt(ks[i], ks[j])
    &&& forall|i: int| 0 <= i < ks.len() ==> s.contains(#[trigger] ks[i])
    &&& forall|k: Seq<u8>| #[trigger] s.contains(k) ==> ks.contains(k)
}

/// The keys of `s` in ascending byte order.
pub open spec fn ordered(s: Set<Seq<u8>>) -> Seq<Seq<u8>> {
    choose|ks: Seq<Seq<u8>>| is_listing(ks, s)
}

/// The stored keys that lie in `[begin, end)`.
pub open spec fn range_set(m: Contents, begin: Seq<u8>, end: Option<Seq<u8>>) -> Set<Seq<u8>> {
    Set::new(|k: Seq<u8>| m.dom().contains(k) && in_range(k, begin, end))
}

/// The stored keys that start with `prefix`.
pub open spec fn prefix_set(m: Contents, prefix: Seq<u8>) -> Set<Seq<u8>> {
    Set::new(|k: Seq<u8>| m.dom().contains(k) && crate::bytes::starts_with(k, prefix))
}

/// The stored keys in `[begin, end)`, ascending.
pub open spec fn range_keys(m: Contents, begin: Seq<u8>, end: Option<Seq<u8>>) -> Seq<Seq<u8>> {
    ordered(range_set(m, begin, end))
}

/// The stored pairs in `[begin, end)`, ascending by key.
pub open spec fn range_pairs(m: Contents, begin: Seq<u8>, end: Option<Seq<u8>>) -> Seq<
    (Seq<u8>, Seq<u8>),
> {
    range_keys(m, begin, end).map_values(|k: Seq<u8>| (k, m[k]))
}

/// The stored keys that start with `prefix`, ascending.
pub open spec fn prefix_keys(m: Contents, prefix: Seq<u8>) -> Seq<Seq<u8>> {
    ordered(prefix_set(m, prefix))
}

/// What follows `prefix` in each stored key that starts with it, ascending.
pub open spec fn prefix_suffixes(m: Contents, prefix: Seq<u8>) -> Seq<Seq<u8>> {
    prefix_keys(m, prefix).map_values(|k: Seq<u8>| k.skip(prefix.len() as int))
}

/// What follows `prefix` in each stored key that starts with it, with the
/// value, ascending.
pub open spec fn prefix_suffix_pairs(m: Contents, prefix: Seq<u8>) -> Seq<(Seq<u8>, Seq<u8>)> {
    prefix_keys(m, prefix).map_values(|k: Seq<u8>| (k.skip(prefix.len() as int), m[k]))
}

/// The stored pairs whose key starts with `prefix`, ascending by key.
pub open spec fn prefix_pairs(m: Contents, prefix: Seq<u8>) -> Seq<(Seq<u8>, Seq<u8>)> {
    prefix_keys(m, prefix).map_values(|k: Seq<u8>| (k, m[k]))
}

/// The next string of the length of `p`, which bounds everything that starts
/// with `p` from above. `None` when `p` is the last string of its length,
/// every byte `0xFF`.
pub open spec fn prefix_bound(p: Seq<u8>) -> Option<Seq<u8>> {
    if crate::bytes::be_value(p) + 1 < crate::bytes::pow256(p.len()) {
        Some(crate::bytes::be_bytes(crate::bytes::be_value(p) + 1, p.len()))
    } else {
        None
    }
}

/// A strictly ascending listing of a set is unique.
pub proof fn lemma_listing_unique(a: Seq<Seq<u8>>, b: Seq<Seq<u8>>, s: Set<Seq<u8>>)
    requires
        is_listing(a, s),
        is_listing(b, s),
    ensures
        a == b,
    decreases a.len(),
{
    if a.len() == 0 {
        if b.len() > 0 {
            assert(s.contains(b[0]));
            assert(a.contains(b[0]));
        }
        assert(a =~= b);
    } else {
        assert(s.contains(a[0]));
        assert(b.contains(a[0]));
        let j = choose|j: int| 0 <= j < b.len() && b[j] == a[0];
        assert(s.contains(b[0]));
        assert(a.contains(b[0]));
        let i = choose|i: int| 0 <= i < a.len() && a[i] == b[0];
        if i > 0 && j > 0 {
            crate::bytes::lemma_lex_asymmetric(a[0], a[i]);
            assert(crate::bytes::lex_lt(b[0], b[j]));
        }
        assert(a[0] == b[0]);
        let s2 = s.remove(a[0]);
        let a2 = a.drop_first();
        let b2 = b.drop_first();
        assert forall|t: int| 0 <= t < a2.len() implies s2.contains(#[trigger] a2[t]) by {
            assert(a2[t] == a[t + 1]);
            crate::bytes::lemma_lex_asymmetric(a[0], a[t + 1]);
        }
        assert forall|t: int| 0 <= t < b2.len() implies s2.contains(#[trigger] b2[t]) by {
            assert(b2[t] == b[t + 1]);
            crate::bytes::lemma_lex_asymmetric(b[0], b[t + 1]);
        }
        assert forall|k: Seq<u8>| #[trigger] s2.contains(k) implies a2.contains(k) by {
            assert(s.contains(k));
            let t = choose|t: int| 0 <= t < a.len() && a[t] == k;
            assert(a2[t - 1] == k);
        }
        assert forall|k: Seq<u8>| #[trigger] s2.contains(k) implies b2.contains(k) by {
            assert(s.contains(k));
            let t = choose|t: int| 0 <= t < b.len() && b[t] == k;
            assert(b2[t - 1] == k);
        }
        lemma_listing_unique(a2, b2, s2);
        assert(a =~= seq![a[0]] + a2);
        assert(b =~= seq![b[0]] + b2);
    }
}

/// A listing of `s` is `ordered(s)`.
pub proof fn lemma_listing_is_ordered(ks: Seq<Seq<u8>>, s: Set<Seq<u8>>)
    requires
        is_listing(ks, s),
    ensures
        ks == ordered(s),
        is_listing(ordered(s), s),
{
    lemma_listing_unique(ks, ordered(s), s);
}

/// Where `x` stands in an ascending list: behind the keys not above it.
spec fn place_of(ks: Seq<Seq<u8>>, x: Seq<u8>) -> int
    decreases ks.len(),
{
    if ks.len() == 0 || !crate::bytes::lex_lt(x, ks.last()) {
        ks.len() as int
    } else {
        place_of(ks.drop_last(), x)
    }
}

proof fn lemma_place_of(ks: Seq<Seq<u8>>, x: Seq<u8>)
    requires
        forall|i: int, j: int| 0 <= i < j < ks.len() ==> crate::bytes::lex_lt(ks[i], ks[j]),
        !ks.contains(x),
    ensures
        0 <= place_of(ks, x) <= ks.len(),
        forall|i: int| 0 <= i < place_of(ks, x) ==> crate::bytes::lex_lt(#[trigger] ks[i], x),
        forall|i: int|
            place_of(ks, x) <= i < ks.len() ==> crate::bytes::lex_lt(x, #[trigger] ks[i]),
    decreases ks.len(),
{
    if ks.len() > 0 {
        let n = ks.len() - 1;
        assert(ks[n] == ks.last());
        if !crate::bytes::lex_lt(x, ks.last()) {
            assert(ks.contains(ks[n]));
            crate::bytes::lemma_lex_total(x, ks.last());
            assert forall|i: int| 0 <= i < ks.len() implies crate::bytes::lex_lt(
                #[trigger] ks[i],
                x,
            ) by {
                if i < n {
                    crate::bytes::lemma_lex_transitive(ks[i], ks[n], x);
                }
            }
        } else {
            let init = ks.drop_last();
            assert(!init.contains(x)) by {
                if init.contains(x) {
                    let i = choose|i: int| 0 <= i < init.len() && init[i] == x;
                    assert(ks[i] == x);
                }
            }
            lemma_place_of(init, x);
            assert forall|i: int| 0 <= i < place_of(ks, x) implies crate::bytes::lex_lt(
                #[trigger] ks[i],
                x,
            ) by {
                assert(init[i] == ks[i]);
            }
            assert forall|i: int| place_of(ks, x) <= i < ks.len() implies crate::bytes::lex_lt(
                x,
                #[trigger] ks[i],
            ) by {
                if i < n {
                    assert(init[i] == ks[i]);
                }
            }
        }
    }
}

/// A finite set of keys has a listing.
pub proof fn lemma_finite_listing(s: Set<Seq<u8>>)
    requires
        s.finite(),
    ensures
        is_listing(ordered(s), s),
    decreases s.len(),
{
    if s.is_empty() {
        assert(is_listing(Seq::<Seq<u8>>::empty(), s));
    } else {
        let x = s.choose();
        let rest = s.remove(x);
        lemma_finite_listing(rest);
        let ks = ordered(rest);
        assert(!ks.contains(x)) by {
            if ks.contains(x) {
                let i = choose|i: int| 0 <= i < ks.len() && ks[i] == x;
                assert(rest.contains(ks[i]));
            }
        }
        lemma_place_of(ks, x);
        let at = place_of(ks, x);
        let out = ks.insert(at, x);
        assert forall|i: int, j: int| 0 <= i < j < out.len() implies crate::bytes::lex_lt(
            out[i],
            out[j],
        ) by {
            let a = if i < at {
                i
            } else {
                i - 1
            };
            let b = if j < at {
                j
            } else {
                j - 1
            };
            if i != at {
                assert(out[i] == ks[a]);
            }
            if j != at {
                assert(out[j] == ks[b]);
            }
        }
        assert forall|i: int| 0 <= i < out.len() implies s.contains(#[trigger] out[i]) by {
            if i < at {
                assert(out[i] == ks[i]);
            } else if i > at {
                assert(out[i] == ks[i - 1]);
            }
        }
        assert forall|k: Seq<u8>| #[trigger] s.contains(k) implies out.contains(k) by {
            if k == x {
                assert(out[at] == x);
            } else {
                assert(rest.contains(k));
                let i = choose|i: int| 0 <= i < ks.len() && ks[i] == k;
                assert(out[if i < at {
                    i
                } else {
                    i + 1
                }] == k);
            }
        }
        assert(is_listing(out, s));
    }
}

/// Behind its first `n` keys, a listing lists the keys above the last of
/// them.
pub proof fn lemma_listing_skip(ks: Seq<Seq<u8>>, s: Set<Seq<u8>>, n: int)
    requires
        is_listing(ks, s),
        0 < n <= ks.len(),
    ensures
        is_listing(
            ks.skip(n),
            Set::new(|k: Seq<u8>| s.contains(k) && crate::bytes::lex_lt(ks[n - 1], k)),
        ),
{
    let rest = ks.skip(n);
    let last = ks[n - 1];
    let above = Set::new(|k: Seq<u8>| s.contains(k) && crate::bytes::lex_lt(last, k));
    assert forall|i: int| 0 <= i < rest.len() implies above.contains(#[trigger] rest[i]) by {
        assert(rest[i] == ks[n + i]);
    }
    assert forall|k: Seq<u8>| #[trigger] above.contains(k) implies rest.contains(k) by {
        assert(s.contains(k));
        let i = choose|i: int| 0 <= i < ks.len() && ks[i] == k;
        if i < n - 1 {
            crate::bytes::lemma_lex_asymmetric(ks[i], ks[n - 1]);
        } else if i == n - 1 {
            crate::bytes::lemma_lex_irreflexive(last);
        } else {
            assert(rest[i - n] == k);
        }
    }
}

/// Strings of one length sort as the numbers they write.
pub proof fn lemma_lex_is_value_order(a: Seq<u8>, b: Seq<u8>)
    requires
        a.len() == b.len(),
    ensures
        crate::bytes::lex_lt(a, b) <==> crate::bytes::be_value(a) < crate::bytes::be_value(b),
        a == b <==> crate::bytes::be_value(a) == crate::bytes::be_value(b),
{
    let va = crate::bytes::be_value(a);
    let vb = crate::bytes::be_value(b);
    crate::bytes::lemma_be_value_round_trip(a);
    crate::bytes::lemma_be_value_round_trip(b);
    if va < vb {
        crate::bytes::lemma_be_order(va, vb, a.len());
    } else if vb < va {
        crate::bytes::lemma_be_order(vb, va, a.len());
        crate::bytes::lemma_lex_asymmetric(b, a);
    } else {
        crate::bytes::lemma_lex_irreflexive(a);
    }
}

/// Among the keys no shorter than a prefix, those that start with it are
/// exactly those from the prefix up to its bound.
pub proof fn law_prefix_is_range(p: Seq<u8>, k: Seq<u8>)
    requires
        k.len() >= p.len(),
    ensures
        crate::bytes::starts_with(k, p) <==> in_range(k, p, prefix_bound(p)),
{
    let h = k.subrange(0, p.len() as int);
    let t = k.skip(p.len() as int);
    assert(k =~= h + t);
    lemma_lex_is_value_order(p, h);
    lemma_head_decides(p, h, t);
    match prefix_bound(p) {
        Some(e) => {
            crate::bytes::lemma_be_bytes_len(crate::bytes::be_value(p) + 1, p.len());
            crate::bytes::lemma_be_round_trip(crate::bytes::be_value(p) + 1, p.len());
            lemma_lex_is_value_order(h, e);
            lemma_head_decides(e, h, t);
        },
        None => {
            crate::bytes::lemma_be_value_round_trip(h);
        },
    }
}

/// Against a string `e` of the length of `h`, what follows `h` does not
/// matter.
proof fn lemma_head_decides(e: Seq<u8>, h: Seq<u8>, t: Seq<u8>)
    requires
        e.len() == h.len(),
    ensures
        crate::bytes::lex_lt(h + t, e) <==> crate::bytes::lex_lt(h, e),
        crate::bytes::lex_le(e, h + t) <==> crate::bytes::lex_le(e, h),
{
    crate::bytes::lemma_lex_total(h, e);
    if crate::bytes::lex_lt(h, e) {
        crate::bytes::lemma_lex_extend(h, e, t, Seq::empty());
        assert(e + Seq::<u8>::empty() =~= e);
        crate::bytes::lemma_lex_asymmetric(h + t, e);
        crate::bytes::lemma_lex_asymmetric(h, e);
    } else if h == e {
        crate::bytes::lemma_starts_with_concat(h, t);
        crate::bytes::lemma_lex_prefix_first(h, h + t);
        crate::bytes::lemma_lex_irreflexive(h);
        if crate::bytes::lex_lt(h + t, e) {
            crate::bytes::lemma_lex_le_lt(h, h + t, h);
        }
    } else {
        crate::bytes::lemma_lex_extend(e, h, Seq::empty(), t);
        assert(e + Seq::<u8>::empty() =~= e);
        crate::bytes::lemma_lex_asymmetric(e, h + t);
        crate::bytes::lemma_lex_asymmetric(e, h);
    }
}

/// Every key that starts with a prefix lies in the range up to its bound.
pub proof fn lemma_prefix_in_range(p: Seq<u8>, k: Seq<u8>)
    requires
        crate::bytes::starts_with(k, p),
    ensures
        in_range(k, p, prefix_bound(p)),
{
    law_prefix_is_range(p, k);
}

/// The exclusive upper bound of a prefix as a full key: the last byte
/// incremented with carry. `None` when the prefix is all `0xFF`, and the
/// range unbounded.
pub fn prefix_end(prefix: &[u8]) -> (r: Option<Vec<u8>>)
    ensures
        opt_view(r) == prefix_bound(prefix@),
    decreases prefix@.len(),
{
    let n: usize = prefix.len();
    proof {
        crate::bytes::lemma_be_value_round_trip(prefix@);
    }
    if n == 0 {
        return None;
    }
    let head = crate::bytes::slice_to(prefix, n - 1);
    let last: u8 = prefix[n - 1];
    proof {
        assert(head@ =~= prefix@.drop_last());
        crate::bytes::lemma_be_value_round_trip(head@);
    }
    if last < 0xFF {
        let mut end: Vec<u8> = to_vec(head);
        end.push(last + 1);
        proof {
            assert((crate::bytes::be_value(prefix@) + 1) / 256 == crate::bytes::be_value(head@));
            assert(end@ =~= crate::bytes::be_bytes(
                crate::bytes::be_value(prefix@) + 1,
                prefix@.len(),
            ));
        }
        Some(end)
    } else {
        match prefix_end(head) {
            Some(mut end) => {
                end.push(0);
                proof {
                    assert((crate::bytes::be_value(prefix@) + 1) / 256 == crate::bytes::be_value(
                        head@,
                    ) + 1);
                    assert(end@ =~= crate::bytes::be_bytes(
                        crate::bytes::be_value(prefix@) + 1,
                        prefix@.len(),
                    ));
                }
                Some(end)
            },
            None => None,
        }
    }
}

/// The bytes behind an optional owned buffer, borrowed.
pub fn as_bound(end: &Option<Vec<u8>>) -> (r: Option<&[u8]>)
    ensures
        bound_view(r) == opt_view(*end),
{
    match end {
        Some(e) => Some(e.as_slice()),
        None => None,
    }
}

/// One write of a batch: a key with its new value, or `None` to delete it.
pub open spec fn apply_op(m: Contents, op: (Seq<u8>, Option<Seq<u8>>)) -> Contents {
    match op.1 {
        Some(v) => m.insert(op.0, v),
        None => m.remove(op.0),
    }
}

/// The contents after the writes of `ops`, applied in order.
pub open spec fn apply_ops(m: Contents, ops: Seq<(Seq<u8>, Option<Seq<u8>>)>) -> Contents
    decreases ops.len(),
{
    if ops.len() == 0 {
        m
    } else {
        apply_op(apply_ops(m, ops.drop_last()), ops.last())
    }
}

/// Writing one list after another is writing their concatenation.
pub proof fn lemma_apply_ops_concat(
    m: Contents,
    a: Seq<(Seq<u8>, Option<Seq<u8>>)>,
    b: Seq<(Seq<u8>, Option<Seq<u8>>)>,
)
    ensures
        apply_ops(m, a + b) == apply_ops(apply_ops(m, a), b),
    decreases b.len(),
{
    if b.len() == 0 {
        assert(a + b =~= a);
    } else {
        lemma_apply_ops_concat(m, a, b.drop_last());
        assert((a + b).drop_last() =~= a + b.drop_last());
    }
}

/// Two engines hold the same under `k`.
pub open spec fn same_at(a: Contents, b: Contents, k: Seq<u8>) -> bool {
    a.dom().contains(k) == b.dom().contains(k) && (a.dom().contains(k) ==> a[k] == b[k])
}

/// Writes under other keys leave a key as it was.
pub proof fn lemma_ops_untouched(m: Contents, ops: Seq<(Seq<u8>, Option<Seq<u8>>)>, k: Seq<u8>)
    requires
        forall|i: int| 0 <= i < ops.len() ==> (#[trigger] ops[i]).0 != k,
    ensures
        same_at(apply_ops(m, ops), m, k),
    decreases ops.len(),
{
    if ops.len() > 0 {
        let init = ops.drop_last();
        assert forall|i: int| 0 <= i < init.len() implies (#[trigger] init[i]).0 != k by {
            assert(init[i] == ops[i]);
        }
        lemma_ops_untouched(m, init, k);
        assert(ops[ops.len() - 1].0 != k);
    }
}

/// Where nothing is deleted, the keys are the old ones and the written ones.
pub proof fn lemma_ops_puts(m: Contents, ops: Seq<(Seq<u8>, Option<Seq<u8>>)>, k: Seq<u8>)
    requires
        forall|i: int| 0 <= i < ops.len() ==> (#[trigger] ops[i]).1 is Some,
    ensures
        apply_ops(m, ops).dom().contains(k) <==> m.dom().contains(k) || exists|i: int|
            0 <= i < ops.len() && (#[trigger] ops[i]).0 == k,
    decreases ops.len(),
{
    if ops.len() > 0 {
        let init = ops.drop_last();
        assert forall|i: int| 0 <= i < init.len() implies (#[trigger] init[i]).1 is Some by {
            assert(init[i] == ops[i]);
        }
        lemma_ops_puts(m, init, k);
        let last = ops.len() - 1;
        assert(ops[last].1 is Some);
        if exists|i: int| 0 <= i < init.len() && (#[trigger] init[i]).0 == k {
            let i = choose|i: int| 0 <= i < init.len() && (#[trigger] init[i]).0 == k;
            assert(ops[i].0 == k);
        }
        if exists|i: int| 0 <= i < ops.len() && (#[trigger] ops[i]).0 == k {
            let i = choose|i: int| 0 <= i < ops.len() && (#[trigger] ops[i]).0 == k;
            if i < last {
                assert(init[i].0 == k);
            }
        }
    }
}

/// The last write under a key decides what it holds.
pub proof fn lemma_ops_last(m: Contents, ops: Seq<(Seq<u8>, Option<Seq<u8>>)>, k: Seq<u8>, i: int)
    requires
        0 <= i < ops.len(),
        ops[i].0 == k,
        forall|j: int| i < j < ops.len() ==> (#[trigger] ops[j]).0 != k,
    ensures
        apply_ops(m, ops).dom().contains(k) <==> ops[i].1 is Some,
        ops[i].1 is Some ==> apply_ops(m, ops)[k] == ops[i].1->0,
{
    let front = ops.take(i + 1);
    let rest = ops.skip(i + 1);
    assert(ops =~= front + rest);
    lemma_apply_ops_concat(m, front, rest);
    assert(front.last() == ops[i]);
    assert forall|j: int| 0 <= j < rest.len() implies (#[trigger] rest[j]).0 != k by {
        assert(rest[j] == ops[i + 1 + j]);
    }
    lemma_ops_untouched(apply_ops(m, front), rest, k);
}

/// The batch carrier: an ordered list of writes that one `commit_batch`
/// consumes.
#[derive(Default)]
pub struct MemBatch {
    pub ops: Vec<(Vec<u8>, Option<Vec<u8>>)>,
}

impl View for MemBatch {
    type V = Seq<(Seq<u8>, Option<Seq<u8>>)>;

    /// The writes, in order.
    open spec fn view(&self) -> Self::V {
        self.ops@.map_values(|op: (Vec<u8>, Option<Vec<u8>>)| (op.0@, opt_view(op.1)))
    }
}

impl MemBatch {
    /// An empty batch.
    pub fn new() -> (r: Self)
        ensures
            r@ == Seq::<(Seq<u8>, Option<Seq<u8>>)>::empty(),
    {
        let r = MemBatch { ops: Vec::new() };
        assert(r@ =~= Seq::empty());
        r
    }

    /// Adds the write of `value` under `key`.
    pub fn put(&mut self, key: Vec<u8>, value: Vec<u8>)
        ensures
            final(self)@ == old(self)@.push((key@, Some(value@))),
    {
        self.ops.push((key, Some(value)));
        assert(self@ =~= old(self)@.push((key@, Some(value@))));
    }

    /// Adds the deletion of `key`.
    pub fn del(&mut self, key: &[u8])
        ensures
            final(self)@ == old(self)@.push((key@, None)),
    {
        self.ops.push((to_vec(key), None));
        assert(self@ =~= old(self)@.push((key@, None::<Seq<u8>>)));
    }
}

/// The pairs of a range read, handed out from either end.
pub struct ScanIter {
    items: VecDeque<(Vec<u8>, Vec<u8>)>,
}

impl View for ScanIter {
    type V = Seq<(Seq<u8>, Seq<u8>)>;

    /// The pairs not yet handed out, in order.
    closed spec fn view(&self) -> Self::V {
        pair_views(self.items@)
    }
}

impl ScanIter {
    /// An iterator over no pairs.
    pub fn empty() -> (r: Self)
        ensures
            r@ == Seq::<(Seq<u8>, Seq<u8>)>::empty(),
    {
        let r = ScanIter { items: VecDeque::new() };
        assert(r@ =~= Seq::empty());
        r
    }

    /// Adds a pair behind those not yet handed out.
    pub fn push(&mut self, key: Vec<u8>, value: Vec<u8>)
        ensures
            final(self)@ == old(self)@.push((key@, value@)),
    {
        self.items.push_back((key, value));
        assert(self@ =~= old(self)@.push((key@, value@)));
    }

    /// The next pair from the front.
    pub fn next(&mut self) -> (r: Option<(Vec<u8>, Vec<u8>)>)
        ensures
            match r {
                Some((k, v)) => old(self)@.len() > 0 && (k@, v@) == old(self)@[0] && final(self)@
                    == old(self)@.drop_first(),
                None => old(self)@.len() == 0 && final(self)@ == old(self)@,
            },
    {
        let r = self.items.pop_front();
        proof {
            if r is Some {
                assert(self@ =~= old(self)@.drop_first());
            } else {
                assert(self@ =~= old(self)@);
            }
        }
        r
    }

    /// The next pair from the back.
    pub fn next_back(&mut self) -> (r: Option<(Vec<u8>, Vec<u8>)>)
        ensures
            match r {
                Some((k, v)) => old(self)@.len() > 0 && (k@, v@) == old(self)@.last() && final(self)@
                    == old(self)@.drop_last(),
                None => old(self)@.len() == 0 && final(self)@ == old(self)@,
            },
    {
        let r = self.items.pop_back();
        proof {
            if r is Some {
                assert(self@ =~= old(self)@.drop_last());
            } else {
                assert(self@ =~= old(self)@);
            }
        }
        r
    }
}

/// The engine contract.
pub trait VirtualStorage: Sized {
    /// The stored pairs.
    spec fn contents(&self) -> Contents;

    /// Stores `value` under `key`, replacing what was there.
    fn put(&mut self, key: Vec<u8>, value: Vec<u8>)
        ensures
            final(self).contents() == old(self).contents().insert(key@, value@),
    ;

    /// The value stored under `key`.
    fn get(&self, key: &[u8]) -> (r: Option<Vec<u8>>)
        ensures
            opt_view(r) == (if self.contents().dom().contains(key@) {
                Some(self.contents()[key@])
            } else {
                None
            }),
    ;

    /// Removes `key`.
    fn del(&mut self, key: &[u8])
        ensures
            final(self).contents() == old(self).contents().remove(key@),
    ;

    /// The stored keys in `[begin, end)` in byte order; without an end the
    /// range is unbounded. The one ordered-read primitive.
    fn scan_range(&self, begin: &[u8], end: Option<&[u8]>) -> (r: Vec<Vec<u8>>)
        ensures
            is_listing(views(r@), range_set(self.contents(), begin@, bound_view(end))),
    ;

    /// What follows `prefix` in each stored key that starts with it, in byte
    /// order.
    fn scan_suffix(&self, prefix: &[u8]) -> (r: Vec<Vec<u8>>)
        ensures
            views(r@) == prefix_suffixes(self.contents(), prefix@),
            is_listing(prefix_keys(self.contents(), prefix@), prefix_set(self.contents(), prefix@)),
    {
        let end = prefix_end(prefix);
        let keys = self.scan_range(prefix, as_bound(&end));
        strip_prefix(keys, prefix, Ghost(self.contents()))
    }

    /// The stored pairs in `[begin, end)` in byte order, pulled on demand.
    fn scan_range_iter(&self, begin: &[u8], end: Option<&[u8]>) -> (r: ScanIter)
        ensures
            r@ == range_pairs(self.contents(), begin@, bound_view(end)),
            is_listing(
                range_keys(self.contents(), begin@, bound_view(end)),
                range_set(self.contents(), begin@, bound_view(end)),
            ),
    {
        let keys = self.scan_range(begin, end);
        let mut out = ScanIter::empty();
        let ghost set = range_set(self.contents(), begin@, bound_view(end));
        let ghost m = self.contents();
        proof {
            lemma_listing_is_ordered(views(keys@), set);
        }
        let mut i: usize = 0;
        while i < keys.len()
            invariant
                m == self.contents(),
                is_listing(views(keys@), set),
                forall|k: Seq<u8>| set.contains(k) ==> m.dom().contains(k),
                i <= keys@.len(),
                out@ == views(keys@).take(i as int).map_values(|k: Seq<u8>| (k, m[k])),
            decreases keys@.len() - i,
        {
            proof {
                assert(views(keys@)[i as int] == keys@[i as int]@);
                assert(set.contains(views(keys@)[i as int]));
            }
            match self.get(keys[i].as_slice()) {
                Some(v) => {
                    out.push(to_vec(keys[i].as_slice()), v);
                },
                None => {},
            }
            i = i + 1;
            assert(out@ =~= views(keys@).take(i as int).map_values(|k: Seq<u8>| (k, m[k])));
        }
        assert(views(keys@).take(keys@.len() as int) =~= views(keys@));
        out
    }

    /// Whether this engine never refuses a batch.
    spec fn never_refuses() -> bool;

    /// Applies the writes of `batch` in order as one unit: all of them, or
    /// none and an error.
    fn commit_batch(&mut self, batch: MemBatch) -> (r: Result<(), String>)
        ensures
            r is Ok ==> final(self).contents() == apply_ops(old(self).contents(), batch@),
            r is Err ==> final(self).contents() == old(self).contents(),
            Self::never_refuses() ==> r is Ok,
    {
        let mut i: usize = 0;
        let ghost m = self.contents();
        assert(batch@.take(0) =~= Seq::<(Seq<u8>, Option<Seq<u8>>)>::empty());
        while i < batch.ops.len()
            invariant
                i <= batch.ops@.len(),
                self.contents() == apply_ops(m, batch@.take(i as int)),
            decreases batch.ops@.len() - i,
        {
            proof {
                assert(batch@.take(i + 1).drop_last() =~= batch@.take(i as int));
                assert(batch@.take(i + 1).last() == batch@[i as int]);
            }
            match &batch.ops[i].1 {
                Some(v) => self.put(to_vec(batch.ops[i].0.as_slice()), to_vec(v.as_slice())),
                None => self.del(batch.ops[i].0.as_slice()),
            }
            i = i + 1;
        }
        assert(batch@.take(batch@.len() as int) =~= batch@);
        Ok(())
    }
}

/// The suffixes of those of `keys` that start with `prefix`.
fn strip_prefix(keys: Vec<Vec<u8>>, prefix: &[u8], m: Ghost<Contents>) -> (r: Vec<Vec<u8>>)
    requires
        is_listing(views(keys@), range_set(m@, prefix@, prefix_bound(prefix@))),
    ensures
        views(r@) == prefix_suffixes(m@, prefix@),
        is_listing(prefix_keys(m@, prefix@), prefix_set(m@, prefix@)),
{
    let mut out: Vec<Vec<u8>> = Vec::new();
    let ghost mut kept: Seq<Seq<u8>> = Seq::empty();
    let ghost ks = views(keys@);
    let ghost range = range_set(m@, prefix@, prefix_bound(prefix@));
    let ghost set = prefix_set(m@, prefix@);
    assert(views(out@) =~= kept.map_values(|k: Seq<u8>| k.skip(prefix@.len() as int)));
    let mut i: usize = 0;
    while i < keys.len()
        invariant
            i <= keys@.len(),
            ks == views(keys@),
            range == range_set(m@, prefix@, prefix_bound(prefix@)),
            set == prefix_set(m@, prefix@),
            is_listing(ks, range),
            forall|a: int, b: int|
                0 <= a < b < kept.len() ==> crate::bytes::lex_lt(kept[a], kept[b]),
            forall|a: int, j: int|
                0 <= a < kept.len() && i <= j < ks.len() ==> crate::bytes::lex_lt(kept[a], ks[j]),
            forall|a: int| 0 <= a < kept.len() ==> set.contains(#[trigger] kept[a]),
            forall|j: int|
                0 <= j < i && crate::bytes::starts_with(#[trigger] ks[j], prefix@)
                    ==> kept.contains(ks[j]),
            views(out@) == kept.map_values(|k: Seq<u8>| k.skip(prefix@.len() as int)),
        decreases keys@.len() - i,
    {
        proof {
            assert(ks[i as int] == keys@[i as int]@);
            assert(range.contains(ks[i as int]));
        }
        let ghost before = kept;
        if crate::bytes::has_prefix(keys[i].as_slice(), prefix) {
            let ghost out0 = out@;
            out.push(to_vec(slice_from(keys[i].as_slice(), prefix.len())));
            proof {
                kept = before.push(ks[i as int]);
                assert(views(out@) =~= views(out0).push(ks[i as int].skip(prefix@.len() as int)));
                assert(views(out@) =~= kept.map_values(
                    |k: Seq<u8>| k.skip(prefix@.len() as int),
                ));
                assert(kept[before.len() as int] == ks[i as int]);
                assert forall|j: int|
                    0 <= j < i + 1 && crate::bytes::starts_with(
                        #[trigger] ks[j],
                        prefix@,
                    ) implies kept.contains(ks[j]) by {
                    if j < i {
                        let a = choose|a: int| 0 <= a < before.len() && before[a] == ks[j];
                        assert(kept[a] == ks[j]);
                    }
                }
            }
        }
        i = i + 1;
    }
    proof {
        assert forall|k: Seq<u8>| #[trigger] set.contains(k) implies kept.contains(k) by {
            lemma_prefix_in_range(prefix@, k);
            assert(range.contains(k));
            assert(ks.contains(k));
        }
        lemma_listing_is_ordered(kept, set);
    }
    out
}

/// What follows `prefix` in each stored key that starts with it, with the
/// value, in key order: one pass over the range.
pub fn scan_suffix_kv<S: VirtualStorage>(store: &S, prefix: &[u8]) -> (r: Vec<(Vec<u8>, Vec<u8>)>)
    ensures
        pair_views(r@) == prefix_suffix_pairs(store.contents(), prefix@),
        is_listing(prefix_keys(store.contents(), prefix@), prefix_set(store.contents(), prefix@)),
{
    let end = prefix_end(prefix);
    let mut it = store.scan_range_iter(prefix, as_bound(&end));
    let mut out: Vec<(Vec<u8>, Vec<u8>)> = Vec::new();
    let ghost m = store.contents();
    let ghost ks = range_keys(m, prefix@, prefix_bound(prefix@));
    let ghost range = range_set(m, prefix@, prefix_bound(prefix@));
    let ghost set = prefix_set(m, prefix@);
    let ghost mut kept: Seq<Seq<u8>> = Seq::empty();
    let ghost mut i: int = 0;
    let mut more: bool = true;
    proof {
        assert(it@.len() == ks.len());
        assert(pair_views(out@) =~= kept.map_values(
            |k: Seq<u8>| (k.skip(prefix@.len() as int), m[k]),
        ));
    }
    while more
        invariant
            0 <= i <= ks.len(),
            !more ==> i == ks.len(),
            it@.len() == ks.len() - i,
            forall|j: int| 0 <= j < it@.len() ==> #[trigger] it@[j] == (ks[i + j], m[ks[i + j]]),
            range == range_set(m, prefix@, prefix_bound(prefix@)),
            set == prefix_set(m, prefix@),
            is_listing(ks, range),
            forall|a: int, b: int|
                0 <= a < b < kept.len() ==> crate::bytes::lex_lt(kept[a], kept[b]),
            forall|a: int, j: int|
                0 <= a < kept.len() && i <= j < ks.len() ==> crate::bytes::lex_lt(kept[a], ks[j]),
            forall|a: int| 0 <= a < kept.len() ==> set.contains(#[trigger] kept[a]),
            forall|j: int|
                0 <= j < i && crate::bytes::starts_with(#[trigger] ks[j], prefix@)
                    ==> kept.contains(ks[j]),
            pair_views(out@) == kept.map_values(
                |k: Seq<u8>| (k.skip(prefix@.len() as int), m[k]),
            ),
        decreases it@.len() + (if more { 1int } else { 0int }),
    {
        let ghost before_it = it@;
        match it.next() {
            None => {
                more = false;
            },
            Some((k, v)) => {
                let ghost before = kept;
                proof {
                    assert(before_it[0] == (ks[i], m[ks[i]]));
                    assert(range.contains(ks[i]));
                    assert forall|j: int| 0 <= j < it@.len() implies #[trigger] it@[j] == (
                        ks[i + 1 + j],
                        m[ks[i + 1 + j]],
                    ) by {
                        assert(it@[j] == before_it[j + 1]);
                    }
                }
                if crate::bytes::has_prefix(k.as_slice(), prefix) {
                    let ghost out0 = out@;
                    out.push((to_vec(slice_from(k.as_slice(), prefix.len())), v));
                    proof {
                        kept = before.push(ks[i]);
                        assert(pair_views(out@) =~= pair_views(out0).push(
                            (ks[i].skip(prefix@.len() as int), m[ks[i]]),
                        ));
                        assert(pair_views(out@) =~= kept.map_values(
                            |k: Seq<u8>| (k.skip(prefix@.len() as int), m[k]),
                        ));
                        assert(kept[before.len() as int] == ks[i]);
                        assert forall|j: int|
                            0 <= j < i + 1 && crate::bytes::starts_with(
                                #[trigger] ks[j],
                                prefix@,
                            ) implies kept.contains(ks[j]) by {
                            if j < i {
                                let a = choose|a: int|
                                    0 <= a < before.len() && before[a] == ks[j];
                                assert(kept[a] == ks[j]);
                            }
                        }
                    }
                }
                proof {
                    i = i + 1;
                }
            },
        }
    }
    proof {
        assert forall|k: Seq<u8>| #[trigger] set.contains(k) implies kept.contains(k) by {
            lemma_prefix_in_range(prefix@, k);
            assert(range.contains(k));
            assert(ks.contains(k));
        }
        lemma_listing_is_ordered(kept, set);
    }
    out
}

/// An engine whose handles share one physical keyspace.
pub trait SharedVirtualStorage: VirtualStorage {
    /// A handle to the same physical engine.
    fn shared_handle(&self) -> (r: Self)
        ensures
            r.contents() == self.contents(),
    ;
}

/// The stored pairs whose key starts with `prefix`, ascending by key.
pub fn scan_prefix_kv<S: VirtualStorage>(store: &S, prefix: &[u8]) -> (r: Vec<(Vec<u8>, Vec<u8>)>)
    ensures
        pair_views(r@) == prefix_pairs(store.contents(), prefix@),
        is_listing(prefix_keys(store.contents(), prefix@), prefix_set(store.contents(), prefix@)),
{
    let tails = scan_suffix_kv(store, prefix);
    let ghost m = store.contents();
    let ghost ks = prefix_keys(m, prefix@);
    let mut out: Vec<(Vec<u8>, Vec<u8>)> = Vec::new();
    let mut i: usize = 0;
    proof {
        assert(pair_views(tails@).len() == ks.len());
        assert(pair_views(out@) =~= ks.take(0).map_values(|k: Seq<u8>| (k, m[k])));
    }
    while i < tails.len()
        invariant
            i <= tails@.len() == ks.len(),
            is_listing(ks, prefix_set(m, prefix@)),
            pair_views(tails@) == ks.map_values(
                |k: Seq<u8>| (k.skip(prefix@.len() as int), m[k]),
            ),
            pair_views(out@) == ks.take(i as int).map_values(|k: Seq<u8>| (k, m[k])),
        decreases tails@.len() - i,
    {
        let ghost before = pair_views(out@);
        proof {
            let k = ks[i as int];
            assert(prefix_set(m, prefix@).contains(k));
            crate::bytes::lemma_starts_with_split(k, prefix@);
            assert(pair_views(tails@)[i as int] == (k.skip(prefix@.len() as int), m[k]));
        }
        let key = crate::bytes::concat(prefix, tails[i].0.as_slice());
        let value = to_vec(tails[i].1.as_slice());
        out.push((key, value));
        proof {
            assert(pair_views(out@) =~= before.push((ks[i as int], m[ks[i as int]])));
            assert(ks.take(i + 1) =~= ks.take(i as int).push(ks[i as int]));
            assert(ks.take(i + 1).map_values(|k: Seq<u8>| (k, m[k])) =~= before.push(
                (ks[i as int], m[ks[i as int]]),
            ));
        }
        i = i + 1;
    }
    assert(ks.take(i as int) =~= ks);
    out
}

/// Scans of one prefix agree: place by place they tell the same key, whole
/// or without the prefix, and the value stored under it. Every stored key
/// with the prefix has its place, and keys ascend.
pub proof fn law_prefix_scans_agree(m: Contents, prefix: Seq<u8>, i: int, k: Seq<u8>)
    requires
        m.dom().finite(),
        0 <= i < prefix_keys(m, prefix).len(),
    ensures
        ({
            let keys = prefix_keys(m, prefix);
            let pairs = prefix_pairs(m, prefix);
            let suffixes = prefix_suffixes(m, prefix);
            let both = prefix_suffix_pairs(m, prefix);
            &&& pairs.len() == keys.len() && suffixes.len() == keys.len() && both.len()
                == keys.len()
            &&& pairs[i].0 == keys[i]
            &&& prefix + suffixes[i] == keys[i]
            &&& prefix + both[i].0 == keys[i]
            &&& m.dom().contains(keys[i])
            &&& pairs[i].1 == m[keys[i]] && both[i].1 == m[keys[i]]
            &&& keys.contains(k) <==> m.dom().contains(k) && crate::bytes::starts_with(k, prefix)
            &&& i + 1 < keys.len() ==> crate::bytes::lex_lt(keys[i], keys[i + 1])
        }),
{
    let set = prefix_set(m, prefix);
    let keys = prefix_keys(m, prefix);
    assert(set.subset_of(m.dom()));
    vstd::set_lib::lemma_set_subset_finite(m.dom(), set);
    lemma_finite_listing(set);
    assert(set.contains(keys[i]));
    crate::bytes::lemma_starts_with_split(keys[i], prefix);
    if keys.contains(k) {
        let j = choose|j: int| 0 <= j < keys.len() && keys[j] == k;
        assert(set.contains(keys[j]));
    }
    if m.dom().contains(k) && crate::bytes::starts_with(k, prefix) {
        assert(set.contains(k));
    }
}

/// A range gives every stored key from its begin on and before its end, with
/// its value, ascending.
pub proof fn law_range_gives_keys(
    m: Contents,
    begin: Seq<u8>,
    end: Option<Seq<u8>>,
    i: int,
    k: Seq<u8>,
)
    requires
        m.dom().finite(),
    ensures
        ({
            let keys = range_keys(m, begin, end);
            let pairs = range_pairs(m, begin, end);
            &&& pairs.len() == keys.len()
            &&& 0 <= i < keys.len() ==> pairs[i] == (keys[i], m[keys[i]])
            &&& 0 <= i && i + 1 < keys.len() ==> crate::bytes::lex_lt(keys[i], keys[i + 1])
            &&& keys.contains(k) <==> m.dom().contains(k) && !crate::bytes::lex_lt(k, begin) && (
            end matches Some(e) ==> crate::bytes::lex_lt(k, e))
        }),
{
    let set = range_set(m, begin, end);
    let keys = range_keys(m, begin, end);
    assert(set.subset_of(m.dom()));
    vstd::set_lib::lemma_set_subset_finite(m.dom(), set);
    lemma_finite_listing(set);
    crate::bytes::lemma_lex_total(begin, k);
    crate::bytes::lemma_lex_irreflexive(begin);
    if crate::bytes::lex_lt(begin, k) {
        crate::bytes::lemma_lex_asymmetric(begin, k);
    }
    if keys.contains(k) {
        let j = choose|j: int| 0 <= j < keys.len() && keys[j] == k;
        assert(set.contains(keys[j]));
    }
    if set.contains(k) {
        assert(keys.contains(k));
    }
}

} // verus!
