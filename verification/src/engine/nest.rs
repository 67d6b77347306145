//! Nested storage: a host executes request frames on an engine, each tenant
//! inside its declared prefix; a sender builds the frames and pages through
//! streamed ranges. How frames travel is the transport's business.

use std::collections::VecDeque;

use vstd::prelude::*;

use crate::bytes::{concat, has_prefix, slice_from, to_vec};
use crate::engine::storage::{as_bound, prefix_end, MemBatch, VirtualStorage};
use crate::engine::subspace::strip_keys;

verus! {

/// What an operation of a frame asks for.
#[derive(Clone, Copy, Debug, PartialEq, Eq, Structural)]
pub enum OpTag {
    Put,
    Delete,
    Get,
    Scan,
    ScanStream,
    /// A tag that this host does not know.
    Other(u8),
}

/// One operation: tag, key and value.
pub struct Op {
    pub tag: OpTag,
    pub key: Vec<u8>,
    pub value: Vec<u8>,
}

/// The operation as a mathematical value.
pub struct OpView {
    pub tag: OpTag,
    pub key: Seq<u8>,
    pub value: Seq<u8>,
}

impl View for Op {
    type V = OpView;

    open spec fn view(&self) -> OpView {
        OpView { tag: self.tag, key: self.key@, value: self.value@ }
    }
}

/// A request: operations in the order in which they were asked for.
pub struct OpFrame {
    pub ops: Vec<Op>,
}

impl View for OpFrame {
    type V = Seq<OpView>;

    open spec fn view(&self) -> Seq<OpView> {
        self.ops@.map_values(|op: Op| op@)
    }
}

impl OpFrame {
    /// A frame of one operation.
    pub fn one(tag: OpTag, key: Vec<u8>, value: Vec<u8>) -> (r: Self)
        ensures
            r@ == seq![(OpView { tag, key: key@, value: value@ })],
    {
        let mut ops: Vec<Op> = Vec::new();
        ops.push(Op { tag, key, value });
        let r = OpFrame { ops };
        assert(r@ =~= seq![(OpView { tag, key: key@, value: value@ })]);
        r
    }

    /// The frame of a batch: a put or a delete per write, in order.
    pub fn write_batch(batch: &MemBatch) -> (r: Self)
        ensures
            r@ == batch_frame(batch@),
    {
        let mut ops: Vec<Op> = Vec::new();
        let mut i: usize = 0;
        while i < batch.ops.len()
            invariant
                i <= batch.ops@.len(),
                ops@.map_values(|op: Op| op@) == batch_frame(batch@.take(i as int)),
            decreases batch.ops@.len() - i,
        {
            let ghost before = ops@;
            let key = to_vec(batch.ops[i].0.as_slice());
            match &batch.ops[i].1 {
                Some(v) => ops.push(Op { tag: OpTag::Put, key, value: to_vec(v.as_slice()) }),
                None => ops.push(Op { tag: OpTag::Delete, key, value: Vec::new() }),
            }
            proof {
                let w = batch@[i as int];
                assert(batch@.take(i + 1) =~= batch@.take(i as int).push(w));
                assert(ops@.map_values(|op: Op| op@) =~= before.map_values(|op: Op| op@).push(
                    write_op(w),
                ));
                assert(batch_frame(batch@.take(i + 1)) =~= batch_frame(batch@.take(i as int)).push(
                    write_op(w),
                ));
            }
            i = i + 1;
        }
        assert(batch@.take(i as int) =~= batch@);
        OpFrame { ops }
    }
}

/// The operation that asks for one write.
pub open spec fn write_op(w: (Seq<u8>, Option<Seq<u8>>)) -> OpView {
    match w.1 {
        Some(v) => OpView { tag: OpTag::Put, key: w.0, value: v },
        None => OpView { tag: OpTag::Delete, key: w.0, value: Seq::empty() },
    }
}

/// The operations that ask for the writes of a batch.
pub open spec fn batch_frame(ops: Seq<(Seq<u8>, Option<Seq<u8>>)>) -> Seq<OpView> {
    ops.map_values(|w: (Seq<u8>, Option<Seq<u8>>)| write_op(w))
}

/// Whether a streamed range goes on behind a page.
#[derive(Clone, Copy, Debug, PartialEq, Eq, Structural)]
pub enum Tail {
    More,
    Final,
}

/// The answer to a frame: what its last query of each kind found.
pub struct OpResponse {
    /// The value that a get found.
    pub value: Option<Vec<u8>>,
    /// The keys that a scan found.
    pub suffixes: Vec<Vec<u8>>,
    /// The pairs of a streamed page.
    pub hits: Vec<(Vec<u8>, Vec<u8>)>,
    /// Whether the stream goes on; absent without a stream query.
    pub tail: Option<Tail>,
}

/// The answer as a mathematical value.
#[verifier::ext_equal]
pub struct ResponseView {
    pub value: Option<Seq<u8>>,
    pub suffixes: Seq<Seq<u8>>,
    pub hits: Seq<(Seq<u8>, Seq<u8>)>,
    pub tail: Option<Tail>,
}

impl View for OpResponse {
    type V = ResponseView;

    open spec fn view(&self) -> ResponseView {
        ResponseView {
            value: crate::engine::storage::opt_view(self.value),
            suffixes: crate::engine::storage::views(self.suffixes@),
            hits: crate::engine::storage::pair_views(self.hits@),
            tail: self.tail,
        }
    }
}

/// The answer to a frame without queries.
pub open spec fn empty_response() -> ResponseView {
    ResponseView { value: None, suffixes: Seq::empty(), hits: Seq::empty(), tail: None }
}

impl OpResponse {
    /// The answer to a frame without queries.
    pub fn new() -> (r: Self)
        ensures
            r@ == empty_response(),
    {
        let r = OpResponse { value: None, suffixes: Vec::new(), hits: Vec::new(), tail: None };
        assert(r@ =~= empty_response());
        r
    }
}

/// The prefix of a host: none for a bare one.
pub open spec fn prefix_view(prefix: Option<Vec<u8>>) -> Seq<u8> {
    match prefix {
        Some(p) => p@,
        None => Seq::empty(),
    }
}

/// How many pairs a page byte asks for; `None` for all of them.
pub open spec fn page_size(page: u8) -> Option<nat> {
    if page == 0xFF {
        None
    } else if page == 0 {
        Some(256)
    } else {
        Some(page as nat)
    }
}

/// A stream request `[flag][end bytes?][page]`: its flag is known, and its
/// page byte stands apart from a flag that announces an end.
pub open spec fn stream_ok(value: Seq<u8>) -> bool {
    value.len() > 0 && (value[0] == 0 || ((value[0] == 1 || value[0] == 2) && value.len() >= 2))
}

/// The end of a stream request; none for an unbounded one. A resumed
/// request without end bytes is unbounded.
pub open spec fn stream_end(value: Seq<u8>) -> Option<Seq<u8>> {
    let span = value.subrange(1, value.len() - 1);
    if value[0] == 0 || (value[0] == 2 && span.len() == 0) {
        None
    } else {
        Some(span)
    }
}

/// Whether a host can execute the operation.
pub open spec fn op_ok(op: OpView) -> bool {
    match op.tag {
        OpTag::Other(_) => false,
        OpTag::ScanStream => stream_ok(op.value),
        _ => true,
    }
}

/// Whether a host can execute every operation.
pub open spec fn frame_ok(ops: Seq<OpView>) -> bool {
    forall|i: int| 0 <= i < ops.len() ==> op_ok(#[trigger] ops[i])
}

/// The keys of `t` that a scan finds, with what is stripped from them.
pub open spec fn scan_answer(t: crate::engine::storage::Contents, op: OpView) -> Seq<Seq<u8>> {
    if op.value.len() == 1 && op.value[0] == 0 {
        crate::engine::storage::range_keys(t, op.key, None)
    } else if op.value.len() > 0 && op.value[0] == 1 {
        crate::engine::storage::range_keys(t, op.key, Some(op.value.skip(1)))
    } else {
        crate::engine::storage::prefix_suffixes(t, op.key)
    }
}

/// The keys of `t` that a stream request covers. A resumed request covers
/// what comes behind the key it names.
pub open spec fn stream_set(t: crate::engine::storage::Contents, op: OpView) -> Set<Seq<u8>> {
    if op.value[0] == 2 {
        Set::new(
            |k: Seq<u8>|
                t.dom().contains(k) && crate::bytes::lex_lt(op.key, k) && (stream_end(
                    op.value,
                ) is Some ==> crate::bytes::lex_lt(k, stream_end(op.value)->0)),
        )
    } else {
        crate::engine::storage::range_set(t, op.key, stream_end(op.value))
    }
}

/// The pairs of `t` that a stream request covers.
pub open spec fn stream_pairs(t: crate::engine::storage::Contents, op: OpView) -> Seq<
    (Seq<u8>, Seq<u8>),
> {
    crate::engine::storage::ordered(stream_set(t, op)).map_values(|k: Seq<u8>| (k, t[k]))
}

/// The first pairs of a list, at most as many as a page asks for.
pub open spec fn first_page(pairs: Seq<(Seq<u8>, Seq<u8>)>, page: u8) -> Seq<(Seq<u8>, Seq<u8>)> {
    match page_size(page) {
        Some(n) if n < pairs.len() => pairs.take(n as int),
        _ => pairs,
    }
}

/// A page that came out full may be followed by another.
pub open spec fn page_tail(hits: nat, page: u8) -> Tail {
    if page_size(page) == Some(hits) {
        Tail::More
    } else {
        Tail::Final
    }
}

/// The answer once `op` has been executed on `t`, after `resp`.
pub open spec fn answer(
    t: crate::engine::storage::Contents,
    op: OpView,
    resp: ResponseView,
) -> ResponseView {
    match op.tag {
        OpTag::Get => ResponseView {
            value: if t.dom().contains(op.key) {
                Some(t[op.key])
            } else {
                None
            },
            ..resp
        },
        OpTag::Scan => ResponseView { suffixes: scan_answer(t, op), ..resp },
        OpTag::ScanStream => {
            let hits = first_page(stream_pairs(t, op), op.value.last());
            ResponseView { hits, tail: Some(page_tail(hits.len(), op.value.last())), ..resp }
        },
        _ => resp,
    }
}

/// The answer to a frame whose writes left the tenant with `t`.
pub open spec fn answer_all(
    t: crate::engine::storage::Contents,
    ops: Seq<OpView>,
) -> ResponseView
    decreases ops.len(),
{
    if ops.len() == 0 {
        empty_response()
    } else {
        answer(t, ops.last(), answer_all(t, ops.drop_last()))
    }
}

/// The writes of a frame, in the tenant's own keys.
pub open spec fn frame_writes(ops: Seq<OpView>) -> Seq<(Seq<u8>, Option<Seq<u8>>)>
    decreases ops.len(),
{
    if ops.len() == 0 {
        Seq::empty()
    } else {
        let before = frame_writes(ops.drop_last());
        match ops.last().tag {
            OpTag::Put => before.push((ops.last().key, Some(ops.last().value))),
            OpTag::Delete => before.push((ops.last().key, None)),
            _ => before,
        }
    }
}

/// Writes in a tenant's keys as writes in the engine's.
pub open spec fn hosted_writes(
    p: Seq<u8>,
    writes: Seq<(Seq<u8>, Option<Seq<u8>>)>,
) -> Seq<(Seq<u8>, Option<Seq<u8>>)> {
    writes.map_values(|w: (Seq<u8>, Option<Seq<u8>>)| (p + w.0, w.1))
}

/// Receiver side: an engine nested inside a declared prefix, executing
/// frames. With a prefix every key enters the engine behind it; without one
/// (a bare shard) the sender's keys are the engine's.
pub struct NestStorage<S: VirtualStorage> {
    engine: S,
    prefix: Option<Vec<u8>>,
}

/// Sender key to engine key: the prefix first, the sender's bytes after.
fn hosted_key(prefix: &Option<Vec<u8>>, key: &[u8]) -> (r: Vec<u8>)
    ensures
        r@ == prefix_view(*prefix) + key@,
{
    match prefix {
        Some(p) => concat(p.as_slice(), key),
        None => {
            let r = to_vec(key);
            assert(r@ =~= Seq::<u8>::empty() + key@);
            r
        },
    }
}

impl<S: VirtualStorage> NestStorage<S> {
    /// The engine's contents.
    pub closed spec fn contents(&self) -> crate::engine::storage::Contents {
        self.engine.contents()
    }

    /// The declared prefix, empty for a bare shard.
    pub closed spec fn prefix(&self) -> Seq<u8> {
        prefix_view(self.prefix)
    }

    /// A host whose tenant lives under `prefix`.
    pub fn new(engine: S, prefix: &[u8]) -> (r: Self)
        ensures
            r.contents() == engine.contents(),
            r.prefix() == prefix@,
    {
        NestStorage { engine, prefix: Some(to_vec(prefix)) }
    }

    /// A host without a prefix: the sender's keyspace is the engine's.
    pub fn bare(engine: S) -> (r: Self)
        ensures
            r.contents() == engine.contents(),
            r.prefix() == Seq::<u8>::empty(),
    {
        NestStorage { engine, prefix: None }
    }

    /// The declared prefix, empty for a bare shard.
    fn prefix_bytes(&self) -> (r: &[u8])
        ensures
            r@ == self.prefix(),
    {
        match &self.prefix {
            Some(p) => p.as_slice(),
            None => {
                let r: &[u8] = &[];
                assert(r@ =~= Seq::<u8>::empty());
                r
            },
        }
    }

    /// The tenant's keys whose engine keys lie in `[begin, end)`.
    fn tenant_keys(&self, begin: &[u8], end: Option<&[u8]>) -> (r: Vec<Vec<u8>>)
        ensures
            crate::engine::storage::is_listing(
                crate::engine::storage::views(r@),
                crate::engine::subspace::stripped(
                    crate::engine::storage::range_set(
                        self.contents(),
                        begin@,
                        crate::engine::storage::bound_view(end),
                    ),
                    self.prefix(),
                ),
            ),
    {
        let keys = self.engine.scan_range(begin, end);
        proof {
            crate::engine::subspace::lemma_strip_listing(
                crate::engine::storage::views(keys@),
                crate::engine::storage::range_set(
                    self.contents(),
                    begin@,
                    crate::engine::storage::bound_view(end),
                ),
                self.prefix(),
            );
        }
        strip_keys(&keys, self.prefix_bytes())
    }

    /// The first pairs of the tenant whose engine keys lie in `[begin, end)`,
    /// at most as many as a page asks for. The range is read no further.
    fn tenant_page(&self, begin: &[u8], end: Option<&[u8]>, page: u8) -> (r: Vec<
        (Vec<u8>, Vec<u8>),
    >)
        ensures
            ({
                let set = crate::engine::subspace::stripped(
                    crate::engine::storage::range_set(
                        self.contents(),
                        begin@,
                        crate::engine::storage::bound_view(end),
                    ),
                    self.prefix(),
                );
                let t = crate::engine::subspace::tenant(self.contents(), self.prefix());
                crate::engine::storage::pair_views(r@) == first_page(
                    crate::engine::storage::ordered(set).map_values(|k: Seq<u8>| (k, t[k])),
                    page,
                )
            }),
    {
        let mut it = self.engine.scan_range_iter(begin, end);
        let mut out: Vec<(Vec<u8>, Vec<u8>)> = Vec::new();
        let want: usize = if page == 0 {
            256
        } else {
            page as usize
        };
        let ghost m = self.contents();
        let ghost p = self.prefix();
        let ghost t = crate::engine::subspace::tenant(m, p);
        let ghost bound = crate::engine::storage::bound_view(end);
        let ghost ks = crate::engine::storage::range_keys(m, begin@, bound);
        let ghost set = crate::engine::storage::range_set(m, begin@, bound);
        let ghost f = |k: Seq<u8>| (k, t[k]);
        let ghost mut n: int = 0;
        let mut more: bool = true;
        proof {
            assert(crate::engine::subspace::strip_list(ks.take(0), p) =~= Seq::empty());
            assert(crate::engine::storage::pair_views(out@) =~= crate::engine::subspace::strip_list(
                ks.take(0),
                p,
            ).map_values(f));
            crate::engine::subspace::lemma_strip_listing(ks, set, p);
        }
        while more && (page == 0xFF || out.len() < want)
            invariant
                m == self.contents(),
                p == self.prefix(),
                t == crate::engine::subspace::tenant(m, p),
                f == (|k: Seq<u8>| (k, t[k])),
                page_size(page) == (if page == 0xFF {
                    None
                } else {
                    Some(want as nat)
                }),
                crate::engine::storage::is_listing(ks, set),
                set == crate::engine::storage::range_set(m, begin@, bound),
                0 <= n <= ks.len(),
                !more ==> n == ks.len(),
                page != 0xFF ==> out@.len() <= want,
                it@.len() == ks.len() - n,
                forall|j: int|
                    0 <= j < it@.len() ==> #[trigger] it@[j] == (ks[n + j], m[ks[n + j]]),
                crate::engine::storage::pair_views(out@) == crate::engine::subspace::strip_list(ks.take(n), p).map_values(f),
            decreases it@.len() + (if more {
                1int
            } else {
                0int
            }),
        {
            let ghost before_it = it@;
            match it.next() {
                None => {
                    more = false;
                },
                Some((k, v)) => {
                    let ghost before = crate::engine::storage::pair_views(out@);
                    proof {
                        assert(before_it[0] == (ks[n], m[ks[n]]));
                        assert forall|j: int| 0 <= j < it@.len() implies #[trigger] it@[j] == (
                            ks[n + 1 + j],
                            m[ks[n + 1 + j]],
                        ) by {
                            assert(it@[j] == before_it[j + 1]);
                        }
                        assert(ks.take(n + 1).drop_last() =~= ks.take(n));
                        assert(ks.take(n + 1).last() == ks[n]);
                    }
                    if has_prefix(k.as_slice(), self.prefix_bytes()) {
                        out.push((to_vec(slice_from(k.as_slice(), self.prefix_bytes().len())), v));
                        proof {
                            let x = ks[n].skip(p.len() as int);
                            crate::bytes::lemma_starts_with_split(ks[n], p);
                            assert(p + x == ks[n]);
                            assert(set.contains(ks[n]));
                            assert(t.dom().contains(x));
                            assert(t[x] == m[ks[n]]);
                            assert(crate::engine::storage::pair_views(out@) =~= before.push(f(x)));
                            assert(crate::engine::subspace::strip_list(ks.take(n + 1), p).map_values(f) =~= crate::engine::subspace::strip_list(
                                ks.take(n),
                                p,
                            ).map_values(f).push(f(x)));
                        }
                    }
                    proof {
                        n = n + 1;
                    }
                },
            }
        }
        proof {
            crate::engine::subspace::lemma_strip_front(ks, p, n);
            let all = crate::engine::subspace::strip_list(ks, p).map_values(f);
            let got = crate::engine::storage::pair_views(out@);
            assert(got =~= all.take(got.len() as int));
            if n == ks.len() {
                assert(ks.take(n) =~= ks);
            }
            assert(all.take(all.len() as int) =~= all);
            assert(got == first_page(all, page));
        }
        out
    }
}

/// What a resumed request covers begins at the key with a zero byte at its
/// end.
proof fn lemma_resumed_range(t: crate::engine::storage::Contents, op: OpView)
    requires
        op.value[0] == 2,
    ensures
        stream_set(t, op) == crate::engine::storage::range_set(
            t,
            op.key.push(0u8),
            stream_end(op.value),
        ),
{
    let x = stream_set(t, op);
    let y = crate::engine::storage::range_set(t, op.key.push(0u8), stream_end(op.value));
    assert forall|k: Seq<u8>| x.contains(k) <==> y.contains(k) by {
        crate::bytes::lemma_lex_successor(op.key, k);
    }
    assert(x =~= y);
}

/// Whether a host can execute the operation.
fn can_execute(op: &Op) -> (r: bool)
    ensures
        r == op_ok(op@),
{
    match op.tag {
        OpTag::Other(_) => false,
        OpTag::ScanStream => {
            let n: usize = op.value.len();
            n > 0 && (op.value[0] == 0 || ((op.value[0] == 1 || op.value[0] == 2) && n >= 2))
        },
        _ => true,
    }
}

impl<S: VirtualStorage> NestStorage<S> {
    /// The end of a range over the whole rest of the tenant's keys.
    fn tenant_end(&self) -> (r: Option<Vec<u8>>)
        ensures
            crate::engine::storage::opt_view(r) == crate::engine::storage::prefix_bound(
                self.prefix(),
            ),
    {
        prefix_end(self.prefix_bytes())
    }

    /// Answers a scan.
    fn answer_scan(&self, op: &Op) -> (r: Vec<Vec<u8>>)
        ensures
            crate::engine::storage::views(r@) == scan_answer(
                crate::engine::subspace::tenant(self.contents(), self.prefix()),
                op@,
            ),
    {
        let begin = hosted_key(&self.prefix, op.key.as_slice());
        let ghost m = self.contents();
        let ghost p = self.prefix();
        let n: usize = op.value.len();
        if n == 1 && op.value[0] == 0 {
            let end = self.tenant_end();
            let r = self.tenant_keys(begin.as_slice(), as_bound(&end));
            proof {
                crate::engine::subspace::lemma_tenant_unbounded(m, p, op.key@);
                crate::engine::storage::lemma_listing_is_ordered(
                    crate::engine::storage::views(r@),
                    crate::engine::storage::range_set(crate::engine::subspace::tenant(m, p), op.key@, None),
                );
            }
            r
        } else if n > 0 && op.value[0] == 1 {
            let span = slice_from(op.value.as_slice(), 1);
            let end = Some(hosted_key(&self.prefix, span));
            let r = self.tenant_keys(begin.as_slice(), as_bound(&end));
            proof {
                crate::engine::subspace::lemma_tenant_range(m, p, op.key@, span@);
                crate::engine::storage::lemma_listing_is_ordered(
                    crate::engine::storage::views(r@),
                    crate::engine::storage::range_set(crate::engine::subspace::tenant(m, p), op.key@, Some(span@)),
                );
            }
            r
        } else {
            let r = self.engine.scan_suffix(begin.as_slice());
            proof {
                crate::engine::subspace::lemma_tenant_suffixes(m, p, op.key@);
            }
            r
        }
    }

    /// Answers a stream request with one page.
    fn answer_stream(&self, op: &Op) -> (r: Vec<(Vec<u8>, Vec<u8>)>)
        requires
            stream_ok(op@.value),
        ensures
            crate::engine::storage::pair_views(r@) == first_page(
                stream_pairs(crate::engine::subspace::tenant(self.contents(), self.prefix()), op@),
                op@.value.last(),
            ),
    {
        let ghost m = self.contents();
        let ghost p = self.prefix();
        let n: usize = op.value.len();
        let flag: u8 = op.value[0];
        let page: u8 = op.value[n - 1];
        let key = hosted_key(&self.prefix, op.key.as_slice());
        let end: Option<Vec<u8>> = if flag == 0 || (flag == 2 && n == 2) {
            self.tenant_end()
        } else {
            let span = vstd::slice::slice_subrange(op.value.as_slice(), 1, n - 1);
            Some(hosted_key(&self.prefix, span))
        };
        proof {
            assert(crate::engine::storage::opt_view(end) == (match stream_end(op@.value) {
                Some(e) => Some(p + e),
                None => crate::engine::storage::prefix_bound(p),
            }));
        }
        let mut begin = key;
        let ghost first = if flag == 2 {
            op@.key.push(0u8)
        } else {
            op@.key
        };
        if flag == 2 {
            begin.push(0);
            proof {
                lemma_resumed_range(crate::engine::subspace::tenant(m, p), op@);
            }
        }
        proof {
            assert(begin@ =~= p + first);
            match stream_end(op@.value) {
                Some(e) => crate::engine::subspace::lemma_tenant_range(m, p, first, e),
                None => crate::engine::subspace::lemma_tenant_unbounded(m, p, first),
            }
        }
        self.tenant_page(begin.as_slice(), as_bound(&end), page)
    }

    /// Executes one request frame. The writes commit together, in frame
    /// order, as one batch; the queries run after them and fill the answer.
    /// A frame with an unknown tag or a malformed stream request is answered
    /// with `None`, and nothing of it is stored.
    pub fn apply(&mut self, frame: &OpFrame) -> (r: Option<OpResponse>)
        ensures
            final(self).prefix() == old(self).prefix(),
            r is Some <==> frame_ok(frame@),
            r is None ==> final(self).contents() == old(self).contents(),
            r matches Some(resp) ==> {
                let p = old(self).prefix();
                let after = crate::engine::storage::apply_ops(
                    old(self).contents(),
                    hosted_writes(p, frame_writes(frame@)),
                );
                &&& final(self).contents() == after || (!S::never_refuses() && final(
                    self).contents() == old(self).contents())
                &&& resp@ == answer_all(crate::engine::subspace::tenant(final(self).contents(), p), frame@)
            },
    {
        let ghost p = self.prefix();
        let ghost ops = frame@;
        let mut batch = MemBatch::new();
        let mut i: usize = 0;
        assert(batch@ =~= hosted_writes(p, frame_writes(ops.take(0))));
        while i < frame.ops.len()
            invariant
                i <= frame.ops@.len(),
                ops == frame@,
                p == self.prefix(),
                *self == *old(self),
                forall|j: int| 0 <= j < i ==> op_ok(#[trigger] ops[j]),
                batch@ == hosted_writes(p, frame_writes(ops.take(i as int))),
            decreases frame.ops@.len() - i,
        {
            let op = &frame.ops[i];
            proof {
                assert(ops[i as int] == op@);
                assert(ops.take(i + 1).drop_last() =~= ops.take(i as int));
                assert(ops.take(i + 1).last() == op@);
            }
            if !can_execute(op) {
                return None;
            }
            let ghost before = batch@;
            match op.tag {
                OpTag::Put => {
                    batch.put(
                        hosted_key(&self.prefix, op.key.as_slice()),
                        to_vec(op.value.as_slice()),
                    );
                },
                OpTag::Delete => {
                    let key = hosted_key(&self.prefix, op.key.as_slice());
                    batch.del(key.as_slice());
                },
                _ => {},
            }
            assert(batch@ =~= hosted_writes(p, frame_writes(ops.take(i + 1))));
            i = i + 1;
        }
        assert(ops.take(i as int) =~= ops);
        let _ = self.engine.commit_batch(batch);
        let mut resp = OpResponse::new();
        let ghost t = crate::engine::subspace::tenant(self.contents(), p);
        let mut j: usize = 0;
        assert(resp@ == answer_all(t, ops.take(0)));
        while j < frame.ops.len()
            invariant
                j <= frame.ops@.len(),
                ops == frame@,
                p == self.prefix(),
                t == crate::engine::subspace::tenant(self.contents(), p),
                frame_ok(ops),
                resp@ == answer_all(t, ops.take(j as int)),
            decreases frame.ops@.len() - j,
        {
            let op = &frame.ops[j];
            proof {
                assert(ops[j as int] == op@);
                assert(ops.take(j + 1).drop_last() =~= ops.take(j as int));
                assert(ops.take(j + 1).last() == op@);
            }
            match op.tag {
                OpTag::Get => {
                    let key = hosted_key(&self.prefix, op.key.as_slice());
                    resp.value = self.engine.get(key.as_slice());
                },
                OpTag::Scan => {
                    resp.suffixes = self.answer_scan(op);
                },
                OpTag::ScanStream => {
                    let hits = self.answer_stream(op);
                    let page: u8 = op.value[op.value.len() - 1];
                    let full: bool = page != 0xFF && hits.len() == (if page == 0 {
                        256
                    } else {
                        page as usize
                    });
                    resp.hits = hits;
                    resp.tail = Some(
                        if full {
                            Tail::More
                        } else {
                            Tail::Final
                        },
                    );
                },
                _ => {},
            }
            j = j + 1;
        }
        assert(ops.take(j as int) =~= ops);
        Some(resp)
    }
}

/// A tenant's writes are the same writes in its own keyspace, and no key
/// outside its prefix changes.
pub proof fn law_tenant_writes(
    m: crate::engine::storage::Contents,
    p: Seq<u8>,
    writes: Seq<(Seq<u8>, Option<Seq<u8>>)>,
)
    ensures
        crate::engine::subspace::tenant(crate::engine::storage::apply_ops(m, hosted_writes(p, writes)), p)
            == crate::engine::storage::apply_ops(crate::engine::subspace::tenant(m, p), writes),
        forall|k: Seq<u8>|
            !crate::bytes::starts_with(k, p) ==> #[trigger] crate::engine::storage::same_at(
                crate::engine::storage::apply_ops(m, hosted_writes(p, writes)),
                m,
                k,
            ),
    decreases writes.len(),
{
    let hosted = hosted_writes(p, writes);
    if writes.len() == 0 {
        assert(hosted =~= Seq::empty());
    } else {
        let w = writes.last();
        law_tenant_writes(m, p, writes.drop_last());
        assert(hosted.drop_last() =~= hosted_writes(p, writes.drop_last()));
        assert(hosted.last() == (p + w.0, w.1));
        let before = crate::engine::storage::apply_ops(m, hosted.drop_last());
        let after = crate::engine::storage::apply_ops(m, hosted);
        let t0 = crate::engine::subspace::tenant(before, p);
        let t1 = crate::engine::subspace::tenant(after, p);
        assert forall|k: Seq<u8>| #![trigger (p + k)] (p + k == p + w.0) == (k == w.0) by {
            if p + k == p + w.0 {
                crate::bytes::lemma_starts_with_concat(p, k);
                crate::bytes::lemma_starts_with_concat(p, w.0);
            }
        }
        assert forall|k: Seq<u8>| t1.dom().contains(k) == crate::engine::storage::apply_op(
            t0,
            w,
        ).dom().contains(k) by {
            assert((p + k == p + w.0) == (k == w.0));
        }
        assert forall|k: Seq<u8>| t1.dom().contains(k) implies #[trigger] t1[k]
            == crate::engine::storage::apply_op(t0, w)[k] by {
            assert((p + k == p + w.0) == (k == w.0));
        }
        assert(t1 =~= crate::engine::storage::apply_op(t0, w));
        crate::bytes::lemma_starts_with_concat(p, w.0);
        assert forall|k: Seq<u8>| !crate::bytes::starts_with(k, p) implies #[trigger] crate::engine::storage::same_at(
            after,
            m,
            k,
        ) by {
            assert(crate::engine::storage::same_at(before, m, k));
        }
    }
}

/// Tenants whose prefixes part ways do not see each other: what one writes
/// leaves the other's keyspace as it was.
pub proof fn law_tenants_are_disjoint(
    m: crate::engine::storage::Contents,
    p: Seq<u8>,
    q: Seq<u8>,
    writes: Seq<(Seq<u8>, Option<Seq<u8>>)>,
)
    requires
        !crate::bytes::starts_with(p, q),
        !crate::bytes::starts_with(q, p),
    ensures
        crate::engine::subspace::tenant(crate::engine::storage::apply_ops(m, hosted_writes(p, writes)), q) == crate::engine::subspace::tenant(m, q),
{
    law_tenant_writes(m, p, writes);
    let after = crate::engine::storage::apply_ops(m, hosted_writes(p, writes));
    assert forall|k: Seq<u8>| !crate::bytes::starts_with(#[trigger] (q + k), p) by {
        if crate::bytes::starts_with(q + k, p) {
            if p.len() <= q.len() {
                assert((q + k).subrange(0, p.len() as int) =~= q.subrange(0, p.len() as int));
            } else {
                assert(p.subrange(0, q.len() as int) =~= (q + k).subrange(
                    0,
                    p.len() as int,
                ).subrange(0, q.len() as int));
                assert(p.subrange(0, q.len() as int) =~= q);
            }
        }
    }
    let a = crate::engine::subspace::tenant(after, q);
    let b = crate::engine::subspace::tenant(m, q);
    assert forall|k: Seq<u8>| a.dom().contains(k) == b.dom().contains(k) by {
        assert(!crate::bytes::starts_with(q + k, p));
        assert(crate::engine::storage::same_at(after, m, q + k));
    }
    assert forall|k: Seq<u8>| a.dom().contains(k) implies #[trigger] a[k] == b[k] by {
        assert(!crate::bytes::starts_with(q + k, p));
        assert(crate::engine::storage::same_at(after, m, q + k));
    }
    assert(a =~= b);
}

/// A frame that stores a value and asks for it is answered with it: the
/// queries of a frame see its writes.
pub proof fn law_reads_see_writes(
    t: crate::engine::storage::Contents,
    key: Seq<u8>,
    value: Seq<u8>,
)
    ensures
        ({
            let ops = seq![
                (OpView { tag: OpTag::Put, key, value }),
                (OpView { tag: OpTag::Get, key, value: Seq::empty() }),
            ];
            answer_all(
                crate::engine::storage::apply_ops(t, frame_writes(ops)),
                ops,
            ).value == Some(value)
        }),
{
    let ops = seq![
        (OpView { tag: OpTag::Put, key, value }),
        (OpView { tag: OpTag::Get, key, value: Seq::empty() }),
    ];
    let first = seq![ops[0]];
    assert(ops.drop_last() =~= first);
    assert(first.drop_last() =~= Seq::empty());
    assert(frame_writes(first.drop_last()) =~= Seq::empty());
    assert(frame_writes(first) =~= seq![(key, Some(value))]);
    assert(frame_writes(ops) =~= seq![(key, Some(value))]);
    assert(seq![(key, Some(value))].drop_last() =~= Seq::empty());
    assert(crate::engine::storage::apply_ops(t, Seq::empty()) == t);
}

/// The request for a range: `[1]` and the end, or `[0]` without one.
pub open spec fn range_value(end: Option<Seq<u8>>) -> Seq<u8> {
    match end {
        Some(e) => seq![1u8] + e,
        None => seq![0u8],
    }
}

/// The request for a page: a flag, the end where there is one, the page
/// byte.
pub open spec fn stream_value(end: Option<Seq<u8>>, exclusive: bool, page: u8) -> Seq<u8> {
    let flag: u8 = if exclusive {
        2
    } else if end is Some {
        1
    } else {
        0
    };
    let span = match end {
        Some(e) => e,
        None => Seq::empty(),
    };
    (seq![flag] + span).push(page)
}

/// The frame that asks for the keys in `[begin, end)`.
pub fn scan_range_request(begin: &[u8], end: Option<&[u8]>) -> (r: OpFrame)
    ensures
        r@ == seq![
            (OpView {
                tag: OpTag::Scan,
                key: begin@,
                value: range_value(crate::engine::storage::bound_view(end)),
            }),
        ],
{
    let mut value: Vec<u8> = Vec::new();
    match end {
        Some(e) => {
            value.push(1);
            value.extend_from_slice(e);
        },
        None => {
            value.push(0);
        },
    }
    assert(value@ =~= range_value(crate::engine::storage::bound_view(end)));
    OpFrame::one(OpTag::Scan, to_vec(begin), value)
}

/// The frame that asks for one page of `[begin, end)`, or, resumed, of what
/// follows `begin`.
pub fn stream_request(begin: &[u8], end: Option<&[u8]>, exclusive: bool, page: u8) -> (r: OpFrame)
    ensures
        r@ == seq![
            (OpView {
                tag: OpTag::ScanStream,
                key: begin@,
                value: stream_value(crate::engine::storage::bound_view(end), exclusive, page),
            }),
        ],
{
    let mut value: Vec<u8> = Vec::new();
    value.push(
        if exclusive {
            2
        } else if end.is_some() {
            1
        } else {
            0
        },
    );
    match end {
        Some(e) => value.extend_from_slice(e),
        None => {},
    }
    value.push(page);
    assert(value@ =~= stream_value(crate::engine::storage::bound_view(end), exclusive, page));
    OpFrame::one(OpTag::ScanStream, to_vec(begin), value)
}

/// A range request is answered with the tenant's keys in the range; a scan
/// without a value with what follows the prefix.
pub proof fn law_scan_requests(
    t: crate::engine::storage::Contents,
    begin: Seq<u8>,
    end: Option<Seq<u8>>,
)
    ensures
        scan_answer(t, OpView { tag: OpTag::Scan, key: begin, value: range_value(end) })
            == crate::engine::storage::range_keys(t, begin, end),
        scan_answer(t, OpView { tag: OpTag::Scan, key: begin, value: Seq::empty() })
            == crate::engine::storage::prefix_suffixes(t, begin),
{
    if let Some(e) = end {
        assert(range_value(end).skip(1) =~= e);
    }
}

/// A stream request is well-formed, and ends where it was asked to. Only a
/// resumed one with an empty end does not: it is unbounded.
proof fn lemma_stream_value(end: Option<Seq<u8>>, exclusive: bool, page: u8)
    ensures
        stream_ok(stream_value(end, exclusive, page)),
        stream_value(end, exclusive, page).last() == page,
        !(exclusive && end == Some(Seq::<u8>::empty())) ==> stream_end(
            stream_value(end, exclusive, page),
        ) == end,
        exclusive == (stream_value(end, exclusive, page)[0] == 2),
{
    let v = stream_value(end, exclusive, page);
    if let Some(e) = end {
        assert(v.subrange(1, v.len() - 1) =~= e);
        if e.len() == 0 {
            assert(e =~= Seq::empty());
        }
    } else {
        assert(v.subrange(1, v.len() - 1) =~= Seq::empty());
    }
}

/// Sender side of a streamed range: the pairs received and not yet handed
/// out, and where the next page begins. The host keeps no state.
pub struct RemoteScanIter {
    begin: Vec<u8>,
    end: Option<Vec<u8>>,
    page: u8,
    buf: VecDeque<(Vec<u8>, Vec<u8>)>,
    cursor: Option<Vec<u8>>,
    done: bool,
}

/// The state of a streamed range.
#[verifier::ext_equal]
pub struct StreamView {
    /// Where the range begins.
    pub begin: Seq<u8>,
    /// Where it ends.
    pub end: Option<Seq<u8>>,
    /// The page byte of the requests.
    pub page: u8,
    /// The pairs received and not yet handed out.
    pub buf: Seq<(Seq<u8>, Seq<u8>)>,
    /// The last key handed out from the front.
    pub cursor: Option<Seq<u8>>,
    /// The last page has come.
    pub done: bool,
}

impl StreamView {
    /// The last key received, behind which the next page begins.
    pub open spec fn resume(self) -> Option<Seq<u8>> {
        if self.buf.len() > 0 {
            Some(self.buf.last().0)
        } else {
            self.cursor
        }
    }

    /// The request for the next page.
    pub open spec fn request(self) -> OpView {
        match self.resume() {
            Some(k) => OpView {
                tag: OpTag::ScanStream,
                key: k,
                value: stream_value(self.end, true, self.page),
            },
            None => OpView {
                tag: OpTag::ScanStream,
                key: self.begin,
                value: stream_value(self.end, false, self.page),
            },
        }
    }

    /// The state once a page has come.
    pub open spec fn absorb(self, resp: ResponseView) -> StreamView {
        StreamView { buf: self.buf + resp.hits, done: resp.tail != Some(Tail::More), ..self }
    }

    /// What is still to be handed out, as long as the tenant holds `t`.
    pub open spec fn rest(self, t: crate::engine::storage::Contents) -> Seq<(Seq<u8>, Seq<u8>)> {
        if self.done {
            self.buf
        } else {
            self.buf + stream_pairs(t, self.request())
        }
    }
}

impl View for RemoteScanIter {
    type V = StreamView;

    closed spec fn view(&self) -> StreamView {
        StreamView {
            begin: self.begin@,
            end: crate::engine::storage::opt_view(self.end),
            page: self.page,
            buf: crate::engine::storage::pair_views(self.buf@),
            cursor: crate::engine::storage::opt_view(self.cursor),
            done: self.done,
        }
    }
}

impl RemoteScanIter {
    /// A stream of `[begin, end)` in pages of the host's default size.
    pub fn new(begin: &[u8], end: Option<&[u8]>) -> (r: Self)
        ensures
            r@ == (StreamView {
                begin: begin@,
                end: crate::engine::storage::bound_view(end),
                page: 0,
                buf: Seq::empty(),
                cursor: None,
                done: false,
            }),
    {
        let r = RemoteScanIter {
            begin: to_vec(begin),
            end: match end {
                Some(e) => Some(to_vec(e)),
                None => None,
            },
            page: 0,
            buf: VecDeque::new(),
            cursor: None,
            done: false,
        };
        assert(r@ =~= StreamView {
            begin: begin@,
            end: crate::engine::storage::bound_view(end),
            page: 0,
            buf: Seq::empty(),
            cursor: None,
            done: false,
        });
        r
    }

    /// Whether a pair from the front needs another page.
    pub fn needs_page(&self) -> (r: bool)
        ensures
            r == (self@.buf.len() == 0 && !self@.done),
    {
        self.buf.len() == 0 && !self.done
    }

    /// Whether a pair from the back needs another page: the walk backwards
    /// first receives the whole range.
    pub fn needs_page_back(&self) -> (r: bool)
        ensures
            r == !self@.done,
    {
        !self.done
    }

    /// The request for the next page.
    pub fn refill(&self) -> (r: OpFrame)
        ensures
            r@ == seq![self@.request()],
    {
        let n: usize = self.buf.len();
        if n > 0 {
            proof {
                assert(self@.buf.last().0 == self.buf@[n - 1].0@);
            }
            stream_request(self.buf[n - 1].0.as_slice(), as_bound(&self.end), true, self.page)
        } else {
            match &self.cursor {
                Some(k) => stream_request(k.as_slice(), as_bound(&self.end), true, self.page),
                None => stream_request(
                    self.begin.as_slice(),
                    as_bound(&self.end),
                    false,
                    self.page,
                ),
            }
        }
    }

    /// Takes in the answer to a request.
    pub fn absorb(&mut self, resp: OpResponse)
        ensures
            final(self)@ == old(self)@.absorb(resp@),
    {
        self.done = match resp.tail {
            Some(Tail::More) => false,
            _ => true,
        };
        let ghost before = self@.buf;
        let mut i: usize = 0;
        while i < resp.hits.len()
            invariant
                i <= resp.hits@.len(),
                self@.begin == old(self)@.begin,
                self@.end == old(self)@.end,
                self@.page == old(self)@.page,
                self@.cursor == old(self)@.cursor,
                self@.done == (resp.tail != Some(Tail::More)),
                before == old(self)@.buf,
                self@.buf == before + crate::engine::storage::pair_views(resp.hits@).take(i as int),
            decreases resp.hits@.len() - i,
        {
            let ghost b0 = self@.buf;
            self.buf.push_back(
                (to_vec(resp.hits[i].0.as_slice()), to_vec(resp.hits[i].1.as_slice())),
            );
            proof {
                let hits = crate::engine::storage::pair_views(resp.hits@);
                assert(self@.buf =~= b0.push(hits[i as int]));
                assert(hits.take(i + 1) =~= hits.take(i as int).push(hits[i as int]));
                assert(self@.buf =~= before + hits.take(i + 1));
            }
            i = i + 1;
        }
        proof {
            let hits = crate::engine::storage::pair_views(resp.hits@);
            assert(hits.take(i as int) =~= hits);
            assert(self@ =~= old(self)@.absorb(resp@));
        }
    }

    /// Hands out the next received pair from the front.
    pub fn consume_front(&mut self) -> (r: Option<(Vec<u8>, Vec<u8>)>)
        ensures
            match r {
                Some((k, v)) => old(self)@.buf.len() > 0 && (k@, v@) == old(self)@.buf[0] && final(
                    self)@ == (StreamView {
                    buf: old(self)@.buf.drop_first(),
                    cursor: Some(k@),
                    ..old(self)@
                }),
                None => old(self)@.buf.len() == 0 && final(self)@ == old(self)@,
            },
    {
        match self.buf.pop_front() {
            Some((k, v)) => {
                self.cursor = Some(to_vec(k.as_slice()));
                assert(self@ =~= StreamView {
                    buf: old(self)@.buf.drop_first(),
                    cursor: Some(k@),
                    ..old(self)@
                });
                Some((k, v))
            },
            None => {
                assert(self@ =~= old(self)@);
                None
            },
        }
    }

    /// Hands out the next received pair from the back. The range has been
    /// received whole.
    pub fn consume_back(&mut self) -> (r: Option<(Vec<u8>, Vec<u8>)>)
        requires
            old(self)@.done,
        ensures
            match r {
                Some((k, v)) => old(self)@.buf.len() > 0 && (k@, v@) == old(self)@.buf.last()
                    && final(self)@ == (StreamView { buf: old(self)@.buf.drop_last(), ..old(self)@
                    }),
                None => old(self)@.buf.len() == 0 && final(self)@ == old(self)@,
            },
    {
        match self.buf.pop_back() {
            Some((k, v)) => {
                assert(self@ =~= StreamView { buf: old(self)@.buf.drop_last(), ..old(self)@ });
                Some((k, v))
            },
            None => {
                assert(self@ =~= old(self)@);
                None
            },
        }
    }
}

/// A new stream has the whole range before it.
pub proof fn law_stream_starts_whole(
    t: crate::engine::storage::Contents,
    s: StreamView,
)
    requires
        s.buf.len() == 0,
        s.cursor is None,
        !s.done,
    ensures
        s.rest(t) == crate::engine::storage::range_pairs(t, s.begin, s.end),
{
    lemma_stream_value(s.end, false, s.page);
    let pairs = crate::engine::storage::range_pairs(t, s.begin, s.end);
    assert(s.buf + pairs =~= pairs);
}

/// A page taken in changes nothing of what is still to be handed out.
pub proof fn law_absorb_keeps_rest(t: crate::engine::storage::Contents, s: StreamView)
    requires
        !s.done,
        t.dom().finite(),
        s.resume() is Some ==> s.end != Some(Seq::<u8>::empty()),
    ensures
        s.absorb(answer(t, s.request(), empty_response())).rest(t) == s.rest(t),
{
    let op = s.request();
    let exclusive = s.resume() is Some;
    lemma_stream_value(s.end, exclusive, s.page);
    lemma_stream_value(s.end, true, s.page);
    let pairs = stream_pairs(t, op);
    let hits = first_page(pairs, s.page);
    let after = s.absorb(answer(t, op, empty_response()));
    assert(after.buf == s.buf + hits);
    if after.done {
        assert(hits == pairs);
    } else {
        let set = stream_set(t, op);
        let ks = crate::engine::storage::ordered(set);
        assert(set.subset_of(t.dom()));
        vstd::set_lib::lemma_set_subset_finite(t.dom(), set);
        crate::engine::storage::lemma_finite_listing(set);
        let n = hits.len() as int;
        assert(hits =~= pairs.take(n));
        assert(n > 0);
        let last = ks[n - 1];
        assert(hits.last().0 == last);
        assert(after.buf.last() == hits.last());
        assert(set.contains(last));
        assert(s.end != Some(Seq::<u8>::empty()));
        let op2 = after.request();
        assert(op2.key == last);
        let above = Set::new(|k: Seq<u8>| set.contains(k) && crate::bytes::lex_lt(last, k));
        let set2 = stream_set(t, op2);
        crate::engine::storage::lemma_listing_skip(ks, set, n);
        crate::engine::storage::lemma_listing_is_ordered(ks.skip(n), above);
        assert forall|k: Seq<u8>| above.contains(k) <==> set2.contains(k) by {
            if set2.contains(k) {
                // `last` lies in the range, so what follows it does
                if exclusive {
                    crate::bytes::lemma_lex_transitive(op.key, last, k);
                } else {
                    crate::bytes::lemma_lex_le_lt(op.key, last, k);
                }
            }
        }
        assert(above =~= set2);
        let f = |k: Seq<u8>| (k, t[k]);
        assert(pairs.skip(n) =~= ks.skip(n).map_values(f));
        assert(hits + pairs.skip(n) =~= pairs);
        assert(after.buf + stream_pairs(t, op2) =~= s.buf + (hits + pairs.skip(n)));
    }
}

/// The stream once `n` pages have been taken in, or fewer if they were all.
pub open spec fn drained(
    t: crate::engine::storage::Contents,
    s: StreamView,
    n: nat,
) -> StreamView
    decreases n,
{
    if n == 0 || s.done {
        s
    } else {
        drained(t, s.absorb(answer(t, s.request(), empty_response())), (n - 1) as nat)
    }
}

proof fn lemma_drained(t: crate::engine::storage::Contents, s: StreamView, n: nat)
    requires
        t.dom().finite(),
        s.end == Some(Seq::<u8>::empty()) ==> s.done || s.resume() is None,
    ensures
        drained(t, s, n).rest(t) == s.rest(t),
        drained(t, s, n).done || drained(t, s, n).buf.len() >= s.buf.len() + n,
    decreases n,
{
    if n > 0 && !s.done {
        let op = s.request();
        let after = s.absorb(answer(t, op, empty_response()));
        law_absorb_keeps_rest(t, s);
        lemma_stream_value(s.end, s.resume() is Some, s.page);
        let hits = first_page(stream_pairs(t, op), s.page);
        assert(after.buf == s.buf + hits);
        if s.end == Some(Seq::<u8>::empty()) {
            let set = stream_set(t, op);
            assert forall|k: Seq<u8>| !set.contains(k) by {
                assert(!crate::bytes::lex_lt(k, Seq::empty()));
            }
            assert(set =~= Set::empty());
            crate::engine::storage::lemma_finite_listing(set);
            let ks = crate::engine::storage::ordered(set);
            if ks.len() > 0 {
                assert(set.contains(ks[0]));
            }
            assert(after.done);
        }
        lemma_drained(t, after, (n - 1) as nat);
    }
}

/// The pages of a stream together are the range, on every keyspace that
/// stands still: after as many pages as the range has pairs, and one more,
/// the last has come, and what came is each pair of the range once, in
/// order.
pub proof fn law_pages_are_range(
    t: crate::engine::storage::Contents,
    begin: Seq<u8>,
    end: Option<Seq<u8>>,
    page: u8,
)
    requires
        t.dom().finite(),
    ensures
        ({
            let s = StreamView { begin, end, page, buf: Seq::empty(), cursor: None, done: false };
            let pairs = crate::engine::storage::range_pairs(t, begin, end);
            let all = drained(t, s, pairs.len() + 1);
            &&& all.done
            &&& all.buf == pairs
        }),
{
    let s = StreamView { begin, end, page, buf: Seq::empty(), cursor: None, done: false };
    let pairs = crate::engine::storage::range_pairs(t, begin, end);
    law_stream_starts_whole(t, s);
    lemma_drained(t, s, pairs.len() + 1);
    let all = drained(t, s, pairs.len() + 1);
    if !all.done {
        assert(all.rest(t).len() >= all.buf.len());
    }
}

/// The last write of a key in a frame is what the tenant finds there; a key
/// that no write of the frame names is as it was.
pub proof fn law_last_write_wins(
    t: crate::engine::storage::Contents,
    ops: Seq<OpView>,
    k: Seq<u8>,
)
    ensures
        ({
            let after = crate::engine::storage::apply_ops(t, frame_writes(ops));
            &&& forall|i: int|
                (#[trigger] last_write_of(ops, k, i)) && ops[i].tag is Put
                    ==> after.dom().contains(k) && after[k] == ops[i].value
            &&& forall|i: int|
                (#[trigger] last_write_of(ops, k, i)) && ops[i].tag is Delete
                    ==> !after.dom().contains(k)
            &&& (forall|i: int| 0 <= i < ops.len() ==> !writes_to(#[trigger] ops[i], k))
                ==> crate::engine::storage::same_at(after, t, k)
        }),
    decreases ops.len(),
{
    if ops.len() == 0 {
        assert(frame_writes(ops) =~= Seq::empty());
    } else {
        let init = ops.drop_last();
        let op = ops.last();
        let n = ops.len() - 1;
        let w = frame_writes(ops);
        law_last_write_wins(t, init, k);
        let before = crate::engine::storage::apply_ops(t, frame_writes(init));
        let after = crate::engine::storage::apply_ops(t, w);
        if op.tag is Put || op.tag is Delete {
            assert(w.drop_last() =~= frame_writes(init));
        }
        assert forall|i: int| #[trigger] last_write_of(ops, k, i) && i < n implies last_write_of(
            init,
            k,
            i,
        ) by {
            assert(init[i] == ops[i]);
            assert forall|j: int| i < j < init.len() implies !writes_to(#[trigger] init[j], k) by {
                assert(init[j] == ops[j]);
            }
        }
        assert forall|i: int| #[trigger] last_write_of(ops, k, i) && i < n implies !writes_to(
            op,
            k,
        ) by {
            assert(ops[n] == op);
        }
        if forall|i: int| 0 <= i < ops.len() ==> !writes_to(#[trigger] ops[i], k) {
            assert(!writes_to(ops[n], k));
            assert forall|i: int| 0 <= i < init.len() implies !writes_to(#[trigger] init[i], k) by {
                assert(init[i] == ops[i]);
            }
        }
    }
}

/// An operation that writes this key.
pub open spec fn writes_to(op: OpView, k: Seq<u8>) -> bool {
    (op.tag is Put || op.tag is Delete) && op.key == k
}

/// The operation at this place is the last of a frame that writes this key.
pub open spec fn last_write_of(ops: Seq<OpView>, k: Seq<u8>, i: int) -> bool {
    &&& 0 <= i < ops.len()
    &&& writes_to(ops[i], k)
    &&& forall|j: int| i < j < ops.len() ==> !writes_to(#[trigger] ops[j], k)
}

/// A batch that is sent as a frame arrives as the same writes in the same
/// order, and can be executed.
pub proof fn law_batch_arrives(writes: Seq<(Seq<u8>, Option<Seq<u8>>)>)
    ensures
        frame_writes(batch_frame(writes)) == writes,
        frame_ok(batch_frame(writes)),
    decreases writes.len(),
{
    let ops = batch_frame(writes);
    if writes.len() == 0 {
        assert(ops =~= Seq::empty());
        assert(writes =~= Seq::empty());
    } else {
        law_batch_arrives(writes.drop_last());
        assert(ops.drop_last() =~= batch_frame(writes.drop_last()));
        assert(ops.last() == write_op(writes.last()));
        assert(frame_writes(ops) =~= writes);
    }
}

/// No operation of this kind stands behind the place.
pub open spec fn last_of_kind(ops: Seq<OpView>, i: int) -> bool {
    &&& 0 <= i < ops.len()
    &&& forall|j: int| i < j < ops.len() ==> (#[trigger] ops[j]).tag != ops[i].tag
}

/// The last query of each kind is answered, whatever else the frame asks: a
/// get with the value under its key, a scan with the keys it covers, a
/// stream with the first pairs it covers. Without a query of a kind there is
/// no answer of that kind.
pub proof fn law_last_query_is_answered(
    t: crate::engine::storage::Contents,
    ops: Seq<OpView>,
    i: int,
)
    requires
        last_of_kind(ops, i),
    ensures
        ({
            let r = answer_all(t, ops);
            &&& ops[i].tag is Get && t.dom().contains(ops[i].key) ==> r.value == Some(
                t[ops[i].key],
            )
            &&& ops[i].tag is Get && !t.dom().contains(ops[i].key) ==> r.value is None
            &&& ops[i].tag is Scan ==> r.suffixes == scan_answer(t, ops[i])
            &&& ops[i].tag is ScanStream ==> r.hits == answer(t, ops[i], empty_response()).hits
                && r.tail == answer(t, ops[i], empty_response()).tail && r.tail is Some
        }),
    decreases ops.len(),
{
    let n = ops.len() - 1;
    if i < n {
        let init = ops.drop_last();
        assert(ops[n].tag != ops[i].tag);
        assert(init[i] == ops[i]);
        assert forall|j: int| i < j < init.len() implies (#[trigger] init[j]).tag
            != init[i].tag by {
            assert(init[j] == ops[j]);
        }
        law_last_query_is_answered(t, init, i);
    }
}

/// Where nothing of a kind is asked, nothing of that kind is answered.
pub proof fn law_unasked_is_unanswered(t: crate::engine::storage::Contents, ops: Seq<OpView>)
    ensures
        (forall|i: int| 0 <= i < ops.len() ==> !((#[trigger] ops[i]).tag is Get)) ==> answer_all(
            t,
            ops,
        ).value is None,
        (forall|i: int| 0 <= i < ops.len() ==> !((#[trigger] ops[i]).tag is Scan)) ==> answer_all(
            t,
            ops,
        ).suffixes.len() == 0,
        (forall|i: int| 0 <= i < ops.len() ==> !((#[trigger] ops[i]).tag is ScanStream))
            ==> answer_all(t, ops).hits.len() == 0 && answer_all(t, ops).tail is None,
    decreases ops.len(),
{
    if ops.len() > 0 {
        let init = ops.drop_last();
        let n = ops.len() - 1;
        law_unasked_is_unanswered(t, init);
        assert(ops[n] == ops.last());
        if forall|i: int| 0 <= i < ops.len() ==> !((#[trigger] ops[i]).tag is Get) {
            assert forall|i: int| 0 <= i < init.len() implies !((#[trigger] init[i]).tag is Get) by {
                assert(init[i] == ops[i]);
            }
        }
        if forall|i: int| 0 <= i < ops.len() ==> !((#[trigger] ops[i]).tag is Scan) {
            assert forall|i: int| 0 <= i < init.len() implies !((
            #[trigger] init[i]).tag is Scan) by {
                assert(init[i] == ops[i]);
            }
        }
        if forall|i: int| 0 <= i < ops.len() ==> !((#[trigger] ops[i]).tag is ScanStream) {
            assert forall|i: int| 0 <= i < init.len() implies !((
            #[trigger] init[i]).tag is ScanStream) by {
                assert(init[i] == ops[i]);
            }
        }
    }
}

/// A page holds the first pairs of what the request covers: as many as the
/// page byte says, 256 for a zero, all of them for 255, and fewer only where
/// there are fewer. The stream ends with a page that is not full, and a page
/// byte of 255 ends it at once.
pub proof fn law_page_is_filled(
    t: crate::engine::storage::Contents,
    op: OpView,
    before: ResponseView,
)
    requires
        op.tag is ScanStream,
        stream_ok(op.value),
    ensures
        ({
            let pairs = stream_pairs(t, op);
            let page = op.value.last();
            let r = answer(t, op, before);
            let full: int = if page == 0 {
                256
            } else {
                page as int
            };
            &&& r.hits.len() <= pairs.len()
            &&& r.hits == pairs.take(r.hits.len() as int)
            &&& page == 255 ==> r.hits == pairs && r.tail == Some(Tail::Final)
            &&& page != 255 && pairs.len() <= full ==> r.hits == pairs
            &&& page != 255 && pairs.len() >= full ==> r.hits.len() == full && r.tail == Some(
                Tail::More,
            )
            &&& page != 255 && pairs.len() < full ==> r.tail == Some(Tail::Final)
            &&& r.value == before.value && r.suffixes == before.suffixes
        }),
{
    let pairs = stream_pairs(t, op);
    assert(pairs.take(pairs.len() as int) =~= pairs);
}

/// What a stream covers are the pairs of the tenant from the begin on, or
/// behind the key where it resumes, up to the end if there is one: each once,
/// ascending, with its value.
pub proof fn law_stream_covers_range(
    t: crate::engine::storage::Contents,
    begin: Seq<u8>,
    end: Option<Seq<u8>>,
    exclusive: bool,
    page: u8,
    k: Seq<u8>,
)
    requires
        t.dom().finite(),
        !(exclusive && end == Some(Seq::<u8>::empty())),
    ensures
        ({
            let op = OpView {
                tag: OpTag::ScanStream,
                key: begin,
                value: stream_value(end, exclusive, page),
            };
            let pairs = stream_pairs(t, op);
            &&& op_ok(op)
            &&& op.value.last() == page
            &&& pairs.contains((k, t[k])) <==> t.dom().contains(k) && (if exclusive {
                crate::bytes::lex_lt(begin, k)
            } else {
                crate::bytes::lex_le(begin, k)
            }) && (end matches Some(e) ==> crate::bytes::lex_lt(k, e))
            &&& forall|i: int, j: int|
                0 <= i < j < pairs.len() ==> crate::bytes::lex_lt(
                    (#[trigger] pairs[i]).0,
                    (#[trigger] pairs[j]).0,
                )
            &&& forall|i: int|
                0 <= i < pairs.len() ==> t.dom().contains((#[trigger] pairs[i]).0) && pairs[i].1
                    == t[pairs[i].0]
        }),
{
    let op = OpView {
        tag: OpTag::ScanStream,
        key: begin,
        value: stream_value(end, exclusive, page),
    };
    lemma_stream_value(end, exclusive, page);
    let set = stream_set(t, op);
    let ks = crate::engine::storage::ordered(set);
    let pairs = stream_pairs(t, op);
    assert(set.subset_of(t.dom()));
    vstd::set_lib::lemma_set_subset_finite(t.dom(), set);
    crate::engine::storage::lemma_finite_listing(set);
    if set.contains(k) {
        assert(ks.contains(k));
        let i = choose|i: int| 0 <= i < ks.len() && ks[i] == k;
        assert(pairs[i] == (k, t[k]));
    }
    if pairs.contains((k, t[k])) {
        let i = choose|i: int| 0 <= i < pairs.len() && pairs[i] == (k, t[k]);
        assert(ks[i] == k);
        assert(set.contains(ks[i]));
    }
    assert forall|i: int| 0 <= i < pairs.len() implies t.dom().contains((#[trigger] pairs[i]).0)
        && pairs[i].1 == t[pairs[i].0] by {
        assert(set.contains(ks[i]));
    }
}

/// Writes, gets and scans can always be executed; an unknown operation never,
/// and a stream request only with a known flag and a page byte.
pub proof fn law_executable_operations(op: OpView)
    ensures
        op.tag is Put || op.tag is Delete || op.tag is Get || op.tag is Scan ==> op_ok(op),
        op.tag is Other ==> !op_ok(op),
        op.tag is ScanStream && op.value.len() == 0 ==> !op_ok(op),
        op.tag is ScanStream && op.value.len() > 0 && op.value[0] > 2 ==> !op_ok(op),
        op.tag is ScanStream && op.value.len() == 1 && op.value[0] != 0 ==> !op_ok(op),
        op.tag is ScanStream && op.value.len() >= 2 && op.value[0] <= 2 ==> op_ok(op),
{
}

} // verus!
