//! An in-memory engine: the pairs in one list, sorted by key.

use vstd::prelude::*;

use crate::bytes::{bytes_eq, bytes_lt, to_vec};
use crate::engine::storage::VirtualStorage;

verus! {

/// The pairs of a list read as a map.
spec fn entries_map(e: Seq<(Vec<u8>, Vec<u8>)>) -> crate::engine::storage::Contents {
    Map::new(
        |k: Seq<u8>| exists|i: int| 0 <= i < e.len() && (#[trigger] e[i]).0@ == k,
        |k: Seq<u8>| e[choose|i: int| 0 <= i < e.len() && (#[trigger] e[i]).0@ == k].1@,
    )
}

/// The keys of the list strictly ascend.
spec fn entries_sorted(e: Seq<(Vec<u8>, Vec<u8>)>) -> bool {
    forall|i: int, j: int|
        0 <= i < j < e.len() ==> crate::bytes::lex_lt((#[trigger] e[i]).0@, (#[trigger] e[j]).0@)
}

proof fn lemma_entry_unique(e: Seq<(Vec<u8>, Vec<u8>)>, i: int, j: int)
    requires
        entries_sorted(e),
        0 <= i < e.len(),
        0 <= j < e.len(),
        e[i].0@ == e[j].0@,
    ensures
        i == j,
{
    crate::bytes::lemma_lex_irreflexive(e[i].0@);
}

/// An in-memory ordered map.
pub struct MemStore {
    entries: Vec<(Vec<u8>, Vec<u8>)>,
}

impl MemStore {
    #[verifier::type_invariant]
    spec fn sorted(&self) -> bool {
        entries_sorted(self.entries@)
    }

    /// An empty store.
    pub fn new() -> (r: Self)
        ensures
            r.contents() == Map::<Seq<u8>, Seq<u8>>::empty(),
    {
        let r = MemStore { entries: Vec::new() };
        assert(r.contents() =~= Map::<Seq<u8>, Seq<u8>>::empty());
        r
    }

    /// How many keys sort before `key`.
    fn rank(&self, key: &[u8]) -> (r: usize)
        ensures
            r <= self.entries@.len(),
            forall|i: int|
                0 <= i < r ==> crate::bytes::lex_lt((#[trigger] self.entries@[i]).0@, key@),
            forall|i: int|
                r <= i < self.entries@.len() ==> crate::bytes::lex_le(
                    key@,
                    (#[trigger] self.entries@[i]).0@,
                ),
    {
        proof {
            use_type_invariant(self);
        }
        let mut lo: usize = 0;
        let mut hi: usize = self.entries.len();
        while lo < hi
            invariant
                lo <= hi <= self.entries@.len(),
                entries_sorted(self.entries@),
                forall|i: int|
                    0 <= i < lo ==> crate::bytes::lex_lt((#[trigger] self.entries@[i]).0@, key@),
                forall|i: int|
                    hi <= i < self.entries@.len() ==> crate::bytes::lex_le(
                        key@,
                        (#[trigger] self.entries@[i]).0@,
                    ),
            decreases hi - lo,
        {
            let mid: usize = lo + (hi - lo) / 2;
            let ghost e = self.entries@;
            let ghost km = e[mid as int].0@;
            if bytes_lt(self.entries[mid].0.as_slice(), key) {
                proof {
                    assert forall|i: int| 0 <= i < mid + 1 implies crate::bytes::lex_lt(
                        (#[trigger] e[i]).0@,
                        key@,
                    ) by {
                        if i < mid {
                            crate::bytes::lemma_lex_transitive(e[i].0@, km, key@);
                        }
                    }
                }
                lo = mid + 1;
            } else {
                proof {
                    crate::bytes::lemma_lex_total(km, key@);
                    assert forall|i: int| mid <= i < e.len() implies crate::bytes::lex_le(
                        key@,
                        (#[trigger] e[i]).0@,
                    ) by {
                        if i > mid {
                            crate::bytes::lemma_lex_le_lt(key@, km, e[i].0@);
                        }
                    }
                }
                hi = mid;
            }
        }
        lo
    }
}

impl VirtualStorage for MemStore {
    closed spec fn contents(&self) -> crate::engine::storage::Contents {
        entries_map(self.entries@)
    }

    open spec fn never_refuses() -> bool {
        true
    }

    fn put(&mut self, key: Vec<u8>, value: Vec<u8>) {
        proof {
            use_type_invariant(&*self);
        }
        let at: usize = self.rank(key.as_slice());
        let mut entries: Vec<(Vec<u8>, Vec<u8>)> = Vec::new();
        std::mem::swap(&mut entries, &mut self.entries);
        let ghost e = entries@;
        let ghost n = e.len();
        if at < entries.len() && bytes_eq(entries[at].0.as_slice(), key.as_slice()) {
            let ghost pair = (key, value);
            entries.set(at, (key, value));
            proof {
                let f = entries@;
                assert forall|k: Seq<u8>| #[trigger] entries_map(f).dom().contains(k) <==> entries_map(e).insert(pair.0@, pair.1@).dom().contains(k) by {
                    if entries_map(f).dom().contains(k) {
                        let i = choose|i: int| 0 <= i < f.len() && (#[trigger] f[i]).0@ == k;
                        assert(e[i].0@ == k);
                    }
                    if entries_map(e).dom().contains(k) {
                        let i = choose|i: int| 0 <= i < e.len() && (#[trigger] e[i]).0@ == k;
                        assert(f[i].0@ == k);
                    }
                    assert(f[at as int].0@ == pair.0@);
                }
                assert forall|k: Seq<u8>| #[trigger] entries_map(f).dom().contains(k) implies entries_map(f)[k] == entries_map(e).insert(pair.0@, pair.1@)[k] by {
                    let i = choose|i: int| 0 <= i < f.len() && (#[trigger] f[i]).0@ == k;
                    assert(e[i].0@ == k);
                    let j = choose|j: int| 0 <= j < e.len() && (#[trigger] e[j]).0@ == k;
                    lemma_entry_unique(e, i, j);
                    if k == pair.0@ {
                        lemma_entry_unique(e, i, at as int);
                    }
                }
                assert(entries_map(f) =~= entries_map(e).insert(pair.0@, pair.1@));
            }
        } else {
            let ghost pair = (key, value);
            entries.insert(at, (key, value));
            proof {
                let f = entries@;
                assert forall|i: int| at <= i < n implies crate::bytes::lex_lt(
                    pair.0@,
                    (#[trigger] e[i]).0@,
                ) by {
                    if i > at {
                        crate::bytes::lemma_lex_le_lt(pair.0@, e[at as int].0@, e[i].0@);
                    }
                }
                assert(entries_sorted(f)) by {
                    assert forall|i: int, j: int| 0 <= i < j < f.len() implies crate::bytes::lex_lt(
                        (#[trigger] f[i]).0@,
                        (#[trigger] f[j]).0@,
                    ) by {
                        let a = if i < at { i } else { i - 1 };
                        let b = if j < at { j } else { j - 1 };
                        if i != at {
                            assert(f[i] == e[a]);
                        }
                        if j != at {
                            assert(f[j] == e[b]);
                        }
                    }
                }
                assert(!entries_map(e).dom().contains(pair.0@)) by {
                    if entries_map(e).dom().contains(pair.0@) {
                        let i = choose|i: int| 0 <= i < e.len() && (#[trigger] e[i]).0@ == pair.0@;
                        crate::bytes::lemma_lex_irreflexive(pair.0@);
                    }
                }
                assert forall|k: Seq<u8>| #[trigger] entries_map(f).dom().contains(k) <==> entries_map(e).insert(pair.0@, pair.1@).dom().contains(k) by {
                    if entries_map(f).dom().contains(k) {
                        let i = choose|i: int| 0 <= i < f.len() && (#[trigger] f[i]).0@ == k;
                        if i < at {
                            assert(e[i].0@ == k);
                        } else if i > at {
                            assert(e[i - 1].0@ == k);
                        }
                    }
                    if entries_map(e).dom().contains(k) {
                        let i = choose|i: int| 0 <= i < e.len() && (#[trigger] e[i]).0@ == k;
                        if i < at {
                            assert(f[i].0@ == k);
                        } else {
                            assert(f[i + 1].0@ == k);
                        }
                    }
                    assert(f[at as int].0@ == pair.0@);
                }
                assert forall|k: Seq<u8>| #[trigger] entries_map(f).dom().contains(k) implies entries_map(f)[k] == entries_map(e).insert(pair.0@, pair.1@)[k] by {
                    let i = choose|i: int| 0 <= i < f.len() && (#[trigger] f[i]).0@ == k;
                    if k == pair.0@ {
                        lemma_entry_unique(f, i, at as int);
                    } else {
                        let j = choose|j: int| 0 <= j < e.len() && (#[trigger] e[j]).0@ == k;
                        let i2 = if i < at { i } else { i - 1 };
                        assert(e[i2] == f[i]);
                        lemma_entry_unique(e, i2, j);
                    }
                }
                assert(entries_map(f) =~= entries_map(e).insert(pair.0@, pair.1@));
            }
        }
        self.entries = entries;
    }

    fn get(&self, key: &[u8]) -> (r: Option<Vec<u8>>) {
        proof {
            use_type_invariant(self);
        }
        let at: usize = self.rank(key);
        let ghost e = self.entries@;
        if at < self.entries.len() && bytes_eq(self.entries[at].0.as_slice(), key) {
            proof {
                let i = choose|i: int| 0 <= i < e.len() && (#[trigger] e[i]).0@ == key@;
                lemma_entry_unique(e, i, at as int);
                assert(self.contents().dom().contains(key@));
            }
            Some(to_vec(self.entries[at].1.as_slice()))
        } else {
            proof {
                if self.contents().dom().contains(key@) {
                    let i = choose|i: int| 0 <= i < e.len() && (#[trigger] e[i]).0@ == key@;
                    crate::bytes::lemma_lex_irreflexive(key@);
                    if i > at {
                        crate::bytes::lemma_lex_le_lt(key@, e[at as int].0@, e[i].0@);
                    }
                }
            }
            None
        }
    }

    fn del(&mut self, key: &[u8]) {
        proof {
            use_type_invariant(&*self);
        }
        let at: usize = self.rank(key);
        let mut entries: Vec<(Vec<u8>, Vec<u8>)> = Vec::new();
        std::mem::swap(&mut entries, &mut self.entries);
        let ghost e = entries@;
        if at < entries.len() && bytes_eq(entries[at].0.as_slice(), key) {
            let _ = entries.remove(at);
            proof {
                let f = entries@;
                assert(entries_sorted(f)) by {
                    assert forall|i: int, j: int| 0 <= i < j < f.len() implies crate::bytes::lex_lt(
                        (#[trigger] f[i]).0@,
                        (#[trigger] f[j]).0@,
                    ) by {
                        assert(f[i] == e[if i < at { i } else { i + 1 }]);
                        assert(f[j] == e[if j < at { j } else { j + 1 }]);
                    }
                }
                assert forall|k: Seq<u8>| #[trigger] entries_map(f).dom().contains(k) <==> entries_map(e).remove(key@).dom().contains(k) by {
                    if entries_map(f).dom().contains(k) {
                        let i = choose|i: int| 0 <= i < f.len() && (#[trigger] f[i]).0@ == k;
                        let i2 = if i < at { i } else { i + 1 };
                        assert(e[i2].0@ == k);
                        if k == key@ {
                            lemma_entry_unique(e, i2, at as int);
                        }
                    }
                    if entries_map(e).remove(key@).dom().contains(k) {
                        let i = choose|i: int| 0 <= i < e.len() && (#[trigger] e[i]).0@ == k;
                        assert(i != at);
                        assert(f[if i < at { i } else { i - 1 }].0@ == k);
                    }
                }
                assert forall|k: Seq<u8>| #[trigger] entries_map(f).dom().contains(k) implies entries_map(f)[k] == entries_map(e).remove(key@)[k] by {
                    let i = choose|i: int| 0 <= i < f.len() && (#[trigger] f[i]).0@ == k;
                    let i2 = if i < at { i } else { i + 1 };
                    assert(e[i2] == f[i]);
                    let j = choose|j: int| 0 <= j < e.len() && (#[trigger] e[j]).0@ == k;
                    lemma_entry_unique(e, i2, j);
                }
                assert(entries_map(f) =~= entries_map(e).remove(key@));
            }
        } else {
            proof {
                if entries_map(e).dom().contains(key@) {
                    let i = choose|i: int| 0 <= i < e.len() && (#[trigger] e[i]).0@ == key@;
                    crate::bytes::lemma_lex_irreflexive(key@);
                    if i > at {
                        crate::bytes::lemma_lex_le_lt(key@, e[at as int].0@, e[i].0@);
                    }
                }
                assert(entries_map(e) =~= entries_map(e).remove(key@));
            }
        }
        self.entries = entries;
    }

    fn scan_range(&self, begin: &[u8], end: Option<&[u8]>) -> (r: Vec<Vec<u8>>) {
        proof {
            use_type_invariant(self);
        }
        let start: usize = self.rank(begin);
        let stop: usize = match end {
            Some(e) => self.rank(e),
            None => self.entries.len(),
        };
        let mut out: Vec<Vec<u8>> = Vec::new();
        let mut i: usize = start;
        let ghost e = self.entries@;
        while i < stop
            invariant
                start <= i,
                start <= stop ==> i <= stop,
                start > stop ==> i == start,
                stop <= self.entries@.len(),
                e == self.entries@,
                out@.len() == i - start,
                forall|j: int| 0 <= j < out@.len() ==> (#[trigger] out@[j])@ == e[start + j].0@,
            decreases stop - i,
        {
            out.push(to_vec(self.entries[i].0.as_slice()));
            i = i + 1;
        }
        proof {
            let ks = crate::engine::storage::views(out@);
            let m = self.contents();
            let bound = crate::engine::storage::bound_view(end);
            let set = crate::engine::storage::range_set(m, begin@, bound);
            assert forall|j: int| 0 <= j < ks.len() implies set.contains(#[trigger] ks[j]) by {
                let k = e[start + j].0@;
                assert(ks[j] == out@[j]@);
                assert(m.dom().contains(k));
            }
            assert forall|a: int, b: int| 0 <= a < b < ks.len() implies crate::bytes::lex_lt(
                ks[a],
                ks[b],
            ) by {
                assert(ks[a] == out@[a]@ && ks[b] == out@[b]@);
                assert(crate::bytes::lex_lt(e[start + a].0@, e[start + b].0@));
            }
            assert forall|k: Seq<u8>| #[trigger] set.contains(k) implies ks.contains(k) by {
                assert(m.dom().contains(k));
                let i = choose|i: int| 0 <= i < e.len() && (#[trigger] e[i]).0@ == k;
                if i < start {
                    crate::bytes::lemma_lex_asymmetric(e[i].0@, begin@);
                }
                if bound is Some && i >= stop {
                    crate::bytes::lemma_lex_asymmetric(k, bound->0);
                }
                assert(start <= i < stop);
                assert(out@[i - start]@ == k);
                assert(ks[i - start] == k);
            }
        }
        out
    }
}

} // verus!
