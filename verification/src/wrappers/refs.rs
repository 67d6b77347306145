//! `Refs<D, K>`: a list of documents embedded by their keys.
//!
//! Only the keys are stored in the parent. Each document that is carried
//! along is written under its key when the parent is written.

use vstd::prelude::*;

use crate::key::KeyEncode;

verus! {

/// A list of documents embedded by their keys, one value slot per key.
#[derive(Clone, Debug, PartialEq)]
pub struct Refs<D, K: KeyEncode> {
    /// The keys, in list order.
    pub keys: Vec<K>,
    /// The documents, to be written or as they were read.
    pub values: Vec<Option<D>>,
}

impl<D, K: KeyEncode> Refs<D, K> {
    /// There is a value slot for each key.
    pub open spec fn wf(&self) -> bool {
        self.keys@.len() == self.values@.len()
    }

    /// Refers to documents that exist already.
    pub fn new(keys: Vec<K>) -> (r: Self)
        ensures
            r.wf(),
            r.keys == keys,
            forall|i: int| 0 <= i < r.values@.len() ==> (#[trigger] r.values@[i]) is None,
    {
        let mut values: Vec<Option<D>> = Vec::new();
        let mut i: usize = 0;
        while i < keys.len()
            invariant
                i <= keys@.len(),
                values@.len() == i,
                forall|j: int| 0 <= j < i ==> (#[trigger] values@[j]) is None,
            decreases keys@.len() - i,
        {
            values.push(None);
            i = i + 1;
        }
        Refs { keys, values }
    }

    /// Carries all documents along.
    pub fn own_all(keys: Vec<K>, values: Vec<D>) -> (r: Self)
        requires
            keys@.len() == values@.len(),
        ensures
            r.wf(),
            r.keys == keys,
            r.values@ == values@.map_values(|d: D| Some(d)),
    {
        let ghost all = values@;
        let ghost wrap = |d: D| Some(d);
        let mut left = values;
        let mut turned: Vec<D> = Vec::new();
        // Values move out of the list from its end; turn it round first.
        while left.len() > 0
            invariant
                left@ + turned@.reverse() == all,
            decreases left@.len(),
        {
            let ghost l0 = left@;
            let ghost t0 = turned@;
            if let Some(d) = left.pop() {
                turned.push(d);
                proof {
                    assert(l0 =~= left@.push(d));
                    assert(t0.push(d).reverse() =~= seq![d] + t0.reverse());
                    assert(left@ + turned@.reverse() =~= l0 + t0.reverse());
                }
            }
        }
        let mut out: Vec<Option<D>> = Vec::new();
        let ghost mut done: Seq<D> = Seq::empty();
        proof {
            assert(left@ =~= Seq::empty());
            assert(done + turned@.reverse() =~= all);
            assert(out@ =~= done.map_values(wrap));
        }
        while turned.len() > 0
            invariant
                wrap == (|d: D| Some(d)),
                done + turned@.reverse() == all,
                out@ == done.map_values(wrap),
            decreases turned@.len(),
        {
            let ghost t0 = turned@;
            let ghost before = done;
            let ghost out0 = out@;
            if let Some(d) = turned.pop() {
                out.push(Some(d));
                proof {
                    assert(t0 =~= turned@.push(d));
                    assert(t0.reverse() =~= seq![d] + turned@.reverse());
                    done = before.push(d);
                    assert(done + turned@.reverse() =~= before + t0.reverse());
                    assert(out@ =~= done.map_values(wrap));
                }
            }
        }
        proof {
            assert(turned@.reverse() =~= Seq::empty());
            assert(done =~= all);
        }
        Refs { keys, values: out }
    }

    /// Each key with its document, if one is carried along.
    pub fn from_pairs(pairs: Vec<(K, Option<D>)>) -> (r: Self)
        ensures
            r.wf(),
            r.keys@ == pairs@.map_values(|p: (K, Option<D>)| p.0),
            r.values@ == pairs@.map_values(|p: (K, Option<D>)| p.1),
    {
        let ghost all = pairs@;
        let ghost first = |p: (K, Option<D>)| p.0;
        let ghost second = |p: (K, Option<D>)| p.1;
        let mut left = pairs;
        let mut turned: Vec<(K, Option<D>)> = Vec::new();
        while left.len() > 0
            invariant
                left@ + turned@.reverse() == all,
            decreases left@.len(),
        {
            let ghost l0 = left@;
            let ghost t0 = turned@;
            if let Some(p) = left.pop() {
                turned.push(p);
                proof {
                    assert(l0 =~= left@.push(p));
                    assert(t0.push(p).reverse() =~= seq![p] + t0.reverse());
                    assert(left@ + turned@.reverse() =~= l0 + t0.reverse());
                }
            }
        }
        let mut keys: Vec<K> = Vec::new();
        let mut values: Vec<Option<D>> = Vec::new();
        let ghost mut done: Seq<(K, Option<D>)> = Seq::empty();
        proof {
            assert(left@ =~= Seq::empty());
            assert(done + turned@.reverse() =~= all);
            assert(keys@ =~= done.map_values(first));
            assert(values@ =~= done.map_values(second));
        }
        while turned.len() > 0
            invariant
                first == (|p: (K, Option<D>)| p.0),
                second == (|p: (K, Option<D>)| p.1),
                done + turned@.reverse() == all,
                keys@ == done.map_values(first),
                values@ == done.map_values(second),
            decreases turned@.len(),
        {
            let ghost t0 = turned@;
            let ghost before = done;
            if let Some(p) = turned.pop() {
                proof {
                    assert(t0 =~= turned@.push(p));
                    assert(t0.reverse() =~= seq![p] + turned@.reverse());
                    done = before.push(p);
                    assert(done + turned@.reverse() =~= before + t0.reverse());
                }
                let (k, v) = p;
                keys.push(k);
                values.push(v);
                proof {
                    assert(keys@ =~= done.map_values(first));
                    assert(values@ =~= done.map_values(second));
                }
            }
        }
        proof {
            assert(turned@.reverse() =~= Seq::empty());
            assert(done =~= all);
        }
        Refs { keys, values }
    }
}

} // verus!
