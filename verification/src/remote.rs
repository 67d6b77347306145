//! Remote storage over separate write and read channels: write frames are
//! committed as they come, read frames are answered.

use vstd::prelude::*;

use crate::bytes::{concat, to_vec};
use crate::engine::nest::{Op, OpTag};
use crate::engine::storage::{MemBatch, VirtualStorage};

verus! {

/// A request on the write channel.
pub struct WriteFrame {
    pub ops: Vec<Op>,
}

impl View for WriteFrame {
    type V = Seq<crate::engine::nest::OpView>;

    open spec fn view(&self) -> Self::V {
        self.ops@.map_values(|op: Op| op@)
    }
}

/// A request on the read channel.
pub enum ReadFrame {
    Get { key: Vec<u8> },
    Scan { prefix: Vec<u8> },
}

/// The answer to a read frame.
pub struct ReadResponse {
    /// The value that a get found.
    pub value: Option<Vec<u8>>,
    /// What follows the prefix in the keys that a scan found.
    pub suffixes: Vec<Vec<u8>>,
}

/// Receiver host: an engine and the prefix that its sender's keys live
/// under.
pub struct StorageHost<S: VirtualStorage> {
    engine: S,
    prefix: Vec<u8>,
}

impl<S: VirtualStorage> StorageHost<S> {
    /// The engine's contents.
    pub closed spec fn contents(&self) -> crate::engine::storage::Contents {
        self.engine.contents()
    }

    /// The declared prefix.
    pub closed spec fn prefix(&self) -> Seq<u8> {
        self.prefix@
    }

    /// Binds a host to its engine and prefix.
    pub fn new(engine: S, prefix: &[u8]) -> (r: Self)
        ensures
            r.contents() == engine.contents(),
            r.prefix() == prefix@,
    {
        StorageHost { engine, prefix: to_vec(prefix) }
    }

    /// Commits the puts and deletes of a write frame as one batch, under the
    /// prefix. Other operations have no place on the write channel and are
    /// dropped. A batch that the engine refuses leaves it as it was.
    pub fn apply_write(&mut self, frame: &WriteFrame)
        ensures
            final(self).prefix() == old(self).prefix(),
            ({
                let after = crate::engine::storage::apply_ops(
                    old(self).contents(),
                    crate::engine::nest::hosted_writes(
                        old(self).prefix(),
                        crate::engine::nest::frame_writes(frame@),
                    ),
                );
                final(self).contents() == after || (!S::never_refuses() && final(self).contents()
                    == old(self).contents())
            }),
    {
        let ghost p = self.prefix();
        let ghost ops = frame@;
        let mut batch = MemBatch::new();
        let mut i: usize = 0;
        assert(batch@ =~= crate::engine::nest::hosted_writes(
            p,
            crate::engine::nest::frame_writes(ops.take(0)),
        ));
        while i < frame.ops.len()
            invariant
                i <= frame.ops@.len(),
                ops == frame@,
                p == self.prefix(),
                *self == *old(self),
                batch@ == crate::engine::nest::hosted_writes(
                    p,
                    crate::engine::nest::frame_writes(ops.take(i as int)),
                ),
            decreases frame.ops@.len() - i,
        {
            let op = &frame.ops[i];
            proof {
                assert(ops.take(i + 1).drop_last() =~= ops.take(i as int));
                assert(ops.take(i + 1).last() == op@);
            }
            match op.tag {
                OpTag::Put => {
                    batch.put(
                        concat(self.prefix.as_slice(), op.key.as_slice()),
                        to_vec(op.value.as_slice()),
                    );
                },
                OpTag::Delete => {
                    let key = concat(self.prefix.as_slice(), op.key.as_slice());
                    batch.del(key.as_slice());
                },
                _ => {},
            }
            assert(batch@ =~= crate::engine::nest::hosted_writes(
                p,
                crate::engine::nest::frame_writes(ops.take(i + 1)),
            ));
            i = i + 1;
        }
        assert(ops.take(i as int) =~= ops);
        let _ = self.engine.commit_batch(batch);
    }

    /// Answers a read frame in the tenant's own keys.
    pub fn apply_read(&self, frame: &ReadFrame) -> (r: ReadResponse)
        ensures
            ({
                let t = crate::engine::subspace::tenant(self.contents(), self.prefix());
                match frame {
                    ReadFrame::Get { key } => crate::engine::storage::opt_view(r.value) == (
                    if t.dom().contains(key@) {
                        Some(t[key@])
                    } else {
                        None
                    }) && r.suffixes@.len() == 0,
                    ReadFrame::Scan { prefix } => crate::engine::storage::views(r.suffixes@)
                        == crate::engine::storage::prefix_suffixes(t, prefix@) && r.value is None,
                }
            }),
    {
        match frame {
            ReadFrame::Get { key } => {
                let full = concat(self.prefix.as_slice(), key.as_slice());
                ReadResponse { value: self.engine.get(full.as_slice()), suffixes: Vec::new() }
            },
            ReadFrame::Scan { prefix } => {
                let full = concat(self.prefix.as_slice(), prefix.as_slice());
                let suffixes = self.engine.scan_suffix(full.as_slice());
                proof {
                    crate::engine::subspace::lemma_tenant_suffixes(
                        self.contents(),
                        self.prefix(),
                        prefix@,
                    );
                }
                ReadResponse { value: None, suffixes }
            },
        }
    }
}

} // verus!
