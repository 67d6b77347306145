//! Write events: what a table hands to whoever listens.
//!
//! Delivery is best effort. A sink may refuse an event, and without a sink
//! events are dropped; neither fails the write that caused them.

use vstd::prelude::*;

verus! {

/// What a write did.
#[derive(Debug, Clone, Copy, PartialEq, Eq, Structural)]
pub enum Op {
    Put,
    Delete,
}

/// A write, with the key and the row it was about.
#[derive(Debug)]
pub struct Event<K, R> {
    pub op: Op,
    pub key: K,
    pub row: R,
}

impl<K, R> Event<K, R> {
    pub fn new(op: Op, key: K, row: R) -> (r: Self)
        ensures
            r.op == op,
            r.key == key,
            r.row == row,
    {
        Event { op, key, row }
    }
}

/// Where events go. Whether an event is accepted is up to the transport.
pub trait EventSink<E> {
    /// Events that may be offered.
    spec fn takes(&self, event: E) -> bool;

    /// What the sink may answer to an event.
    spec fn answers(&self, event: E, reply: bool) -> bool;

    /// Offers an event; `false` means that it was dropped.
    fn try_send(&self, event: E) -> (r: bool)
        requires
            self.takes(event),
        ensures
            self.answers(event, r),
    ;
}

impl<E, F: Fn(E) -> bool> EventSink<E> for F {
    open spec fn takes(&self, event: E) -> bool {
        call_requires(*self, (event,))
    }

    open spec fn answers(&self, event: E, reply: bool) -> bool {
        call_ensures(*self, (event,), reply)
    }

    fn try_send(&self, event: E) -> (r: bool) {
        self(event)
    }
}

/// Whether an event got through, given what the sink said, if there is one.
pub fn delivered(reply: Option<bool>) -> (r: bool)
    ensures
        r == (reply == Some(true)),
{
    match reply {
        Some(b) => b,
        None => false,
    }
}

/// The sink of one stream of events, once somebody listens.
pub struct ChannelCell<T> {
    sink: Option<T>,
}

impl<T> ChannelCell<T> {
    /// The registered sink.
    pub closed spec fn sink(&self) -> Option<T> {
        self.sink
    }

    /// A stream nobody listens to.
    pub fn new() -> (r: Self)
        ensures
            r.sink() is None,
    {
        ChannelCell { sink: None }
    }

    /// Sends further events to `sink`, in place of any sink before.
    pub fn register(&mut self, sink: T)
        ensures
            final(self).sink() == Some(sink),
    {
        self.sink = Some(sink);
    }

    /// Whether somebody listens.
    pub fn has_sink(&self) -> (r: bool)
        ensures
            r == self.sink() is Some,
    {
        self.sink.is_some()
    }

    /// Offers an event to the sink; without one the event is dropped.
    pub fn emit<E>(&self, event: E) -> (r: bool) where T: EventSink<E>
        requires
            self.sink() is Some ==> self.sink()->0.takes(event),
        ensures
            match self.sink() {
                Some(s) => s.answers(event, r),
                None => !r,
            },
    {
        match &self.sink {
            Some(s) => delivered(Some(s.try_send(event))),
            None => delivered(None),
        }
    }
}

} // verus!
