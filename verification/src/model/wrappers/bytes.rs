//! `Bytes`: a field of raw bytes of any length.

use vstd::prelude::*;

use crate::bytes::to_vec;

verus! {

/// Raw bytes.
#[derive(Clone, Debug, PartialEq, Eq)]
pub struct Bytes(pub Vec<u8>);

impl Bytes {
    pub fn new(v: Vec<u8>) -> (r: Self)
        ensures
            r.0 == v,
    {
        Bytes(v)
    }

    /// How many bytes there are.
    pub fn len(&self) -> (r: usize)
        ensures
            r == self.0@.len(),
    {
        self.0.len()
    }

    /// Whether there are no bytes.
    pub fn is_empty(&self) -> (r: bool)
        ensures
            r == (self.0@.len() == 0),
    {
        self.0.len() == 0
    }
}

impl Default for Bytes {
    /// No bytes.
    fn default() -> (r: Self)
        ensures
            r.0@.len() == 0,
    {
        Bytes(Vec::new())
    }
}

impl From<Vec<u8>> for Bytes {
    fn from(v: Vec<u8>) -> (r: Self)
        ensures
            r.0 == v,
    {
        Bytes(v)
    }
}

impl vstd::std_specs::convert::FromSpecImpl<Vec<u8>> for Bytes {
    open spec fn obeys_from_spec() -> bool {
        true
    }

    open spec fn from_spec(v: Vec<u8>) -> Self {
        Bytes(v)
    }
}

impl From<&[u8]> for Bytes {
    fn from(v: &[u8]) -> (r: Self)
        ensures
            r.0@ == v@,
    {
        Bytes(to_vec(v))
    }
}

impl vstd::std_specs::convert::FromSpecImpl<&[u8]> for Bytes {
    open spec fn obeys_from_spec() -> bool {
        false
    }

    open spec fn from_spec(v: &[u8]) -> Self {
        arbitrary()
    }
}

impl std::ops::Deref for Bytes {
    type Target = Vec<u8>;

    fn deref(&self) -> (r: &Vec<u8>)
        ensures
            *r == self.0,
    {
        &self.0
    }
}

} // verus!
