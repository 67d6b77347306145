//! `Ref<D, K>`: a document embedded by its key.
//!
//! Only the key is stored in the parent. A document that is carried along is
//! written under that key when the parent is written; without one the parent
//! refers to a document that exists already.

use vstd::prelude::*;

use crate::key::KeyEncode;

verus! {

/// A document embedded by its key.
#[derive(Clone, Debug, PartialEq)]
pub struct Ref<D, K: KeyEncode> {
    /// The key of the embedded document.
    pub key: K,
    /// The embedded document, to be written or as it was read.
    pub value: Option<D>,
}

impl<D, K: KeyEncode> Ref<D, K> {
    /// Refers to a document that exists already.
    pub fn ref_key(key: K) -> (r: Self)
        ensures
            r.key == key,
            r.value is None,
    {
        Ref { key, value: None }
    }

    /// Refers to a document that exists already.
    pub fn from_key(key: K) -> (r: Self)
        ensures
            r.key == key,
            r.value is None,
    {
        Ref { key, value: None }
    }

    /// Carries a document along.
    pub fn own(key: K, value: D) -> (r: Self)
        ensures
            r.key == key,
            r.value == Some(value),
    {
        Ref { key, value: Some(value) }
    }

    /// What is stored in the parent: the key.
    pub fn encode_key(&self) -> (r: Vec<u8>)
        ensures
            r@ == self.key.bytes(),
    {
        self.key.encode()
    }
}

} // verus!
