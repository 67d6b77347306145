//! Engines: the storage contract and what runs on top of it.

pub mod mem_store;
pub mod nest;
pub mod storage;
pub mod subspace;
