//! Field wrappers: newtypes that change how a field is written.

pub mod enum_tag;
pub mod offset;
pub mod optional;
pub mod quant;
pub mod ref_mod;
pub mod refs;
pub mod varint;
pub mod wire;
