//! Field wrappers of the data model.

pub mod bytes;
pub mod obj_value;
pub mod varint;
pub mod vector;
