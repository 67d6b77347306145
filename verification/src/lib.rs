//! Object-keyspace mapping over ordered key-value engines.

pub mod access;
pub mod arrow_bridge;
pub mod bindings;
pub mod bytes;
pub mod cell;
pub mod collection;
pub mod edge;
pub mod engine;
pub mod field;
pub mod index;
pub mod junction;
pub mod key;
pub mod model;
pub mod obj_dynamic;
pub mod payload;
pub mod remote;
pub mod reverse;
pub mod rows;
pub mod schema;
pub mod subscribe;
pub mod table;
pub mod text;
pub mod tooling;
pub mod users;
pub mod wrappers;
