//! The data model: documents, graphs, dictionaries and dynamic values.

pub mod collection;
pub mod document;
pub mod dynamic_collection;
pub mod graph;
pub mod index;
pub mod obj_dict;
pub mod obj_dynamic;
pub mod wrappers;
