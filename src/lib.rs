//! A red-black tree over owned nodes, with search, insertion, deletion and
//! an invariant validator, each verified against a map model.
mod kv;
pub mod laws;
mod lemmas;
mod shape;
mod tree;
mod validate;

pub use kv::{Color, Key, KeyValue, KeyValuePtr, Value};
pub use tree::RBTree;
pub use validate::ValidationError;
