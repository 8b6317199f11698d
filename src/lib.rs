//! Turns nested JSON values into single-level objects whose keys spell the
//! path to each scalar.
pub mod codec;
pub mod flatten;
pub mod join;
pub mod laws;
pub mod serde_types;
pub mod value;

pub use codec::{flatten_from_str, flatten_from_value};
pub use flatten::Flattener;
pub use join::{Joiner, KeyJoin};
pub use value::JsonValue;
