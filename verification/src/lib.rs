//! A dynamically typed, dot-path addressable JSON value tree.
//!
//! A [`JSON`] owns one parsed [`JsonValue`] and supports reading the node at a
//! dot-delimited path (`get`) and replacing the node at such a path in
//! place (`update`). A path segment addresses an object field by name or a
//! sequence element by base-10 index; which of the two is decided by the
//! node met at that point, never by the segment's own shape.

pub mod codec;
pub mod path;
pub mod tree;
pub mod value;

pub use tree::JSON;
pub use value::{JsonVal, ParseError, UpdErr, UpdateError, JsonValue};
