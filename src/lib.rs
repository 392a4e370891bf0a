//! Encoder from an instance tree with typed properties into the event stream
//! of a versioned XML model document.
pub mod variant;
pub mod reflection;
pub mod order;
pub mod dom;
pub mod shared_strings;
pub mod serializer;
