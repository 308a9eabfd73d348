//! A directory-scoped key-value configuration store.
//!
//! Values are attached to filesystem paths; a lookup from a working
//! directory walks up the ancestor chain of that directory, so values set
//! on deeper paths override values set on shallower ones.  The whole store
//! is kept as one JSON document, read fully into memory and rewritten in
//! full on each mutation.

pub mod config;
pub mod json;
pub mod kvmap;
pub mod paths;
pub mod projector;
pub mod store;
pub mod strings;
