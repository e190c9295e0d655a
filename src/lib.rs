//! An embedded document store's core: a JSON to TSON codec with
//! length-prefixed composites, a query parser over TSON, and the key layout
//! that namespaces collections inside an ordered key-value store.

pub mod tags;
pub mod cursor;
pub mod parsed;
pub mod tokens;
pub mod error;
pub mod json;
pub mod tson;
pub mod roundtrip;
pub mod framing;
pub mod keys;
pub mod query;
pub mod extender;
