//! An in-memory key-value accumulation store.
//!
//! The store maps opaque string keys to accumulated numeric values. Each
//! merge call combines an incoming value with the value already held under
//! the key, using a fixed aggregation rule (`sum` or `set_min`) and a fixed
//! numeric domain (64-bit integer, 64-bit float, arbitrary-precision
//! integer, arbitrary-precision decimal). A key is bound to its domain at
//! first write; a later merge under another domain is refused and leaves
//! the slot unchanged.

pub mod digits;
pub mod value;
pub mod bigops;
pub mod store;
pub mod laws;
