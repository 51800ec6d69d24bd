//! A uniform key-value storage engine: opaque byte keys mapped to opaque byte
//! values, read with `get` and `seek`, changed with `write`, `put` and `delete`.
//!
//! Every engine is described by the map it holds, from byte strings to byte
//! strings, and every operation by what it does to that map.

pub mod engine;
pub mod error;
pub mod factory;
pub mod laws;
pub mod memory;
pub mod model;
pub mod order;

pub use engine::{Engine, Modify};
pub use error::{Error, Fault};
pub use factory::{new_engine, Backend, Descriptor};
pub use memory::MemoryEngine;
pub use order::less;
