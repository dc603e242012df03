//! Small associative containers that find their keys by a linear scan:
//! a map and a set, each growable or of a fixed size.
//!
//! Every container is modelled by the sequence of what it stores, in storage
//! order. A key is found by the key type's own `==`; the contracts speak of it
//! through [`keys::same_key`].

pub mod keys;
pub mod map;
pub mod set;
mod storage;

pub use map::{ConstantFlatMap, FlatMap, FlatMapEntry};
pub use set::{ConstantFlatSet, FlatSet};
