use vstd::prelude::*;

pub mod binaryheap;
pub mod hashing;
pub mod laws;
pub mod order;
pub mod records;
pub mod table;

pub use binaryheap::BinaryHeap;
pub use binaryheap::HeapKind;
