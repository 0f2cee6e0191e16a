//! Ordered containers backed by contiguous storage.
//!
//! [`OrdSet`] is a set that keeps its elements in order in a vector and finds
//! them by binary search. The other modules hold what it is built from:
//! [`order`] the order on elements, [`sorted`] ordered sequences, [`search`]
//! the binary search, [`edits`] what the operations of a set do to its
//! sequence, [`sorting`] what it means to sort one, and [`compare`] how two
//! sets stand to each other.

pub mod compare;
pub mod edits;
pub mod ord_set;
pub mod order;
pub mod search;
pub mod sorted;
pub mod sorting;

pub use ord_set::OrdSet;
