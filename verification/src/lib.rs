//! A live inventory of the storage that the UDisks2 service knows: drives,
//! the block devices that hang under them, and the partitions of each table.
//!
//! The crate decides and remembers; it never talks to the service itself. The
//! [`classifier`] tells from the interfaces an object advertises what part it
//! plays. The [`store`] holds the inventory and keeps it whole while objects
//! arrive and leave in any order. The [`tracker`] turns notifications and the
//! answers of the service into changes of the store. The [`tree`] is what
//! readers get. What the store does is stated over the sequences of the
//! [`model`], and what holds of it whatever happens is proved in [`laws`].

pub mod classifier;
pub mod gateway;
pub mod laws;
pub mod lookup;
pub mod model;
pub mod order;
pub mod records;
pub mod seqs;
pub mod store;
pub mod tracker;
pub mod tree;
pub mod wellformed;
