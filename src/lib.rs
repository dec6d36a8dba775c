//! An approximate-nearest-neighbour index over a Vamana proximity graph, with
//! interchangeable node stores: in memory, a fixed-record disk image, and a
//! tiered store of memtables over the disk image.
//!
//! Vectors are held as the IEEE-754 bit patterns of their `f32` coordinates,
//! so that every store keeps them bit-exact; the distance kernel is supplied
//! by the caller as a function on those bit patterns.

pub mod any_store;
pub mod codec;
pub mod disk;
pub mod error;
pub mod fresh_disk;
pub mod graph;
pub mod inmem;
pub mod node;
mod random;
pub mod storage;

pub use any_store::{new_index_storage, AnyStorage, StorageKind};
pub use disk::NaiveDisk;
pub use error::Error;
pub use fresh_disk::FreshDisk;
pub use graph::{Alpha, Graph};
pub use inmem::InMemStorage;
pub use node::Node;
pub use storage::{DataStore, GraphStorage};
