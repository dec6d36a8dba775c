use crate::disk::NaiveDisk;
use crate::error::Error;
use crate::fresh_disk::FreshDisk;
use crate::inmem::InMemStorage;
use crate::node::{Node, NodeView};
use crate::storage::GraphStorage;
use std::collections::HashMap;
use vstd::prelude::*;

verus! {

/// The node store back-ends.
#[derive(Clone, Copy, Debug, PartialEq, Eq, Structural)]
pub enum StorageKind {
    /// Nodes in memory.
    InMem,
    /// Nodes in fixed records of a disk image.
    PureDisk,
    /// Memtables over a disk image.
    FreshDisk,
}

/// A node store of any back-end, chosen at run time.
pub enum AnyStorage {
    InMem(InMemStorage),
    PureDisk(NaiveDisk),
    FreshDisk(FreshDisk),
}

/// An empty store of the chosen back-end, for vectors of `dimensions`
/// words and neighbour sets of at most `max_neighbour_count` ids.
pub fn new_index_storage(storage_type: StorageKind, dimensions: u16, max_neighbour_count: u8) -> (r:
    AnyStorage)
    ensures
        r.inv(),
        r.nodes() == Map::<u32, NodeView>::empty(),
        r.next_id() == 1,
        r.max_degree() == max_neighbour_count,
        r.kind() == storage_type,
{
    match storage_type {
        StorageKind::InMem => AnyStorage::InMem(
            InMemStorage::with_max_neighbour_count(max_neighbour_count),
        ),
        StorageKind::PureDisk => AnyStorage::PureDisk(NaiveDisk::new(dimensions, max_neighbour_count)),
        StorageKind::FreshDisk => AnyStorage::FreshDisk(FreshDisk::new(dimensions, max_neighbour_count)),
    }
}

impl AnyStorage {
    /// The back-end in use.
    pub open spec fn kind(&self) -> StorageKind {
        match self {
            AnyStorage::InMem(_) => StorageKind::InMem,
            AnyStorage::PureDisk(_) => StorageKind::PureDisk,
            AnyStorage::FreshDisk(_) => StorageKind::FreshDisk,
        }
    }
}

impl GraphStorage for AnyStorage {
    open spec fn nodes(&self) -> Map<u32, NodeView> {
        match self {
            AnyStorage::InMem(s) => s.nodes(),
            AnyStorage::PureDisk(s) => s.nodes(),
            AnyStorage::FreshDisk(s) => s.nodes(),
        }
    }

    open spec fn next_id(&self) -> nat {
        match self {
            AnyStorage::InMem(s) => s.next_id(),
            AnyStorage::PureDisk(s) => s.next_id(),
            AnyStorage::FreshDisk(s) => s.next_id(),
        }
    }

    open spec fn max_degree(&self) -> nat {
        match self {
            AnyStorage::InMem(s) => s.max_degree(),
            AnyStorage::PureDisk(s) => s.max_degree(),
            AnyStorage::FreshDisk(s) => s.max_degree(),
        }
    }

    open spec fn accepts(&self, batch: Seq<Seq<u32>>) -> bool {
        match self {
            AnyStorage::InMem(s) => s.accepts(batch),
            AnyStorage::PureDisk(s) => s.accepts(batch),
            AnyStorage::FreshDisk(s) => s.accepts(batch),
        }
    }

    open spec fn store_name(&self) -> Seq<char> {
        match self {
            AnyStorage::InMem(s) => s.store_name(),
            AnyStorage::PureDisk(s) => s.store_name(),
            AnyStorage::FreshDisk(s) => s.store_name(),
        }
    }

    open spec fn inv(&self) -> bool {
        match self {
            AnyStorage::InMem(s) => s.inv(),
            AnyStorage::PureDisk(s) => s.inv(),
            AnyStorage::FreshDisk(s) => s.inv(),
        }
    }

    proof fn lemma_inv(&self) {
        match self {
            AnyStorage::InMem(s) => s.lemma_inv(),
            AnyStorage::PureDisk(s) => s.lemma_inv(),
            AnyStorage::FreshDisk(s) => s.lemma_inv(),
        }
    }

    fn add_nodes(&mut self, data: &Vec<Vec<u32>>) -> (r: Result<Vec<u32>, Error>) {
        match self {
            AnyStorage::InMem(s) => s.add_nodes(data),
            AnyStorage::PureDisk(s) => s.add_nodes(data),
            AnyStorage::FreshDisk(s) => s.add_nodes(data),
        }
    }

    fn get_node(&self, node_id: u32) -> (r: Result<Node, Error>) {
        match self {
            AnyStorage::InMem(s) => s.get_node(node_id),
            AnyStorage::PureDisk(s) => s.get_node(node_id),
            AnyStorage::FreshDisk(s) => s.get_node(node_id),
        }
    }

    fn set_connections(&mut self, node_index: u32, connections: &Vec<u32>) -> (r: Result<(), Error>) {
        match self {
            AnyStorage::InMem(s) => s.set_connections(node_index, connections),
            AnyStorage::PureDisk(s) => s.set_connections(node_index, connections),
            AnyStorage::FreshDisk(s) => s.set_connections(node_index, connections),
        }
    }

    fn get_random_node(&self) -> (r: Option<Node>) {
        match self {
            AnyStorage::InMem(s) => s.get_random_node(),
            AnyStorage::PureDisk(s) => s.get_random_node(),
            AnyStorage::FreshDisk(s) => s.get_random_node(),
        }
    }

    fn get_all_node_indexes(&self) -> (r: Result<Vec<u32>, Error>) {
        match self {
            AnyStorage::InMem(s) => s.get_all_node_indexes(),
            AnyStorage::PureDisk(s) => s.get_all_node_indexes(),
            AnyStorage::FreshDisk(s) => s.get_all_node_indexes(),
        }
    }

    fn get_all_nodes(&self) -> (r: Result<HashMap<u32, Node>, Error>) {
        match self {
            AnyStorage::InMem(s) => s.get_all_nodes(),
            AnyStorage::PureDisk(s) => s.get_all_nodes(),
            AnyStorage::FreshDisk(s) => s.get_all_nodes(),
        }
    }

    fn get_name(&self) -> (r: String) {
        match self {
            AnyStorage::InMem(s) => s.get_name(),
            AnyStorage::PureDisk(s) => s.get_name(),
            AnyStorage::FreshDisk(s) => s.get_name(),
        }
    }
}

} // verus!
