use std::collections::HashSet;
use vdb::{FreshDisk, GraphStorage};

fn bits(v: &[f32]) -> Vec<u32> {
    v.iter().map(|x| x.to_bits()).collect()
}

fn set(v: &[u32]) -> HashSet<u32> {
    v.iter().copied().collect()
}

#[test]
fn fresh_disk_test_add_nodes_and_get_node() {
    let mut fresh_disk = FreshDisk::new(2, 3);
    let ids = fresh_disk.add_nodes(&vec![bits(&[1.0, 2.0]), bits(&[3.0, 4.0])]).unwrap();

    assert_eq!(ids, vec![1, 2]);
    fresh_disk.set_connections(1, &vec![2u32]).unwrap();
    fresh_disk.set_connections(2, &vec![1u32]).unwrap();

    let retrieved_node1 = fresh_disk.get_node(1).unwrap();
    let retrieved_node2 = fresh_disk.get_node(2).unwrap();

    assert_eq!(1, retrieved_node1.id);
    assert_eq!(bits(&[1.0, 2.0]), retrieved_node1.vector);
    assert_eq!(set(&[2]), set(&retrieved_node1.connected));

    assert_eq!(2, retrieved_node2.id);
    assert_eq!(bits(&[3.0, 4.0]), retrieved_node2.vector);
    assert_eq!(set(&[1]), set(&retrieved_node2.connected));
}

#[test]
fn tiered_store_visibility() {
    let mut store = FreshDisk::new(2, 3);
    store.add_nodes(&vec![bits(&[1.0, 2.0]), bits(&[3.0, 4.0])]).unwrap();
    store.set_connections(1, &vec![2]).unwrap();
    assert_eq!(set(&store.get_node(1).unwrap().connected), set(&[2]));

    let more: Vec<Vec<u32>> = (0..11_000).map(|i| bits(&[i as f32, 1.0])).collect();
    store.add_nodes(&more).unwrap();
    assert!(store.pending_flushes() >= 1);
    assert_eq!(set(&store.get_node(1).unwrap().connected), set(&[2]));

    store.flush_frozen();
    assert_eq!(store.pending_flushes(), 0);
    assert_eq!(set(&store.get_node(1).unwrap().connected), set(&[2]));
    assert_eq!(store.get_node(1).unwrap().vector, bits(&[1.0, 2.0]));
    assert_eq!(store.get_all_node_indexes().unwrap().len(), 11_002);

    // A later update in the writable memtable hides the flushed one.
    store.set_connections(1, &vec![3]).unwrap();
    assert_eq!(set(&store.get_node(1).unwrap().connected), set(&[3]));
    let on_disk = store.long_term_store().get_node(1).unwrap();
    assert_eq!(set(&on_disk.connected), set(&[2]));
}

#[test]
fn tiered_store_anchor_is_id_one() {
    let mut store = FreshDisk::new(2, 3);
    assert!(store.get_random_node().is_none());
    store.add_nodes(&vec![bits(&[1.0, 2.0]), bits(&[3.0, 4.0])]).unwrap();
    assert_eq!(store.get_random_node().unwrap().id, 1);
}
