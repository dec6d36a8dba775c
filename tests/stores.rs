use std::collections::HashSet;
use vdb::{new_index_storage, AnyStorage, DataStore, Error, GraphStorage, InMemStorage, StorageKind};

fn bits(v: &[f32]) -> Vec<u32> {
    v.iter().map(|x| x.to_bits()).collect()
}

fn set(v: &[u32]) -> HashSet<u32> {
    v.iter().copied().collect()
}

fn stores_of(dim: u16) -> Vec<AnyStorage> {
    vec![
        new_index_storage(StorageKind::InMem, dim, 3),
        new_index_storage(StorageKind::PureDisk, dim, 3),
        new_index_storage(StorageKind::FreshDisk, dim, 3),
    ]
}

fn all_stores() -> Vec<AnyStorage> {
    stores_of(2)
}

#[test]
fn two_points_two_dimensions() {
    let mut store = InMemStorage::new();
    let ids = store.add_nodes(&vec![bits(&[1.0, 2.0]), bits(&[3.0, 4.0])]).unwrap();
    assert_eq!(ids, vec![1, 2]);
    store.set_connections(1, &vec![2]).unwrap();
    store.set_connections(2, &vec![1]).unwrap();
    let n1 = store.get_node(1).unwrap();
    let n2 = store.get_node(2).unwrap();
    assert_eq!(n1.vector, bits(&[1.0, 2.0]));
    assert_eq!(set(&n1.connected), set(&[2]));
    assert_eq!(n2.vector, bits(&[3.0, 4.0]));
    assert_eq!(set(&n2.connected), set(&[1]));
}

#[test]
fn adding_zero_nodes_is_a_no_op() {
    for mut store in all_stores() {
        let ids = store.add_nodes(&vec![]).unwrap();
        assert!(ids.is_empty());
        assert!(store.get_all_node_indexes().unwrap().is_empty());
        assert!(store.get_random_node().is_none());
    }
}

#[test]
fn get_zero_is_invalid_on_every_store() {
    for mut store in all_stores() {
        store.add_nodes(&vec![bits(&[1.0, 2.0])]).unwrap();
        assert!(matches!(store.get_node(0), Err(Error::InvalidInput(_))));
    }
}

#[test]
fn unknown_id_is_not_found() {
    for mut store in all_stores() {
        store.add_nodes(&vec![bits(&[1.0, 2.0])]).unwrap();
        assert!(matches!(store.get_node(2), Err(Error::NotFound(2))));
        assert!(matches!(store.set_connections(9, &vec![1]), Err(Error::NotFound(9))));
    }
}

#[test]
fn neighbour_set_over_the_cap_fails_and_keeps_state() {
    for mut store in all_stores() {
        store
            .add_nodes(&vec![
                bits(&[1.0, 1.0]),
                bits(&[2.0, 2.0]),
                bits(&[3.0, 3.0]),
                bits(&[4.0, 4.0]),
                bits(&[5.0, 5.0]),
            ])
            .unwrap();
        store.set_connections(1, &vec![2, 3]).unwrap();
        let r = store.set_connections(1, &vec![2, 3, 4, 5]);
        assert!(matches!(r, Err(Error::InvalidInput(_))));
        assert_eq!(set(&store.get_node(1).unwrap().connected), set(&[2, 3]));
    }
}

#[test]
fn reserved_id_in_a_neighbour_set_is_invalid() {
    for mut store in all_stores() {
        store.add_nodes(&vec![bits(&[1.0, 1.0]), bits(&[2.0, 2.0])]).unwrap();
        assert!(matches!(store.set_connections(1, &vec![0, 2]), Err(Error::InvalidInput(_))));
        assert!(matches!(store.set_connections(0, &vec![2]), Err(Error::InvalidInput(_))));
    }
}

#[test]
fn duplicate_neighbours_count_once() {
    for mut store in all_stores() {
        store.add_nodes(&vec![bits(&[1.0, 1.0]), bits(&[2.0, 2.0])]).unwrap();
        store.set_connections(1, &vec![2, 2, 2, 2]).unwrap();
        assert_eq!(store.get_node(1).unwrap().connected, vec![2]);
    }
}

#[test]
fn vectors_round_trip_bit_exact() {
    let odd = [f32::MIN_POSITIVE, -0.0, 1.0e-40, f32::MAX];
    for mut store in stores_of(4) {
        let ids = store.add_nodes(&vec![bits(&odd), bits(&[1.5, 2.5, 3.5, 4.5])]).unwrap();
        assert_eq!(store.get_node(ids[0]).unwrap().vector, bits(&odd));
        assert_eq!(store.get_node(ids[1]).unwrap().vector, bits(&[1.5, 2.5, 3.5, 4.5]));
    }
}

#[test]
fn wrong_vector_length_is_invalid() {
    for mut store in all_stores() {
        store.add_nodes(&vec![bits(&[1.0, 1.0])]).unwrap();
        let r = store.add_nodes(&vec![bits(&[1.0, 1.0]), bits(&[1.0, 2.0, 3.0])]);
        assert!(matches!(r, Err(Error::InvalidInput(_))));
        assert_eq!(store.get_all_node_indexes().unwrap(), vec![1]);
    }
}

#[test]
fn all_nodes_snapshot() {
    for mut store in all_stores() {
        store.add_nodes(&vec![bits(&[1.0, 1.0]), bits(&[2.0, 2.0])]).unwrap();
        store.set_connections(2, &vec![1]).unwrap();
        let all = store.get_all_nodes().unwrap();
        assert_eq!(all.len(), 2);
        assert_eq!(all[&2].vector, bits(&[2.0, 2.0]));
        assert_eq!(all[&2].connected, vec![1]);
        assert!(all[&1].connected.is_empty());
    }
}

#[test]
fn store_names_and_kinds() {
    assert_eq!(new_index_storage(StorageKind::InMem, 2, 3).get_name(), "InMemStorage");
    assert_eq!(new_index_storage(StorageKind::PureDisk, 2, 3).get_name(), "NaiveDisk");
    assert_eq!(new_index_storage(StorageKind::FreshDisk, 2, 3).get_name(), "FreshDisk");
    let mut s = new_index_storage(StorageKind::PureDisk, 2, 3);
    assert_eq!(s.add_nodes(&vec![bits(&[1.0, 2.0])]).unwrap(), vec![1]);
    assert_eq!(s.get_node(1).unwrap().vector, bits(&[1.0, 2.0]));
}

#[test]
fn random_node_is_a_stored_one() {
    for mut store in all_stores() {
        store.add_nodes(&vec![bits(&[1.0, 1.0]), bits(&[2.0, 2.0]), bits(&[3.0, 3.0])]).unwrap();
        let n = store.get_random_node().unwrap();
        assert!((1..=3).contains(&n.id));
        assert_eq!(n.vector, store.get_node(n.id).unwrap().vector);
    }
}

#[test]
fn payloads_are_kept() {
    let mut store = InMemStorage::new();
    store.add_data(3, "three".to_string()).unwrap();
    store.add_data(3, "drei".to_string()).unwrap();
    assert_eq!(store.get_data(3), Some("drei".to_string()));
    assert_eq!(store.get_data(4), None);
}
