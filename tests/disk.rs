use std::collections::HashSet;
use vdb::{Error, GraphStorage, NaiveDisk, Node};

fn bits(v: &[f32]) -> Vec<u32> {
    v.iter().map(|x| x.to_bits()).collect()
}

fn set(v: &[u32]) -> HashSet<u32> {
    v.iter().copied().collect()
}

#[test]
fn disk_test_add_nodes_and_get_node() {
    let mut disk_storage = NaiveDisk::new(2, 3);
    let ids = disk_storage.add_nodes(&vec![bits(&[1.0, 2.0]), bits(&[3.0, 4.0])]).unwrap();
    assert_eq!(ids, vec![1, 2]);
    disk_storage.set_connections(1, &vec![2u32]).unwrap();
    disk_storage.set_connections(2, &vec![1u32]).unwrap();

    let retrieved_node1 = disk_storage.get_node(1).unwrap();
    let retrieved_node2 = disk_storage.get_node(2).unwrap();

    assert_eq!(1, retrieved_node1.id);
    assert_eq!(bits(&[1.0, 2.0]), retrieved_node1.vector);
    assert_eq!(set(&[2]), set(&retrieved_node1.connected));

    assert_eq!(2, retrieved_node2.id);
    assert_eq!(bits(&[3.0, 4.0]), retrieved_node2.vector);
    assert_eq!(set(&[1]), set(&retrieved_node2.connected));
}

#[test]
fn test_set_node_and_get_node() {
    let mut disk_storage = NaiveDisk::new(2, 3);
    let node = Node { id: 5, vector: bits(&[5.0, 6.0]), connected: Vec::new() };
    disk_storage.set_node(&node).unwrap();

    let retrieved_node = disk_storage.get_node(5).unwrap();

    assert_eq!(5, retrieved_node.id);
    assert_eq!(bits(&[5.0, 6.0]), retrieved_node.vector);
    assert!(retrieved_node.connected.is_empty());
    // The slots below it are empty.
    assert!(matches!(disk_storage.get_node(3), Err(Error::NotFound(3))));
    assert_eq!(disk_storage.get_all_node_indexes().unwrap(), vec![5]);
}

#[test]
fn test_get_all_node_indexes() {
    let mut disk_storage = NaiveDisk::new(2, 3);
    let _ = disk_storage.add_nodes(&vec![bits(&[1.0, 2.0]), bits(&[3.0, 4.0])]).unwrap();

    let node_indexes = disk_storage.get_all_node_indexes().unwrap();
    assert_eq!(node_indexes.len(), 2);
    assert!(node_indexes.contains(&1));
    assert!(node_indexes.contains(&2));
}

#[test]
fn disk_store_round_trip_through_image() {
    let mut disk = NaiveDisk::new(2, 3);
    let ids = disk
        .add_nodes(&vec![bits(&[1.0, 2.0]), bits(&[4.0, 5.0]), bits(&[7.0, 8.0])])
        .unwrap();
    assert_eq!(ids, vec![1, 2, 3]);
    disk.set_connections(1, &vec![2, 3]).unwrap();
    disk.set_connections(2, &vec![1, 3]).unwrap();
    disk.set_connections(3, &vec![1, 2]).unwrap();

    let image = disk.image();
    assert_eq!(image.len(), 79);

    let reopened = NaiveDisk::open(2, 3, &image).unwrap();
    let mut all = reopened.get_all_node_indexes().unwrap();
    all.sort();
    assert_eq!(all, vec![1, 2, 3]);
    for id in 1..=3u32 {
        let a = disk.get_node(id).unwrap();
        let b = reopened.get_node(id).unwrap();
        assert_eq!(a.id, b.id);
        assert_eq!(a.vector, b.vector);
        assert_eq!(set(&a.connected), set(&b.connected));
    }
    assert_eq!(set(&reopened.get_node(1).unwrap().connected), set(&[2, 3]));
    assert_eq!(reopened.get_node(3).unwrap().vector, bits(&[7.0, 8.0]));
    assert_eq!(reopened.image(), image);
}

#[test]
fn empty_disk_store_image() {
    let disk = NaiveDisk::new(2, 3);
    let image = disk.image();
    assert_eq!(image.len(), 7);
    let reopened = NaiveDisk::open(2, 3, &image).unwrap();
    assert!(reopened.get_all_node_indexes().unwrap().is_empty());
}

#[test]
fn image_layout_is_big_endian() {
    let mut disk = NaiveDisk::new(2, 3);
    disk.add_nodes(&vec![bits(&[1.0, 2.0])]).unwrap();
    let image = disk.image();
    assert_eq!(&image[0..7], &[0, 2, 3, 0, 0, 0, 2]);
    assert_eq!(&image[7..11], &[0, 0, 0, 1]);
    assert_eq!(&image[11..15], &1.0f32.to_be_bytes());
    assert_eq!(&image[15..19], &2.0f32.to_be_bytes());
    assert_eq!(&image[19..31], &[0u8; 12]);
}

#[test]
fn layout_offsets() {
    let disk = NaiveDisk::new(2, 3);
    assert_eq!(disk.index_metadata_size(), 7);
    assert_eq!(disk.index_node_id_size(), 4);
    assert_eq!(disk.index_node_vector_element_size(), 4);
    assert_eq!(disk.index_node_size(), 24);
    assert_eq!(disk.node_offset(1), 7);
    assert_eq!(disk.node_offset(3), 55);
    assert_eq!(disk.node_connections_offset(1), 19);
    assert_eq!(disk.node_connections_offset(2), 43);
}

#[test]
fn open_rejects_mismatch_and_bad_length() {
    let mut disk = NaiveDisk::new(2, 3);
    disk.add_nodes(&vec![bits(&[1.0, 2.0])]).unwrap();
    let image = disk.image();
    assert!(matches!(NaiveDisk::open(3, 3, &image), Err(Error::InvalidInput(_))));
    assert!(matches!(NaiveDisk::open(2, 4, &image), Err(Error::InvalidInput(_))));
    let mut short = image.clone();
    short.pop();
    assert!(matches!(NaiveDisk::open(2, 3, &short), Err(Error::InvalidInput(_))));
    let mut foreign = image.clone();
    foreign[10] = 9;
    assert!(matches!(NaiveDisk::open(2, 3, &foreign), Err(Error::InvalidInput(_))));
    assert!(matches!(NaiveDisk::open(2, 3, &vec![0, 2]), Err(Error::InvalidInput(_))));
}

#[test]
fn set_node_rejects_bad_nodes() {
    let mut disk = NaiveDisk::new(2, 3);
    let zero = Node { id: 0, vector: bits(&[1.0, 2.0]), connected: vec![] };
    assert!(matches!(disk.set_node(&zero), Err(Error::InvalidInput(_))));
    let short = Node { id: 1, vector: bits(&[1.0]), connected: vec![] };
    assert!(matches!(disk.set_node(&short), Err(Error::InvalidInput(_))));
    let wide = Node { id: 1, vector: bits(&[1.0, 2.0]), connected: vec![2, 3, 4, 5] };
    assert!(matches!(disk.set_node(&wide), Err(Error::InvalidInput(_))));
    assert_eq!(disk.image().len(), 7);
}
