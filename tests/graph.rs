use std::collections::HashSet;
use vdb::{Alpha, Error, Graph, GraphStorage, InMemStorage, Node};

fn bits(v: &[f32]) -> Vec<u32> {
    v.iter().map(|x| x.to_bits()).collect()
}

fn l2(a: &Vec<u32>, b: &Vec<u32>) -> i64 {
    let s: f64 = a
        .iter()
        .zip(b.iter())
        .map(|(x, y)| {
            let d = f32::from_bits(*x) as f64 - f32::from_bits(*y) as f64;
            d * d
        })
        .sum();
    s as i64
}

type TestGraph = Graph<InMemStorage, InMemStorage, fn(&Vec<u32>, &Vec<u32>) -> i64>;

fn build(points: &[(f32, f32)], r_init: usize, r_max: u8) -> TestGraph {
    let batch: Vec<(Vec<u32>, String)> =
        points.iter().map(|(x, y)| (bits(&[*x, *y]), format!("{},{}", x, y))).collect();
    Graph::new(
        vec![batch],
        r_init,
        r_max,
        InMemStorage::new(),
        InMemStorage::new(),
        l2 as fn(&Vec<u32>, &Vec<u32>) -> i64,
    )
    .unwrap()
}

fn check_invariants(g: &TestGraph, r_max: usize) {
    let all = g.index_store.get_all_nodes().unwrap();
    for (id, node) in all.iter() {
        assert!(node.connected.len() <= r_max);
        assert!(!node.connected.contains(id));
        let distinct: HashSet<u32> = node.connected.iter().copied().collect();
        assert_eq!(distinct.len(), node.connected.len());
        for n in &node.connected {
            assert!(all.contains_key(n));
        }
    }
}

fn random_points(n: usize) -> Vec<(f32, f32)> {
    // A fixed linear congruential sequence keeps the data reproducible.
    let mut state: u64 = 0x2545_f491_4f6c_dd1d;
    let mut next = || {
        state = state.wrapping_mul(6364136223846793005).wrapping_add(1442695040888963407);
        ((state >> 33) % 2_000_000) as f32 / 1000.0
    };
    (0..n).map(|_| (next(), next())).collect()
}

#[test]
fn new_wires_random_neighbours_within_the_cap() {
    let g = build(&random_points(50), 3, 3);
    check_invariants(&g, 3);
    let all = g.index_store.get_all_node_indexes().unwrap();
    assert_eq!(all.len(), 50);
    let linked = all
        .iter()
        .filter(|id| !g.index_store.get_node(**id).unwrap().connected.is_empty())
        .count();
    assert!(linked > 0);
    assert_eq!(vdb::DataStore::get_data(&g.data_store, 1), Some(format!("{},{}", random_points(50)[0].0, random_points(50)[0].1)));
}

#[test]
fn index_with_cap_plus_one_nodes() {
    let mut g = build(&[(0.0, 0.0), (1.0, 0.0), (0.0, 1.0), (1.0, 1.0)], 3, 3);
    g.index(Alpha { num: 1, den: 1 }).unwrap();
    check_invariants(&g, 3);
    assert_eq!(g.index_store.get_all_node_indexes().unwrap().len(), 4);
}

#[test]
fn robust_prune_drops_occluded_candidates() {
    let mut g = build(&[(0.0, 0.0), (1.0, 0.0), (2.0, 0.0), (0.0, 5.0)], 0, 3);
    let node = g.robust_prune(1, &vec![2, 3, 4], Alpha { num: 1, den: 1 }, 3);
    let got: HashSet<u32> = node.connected.iter().copied().collect();
    assert_eq!(got, [2u32, 4].into_iter().collect());
    assert_eq!(node.connected[0], 2);
    let stored: HashSet<u32> = g.index_store.get_node(1).unwrap().connected.into_iter().collect();
    assert_eq!(stored, got);
    // A looser factor keeps the middle point too.
    let node = g.robust_prune(1, &vec![2, 3, 4], Alpha { num: 5, den: 1 }, 3);
    assert_eq!(node.connected.len(), 3);
    // The cap wins over the factor.
    let node = g.robust_prune(1, &vec![2, 3, 4], Alpha { num: 5, den: 1 }, 1);
    assert_eq!(node.connected, vec![2]);
}

#[test]
fn greedy_search_orders_by_distance() {
    let mut g = build(&[(0.0, 0.0), (1.0, 0.0), (2.0, 0.0), (3.0, 0.0)], 0, 3);
    g.index_store.set_connections(1, &vec![2]).unwrap();
    g.index_store.set_connections(2, &vec![1, 3]).unwrap();
    g.index_store.set_connections(3, &vec![2, 4]).unwrap();
    g.index_store.set_connections(4, &vec![3]).unwrap();
    let (top, visited) = g.greedy_search(1, &bits(&[3.1, 0.0]), 2, 10);
    assert_eq!(top, vec![4, 3]);
    let v: HashSet<u32> = visited.into_iter().collect();
    assert_eq!(v, [1u32, 2, 3, 4].into_iter().collect());
    let (top, _) = g.greedy_search(1, &bits(&[0.0, 0.0]), 1, 1);
    assert_eq!(top, vec![1]);
}

#[test]
fn greedy_search_converges() {
    let points = random_points(500);
    let mut g = build(&points, 5, 5);
    g.index(Alpha { num: 1, den: 1 }).unwrap();
    g.index(Alpha { num: 6, den: 5 }).unwrap();
    check_invariants(&g, 5);

    let q = bits(&[1000.0, 1000.0]);
    let (top, _) = g.greedy_search_random_start(&q, 3, 10);
    assert_eq!(top.len(), 3);

    let mut by_distance: Vec<(i64, u32)> = (1..=500u32)
        .map(|id| (l2(&q, &g.index_store.get_node(id).unwrap().vector), id))
        .collect();
    by_distance.sort();
    let nearest: HashSet<u32> = by_distance.iter().take(10).map(|e| e.1).collect();
    for id in top {
        assert!(nearest.contains(&id));
    }
}

#[test]
fn insert_increases_count() {
    let points = random_points(500);
    let mut g = build(&points, 5, 5);
    g.index(Alpha { num: 1, den: 1 }).unwrap();
    g.index(Alpha { num: 6, den: 5 }).unwrap();
    let before = g.index_store.get_all_node_indexes().unwrap().len();

    let node: Node = g
        .insert(bits(&[1000.0, 1000.0]), "mid".to_string(), 1, Alpha { num: 6, den: 5 }, 10)
        .unwrap();
    assert_eq!(node.id, 501);
    assert_eq!(g.index_store.get_all_node_indexes().unwrap().len(), before + 1);
    assert_eq!(vdb::DataStore::get_data(&g.data_store, 501), Some("mid".to_string()));
    check_invariants(&g, 5);

    let (top, _) = g.greedy_search_random_start(&bits(&[1000.0, 1000.0]), 3, 10);
    assert_eq!(top[0], 501);
}

#[test]
fn insert_of_a_wrong_length_vector_fails() {
    let mut g = build(&[(0.0, 0.0), (1.0, 0.0)], 1, 3);
    let r = g.insert(bits(&[1.0, 2.0, 3.0]), "x".to_string(), 1, Alpha { num: 1, den: 1 }, 10);
    assert!(matches!(r, Err(Error::InvalidInput(_))));
    assert_eq!(g.index_store.get_all_node_indexes().unwrap().len(), 2);
}

#[test]
fn search_on_an_empty_graph_is_empty() {
    let g = build(&[], 3, 3);
    let (top, visited) = g.greedy_search_random_start(&bits(&[1.0, 1.0]), 3, 10);
    assert!(top.is_empty());
    assert!(visited.is_empty());
}

#[test]
fn new_rejects_mixed_dimensions() {
    let batch = vec![(bits(&[1.0, 2.0]), String::new()), (bits(&[1.0]), String::new())];
    let r = Graph::new(
        vec![batch],
        1,
        3,
        InMemStorage::new(),
        InMemStorage::new(),
        l2 as fn(&Vec<u32>, &Vec<u32>) -> i64,
    );
    assert!(matches!(r, Err(Error::InvalidInput(_))));
}

#[test]
fn new_links_come_in_pairs() {
    let g = build(&random_points(60), 4, 4);
    check_invariants(&g, 4);
    let all = g.index_store.get_all_nodes().unwrap();
    for (id, node) in all.iter() {
        for n in &node.connected {
            assert!(all[n].connected.contains(id));
        }
    }
}

#[test]
fn index_keeps_vectors_and_ids() {
    let points = random_points(40);
    let mut g = build(&points, 3, 3);
    g.index(Alpha { num: 6, den: 5 }).unwrap();
    check_invariants(&g, 3);
    for (i, (x, y)) in points.iter().enumerate() {
        assert_eq!(g.index_store.get_node(i as u32 + 1).unwrap().vector, bits(&[*x, *y]));
    }
}

#[test]
fn robust_prune_keeps_the_nearest_first() {
    let mut g = build(&[(0.0, 0.0), (10.0, 0.0), (14.14, 0.0)], 0, 3);
    let node = g.robust_prune(1, &vec![3, 2], Alpha { num: 1, den: 1 }, 3);
    assert_eq!(node.connected, vec![2]);
}
