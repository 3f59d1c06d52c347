use std::collections::HashSet;
use std::hash::Hash;

use hnsw_itu::BitSet;
use hnsw_itu::GenerationSet;
use hnsw_itu::MinK;
use hnsw_itu::SimpleGraph;

fn unordered_eq<T, I1, I2>(a: I1, b: I2) -> bool
where
    T: Eq + Hash,
    I1: IntoIterator<Item = T>,
    I2: IntoIterator<Item = T>,
{
    let a: HashSet<_> = a.into_iter().collect();
    let b: HashSet<_> = b.into_iter().collect();

    a == b
}

#[test]
fn test_bitset() {
    let mut set = BitSet::new(100);
    set.insert(3);
    set.insert(93);
    assert!(set.contains(3));
    assert!(set.contains(93));
    assert!(!set.contains(67));
    assert!(!set.contains(29));
    assert!(!set.contains(30));

    set.reset();

    assert!(!set.contains(3));
    assert!(!set.contains(93));
}

#[test]
fn test_generationset() {
    let mut set = GenerationSet::new(100);
    set.insert(3usize);
    set.insert(93usize);
    assert!(set.contains(3usize));
    assert!(set.contains(93usize));
    assert!(!set.contains(67usize));
    assert!(!set.contains(29usize));
    assert!(!set.contains(30usize));
    set.reset();
    assert!(!set.contains(3usize));
    assert!(!set.contains(93usize));
    assert!(!set.contains(67usize));
    assert!(!set.contains(29usize));
    assert!(!set.contains(30usize));
}

#[test]
fn test_min_k() {
    let mut v = vec![0, 9, 1, 8, 2, 7, 3, 6, 4, 5, 5, 4, 6, 3, 7, 2, 8, 1, 9, 0];
    v = v.min_k(5);
    v.sort();
    assert_eq!(v, vec![0, 0, 1, 1, 2]);
}

#[test]
fn test_add() {
    let mut graph = SimpleGraph::new();
    let ten = graph.add(10);
    let two = graph.add(2);
    assert_eq!(graph.size(), 2);
    graph.add_edge(ten, two);
    assert!(graph.is_connected(two, ten));
}

#[test]
fn test_is_connected() {
    let mut graph = SimpleGraph::from_points((0..2).collect());
    assert!(!graph.is_connected(0, 1));
    graph.add_edge(0, 1);
    assert!(graph.is_connected(0, 1));
}

#[test]
fn test_neighborhood() {
    let mut graph = SimpleGraph::from_points((0..10).collect());
    for i in 1..6 {
        graph.add_edge(0, i);
    }
    assert!(unordered_eq(graph.neighborhood(0), 1..6));
}

#[test]
fn test_clear_edges() {
    let mut graph = SimpleGraph::from_points((0..10).collect());
    for i in 1..6 {
        graph.add_edge(0, i);
    }
    for i in 2..6 {
        graph.add_edge(1, i);
    }
    assert!(unordered_eq(graph.neighborhood(0), 1..6));
    assert!(unordered_eq(graph.neighborhood(1), vec![0, 2, 3, 4, 5]));

    graph.clear_edges(1);
    assert!(unordered_eq(graph.neighborhood(0), 2..6));
    assert!(unordered_eq(graph.neighborhood(1), vec![]));
}

#[test]
fn generation_set_reuse() {
    let mut set = GenerationSet::new(10);
    for round in 0..5 {
        set.insert(round);
        assert!(set.contains(round));
        set.reset();
        assert!(!set.contains(round));
    }
}
