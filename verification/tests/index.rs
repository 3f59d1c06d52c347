use std::collections::HashSet;
use std::hash::Hash;

use hnsw_itu::Bruteforce;
use hnsw_itu::Distance;
use hnsw_itu::GridPoint;
use hnsw_itu::Point;
use hnsw_itu::Sketch;
use hnsw_itu::HNSW;
use hnsw_itu::HNSWBuilder;
use hnsw_itu::NSW;
use hnsw_itu::NSWBuilder;
use hnsw_itu::NSWOptions;

fn unordered_eq<T, I1, I2>(a: I1, b: I2) -> bool
where
    T: Eq + Hash,
    I1: IntoIterator<Item = T>,
    I2: IntoIterator<Item = T>,
{
    let a: HashSet<_> = a.into_iter().collect();
    let b: HashSet<_> = b.into_iter().collect();

    a == b
}

fn options(ef_construction: usize, connections: usize, max_connections: usize, size: usize) -> NSWOptions {
    NSWOptions { ef_construction, connections, max_connections, size }
}

#[test]
fn test_nsw() {
    let k = 4;
    let mut builder = NSWBuilder::new(options(k, 16, 32, 19));

    builder.extend((1..20).collect());

    let nsw = NSW::from_index(builder.build());
    let knns: Vec<i32> = nsw.search(&5, k, k).iter().map(|dist| *dist.point()).collect();
    assert!(unordered_eq(knns, 3..=6));
}

#[test]
fn test_hnsw() {
    let k = 4;
    let mut builder = HNSWBuilder::new(options(k, 3, 32, 20));

    builder.extend((0..20).collect());

    let hnsw = HNSW::from_index(builder.build());
    let knns: Vec<i32> = hnsw.search(&5, k, k).iter().map(|dist| *dist.point()).collect();
    assert!(unordered_eq(knns.clone(), 3..=6) || unordered_eq(knns.clone(), 4..=7));

    let len = hnsw.search(&0, hnsw.size(), hnsw.size()).len();
    assert_eq!(hnsw.size(), len);
}

fn heuristic_candidates(numbers: &[i32], q: i32) -> Vec<Distance<i32>> {
    let mut cands: Vec<Distance<i32>> = numbers
        .iter()
        .map(|x| Distance::new(x.distance(&q), 0, *x))
        .collect();
    cands.sort_by_key(|d| (d.distance, d.key));
    cands
}

#[test]
fn hnsw_test_heuristic() {
    let q = 10;
    let numbers = vec![1, 5, 6, 7, 16, 18];
    let expected = [7, 16];

    let cands = heuristic_candidates(&numbers, q);
    let actual = hnsw_itu::select_neighbors(cands, 3);

    assert!(unordered_eq(
        actual.iter().map(|dist| *dist.point()),
        expected.iter().copied()
    ));
}

#[test]
fn nsw_test_heuristic() {
    let q = 10;
    let numbers = vec![1, 5, 6, 7, 16, 18];
    let expected = [7, 16];

    let cands = heuristic_candidates(&numbers, q);
    let actual = hnsw_itu::select_neighbors(cands, 3);

    assert!(unordered_eq(
        actual.iter().map(|dist| *dist.point()),
        expected.iter().copied()
    ));
}

#[test]
fn empty_index_search() {
    let builder = HNSWBuilder::<i32>::new(options(4, 3, 32, 0));
    let hnsw = HNSW::from_index(builder.build());
    assert!(hnsw.search(&5, 10, 96).is_empty());
    assert!(hnsw.search(&5, 0, 0).is_empty());
    assert!(hnsw.search(&5, 1, 1).is_empty());

    let nbuilder = NSWBuilder::<i32>::new(options(4, 16, 32, 0));
    let nsw = NSW::from_index(nbuilder.build());
    assert!(nsw.search(&5, 7, 3).is_empty());

    let brute = Bruteforce::<i32>::new();
    assert!(brute.search(&5, 10, 10).is_empty());
}

#[test]
fn repeated_query_is_deterministic() {
    let mut builder = HNSWBuilder::new(options(8, 4, 8, 50));
    builder.extend((0..50).collect());
    let hnsw = HNSW::from_index(builder.build());

    let a: Vec<(usize, usize)> = hnsw.search(&17, 5, 8).iter().map(|d| (d.distance, d.key)).collect();
    let b: Vec<(usize, usize)> = hnsw.search(&17, 5, 8).iter().map(|d| (d.distance, d.key)).collect();
    assert_eq!(a, b);
}

#[test]
fn adjacency_invariants_after_build() {
    let mut builder = NSWBuilder::new(options(8, 4, 8, 60));
    builder.extend((0..60).collect());
    let index = builder.build();

    let adj = index.graph.adj_lists();
    let n = adj.len();
    assert_eq!(n, 60);
    for v in 0..n {
        // degree bound: within the hard cap
        assert!(adj[v].len() <= 8);
        for &w in &adj[v] {
            // no self-loops, in bounds, symmetric
            assert_ne!(w as usize, v);
            assert!((w as usize) < n);
            assert!(adj[w as usize].contains(&(v as u32)));
        }
        // no duplicates
        let set: HashSet<u32> = adj[v].iter().copied().collect();
        assert_eq!(set.len(), adj[v].len());
    }
}

#[test]
fn lattice_query() {
    let mut points = Vec::new();
    for x in 0..10u8 {
        for y in 0..10u8 {
            for z in 0..10u8 {
                points.push(GridPoint::new(x, y, z));
            }
        }
    }
    let mut builder = HNSWBuilder::new(options(48, 8, 16, 1000));
    builder.extend(points);
    let hnsw = HNSW::from_index(builder.build());

    let res = hnsw.search(&GridPoint::new(2, 4, 16), 10, 20);
    assert_eq!(res.len(), 10);
    let mut dists: Vec<usize> = res.iter().map(|d| d.distance).collect();
    dists.sort();
    assert_eq!(dists, vec![49, 50, 50, 50, 50, 51, 51, 51, 51, 53]);
    for d in &res {
        let p = d.point();
        assert_eq!(p.z, 9);
    }
}

fn next_word(state: &mut u64) -> u64 {
    *state = state
        .wrapping_mul(6364136223846793005)
        .wrapping_add(1442695040888963407);
    let x = *state;
    x ^ (x >> 29)
}

fn random_sketch(state: &mut u64) -> Sketch {
    let mut data = [0u64; 16];
    for w in data.iter_mut() {
        *w = next_word(state);
    }
    Sketch::new(data)
}

#[test]
fn brute_force_recall() {
    let mut state = 42u64;
    let sketches: Vec<Sketch> = (0..1000).map(|_| random_sketch(&mut state)).collect();
    let queries: Vec<Sketch> = (0..10).map(|_| random_sketch(&mut state)).collect();

    let brute = Bruteforce::from_points(sketches.clone());
    let mut builder = HNSWBuilder::new(options(96, 16, 32, 1000));
    builder.extend(sketches);
    let hnsw = HNSW::from_index(builder.build());

    let k = 100;
    let mut matched = 0usize;
    for q in &queries {
        let truth: HashSet<usize> = brute.search(q, k, k).iter().map(|d| d.key).collect();
        let got = hnsw.search(q, k, 256);
        matched += got.iter().filter(|d| truth.contains(&d.key)).count();
    }
    // at least 90 of 100 positions on average across the queries
    assert!(matched >= 90 * queries.len(), "matched {matched}");
}

#[test]
fn serial_vs_batched_build() {
    let mut state = 42u64;
    let sketches: Vec<Sketch> = (0..300).map(|_| random_sketch(&mut state)).collect();
    let queries: Vec<Sketch> = (0..10).map(|_| random_sketch(&mut state)).collect();

    let brute = Bruteforce::from_points(sketches.clone());

    let mut serial = NSWBuilder::new(options(48, 8, 16, 300));
    serial.extend(sketches.clone());
    let serial = NSW::from_index(serial.build());

    let mut batched = NSWBuilder::new(options(48, 8, 16, 300));
    batched.extend_batch(sketches);
    let batched = NSW::from_index(batched.build());

    let k = 10;
    let mut serial_hits = 0usize;
    let mut batched_hits = 0usize;
    for q in &queries {
        let truth: HashSet<usize> = brute.search(q, k, k).iter().map(|d| d.key).collect();
        serial_hits += serial
            .search(q, k, 64)
            .iter()
            .filter(|d| truth.contains(&d.key))
            .count();
        batched_hits += batched
            .search(q, k, 64)
            .iter()
            .filter(|d| truth.contains(&d.key))
            .count();
    }
    // serial recall@10 must be at least the batched recall minus five
    // percentage points; 100 positions in all, so five points are five
    // positions
    assert!(
        serial_hits + 5 >= batched_hits,
        "serial {serial_hits}, batched {batched_hits}"
    );
}

#[test]
fn hnsw_batched_build() {
    let mut state = 7u64;
    let sketches: Vec<Sketch> = (0..300).map(|_| random_sketch(&mut state)).collect();
    let queries: Vec<Sketch> = (0..5).map(|_| random_sketch(&mut state)).collect();

    let brute = Bruteforce::from_points(sketches.clone());
    let mut builder = HNSWBuilder::new(options(48, 8, 16, 300));
    builder.extend_batch(sketches);
    assert_eq!(builder.size(), 300);
    let hnsw = HNSW::from_index(builder.build());
    assert_eq!(hnsw.size(), 300);

    let k = 10;
    let mut hits = 0usize;
    for q in &queries {
        let truth: HashSet<usize> = brute.search(q, k, k).iter().map(|d| d.key).collect();
        hits += hnsw
            .search(q, k, 64)
            .iter()
            .filter(|d| truth.contains(&d.key))
            .count();
    }
    // the batched pipeline still builds a usable graph
    assert!(hits >= 35, "hits {hits}");
}

#[test]
fn brute_full_query_returns_every_node_once() {
    let brute = Bruteforce::from_points((0..25).collect::<Vec<i32>>());
    let res = brute.search(&7, 25, 25);
    assert_eq!(res.len(), 25);
    let keys: HashSet<usize> = res.iter().map(|d| d.key).collect();
    assert_eq!(keys.len(), 25);
    assert!(keys.iter().all(|&k| k < 25));
}

#[test]
fn results_sorted_by_distance_then_key() {
    let mut builder = NSWBuilder::new(options(8, 4, 8, 40));
    builder.extend((0..40).collect());
    let nsw = NSW::from_index(builder.build());
    let res = nsw.search(&20, 10, 16);
    for w in res.windows(2) {
        assert!(
            (w[0].distance, w[0].key) < (w[1].distance, w[1].key),
            "results out of order"
        );
    }
}

#[test]
fn serialize_round_trip() {
    let mut state = 9u64;
    let sketches: Vec<Sketch> = (0..120).map(|_| random_sketch(&mut state)).collect();
    let queries: Vec<Sketch> = (0..8).map(|_| random_sketch(&mut state)).collect();

    let mut builder = HNSWBuilder::new(options(32, 6, 12, 120));
    builder.extend(sketches);
    let index = builder.build();

    let words = hnsw_itu::encode_index(&index);
    let decoded = hnsw_itu::decode_index(&words).expect("an encoding must decode");

    let original = HNSW::from_index(index);
    let restored = HNSW::from_index(decoded);
    assert_eq!(original.size(), restored.size());
    for q in &queries {
        let a: Vec<(usize, usize)> = original
            .search(q, 10, 32)
            .iter()
            .map(|d| (d.distance, d.key))
            .collect();
        let b: Vec<(usize, usize)> = restored
            .search(q, 10, 32)
            .iter()
            .map(|d| (d.distance, d.key))
            .collect();
        assert_eq!(a, b);
    }

    // malformed input is rejected
    assert!(hnsw_itu::decode_index(&vec![1u64]).is_none());
    let mut cut = words.clone();
    cut.pop();
    assert!(hnsw_itu::decode_index(&cut).is_none());
}

#[test]
fn well_formedness_check() {
    let mut builder = HNSWBuilder::new(options(8, 4, 8, 40));
    builder.extend((0..40).collect::<Vec<i32>>());
    let index = builder.build();
    assert!(index.check_wf());

    // a one-sided edge breaks symmetry (or duplicates an entry);
    // either way the check must reject it
    let mut broken = index;
    broken.base.adj_lists[0].push(1);
    assert!(!broken.check_wf());

    let mut nbuilder = NSWBuilder::new(options(8, 4, 8, 30));
    nbuilder.extend((0..30).collect::<Vec<i32>>());
    let nindex = nbuilder.build();
    assert!(nindex.check_wf());
    let mut nbroken = nindex;
    nbroken.ep = Some(999);
    assert!(!nbroken.check_wf());
}

#[test]
fn sketch_distance_record_accessors() {
    let s = Sketch::new([1, 0, 0, 0, 0, 0, 0, 0, 0, 0, 0, 0, 0, 0, 0, 0]);
    let d = Distance::new(3, 7, s);
    assert_eq!(d.distance(), 3);
    assert_eq!(d.key(), 7);
    assert_eq!(d.sketch().data[0], 1);
}
