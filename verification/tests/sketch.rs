use hnsw_itu::Point;
use hnsw_itu::Sketch;

#[test]
fn hamming_distance() {
    let a = Sketch::new([0b1111, 0, 0, 0, 0, 0, 0, 0, 0, 0, 0, 0, 0, 0, 0, 0b1001]);
    let b = Sketch::new([0, 0, 0, 0, 0, 0, 0, 0, 0, 0, 0, 0, 0, 0, 0, 0b1011]);

    assert_eq!(a.distance(&b), 5);
}

#[test]
fn sketch_hamming_distance() {
    let a = Sketch::new([0b1111, 0, 0, 0, 0, 0, 0, 0, 0, 0, 0, 0, 0, 0, 0, 0b1001]);
    let b = Sketch::new([0, 0, 0, 0, 0, 0, 0, 0, 0, 0, 0, 0, 0, 0, 0, 0b1011]);

    assert_eq!(a.distance(&b), 5);
}

/// A deterministic pseudo-random word stream for test data.
fn next_word(state: &mut u64) -> u64 {
    *state = state
        .wrapping_mul(6364136223846793005)
        .wrapping_add(1442695040888963407);
    let x = *state;
    x ^ (x >> 29)
}

fn random_sketch(state: &mut u64) -> Sketch {
    let mut data = [0u64; 16];
    for w in data.iter_mut() {
        *w = next_word(state);
    }
    Sketch::new(data)
}

/// A straightforward bit-at-a-time reference for the Hamming distance.
fn reference_distance(a: &Sketch, b: &Sketch) -> usize {
    let mut count = 0usize;
    for i in 0..16 {
        let mut x = a.data[i] ^ b.data[i];
        for _ in 0..64 {
            count += (x & 1) as usize;
            x >>= 1;
        }
    }
    count
}

#[test]
fn distance_kernels_agree() {
    let mut state = 0x5eed_u64;
    for _ in 0..100 {
        let a = random_sketch(&mut state);
        let b = random_sketch(&mut state);
        assert_eq!(a.distance(&b), reference_distance(&a, &b));
        assert_eq!(a.distance(&b), b.distance(&a));
    }
}
