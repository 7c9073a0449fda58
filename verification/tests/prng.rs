//! The random stream.
use polydat::comprehension::strategies::prng::Prng;

#[test]
fn determinism() {
    let mut a = Prng::new(42);
    let mut b = Prng::new(42);
    for _ in 0..100 {
        assert_eq!(a.next_u64(), b.next_u64());
    }
}

#[test]
fn different_seeds_diverge() {
    let mut a = Prng::new(1);
    let mut b = Prng::new(2);
    let mut differ = false;
    for _ in 0..10 {
        if a.next_u64() != b.next_u64() {
            differ = true;
            break;
        }
    }
    assert!(differ);
}

#[test]
fn different_streams_diverge() {
    let mut a = Prng::with_stream(42, 0);
    let mut b = Prng::with_stream(42, 1);
    let mut differ = false;
    for _ in 0..10 {
        if a.next_u64() != b.next_u64() {
            differ = true;
            break;
        }
    }
    assert!(differ);
}

#[test]
fn bounded_within_range() {
    let mut rng = Prng::new(7);
    for _ in 0..1000 {
        let v = rng.next_bounded(10);
        assert!(v < 10);
    }
}

#[test]
fn shuffle_preserves_elements() {
    let mut rng = Prng::new(123);
    let mut data: Vec<u64> = (0..50).collect();
    rng.shuffle(&mut data);
    let mut sorted = data.clone();
    sorted.sort();
    assert_eq!(sorted, (0..50).collect::<Vec<_>>());
}

#[test]
fn shuffle_deterministic_for_seed() {
    let mut rng1 = Prng::new(42);
    let mut rng2 = Prng::new(42);
    let mut data1: Vec<u64> = (0..20).collect();
    let mut data2: Vec<u64> = (0..20).collect();
    rng1.shuffle(&mut data1);
    rng2.shuffle(&mut data2);
    assert_eq!(data1, data2);
}
