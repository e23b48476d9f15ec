use dungeon_gen::rng::Rng;

#[test]
fn deterministic() {
    let mut a = Rng::new(42);
    let mut b = Rng::new(42);
    for _ in 0..1000 {
        assert_eq!(a.next_u64(), b.next_u64());
    }
}

#[test]
fn different_seeds_diverge() {
    let mut a = Rng::new(1);
    let mut b = Rng::new(2);
    assert!(!(0..10).all(|_| a.next_u64() == b.next_u64()));
}

#[test]
fn next_usize_in_range() {
    let mut rng = Rng::new(99);
    for _ in 0..1000 {
        assert!(rng.next_usize(7) < 7);
    }
}

#[test]
fn shuffle_is_permutation() {
    let mut rng = Rng::new(7);
    let mut v: Vec<u32> = (0..20).collect();
    let original = v.clone();
    rng.shuffle(&mut v);
    let mut sorted = v.clone();
    sorted.sort();
    assert_eq!(sorted, original);
}

// xoshiro256** seeded through splitmix64: reference outputs.
#[test]
fn xoshiro_reference_outputs() {
    let mut rng = Rng::new(0);
    assert_eq!(rng.next_u64(), 0x99ec5f36cb75f2b4);
    assert_eq!(rng.next_u64(), 0xbf6e1f784956452a);
    let mut rng = Rng::new(42);
    assert_eq!(rng.next_u64(), 0x15780b2e0c2ec716);
}

#[test]
fn next_unit_is_top_53_bits() {
    let mut a = Rng::new(123);
    let mut b = Rng::new(123);
    let raw = a.next_u64();
    assert_eq!(b.next_unit(), raw >> 11);
}

#[test]
fn chance_below_extremes() {
    let mut rng = Rng::new(5);
    for _ in 0..100 {
        assert!(!rng.chance_below(0));
    }
    for _ in 0..100 {
        assert!(rng.chance_below(1u64 << 53));
    }
}

#[test]
fn next_usize_of_one_is_zero() {
    let mut rng = Rng::new(77);
    for _ in 0..50 {
        assert_eq!(rng.next_usize(1), 0);
    }
}

#[test]
fn shuffle_short_vectors_unchanged() {
    let mut rng = Rng::new(3);
    let mut empty: Vec<u8> = Vec::new();
    rng.shuffle(&mut empty);
    assert!(empty.is_empty());
    let mut one = vec![9u8];
    rng.shuffle(&mut one);
    assert_eq!(one, vec![9u8]);
}

#[test]
fn shuffle_is_fisher_yates_over_next_usize() {
    let mut a = Rng::new(7);
    let mut b = Rng::new(7);
    let mut v: Vec<u32> = (0..20).collect();
    let mut w = v.clone();
    a.shuffle(&mut v);
    for i in (1..w.len()).rev() {
        let j = b.next_usize(i + 1);
        w.swap(i, j);
    }
    assert_eq!(v, w);
    assert_eq!(a.next_u64(), b.next_u64());
}
