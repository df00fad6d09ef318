use bitrag_theorems::prng::XorShift64;
use bitrag_theorems::splitmix::SplitMix64;

#[test]
fn xorshift64_is_deterministic() {
    let mut a = XorShift64::new(0xdead_beef);
    let mut b = XorShift64::new(0xdead_beef);
    for _ in 0..1024 {
        assert_eq!(a.next_u64(), b.next_u64());
    }
}

#[test]
fn xorshift64_first_three_outputs() {
    let mut g = XorShift64::new(1);
    assert_eq!(g.next_u64(), 0x4082_2041);
    let second = g.next_u64();
    let third = g.next_u64();
    let mut h = XorShift64::new(1);
    h.next_u64();
    assert_eq!(h.next_u64(), second);
    assert_eq!(h.next_u64(), third);
}

#[test]
fn xorshift64_never_reaches_zero() {
    let mut g = XorShift64::new(1);
    for _ in 0..100_000 {
        assert_ne!(g.next_u64(), 0);
    }
}

#[test]
fn xorshift64_next_u32_is_low_half() {
    let mut a = XorShift64::new(77);
    let mut b = XorShift64::new(77);
    for _ in 0..100 {
        assert_eq!(a.next_u32(), b.next_u64() as u32);
    }
}

#[test]
fn xorshift64_gen_range_is_high_product() {
    let mut a = XorShift64::new(123);
    let mut b = XorShift64::new(123);
    for n in [1u64, 2, 3, 10, 1000, u64::MAX] {
        let r = a.gen_range(n);
        let x = b.next_u64();
        assert_eq!(r, ((x as u128 * n as u128) >> 64) as u64);
        assert!(r < n);
    }
    assert_eq!(XorShift64::new(1).gen_range(1), 0);
}

#[test]
fn splitmix_is_deterministic() {
    let mut a = SplitMix64::new(42);
    let mut b = SplitMix64::new(42);
    for _ in 0..100 {
        assert_eq!(a.next_u64(), b.next_u64());
    }
}

#[test]
fn splitmix_reference_output() {
    // Reference value of splitmix64 seeded with 0.
    let mut g = SplitMix64::new(0);
    assert_eq!(g.next_u64(), 0xE220_A839_7B1D_CDAF);
}

#[test]
fn splitmix_bernoulli_extremes() {
    let mut g = SplitMix64::new(9);
    for _ in 0..200 {
        assert!(!g.bernoulli(0, 7));
        assert!(g.bernoulli(7, 7));
    }
    let mut a = SplitMix64::new(11);
    let mut b = SplitMix64::new(11);
    for _ in 0..200 {
        assert_eq!(a.bernoulli(3, 10), b.next_u64() % 10 < 3);
    }
}

#[test]
fn xorshift64_small_states_have_distinct_successors() {
    let mut seen = std::collections::HashSet::new();
    for x in 1..5000u64 {
        let mut g = XorShift64::new(x);
        assert!(seen.insert(g.next_u64()));
    }
}
