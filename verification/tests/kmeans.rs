use sg_wasm::kmeans::{cluster_count, Lcg};

#[test]
fn lcg_sequence_seed_zero() {
    let mut g = Lcg::seeded(0);
    assert_eq!(g.next_bits(), 1580400933071063);
    assert_eq!(g.next_bits(), 5998998416737105);
    assert_eq!(g.next_bits(), 6325018104276209);
}

#[test]
fn lcg_sequence_seed_42() {
    let mut g = Lcg::seeded(42);
    assert_eq!(g.next_bits(), 5994123769805235);
    assert_eq!(g.next_bits(), 7113771447973282);
    assert_eq!(g.next_bits(), 4591267321538568);
}

#[test]
fn lcg_draws_fit_53_bits() {
    let mut g = Lcg::seeded(7);
    for _ in 0..1000 {
        assert!(g.next_bits() < (1u64 << 53));
    }
}

#[test]
fn cluster_count_clamps() {
    assert_eq!(cluster_count(8, 100), 8);
    assert_eq!(cluster_count(0, 100), 0);
    assert_eq!(cluster_count(8, 3), 3);
    assert_eq!(cluster_count(1, 1), 1);
}
