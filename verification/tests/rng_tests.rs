use rand::RngCore;
use yaminabe::rng::SeededRng;

#[test]
fn stream_matches_the_reference_generator() {
    // The library's generator is implemented and verified in-house; hold
    // its stream against the independent implementation of the same
    // multiplicative congruential generator with XSL-RR output.
    let seeds: [u128; 4] = [0, 1, 0xdead_beef, 0x0123_4567_89ab_cdef_fedc_ba98_7654_3210];
    for &seed in seeds.iter() {
        let mut ours = SeededRng::new(seed);
        let mut reference = rand_pcg::Mcg128Xsl64::new(seed);
        for _ in 0..200 {
            assert_eq!(ours.next_u64(), reference.next_u64());
        }
    }
}

#[test]
fn below_is_always_in_range() {
    let mut rng = SeededRng::new(123456789);
    for bound in [1u64, 2, 3, 7, 100, u64::MAX] {
        for _ in 0..50 {
            assert!(rng.below(bound) < bound);
        }
    }
}

#[test]
fn same_seed_same_draws() {
    let mut a = SeededRng::new(42);
    let mut b = SeededRng::new(42);
    for _ in 0..100 {
        assert_eq!(a.next_u64(), b.next_u64());
    }
}
