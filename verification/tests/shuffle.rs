use smartcore::rng::{permutation, SplitMix};

#[test]
fn shuffle_yields_a_permutation() {
    let mut rng = SplitMix::new(42);
    let p = permutation(25, &mut rng);
    assert_eq!(p.len(), 25);
    let mut seen = vec![false; 25];
    for v in &p {
        assert!(*v < 25);
        assert!(!seen[*v]);
        seen[*v] = true;
    }
}

#[test]
fn shuffle_is_reproducible() {
    let mut rng1 = SplitMix::new(9);
    let mut rng2 = SplitMix::new(9);
    assert_eq!(permutation(10, &mut rng1), permutation(10, &mut rng2));
}

#[test]
fn below_stays_in_range() {
    let mut rng = SplitMix::new(1);
    for _ in 0..100 {
        assert!(rng.below(7) < 7);
    }
}
