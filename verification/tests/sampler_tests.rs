use rand_chacha::rand_core::SeedableRng;
use rand_chacha::ChaCha8Rng;
use rust_mallet::sampler::{infer_tokens, DocSampler};

#[test]
fn tokens_drop_unknown_words() {
    assert_eq!(infer_tokens(&vec![2, 0, 1, 5], 3), vec![0, 0, 2]);
    assert!(infer_tokens(&vec![0, 0], 2).is_empty());
}

#[test]
fn counts_follow_assignments() {
    let mut rng = ChaCha8Rng::seed_from_u64(42);
    let mut s = DocSampler::new(vec![0, 1, 1, 2, 2, 2], 4, &mut rng);
    assert_eq!(s.len(), 6);
    assert_eq!(s.num_topics(), 4);
    let total: u32 = (0..4).map(|t| s.count(t)).sum();
    assert_eq!(total, 6);
    for pos in 0..6 {
        assert!(s.topic(pos) < 4);
    }
    let old = s.topic(2);
    let new = (old + 1) % 4;
    let before_old = s.count(old);
    let before_new = s.count(new);
    assert_eq!(s.count_excluding(2, old), before_old - 1);
    assert_eq!(s.count_excluding(2, new), before_new);
    s.reassign(2, new);
    assert_eq!(s.topic(2), new);
    assert_eq!(s.count(old), before_old - 1);
    assert_eq!(s.count(new), before_new + 1);
    assert_eq!(s.token(2), 1);
    let t = s.reassign_uniform(0, &mut rng);
    assert!(t < 4);
    assert_eq!(s.topic(0), t);
    let total: u32 = (0..4).map(|t| s.count(t)).sum();
    assert_eq!(total, 6);
}

#[test]
fn same_seed_same_start() {
    let a = DocSampler::new(vec![0; 20], 5, &mut ChaCha8Rng::seed_from_u64(7));
    let b = DocSampler::new(vec![0; 20], 5, &mut ChaCha8Rng::seed_from_u64(7));
    for pos in 0..20 {
        assert_eq!(a.topic(pos), b.topic(pos));
    }
}
