use topple::rng::{hash_str, Rng};

#[test]
fn deterministic_across_runs() {
    let mut a = Rng::new(42);
    let mut b = Rng::new(42);
    for _ in 0..100 {
        assert_eq!(a.next_u64(), b.next_u64());
    }
}

#[test]
fn below_is_in_range_and_covers() {
    let mut rng = Rng::new(7);
    let mut seen = [false; 5];
    for _ in 0..200 {
        let v = rng.below(5);
        assert!(v < 5);
        seen[v as usize] = true;
    }
    assert!(seen.iter().all(|&s| s));
}

#[test]
fn hash_str_differs_by_date() {
    assert_ne!(hash_str("2026-07-03"), hash_str("2026-07-04"));
}

#[test]
fn weighted_picks_never_land_on_a_zero_weight() {
    let weights = [0u64, 5, 0, 3, 0];
    let mut rng = Rng::new(7);
    let mut seen = [false; 5];
    for _ in 0..400 {
        let i = rng.pick_weighted(&weights);
        assert!(weights[i] > 0);
        seen[i] = true;
    }
    assert!(seen[1] && seen[3]);
}

#[test]
fn shuffles_permute_their_items() {
    let mut rng = Rng::new(2026);
    let mut v: Vec<u32> = (0..20).map(|i| i % 7).collect();
    let mut before = v.clone();
    rng.shuffle(&mut v);
    before.sort();
    v.sort();
    assert_eq!(v, before);
}

#[test]
fn a_weighted_pick_falls_in_its_span_of_the_total() {
    let weights = [3u64, 0, 5, 2];
    let prefix = [0u64, 3, 3, 8, 10];
    for seed in 0..50u64 {
        let mut a = Rng::new(seed);
        let mut b = Rng::new(seed);
        let roll = a.below(10);
        let i = b.pick_weighted(&weights);
        assert!(prefix[i] <= roll && roll < prefix[i + 1]);
    }
}
