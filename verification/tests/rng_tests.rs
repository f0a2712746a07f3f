use dfpa::rng::Prng;

// `adjustedLevy(limit, c)` always returns a value in `[0, limit)`.
#[test]
fn adjusted_levy_stays_below_limit() {
    let mut rng = Prng::seeded(7);
    for limit in [1usize, 2, 3, 10, 1000] {
        for lambda in [1u32, 100, 150, 175, 100000] {
            for _ in 0..200 {
                let v = rng.adjusted_levy(limit, lambda);
                assert!(v < limit, "levy draw {} not below {}", v, limit);
            }
        }
    }
}

#[test]
fn adjusted_levy_reaches_nonzero_steps() {
    let mut rng = Prng::seeded(1);
    let mut saw_nonzero = false;
    for _ in 0..500 {
        if rng.adjusted_levy(50, 150) > 0 {
            saw_nonzero = true;
        }
    }
    assert!(saw_nonzero);
}

#[test]
fn below_and_color_and_ratio_ranges() {
    let mut rng = Prng::seeded(99);
    for _ in 0..500 {
        assert!(rng.below(17) < 17);
        let c = rng.color(5);
        assert!((1..=5).contains(&c));
        let _ = rng.ratio(1, 5);
    }
    assert!(!rng.ratio(0, 5));
    assert!(rng.ratio(5, 5));
}

#[test]
fn sample_distinct_gives_distinct_positions() {
    let mut rng = Prng::seeded(3);
    for amount in [0usize, 1, 5, 10] {
        let s = rng.sample_distinct(10, amount);
        assert_eq!(s.len(), amount);
        for (i, &a) in s.iter().enumerate() {
            assert!(a < 10);
            for &b in &s[i + 1..] {
                assert_ne!(a, b);
            }
        }
    }
}

// identical seed, identical sequence of draws
#[test]
fn seeded_generator_is_deterministic() {
    let mut a = Prng::seeded(123456);
    let mut b = Prng::seeded(123456);
    for _ in 0..1000 {
        assert_eq!(a.next_u64(), b.next_u64());
    }
    let mut c = Prng::seeded(1);
    let mut d = Prng::seeded(2);
    let first: Vec<u64> = (0..8).map(|_| c.next_u64()).collect();
    let second: Vec<u64> = (0..8).map(|_| d.next_u64()).collect();
    assert_ne!(first, second);
}
