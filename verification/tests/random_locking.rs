use my_library::RandomNumberGenerator;

#[test]
fn test_range_bounds() {
    let mut rng = RandomNumberGenerator::new();
    for _ in 0..1000 {
        let n = rng.range(1..10);
        assert!(n > 0, "n = {}", n);
        assert!(n < 10, "n = {}", n);
    }
}

#[test]
fn test_reproducibility() {
    let mut rng = (
        RandomNumberGenerator::seeded(0),
        RandomNumberGenerator::seeded(0),
    );
    (0..1000).for_each(|_| {
        assert_eq!(
            rng.0.range(u32::MIN..u32::MAX),
            rng.1.range(u32::MIN..u32::MAX)
        )
    });
}

#[test]
fn test_next_types() {
    let mut rng = RandomNumberGenerator::new();
    let _: i32 = rng.next();
}

#[test]
fn range_of_one_value_gives_that_value() {
    let mut rng = RandomNumberGenerator::seeded(7);
    for _ in 0..100 {
        assert_eq!(rng.range(41usize..42usize), 41);
        assert_eq!(rng.range(-3i32..-2i32), -3);
    }
}

#[test]
fn usize_and_u64_ranges_stay_in_bounds() {
    let mut rng = RandomNumberGenerator::seeded(99);
    for _ in 0..1000 {
        let a = rng.range(5usize..195usize);
        assert!((5..195).contains(&a));
        let b = rng.range(1_000_000u64..1_000_010u64);
        assert!((1_000_000..1_000_010).contains(&b));
    }
}

#[test]
fn seeded_generators_repeat_next() {
    let mut a = RandomNumberGenerator::seeded(12345);
    let mut b = RandomNumberGenerator::seeded(12345);
    for _ in 0..100 {
        let x: u64 = a.next();
        let y: u64 = b.next();
        assert_eq!(x, y);
    }
}

#[test]
fn range_draws_more_than_its_low_end() {
    let mut rng = RandomNumberGenerator::seeded(5);
    let draws: Vec<i32> = (0..200).map(|_| rng.range(0..10)).collect();
    assert!(draws.iter().any(|&d| d != 0));
    assert!(draws.iter().all(|&d| (0..10).contains(&d)));
    let wide: Vec<usize> = (0..200).map(|_| rng.range(3usize..1000usize)).collect();
    assert!(wide.iter().any(|&d| d != 3));
    let words: Vec<u32> = (0..200).map(|_| rng.range(7u32..70u32)).collect();
    assert!(words.iter().any(|&d| d != 7));
    let longs: Vec<u64> = (0..200).map(|_| rng.range(9u64..90u64)).collect();
    assert!(longs.iter().any(|&d| d != 9));
}

#[test]
fn seeded_generators_draw_alike_for_every_kind_of_call() {
    let mut a = RandomNumberGenerator::seeded(5);
    let mut b = RandomNumberGenerator::seeded(5);
    for _ in 0..100 {
        assert_eq!(a.next::<u64>(), b.next::<u64>());
        assert_eq!(a.range(-50i32..50i32), b.range(-50i32..50i32));
        assert_eq!(a.range(0usize..7usize), b.range(0usize..7usize));
    }
}

#[test]
fn different_seeds_draw_differently() {
    let mut a = RandomNumberGenerator::seeded(1);
    let mut b = RandomNumberGenerator::seeded(2);
    let xs: Vec<u64> = (0..8).map(|_| a.next::<u64>()).collect();
    let ys: Vec<u64> = (0..8).map(|_| b.next::<u64>()).collect();
    assert_ne!(xs, ys);
}
