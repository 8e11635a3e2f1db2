use rusty_primes::sieve::{Eratosthenes, SegmentedEratosthenes, Sieve};
use rusty_primes::sieve::int_sqrt;

#[test]
fn int_sqrt_exact_values() {
    assert_eq!(int_sqrt(0), 0);
    assert_eq!(int_sqrt(1), 1);
    assert_eq!(int_sqrt(2), 1);
    assert_eq!(int_sqrt(3), 1);
    assert_eq!(int_sqrt(4), 2);
    assert_eq!(int_sqrt(15), 3);
    assert_eq!(int_sqrt(16), 4);
    assert_eq!(int_sqrt(17), 4);
    assert_eq!(int_sqrt(65535), 255);
    assert_eq!(int_sqrt(65536), 256);
    assert_eq!(int_sqrt(u32::MAX as usize), 65535);
}

#[test]
fn int_sqrt_is_floor_root_on_range() {
    for n in 0..5000usize {
        let r = int_sqrt(n);
        assert!(r * r <= n);
        assert!((r + 1) * (r + 1) > n);
    }
}

#[test]
fn gen_table_small_primes() {
    let table = Eratosthenes::gen_table(10);
    let mut it = table.iter_ones();
    let mut primes = Vec::new();
    while let Some(p) = it.next() {
        primes.push(p);
    }
    assert_eq!(primes, vec![2, 3, 5, 7]);
    assert_eq!(table.count_ones(), 4);
}

#[test]
fn known_values_baseline() {
    assert_eq!(Eratosthenes::prime_pi(0), 0);
    assert_eq!(Eratosthenes::prime_pi(1), 0);
    assert_eq!(Eratosthenes::prime_pi(2), 1);
    assert_eq!(Eratosthenes::prime_pi(10), 4);
    assert_eq!(Eratosthenes::prime_pi(100), 25);
    assert_eq!(Eratosthenes::prime_pi(1000), 168);
    assert_eq!(Eratosthenes::prime_pi(10000), 1229);
}

#[test]
fn known_values_segmented() {
    assert_eq!(SegmentedEratosthenes::prime_pi(0), 0);
    assert_eq!(SegmentedEratosthenes::prime_pi(1), 0);
    assert_eq!(SegmentedEratosthenes::prime_pi(2), 1);
    assert_eq!(SegmentedEratosthenes::prime_pi(10), 4);
    assert_eq!(SegmentedEratosthenes::prime_pi(100), 25);
    assert_eq!(SegmentedEratosthenes::prime_pi(1000), 168);
    assert_eq!(SegmentedEratosthenes::prime_pi(10000), 1229);
}

#[test]
fn monotonic_on_sampled_range() {
    let mut last = 0usize;
    for n in 0..=2000usize {
        let cur = SegmentedEratosthenes::prime_pi(n);
        assert!(cur >= last);
        last = cur;
    }
}

#[test]
fn cross_consistency_small_range() {
    for n in 0..=1000usize {
        assert_eq!(
            SegmentedEratosthenes::prime_pi(n),
            Eratosthenes::prime_pi(n),
            "mismatch at {}",
            n
        );
    }
}

#[test]
fn cross_consistency_sampled_to_two_hundred_thousand() {
    let mut n = 0usize;
    while n <= 200000 {
        assert_eq!(
            SegmentedEratosthenes::prime_pi(n),
            Eratosthenes::prime_pi(n),
            "mismatch at {}",
            n
        );
        n += 9973;
    }
    assert_eq!(
        SegmentedEratosthenes::prime_pi(200000),
        Eratosthenes::prime_pi(200000)
    );
}

#[test]
fn window_boundaries_around_perfect_squares() {
    // Exercises final windows of every length in (0, segLen]: n exactly a
    // multiple of the segment length, one below, and one above.
    for n in [65535usize, 65536, 65537, 66049, 66048, 66050, 4095, 4096, 4097] {
        assert_eq!(
            SegmentedEratosthenes::prime_pi(n),
            Eratosthenes::prime_pi(n),
            "mismatch at {}",
            n
        );
    }
}

#[test]
fn degenerate_small_inputs() {
    for n in 0..=6usize {
        let want = [0, 0, 1, 2, 2, 3, 3][n];
        assert_eq!(SegmentedEratosthenes::prime_pi(n), want);
        assert_eq!(Eratosthenes::prime_pi(n), want);
    }
}
