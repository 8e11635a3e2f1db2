use rusty_primes::bitset::BitSet;

fn collect_ones(bs: &BitSet) -> Vec<usize> {
    let mut it = bs.iter_ones();
    let mut v = Vec::new();
    while let Some(i) = it.next() {
        v.push(i);
    }
    v
}

#[test]
fn new_all_false_reads_false() {
    let bs = BitSet::new(10, false);
    for i in 0..10 {
        assert!(!bs.get(i));
    }
    assert_eq!(bs.len(), 10);
    assert_eq!(bs.count_ones(), 0);
}

#[test]
fn new_all_true_reads_true() {
    let bs = BitSet::new(10, true);
    for i in 0..10 {
        assert!(bs.get(i));
    }
    assert_eq!(bs.count_ones(), 10);
}

#[test]
fn set_and_clear_single_bits() {
    let mut bs = BitSet::new(130, false);
    bs.set(0);
    bs.set(64);
    bs.set(129);
    assert!(bs.get(0));
    assert!(bs.get(64));
    assert!(bs.get(129));
    assert!(!bs.get(1));
    assert!(!bs.get(63));
    assert!(!bs.get(65));
    assert_eq!(bs.count_ones(), 3);
    bs.clear(64);
    assert!(!bs.get(64));
    assert_eq!(bs.count_ones(), 2);
}

#[test]
fn boundary_lengths_count_ones() {
    for len in [1usize, 63, 64, 65] {
        let all = BitSet::new(len, true);
        assert_eq!(all.count_ones(), len);
        let none = BitSet::new(len, false);
        assert_eq!(none.count_ones(), 0);
    }
}

#[test]
fn round_trip_set_then_iterate() {
    let want: Vec<usize> = vec![0, 1, 5, 62, 63, 64, 65, 127, 128, 129];
    let mut bs = BitSet::new(130, false);
    for &i in &want {
        bs.set(i);
    }
    let got = collect_ones(&bs);
    assert_eq!(got, want);
    assert_eq!(bs.count_ones(), want.len());
}

#[test]
fn round_trip_empty_set() {
    let bs = BitSet::new(77, false);
    let got = collect_ones(&bs);
    assert!(got.is_empty());
    assert_eq!(bs.count_ones(), 0);
}

#[test]
fn iter_ones_dense() {
    let bs = BitSet::new(200, true);
    let got = collect_ones(&bs);
    let want: Vec<usize> = (0..200).collect();
    assert_eq!(got, want);
}

#[test]
fn iter_ones_exhausts_and_stays_done() {
    let mut bs = BitSet::new(70, false);
    bs.set(3);
    bs.set(69);
    let mut it = bs.iter_ones();
    assert_eq!(it.next(), Some(3));
    assert_eq!(it.next(), Some(69));
    assert_eq!(it.next(), None);
    assert_eq!(it.next(), None);
}

#[test]
fn set_all_after_clear_all() {
    let mut bs = BitSet::new(100, false);
    bs.set_all();
    assert_eq!(bs.count_ones(), 100);
    bs.clear_all();
    assert_eq!(bs.count_ones(), 0);
}

#[test]
fn truncate_then_set_all_counts_new_length() {
    let mut bs = BitSet::new(130, true);
    bs.truncate(77);
    bs.set_all();
    assert_eq!(bs.len(), 77);
    assert_eq!(bs.count_ones(), 77);
}

#[test]
fn truncate_to_word_boundary_then_reset() {
    let mut bs = BitSet::new(130, true);
    bs.truncate(64);
    bs.set_all();
    assert_eq!(bs.count_ones(), 64);
    bs.truncate(1);
    bs.set_all();
    assert_eq!(bs.count_ones(), 1);
}

#[test]
fn truncate_then_clear_all_counts_zero() {
    let mut bs = BitSet::new(130, true);
    bs.truncate(65);
    bs.clear_all();
    assert_eq!(bs.count_ones(), 0);
    assert_eq!(bs.len(), 65);
}
