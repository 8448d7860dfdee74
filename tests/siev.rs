use siev::{Siev, Wire};

fn is_prime_by_trial_division(v: u64) -> bool {
    if v < 2 {
        return false;
    }
    let mut d: u64 = 2;
    while d * d <= v {
        if v % d == 0 {
            return false;
        }
        d += 1;
    }
    true
}

#[test]
fn nth() {
    assert_eq!(Siev::nth(0), 2);
    assert_eq!(Siev::nth(49), 229);
}

#[test]
fn wire_ord() {
    let wire3 = Wire { val: 3, prm: 3 };
    let wire8 = Wire { val: 8, prm: 2 };
    assert!(wire3 > wire8);
}

#[test]
fn nth_first_values() {
    assert_eq!(Siev::nth(0), 2);
    assert_eq!(Siev::nth(1), 3);
    assert_eq!(Siev::nth(2), 5);
    assert_eq!(Siev::nth(49), 229);
}

#[test]
fn nth_strictly_increasing() {
    let mut prev = Siev::nth(0);
    for n in 1..200 {
        let cur = Siev::nth(n);
        assert!(prev < cur);
        prev = cur;
    }
}

#[test]
fn sequence_matches_next_prime() {
    let mut a = Siev::new();
    let mut b = Siev::new();
    for _ in 0..300 {
        assert_eq!(a.next(), Some(b.next_prime()));
    }
}

#[test]
fn first_thousand_are_prime() {
    let mut s = Siev::new();
    for _ in 0..1000 {
        let v = s.next_prime();
        assert!(is_prime_by_trial_division(v));
    }
}

#[test]
fn no_repeats_and_no_prime_skipped() {
    let mut s = Siev::new();
    let mut emitted = Vec::new();
    for _ in 0..1000 {
        emitted.push(s.next_prime());
    }
    let last = *emitted.last().unwrap();
    let expected: Vec<u64> = (0..=last).filter(|&v| is_prime_by_trial_division(v)).collect();
    assert_eq!(emitted, expected);
    assert_eq!(last, 7919);
}

#[test]
fn lower_val_ranks_first_whatever_the_prime() {
    let low = Wire { val: 3, prm: 3 };
    let high = Wire { val: 8, prm: 2 };
    assert!(high < low);
    assert_eq!(low.partial_cmp(&high), Some(std::cmp::Ordering::Greater));
    let tie_a = Wire { val: 6, prm: 2 };
    let tie_b = Wire { val: 6, prm: 3 };
    assert_eq!(tie_a.partial_cmp(&tie_b), Some(std::cmp::Ordering::Equal));
}

#[test]
fn five_calls_from_fresh() {
    let mut s = Siev::new();
    let got: Vec<u64> = (0..5).map(|_| s.next_prime()).collect();
    assert_eq!(got, vec![2, 3, 5, 7, 11]);
}

#[test]
fn nth_zero_is_deterministic() {
    assert_eq!(Siev::nth(0), 2);
    assert_eq!(Siev::nth(0), 2);
}

#[test]
fn composites_after_squares_are_skipped() {
    let mut s = Siev::new();
    let got: Vec<u64> = (0..12).map(|_| s.next_prime()).collect();
    assert_eq!(got, vec![2, 3, 5, 7, 11, 13, 17, 19, 23, 29, 31, 37]);
}
