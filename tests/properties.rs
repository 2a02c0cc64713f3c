use primes::prime_numbers::{
    is_prime_elegant_but_inefficient, is_prime_oldf, is_prime_try_for_each, nth_prime_checked,
    nth_prime_elegant_but_inefficient, nth_prime_iter1, nth_prime_oldf, nth_prime_try_for_each,
    PrimalityTest, PrimeSequence,
};

const TESTS: [PrimalityTest; 4] = [
    PrimalityTest::Conventional,
    PrimalityTest::OddIterator,
    PrimalityTest::ElegantButInefficient,
    PrimalityTest::TryForEach,
];

fn trial_division(v: u32) -> bool {
    v >= 2 && (2..v).take_while(|d| (*d as u64) * (*d as u64) <= v as u64).all(|d| v % d != 0)
}

#[test]
fn fixed_points_in_every_variant() {
    for t in TESTS {
        assert!(t.is_prime(2));
        assert!(t.is_prime(3));
        assert!(t.is_prime(13));
        assert!(t.is_prime(104743));
        assert!(t.is_prime(15485867));
        assert!(!t.is_prime(15485869));
    }
    assert!(is_prime_elegant_but_inefficient(15485867));
    assert!(!is_prime_try_for_each(15485869));
}

#[test]
fn nth_prime_small_fixed_points_in_every_variant() {
    for f in [nth_prime_oldf, nth_prime_iter1, nth_prime_elegant_but_inefficient, nth_prime_try_for_each] {
        assert_eq!(f(0), 2);
        assert_eq!(f(1), 3);
        assert_eq!(f(5), 13);
        assert_eq!(f(100), 547);
    }
}

#[test]
fn zero_and_one_are_not_prime() {
    for t in TESTS {
        assert!(!t.is_prime(0));
        assert!(!t.is_prime(1));
    }
}

#[test]
fn variants_agree_on_a_broad_sample() {
    for v in 0..100000u32 {
        let expected = trial_division(v);
        for t in TESTS {
            assert_eq!(t.is_prime(v), expected, "value {}", v);
        }
    }
    for v in [u32::MAX, u32::MAX - 4, 4294967291, 4294836225, 65521 * 65521] {
        let expected = trial_division(v);
        for t in TESTS {
            assert_eq!(t.is_prime(v), expected, "value {}", v);
        }
    }
}

#[test]
fn small_odd_values_settled_by_parity() {
    for v in [3u32, 5, 7] {
        assert!(is_prime_oldf(v));
        assert!(is_prime_try_for_each(v));
    }
    assert!(!is_prime_oldf(9));
    assert!(!is_prime_oldf(25));
    assert!(!is_prime_oldf(49));
    assert!(!is_prime_try_for_each(9));
    assert!(!is_prime_elegant_but_inefficient(4));
    assert!(!is_prime_elegant_but_inefficient(121));
}

#[test]
fn even_values_above_two_are_not_prime() {
    for v in (4..20000u32).step_by(2).chain([u32::MAX - 1, 1 << 31]) {
        for t in TESTS {
            assert!(!t.is_prime(v), "value {}", v);
        }
    }
}

#[test]
fn sequence_is_increasing_and_prime() {
    let mut seq = PrimeSequence::new(PrimalityTest::Conventional);
    let mut last = seq.next().unwrap();
    assert_eq!(last, 2);
    for _ in 0..2000 {
        let p = seq.next().unwrap();
        assert!(last < p);
        assert!(is_prime_oldf(p));
        assert!(trial_division(p));
        last = p;
    }
}

#[test]
fn nth_prime_is_prime_and_increasing() {
    let mut prev = nth_prime_oldf(0);
    for n in 1..300u32 {
        let p = nth_prime_oldf(n);
        assert!(prev < p);
        assert!(is_prime_oldf(p));
        prev = p;
    }
}

#[test]
fn repeated_lookups_agree() {
    for n in [0u32, 1, 5, 100, 10000] {
        let first = nth_prime_iter1(n);
        assert_eq!(nth_prime_iter1(n), first);
        assert_eq!(nth_prime_oldf(n), first);
        assert_eq!(nth_prime_try_for_each(n), first);
        assert_eq!(nth_prime_elegant_but_inefficient(n), first);
    }
}

#[test]
fn checked_lookup_in_every_variant() {
    for t in TESTS {
        assert_eq!(nth_prime_checked(t, 0), Some(2));
        assert_eq!(nth_prime_checked(t, 5), Some(13));
        assert_eq!(nth_prime_checked(t, 10000), Some(104743));
    }
}

#[test]
fn sequence_yields_the_first_ten_primes() {
    let mut seq = PrimeSequence::new(PrimalityTest::TryForEach);
    let mut got = Vec::new();
    for _ in 0..10 {
        got.push(seq.next().unwrap());
    }
    assert_eq!(got, vec![2, 3, 5, 7, 11, 13, 17, 19, 23, 29]);
}
