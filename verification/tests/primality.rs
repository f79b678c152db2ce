use prime_time::{is_prime_u64, Number, Request};

#[test]
fn small_values_are_not_prime() {
    assert!(!is_prime_u64(0));
    assert!(!is_prime_u64(1));
}

#[test]
fn known_primes() {
    assert!(is_prime_u64(2));
    assert!(is_prime_u64(3));
    assert!(is_prime_u64(5));
    assert!(is_prime_u64(17));
    assert!(is_prime_u64(97));
    assert!(is_prime_u64(1000000007));
}

#[test]
fn known_composites() {
    assert!(!is_prime_u64(4));
    assert!(!is_prime_u64(9));
    assert!(!is_prime_u64(15));
    assert!(!is_prime_u64(1000000008));
    assert!(!is_prime_u64(999999999999999));
    assert!(!is_prime_u64(u64::MAX));
}

#[test]
fn squares_of_primes_are_composite() {
    assert!(!is_prime_u64(25));
    assert!(!is_prime_u64(49));
    assert!(!is_prime_u64(1000003 * 1000003));
}

#[test]
fn verdict_follows_classification() {
    assert!(Request::is_prime(Number::Candidate(17)));
    assert!(!Request::is_prime(Number::Candidate(18)));
    assert!(!Request::is_prime(Number::NotCandidate));
    assert!(!Request::is_prime(Number::TooLarge));
}
