use protohackers::prime::{answer, is_prime, is_prime_u64, malformed};
use serde_json::Number;

#[test]
fn small_numbers() {
    let primes = [2u64, 3, 5, 7, 11, 13, 17, 19, 23, 29, 31, 37, 41, 43, 47];
    for n in 0..50u64 {
        assert_eq!(is_prime_u64(n), primes.contains(&n), "{}", n);
    }
}

#[test]
fn squares_of_primes_are_not_prime() {
    for p in [2u64, 3, 5, 7, 11, 101, 65521] {
        assert!(!is_prime_u64(p * p), "{}", p);
    }
}

#[test]
fn larger_numbers() {
    assert!(is_prime_u64(7919));
    assert!(is_prime_u64(1_000_000_007));
    assert!(!is_prime_u64(1_000_000_005));
    assert!(is_prime_u64(4_294_967_291));
    assert!(!is_prime_u64(4_294_967_295));
    assert!(!is_prime_u64(4_294_967_297));
}

#[test]
fn json_integers_go_by_their_value() {
    assert!(is_prime(Number::from(7u64)));
    assert!(!is_prime(Number::from(8u64)));
    assert!(!is_prime(Number::from(0u64)));
    assert!(!is_prime(Number::from(1u64)));
    assert!(is_prime(Number::from(13i64)));
}

#[test]
fn negative_and_fractional_json_numbers_are_not_prime() {
    assert!(!is_prime(Number::from(-7i64)));
    assert!(!is_prime(Number::from(-2i64)));
    assert!(!is_prime(Number::from_f64(7.5).unwrap()));
    assert!(!is_prime(Number::from_f64(7.0).unwrap()));
}

#[test]
fn json_number_from_text() {
    let n: Number = serde_json::from_str("104729").unwrap();
    assert!(is_prime(n));
    let n: Number = serde_json::from_str("104730").unwrap();
    assert!(!is_prime(n));
    let n: Number = serde_json::from_str("-3").unwrap();
    assert!(!is_prime(n));
    let n: Number = serde_json::from_str("3.0").unwrap();
    assert!(!is_prime(n));
}

#[test]
fn only_the_method_is_prime_is_answered() {
    assert_eq!(answer("isPrime", Number::from(7u64)), Some(true));
    assert_eq!(answer("isPrime", Number::from(9u64)), Some(false));
    assert_eq!(answer("isPrime", Number::from(-7i64)), Some(false));
    assert_eq!(answer("isprime", Number::from(7u64)), None);
    assert_eq!(answer("isPrime ", Number::from(7u64)), None);
    assert_eq!(answer("", Number::from(7u64)), None);
    assert_eq!(malformed(), [b'{', b'\n']);
}
