use ac_lib::math::{generate_primes, is_prime, nth_prime, ModInt};



#[test]
fn test_is_prime() {
    assert!(!is_prime(0));
    assert!(!is_prime(1));
    assert!(is_prime(2));
    assert!(is_prime(3));
    assert!(!is_prime(4));
    assert!(is_prime(5));
    assert!(is_prime(17));
    assert!(is_prime(97));
    assert!(!is_prime(100));
}

#[test]
fn test_generate_primes() {
    let primes = generate_primes(20);
    assert_eq!(primes, vec![2, 3, 5, 7, 11, 13, 17, 19]);

    let primes_10 = generate_primes(10);
    assert_eq!(primes_10, vec![2, 3, 5, 7]);
}

#[test]
fn test_nth_prime() {
    assert_eq!(nth_prime(1), Some(2));
    assert_eq!(nth_prime(2), Some(3));
    assert_eq!(nth_prime(3), Some(5));
    assert_eq!(nth_prime(10), Some(29));
}

#[test]
fn test_modint_new() {
    let m = ModInt::new(5, 7);
    assert_eq!(m.value(), 5);

    let m2 = ModInt::new(-3, 7);
    assert_eq!(m2.value(), 4);

    let m3 = ModInt::new(10, 7);
    assert_eq!(m3.value(), 3);
}

#[test]
fn test_modint_add() {
    let a = ModInt::new(5, 7);
    let b = ModInt::new(3, 7);
    let c = a.add(&b);
    assert_eq!(c.value(), 1);
}

#[test]
fn test_modint_sub() {
    let a = ModInt::new(5, 7);
    let b = ModInt::new(3, 7);
    let c = a.sub(&b);
    assert_eq!(c.value(), 2);

    let d = ModInt::new(2, 7);
    let e = ModInt::new(5, 7);
    let f = d.sub(&e);
    assert_eq!(f.value(), 4);
}

#[test]
fn test_modint_mul() {
    let a = ModInt::new(5, 7);
    let b = ModInt::new(3, 7);
    let c = a.mul(&b);
    assert_eq!(c.value(), 1);
}

#[test]
fn test_modint_pow() {
    let a = ModInt::new(2, 1000000007);
    let b = a.pow(10);
    assert_eq!(b.value(), 1024);

    let c = ModInt::new(3, 7);
    let d = c.pow(3);
    assert_eq!(d.value(), 6);
}

#[test]
fn test_modint_clone() {
    let a = ModInt::new(5, 7);
    let b = a.clone();
    assert_eq!(a.value(), b.value());
}




#[test]
fn test_is_prime_large() {
    assert!(is_prime(1009));
    assert!(is_prime(10007));
    assert!(!is_prime(10000));
    assert!(!is_prime(10001));
}

#[test]
fn test_generate_primes_edge_cases() {
    let primes = generate_primes(2);
    assert_eq!(primes, vec![2]);

    let primes_1 = generate_primes(1);
    assert_eq!(primes_1, Vec::<u64>::new());
}

#[test]
fn test_nth_prime_edge_cases() {
    assert_eq!(nth_prime(1), Some(2));
    assert_eq!(nth_prime(25), Some(97));
    assert_eq!(nth_prime(100), Some(541));
}

#[test]
fn test_modint_large_numbers() {
    let mod_val = 1000000007;
    let a = ModInt::new(999999999, mod_val);
    let b = ModInt::new(999999999, mod_val);
    let c = a.add(&b);
    assert_eq!(c.value(), 999999991);
}
#[test]
fn test_modint_pow_zero() {
    let a = ModInt::new(5, 7);
    let b = a.pow(0);
    assert_eq!(b.value(), 1);
}

#[test]
fn test_modint_pow_one() {
    let a = ModInt::new(5, 7);
    let b = a.pow(1);
    assert_eq!(b.value(), 5);
}

#[test]
fn test_modint_chain_operations() {
    let a = ModInt::new(2, 7);
    let b = ModInt::new(3, 7);
    let c = ModInt::new(4, 7);

    let result = a.add(&b).mul(&c);
    assert_eq!(result.value(), 6);
}

#[test]
fn modint_negative_inputs() {
    assert_eq!(ModInt::new(-7, 7).value(), 0);
    assert_eq!(ModInt::new(-1, 7).value(), 6);
    assert_eq!(ModInt::new(-15, 7).value(), 6);
    assert_eq!(ModInt::new(i64::MIN, 10).value(), 2);
    assert_eq!(ModInt::new(i64::MAX, 10).value(), 7);
}

#[test]
fn modint_large_modulus_without_overflow() {
    let m = i64::MAX;
    let a = ModInt::new(m - 1, m);
    let b = ModInt::new(m - 2, m);
    assert_eq!(a.add(&b).value(), m - 3);
    assert_eq!(b.sub(&a).value(), m - 1);
    assert_eq!(a.mul(&a).value(), 1);
}

#[test]
fn modint_pow_non_positive_exponent() {
    let a = ModInt::new(3, 7);
    assert_eq!(a.pow(-5).value(), 1);
    let one = ModInt::new(3, 1);
    assert_eq!(one.pow(0).value(), 0);
}

#[test]
fn modint_pow_matches_repeated_multiplication() {
    let a = ModInt::new(6, 13);
    let mut acc = ModInt::new(1, 13);
    for e in 0..20 {
        assert_eq!(a.pow(e).value(), acc.value());
        acc = acc.mul(&a);
    }
}

#[test]
fn nth_prime_zero_is_one() {
    assert_eq!(nth_prime(0), Some(1));
}

#[test]
fn is_prime_squares_and_large_prime() {
    assert!(!is_prime(9));
    assert!(!is_prime(25));
    assert!(!is_prime(1_000_000_007 * 3));
    assert!(is_prime(1_000_000_007));
}

#[test]
fn generate_primes_below_two_is_empty() {
    assert_eq!(generate_primes(0), Vec::<u64>::new());
}
