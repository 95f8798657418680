use crypto_toolbox::arithmetic::get_binary_digits;
use crypto_toolbox::arithmetic::modpow;

#[test]
fn test_modpow() {
    let result = modpow(7, 16, 17);
    println!("{result}");
    assert_eq!(result, 1)
}

#[test]
fn modpow_result_is_reduced() {
    assert!(modpow(123456789, 987654321, 1000) < 1000);
    assert!(modpow(2, 64, 3) < 3);
    assert_eq!(modpow(4, 13, 497), 445);
    assert_eq!(modpow(10, 1, 3), 1);
}

#[test]
fn modpow_zero_exponent_is_one_reduced() {
    assert_eq!(modpow(5, 0, 7), 1);
    assert_eq!(modpow(0, 0, 7), 1);
    assert_eq!(modpow(3, 0, 1), 0);
}

#[test]
fn modpow_modulus_one_is_zero() {
    assert_eq!(modpow(9, 5, 1), 0);
    assert_eq!(modpow(0, 0, 1), 0);
    assert_eq!(modpow(u64::MAX, u64::MAX, 1), 0);
}

#[test]
fn modpow_fermat_examples() {
    // For a prime p and a base not divisible by p, a^(p-1) == 1 (mod p).
    assert_eq!(modpow(7, 16, 17), 1);
    assert_eq!(modpow(2, 10, 11), 1);
    assert_eq!(modpow(3, 6, 7), 1);
}

#[test]
fn modpow_squaring_near_the_word_limit() {
    // (m - 1)^2 mod m == 1: repeated squaring of an already-reduced value
    // must not overflow even when the modulus is near the top of the type.
    assert_eq!(modpow(u64::MAX - 1, 2, u64::MAX), 1);
    assert_eq!(modpow(u64::MAX - 1, 3, u64::MAX), u64::MAX - 1);
}

#[test]
fn binary_digits_of_zero_is_single_zero() {
    assert_eq!(get_binary_digits(0), vec![0]);
}

#[test]
fn binary_digits_least_significant_first() {
    assert_eq!(get_binary_digits(1), vec![1]);
    assert_eq!(get_binary_digits(6), vec![0, 1, 1]);
    assert_eq!(get_binary_digits(16), vec![0, 0, 0, 0, 1]);
    let top = get_binary_digits(1u64 << 63);
    assert_eq!(top.len(), 64);
    assert_eq!(top[63], 1);
    assert!(top[..63].iter().all(|&d| d == 0));
}
