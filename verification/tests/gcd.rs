use crypto_toolbox::gcd::extended_gcd;
use crypto_toolbox::gcd::gcd;
use rand::RngExt;

#[test]
fn test_gcd() {
    let random = rand::rng();
    let numbers: Vec<u32> = random.random_iter().take(4).collect();
    let g = gcd(&numbers);
    println!("{g}");
    println!("{numbers:?}");
}

#[test]
fn test_extended_gcd() {
    let mut rng = rand::rng();

    let a: i64 = rng.random_range(1..1000);
    let b: i64 = rng.random_range(1..1000);

    let (u, v, g) = extended_gcd(a, b);

    assert_eq!(a * u + b * v, g);

    println!("a={}, b={}, u={}, v={}, g={}", a, b, u, v, g);
    println!("Verification: {} * {} + {} * {} = {}", a, u, b, v, g);
}

#[test]
fn gcd_of_empty_is_zero() {
    let empty: Vec<u32> = vec![];
    assert_eq!(gcd(&empty), 0);
}

#[test]
fn gcd_of_single_element_is_itself() {
    assert_eq!(gcd(&[7]), 7);
    assert_eq!(gcd(&[0]), 0);
    assert_eq!(gcd(&[u32::MAX]), u32::MAX);
}

#[test]
fn gcd_of_several_elements() {
    assert_eq!(gcd(&[12, 18, 24]), 6);
    assert_eq!(gcd(&[5, 10, 15]), 5);
    assert_eq!(gcd(&[0, 0]), 0);
    assert_eq!(gcd(&[0, 5]), 5);
}

#[test]
fn gcd_coprime_pair_collapses_to_one() {
    // 4 and 9 are coprime, so the running result reaches 1 there and the
    // remaining elements cannot change it.
    assert_eq!(gcd(&[4, 9, 6]), 1);
    assert_eq!(gcd(&[2, 4, 9, 1000000]), 1);
}

#[test]
fn extended_gcd_bezout_example() {
    let (u, v, g) = extended_gcd(12, 16);
    assert_eq!(g, 4);
    assert_eq!(12 * u + 16 * v, g);
}

#[test]
fn extended_gcd_agrees_with_gcd() {
    let (_, _, g) = extended_gcd(12, 18);
    assert_eq!(g, 6);
    assert_eq!(gcd(&[12, 18]), 6);

    let cases: [(i64, i64); 6] = [(12, 18), (-12, 18), (12, -18), (-12, -18), (1, 999), (17, 17)];
    for (a, b) in cases {
        let (u, v, g) = extended_gcd(a, b);
        assert_eq!(a * u + b * v, g);
        assert_eq!(g as u32, gcd(&[a.unsigned_abs() as u32, b.unsigned_abs() as u32]));
    }
}

#[test]
fn extended_gcd_unit_divisor() {
    let (u, v, g) = extended_gcd(37, 1);
    assert_eq!(g, 1);
    assert_eq!(37 * u + v, 1);
}

#[test]
fn bezout_identity_holds_for_random_pairs() {
    let mut rng = rand::rng();
    for _ in 0..1000 {
        let a: i64 = rng.random_range(1..1000);
        let b: i64 = rng.random_range(1..1000);
        let (u, v, g) = extended_gcd(a, b);
        assert_eq!(a * u + b * v, g);
        assert!(g >= 1);
        assert_eq!(g as u32, gcd(&[a as u32, b as u32]));
    }
}
