use cggmp24_key_refresh::integer::Integer;
use cggmp24_key_refresh::security_level::{
    max_exponents_size, validate_public_paillier_key_size, validate_secret_paillier_prime_size,
    KeygenSecurityLevel, SecurityLevel, SecurityLevel128, M,
};

struct MyLevel;

impl KeygenSecurityLevel for MyLevel {
    const SECURITY_BITS: u32 = 1024;
}

impl SecurityLevel for MyLevel {
    const RSA_PRIME_BITLEN: u32 = 9;
    const RSA_PUBKEY_BITLEN: u32 = 17;
    const EPSILON: usize = 128;
    const ELL: usize = 1024;
    const ELL_PRIME: usize = 1024;

    fn q() -> Integer {
        Integer::from_le_bytes(&[255, 255, 255, 255, 255, 255])
    }
}

struct LongEllPrime;

impl KeygenSecurityLevel for LongEllPrime {
    const SECURITY_BITS: u32 = 1;
}

impl SecurityLevel for LongEllPrime {
    const RSA_PRIME_BITLEN: u32 = 0;
    const RSA_PUBKEY_BITLEN: u32 = 1;
    const EPSILON: usize = 10;
    const ELL: usize = 20;
    const ELL_PRIME: usize = 100;

    fn q() -> Integer {
        Integer::power_of_two(0)
    }
}

#[test]
fn exponents_of_the_default_level() {
    assert_eq!(max_exponents_size::<SecurityLevel128>(), (1920, 3456));
}

#[test]
fn exponents_of_other_levels() {
    assert_eq!(max_exponents_size::<MyLevel>(), (5248, 9344));
    assert_eq!(max_exponents_size::<LongEllPrime>(), (110, 38));
}

#[test]
fn parameters_of_the_default_level() {
    assert_eq!(SecurityLevel128::RSA_PRIME_BITLEN, 1536);
    assert_eq!(SecurityLevel128::RSA_PUBKEY_BITLEN, 3071);
    assert_eq!(SecurityLevel128::EPSILON, 256);
    assert_eq!(SecurityLevel128::ELL, 128);
    assert_eq!(SecurityLevel128::ELL_PRIME, 640);
    assert_eq!(M, 128);
    let mut expected = vec![0u8; 17];
    expected[16] = 1;
    assert_eq!(SecurityLevel128::q().magnitude_le_bytes(), &expected);
    assert_eq!(MyLevel::q().significant_bits(), 48);
}

#[test]
fn paillier_keys_are_long_enough() {
    let public = |bits| {
        validate_public_paillier_key_size::<SecurityLevel128>(&Integer::power_of_two(bits))
    };
    assert!(!public(3069));
    assert!(public(3070));
    assert!(public(3071));
    let prime = |bits| {
        validate_secret_paillier_prime_size::<SecurityLevel128>(&Integer::power_of_two(bits))
    };
    assert!(!prime(1534));
    assert!(prime(1535));

    assert!(!validate_public_paillier_key_size::<MyLevel>(&Integer::from_le_bytes(&[255, 255])));
    assert!(validate_public_paillier_key_size::<MyLevel>(&Integer::from_le_bytes(&[0, 0, 1])));
    assert!(!validate_secret_paillier_prime_size::<MyLevel>(&Integer::from_le_bytes(&[255])));
    assert!(validate_secret_paillier_prime_size::<MyLevel>(&Integer::from_le_bytes(&[0, 1])));
    // Zero has no bits.
    let zero = Integer::from_le_bytes(&[]);
    assert!(!validate_public_paillier_key_size::<LongEllPrime>(&zero));
    assert!(validate_secret_paillier_prime_size::<LongEllPrime>(&zero));
}
