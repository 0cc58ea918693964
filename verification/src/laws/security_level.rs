//! Sizes of exponents and of keys.
use crate::integer::{binary_digits, magnitude, Integer};
use crate::security_level::{
    key_size_is_a_lower_bound, max_exponents_size, validate_public_paillier_key_size,
    validate_secret_paillier_prime_size, SecurityLevel,
};
use vstd::arithmetic::power2::pow2;
use vstd::prelude::*;

verus! {

/// The size of the first exponent leaves room for the wider of a masked number, with four times
/// the security parameter to spare, and of a number of the other kind, and for no more. The size
/// of the second leaves eight times the security parameter to spare.
pub proof fn sizes_leave_room<L: SecurityLevel>(bits: (u32, u32))
    requires
        L::ELL_PRIME + L::EPSILON <= u32::MAX,
        L::ELL + L::EPSILON + 8 * L::SECURITY_BITS <= u32::MAX,
        call_ensures(max_exponents_size::<L>, (), bits),
    ensures
        bits.0 >= L::ELL + L::EPSILON + 4 * L::SECURITY_BITS,
        bits.0 >= L::ELL_PRIME + L::EPSILON,
        bits.0 == L::ELL + L::EPSILON + 4 * L::SECURITY_BITS || bits.0 == L::ELL_PRIME
            + L::EPSILON,
        bits.1 == L::ELL + L::EPSILON + 8 * L::SECURITY_BITS,
{
}

/// A number of at least `bits` bits is one that is not below `2^(bits - 1)`.
pub open spec fn is_as_long_as(x: int, bits: u32) -> bool {
    bits == 0 || x >= pow2((bits - 1) as nat) || -x >= pow2((bits - 1) as nat)
}

proof fn lemma_length(x: int, bits: u32)
    ensures
        is_as_long_as(x, bits) == (binary_digits(magnitude(x)) >= bits),
{
    if bits > 0 {
        key_size_is_a_lower_bound(magnitude(x), bits as nat);
        vstd::arithmetic::power2::lemma_pow2_pos((bits - 1) as nat);
    }
}

/// A public key passes if and only if it is as long as the security level asks.
pub proof fn long_public_keys_pass<L: SecurityLevel>(n: &Integer, valid: bool)
    requires
        call_ensures(validate_public_paillier_key_size::<L>, (n,), valid),
    ensures
        valid == is_as_long_as(n@, L::RSA_PUBKEY_BITLEN),
{
    lemma_length(n@, L::RSA_PUBKEY_BITLEN);
}

/// A secret prime passes if and only if it is as long as the security level asks.
pub proof fn long_secret_primes_pass<L: SecurityLevel>(prime: &Integer, valid: bool)
    requires
        call_ensures(validate_secret_paillier_prime_size::<L>, (prime,), valid),
    ensures
        valid == is_as_long_as(prime@, L::RSA_PRIME_BITLEN),
{
    lemma_length(prime@, L::RSA_PRIME_BITLEN);
}

/// An integer has so many bits, and not one more.
pub proof fn bits_are_counted(x: &Integer, bits: u32)
    requires
        binary_digits(magnitude(x@)) <= u32::MAX,
        call_ensures(Integer::significant_bits, (x,), bits),
        bits < u32::MAX,
    ensures
        is_as_long_as(x@, bits),
        !is_as_long_as(x@, (bits + 1) as u32),
{
    lemma_length(x@, bits);
    lemma_length(x@, (bits + 1) as u32);
}

/// An integer is told to have so many bits if and only if it has.
pub proof fn length_is_told(x: &Integer, bits: u32, result: bool)
    requires
        call_ensures(Integer::has_bits, (x, bits), result),
    ensures
        result == is_as_long_as(x@, bits),
{
    lemma_length(x@, bits);
}

} // verus!
