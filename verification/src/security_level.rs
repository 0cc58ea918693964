//! Security level of CGGMP protocol
//!
//! Security level is defined as set of parameters in the CGGMP paper. Higher security level gives more
//! security but makes protocol execution slower.
//!
//! We provide a predefined default [SecurityLevel128].
//!
//! You can define your own security level by implementing [KeygenSecurityLevel] and [SecurityLevel]. Be
//! sure that you properly analyzed the CGGMP paper and you understand implications. Inconsistent security
//! level may cause unexpected unverbose runtime error or reduced security of the protocol.
use crate::integer::{binary_digits, magnitude, Integer};
use vstd::arithmetic::power2::pow2;
use vstd::prelude::*;

verus! {

/// Hardcoded value for parameter $m$ of security level
pub const M: usize = 128;

/// Security level of the DKG protocol
pub trait KeygenSecurityLevel {
    /// $\kappa$ bits
    const SECURITY_BITS: u32;
}

/// Security level of the CGGMP21 protocol
pub trait SecurityLevel: KeygenSecurityLevel {
    /// Length of RSA prime that matches `SECURITY_BITS`
    const RSA_PRIME_BITLEN: u32;

    /// Minimal length of RSA public key (bi-prime $N = pq$) that matches `SECURITY_BITS`
    const RSA_PUBKEY_BITLEN: u32;

    /// $\varepsilon$ bits
    const EPSILON: usize;

    /// $\ell$ parameter
    const ELL: usize;

    /// $\ell'$ parameter
    const ELL_PRIME: usize;

    /// $q$ parameter
    ///
    /// Note that it's not curve order, and it doesn't need to be a prime, it's another security parameter
    /// that determines security level.
    fn q() -> Integer;
}

/// 128-bits security level
#[derive(Clone, Copy)]
pub struct SecurityLevel128;

impl KeygenSecurityLevel for SecurityLevel128 {
    const SECURITY_BITS: u32 = 384;
}

impl SecurityLevel for SecurityLevel128 {
    const RSA_PRIME_BITLEN: u32 = 1536;

    const RSA_PUBKEY_BITLEN: u32 = 3071;

    const EPSILON: usize = 256;

    const ELL: usize = 128;

    const ELL_PRIME: usize = 640;

    fn q() -> (q: Integer)
        ensures
            q@ == pow2(128),
    {
        Integer::power_of_two(128)
    }
}

/// The parameters of the 128-bits security level. The length of an RSA prime is four times, and
/// the length of an RSA public key at least eight times less one, the security parameter.
pub proof fn parameters_of_level_128()
    ensures
        SecurityLevel128::SECURITY_BITS == 384,
        SecurityLevel128::RSA_PRIME_BITLEN == 4 * SecurityLevel128::SECURITY_BITS,
        SecurityLevel128::RSA_PUBKEY_BITLEN == 8 * SecurityLevel128::SECURITY_BITS - 1,
        SecurityLevel128::EPSILON == 256,
        SecurityLevel128::ELL == 128,
        SecurityLevel128::ELL_PRIME == 640,
{
}

/// The larger of two numbers.
pub open spec fn larger(a: int, b: int) -> int {
    if a < b {
        b
    } else {
        a
    }
}

/// Determines max size of exponents
///
/// During the CGGMP21 protocol, we often calculate $s^x t^y \mod N$. Given the security level
/// we can determine max size of $x$ and $y$ in bits.
///
/// Returns `(x_bits, y_bits)`
pub fn max_exponents_size<L: SecurityLevel>() -> (bits: (u32, u32))
    requires
        L::ELL_PRIME + L::EPSILON <= u32::MAX,
        L::ELL + L::EPSILON + 8 * L::SECURITY_BITS <= u32::MAX,
    ensures
        bits.0 == larger(
            L::ELL + L::EPSILON + 4 * L::SECURITY_BITS,
            L::ELL_PRIME + L::EPSILON,
        ),
        bits.1 == L::ELL + L::EPSILON + 8 * L::SECURITY_BITS,
{
    let masked: u32 = L::ELL as u32 + L::EPSILON as u32 + 4 * L::SECURITY_BITS;
    let plain: u32 = (L::ELL_PRIME + L::EPSILON) as u32;
    let x_bits: u32 = if masked < plain {
        plain
    } else {
        masked
    };
    let y_bits: u32 = (L::ELL + L::EPSILON) as u32 + 8 * L::SECURITY_BITS;
    (x_bits, y_bits)
}

/// Checks that public paillier key meets security level constraints
#[allow(non_snake_case)]
pub fn validate_public_paillier_key_size<L: SecurityLevel>(N: &Integer) -> (valid: bool)
    ensures
        valid == (binary_digits(magnitude(N@)) >= L::RSA_PUBKEY_BITLEN),
{
    N.has_bits(L::RSA_PUBKEY_BITLEN)
}

/// Checks that a prime, that is a part of secret paillier key, meets security level constraints
pub fn validate_secret_paillier_prime_size<L: SecurityLevel>(prime: &Integer) -> (valid: bool)
    ensures
        valid == (binary_digits(magnitude(prime@)) >= L::RSA_PRIME_BITLEN),
{
    prime.has_bits(L::RSA_PRIME_BITLEN)
}

/// A number has at least `n > 0` binary digits if and only if it is at least `2^(n - 1)`, so
/// a key of at least `n` bits is one that is not below that power.
pub proof fn key_size_is_a_lower_bound(x: nat, n: nat)
    requires
        n > 0,
    ensures
        binary_digits(x) >= n <==> x >= pow2((n - 1) as nat),
    decreases n,
{
    vstd::arithmetic::power2::lemma_pow2_pos((n - 1) as nat);
    if n == 1 {
        vstd::arithmetic::power2::lemma2_to64();
    } else {
        key_size_is_a_lower_bound(x / 2, (n - 1) as nat);
        vstd::arithmetic::power2::lemma_pow2_unfold((n - 1) as nat);
    }
}

} // verus!
