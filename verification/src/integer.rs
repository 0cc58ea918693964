//! Integers of any size.
use crate::bytes::{
    bytes_copy, le_value, lemma_le_value_at_least, lemma_le_value_first, lemma_le_value_push,
    lemma_pow256_positive, pow256,
};
use crate::curve::{Curve, Scalar};
use crate::natural;
use crate::random::random_bytes;
use vstd::arithmetic::power2::{lemma_pow2_adds, pow2};
use vstd::prelude::*;

verus! {

/// How many binary digits a number has: none for zero.
pub open spec fn binary_digits(x: nat) -> nat
    decreases x,
{
    if x == 0 {
        0
    } else {
        1 + binary_digits(x / 2)
    }
}

/// The number in the range from `-range` to `range` that `bytes` picks: `bytes` is read least
/// significant byte first and reduced modulo the size of the range.
pub open spec fn picked_from_range(range: int, bytes: Seq<u8>) -> int {
    le_value(bytes) as int % (2 * range + 1) - range
}

/// How many random bytes go into a pick from the range from `-range` to `range`: as many as
/// `range` has, and 17 more, so that every number is picked with almost the same probability,
/// as far as a size can count them.
pub open spec fn bytes_per_pick(range: int) -> nat {
    let len = (binary_digits(range as nat) + 7) / 8 + 17;
    if len <= usize::MAX {
        len as nat
    } else {
        usize::MAX as nat
    }
}

/// An integer.
pub struct Integer {
    negative: bool,
    magnitude: Vec<u8>,
}

impl View for Integer {
    type V = int;

    closed spec fn view(&self) -> int {
        if self.negative {
            -(le_value(self.magnitude@) as int)
        } else {
            le_value(self.magnitude@) as int
        }
    }
}

/// The absolute value.
pub open spec fn magnitude(x: int) -> nat {
    if x < 0 {
        (-x) as nat
    } else {
        x as nat
    }
}

/// The bytes of a number, most significant byte first, without zero bytes at the front.
pub open spec fn digits_msf(x: nat) -> Seq<u8>
    decreases x,
{
    if x == 0 {
        Seq::empty()
    } else {
        digits_msf(x / 256).push((x % 256) as u8)
    }
}

/// Dropping the lowest byte of a number takes away eight binary digits.
proof fn lemma_binary_digits_shift(low: nat, high: nat)
    requires
        low < 256,
        high > 0,
    ensures
        binary_digits(low + 256 * high) == 8 + binary_digits(high),
{
    let x = low + 256 * high;
    assert(x / 2 == low / 2 + 128 * high);
    assert(x / 2 / 2 == low / 4 + 64 * high);
    assert(x / 2 / 2 / 2 == low / 8 + 32 * high);
    assert(x / 2 / 2 / 2 / 2 == low / 16 + 16 * high);
    assert(x / 2 / 2 / 2 / 2 / 2 == low / 32 + 8 * high);
    assert(x / 2 / 2 / 2 / 2 / 2 / 2 == low / 64 + 4 * high);
    assert(x / 2 / 2 / 2 / 2 / 2 / 2 / 2 == low / 128 + 2 * high);
    assert(x / 2 / 2 / 2 / 2 / 2 / 2 / 2 / 2 == high);
    reveal_with_fuel(binary_digits, 9);
}

/// The binary digits of a number are those of its highest byte and eight for each other byte.
proof fn lemma_binary_digits_of_bytes(bytes: Seq<u8>)
    requires
        bytes.len() > 0,
        bytes.last() != 0,
    ensures
        binary_digits(le_value(bytes)) == 8 * (bytes.len() - 1) + binary_digits(
            bytes.last() as nat,
        ),
    decreases bytes.len(),
{
    lemma_le_value_first(bytes);
    if bytes.len() == 1 {
        assert(bytes.skip(1) =~= Seq::<u8>::empty());
    } else {
        let rest = bytes.skip(1);
        assert(rest.last() == bytes.last());
        lemma_binary_digits_of_bytes(rest);
        lemma_le_value_at_least(rest);
        lemma_pow256_positive((rest.len() - 1) as nat);
        lemma_binary_digits_shift(bytes[0] as nat, le_value(rest));
    }
}

proof fn lemma_digits_msf_of_bytes(bytes: Seq<u8>)
    requires
        bytes.len() > 0 ==> bytes.last() != 0,
    ensures
        digits_msf(le_value(bytes)) == bytes.reverse(),
    decreases bytes.len(),
{
    if bytes.len() == 0 {
        assert(bytes.reverse() =~= Seq::empty());
    } else {
        lemma_le_value_first(bytes);
        let rest = bytes.skip(1);
        lemma_digits_msf_of_bytes(rest);
        let x = le_value(bytes);
        lemma_le_value_at_least(bytes);
        lemma_pow256_positive((bytes.len() - 1) as nat);
        assert(x / 256 == le_value(rest));
        assert(x % 256 == bytes[0]);
        assert(digits_msf(x) =~= bytes.reverse());
    }
}

pub proof fn lemma_pow256_is_pow2(n: nat)
    ensures
        pow256(n) == pow2(8 * n),
    decreases n,
{
    if n == 0 {
        vstd::arithmetic::power2::lemma2_to64();
    } else {
        lemma_pow256_is_pow2((n - 1) as nat);
        vstd::arithmetic::power2::lemma2_to64();
        lemma_pow2_adds(8, (8 * (n - 1)) as nat);
    }
}

impl Integer {
    /// Holds of every integer: no zero byte at the end, and no sign on zero.
    #[verifier::type_invariant]
    closed spec fn wf(&self) -> bool {
        &&& self.magnitude.len() > 0 ==> self.magnitude@.last() != 0
        &&& self.negative ==> self.magnitude.len() > 0
    }

    /// Reads a number that is not negative, least significant byte first.
    pub fn from_le_bytes(bytes: &[u8]) -> (integer: Integer)
        ensures
            integer@ == le_value(bytes@),
    {
        Integer { negative: false, magnitude: natural::trimmed(bytes) }
    }

    /// The absolute value, least significant byte first, without zero bytes at the end.
    pub fn magnitude_le_bytes(&self) -> (bytes: &Vec<u8>)
        ensures
            le_value(bytes@) == magnitude(self@),
            bytes.len() > 0 ==> bytes@.last() != 0,
    {
        proof {
            use_type_invariant(self);
        }
        &self.magnitude
    }

    /// The bytes of the absolute value, most significant byte first, without zero bytes at the
    /// front.
    pub fn digits(&self) -> (digits: Vec<u8>)
        ensures
            digits@ == digits_msf(magnitude(self@)),
    {
        proof {
            use_type_invariant(self);
            lemma_digits_msf_of_bytes(self.magnitude@);
        }
        let mut digits: Vec<u8> = Vec::new();
        let mut k: usize = self.magnitude.len();
        while k > 0
            invariant
                k <= self.magnitude.len(),
                digits@ == self.magnitude@.skip(k as int).reverse(),
            decreases k,
        {
            k -= 1;
            digits.push(self.magnitude[k]);
            assert(digits@ =~= self.magnitude@.skip(k as int).reverse());
        }
        assert(self.magnitude@.skip(0) =~= self.magnitude@);
        digits
    }

    /// Tells whether the integer is below zero.
    pub fn is_negative(&self) -> (negative: bool)
        ensures
            negative == (self@ < 0),
    {
        proof {
            use_type_invariant(self);
            if self.negative {
                lemma_le_value_at_least(self.magnitude@);
                lemma_pow256_positive((self.magnitude.len() - 1) as nat);
            }
        }
        self.negative
    }

    /// Two to the power of `bits`.
    pub fn power_of_two(bits: u32) -> (integer: Integer)
        ensures
            integer@ == pow2(bits as nat),
    {
        let full: u32 = bits / 8;
        let top: u8 = 1u8 << ((bits % 8) as u8);
        let mut bytes: Vec<u8> = Vec::new();
        let mut k: u32 = 0;
        while k < full
            invariant
                k <= full,
                bytes.len() == k,
                le_value(bytes@) == 0,
            decreases full - k,
        {
            proof {
                lemma_le_value_push(bytes@, 0);
            }
            bytes.push(0);
            k += 1;
        }
        proof {
            let r = (bits % 8) as u8;
            lemma_le_value_push(bytes@, top);
            lemma_pow256_is_pow2(full as nat);
            vstd::arithmetic::power2::lemma2_to64();
            assert(top == 1 || top == 2 || top == 4 || top == 8 || top == 16 || top == 32 || top
                == 64 || top == 128) by (bit_vector)
                requires
                    top == 1u8 << r,
                    r < 8,
            ;
            assert((r == 0 ==> top == 1) && (r == 1 ==> top == 2) && (r == 2 ==> top == 4) && (r
                == 3 ==> top == 8) && (r == 4 ==> top == 16) && (r == 5 ==> top == 32) && (r == 6
                ==> top == 64) && (r == 7 ==> top == 128)) by (bit_vector)
                requires
                    top == 1u8 << r,
                    r < 8,
            ;
            assert(top == pow2(r as nat));
            lemma_pow2_adds(r as nat, 8 * full as nat);
        }
        bytes.push(top);
        Integer { negative: false, magnitude: bytes }
    }

    /// How many binary digits the absolute value has: none for zero.
    pub fn significant_bits(&self) -> (bits: u32)
        requires
            binary_digits(magnitude(self@)) <= u32::MAX,
        ensures
            bits == binary_digits(magnitude(self@)),
    {
        proof {
            use_type_invariant(self);
        }
        let len: usize = self.magnitude.len();
        if len == 0 {
            return 0;
        }
        proof {
            lemma_binary_digits_of_bytes(self.magnitude@);
        }
        8 * ((len - 1) as u32) + byte_digits(self.magnitude[len - 1])
    }

    /// Tells whether the absolute value has at least as many binary digits.
    pub fn has_bits(&self, bits: u32) -> (result: bool)
        ensures
            result == (binary_digits(magnitude(self@)) >= bits),
    {
        proof {
            use_type_invariant(self);
        }
        let len: usize = self.magnitude.len();
        if len == 0 {
            return bits == 0;
        }
        proof {
            lemma_binary_digits_of_bytes(self.magnitude@);
        }
        let top: u32 = byte_digits(self.magnitude[len - 1]);
        len - 1 > (u32::MAX / 8) as usize || 8 * (len - 1) as u64 + top as u64 >= bits as u64
    }

    /// The same integer with the sign changed.
    pub fn neg(&self) -> (integer: Integer)
        ensures
            integer@ == -self@,
    {
        proof {
            use_type_invariant(self);
        }
        Integer {
            negative: !self.negative && self.magnitude.len() > 0,
            magnitude: bytes_copy(self.magnitude.as_slice()),
        }
    }

    /// The order of the curve.
    pub fn curve_order<E: Curve>() -> (integer: Integer)
        ensures
            integer@ == E::order(),
    {
        let one: Vec<u8> = vec![1u8];
        let zero = Scalar::<E>::zero();
        let unit = Scalar::<E>::from_le_bytes_mod_order(one.as_slice());
        let last = zero.sub(&unit);
        let order = natural::sum(last.to_le_bytes().as_slice(), one.as_slice());
        proof {
            use_type_invariant(&zero);
            zero.lemma_range();
            let q = E::order() as int;
            lemma_one(one@);
            if q == 1 {
                assert(1int % q == 0);
                assert(0int % q == 0);
            } else {
                vstd::arithmetic::div_mod::lemma_small_mod(1, E::order());
                vstd::arithmetic::div_mod::lemma_fundamental_div_mod_converse(-1, q, -1, q - 1);
            }
        }
        Integer::from_le_bytes(order.as_slice())
    }

    /// The residue of the integer modulo the order of the curve.
    pub fn to_scalar<E: Curve>(&self) -> (scalar: Scalar<E>)
        ensures
            scalar.wf(),
            scalar.value() == self@ % (E::order() as int),
    {
        let residue = Scalar::from_le_bytes_mod_order(self.magnitude.as_slice());
        if self.negative {
            proof {
                use_type_invariant(&residue);
                residue.lemma_range();
                let q = E::order() as int;
                let x = le_value(self.magnitude@) as int;
                vstd::arithmetic::div_mod::lemma_sub_mod_noop(0, x, q);
                vstd::arithmetic::div_mod::lemma_small_mod(0, E::order());
            }
            residue.neg()
        } else {
            residue
        }
    }

    /// The residue as an integer.
    pub fn from_scalar<E: Curve>(scalar: &Scalar<E>) -> (integer: Integer)
        ensures
            integer@ == scalar.value(),
    {
        Integer::from_le_bytes(scalar.to_le_bytes().as_slice())
    }

    /// Picks a number in the range from `-range` to `range` by random bytes.
    pub fn pick_from_range(range: &Integer, bytes: &[u8]) -> (integer: Integer)
        requires
            range@ >= 0,
        ensures
            integer@ == picked_from_range(range@, bytes@),
            -range@ <= integer@ <= range@,
    {
        let one: Vec<u8> = vec![1u8];
        proof {
            use_type_invariant(range);
            lemma_one(one@);
            if range.negative {
                lemma_le_value_at_least(range.magnitude@);
                lemma_pow256_positive((range.magnitude.len() - 1) as nat);
            }
        }
        let twice = natural::sum(range.magnitude.as_slice(), range.magnitude.as_slice());
        let size = natural::sum(twice.as_slice(), one.as_slice());
        assert(le_value(size@) == 2 * range@ + 1);
        let offset = natural::remainder(bytes, size.as_slice());
        assert(le_value(offset@) == picked_from_range(range@, bytes@) + range@);
        proof {
            vstd::arithmetic::div_mod::lemma_mod_bound(
                le_value(bytes@) as int,
                2 * range@ + 1,
            );
        }
        if natural::less(offset.as_slice(), range.magnitude.as_slice()) {
            let below = natural::trimmed(
                natural::difference(range.magnitude.as_slice(), offset.as_slice()).as_slice(),
            );
            Integer { negative: below.len() > 0, magnitude: below }
        } else {
            Integer {
                negative: false,
                magnitude: natural::trimmed(
                    natural::difference(offset.as_slice(), range.magnitude.as_slice()).as_slice(),
                ),
            }
        }
    }

    /// How many random bytes a pick from the range from `-range` to `range` takes.
    pub fn pick_len(range: &Integer) -> (len: usize)
        requires
            range@ >= 0,
        ensures
            len == bytes_per_pick(range@),
    {
        proof {
            use_type_invariant(range);
            if range.magnitude.len() > 0 {
                lemma_binary_digits_of_bytes(range.magnitude@);
                let top = range.magnitude@.last();
                lemma_byte_digits(top);
                lemma_le_value_at_least(range.magnitude@);
                lemma_pow256_positive((range.magnitude.len() - 1) as nat);
            }
        }
        if range.magnitude.len() <= usize::MAX - 17 {
            range.magnitude.len() + 17
        } else {
            usize::MAX
        }
    }

    /// Picks a number in the range from `-range` to `range` at random.
    pub fn random_from_range(range: &Integer) -> (integer: Integer)
        requires
            range@ >= 0,
        ensures
            -range@ <= integer@ <= range@,
    {
        let bytes = random_bytes(Integer::pick_len(range));
        Integer::pick_from_range(range, bytes.as_slice())
    }
}

/// A single byte of one stands for one.
proof fn lemma_one(bytes: Seq<u8>)
    requires
        bytes.len() == 1,
        bytes[0] == 1,
    ensures
        le_value(bytes) == 1,
{
    lemma_le_value_first(bytes);
    let rest = bytes.skip(1);
    assert(rest.len() == 0);
    assert(le_value(rest) == 0);
}

/// How many binary digits a byte has.
fn byte_digits(b: u8) -> (digits: u32)
    ensures
        digits == binary_digits(b as nat),
        digits <= 8,
{
    proof {
        if b != 0 {
            lemma_byte_digits(b);
        }
    }
    let mut rest: u8 = b;
    let mut digits: u32 = 0;
    while rest > 0
        invariant
            digits + binary_digits(rest as nat) == binary_digits(b as nat),
            binary_digits(b as nat) <= 8,
        decreases rest,
    {
        rest = rest / 2;
        digits += 1;
    }
    digits
}

/// A byte that is not zero has between one and eight binary digits.
proof fn lemma_byte_digits(b: u8)
    requires
        b != 0,
    ensures
        1 <= binary_digits(b as nat) <= 8,
{
    reveal_with_fuel(binary_digits, 9);
}

} // verus!
