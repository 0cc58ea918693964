//! A group of about a million elements: the integers modulo a prime, under addition.
//!
//! Logarithms in it are no secret, so it hides nothing. It is small enough to compute in by
//! hand. Its operations rest on nothing but arithmetic, its random scalars on random bytes.
use crate::bytes::{le_value, lemma_le_value_first};
use crate::curve::{is_point, is_scalar, log, Curve, Group};
use crate::modular::{lemma_congruent_add, lemma_congruent_mod, lemma_congruent_mul};
use crate::random::random_bytes;
use vstd::prelude::*;

verus! {

/// The integers modulo 1000003.
pub struct Million;

/// The number of elements of the group.
const ORDER: u64 = 1_000_003;

/// The four bytes of a number, least significant byte first.
pub open spec fn four_bytes(k: nat) -> Seq<u8> {
    seq![
        (k % 256) as u8,
        (k / 256 % 256) as u8,
        (k / 65536 % 256) as u8,
        (k / 16777216 % 256) as u8,
    ]
}

impl Group for Million {
    open spec fn order() -> nat {
        1_000_003
    }

    open spec fn scalar_len() -> nat {
        4
    }

    open spec fn encoding(k: nat) -> Seq<u8> {
        four_bytes(k)
    }

    open spec fn decoding(bytes: Seq<u8>) -> Option<Seq<u8>> {
        if bytes.len() == 4 && le_value(bytes) < 1_000_003 {
            Some(bytes)
        } else {
            None
        }
    }

    open spec fn group_name() -> Seq<char> {
        "million"@
    }
}

/// What four bytes stand for.
proof fn lemma_le_value_of_four(bytes: Seq<u8>)
    requires
        bytes.len() == 4,
    ensures
        le_value(bytes) == bytes[0] + 256 * bytes[1] + 65536 * bytes[2] + 16777216 * bytes[3],
        four_bytes(le_value(bytes)) == bytes,
{
    let a = bytes.skip(1);
    let b = a.skip(1);
    let c = b.skip(1);
    let d = c.skip(1);
    lemma_le_value_first(bytes);
    lemma_le_value_first(a);
    lemma_le_value_first(b);
    lemma_le_value_first(c);
    assert(d =~= Seq::<u8>::empty());
    assert(le_value(d) == 0);
    assert(four_bytes(le_value(bytes)) =~= bytes);
}

/// Four bytes of a number below 2^32 stand for it.
proof fn lemma_four_bytes(k: nat)
    requires
        k < 0x1_0000_0000,
    ensures
        le_value(four_bytes(k)) == k,
{
    lemma_le_value_of_four(four_bytes(k));
}

/// A point is four bytes that stand for its logarithm.
proof fn lemma_point(bytes: Seq<u8>)
    ensures
        is_point::<Million>(bytes) == (bytes.len() == 4 && le_value(bytes) < 1_000_003),
        is_point::<Million>(bytes) ==> log::<Million>(bytes) == le_value(bytes),
{
    if is_point::<Million>(bytes) {
        let k = log::<Million>(bytes);
        assert(k < Million::order() && Million::encoding(k) == bytes);
        lemma_four_bytes(k);
    }
    if bytes.len() == 4 && le_value(bytes) < 1_000_003 {
        lemma_le_value_of_four(bytes);
        assert(Million::encoding(le_value(bytes)) == bytes);
    }
}

/// Reads four bytes.
fn read(bytes: &[u8]) -> (k: u64)
    requires
        bytes.len() == 4,
    ensures
        k == le_value(bytes@),
{
    proof {
        lemma_le_value_of_four(bytes@);
    }
    bytes[0] as u64 + 256 * bytes[1] as u64 + 65536 * bytes[2] as u64 + 16777216 * bytes[3] as u64
}

/// Writes four bytes.
fn write(k: u64) -> (bytes: Vec<u8>)
    requires
        k < 1_000_003,
    ensures
        le_value(bytes@) == k,
        is_scalar::<Million>(bytes@),
        is_point::<Million>(bytes@),
        log::<Million>(bytes@) == k,
{
    let bytes: Vec<u8> = vec![
        (k % 256) as u8,
        (k / 256 % 256) as u8,
        (k / 65536 % 256) as u8,
        (k / 16777216 % 256) as u8,
    ];
    proof {
        assert(bytes@ =~= four_bytes(k as nat));
        lemma_four_bytes(k as nat);
        lemma_point(bytes@);
    }
    bytes
}

/// The product of two residues.
fn product(a: u64, b: u64) -> (c: u64)
    requires
        a < 1_000_003,
        b < 1_000_003,
    ensures
        c == (a * b) % 1_000_003,
        c < 1_000_003,
{
    assert(a * b <= 1_000_003 * 1_000_003) by (nonlinear_arith)
        requires
            0 <= a < 1_000_003,
            0 <= b < 1_000_003,
    ;
    (a * b) % ORDER
}

impl Curve for Million {
    fn name() -> (name: &'static str) {
        "million"
    }

    fn generator_mul(scalar: &[u8]) -> (point: Vec<u8>) {
        write(read(scalar))
    }

    fn point_mul(point: &[u8], scalar: &[u8]) -> (product: Vec<u8>) {
        proof {
            lemma_point(point@);
        }
        write(self::product(read(point), read(scalar)))
    }

    fn point_add(a: &[u8], b: &[u8]) -> (sum: Vec<u8>) {
        proof {
            lemma_point(a@);
            lemma_point(b@);
        }
        write((read(a) + read(b)) % ORDER)
    }

    fn point_decode(bytes: &[u8]) -> (point: Option<Vec<u8>>) {
        proof {
            lemma_point(bytes@);
        }
        if bytes.len() == 4 && read(bytes) < ORDER {
            Some(crate::bytes::bytes_copy(bytes))
        } else {
            None
        }
    }

    fn scalar_decode(bytes: &[u8]) -> (scalar: Option<Vec<u8>>) {
        if bytes.len() > 4 {
            return None;
        }
        let mut padded = crate::bytes::bytes_copy(bytes);
        while padded.len() < 4
            invariant
                padded.len() <= 4,
                le_value(padded@) == le_value(bytes@),
            decreases 4 - padded.len(),
        {
            proof {
                crate::bytes::lemma_le_value_push(padded@, 0);
            }
            padded.push(0);
        }
        if read(padded.as_slice()) < ORDER {
            Some(padded)
        } else {
            None
        }
    }

    fn scalar_reduce(bytes: &[u8]) -> (scalar: Vec<u8>) {
        let mut rest: u64 = 0;
        let mut k: usize = bytes.len();
        assert(bytes@.skip(k as int) =~= Seq::<u8>::empty());
        while k > 0
            invariant
                k <= bytes.len(),
                rest < 1_000_003,
                rest == le_value(bytes@.skip(k as int)) % 1_000_003,
            decreases k,
        {
            k -= 1;
            proof {
                let high = le_value(bytes@.skip(k as int + 1)) as int;
                let low = bytes@[k as int] as int;
                lemma_le_value_first(bytes@.skip(k as int));
                assert(bytes@.skip(k as int).skip(1) =~= bytes@.skip(k as int + 1));
                lemma_congruent_mod(high, 1_000_003);
                lemma_congruent_mul(256, 256, rest as int, high, 1_000_003);
                lemma_congruent_add(256 * rest, 256 * high, low, low, 1_000_003);
            }
            rest = (256 * rest + bytes[k] as u64) % ORDER;
        }
        assert(bytes@.skip(0) =~= bytes@);
        write(rest)
    }

    fn scalar_add(a: &[u8], b: &[u8]) -> (sum: Vec<u8>) {
        write((read(a) + read(b)) % ORDER)
    }

    fn scalar_sub(a: &[u8], b: &[u8]) -> (difference: Vec<u8>) {
        let (x, y): (u64, u64) = (read(a), read(b));
        proof {
            vstd::arithmetic::div_mod::lemma_mod_add_multiples_vanish(x - y, 1_000_003);
        }
        write((ORDER + x - y) % ORDER)
    }

    fn scalar_mul(a: &[u8], b: &[u8]) -> (product: Vec<u8>) {
        write(self::product(read(a), read(b)))
    }

    fn scalar_random() -> (scalar: Vec<u8>) {
        let bytes = random_bytes(4);
        write(read(bytes.as_slice()) % (ORDER - 1) + 1)
    }
}

} // verus!
