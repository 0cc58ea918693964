//! Arithmetic on natural numbers of any size, kept as bytes, least significant byte first.
use crate::bytes::{
    le_value, lemma_le_value_bound, lemma_le_value_first, lemma_le_value_push,
    lemma_le_value_trailing_zeros, pow256,
};
use vstd::arithmetic::div_mod::{
    lemma_add_mod_noop, lemma_fundamental_div_mod_converse, lemma_mul_mod_noop, lemma_small_mod,
};
use vstd::prelude::*;

verus! {

/// The number with bytes of zero added up to a length.
fn padded(a: &[u8], len: usize) -> (padded: Vec<u8>)
    requires
        a.len() <= len,
    ensures
        padded.len() == len,
        le_value(padded@) == le_value(a@),
{
    let mut padded: Vec<u8> = crate::bytes::bytes_copy(a);
    while padded.len() < len
        invariant
            padded.len() <= len,
            le_value(padded@) == le_value(a@),
        decreases len - padded.len(),
    {
        proof {
            lemma_le_value_push(padded@, 0);
        }
        padded.push(0);
    }
    padded
}

/// The number without bytes of zero at the end.
pub fn trimmed(a: &[u8]) -> (trimmed: Vec<u8>)
    ensures
        le_value(trimmed@) == le_value(a@),
        trimmed.len() <= a.len(),
        trimmed.len() > 0 ==> trimmed@.last() != 0,
{
    let mut len: usize = a.len();
    while len > 0 && a[len - 1] == 0
        invariant
            len <= a.len(),
            forall|k: int| len <= k < a.len() ==> a@[k] == 0,
        decreases len,
    {
        len -= 1;
    }
    proof {
        lemma_le_value_trailing_zeros(a@, len as int);
    }
    let mut trimmed: Vec<u8> = Vec::new();
    let mut k: usize = 0;
    while k < len
        invariant
            k <= len <= a.len(),
            trimmed@ == a@.take(k as int),
        decreases len - k,
    {
        trimmed.push(a[k]);
        k += 1;
        assert(trimmed@ =~= a@.take(k as int));
    }
    trimmed
}

/// Tells whether one number is below another.
pub fn less(a: &[u8], b: &[u8]) -> (less: bool)
    ensures
        less == (le_value(a@) < le_value(b@)),
{
    let len: usize = if a.len() < b.len() {
        b.len()
    } else {
        a.len()
    };
    let a = padded(a, len);
    let b = padded(b, len);
    let mut less = false;
    let mut k: usize = 0;
    while k < len
        invariant
            a.len() == len,
            b.len() == len,
            k <= len,
            less == (le_value(a@.take(k as int)) < le_value(b@.take(k as int))),
        decreases len - k,
    {
        proof {
            let p = pow256(k as nat);
            assert(a@.take(k as int + 1) =~= a@.take(k as int).push(a@[k as int]));
            assert(b@.take(k as int + 1) =~= b@.take(k as int).push(b@[k as int]));
            lemma_le_value_push(a@.take(k as int), a@[k as int]);
            lemma_le_value_push(b@.take(k as int), b@[k as int]);
            lemma_le_value_bound(a@.take(k as int));
            lemma_le_value_bound(b@.take(k as int));
            let x = a@[k as int] as int;
            let y = b@[k as int] as int;
            if x < y {
                assert(x * p + p <= y * p) by (nonlinear_arith)
                    requires
                        x + 1 <= y,
                        p >= 0,
                ;
            } else if y < x {
                assert(y * p + p <= x * p) by (nonlinear_arith)
                    requires
                        y + 1 <= x,
                        p >= 0,
                ;
            }
        }
        if a[k] < b[k] {
            less = true;
        } else if b[k] < a[k] {
            less = false;
        }
        k += 1;
    }
    proof {
        assert(a@.take(len as int) =~= a@);
        assert(b@.take(len as int) =~= b@);
    }
    less
}

/// The sum of two numbers.
pub fn sum(a: &[u8], b: &[u8]) -> (sum: Vec<u8>)
    ensures
        le_value(sum@) == le_value(a@) + le_value(b@),
{
    let len: usize = if a.len() < b.len() {
        b.len()
    } else {
        a.len()
    };
    let a = padded(a, len);
    let b = padded(b, len);
    let mut sum: Vec<u8> = Vec::new();
    let mut carry: u16 = 0;
    let mut k: usize = 0;
    while k < len
        invariant
            a.len() == len,
            b.len() == len,
            k <= len,
            sum.len() == k,
            carry <= 1,
            le_value(sum@) + carry * pow256(k as nat) == le_value(a@.take(k as int)) + le_value(
                b@.take(k as int),
            ),
        decreases len - k,
    {
        let total: u16 = a[k] as u16 + b[k] as u16 + carry;
        let low: u8 = (total % 256) as u8;
        proof {
            let p = pow256(k as nat) as int;
            assert(a@.take(k as int + 1) =~= a@.take(k as int).push(a@[k as int]));
            assert(b@.take(k as int + 1) =~= b@.take(k as int).push(b@[k as int]));
            lemma_le_value_push(a@.take(k as int), a@[k as int]);
            lemma_le_value_push(b@.take(k as int), b@[k as int]);
            lemma_le_value_push(sum@, low);
            assert(pow256((k + 1) as nat) == 256 * p);
            let c = (total / 256) as int;
            let x = a@[k as int] as int;
            let y = b@[k as int] as int;
            assert(low * p + c * (256 * p) == x * p + y * p + carry * p) by (nonlinear_arith)
                requires
                    low + 256 * c == x + y + carry,
            ;
        }
        sum.push(low);
        carry = total / 256;
        k += 1;
    }
    proof {
        assert(a@.take(len as int) =~= a@);
        assert(b@.take(len as int) =~= b@);
        lemma_le_value_push(sum@, carry as u8);
    }
    sum.push(carry as u8);
    sum
}

/// The difference of two numbers, the second not above the first.
pub fn difference(a: &[u8], b: &[u8]) -> (difference: Vec<u8>)
    requires
        le_value(b@) <= le_value(a@),
    ensures
        le_value(difference@) == le_value(a@) - le_value(b@),
{
    let len: usize = if a.len() < b.len() {
        b.len()
    } else {
        a.len()
    };
    let a = padded(a, len);
    let b = padded(b, len);
    let mut difference: Vec<u8> = Vec::new();
    let mut borrow: u16 = 0;
    let mut k: usize = 0;
    while k < len
        invariant
            a.len() == len,
            b.len() == len,
            k <= len,
            difference.len() == k,
            borrow <= 1,
            le_value(difference@) - borrow * pow256(k as nat) == le_value(a@.take(k as int))
                - le_value(b@.take(k as int)),
        decreases len - k,
    {
        let total: u16 = 256 + a[k] as u16 - b[k] as u16 - borrow;
        let low: u8 = (total % 256) as u8;
        let next: u16 = 1 - total / 256;
        proof {
            let p = pow256(k as nat) as int;
            assert(a@.take(k as int + 1) =~= a@.take(k as int).push(a@[k as int]));
            assert(b@.take(k as int + 1) =~= b@.take(k as int).push(b@[k as int]));
            lemma_le_value_push(a@.take(k as int), a@[k as int]);
            lemma_le_value_push(b@.take(k as int), b@[k as int]);
            lemma_le_value_push(difference@, low);
            assert(pow256((k + 1) as nat) == 256 * p);
            let x = a@[k as int] as int;
            let y = b@[k as int] as int;
            assert(low * p - next * (256 * p) == x * p - y * p - borrow * p) by (nonlinear_arith)
                requires
                    low - 256 * next == x - y - borrow,
            ;
        }
        difference.push(low);
        borrow = next;
        k += 1;
    }
    proof {
        assert(a@.take(len as int) =~= a@);
        assert(b@.take(len as int) =~= b@);
        lemma_le_value_bound(difference@);
        if borrow == 1 {
            assert(borrow * pow256(len as nat) == pow256(len as nat)) by (nonlinear_arith)
                requires
                    borrow == 1,
            ;
        }
        assert(0 * pow256(len as nat) == 0) by (nonlinear_arith);
    }
    difference
}

/// The number with a byte put in below the others.
fn shifted(a: &[u8], low: u8) -> (shifted: Vec<u8>)
    ensures
        le_value(shifted@) == 256 * le_value(a@) + low,
{
    let mut shifted: Vec<u8> = Vec::new();
    shifted.push(low);
    let mut k: usize = 0;
    while k < a.len()
        invariant
            k <= a.len(),
            shifted@ == seq![low] + a@.take(k as int),
        decreases a.len() - k,
    {
        shifted.push(a[k]);
        k += 1;
        assert(shifted@ =~= seq![low] + a@.take(k as int));
    }
    proof {
        lemma_le_value_first(shifted@);
        assert(shifted@.skip(1) =~= a@);
    }
    shifted
}

/// The remainder of a number by another, which is not zero.
pub fn remainder(a: &[u8], m: &[u8]) -> (remainder: Vec<u8>)
    requires
        le_value(m@) > 0,
    ensures
        le_value(remainder@) == le_value(a@) % le_value(m@),
{
    let mut rest: Vec<u8> = Vec::new();
    let mut k: usize = a.len();
    proof {
        assert(a@.skip(k as int) =~= Seq::<u8>::empty());
        lemma_small_mod(0, le_value(m@));
    }
    while k > 0
        invariant
            k <= a.len(),
            le_value(m@) > 0,
            le_value(rest@) == le_value(a@.skip(k as int)) % le_value(m@),
        decreases k,
    {
        k -= 1;
        let ghost q = le_value(m@) as int;
        let ghost high = le_value(a@.skip(k as int + 1)) as int;
        let ghost low = a@[k as int] as int;
        proof {
            lemma_le_value_first(a@.skip(k as int));
            assert(a@.skip(k as int).skip(1) =~= a@.skip(k as int + 1));
        }
        rest = shifted(rest.as_slice(), a[k]);
        let ghost start = le_value(rest@) as int;
        proof {
            lemma_add_mod_noop(256 * (high % q), low, q);
            lemma_add_mod_noop(256 * high, low, q);
            lemma_mul_mod_noop(256, high, q);
            lemma_mul_mod_noop(256, high % q, q);
            vstd::arithmetic::div_mod::lemma_mod_twice(high, q);
            assert(start % q == (256 * high + low) % q);
        }
        let ghost mut times: int = 0;
        while !less(rest.as_slice(), m)
            invariant
                q == le_value(m@),
                q > 0,
                start == le_value(rest@) + times * q,
            decreases le_value(rest@),
        {
            rest = trimmed(difference(rest.as_slice(), m).as_slice());
            proof {
                assert((times + 1) * q == times * q + q) by (nonlinear_arith);
                times = times + 1;
            }
        }
        proof {
            assert(start == q * times + le_value(rest@)) by (nonlinear_arith)
                requires
                    start == le_value(rest@) + times * q,
            ;
            lemma_fundamental_div_mod_converse(start, q, times, le_value(rest@) as int);
        }
    }
    proof {
        assert(a@.skip(0) =~= a@);
    }
    rest
}

} // verus!
