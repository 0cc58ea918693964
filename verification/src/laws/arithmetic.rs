//! Sums, exclusive ors, polynomials and numbers in bytes.
use crate::bytes::{byte_views, le_value, lemma_le_value_first, pow256};
use crate::integer::{digits_msf, magnitude, Integer};
use crate::modular::{
    congruent, lemma_congruent_add, lemma_congruent_difference, lemma_congruent_mod,
    lemma_congruent_small,
};
use crate::polynomial::eval;
use crate::rounds::{combine_rids, xor_all};
use crate::utils::sum;
use vstd::arithmetic::power::{lemma_pow0, pow};
use vstd::prelude::*;

verus! {

/// Everything in a sequence added together.
pub open spec fn total(s: Seq<int>) -> int {
    s.fold_left(0, |a: int, b: int| a + b)
}

/// The exclusive or of all bytes of a sequence.
pub open spec fn xor_of(s: Seq<u8>) -> u8 {
    s.fold_left(0u8, |a: u8, b: u8| a ^ b)
}

/// Two integers are congruent if and only if the modulus divides their difference.
pub proof fn congruent_means_divisible(a: int, b: int, q: nat)
    requires
        q > 0,
    ensures
        congruent(a, b, q) <==> (a - b) % (q as int) == 0,
{
    lemma_congruent_difference(a, b, q);
    lemma_congruent_small(0, 0, q);
}

/// A sum takes in every element once.
pub proof fn sum_is_total(s: Seq<int>)
    ensures
        sum(s) == total(s),
    decreases s.len(),
{
    reveal(Seq::fold_left);
    if s.len() > 0 {
        sum_is_total(s.drop_last());
    }
}

/// When one element of a sum changes, the sum changes by as much.
pub proof fn sum_follows_each_element(s: Seq<int>, k: int, v: int)
    requires
        0 <= k < s.len(),
    ensures
        sum(s.update(k, v)) == sum(s) - s[k] + v,
    decreases s.len(),
{
    let t = s.update(k, v);
    if k == s.len() - 1 {
        assert(t.drop_last() =~= s.drop_last());
    } else {
        assert(t.drop_last() =~= s.drop_last().update(k, v));
        sum_follows_each_element(s.drop_last(), k, v);
    }
}

/// Sums of elements that are congruent one by one are congruent.
pub proof fn lemma_sum_congruent(a: Seq<int>, b: Seq<int>, q: nat)
    requires
        q > 0,
        a.len() == b.len(),
        forall|k: int| 0 <= k < a.len() ==> congruent(#[trigger] a[k], b[k], q),
    ensures
        congruent(sum(a), sum(b), q),
    decreases a.len(),
{
    if a.len() > 0 {
        let c = a.drop_last();
        let d = b.drop_last();
        assert forall|k: int| 0 <= k < c.len() implies congruent(#[trigger] c[k], d[k], q) by {
            assert(congruent(a[k], b[k], q));
        }
        lemma_sum_congruent(c, d, q);
        assert(congruent(a[a.len() - 1], b[a.len() - 1], q));
        lemma_congruent_add(sum(c), sum(d), a.last(), b.last(), q);
    }
}

/// The first element of a sum can be taken out.
proof fn lemma_sum_first(s: Seq<int>)
    requires
        s.len() > 0,
    ensures
        sum(s) == s[0] + sum(s.skip(1)),
    decreases s.len(),
{
    if s.len() == 1 {
        assert(s.skip(1) =~= Seq::<int>::empty());
        assert(s.drop_last() =~= Seq::<int>::empty());
        assert(sum(s.drop_last()) == 0);
    } else {
        lemma_sum_first(s.drop_last());
        assert(s.drop_last().skip(1) =~= s.skip(1).drop_last());
    }
}

/// A sum of multiples is the multiple of the sum.
proof fn lemma_sum_scale(s: Seq<int>, t: Seq<int>, x: int)
    requires
        s.len() == t.len(),
        forall|k: int| 0 <= k < s.len() ==> #[trigger] t[k] == x * s[k],
    ensures
        sum(t) == x * sum(s),
    decreases s.len(),
{
    if s.len() == 0 {
        assert(x * 0 == 0) by (nonlinear_arith);
    } else {
        assert forall|k: int| 0 <= k < s.len() - 1 implies #[trigger] t.drop_last()[k] == x
            * s.drop_last()[k] by {
            assert(t[k] == x * s[k]);
        }
        lemma_sum_scale(s.drop_last(), t.drop_last(), x);
        let a = sum(s.drop_last());
        let b = s.last();
        assert(t[t.len() - 1] == x * s[s.len() - 1]);
        assert(x * (a + b) == x * a + x * b) by (nonlinear_arith);
    }
}

/// A polynomial takes the sum of its coefficients times the powers of the argument.
pub proof fn polynomial_is_a_sum_of_powers(coefs: Seq<int>, x: int)
    ensures
        eval(coefs, x) == total(Seq::new(coefs.len(), |k: int| coefs[k] * pow(x, k as nat))),
{
    lemma_power_sum(coefs, x);
    sum_is_total(Seq::new(coefs.len(), |k: int| coefs[k] * pow(x, k as nat)));
}

proof fn lemma_power_sum(coefs: Seq<int>, x: int)
    ensures
        eval(coefs, x) == sum(Seq::new(coefs.len(), |k: int| coefs[k] * pow(x, k as nat))),
    decreases coefs.len(),
{
    let terms = Seq::new(coefs.len(), |k: int| coefs[k] * pow(x, k as nat));
    if coefs.len() > 0 {
        let rest = coefs.skip(1);
        let rest_terms = Seq::new(rest.len(), |k: int| rest[k] * pow(x, k as nat));
        lemma_power_sum(rest, x);
        lemma_sum_first(terms);
        let tail = terms.skip(1);
        assert forall|k: int| 0 <= k < rest_terms.len() implies #[trigger] tail[k] == x
            * rest_terms[k] by {
            let c = rest[k];
            let p = pow(x, k as nat);
            assert(pow(x, (k + 1) as nat) == x * p) by {
                reveal(pow);
            }
            assert(c * (x * p) == x * (c * p)) by (nonlinear_arith);
        }
        lemma_sum_scale(rest_terms, tail, x);
        lemma_pow0(x);
        assert(terms[0] == coefs[0] * 1);
    }
}

/// A byte string stands for the sum of its bytes times the powers of 256.
pub proof fn number_is_a_sum_of_bytes(bytes: Seq<u8>)
    ensures
        le_value(bytes) == total(
            Seq::new(bytes.len(), |k: int| bytes[k] as int * pow(256, k as nat)),
        ),
{
    let terms = Seq::new(bytes.len(), |k: int| bytes[k] as int * pow(256, k as nat));
    lemma_byte_sum(bytes);
    sum_is_total(terms);
}

proof fn lemma_byte_sum(bytes: Seq<u8>)
    ensures
        le_value(bytes) == sum(
            Seq::new(bytes.len(), |k: int| bytes[k] as int * pow(256, k as nat)),
        ),
    decreases bytes.len(),
{
    if bytes.len() > 0 {
        let terms = Seq::new(bytes.len(), |k: int| bytes[k] as int * pow(256, k as nat));
        let before = bytes.drop_last();
        lemma_byte_sum(before);
        assert(terms.drop_last() =~= Seq::new(
            before.len(),
            |k: int| before[k] as int * pow(256, k as nat),
        ));
        lemma_pow256_is_pow((bytes.len() - 1) as nat);
    }
}

proof fn lemma_pow256_is_pow(n: nat)
    ensures
        pow256(n) == pow(256, n),
    decreases n,
{
    reveal(pow);
    if n > 0 {
        lemma_pow256_is_pow((n - 1) as nat);
    }
}

/// Byte `k` of all contributions combined is the exclusive or of the bytes `k` of every one of
/// them.
pub proof fn combined_bytes(rids: &Vec<Vec<u8>>, len: usize, rid: Vec<u8>, k: int)
    requires
        forall|j: int| 0 <= j < rids.len() ==> (#[trigger] rids@[j]).len() == len,
        call_ensures(combine_rids, (rids, len), rid),
        0 <= k < len,
    ensures
        rid.len() == len,
        rid@[k] == xor_of(Seq::new(rids@.len(), |j: int| rids@[j]@[k])),
{
    let views = byte_views(rids@);
    lemma_xor_all_byte(views, len as nat, k);
    assert(Seq::new(views.len(), |j: int| views[j][k]) =~= Seq::new(
        rids@.len(),
        |j: int| rids@[j]@[k],
    ));
}

/// Byte `k` of an exclusive or of strings is the exclusive or of their bytes `k`.
pub proof fn lemma_xor_all_byte(rids: Seq<Seq<u8>>, len: nat, k: int)
    requires
        0 <= k < len,
    ensures
        xor_all(rids, len).len() == len,
        xor_all(rids, len)[k] == xor_of(Seq::new(rids.len(), |j: int| rids[j][k])),
    decreases rids.len(),
{
    reveal(Seq::fold_left);
    let bytes = Seq::new(rids.len(), |j: int| rids[j][k]);
    if rids.len() > 0 {
        let before = rids.drop_last();
        lemma_xor_all_byte(before, len, k);
        assert(bytes.drop_last() =~= Seq::new(before.len(), |j: int| before[j][k]));
    }
}

/// When one contribution changes, the combined string changes in the same bits.
pub proof fn combined_bytes_follow_each_contribution(
    rids: &Vec<Vec<u8>>,
    others: &Vec<Vec<u8>>,
    len: usize,
    rid: Vec<u8>,
    other: Vec<u8>,
    j: int,
    k: int,
)
    requires
        forall|m: int| 0 <= m < rids.len() ==> (#[trigger] rids@[m]).len() == len,
        forall|m: int| 0 <= m < others.len() ==> (#[trigger] others@[m]).len() == len,
        call_ensures(combine_rids, (rids, len), rid),
        call_ensures(combine_rids, (others, len), other),
        rids.len() == others.len(),
        0 <= j < rids.len(),
        forall|m: int| 0 <= m < rids.len() && m != j ==> (#[trigger] rids@[m])@ == others@[m]@,
        0 <= k < len,
    ensures
        rid@[k] ^ other@[k] == rids@[j]@[k] ^ others@[j]@[k],
{
    let a = Seq::new(rids@.len(), |m: int| rids@[m]@[k]);
    let b = Seq::new(others@.len(), |m: int| others@[m]@[k]);
    combined_bytes(rids, len, rid, k);
    combined_bytes(others, len, other, k);
    xor_follows_each_byte(a, b, j);
}

/// When one byte of an exclusive or changes, the result changes in the same bits.
pub proof fn xor_follows_each_byte(a: Seq<u8>, b: Seq<u8>, j: int)
    requires
        a.len() == b.len(),
        0 <= j < a.len(),
        forall|m: int| 0 <= m < a.len() && m != j ==> #[trigger] a[m] == b[m],
    ensures
        xor_of(a) ^ xor_of(b) == a[j] ^ b[j],
    decreases a.len(),
{
    reveal(Seq::fold_left);
    let c = a.drop_last();
    let d = b.drop_last();
    let (x, y) = (xor_of(c), xor_of(d));
    let (u, v) = (a.last(), b.last());
    assert(xor_of(a) == x ^ u);
    assert(xor_of(b) == y ^ v);
    if j == a.len() - 1 {
        assert forall|m: int| 0 <= m < c.len() implies c[m] == d[m] by {
            assert(a[m] == b[m]);
        }
        assert(c =~= d);
        assert((x ^ u) ^ (x ^ v) == u ^ v) by (bit_vector);
    } else {
        assert forall|m: int| 0 <= m < c.len() && m != j implies #[trigger] c[m] == d[m] by {
            assert(a[m] == b[m]);
        }
        xor_follows_each_byte(c, d, j);
        assert(a[a.len() - 1] == b[a.len() - 1]);
        assert((x ^ u) ^ (y ^ u) == x ^ y) by (bit_vector);
    }
}

/// A pick lies in its range and is as far from the lower end as the bytes say, modulo the number
/// of elements of the range.
pub proof fn pick_lies_in_the_range(range: &Integer, bytes: &[u8], integer: Integer)
    requires
        range@ >= 0,
        call_ensures(Integer::pick_from_range, (range, bytes), integer),
    ensures
        -range@ <= integer@ <= range@,
        congruent(integer@ + range@, le_value(bytes@) as int, (2 * range@ + 1) as nat),
{
    lemma_congruent_mod(le_value(bytes@) as int, (2 * range@ + 1) as nat);
}

/// The digits of an integer give it back, and start with no zero.
pub proof fn digits_give_the_number_back(integer: &Integer, digits: Vec<u8>)
    requires
        call_ensures(Integer::digits, (integer,), digits),
    ensures
        le_value(digits@.reverse()) == integer@ || le_value(digits@.reverse()) == -integer@,
        digits.len() > 0 ==> digits@[0] != 0,
{
    lemma_digits(magnitude(integer@));
}

proof fn lemma_digits(x: nat)
    ensures
        le_value(digits_msf(x).reverse()) == x,
        digits_msf(x).len() > 0 ==> digits_msf(x)[0] != 0,
        x > 0 ==> digits_msf(x).len() > 0,
    decreases x,
{
    if x > 0 {
        let before = digits_msf(x / 256);
        let digits = digits_msf(x);
        lemma_digits(x / 256);
        lemma_le_value_first(digits.reverse());
        assert(digits.reverse().skip(1) =~= before.reverse());
        if x / 256 == 0 {
            assert(before =~= Seq::<u8>::empty());
            assert(digits[0] == (x % 256) as u8);
        } else {
            assert(digits[0] == before[0]);
        }
    } else {
        assert(digits_msf(x).reverse() =~= Seq::<u8>::empty());
    }
}

} // verus!
