//! Byte strings: the numbers they stand for, comparison and exclusive or.
use vstd::prelude::*;

verus! {

/// `256^n`.
pub open spec fn pow256(n: nat) -> nat
    decreases n,
{
    if n == 0 {
        1
    } else {
        256 * pow256((n - 1) as nat)
    }
}

/// The number that `bytes` stands for, least significant byte first.
pub open spec fn le_value(bytes: Seq<u8>) -> nat
    decreases bytes.len(),
{
    if bytes.len() == 0 {
        0
    } else {
        le_value(bytes.drop_last()) + bytes.last() as nat * pow256((bytes.len() - 1) as nat)
    }
}

/// The byte strings behind a sequence of byte vectors.
pub open spec fn byte_views(vectors: Seq<Vec<u8>>) -> Seq<Seq<u8>> {
    Seq::new(vectors.len(), |k: int| vectors[k]@)
}

/// The byte-wise exclusive or of two strings, as long as the first.
pub open spec fn xor_bytes(a: Seq<u8>, b: Seq<u8>) -> Seq<u8> {
    Seq::new(a.len(), |k: int| a[k] ^ b[k])
}

pub proof fn lemma_pow256_positive(n: nat)
    ensures
        pow256(n) > 0,
    decreases n,
{
    if n > 0 {
        lemma_pow256_positive((n - 1) as nat);
    }
}

/// A string of `n` bytes stands for less than `256^n`.
pub proof fn lemma_le_value_bound(bytes: Seq<u8>)
    ensures
        le_value(bytes) < pow256(bytes.len()),
    decreases bytes.len(),
{
    if bytes.len() > 0 {
        lemma_le_value_bound(bytes.drop_last());
        let p = pow256((bytes.len() - 1) as nat);
        let b = bytes.last() as nat;
        assert(b * p <= 255 * p) by (nonlinear_arith)
            requires
                b <= 255,
        ;
    }
}

/// Pushing a byte adds it at the next power.
pub proof fn lemma_le_value_push(bytes: Seq<u8>, b: u8)
    ensures
        le_value(bytes.push(b)) == le_value(bytes) + b as nat * pow256(bytes.len()),
{
    assert(bytes.push(b).drop_last() =~= bytes);
}

/// The first byte has weight one, and the rest weighs 256 times what it would alone.
pub proof fn lemma_le_value_first(bytes: Seq<u8>)
    requires
        bytes.len() > 0,
    ensures
        le_value(bytes) == bytes[0] as nat + 256 * le_value(bytes.skip(1)),
    decreases bytes.len(),
{
    if bytes.len() == 1 {
        assert(bytes.skip(1) =~= Seq::<u8>::empty());
        assert(bytes.drop_last() =~= Seq::<u8>::empty());
        assert(le_value(bytes.drop_last()) == 0);
        assert(pow256(0) == 1);
    } else {
        lemma_le_value_first(bytes.drop_last());
        assert(bytes.drop_last().skip(1) =~= bytes.skip(1).drop_last());
        let p = pow256((bytes.len() - 2) as nat);
        assert(pow256((bytes.len() - 1) as nat) == 256 * p);
        let b = bytes.last() as nat;
        assert(b * (256 * p) == 256 * (b * p)) by (nonlinear_arith);
        assert(bytes.skip(1).last() == bytes.last());
    }
}

/// Bytes of zero at the end change nothing.
pub proof fn lemma_le_value_trailing_zeros(bytes: Seq<u8>, n: int)
    requires
        0 <= n <= bytes.len(),
        forall|k: int| n <= k < bytes.len() ==> bytes[k] == 0,
    ensures
        le_value(bytes.take(n)) == le_value(bytes),
    decreases bytes.len() - n,
{
    if n < bytes.len() {
        lemma_le_value_trailing_zeros(bytes.drop_last(), n);
        assert(bytes.drop_last().take(n) =~= bytes.take(n));
        assert(bytes.last() == 0);
    } else {
        assert(bytes.take(n) =~= bytes);
    }
}

/// A string with a byte that is not zero does not stand for zero.
pub proof fn lemma_le_value_nonzero(bytes: Seq<u8>, k: int)
    requires
        0 <= k < bytes.len(),
        bytes[k] != 0,
    ensures
        le_value(bytes) != 0,
    decreases bytes.len(),
{
    lemma_pow256_positive((bytes.len() - 1) as nat);
    if k == bytes.len() - 1 {
        lemma_le_value_at_least(bytes);
    } else {
        lemma_le_value_nonzero(bytes.drop_last(), k);
    }
}

/// A string whose last byte is not zero stands for at least `256^(n - 1)`.
pub proof fn lemma_le_value_at_least(bytes: Seq<u8>)
    requires
        bytes.len() > 0,
        bytes.last() != 0,
    ensures
        le_value(bytes) >= pow256((bytes.len() - 1) as nat),
{
    let p = pow256((bytes.len() - 1) as nat);
    let b = bytes.last() as nat;
    assert(b * p >= p) by (nonlinear_arith)
        requires
            b >= 1,
    ;
}

/// Tells whether two byte strings are equal.
pub fn bytes_equal(a: &[u8], b: &[u8]) -> (equal: bool)
    ensures
        equal == (a@ == b@),
{
    if a.len() != b.len() {
        return false;
    }
    let mut k: usize = 0;
    while k < a.len()
        invariant
            a.len() == b.len(),
            k <= a.len(),
            forall|m: int| 0 <= m < k ==> a@[m] == b@[m],
        decreases a.len() - k,
    {
        if a[k] != b[k] {
            return false;
        }
        k += 1;
    }
    assert(a@ =~= b@);
    true
}

/// A copy of a byte string.
pub fn bytes_copy(a: &[u8]) -> (copy: Vec<u8>)
    ensures
        copy@ == a@,
{
    let mut copy: Vec<u8> = Vec::new();
    let mut k: usize = 0;
    while k < a.len()
        invariant
            k <= a.len(),
            copy@ == a@.take(k as int),
        decreases a.len() - k,
    {
        copy.push(a[k]);
        k += 1;
        assert(copy@ =~= a@.take(k as int));
    }
    assert(copy@ =~= a@);
    copy
}

/// The byte-wise exclusive or of two strings of one length.
pub fn xor_array(a: Vec<u8>, b: &[u8]) -> (xor: Vec<u8>)
    requires
        a.len() == b.len(),
    ensures
        xor@ == xor_bytes(a@, b@),
{
    let mut xor: Vec<u8> = Vec::new();
    let mut k: usize = 0;
    while k < a.len()
        invariant
            a.len() == b.len(),
            k <= a.len(),
            xor.len() == k,
            forall|m: int| 0 <= m < k ==> xor@[m] == a@[m] ^ b@[m],
        decreases a.len() - k,
    {
        xor.push(a[k] ^ b[k]);
        k += 1;
    }
    assert(xor@ =~= xor_bytes(a@, b@));
    xor
}

} // verus!
