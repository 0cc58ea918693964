//! Arithmetic modulo a number.
use vstd::arithmetic::div_mod::{
    lemma_add_mod_noop, lemma_mod_bound, lemma_mod_twice, lemma_mul_mod_noop, lemma_sub_mod_noop,
};
use vstd::prelude::*;

verus! {

/// Whether two integers leave the same remainder modulo `q`.
pub open spec fn congruent(a: int, b: int, q: nat) -> bool {
    a % (q as int) == b % (q as int)
}

/// Sums of congruent integers are congruent.
pub proof fn lemma_congruent_add(a: int, b: int, c: int, d: int, q: nat)
    requires
        q > 0,
        congruent(a, b, q),
        congruent(c, d, q),
    ensures
        congruent(a + c, b + d, q),
{
    lemma_add_mod_noop(a, c, q as int);
    lemma_add_mod_noop(b, d, q as int);
}

/// Differences of congruent integers are congruent.
pub proof fn lemma_congruent_sub(a: int, b: int, c: int, d: int, q: nat)
    requires
        q > 0,
        congruent(a, b, q),
        congruent(c, d, q),
    ensures
        congruent(a - c, b - d, q),
{
    lemma_sub_mod_noop(a, c, q as int);
    lemma_sub_mod_noop(b, d, q as int);
}

/// Products of congruent integers are congruent.
pub proof fn lemma_congruent_mul(a: int, b: int, c: int, d: int, q: nat)
    requires
        q > 0,
        congruent(a, b, q),
        congruent(c, d, q),
    ensures
        congruent(a * c, b * d, q),
{
    lemma_mul_mod_noop(a, c, q as int);
    lemma_mul_mod_noop(b, d, q as int);
}

/// An integer is congruent to its remainder, which lies between zero and `q`.
pub proof fn lemma_congruent_mod(a: int, q: nat)
    requires
        q > 0,
    ensures
        congruent(a % (q as int), a, q),
        0 <= a % (q as int) < q,
{
    lemma_mod_twice(a, q as int);
    lemma_mod_bound(a, q as int);
}

/// Two integers between zero and `q` are congruent only if they are equal.
pub proof fn lemma_congruent_small(a: int, b: int, q: nat)
    requires
        0 <= a < q,
        0 <= b < q,
    ensures
        congruent(a, b, q) == (a == b),
        a % (q as int) == a,
{
    vstd::arithmetic::div_mod::lemma_small_mod(a as nat, q);
    vstd::arithmetic::div_mod::lemma_small_mod(b as nat, q);
}

/// Two integers are congruent if and only if their difference is congruent to zero.
pub proof fn lemma_congruent_difference(a: int, b: int, q: nat)
    requires
        q > 0,
    ensures
        congruent(a, b, q) == congruent(a - b, 0, q),
{
    if congruent(a, b, q) {
        lemma_congruent_sub(a, b, b, b, q);
    }
    if congruent(a - b, 0, q) {
        lemma_congruent_add(a - b, 0, b, b, q);
    }
}

} // verus!
