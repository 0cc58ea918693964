//! ZK-proof of discrete log with El-Gamal commitment.
//! Called Пelog or Relog in the CGGMP21/CGGMP24 papers.
//!
//! ## Description
//!
//! Common inputs:
//! - Curve `E` with generator $G$ of prime subgroup of size $q$
//! - $L, M, X, Y, H$ are points on curve `E`
//!
//! Prover has secret inputs $y, \lambda$ (scalars modulo $q$) such that $L = \lambda G,
//! M = \lambda X + y G, Y = y H$
//!
//! The equations between points are stated between their logarithms, modulo $q$.
use crate::curve::{Curve, Point};
use crate::integer::Integer;
use crate::modular::{
    congruent, lemma_congruent_add, lemma_congruent_difference, lemma_congruent_mod,
    lemma_congruent_mul, lemma_congruent_sub,
};
use vstd::prelude::*;

/// The interactive version of the ZK proof.
pub mod interactive;
/// The non-interactive version of the proof.
pub mod non_interactive;

verus! {

/// Security parameters for proof. Choosing the values is a tradeoff between
/// speed and chance of rejecting a valid proof or accepting an invalid proof
pub struct SecurityParams {
    /// q in paper. Security parameter for challenge
    pub q: Integer,
}

/// Public data that both parties know
pub struct Data<'a, C: Curve> {
    /// L in paper, obtained as g^\lambda
    pub l: &'a Point<C>,
    /// M in paper, obtained as g^y X^\lambda
    pub m: &'a Point<C>,
    /// X in paper
    pub x: &'a Point<C>,
    /// Y in paper, obtained as h^y
    pub h_to_y: &'a Point<C>,
    /// h in paper
    pub h: &'a Point<C>,
}

impl<'a, C: Curve> Clone for Data<'a, C> {
    fn clone(&self) -> (copy: Self)
        ensures
            copy == *self,
    {
        *self
    }
}

impl<'a, C: Curve> Copy for Data<'a, C> {

}

/// Private data of prover
#[derive(Clone, Copy)]
pub struct PrivateData<'a> {
    /// y or epsilon in paper, log of Y base h
    pub y: &'a Integer,
    /// lambda in paper, preimage of L
    pub lambda: &'a Integer,
}

/// Prover's first message, obtained by [`interactive::commit`]
pub struct Commitment<C: Curve> {
    /// A in paper, obtained as g^\alpha
    pub a: Point<C>,
    /// N in paper, obtained as g^m X^\alpha
    pub cap_n: Point<C>,
    /// B in paper, obtained as h^m
    pub b: Point<C>,
}

/// Prover's data accompanying the commitment. Kept as state between rounds in
/// the interactive protocol.
pub struct PrivateCommitment {
    /// Masks lambda
    pub alpha: Integer,
    /// Masks y
    pub m: Integer,
}

/// Verifier's challenge to prover. Can be obtained deterministically by
/// [`non_interactive::challenge`] or randomly by [`interactive::challenge`]
pub type Challenge = Integer;

/// The ZK proof. Computed by [`interactive::prove`] or
/// [`non_interactive::prove`]
pub struct Proof {
    /// Opens the commitment for lambda
    pub z: Integer,
    /// Opens the commitment for y
    pub u: Integer,
}

/// Ring-Pedersen parameters that prover and verifier share
pub struct Aux {
    /// ring-pedersen parameter
    pub s: Integer,
    /// ring-pedersen parameter
    pub t: Integer,
    /// N^ in paper
    pub rsa_modulo: Integer,
}

/// Which check a proof did not pass
#[derive(Debug, Clone, Copy, PartialEq, Eq, Structural)]
pub enum InvalidProofReason {
    /// One equality does not hold. Parameterized by the equality index
    EqualityCheck(usize),
}

/// Error indicating that proof is invalid
#[derive(Debug, Clone, Copy, PartialEq, Eq, Structural)]
pub struct InvalidProof {
    why: InvalidProofReason,
}

impl InvalidProof {
    /// The check that did not pass.
    pub closed spec fn failed_check(&self) -> InvalidProofReason {
        self.why
    }

    /// Makes the error for a check that did not pass.
    pub fn new(why: InvalidProofReason) -> (error: InvalidProof)
        ensures
            error.failed_check() == why,
    {
        InvalidProof { why }
    }

    /// Returns the check that did not pass.
    pub fn reason(&self) -> (reason: &InvalidProofReason)
        ensures
            *reason == self.failed_check(),
    {
        &self.why
    }
}

/// Error of the prover. Nothing that the prover does here fails.
#[derive(Debug, Clone, Copy, PartialEq, Eq, Structural)]
pub struct Error;

/// What the prover claims: $L = \lambda G$, $M = \lambda X + y G$ and $Y = y H$.
pub open spec fn relation<C: Curve>(data: Data<C>, y: int, lambda: int) -> bool {
    &&& congruent(lambda, data.l.log() as int, C::order())
    &&& congruent(y + data.x.log() * lambda, data.m.log() as int, C::order())
    &&& congruent(data.h.log() * y, data.h_to_y.log() as int, C::order())
}

/// Whether a commitment is $A = \alpha G$, $N = m G + \alpha X$ and $B = m H$.
pub open spec fn commits_to<C: Curve>(
    data: Data<C>,
    commitment: Commitment<C>,
    alpha: int,
    m: int,
) -> bool {
    &&& commitment.a.log() == alpha % (C::order() as int)
    &&& commitment.cap_n.log() == (m + data.x.log() * alpha) % (C::order() as int)
    &&& commitment.b.log() == (data.h.log() * m) % (C::order() as int)
}

/// Whether a proof is $z = \alpha + e \lambda$ and $u = m + e y$, modulo the order.
pub open spec fn answers<C: Curve>(
    proof: Proof,
    y: int,
    lambda: int,
    alpha: int,
    m: int,
    challenge: int,
) -> bool {
    &&& proof.z@ == (alpha + challenge * lambda) % (C::order() as int)
    &&& proof.u@ == (m + challenge * y) % (C::order() as int)
}

/// The first check of the verifier: $z G = A + e L$.
pub open spec fn first_check<C: Curve>(
    data: Data<C>,
    commitment: Commitment<C>,
    challenge: int,
    proof: Proof,
) -> bool {
    congruent(proof.z@, commitment.a.log() + data.l.log() * challenge, C::order())
}

/// The second check of the verifier: $u G + z X = N + e M$.
pub open spec fn second_check<C: Curve>(
    data: Data<C>,
    commitment: Commitment<C>,
    challenge: int,
    proof: Proof,
) -> bool {
    congruent(
        proof.u@ + data.x.log() * proof.z@,
        commitment.cap_n.log() + data.m.log() * challenge,
        C::order(),
    )
}

/// The third check of the verifier: $u H = B + e Y$.
pub open spec fn third_check<C: Curve>(
    data: Data<C>,
    commitment: Commitment<C>,
    challenge: int,
    proof: Proof,
) -> bool {
    congruent(
        data.h.log() * proof.u@,
        commitment.b.log() + data.h_to_y.log() * challenge,
        C::order(),
    )
}

/// What the verifier answers: the number of the first check that fails, if any does.
pub open spec fn verdict<C: Curve>(
    data: Data<C>,
    commitment: Commitment<C>,
    challenge: int,
    proof: Proof,
) -> Result<(), InvalidProofReason> {
    if !first_check(data, commitment, challenge, proof) {
        Err(InvalidProofReason::EqualityCheck(1))
    } else if !second_check(data, commitment, challenge, proof) {
        Err(InvalidProofReason::EqualityCheck(2))
    } else if !third_check(data, commitment, challenge, proof) {
        Err(InvalidProofReason::EqualityCheck(3))
    } else {
        Ok(())
    }
}

/// Whether the result of a verification is the verdict.
pub open spec fn is_verdict(
    result: Result<(), InvalidProof>,
    verdict: Result<(), InvalidProofReason>,
) -> bool {
    match verdict {
        Ok(()) => result is Ok,
        Err(reason) => result is Err && result->Err_0.failed_check() == reason,
    }
}

/// An honest prover convinces the verifier, whatever the masks and the challenge are.
pub proof fn honest_proof_passes<C: Curve>(
    data: Data<C>,
    commitment: Commitment<C>,
    proof: Proof,
    y: int,
    lambda: int,
    alpha: int,
    m: int,
    challenge: int,
)
    requires
        C::order() > 0,
        relation(data, y, lambda),
        commits_to(data, commitment, alpha, m),
        answers::<C>(proof, y, lambda, alpha, m, challenge),
    ensures
        verdict(data, commitment, challenge, proof) == Ok::<(), InvalidProofReason>(()),
{
    wrong_lambda_is_caught_first(data, commitment, proof, y, lambda, lambda, alpha, m, challenge);
    wrong_y_is_caught_second(data, commitment, proof, y, lambda, y, alpha, m, challenge);
    assert(challenge * (lambda - lambda) == 0) by (nonlinear_arith);
    assert(challenge * (y - y) == 0) by (nonlinear_arith);
    let q = C::order();
    let h = data.h.log() as int;
    lemma_congruent_mod(m + challenge * y, q);
    lemma_congruent_mul(h, h, proof.u@, m + challenge * y, q);
    lemma_congruent_mod(h * m, q);
    lemma_congruent_mul(h * y, data.h_to_y.log() as int, challenge, challenge, q);
    lemma_congruent_add(
        commitment.b.log() as int,
        h * m,
        data.h_to_y.log() * challenge,
        (h * y) * challenge,
        q,
    );
    assert(h * (m + challenge * y) == h * m + (h * y) * challenge) by (nonlinear_arith);
}

/// A prover who answers with a wrong lambda fails the first check, unless the challenge
/// cancels the error modulo the order.
pub proof fn wrong_lambda_is_caught_first<C: Curve>(
    data: Data<C>,
    commitment: Commitment<C>,
    proof: Proof,
    y: int,
    lambda: int,
    wrong_lambda: int,
    alpha: int,
    m: int,
    challenge: int,
)
    requires
        C::order() > 0,
        relation(data, y, lambda),
        commits_to(data, commitment, alpha, m),
        answers::<C>(proof, y, wrong_lambda, alpha, m, challenge),
    ensures
        verdict(data, commitment, challenge, proof) == Err::<(), InvalidProofReason>(
            InvalidProofReason::EqualityCheck(1),
        ) <==> !congruent(challenge * (wrong_lambda - lambda), 0, C::order()),
{
    let q = C::order();
    let l = data.l.log() as int;
    lemma_congruent_mod(alpha + challenge * wrong_lambda, q);
    lemma_congruent_mod(alpha, q);
    lemma_congruent_mul(l, lambda, challenge, challenge, q);
    lemma_congruent_add(commitment.a.log() as int, alpha, l * challenge, lambda * challenge, q);
    lemma_congruent_difference(
        alpha + challenge * wrong_lambda,
        alpha + lambda * challenge,
        q,
    );
    assert(alpha + challenge * wrong_lambda - (alpha + lambda * challenge) == challenge * (
    wrong_lambda - lambda)) by (nonlinear_arith);
}

/// A prover who answers with the right lambda and a wrong y passes the first check, and fails
/// the second one, unless the challenge cancels the error modulo the order.
pub proof fn wrong_y_is_caught_second<C: Curve>(
    data: Data<C>,
    commitment: Commitment<C>,
    proof: Proof,
    y: int,
    lambda: int,
    wrong_y: int,
    alpha: int,
    m: int,
    challenge: int,
)
    requires
        C::order() > 0,
        relation(data, y, lambda),
        commits_to(data, commitment, alpha, m),
        answers::<C>(proof, wrong_y, lambda, alpha, m, challenge),
    ensures
        first_check(data, commitment, challenge, proof),
        verdict(data, commitment, challenge, proof) == Err::<(), InvalidProofReason>(
            InvalidProofReason::EqualityCheck(2),
        ) <==> !congruent(challenge * (wrong_y - y), 0, C::order()),
{
    let q = C::order();
    let x = data.x.log() as int;
    let e = challenge;
    // The first check does not see y.
    lemma_congruent_mod(alpha + e * lambda, q);
    lemma_congruent_mod(alpha, q);
    lemma_congruent_mul(data.l.log() as int, lambda, e, e, q);
    lemma_congruent_add(
        commitment.a.log() as int,
        alpha,
        data.l.log() * e,
        lambda * e,
        q,
    );
    assert(lambda * e == e * lambda) by (nonlinear_arith);
    // Left of the second check.
    let left = (m + e * wrong_y) + x * (alpha + e * lambda);
    lemma_congruent_mod(m + e * wrong_y, q);
    lemma_congruent_mul(x, x, proof.z@, alpha + e * lambda, q);
    lemma_congruent_add(
        proof.u@,
        m + e * wrong_y,
        x * proof.z@,
        x * (alpha + e * lambda),
        q,
    );
    // Right of the second check.
    let right = (m + x * alpha) + (y + x * lambda) * e;
    lemma_congruent_mod(m + x * alpha, q);
    lemma_congruent_mul(data.m.log() as int, y + x * lambda, e, e, q);
    lemma_congruent_add(
        commitment.cap_n.log() as int,
        m + x * alpha,
        data.m.log() * e,
        (y + x * lambda) * e,
        q,
    );
    lemma_congruent_difference(left, right, q);
    assert(left - right == e * (wrong_y - y)) by (nonlinear_arith)
        requires
            left == (m + e * wrong_y) + x * (alpha + e * lambda),
            right == (m + x * alpha) + (y + x * lambda) * e,
    ;
}

/// Who can answer two challenges for one commitment knows the secrets: from two accepted
/// answers, with `inverse` undoing the difference of the challenges modulo the order, the
/// secrets are computed.
pub proof fn two_answers_reveal_the_secrets<C: Curve>(
    data: Data<C>,
    commitment: Commitment<C>,
    challenge: int,
    proof: Proof,
    other_challenge: int,
    other_proof: Proof,
    inverse: int,
)
    requires
        C::order() > 0,
        verdict(data, commitment, challenge, proof) == Ok::<(), InvalidProofReason>(()),
        verdict(data, commitment, other_challenge, other_proof) == Ok::<
            (),
            InvalidProofReason,
        >(()),
        congruent(inverse * (challenge - other_challenge), 1, C::order()),
    ensures
        relation(
            data,
            inverse * (proof.u@ - other_proof.u@),
            inverse * (proof.z@ - other_proof.z@),
        ),
{
    let q = C::order();
    let i = inverse;
    let x = data.x.log() as int;
    let h = data.h.log() as int;
    let z = proof.z@ - other_proof.z@;
    let u = proof.u@ - other_proof.u@;
    lemma_extraction(
        proof.z@,
        other_proof.z@,
        commitment.a.log() as int,
        data.l.log() as int,
        challenge,
        other_challenge,
        i,
        q,
    );
    lemma_extraction(
        proof.u@ + x * proof.z@,
        other_proof.u@ + x * other_proof.z@,
        commitment.cap_n.log() as int,
        data.m.log() as int,
        challenge,
        other_challenge,
        i,
        q,
    );
    lemma_extraction(
        h * proof.u@,
        h * other_proof.u@,
        commitment.b.log() as int,
        data.h_to_y.log() as int,
        challenge,
        other_challenge,
        i,
        q,
    );
    assert(i * ((proof.u@ + x * proof.z@) - (other_proof.u@ + x * other_proof.z@)) == i * u + x * (
    i * z)) by (nonlinear_arith)
        requires
            z == proof.z@ - other_proof.z@,
            u == proof.u@ - other_proof.u@,
    ;
    assert(i * (h * proof.u@ - h * other_proof.u@) == h * (i * u)) by (nonlinear_arith)
        requires
            u == proof.u@ - other_proof.u@,
    ;
}

/// Two lines with the same offset give away the slope.
proof fn lemma_extraction(
    s: int,
    t: int,
    offset: int,
    slope: int,
    e: int,
    f: int,
    inverse: int,
    q: nat,
)
    requires
        q > 0,
        congruent(s, offset + slope * e, q),
        congruent(t, offset + slope * f, q),
        congruent(inverse * (e - f), 1, q),
    ensures
        congruent(inverse * (s - t), slope, q),
{
    lemma_congruent_sub(s, offset + slope * e, t, offset + slope * f, q);
    let d = (offset + slope * e) - (offset + slope * f);
    lemma_congruent_mul(inverse, inverse, s - t, d, q);
    assert(inverse * d == (inverse * (e - f)) * slope) by (nonlinear_arith)
        requires
            d == (offset + slope * e) - (offset + slope * f),
    ;
    lemma_congruent_mul(inverse * (e - f), 1, slope, slope, q);
}

} // verus!
