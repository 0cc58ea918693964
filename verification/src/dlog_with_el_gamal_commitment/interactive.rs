//! The interactive version of the ZK proof. Should be completed in 3 rounds:
//! prover commits to data, verifier responds with a random challenge, and
//! prover gives proof with commitment and challenge.
use super::{
    answers, commits_to, is_verdict, verdict, Challenge, Commitment, Data, Error, InvalidProof,
    InvalidProofReason, PrivateCommitment, PrivateData, Proof, SecurityParams,
};
use crate::curve::{Curve, Point, Scalar};
use crate::integer::Integer;
use crate::modular::{lemma_congruent_add, lemma_congruent_mod, lemma_congruent_mul};
use vstd::prelude::*;

verus! {

/// A multiple of the generator plus a multiple of a point, or of the neutral element.
fn combination<C: Curve>(g: &Integer, point: &Point<C>, p: &Integer) -> (sum: Point<C>)
    ensures
        sum.log() == (g@ + point.log() * p@) % (C::order() as int),
{
    let left = Point::generator_mul(&g.to_scalar::<C>());
    let right = multiple(point, p);
    proof {
        use_type_invariant(&left);
        left.lemma_range();
        let q = C::order();
        lemma_congruent_mod(g@, q);
        lemma_congruent_mod(point.log() * p@, q);
        lemma_congruent_add(
            left.log() as int,
            g@,
            right.log() as int,
            point.log() * p@,
            q,
        );
    }
    left.add(&right)
}

/// A multiple of a point.
fn multiple<C: Curve>(point: &Point<C>, p: &Integer) -> (product: Point<C>)
    ensures
        product.log() == (point.log() * p@) % (C::order() as int),
{
    let scalar = p.to_scalar::<C>();
    let product = point.mul(&scalar);
    proof {
        use_type_invariant(&product);
        product.lemma_range();
        let q = C::order();
        let l = point.log() as int;
        lemma_congruent_mod(p@, q);
        lemma_congruent_mul(l, l, scalar.value() as int, p@, q);
        assert(l * (scalar.value() as int) == (point.log() * scalar.value()) as int);
    }
    product
}

/// An offset plus a multiple of a point.
fn offset_multiple<C: Curve>(offset: &Point<C>, point: &Point<C>, p: &Integer) -> (sum: Point<C>)
    ensures
        sum.log() == (offset.log() + point.log() * p@) % (C::order() as int),
{
    let product = multiple(point, p);
    proof {
        use_type_invariant(&product);
        product.lemma_range();
        let q = C::order();
        lemma_congruent_mod(point.log() * p@, q);
        lemma_congruent_add(
            offset.log() as int,
            offset.log() as int,
            product.log() as int,
            point.log() * p@,
            q,
        );
    }
    offset.add(&product)
}

/// Draws the private values behind a commitment. Both are invertible modulo the order
pub fn random_masks<C: Curve>() -> (private_commitment: PrivateCommitment)
    ensures
        0 < private_commitment.alpha@ < C::order(),
        0 < private_commitment.m@ < C::order(),
{
    let alpha = Scalar::<C>::random();
    let m = Scalar::<C>::random();
    proof {
        use_type_invariant(&alpha);
        use_type_invariant(&m);
        alpha.lemma_range();
        m.lemma_range();
    }
    PrivateCommitment { alpha: Integer::from_scalar(&alpha), m: Integer::from_scalar(&m) }
}

/// Create random commitment
pub fn commit<C: Curve>(data: Data<C>) -> (result: Result<
    (Commitment<C>, PrivateCommitment),
    Error,
>)
    ensures
        result matches Ok((commitment, private_commitment)) && {
            &&& commits_to(data, commitment, private_commitment.alpha@, private_commitment.m@)
            &&& 0 < private_commitment.alpha@ < C::order()
            &&& 0 < private_commitment.m@ < C::order()
        },
{
    let private_commitment = random_masks::<C>();
    let commitment = commit_to(data, &private_commitment);
    Ok((commitment, private_commitment))
}

/// The commitment to given private values
pub fn commit_to<C: Curve>(
    data: Data<C>,
    private_commitment: &PrivateCommitment,
) -> (commitment: Commitment<C>)
    ensures
        commits_to(data, commitment, private_commitment.alpha@, private_commitment.m@),
{
    let a = Point::<C>::generator_mul(&private_commitment.alpha.to_scalar());
    let cap_n = combination(&private_commitment.m, data.x, &private_commitment.alpha);
    let b = multiple(data.h, &private_commitment.m);
    Commitment { a, cap_n, b }
}

/// A sum of an integer and a product, modulo the order
fn answer<C: Curve>(mask: &Integer, challenge: &Integer, secret: &Integer) -> (answer: Integer)
    ensures
        answer@ == (mask@ + challenge@ * secret@) % (C::order() as int),
{
    let mask_residue = mask.to_scalar::<C>();
    let challenge_residue = challenge.to_scalar::<C>();
    let secret_residue = secret.to_scalar::<C>();
    let product = challenge_residue.mul(&secret_residue);
    let sum = mask_residue.add(&product);
    proof {
        use_type_invariant(&product);
        product.lemma_range();
        let q = C::order();
        let e = challenge_residue.value() as int;
        let s = secret_residue.value() as int;
        lemma_congruent_mod(mask@, q);
        lemma_congruent_mod(challenge@, q);
        lemma_congruent_mod(secret@, q);
        lemma_congruent_mul(e, challenge@, s, secret@, q);
        lemma_congruent_mod(e * s, q);
        assert(e * s == (challenge_residue.value() * secret_residue.value()) as int);
        lemma_congruent_add(
            mask_residue.value() as int,
            mask@,
            product.value() as int,
            challenge@ * secret@,
            q,
        );
    }
    Integer::from_scalar(&sum)
}

/// Compute proof for given data and prior protocol values
pub fn prove<C: Curve>(
    pdata: PrivateData,
    pcomm: &PrivateCommitment,
    challenge: &Challenge,
) -> (result: Result<Proof, Error>)
    ensures
        result matches Ok(proof) && answers::<C>(
            proof,
            pdata.y@,
            pdata.lambda@,
            pcomm.alpha@,
            pcomm.m@,
            challenge@,
        ),
{
    let z = answer::<C>(&pcomm.alpha, challenge, pdata.lambda);
    let u = answer::<C>(&pcomm.m, challenge, pdata.y);
    Ok(Proof { z, u })
}

/// Fails with a reason where two points differ
fn fail_if_ne<C: Curve>(
    reason: InvalidProofReason,
    lhs: &Point<C>,
    rhs: &Point<C>,
) -> (result: Result<(), InvalidProof>)
    ensures
        result is Ok == (lhs.log() == rhs.log()),
        result is Err ==> result->Err_0.failed_check() == reason,
{
    if lhs.equals(rhs) {
        Ok(())
    } else {
        Err(InvalidProof::new(reason))
    }
}

/// Verify the proof
pub fn verify<C: Curve>(
    data: Data<C>,
    commitment: &Commitment<C>,
    challenge: &Challenge,
    proof: &Proof,
) -> (result: Result<(), InvalidProof>)
    ensures
        is_verdict(result, verdict(data, *commitment, challenge@, *proof)),
{
    let lhs = Point::<C>::generator_mul(&proof.z.to_scalar());
    let rhs = offset_multiple(&commitment.a, data.l, challenge);
    if let Err(error) = fail_if_ne(InvalidProofReason::EqualityCheck(1), &lhs, &rhs) {
        return Err(error);
    }
    let lhs = combination(&proof.u, data.x, &proof.z);
    let rhs = offset_multiple(&commitment.cap_n, data.m, challenge);
    if let Err(error) = fail_if_ne(InvalidProofReason::EqualityCheck(2), &lhs, &rhs) {
        return Err(error);
    }
    let lhs = multiple(data.h, &proof.u);
    let rhs = offset_multiple(&commitment.b, data.h_to_y, challenge);
    fail_if_ne(InvalidProofReason::EqualityCheck(3), &lhs, &rhs)
}

/// Generate random challenge
pub fn challenge(security: &SecurityParams) -> (challenge: Challenge)
    requires
        security.q@ >= 0,
    ensures
        -security.q@ <= challenge@ <= security.q@,
{
    Integer::random_from_range(&security.q)
}

} // verus!
