//! What key refresh asks of a curve besides its group: digests that give scalars, Schnorr
//! proofs, polynomials and Lagrange coefficients.
use crate::bytes::le_value;
use crate::curve::{
    is_point, is_scalar, log, logs, point_encodings, scalar_encodings, values, Curve, Group,
    Point, Scalar,
};
use crate::modular::congruent;
use crate::polynomial::{eval, product_without, unit};
use vstd::prelude::*;

verus! {

/// The scalars that key refresh draws from digests.
pub trait RefreshGroup: Group {
    /// The mask of a share on its way from `sender` to `recipient`.
    spec fn mask_digest(
        tag: Seq<char>,
        sid: Seq<u8>,
        rid: Seq<u8>,
        sender: u16,
        recipient: u16,
        dh_shared: Seq<u8>,
    ) -> nat;

    /// The challenge for a Schnorr proof of knowledge of the logarithm of `x`.
    spec fn schnorr_digest(
        tag: Seq<char>,
        sid: Seq<u8>,
        prover: u16,
        rid: Seq<u8>,
        x: Seq<u8>,
        sch_commit: Seq<u8>,
    ) -> nat;
}

/// The numbers that byte vectors stand for, least significant byte first.
pub open spec fn le_values(vectors: Seq<Vec<u8>>) -> Seq<int> {
    Seq::new(vectors.len(), |k: int| le_value(vectors[k]@) as int)
}

/// The logarithms of encoded points.
pub open spec fn log_values<E: Group>(vectors: Seq<Vec<u8>>) -> Seq<int> {
    Seq::new(vectors.len(), |k: int| log::<E>(vectors[k]@) as int)
}

/// Whether all byte vectors encode scalars.
pub open spec fn are_scalars<E: Group>(vectors: Seq<Vec<u8>>) -> bool {
    forall|k: int| 0 <= k < vectors.len() ==> is_scalar::<E>(#[trigger] vectors[k]@)
}

/// Whether all byte vectors encode points.
pub open spec fn are_points<E: Group>(vectors: Seq<Vec<u8>>) -> bool {
    forall|k: int| 0 <= k < vectors.len() ==> is_point::<E>(#[trigger] vectors[k]@)
}

/// Whether there is no Lagrange coefficient: another node is the same as node `j`, or is `x`.
pub open spec fn lagrange_undefined(xs: Seq<int>, j: int, x: int) -> bool {
    exists|m: int| 0 <= m < xs.len() && m != j && (#[trigger] xs[m] == xs[j] || xs[m] == x)
}

/// What key refresh computes on a curve, on encodings.
pub trait RefreshCurve: Curve + RefreshGroup {
    /// Draws the mask of a share.
    fn refresh_mask(
        tag: &str,
        sid: &[u8],
        rid: &[u8],
        sender: u16,
        recipient: u16,
        dh_shared: &[u8],
    ) -> (scalar: Vec<u8>)
        requires
            is_point::<Self>(dh_shared@),
        ensures
            is_scalar::<Self>(scalar@),
            le_value(scalar@) == Self::mask_digest(
                tag@,
                sid@,
                rid@,
                sender,
                recipient,
                dh_shared@,
            ),
    ;

    /// Draws the challenge for a Schnorr proof.
    fn schnorr_challenge(
        tag: &str,
        sid: &[u8],
        prover: u16,
        rid: &[u8],
        x: &[u8],
        sch_commit: &[u8],
    ) -> (scalar: Vec<u8>)
        requires
            is_point::<Self>(x@),
            is_point::<Self>(sch_commit@),
        ensures
            is_scalar::<Self>(scalar@),
            le_value(scalar@) == Self::schnorr_digest(tag@, sid@, prover, rid@, x@, sch_commit@),
    ;

    /// Answers the challenge of a Schnorr proof.
    fn schnorr_prove(nonce: &[u8], challenge: &[u8], secret: &[u8]) -> (proof: Vec<u8>)
        requires
            is_scalar::<Self>(nonce@),
            is_scalar::<Self>(challenge@),
            is_scalar::<Self>(secret@),
        ensures
            is_scalar::<Self>(proof@),
            le_value(proof@) == (le_value(nonce@) + le_value(challenge@) * le_value(secret@))
                % Self::order(),
    ;

    /// Checks a Schnorr proof.
    fn schnorr_verify(proof: &[u8], sch_commit: &[u8], challenge: &[u8], x: &[u8]) -> (valid: bool)
        requires
            is_scalar::<Self>(proof@),
            is_point::<Self>(sch_commit@),
            is_scalar::<Self>(challenge@),
            is_point::<Self>(x@),
        ensures
            valid == congruent(
                le_value(proof@) as int,
                log::<Self>(sch_commit@) + (le_value(challenge@) * log::<Self>(x@)) as int,
                Self::order(),
            ),
    ;

    /// Evaluates a polynomial whose coefficients are scalars.
    fn scalar_polynomial(coefs: &Vec<Vec<u8>>, x: &[u8]) -> (value: Vec<u8>)
        requires
            are_scalars::<Self>(coefs@),
            is_scalar::<Self>(x@),
        ensures
            is_scalar::<Self>(value@),
            le_value(value@) == eval(le_values(coefs@), le_value(x@) as int) % (
            Self::order() as int),
    ;

    /// Evaluates a polynomial whose coefficients are points.
    fn point_polynomial(coefs: &Vec<Vec<u8>>, x: &[u8]) -> (value: Vec<u8>)
        requires
            are_points::<Self>(coefs@),
            is_scalar::<Self>(x@),
        ensures
            is_point::<Self>(value@),
            log::<Self>(value@) == eval(log_values::<Self>(coefs@), le_value(x@) as int) % (
            Self::order() as int),
    ;

    /// The Lagrange coefficient that carries the value at node `j` to `x`.
    fn lagrange_coefficient(x: &[u8], j: usize, xs: &Vec<Vec<u8>>) -> (lambda: Option<Vec<u8>>)
        requires
            is_scalar::<Self>(x@),
            are_scalars::<Self>(xs@),
            j < xs.len(),
        ensures
            lambda is None == lagrange_undefined(le_values(xs@), j as int, le_value(x@) as int),
            lambda is Some ==> is_scalar::<Self>(lambda->0@),
            lambda is Some ==> unit(
                product_without(le_values(xs@), j as int, le_values(xs@)[j as int]),
                Self::order(),
            ),
            lambda is Some ==> congruent(
                le_value(lambda->0@) * product_without(
                    le_values(xs@),
                    j as int,
                    le_values(xs@)[j as int],
                ),
                product_without(le_values(xs@), j as int, le_value(x@) as int),
                Self::order(),
            ),
    ;
}

/// Answers the challenge of a Schnorr proof.
pub fn schnorr_prove<E: RefreshCurve>(
    nonce: &Scalar<E>,
    challenge: &Scalar<E>,
    secret: &Scalar<E>,
) -> (proof: Scalar<E>)
    ensures
        proof.wf(),
        proof.value() == (nonce.value() + challenge.value() * secret.value()) % E::order(),
{
    Scalar::from_encoding(
        E::schnorr_prove(
            nonce.to_le_bytes().as_slice(),
            challenge.to_le_bytes().as_slice(),
            secret.to_le_bytes().as_slice(),
        ),
    )
}

/// Whether a Schnorr proof holds: $z G = A + e X$.
pub open spec fn schnorr_holds<E: RefreshCurve>(
    proof: Scalar<E>,
    sch_commit: Point<E>,
    challenge: nat,
    x: Point<E>,
) -> bool {
    congruent(proof.value() as int, sch_commit.log() + (challenge * x.log()) as int, E::order())
}

/// Checks a Schnorr proof.
pub fn schnorr_verify<E: RefreshCurve>(
    proof: &Scalar<E>,
    sch_commit: &Point<E>,
    challenge: &Scalar<E>,
    x: &Point<E>,
) -> (valid: bool)
    ensures
        valid == schnorr_holds(*proof, *sch_commit, challenge.value(), *x),
{
    E::schnorr_verify(
        proof.to_le_bytes().as_slice(),
        sch_commit.to_bytes().as_slice(),
        challenge.to_le_bytes().as_slice(),
        x.to_bytes().as_slice(),
    )
}

/// Evaluates a polynomial whose coefficients are scalars.
pub fn scalar_polynomial<E: RefreshCurve>(
    coefs: &Vec<Scalar<E>>,
    x: &Scalar<E>,
) -> (value: Scalar<E>)
    ensures
        value.wf(),
        value.value() == eval(values(coefs@), x.value() as int) % (E::order() as int),
{
    let bytes = scalar_encodings(coefs);
    assert(le_values(bytes@) =~= values(coefs@));
    Scalar::from_encoding(E::scalar_polynomial(&bytes, x.to_le_bytes().as_slice()))
}

/// Evaluates a polynomial whose coefficients are points.
pub fn point_polynomial<E: RefreshCurve>(coefs: &Vec<Point<E>>, x: &Scalar<E>) -> (value: Point<E>)
    ensures
        value.wf(),
        value.log() == eval(logs(coefs@), x.value() as int) % (E::order() as int),
{
    let bytes = point_encodings(coefs);
    assert(log_values::<E>(bytes@) =~= logs(coefs@));
    Point::from_encoding(E::point_polynomial(&bytes, x.to_le_bytes().as_slice()))
}

/// The Lagrange coefficient that carries the value at node `j` to `x`.
pub fn lagrange_coefficient<E: RefreshCurve>(
    x: &Scalar<E>,
    j: usize,
    xs: &Vec<Scalar<E>>,
) -> (lambda: Option<Scalar<E>>)
    requires
        j < xs.len(),
    ensures
        match lambda {
            Some(l) => {
                let v = values(xs@);
                let d = product_without(v, j as int, v[j as int]);
                &&& l.wf()
                &&& !lagrange_undefined(v, j as int, x.value() as int)
                &&& unit(d, E::order())
                &&& congruent(
                    l.value() * d,
                    product_without(v, j as int, x.value() as int),
                    E::order(),
                )
            },
            None => lagrange_undefined(values(xs@), j as int, x.value() as int),
        },
{
    let bytes = scalar_encodings(xs);
    assert(le_values(bytes@) =~= values(xs@));
    match E::lagrange_coefficient(x.to_le_bytes().as_slice(), j, &bytes) {
        Some(lambda) => Some(Scalar::from_encoding(lambda)),
        None => None,
    }
}

} // verus!
