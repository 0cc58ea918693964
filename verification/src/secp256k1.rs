//! The curve secp256k1.
//!
//! Scalars and points are computed by `generic_ec`. A point is kept as its compressed
//! encoding, a scalar as its 32 bytes, least significant byte first.
use crate::bytes::le_value;
use crate::curve::{is_point, is_scalar, log, Curve, Group};
use crate::modular::congruent;
use crate::polynomial::{eval, product_without, unit};
use crate::refresh_curve::{
    are_points, are_scalars, lagrange_undefined, le_values, log_values, RefreshCurve, RefreshGroup,
};
use generic_ec::curves::Secp256k1 as Ec;
use udigest::{inline_struct::InlineStruct, Bytes};
use vstd::prelude::*;

verus! {

/// The curve secp256k1.
#[derive(Debug, Clone, Copy)]
pub struct Secp256k1;

/// The compressed encoding of `k` times the generator of secp256k1, which
/// `generic_ec::Point::to_bytes(true)` returns.
pub uninterp spec fn secp256k1_encoding(k: nat) -> Seq<u8>;

/// The compressed encoding of the point that `generic_ec::Point::from_bytes` reads, if it
/// reads one.
pub uninterp spec fn secp256k1_decoding(bytes: Seq<u8>) -> Option<Seq<u8>>;

impl Group for Secp256k1 {
    open spec fn order() -> nat {
        0xfffffffffffffffffffffffffffffffebaaedce6af48a03bbfd25e8cd0364141nat
    }

    open spec fn scalar_len() -> nat {
        32
    }

    open spec fn encoding(k: nat) -> Seq<u8> {
        secp256k1_encoding(k)
    }

    open spec fn decoding(bytes: Seq<u8>) -> Option<Seq<u8>> {
        secp256k1_decoding(bytes)
    }

    open spec fn group_name() -> Seq<char> {
        "secp256k1"@
    }
}

/// `generic_ec::Point::generator() * scalar`.
///
/// Gives the point that the scalar names; different scalars give different points, and every
/// point has one encoding, so the logarithm of the result is the scalar.
#[verifier::external_body]
fn generator_mul(scalar: &[u8]) -> (point: Vec<u8>)
    requires
        is_scalar::<Secp256k1>(scalar@),
    ensures
        point@ == secp256k1_encoding(le_value(scalar@)),
        log::<Secp256k1>(point@) == le_value(scalar@),
{
    let scalar = generic_ec::Scalar::<Ec>::from_le_bytes(scalar).unwrap();
    (generic_ec::Point::<Ec>::generator() * scalar).to_bytes(true).to_vec()
}

/// `generic_ec::Point * generic_ec::Scalar`.
///
/// Multiplies the logarithm by the scalar, modulo the group order.
#[verifier::external_body]
fn point_mul(point: &[u8], scalar: &[u8]) -> (product: Vec<u8>)
    requires
        is_point::<Secp256k1>(point@),
        is_scalar::<Secp256k1>(scalar@),
    ensures
        is_point::<Secp256k1>(product@),
        log::<Secp256k1>(product@) == (log::<Secp256k1>(point@) * le_value(scalar@))
            % Secp256k1::order(),
{
    let point = generic_ec::Point::<Ec>::from_bytes(point).unwrap();
    let scalar = generic_ec::Scalar::<Ec>::from_le_bytes(scalar).unwrap();
    (point * scalar).to_bytes(true).to_vec()
}

/// `generic_ec::Point + generic_ec::Point`.
///
/// Adds the logarithms, modulo the group order.
#[verifier::external_body]
fn point_add(a: &[u8], b: &[u8]) -> (sum: Vec<u8>)
    requires
        is_point::<Secp256k1>(a@),
        is_point::<Secp256k1>(b@),
    ensures
        is_point::<Secp256k1>(sum@),
        log::<Secp256k1>(sum@) == (log::<Secp256k1>(a@) + log::<Secp256k1>(b@))
            % Secp256k1::order(),
{
    let a = generic_ec::Point::<Ec>::from_bytes(a).unwrap();
    let b = generic_ec::Point::<Ec>::from_bytes(b).unwrap();
    (a + b).to_bytes(true).to_vec()
}

/// `generic_ec::Point::from_bytes`.
///
/// Whatever it reads is a point of the group, and it reads a compressed encoding as the point
/// it encodes. Which other byte strings it reads is left to the name.
#[verifier::external_body]
fn point_decode(bytes: &[u8]) -> (point: Option<Vec<u8>>)
    ensures
        point is Some == secp256k1_decoding(bytes@) is Some,
        point is Some ==> secp256k1_decoding(bytes@) == Some(point->0@),
        point is Some ==> is_point::<Secp256k1>(point->0@),
        is_point::<Secp256k1>(bytes@) ==> point is Some && point->0@ == bytes@,
{
    match generic_ec::Point::<Ec>::from_bytes(bytes) {
        Ok(point) => Some(point.to_bytes(true).to_vec()),
        Err(_) => None,
    }
}

/// `generic_ec::Scalar::from_le_bytes`.
///
/// Reads at most 32 bytes, least significant first, and fails on a number that is not below
/// the group order.
#[verifier::external_body]
fn scalar_decode(bytes: &[u8]) -> (scalar: Option<Vec<u8>>)
    ensures
        scalar is Some == (bytes.len() <= 32 && le_value(bytes@) < Secp256k1::order()),
        scalar is Some ==> is_scalar::<Secp256k1>(scalar->0@),
        scalar is Some ==> le_value(scalar->0@) == le_value(bytes@),
{
    match generic_ec::Scalar::<Ec>::from_le_bytes(bytes) {
        Ok(scalar) => Some(scalar.to_le_bytes().to_vec()),
        Err(_) => None,
    }
}

/// `generic_ec::Scalar::from_le_bytes_mod_order`.
///
/// Reduces a number of any length, least significant byte first, modulo the group order.
#[verifier::external_body]
fn scalar_reduce(bytes: &[u8]) -> (scalar: Vec<u8>)
    ensures
        is_scalar::<Secp256k1>(scalar@),
        le_value(scalar@) == le_value(bytes@) % Secp256k1::order(),
{
    generic_ec::Scalar::<Ec>::from_le_bytes_mod_order(bytes).to_le_bytes().to_vec()
}

/// `generic_ec::Scalar + generic_ec::Scalar`.
///
/// Adds modulo the group order.
#[verifier::external_body]
fn scalar_add(a: &[u8], b: &[u8]) -> (sum: Vec<u8>)
    requires
        is_scalar::<Secp256k1>(a@),
        is_scalar::<Secp256k1>(b@),
    ensures
        is_scalar::<Secp256k1>(sum@),
        le_value(sum@) == (le_value(a@) + le_value(b@)) % Secp256k1::order(),
{
    let a = generic_ec::Scalar::<Ec>::from_le_bytes(a).unwrap();
    let b = generic_ec::Scalar::<Ec>::from_le_bytes(b).unwrap();
    (a + b).to_le_bytes().to_vec()
}

/// `generic_ec::Scalar - generic_ec::Scalar`.
///
/// Subtracts modulo the group order.
#[verifier::external_body]
fn scalar_sub(a: &[u8], b: &[u8]) -> (difference: Vec<u8>)
    requires
        is_scalar::<Secp256k1>(a@),
        is_scalar::<Secp256k1>(b@),
    ensures
        is_scalar::<Secp256k1>(difference@),
        le_value(difference@) == (le_value(a@) - le_value(b@)) % (Secp256k1::order() as int),
{
    let a = generic_ec::Scalar::<Ec>::from_le_bytes(a).unwrap();
    let b = generic_ec::Scalar::<Ec>::from_le_bytes(b).unwrap();
    (a - b).to_le_bytes().to_vec()
}

/// `generic_ec::Scalar * generic_ec::Scalar`.
///
/// Multiplies modulo the group order.
#[verifier::external_body]
fn scalar_mul(a: &[u8], b: &[u8]) -> (product: Vec<u8>)
    requires
        is_scalar::<Secp256k1>(a@),
        is_scalar::<Secp256k1>(b@),
    ensures
        is_scalar::<Secp256k1>(product@),
        le_value(product@) == (le_value(a@) * le_value(b@)) % Secp256k1::order(),
{
    let a = generic_ec::Scalar::<Ec>::from_le_bytes(a).unwrap();
    let b = generic_ec::Scalar::<Ec>::from_le_bytes(b).unwrap();
    (a * b).to_le_bytes().to_vec()
}

/// `generic_ec::Scalar::random` with `rand_core::OsRng`.
///
/// Gives some scalar that is not zero. The operating system's generator ends the process by a
/// panic where it fails.
#[verifier::external_body]
fn scalar_random() -> (scalar: Vec<u8>)
    ensures
        is_scalar::<Secp256k1>(scalar@),
        le_value(scalar@) != 0,
{
    generic_ec::Scalar::<Ec>::random(&mut rand_core::OsRng).to_le_bytes().to_vec()
}

impl Curve for Secp256k1 {
    fn name() -> (name: &'static str) {
        "secp256k1"
    }

    fn generator_mul(scalar: &[u8]) -> (point: Vec<u8>) {
        let point = self::generator_mul(scalar);
        assert(Secp256k1::encoding(le_value(scalar@)) == point@);
        point
    }

    fn point_mul(point: &[u8], scalar: &[u8]) -> (product: Vec<u8>) {
        self::point_mul(point, scalar)
    }

    fn point_add(a: &[u8], b: &[u8]) -> (sum: Vec<u8>) {
        self::point_add(a, b)
    }

    fn point_decode(bytes: &[u8]) -> (point: Option<Vec<u8>>) {
        self::point_decode(bytes)
    }

    fn scalar_decode(bytes: &[u8]) -> (scalar: Option<Vec<u8>>) {
        self::scalar_decode(bytes)
    }

    fn scalar_reduce(bytes: &[u8]) -> (scalar: Vec<u8>) {
        self::scalar_reduce(bytes)
    }

    fn scalar_add(a: &[u8], b: &[u8]) -> (sum: Vec<u8>) {
        self::scalar_add(a, b)
    }

    fn scalar_sub(a: &[u8], b: &[u8]) -> (difference: Vec<u8>) {
        self::scalar_sub(a, b)
    }

    fn scalar_mul(a: &[u8], b: &[u8]) -> (product: Vec<u8>) {
        self::scalar_mul(a, b)
    }

    fn scalar_random() -> (scalar: Vec<u8>) {
        self::scalar_random()
    }
}

/// The scalar that `generic_ec::Scalar::from_hash` over SHA-256 gives for the fields of a
/// share's mask.
pub uninterp spec fn secp256k1_mask_digest(
    tag: Seq<char>,
    sid: Seq<u8>,
    rid: Seq<u8>,
    sender: u16,
    recipient: u16,
    dh_shared: Seq<u8>,
) -> nat;

/// The scalar that `generic_ec::Scalar::from_hash` over SHA-256 gives for the fields of a
/// Schnorr challenge.
pub uninterp spec fn secp256k1_schnorr_digest(
    tag: Seq<char>,
    sid: Seq<u8>,
    prover: u16,
    rid: Seq<u8>,
    x: Seq<u8>,
    sch_commit: Seq<u8>,
) -> nat;

impl RefreshGroup for Secp256k1 {
    open spec fn mask_digest(
        tag: Seq<char>,
        sid: Seq<u8>,
        rid: Seq<u8>,
        sender: u16,
        recipient: u16,
        dh_shared: Seq<u8>,
    ) -> nat {
        secp256k1_mask_digest(tag, sid, rid, sender, recipient, dh_shared)
    }

    open spec fn schnorr_digest(
        tag: Seq<char>,
        sid: Seq<u8>,
        prover: u16,
        rid: Seq<u8>,
        x: Seq<u8>,
        sch_commit: Seq<u8>,
    ) -> nat {
        secp256k1_schnorr_digest(tag, sid, prover, rid, x, sch_commit)
    }
}

/// `generic_ec::Scalar::from_hash::<sha2::Sha256>` on the fields of a share's mask.
///
/// The fields enter by name, under the tag; the result depends on nothing but the arguments.
#[verifier::external_body]
fn refresh_mask(
    tag: &str,
    sid: &[u8],
    rid: &[u8],
    sender: u16,
    recipient: u16,
    dh_shared: &[u8],
) -> (scalar: Vec<u8>)
    requires
        is_point::<Secp256k1>(dh_shared@),
    ensures
        is_scalar::<Secp256k1>(scalar@),
        le_value(scalar@) == secp256k1_mask_digest(
            tag@,
            sid@,
            rid@,
            sender,
            recipient,
            dh_shared@,
        ),
{
    let fields = InlineStruct::new()
        .add_field("sid", ("id", Bytes(sid)))
        .add_field("rid", Bytes(rid))
        .add_field("sender", sender)
        .add_field("recipient", recipient)
        .add_field("dh_shared", generic_ec::Point::<Ec>::from_bytes(dh_shared).unwrap())
        .set_tag(tag);
    generic_ec::Scalar::<Ec>::from_hash::<sha2::Sha256>(&fields).to_le_bytes().to_vec()
}

/// `generic_ec::Scalar::from_hash::<sha2::Sha256>` on the fields of a Schnorr challenge.
///
/// The fields enter by name, under the tag; the result depends on nothing but the arguments.
#[verifier::external_body]
fn schnorr_challenge(
    tag: &str,
    sid: &[u8],
    prover: u16,
    rid: &[u8],
    x: &[u8],
    sch_commit: &[u8],
) -> (scalar: Vec<u8>)
    requires
        is_point::<Secp256k1>(x@),
        is_point::<Secp256k1>(sch_commit@),
    ensures
        is_scalar::<Secp256k1>(scalar@),
        le_value(scalar@) == secp256k1_schnorr_digest(tag@, sid@, prover, rid@, x@, sch_commit@),
{
    let commit = generic_ec::Point::<Ec>::from_bytes(sch_commit).unwrap();
    let fields = InlineStruct::new()
        .add_field("sid", ("id", Bytes(sid)))
        .add_field("prover", prover)
        .add_field("rid", Bytes(rid))
        .add_field("X", generic_ec::Point::<Ec>::from_bytes(x).unwrap())
        .add_field("sch_commit", generic_ec_zkp::schnorr_pok::Commit(commit))
        .set_tag(tag);
    generic_ec::Scalar::<Ec>::from_hash::<sha2::Sha256>(&fields).to_le_bytes().to_vec()
}

/// `generic_ec_zkp::schnorr_pok::prove`.
///
/// Gives the nonce plus the challenge times the secret, modulo the group order.
#[verifier::external_body]
fn schnorr_prove(nonce: &[u8], challenge: &[u8], secret: &[u8]) -> (proof: Vec<u8>)
    requires
        is_scalar::<Secp256k1>(nonce@),
        is_scalar::<Secp256k1>(challenge@),
        is_scalar::<Secp256k1>(secret@),
    ensures
        is_scalar::<Secp256k1>(proof@),
        le_value(proof@) == (le_value(nonce@) + le_value(challenge@) * le_value(secret@))
            % Secp256k1::order(),
{
    let mut nonce = generic_ec::Scalar::<Ec>::from_le_bytes(nonce).unwrap();
    let committed = generic_ec_zkp::schnorr_pok::ProverSecret {
        nonce: generic_ec::SecretScalar::new(&mut nonce),
    };
    let challenge = generic_ec_zkp::schnorr_pok::Challenge {
        nonce: generic_ec::Scalar::<Ec>::from_le_bytes(challenge).unwrap(),
    };
    let secret = generic_ec::Scalar::<Ec>::from_le_bytes(secret).unwrap();
    generic_ec_zkp::schnorr_pok::prove(&committed, &challenge, secret).0.to_le_bytes().to_vec()
}

/// `generic_ec_zkp::schnorr_pok::Proof::verify`.
///
/// Succeeds if and only if the proof times the generator is the committed point plus the
/// challenge times `x`.
#[verifier::external_body]
fn schnorr_verify(proof: &[u8], sch_commit: &[u8], challenge: &[u8], x: &[u8]) -> (valid: bool)
    requires
        is_scalar::<Secp256k1>(proof@),
        is_point::<Secp256k1>(sch_commit@),
        is_scalar::<Secp256k1>(challenge@),
        is_point::<Secp256k1>(x@),
    ensures
        valid == congruent(
            le_value(proof@) as int,
            log::<Secp256k1>(sch_commit@) + (le_value(challenge@) * log::<Secp256k1>(x@)) as int,
            Secp256k1::order(),
        ),
{
    let proof = generic_ec::Scalar::<Ec>::from_le_bytes(proof).unwrap();
    let commit = generic_ec::Point::<Ec>::from_bytes(sch_commit).unwrap();
    let challenge = generic_ec::Scalar::<Ec>::from_le_bytes(challenge).unwrap();
    let x = generic_ec::Point::<Ec>::from_bytes(x).unwrap();
    generic_ec_zkp::schnorr_pok::Proof(proof)
        .verify(
            &generic_ec_zkp::schnorr_pok::Commit(commit),
            &generic_ec_zkp::schnorr_pok::Challenge { nonce: challenge },
            &x,
        )
        .is_ok()
}

/// `generic_ec_zkp::polynomial::Polynomial::value`, for coefficients that are scalars.
///
/// Gives the sum of the coefficients times the powers of `x`, modulo the group order.
#[verifier::external_body]
fn scalar_polynomial(coefs: &Vec<Vec<u8>>, x: &[u8]) -> (value: Vec<u8>)
    requires
        are_scalars::<Secp256k1>(coefs@),
        is_scalar::<Secp256k1>(x@),
    ensures
        is_scalar::<Secp256k1>(value@),
        le_value(value@) == eval(le_values(coefs@), le_value(x@) as int) % (
        Secp256k1::order() as int),
{
    let coefs = coefs.iter().map(|c| generic_ec::Scalar::<Ec>::from_le_bytes(c).unwrap()).collect();
    let x = generic_ec::Scalar::<Ec>::from_le_bytes(x).unwrap();
    generic_ec_zkp::polynomial::Polynomial::from_coefs(coefs)
        .value::<_, generic_ec::Scalar<Ec>>(&x)
        .to_le_bytes()
        .to_vec()
}

/// `generic_ec_zkp::polynomial::Polynomial::value`, for coefficients that are points.
///
/// Gives the sum of the coefficients times the powers of `x`.
#[verifier::external_body]
fn point_polynomial(coefs: &Vec<Vec<u8>>, x: &[u8]) -> (value: Vec<u8>)
    requires
        are_points::<Secp256k1>(coefs@),
        is_scalar::<Secp256k1>(x@),
    ensures
        is_point::<Secp256k1>(value@),
        log::<Secp256k1>(value@) == eval(log_values::<Secp256k1>(coefs@), le_value(x@) as int) % (
        Secp256k1::order() as int),
{
    let coefs = coefs.iter().map(|c| generic_ec::Point::<Ec>::from_bytes(c).unwrap()).collect();
    let x = generic_ec::Scalar::<Ec>::from_le_bytes(x).unwrap();
    generic_ec_zkp::polynomial::Polynomial::from_coefs(coefs)
        .value::<_, generic_ec::Point<Ec>>(&x)
        .to_bytes(true)
        .to_vec()
}

/// `generic_ec_zkp::polynomial::lagrange_coefficient`.
///
/// Divides the product of `x - xs[m]` over all `m` but `j` by the product of `xs[j] - xs[m]`,
/// modulo the group order, which is prime. Gives nothing where one of these factors is zero,
/// that is, where another node is the same as node `j` or is `x`; else the divisor has an
/// inverse.
#[verifier::external_body]
fn lagrange_coefficient(x: &[u8], j: usize, xs: &Vec<Vec<u8>>) -> (lambda: Option<Vec<u8>>)
    requires
        is_scalar::<Secp256k1>(x@),
        are_scalars::<Secp256k1>(xs@),
        j < xs.len(),
    ensures
        lambda is None == lagrange_undefined(le_values(xs@), j as int, le_value(x@) as int),
        lambda is Some ==> is_scalar::<Secp256k1>(lambda->0@),
        lambda is Some ==> unit(
            product_without(le_values(xs@), j as int, le_values(xs@)[j as int]),
            Secp256k1::order(),
        ),
        lambda is Some ==> congruent(
            le_value(lambda->0@) * product_without(
                le_values(xs@),
                j as int,
                le_values(xs@)[j as int],
            ),
            product_without(le_values(xs@), j as int, le_value(x@) as int),
            Secp256k1::order(),
        ),
{
    let x = generic_ec::Scalar::<Ec>::from_le_bytes(x).unwrap();
    let xs: Vec<generic_ec::Scalar<Ec>> =
        xs.iter().map(|v| generic_ec::Scalar::from_le_bytes(v).unwrap()).collect();
    generic_ec_zkp::polynomial::lagrange_coefficient(x, j, &xs)
        .map(|lambda| lambda.to_le_bytes().to_vec())
}

impl RefreshCurve for Secp256k1 {
    fn refresh_mask(
        tag: &str,
        sid: &[u8],
        rid: &[u8],
        sender: u16,
        recipient: u16,
        dh_shared: &[u8],
    ) -> (scalar: Vec<u8>) {
        self::refresh_mask(tag, sid, rid, sender, recipient, dh_shared)
    }

    fn schnorr_challenge(
        tag: &str,
        sid: &[u8],
        prover: u16,
        rid: &[u8],
        x: &[u8],
        sch_commit: &[u8],
    ) -> (scalar: Vec<u8>) {
        self::schnorr_challenge(tag, sid, prover, rid, x, sch_commit)
    }

    fn schnorr_prove(nonce: &[u8], challenge: &[u8], secret: &[u8]) -> (proof: Vec<u8>) {
        self::schnorr_prove(nonce, challenge, secret)
    }

    fn schnorr_verify(
        proof: &[u8],
        sch_commit: &[u8],
        challenge: &[u8],
        x: &[u8],
    ) -> (valid: bool) {
        self::schnorr_verify(proof, sch_commit, challenge, x)
    }

    fn scalar_polynomial(coefs: &Vec<Vec<u8>>, x: &[u8]) -> (value: Vec<u8>) {
        self::scalar_polynomial(coefs, x)
    }

    fn point_polynomial(coefs: &Vec<Vec<u8>>, x: &[u8]) -> (value: Vec<u8>) {
        self::point_polynomial(coefs, x)
    }

    fn lagrange_coefficient(x: &[u8], j: usize, xs: &Vec<Vec<u8>>) -> (lambda: Option<Vec<u8>>) {
        self::lagrange_coefficient(x, j, xs)
    }
}

} // verus!
