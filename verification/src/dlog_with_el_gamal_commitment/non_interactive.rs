//! The non-interactive version of the proof. Completed in one round: the challenge is drawn
//! from a digest of everything that both parties know.
use super::interactive;
use super::{
    answers, commits_to, honest_proof_passes, is_verdict, relation, verdict, Aux, Challenge,
    Commitment, Data, Error, InvalidProof, InvalidProofReason, PrivateCommitment, PrivateData,
    Proof, SecurityParams,
};
use crate::bytes::{byte_views, bytes_copy};
use crate::curve::Curve;
use crate::integer::{bytes_per_pick, digits_msf, magnitude, picked_from_range, Integer};
use rand_core::RngCore;
use rand_hash::HashRng;
use sha2::Sha256;
use udigest::{inline_struct::InlineStruct, Bytes};
use vstd::prelude::*;

verus! {

/// Tag of the challenge.
pub const NI_CHALLENGE: &'static str = "paillier_zk.dlog_with_el_gamal.ni_challenge";

/// The first `len` bytes that `rand_hash::HashRng` over SHA-256 gives for the seed that is made
/// of the shared state, the digits of the auxiliary data and of the security parameter, and the
/// encodings of the points of the data and then of the commitment, on the curve of the given
/// name, under a tag.
pub uninterp spec fn challenge_stream(
    tag: Seq<char>,
    curve: Seq<char>,
    shared_state: Seq<u8>,
    aux: Seq<Seq<u8>>,
    security: Seq<u8>,
    points: Seq<Seq<u8>>,
    len: nat,
) -> Seq<u8>;

/// The digits of the auxiliary data.
pub open spec fn aux_digits(aux: Aux) -> Seq<Seq<u8>> {
    seq![
        digits_msf(magnitude(aux.s@)),
        digits_msf(magnitude(aux.t@)),
        digits_msf(magnitude(aux.rsa_modulo@)),
    ]
}

/// The encodings of the points of the data and of the commitment.
pub open spec fn point_parts<C: Curve>(data: Data<C>, commitment: Commitment<C>) -> Seq<Seq<u8>> {
    seq![
        data.l.encoding(),
        data.m.encoding(),
        data.x.encoding(),
        data.h_to_y.encoding(),
        data.h.encoding(),
        commitment.a.encoding(),
        commitment.cap_n.encoding(),
        commitment.b.encoding(),
    ]
}

/// The challenge that prover and verifier both derive.
pub open spec fn derived_challenge<C: Curve>(
    shared_state: Seq<u8>,
    aux: Aux,
    data: Data<C>,
    commitment: Commitment<C>,
    security: SecurityParams,
) -> int {
    picked_from_range(
        security.q@,
        challenge_stream(
            NI_CHALLENGE@,
            C::group_name(),
            shared_state,
            aux_digits(aux),
            digits_msf(magnitude(security.q@)),
            point_parts(data, commitment),
            bytes_per_pick(security.q@),
        ),
    )
}

/// Whether commitment and proof are made of some masks, both between zero and the order.
pub open spec fn answers_for_some_masks<C: Curve>(
    data: Data<C>,
    commitment: Commitment<C>,
    proof: Proof,
    y: int,
    lambda: int,
    challenge: int,
) -> bool {
    exists|alpha: int, m: int|
        {
            &&& 0 < alpha < C::order()
            &&& 0 < m < C::order()
            &&& #[trigger] commits_to(data, commitment, alpha, m)
            &&& answers::<C>(proof, y, lambda, alpha, m, challenge)
        }
}

/// `rand_hash::HashRng::<sha2::Sha256, _>::from_seed` and `fill_bytes`.
///
/// The seed is hashed field by field with `udigest`, under the tag; a structure
/// without a tag enters as the list of its field names and values, and a point as the structure
/// of the name of its curve and its encoding. The bytes depend on nothing but the arguments.
#[verifier::external_body]
fn challenge_bytes(
    tag: &str,
    curve: &str,
    shared_state: &[u8],
    aux: &[Vec<u8>; 3],
    security: &Vec<u8>,
    points: &[Vec<u8>; 8],
    len: usize,
) -> (bytes: Vec<u8>)
    ensures
        bytes.len() == len,
        bytes@ == challenge_stream(
            tag@,
            curve@,
            shared_state@,
            byte_views(aux@),
            security@,
            byte_views(points@),
            len as nat,
        ),
{
    let [s, t, n] = aux.each_ref().map(Bytes);
    let [l, m, x, h_to_y, h, a, cap_n, b] =
        points.each_ref().map(|v| ("curve", curve, "point", Bytes(v)));
    let seed = InlineStruct::new()
        .add_field("shared_state", Bytes(shared_state))
        .add_field("aux", ("s", s, "t", t, "rsa_modulo", n))
        .add_field("security", ("q", Bytes(security)))
        .add_field("data", ("l", l, "m", m, "x", x, "h_to_y", h_to_y, "h", h))
        .add_field("commitment", ("a", a, "cap_n", cap_n, "b", b))
        .set_tag(tag);
    let mut bytes = vec![0; len];
    HashRng::<Sha256, _>::from_seed(seed).fill_bytes(&mut bytes);
    bytes
}

/// Compute proof for the given data, producing random commitment and
/// deriving determenistic challenge.
///
/// Obtained from the interactive proof via Fiat-Shamir heuristic.
pub fn prove<C: Curve>(
    shared_state: &[u8],
    aux: &Aux,
    data: Data<C>,
    pdata: PrivateData,
    security: &SecurityParams,
) -> (result: Result<(Commitment<C>, Proof), Error>)
    requires
        security.q@ >= 0,
    ensures
        result matches Ok((commitment, proof)) && answers_for_some_masks(
            data,
            commitment,
            proof,
            pdata.y@,
            pdata.lambda@,
            derived_challenge(shared_state@, *aux, data, commitment, *security),
        ),
{
    let private_commitment = interactive::random_masks::<C>();
    let result = prove_with(shared_state, aux, data, pdata, security, &private_commitment);
    proof {
        let (alpha, m) = (private_commitment.alpha@, private_commitment.m@);
        assert(result matches Ok((commitment, proof)) && commits_to(data, commitment, alpha, m));
    }
    result
}

/// The proof with given private values behind the commitment
pub fn prove_with<C: Curve>(
    shared_state: &[u8],
    aux: &Aux,
    data: Data<C>,
    pdata: PrivateData,
    security: &SecurityParams,
    private_commitment: &PrivateCommitment,
) -> (result: Result<(Commitment<C>, Proof), Error>)
    requires
        security.q@ >= 0,
    ensures
        result matches Ok((commitment, proof)) && {
            &&& commits_to(data, commitment, private_commitment.alpha@, private_commitment.m@)
            &&& answers::<C>(
                proof,
                pdata.y@,
                pdata.lambda@,
                private_commitment.alpha@,
                private_commitment.m@,
                derived_challenge(shared_state@, *aux, data, commitment, *security),
            )
        },
{
    let commitment = interactive::commit_to(data, private_commitment);
    let challenge = challenge(shared_state, aux, data, &commitment, security);
    match interactive::prove::<C>(pdata, private_commitment, &challenge) {
        Ok(proof) => Ok((commitment, proof)),
        Err(error) => Err(error),
    }
}

/// Verify the proof, deriving challenge independently from same data
pub fn verify<C: Curve>(
    shared_state: &[u8],
    aux: &Aux,
    data: Data<C>,
    commitment: &Commitment<C>,
    security: &SecurityParams,
    proof: &Proof,
) -> (result: Result<(), InvalidProof>)
    requires
        security.q@ >= 0,
    ensures
        is_verdict(
            result,
            verdict(
                data,
                *commitment,
                derived_challenge(shared_state@, *aux, data, *commitment, *security),
                *proof,
            ),
        ),
{
    let challenge = challenge(shared_state, aux, data, commitment, security);
    interactive::verify(data, commitment, &challenge, proof)
}

/// Deterministically compute challenge based on prior known values in protocol
pub fn challenge<C: Curve>(
    shared_state: &[u8],
    aux: &Aux,
    data: Data<C>,
    commitment: &Commitment<C>,
    security: &SecurityParams,
) -> (challenge: Challenge)
    requires
        security.q@ >= 0,
    ensures
        challenge@ == derived_challenge(shared_state@, *aux, data, *commitment, *security),
        -security.q@ <= challenge@ <= security.q@,
{
    let aux_parts: [Vec<u8>; 3] = [aux.s.digits(), aux.t.digits(), aux.rsa_modulo.digits()];
    let points: [Vec<u8>; 8] = [
        bytes_copy(data.l.to_bytes().as_slice()),
        bytes_copy(data.m.to_bytes().as_slice()),
        bytes_copy(data.x.to_bytes().as_slice()),
        bytes_copy(data.h_to_y.to_bytes().as_slice()),
        bytes_copy(data.h.to_bytes().as_slice()),
        bytes_copy(commitment.a.to_bytes().as_slice()),
        bytes_copy(commitment.cap_n.to_bytes().as_slice()),
        bytes_copy(commitment.b.to_bytes().as_slice()),
    ];
    assert(byte_views(aux_parts@) =~= aux_digits(*aux));
    assert(byte_views(points@) =~= point_parts(data, *commitment));
    let bytes = challenge_bytes(
        NI_CHALLENGE,
        C::name(),
        shared_state,
        &aux_parts,
        &security.q.digits(),
        &points,
        Integer::pick_len(&security.q),
    );
    Integer::pick_from_range(&security.q, bytes.as_slice())
}

/// What is proved is verified: where the claim holds of the secrets, the verifier, who derives
/// the same challenge from the same data, accepts what the prover sends.
pub proof fn proved_is_verified<C: Curve>(
    shared_state: Seq<u8>,
    aux: Aux,
    data: Data<C>,
    commitment: Commitment<C>,
    security: SecurityParams,
    proof: Proof,
    y: int,
    lambda: int,
)
    requires
        relation(data, y, lambda),
        answers_for_some_masks(
            data,
            commitment,
            proof,
            y,
            lambda,
            derived_challenge(shared_state, aux, data, commitment, security),
        ),
    ensures
        verdict(
            data,
            commitment,
            derived_challenge(shared_state, aux, data, commitment, security),
            proof,
        ) == Ok::<(), InvalidProofReason>(()),
{
    let challenge = derived_challenge(shared_state, aux, data, commitment, security);
    let (alpha, m) = choose|alpha: int, m: int|
        {
            &&& 0 < alpha < C::order()
            &&& 0 < m < C::order()
            &&& #[trigger] commits_to(data, commitment, alpha, m)
            &&& answers::<C>(proof, y, lambda, alpha, m, challenge)
        };
    honest_proof_passes(data, commitment, proof, y, lambda, alpha, m, challenge);
}

} // verus!
