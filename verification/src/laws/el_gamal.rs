//! The proof of discrete log with El-Gamal commitment.
use crate::bytes::{le_value, pow256};
use crate::curve::Curve;
use crate::dlog_with_el_gamal_commitment::non_interactive::challenge_stream;
use crate::dlog_with_el_gamal_commitment::{
    commits_to, first_check, honest_proof_passes, interactive, non_interactive, relation,
    second_check, third_check, wrong_lambda_is_caught_first, wrong_y_is_caught_second, Aux,
    Challenge, Commitment, Data, Error, InvalidProof, InvalidProofReason, PrivateCommitment,
    PrivateData, Proof, SecurityParams,
};
use crate::integer::{digits_msf, lemma_pow256_is_pow2, magnitude, Integer};
use crate::laws::arithmetic::congruent_means_divisible;
use crate::modular::{congruent, lemma_congruent_mod, lemma_congruent_small};
use crate::security_level::key_size_is_a_lower_bound;
use vstd::arithmetic::power2::{lemma2_to64, lemma_pow2_adds, lemma_pow2_pos, pow2};
use vstd::prelude::*;

verus! {

/// Whether the order of the curve divides a number.
pub open spec fn vanishes<C: Curve>(x: int) -> bool {
    x % (C::order() as int) == 0
}

/// The two sides of the check with number `k` differ by this much: $z G - A - e L$,
/// $u G + z X - N - e M$ and $u H - B - e Y$.
pub open spec fn gap<C: Curve>(
    data: Data<C>,
    commitment: Commitment<C>,
    e: int,
    proof: Proof,
    k: int,
) -> int {
    if k == 1 {
        proof.z@ - commitment.a.log() - e * data.l.log()
    } else if k == 2 {
        proof.u@ + proof.z@ * data.x.log() - commitment.cap_n.log() - e * data.m.log()
    } else {
        proof.u@ * data.h.log() - commitment.b.log() - e * data.h_to_y.log()
    }
}

proof fn lemma_gaps<C: Curve>(data: Data<C>, commitment: Commitment<C>, e: int, proof: Proof)
    requires
        C::order() > 0,
    ensures
        vanishes::<C>(gap(data, commitment, e, proof, 1))
            == first_check(data, commitment, e, proof),
        vanishes::<C>(gap(data, commitment, e, proof, 2))
            == second_check(data, commitment, e, proof),
        vanishes::<C>(gap(data, commitment, e, proof, 3))
            == third_check(data, commitment, e, proof),
{
    let q = C::order();
    let (z, u) = (proof.z@, proof.u@);
    let (l, m, x) = (data.l.log() as int, data.m.log() as int, data.x.log() as int);
    let (h, y) = (data.h.log() as int, data.h_to_y.log() as int);
    congruent_means_divisible(z, commitment.a.log() + l * e, q);
    congruent_means_divisible(u + x * z, commitment.cap_n.log() + m * e, q);
    congruent_means_divisible(h * u, commitment.b.log() + y * e, q);
    assert(l * e == e * l && m * e == e * m && y * e == e * y && x * z == z * x && h * u == u * h)
        by (nonlinear_arith);
}

/// A proof is accepted if and only if all three checks come out even; else the number of the
/// first one that does not is given as the reason.
pub proof fn verdict_is_on_all_checks<'a, C: Curve>(
    data: Data<'a, C>,
    commitment: &Commitment<C>,
    challenge: &Challenge,
    proof: &Proof,
    result: Result<(), InvalidProof>,
    reason: &InvalidProofReason,
)
    requires
        C::order() > 0,
        call_ensures(
            interactive::verify::<C>,
            (data, commitment, challenge, proof),
            result,
        ),
        result is Err ==> call_ensures(InvalidProof::reason, (&result->Err_0,), reason),
    ensures
        result is Ok <==> forall|k: int|
            1 <= k <= 3 ==> vanishes::<C>(
                #[trigger] gap(data, *commitment, challenge@, *proof, k),
            ),
        result is Err ==> {
            let InvalidProofReason::EqualityCheck(k) = *reason;
            &&& 1 <= k <= 3
            &&& !vanishes::<C>(gap(data, *commitment, challenge@, *proof, k as int))
            &&& forall|m: int|
                1 <= m < k ==> vanishes::<C>(
                    #[trigger] gap(data, *commitment, challenge@, *proof, m),
                )
        },
{
    lemma_gaps(data, *commitment, challenge@, *proof);
    let e = challenge@;
    if result is Ok {
        assert forall|k: int| 1 <= k <= 3 implies vanishes::<C>(
            #[trigger] gap(data, *commitment, e, *proof, k),
        ) by {
            assert(k == 1 || k == 2 || k == 3);
        }
    } else {
        assert(vanishes::<C>(gap(data, *commitment, e, *proof, 1)) || !vanishes::<C>(
            gap(data, *commitment, e, *proof, 1),
        ));
        assert(vanishes::<C>(gap(data, *commitment, e, *proof, 2)) || !vanishes::<C>(
            gap(data, *commitment, e, *proof, 2),
        ));
        assert(vanishes::<C>(gap(data, *commitment, e, *proof, 3)) || !vanishes::<C>(
            gap(data, *commitment, e, *proof, 3),
        ));
    }
}

/// A commitment is made of its masks: $A = \alpha G$, $N = m G + \alpha X$ and $B = m H$.
pub proof fn commitment_is_made_of_its_masks<'a, C: Curve>(
    data: Data<'a, C>,
    masks: &PrivateCommitment,
    commitment: Commitment<C>,
)
    requires
        C::order() > 0,
        call_ensures(interactive::commit_to::<C>, (data, masks), commitment),
    ensures
        vanishes::<C>(commitment.a.log() - masks.alpha@),
        vanishes::<C>(commitment.cap_n.log() - masks.m@ - masks.alpha@ * data.x.log()),
        vanishes::<C>(commitment.b.log() - masks.m@ * data.h.log()),
{
    lemma_masks(data, commitment, masks.alpha@, masks.m@);
}

proof fn lemma_masks<C: Curve>(data: Data<C>, commitment: Commitment<C>, alpha: int, m: int)
    requires
        C::order() > 0,
        commits_to(data, commitment, alpha, m),
    ensures
        vanishes::<C>(commitment.a.log() - alpha),
        vanishes::<C>(commitment.cap_n.log() - m - alpha * data.x.log()),
        vanishes::<C>(commitment.b.log() - m * data.h.log()),
{
    let q = C::order();
    let (x, h) = (data.x.log() as int, data.h.log() as int);
    lemma_congruent_mod(alpha, q);
    lemma_congruent_mod(m + x * alpha, q);
    lemma_congruent_mod(h * m, q);
    congruent_means_divisible(commitment.a.log() as int, alpha, q);
    congruent_means_divisible(commitment.cap_n.log() as int, m + x * alpha, q);
    congruent_means_divisible(commitment.b.log() as int, h * m, q);
    assert(x * alpha == alpha * x && h * m == m * h) by (nonlinear_arith);
}

/// A random commitment is made of masks between zero and the order.
pub proof fn random_commitment_is_made_of_its_masks<'a, C: Curve>(
    data: Data<'a, C>,
    commitment: Commitment<C>,
    masks: PrivateCommitment,
)
    requires
        call_ensures(interactive::commit::<C>, (data,), Ok((commitment, masks))),
    ensures
        0 < masks.alpha@ < C::order(),
        0 < masks.m@ < C::order(),
        vanishes::<C>(commitment.a.log() - masks.alpha@),
        vanishes::<C>(commitment.cap_n.log() - masks.m@ - masks.alpha@ * data.x.log()),
        vanishes::<C>(commitment.b.log() - masks.m@ * data.h.log()),
{
    lemma_masks(data, commitment, masks.alpha@, masks.m@);
}

/// Committing and proving never fail, and a proof is made of masks, challenge and secrets:
/// $z = \alpha + e \lambda$ and $u = m + e y$, between zero and the order.
pub proof fn proof_is_made_of_its_secrets<'a, C: Curve>(
    secrets: PrivateData<'a>,
    masks: &PrivateCommitment,
    challenge: &Challenge,
    result: Result<Proof, Error>,
)
    requires
        C::order() > 0,
        call_ensures(interactive::prove::<C>, (secrets, masks, challenge), result),
    ensures
        result matches Ok(proof) && {
            &&& 0 <= proof.z@ < C::order()
            &&& vanishes::<C>(proof.z@ - masks.alpha@ - challenge@ * secrets.lambda@)
            &&& 0 <= proof.u@ < C::order()
            &&& vanishes::<C>(proof.u@ - masks.m@ - challenge@ * secrets.y@)
        },
{
    let q = C::order();
    let proof = result->Ok_0;
    let e = challenge@;
    lemma_congruent_mod(masks.alpha@ + e * secrets.lambda@, q);
    lemma_congruent_mod(masks.m@ + e * secrets.y@, q);
    congruent_means_divisible(proof.z@, masks.alpha@ + e * secrets.lambda@, q);
    congruent_means_divisible(proof.u@, masks.m@ + e * secrets.y@, q);
}

/// The claim that is proved: $L = \lambda G$, $M = y G + \lambda X$ and $Y = y H$.
pub open spec fn claim<C: Curve>(data: Data<C>, y: int, lambda: int) -> bool {
    &&& vanishes::<C>(lambda - data.l.log())
    &&& vanishes::<C>(y + lambda * data.x.log() - data.m.log())
    &&& vanishes::<C>(y * data.h.log() - data.h_to_y.log())
}

proof fn lemma_claim<C: Curve>(data: Data<C>, y: int, lambda: int)
    requires
        C::order() > 0,
    ensures
        claim(data, y, lambda) == relation(data, y, lambda),
{
    let q = C::order();
    let (x, h) = (data.x.log() as int, data.h.log() as int);
    congruent_means_divisible(lambda, data.l.log() as int, q);
    congruent_means_divisible(y + x * lambda, data.m.log() as int, q);
    congruent_means_divisible(h * y, data.h_to_y.log() as int, q);
    assert(x * lambda == lambda * x && h * y == y * h) by (nonlinear_arith);
}

/// Where the claim holds of some secrets, the verifier accepts the proof of a prover who uses
/// them. A prover who uses a wrong lambda fails the first check, and one who uses only a wrong
/// y the second, unless the challenge makes the error vanish.
pub proof fn only_the_secrets_convince<'a, 'b, C: Curve>(
    data: Data<'a, C>,
    y: int,
    lambda: int,
    masks: &PrivateCommitment,
    commitment: &Commitment<C>,
    challenge: &Challenge,
    used: PrivateData<'b>,
    proof: &Proof,
    result: Result<(), InvalidProof>,
    reason: &InvalidProofReason,
)
    requires
        C::order() > 0,
        claim(data, y, lambda),
        call_ensures(interactive::commit_to::<C>, (data, masks), *commitment),
        call_ensures(interactive::prove::<C>, (used, masks, challenge), Ok(*proof)),
        call_ensures(
            interactive::verify::<C>,
            (data, commitment, challenge, proof),
            result,
        ),
        result is Err ==> call_ensures(InvalidProof::reason, (&result->Err_0,), reason),
    ensures
        used.y@ == y && used.lambda@ == lambda ==> result is Ok,
        used.y@ == y && !vanishes::<C>(challenge@ * (used.lambda@ - lambda)) ==> result is Err
            && *reason == InvalidProofReason::EqualityCheck(1),
        used.lambda@ == lambda && !vanishes::<C>(challenge@ * (used.y@ - y)) ==> result is Err
            && *reason == InvalidProofReason::EqualityCheck(2),
{
    let q = C::order();
    let e = challenge@;
    let (alpha, m) = (masks.alpha@, masks.m@);
    lemma_claim(data, y, lambda);
    lemma_congruent_small(0, 0, q);
    if used.y@ == y && used.lambda@ == lambda {
        honest_proof_passes(data, *commitment, *proof, y, lambda, alpha, m, e);
    }
    if used.y@ == y {
        wrong_lambda_is_caught_first(
            data,
            *commitment,
            *proof,
            y,
            lambda,
            used.lambda@,
            alpha,
            m,
            e,
        );
    }
    if used.lambda@ == lambda {
        wrong_y_is_caught_second(
            data,
            *commitment,
            *proof,
            y,
            lambda,
            used.y@,
            alpha,
            m,
            e,
        );
    }
}

/// The derived challenge is drawn from the shared state, the auxiliary data, the security
/// parameter and every point of data and commitment, and lies in its range.
pub proof fn challenge_is_drawn_from_everything<'a, C: Curve>(
    shared_state: &[u8],
    aux: &Aux,
    data: Data<'a, C>,
    commitment: &Commitment<C>,
    security: &SecurityParams,
    challenge: Challenge,
    len: usize,
)
    requires
        security.q@ >= 0,
        call_ensures(
            non_interactive::challenge::<C>,
            (shared_state, aux, data, commitment, security),
            challenge,
        ),
        call_ensures(Integer::pick_len, (&security.q,), len),
    ensures
        -security.q@ <= challenge@ <= security.q@,
        congruent(
            challenge@ + security.q@,
            le_value(
                challenge_stream(
                    "paillier_zk.dlog_with_el_gamal.ni_challenge"@,
                    C::group_name(),
                    shared_state@,
                    seq![
                        digits_msf(magnitude(aux.s@)),
                        digits_msf(magnitude(aux.t@)),
                        digits_msf(magnitude(aux.rsa_modulo@)),
                    ],
                    digits_msf(magnitude(security.q@)),
                    seq![
                        data.l.encoding(),
                        data.m.encoding(),
                        data.x.encoding(),
                        data.h_to_y.encoding(),
                        data.h.encoding(),
                        commitment.a.encoding(),
                        commitment.cap_n.encoding(),
                        commitment.b.encoding(),
                    ],
                    len as nat,
                ),
            ) as int,
            (2 * security.q@ + 1) as nat,
        ),
{
    let stream = challenge_stream(
        "paillier_zk.dlog_with_el_gamal.ni_challenge"@,
        C::group_name(),
        shared_state@,
        non_interactive::aux_digits(*aux),
        digits_msf(magnitude(security.q@)),
        non_interactive::point_parts(data, *commitment),
        len as nat,
    );
    lemma_congruent_mod(le_value(stream) as int, (2 * security.q@ + 1) as nat);
}

/// What is proved is verified: a verifier with the same data accepts the proof of a prover who
/// knows secrets of which the claim holds. Proving never fails.
pub proof fn proved_claim_is_accepted<'a, 'b, C: Curve>(
    shared_state: &[u8],
    aux: &Aux,
    data: Data<'a, C>,
    secrets: PrivateData<'b>,
    security: &SecurityParams,
    made: Result<(Commitment<C>, Proof), Error>,
    result: Result<(), InvalidProof>,
)
    requires
        security.q@ >= 0,
        claim(data, secrets.y@, secrets.lambda@),
        call_ensures(
            non_interactive::prove::<C>,
            (shared_state, aux, data, secrets, security),
            made,
        ),
        made is Ok ==> call_ensures(
            non_interactive::verify::<C>,
            (shared_state, aux, data, &made->Ok_0.0, security, &made->Ok_0.1),
            result,
        ),
    ensures
        made is Ok,
        result is Ok,
{
    let (commitment, proof) = made->Ok_0;
    assert(C::order() > 0);
    lemma_claim(data, secrets.y@, secrets.lambda@);
    non_interactive::proved_is_verified(
        shared_state@,
        *aux,
        data,
        commitment,
        *security,
        proof,
        secrets.y@,
        secrets.lambda@,
    );
}

/// The non-interactive verifier gives the verdict of the interactive one on the challenge that
/// is derived.
pub proof fn verifiers_agree<'a, C: Curve>(
    shared_state: &[u8],
    aux: &Aux,
    data: Data<'a, C>,
    commitment: &Commitment<C>,
    security: &SecurityParams,
    proof: &Proof,
    challenge: Challenge,
    result: Result<(), InvalidProof>,
    other: Result<(), InvalidProof>,
    reason: &InvalidProofReason,
    other_reason: &InvalidProofReason,
)
    requires
        security.q@ >= 0,
        call_ensures(
            non_interactive::challenge::<C>,
            (shared_state, aux, data, commitment, security),
            challenge,
        ),
        call_ensures(
            non_interactive::verify::<C>,
            (shared_state, aux, data, commitment, security, proof),
            result,
        ),
        call_ensures(
            interactive::verify::<C>,
            (data, commitment, &challenge, proof),
            other,
        ),
        result is Err ==> call_ensures(InvalidProof::reason, (&result->Err_0,), reason),
        other is Err ==> call_ensures(InvalidProof::reason, (&other->Err_0,), other_reason),
    ensures
        result is Ok == other is Ok,
        result is Err ==> *reason == *other_reason,
{
}

/// With given masks the non-interactive prover does what the interactive one does on the
/// challenge that is derived.
pub proof fn provers_agree<'a, 'b, C: Curve>(
    shared_state: &[u8],
    aux: &Aux,
    data: Data<'a, C>,
    secrets: PrivateData<'b>,
    security: &SecurityParams,
    masks: &PrivateCommitment,
    commitment: Commitment<C>,
    proof: Proof,
    challenge: Challenge,
)
    requires
        C::order() > 0,
        security.q@ >= 0,
        call_ensures(
            non_interactive::prove_with::<C>,
            (shared_state, aux, data, secrets, security, masks),
            Ok((commitment, proof)),
        ),
        call_ensures(
            non_interactive::challenge::<C>,
            (shared_state, aux, data, &commitment, security),
            challenge,
        ),
    ensures
        vanishes::<C>(commitment.a.log() - masks.alpha@),
        vanishes::<C>(commitment.cap_n.log() - masks.m@ - masks.alpha@ * data.x.log()),
        vanishes::<C>(commitment.b.log() - masks.m@ * data.h.log()),
        vanishes::<C>(proof.z@ - masks.alpha@ - challenge@ * secrets.lambda@),
        vanishes::<C>(proof.u@ - masks.m@ - challenge@ * secrets.y@),
{
    let q = C::order();
    let e = challenge@;
    lemma_masks(data, commitment, masks.alpha@, masks.m@);
    lemma_congruent_mod(masks.alpha@ + e * secrets.lambda@, q);
    lemma_congruent_mod(masks.m@ + e * secrets.y@, q);
    congruent_means_divisible(proof.z@, masks.alpha@ + e * secrets.lambda@, q);
    congruent_means_divisible(proof.u@, masks.m@ + e * secrets.y@, q);
}

/// The more bytes go into a pick, the more evenly it is spread: there are more strings of that
/// many bytes than 2^128 times the largest number in the range.
pub proof fn picks_are_spread_evenly(range: &Integer, len: usize)
    requires
        range@ >= 0,
        len < usize::MAX,
        call_ensures(Integer::pick_len, (range,), len),
    ensures
        pow256(len as nat) > pow2(128) * range@,
{
    let bytes = (len - 17) as nat;
    lemma_pow256_is_pow2(bytes);
    lemma_pow256_is_pow2(len as nat);
    lemma_pow2_adds(136, 8 * bytes);
    lemma_pow2_adds(128, 8);
    lemma2_to64();
    key_size_is_a_lower_bound(range@ as nat, 8 * bytes + 1);
    let a = pow2(128) as int;
    let b = pow2(8 * bytes) as int;
    let r = range@;
    lemma_pow2_pos(128);
    lemma_pow2_pos(8 * bytes);
    assert((a * 256) * b > a * r) by (nonlinear_arith)
        requires
            a > 0,
            0 <= r < b,
    ;
}

} // verus!
