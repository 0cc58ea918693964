//! Non-threshold key refresh.
use crate::curve::{encodings, logs, values, Point};
use crate::errors::{Bug, InvalidArgs, KeyRefreshError, ProtocolAborted, Reason};
use crate::key_share::{nonzero, IncompleteKeyShare};
use crate::laws::arithmetic::{
    lemma_sum_congruent, lemma_xor_all_byte, sum_is_total, total, xor_follows_each_byte, xor_of,
};
use crate::laws::blame::{blames_exactly, lemma_blame_list, seat};
use crate::laws::digests::{
    commitments_digest_is_injective, decommitment_digest_is_injective, lemma_same_points,
    same_points,
};
use crate::laws::rounds::{lemma_proof_holds, mask_between, proof_holds};
use crate::modular::{
    congruent, lemma_congruent_add, lemma_congruent_mod, lemma_congruent_small,
    lemma_congruent_sub,
};
use crate::refresh_curve::{schnorr_holds, RefreshCurve};
use crate::rounds::{
    column, commitments_of, different_echoes, honest_proofs_hold, pok_challenge, refreshed_secret,
};
use crate::non_threshold::{
    expected_shares, rids_of, AfterRound1, AwaitCommitments, AwaitDecommitments, AwaitEchoes,
    AwaitShares, KeyRefreshOutput, MsgReliabilityCheck, MsgRound1, MsgRound2, MsgRound3Broadcast,
    MsgRound3Unicast, Randomness, Session,
};
use crate::unambiguous::{commitments_digest, decommitment_digest};
use crate::utils::{lemma_sum_insert, peer, sum, Received};
use vstd::prelude::*;

verus! {

/// A round is complete with one message of each peer.
pub open spec fn one_of_each<M>(received: Received<M>, n: u16) -> bool {
    received.ids.len() + 1 == n && received.msgs.len() + 1 == n
}

/// The digest of a decommitment, field by field.
pub open spec fn digest_of<E: RefreshCurve>(
    m: MsgRound2<E>,
    sid: Seq<u8>,
    prover: u16,
) -> Seq<u8> {
    decommitment_digest(
        E::group_name(),
        "dfns.cggmp24.key_refresh.hash_refresh_com"@,
        "dfns.cggmp24.key_refresh.round2"@,
        "x_prime_points"@,
        sid,
        prover,
        m.rid@,
        m.x_prime_points@.map_values(|p: Point<E>| p.encoding()),
        m.y_points@.map_values(|p: Point<E>| p.encoding()),
        m.sch_commits@.map_values(|p: Point<E>| p.encoding()),
        m.decommit@,
    )
}

proof fn lemma_digest_of<E: RefreshCurve>(m: MsgRound2<E>, sid: Seq<u8>, prover: u16)
    ensures
        digest_of(m, sid, prover) == m.commitment(sid, prover),
{
    let points = m.x_prime_points@;
    assert(points.map_values(|p: Point<E>| p.encoding()) =~= encodings(points));
    assert(m.y_points@.map_values(|p: Point<E>| p.encoding()) =~= encodings(m.y_points@));
    assert(m.sch_commits@.map_values(|p: Point<E>| p.encoding()) =~= encodings(m.sch_commits@));
}

/// A party commits to the digest of its decommitment, with every field in its place.
pub proof fn commitment_is_the_digest<E: RefreshCurve>(
    m: &MsgRound2<E>,
    sid: &[u8],
    prover: u16,
    hash: Vec<u8>,
)
    requires
        call_ensures(MsgRound2::<E>::commit, (m, sid, prover), hash),
    ensures
        hash@ == digest_of(*m, sid@, prover),
{
    lemma_digest_of(*m, sid@, prover);
}

/// Whether two decommitments are the same in every field.
pub open spec fn same_decommitment<E: RefreshCurve>(a: MsgRound2<E>, b: MsgRound2<E>) -> bool {
    &&& a.rid@ == b.rid@
    &&& same_points(a.x_prime_points@, b.x_prime_points@)
    &&& same_points(a.y_points@, b.y_points@)
    &&& same_points(a.sch_commits@, b.sch_commits@)
    &&& a.decommit@ == b.decommit@
}

/// A commitment binds the session, the party and every field of the decommitment: if no two
/// inputs have the same digest, two commitments are equal only where all of these are.
pub proof fn commitment_binds_every_field<E: RefreshCurve>(
    m: &MsgRound2<E>,
    sid: &[u8],
    prover: u16,
    hash: Vec<u8>,
    other: &MsgRound2<E>,
    other_sid: &[u8],
    other_prover: u16,
    other_hash: Vec<u8>,
)
    requires
        call_ensures(MsgRound2::<E>::commit, (m, sid, prover), hash),
        call_ensures(MsgRound2::<E>::commit, (other, other_sid, other_prover), other_hash),
        hash@ == other_hash@,
    ensures
        decommitment_digest_is_injective() ==> {
            &&& sid@ == other_sid@
            &&& prover == other_prover
            &&& same_decommitment(*m, *other)
        },
{
    lemma_digest_binds(*m, sid@, prover, *other, other_sid@, other_prover);
}

proof fn lemma_digest_binds<E: RefreshCurve>(
    m: MsgRound2<E>,
    sid: Seq<u8>,
    prover: u16,
    other: MsgRound2<E>,
    other_sid: Seq<u8>,
    other_prover: u16,
)
    ensures
        decommitment_digest_is_injective() && m.commitment(sid, prover) == other.commitment(
            other_sid,
            other_prover,
        ) ==> {
            &&& sid == other_sid
            &&& prover == other_prover
            &&& same_decommitment(m, other)
        },
{
    lemma_same_points(m.x_prime_points@, other.x_prime_points@);
    lemma_same_points(m.y_points@, other.y_points@);
    lemma_same_points(m.sch_commits@, other.sch_commits@);
}

/// The lists of a key share have one element per party.
proof fn lemma_lengths<'a, E: RefreshCurve>(session: Session<'a, E>)
    requires
        session.wf(),
    ensures
        session.i < session.n,
        logs(session.share.inner().key_info.public_shares@).len() == session.n,
{
}

/// A run is refused for a threshold key share, or else for an index that is not the one of the
/// key share, and for nothing else. A run that starts has one seat for each public share.
pub proof fn session_takes_the_share<'a, E: RefreshCurve>(
    sid: &'a [u8],
    i: u16,
    share: &'a IncompleteKeyShare<E>,
    reliable: bool,
    kappa_bytes: usize,
    result: Result<Session<'a, E>, KeyRefreshError>,
)
    requires
        call_ensures(Session::<'a, E>::new, (sid, i, share, reliable, kappa_bytes), result),
    ensures
        if share.inner().key_info.vss_setup is Some {
            result matches Err(KeyRefreshError(Reason::NotThreshold))
        } else if i != share.inner().i {
            result matches Err(
                KeyRefreshError(Reason::InvalidArgs(InvalidArgs::MismatchedOwnIndex)),
            )
        } else {
            result matches Ok(session) && {
                &&& session.sid == sid
                &&& session.i == i
                &&& session.n == share.inner().key_info.public_shares.len()
                &&& i < session.n
                &&& session.share == share
                &&& session.reliable_broadcast_enforced == reliable
                &&& session.kappa_bytes == kappa_bytes
            }
        },
{
}

/// In round 1 a party splits zero into one summand per party, the random ones and one that makes
/// up for them, and commits to the multiples of the generator by all that it keeps secret.
pub proof fn first_round_commits_to_the_secrets<'a, E: RefreshCurve>(
    session: Session<'a, E>,
    randomness: Randomness<E>,
    next: AwaitCommitments<'a, E>,
    j: int,
)
    requires
        E::order() > 0,
        session.wf(),
        randomness.fits(session.n, session.kappa_bytes),
        call_ensures(Session::<'a, E>::begin, (session, randomness), next),
        0 <= j < session.n,
    ensures
        ({
            let m = next.my_decommitment;
            &&& next.session == session
            &&& next.x_prime.len() == session.n
            &&& j < session.n - 1 ==> next.x_prime@[j].value()
                == randomness.x_prime_head@[j].value()
            &&& total(
                Seq::new(session.n as nat, |k: int| next.x_prime@[k].value() as int),
            ) % (E::order() as int) == 0
            &&& next.y@[j].value() == randomness.y@[j].value()
            &&& next.tau@[j].value() == randomness.tau@[j].value()
            &&& m.x_prime_points.len() == session.n
            &&& m.x_prime_points@[j].log() == next.x_prime@[j].value()
            &&& m.y_points.len() == session.n
            &&& m.y_points@[j].log() == randomness.y@[j].value()
            &&& m.sch_commits.len() == session.n
            &&& m.sch_commits@[j].log() == randomness.tau@[j].value()
            &&& m.rid@ == randomness.rid@
            &&& m.decommit@ == randomness.decommit@
            &&& next.my_commitment.commitment@ == digest_of(m, session.sid@, session.i)
        }),
{
    let m = next.my_decommitment;
    lemma_digest_of(m, session.sid@, session.i);
    lemma_shaped(m, session.n);
    let x = values(next.x_prime@);
    let head = values(randomness.x_prime_head@);
    assert(x.len() == next.x_prime.len());
    assert(head.len() == randomness.x_prime_head.len());
    assert(x[j] == next.x_prime@[j].value());
    if j < session.n - 1 {
        assert(head[j] == randomness.x_prime_head@[j].value());
    }
    assert(x =~= Seq::new(session.n as nat, |k: int| next.x_prime@[k].value() as int));
    assert(x =~= Seq::new(
        m.x_prime_points@.len(),
        |k: int| m.x_prime_points@[k].log() as int,
    )) by {
        assert forall|k: int| 0 <= k < session.n implies #[trigger] x[k]
            == m.x_prime_points@[k].log() by {
            assert(logs(m.x_prime_points@)[k] == x[k]);
        }
    }
    assert(logs(m.x_prime_points@)[j] == m.x_prime_points@[j].log());
    assert(logs(m.y_points@)[j] == m.y_points@[j].log());
    assert(values(next.y@)[j] == next.y@[j].value());
    assert(logs(m.sch_commits@)[j] == m.sch_commits@[j].log());
    assert(values(next.tau@)[j] == next.tau@[j].value());
}

/// Random values are as many as a run takes, and no scalar is zero.
pub proof fn random_values_suffice<E: RefreshCurve>(
    n: u16,
    kappa_bytes: usize,
    randomness: Randomness<E>,
    j: int,
    k: int,
)
    requires
        n > 0,
        call_ensures(Randomness::<E>::sample, (n, kappa_bytes), randomness),
        0 <= j < n,
        0 <= k < n - 1,
    ensures
        randomness.y.len() == n,
        randomness.x_prime_head.len() == n - 1,
        randomness.tau.len() == n,
        randomness.rid.len() == kappa_bytes,
        randomness.decommit.len() == kappa_bytes,
        randomness.y@[j].value() != 0,
        randomness.x_prime_head@[k].value() != 0,
        randomness.tau@[j].value() != 0,
{
    assert(values(randomness.y@)[j] == randomness.y@[j].value());
    assert(values(randomness.x_prime_head@)[k] == randomness.x_prime_head@[k].value());
    assert(values(randomness.tau@)[j] == randomness.tau@[j].value());
}

/// A step can be taken from every state that the step before it gives, with the right number of
/// random values or messages.
pub proof fn steps_follow_one_another<'a, E: RefreshCurve>(
    sid: &'a [u8],
    i: u16,
    share: &'a IncompleteKeyShare<E>,
    reliable: bool,
    kappa_bytes: usize,
    session: Session<'a, E>,
    randomness: Randomness<E>,
    begun: AwaitCommitments<'a, E>,
    commitments: Received<MsgRound1>,
    after: AfterRound1<'a, E>,
    echoes: Received<MsgReliabilityCheck>,
    waiting: AwaitDecommitments<'a, E>,
    decommitments: Received<MsgRound2<E>>,
    last: AwaitShares<'a, E>,
    proofs: Received<MsgRound3Broadcast<E>>,
    masked: Received<MsgRound3Unicast<E>>,
)
    requires
        call_ensures(
            Session::<'a, E>::new,
            (sid, i, share, reliable, kappa_bytes),
            Ok(session),
        ),
        call_ensures(
            Randomness::<E>::sample,
            (session.n, kappa_bytes),
            randomness,
        ),
        one_of_each(commitments, session.n),
        one_of_each(echoes, session.n),
        one_of_each(decommitments, session.n),
        one_of_each(proofs, session.n),
        one_of_each(masked, session.n),
        forall|p: int|
            0 <= p < decommitments.msgs.len() ==> (#[trigger] decommitments.msgs@[p]).rid.len()
                == kappa_bytes,
    ensures
        call_requires(Session::<'a, E>::begin, (session, randomness)),
        call_ensures(Session::<'a, E>::begin, (session, randomness), begun) ==> call_requires(
            AwaitCommitments::<'a, E>::on_commitments,
            (begun, commitments),
        ),
        call_ensures(Session::<'a, E>::begin, (session, randomness), begun) && call_ensures(
            AwaitCommitments::<'a, E>::on_commitments,
            (begun, commitments),
            after,
        ) ==> match after {
            AfterRound1::SendEcho(state) => {
                &&& call_requires(AwaitEchoes::<'a, E>::on_echoes, (state, echoes))
                &&& call_ensures(
                    AwaitEchoes::<'a, E>::on_echoes,
                    (state, echoes),
                    Ok(waiting),
                ) ==> call_requires(
                    AwaitDecommitments::<'a, E>::on_decommitments,
                    (waiting, decommitments),
                )
                &&& call_ensures(
                    AwaitEchoes::<'a, E>::on_echoes,
                    (state, echoes),
                    Ok(waiting),
                ) && call_ensures(
                    AwaitDecommitments::<'a, E>::on_decommitments,
                    (waiting, decommitments),
                    Ok(last),
                ) ==> call_requires(AwaitShares::<'a, E>::on_shares, (last, proofs, masked))
            },
            AfterRound1::SendDecommitment(state) => {
                &&& call_requires(
                    AwaitDecommitments::<'a, E>::on_decommitments,
                    (state, decommitments),
                )
                &&& call_ensures(
                    AwaitDecommitments::<'a, E>::on_decommitments,
                    (state, decommitments),
                    Ok(last),
                ) ==> call_requires(AwaitShares::<'a, E>::on_shares, (last, proofs, masked))
            },
        },
{
    lemma_lengths(session);
}

/// The commitments of all parties, as one of them has got them.
pub open spec fn commitments_seen<'a, E: RefreshCurve>(
    state: AwaitCommitments<'a, E>,
    commitments: Received<MsgRound1>,
) -> Seq<Seq<u8>> {
    Seq::new(
        state.session.n as nat,
        |j: int|
            if j == state.session.i {
                state.my_commitment.commitment@
            } else {
                commitments.msgs@[seat(state.session.i as int, j)].commitment@
            },
    )
}

/// Where reliable broadcast is enforced, and only there, a party echoes. The echo is the digest
/// of the commitments of all parties, each at the index of its party.
pub proof fn echo_is_the_digest_of_all_commitments<'a, E: RefreshCurve>(
    state: AwaitCommitments<'a, E>,
    commitments: Received<MsgRound1>,
    next: AfterRound1<'a, E>,
)
    requires
        state.wf(),
        one_of_each(commitments, state.session.n),
        call_ensures(
            AwaitCommitments::<'a, E>::on_commitments,
            (state, commitments),
            next,
        ),
    ensures
        next is SendEcho <==> state.session.reliable_broadcast_enforced,
        next matches AfterRound1::SendEcho(s) ==> {
            &&& s.own == state
            &&& s.commitments == commitments
            &&& s.echo.hash@ == commitments_digest(
                "dfns.cggmp24.key_refresh.echo_round"@,
                "dfns.cggmp24.key_refresh.round1"@,
                state.session.sid@,
                commitments_seen(state, commitments),
            )
        },
        next matches AfterRound1::SendDecommitment(s) ==> {
            &&& s.own == state
            &&& s.commitments == commitments
        },
{
    let seen = commitments_seen(state, commitments);
    let all = commitments.including(state.session.i, state.my_commitment);
    assert(commitments_of(all) =~= seen);
}

/// Two parties that have got different commitments from any one party echo different digests,
/// if no two inputs have the same digest.
pub proof fn different_commitments_different_echoes<'a, 'b, E: RefreshCurve>(
    one: AwaitCommitments<'a, E>,
    got: Received<MsgRound1>,
    one_next: AwaitEchoes<'a, E>,
    other: AwaitCommitments<'b, E>,
    other_got: Received<MsgRound1>,
    other_next: AwaitEchoes<'b, E>,
    j: int,
)
    requires
        one.wf(),
        one_of_each(got, one.session.n),
        call_ensures(
            AwaitCommitments::<'a, E>::on_commitments,
            (one, got),
            AfterRound1::SendEcho(one_next),
        ),
        other.wf(),
        one_of_each(other_got, other.session.n),
        call_ensures(
            AwaitCommitments::<'b, E>::on_commitments,
            (other, other_got),
            AfterRound1::SendEcho(other_next),
        ),
        one.session.n == other.session.n,
        0 <= j < one.session.n,
        commitments_seen(one, got)[j] != commitments_seen(other, other_got)[j],
    ensures
        commitments_digest_is_injective() ==> one_next.echo.hash@ != other_next.echo.hash@,
{
    echo_is_the_digest_of_all_commitments(one, got, AfterRound1::SendEcho(one_next));
    echo_is_the_digest_of_all_commitments(other, other_got, AfterRound1::SendEcho(other_next));
}

/// Whether party `j` has echoed something else.
pub open spec fn echoed_otherwise<'a, E: RefreshCurve>(
    state: AwaitEchoes<'a, E>,
    echoes: Received<MsgReliabilityCheck>,
    j: int,
) -> bool {
    echoes.msgs@[seat(state.own.session.i as int, j)].hash@ != state.echo.hash@
}

/// The run goes on if and only if all echoes are the same; else exactly the parties that have
/// echoed something else are blamed.
pub proof fn different_echoes_are_blamed<'a, E: RefreshCurve>(
    state: AwaitEchoes<'a, E>,
    echoes: Received<MsgReliabilityCheck>,
    result: Result<AwaitDecommitments<'a, E>, KeyRefreshError>,
)
    requires
        state.wf(),
        one_of_each(echoes, state.own.session.n),
        call_ensures(AwaitEchoes::<'a, E>::on_echoes, (state, echoes), result),
    ensures
        result is Ok <==> forall|j: int|
            0 <= j < state.own.session.n && j != state.own.session.i ==> !(
            #[trigger] echoed_otherwise(state, echoes, j)),
        result matches Ok(next) ==> next.own == state.own && next.commitments
            == state.commitments,
        result is Err ==> (result matches Err(
            KeyRefreshError(Reason::Aborted(ProtocolAborted::Round1NotReliable(list))),
        ) && blames_exactly(
            list@,
            state.own.session.i as int,
            state.own.session.n as int,
            |j: int| echoed_otherwise(state, echoes, j),
            echoes.ids@,
            echoes.ids@,
        )),
{
    let i = state.own.session.i as int;
    let n = state.own.session.n as int;
    let marks = different_echoes(echoes.msgs@, state.echo.hash@);
    lemma_lengths(state.own.session);
    assert forall|j: int| 0 <= j < n && j != i implies #[trigger] echoed_otherwise(
        state,
        echoes,
        j,
    ) == marks[seat(i, j)] by {}
    lemma_marks(marks, i, n, |j: int| echoed_otherwise(state, echoes, j));
    lemma_blame_list(
        state.own.session.i,
        n,
        echoes.ids@,
        echoes.ids@,
        marks,
        |j: int| echoed_otherwise(state, echoes, j),
    );
    assert forall|j: int| 0 <= j < n && j != i && !marks.contains(true) implies !(
    #[trigger] echoed_otherwise(state, echoes, j)) by {
        assert(marks[seat(i, j)] == echoed_otherwise(state, echoes, j));
    }
    if marks.contains(true) {
        let p = choose|p: int| 0 <= p < marks.len() && marks[p];
        let j = peer(i, p);
        assert(seat(i, j) == p);
        assert(echoed_otherwise(state, echoes, j));
    }
}

/// Marks by place and guilt by index say the same.
proof fn lemma_marks(marks: Seq<bool>, i: int, n: int, guilty: spec_fn(int) -> bool)
    requires
        0 <= i < n,
        marks.len() == n - 1,
        forall|j: int| 0 <= j < n && j != i ==> #[trigger] guilty(j) == marks[seat(i, j)],
    ensures
        marks.contains(true) <==> exists|j: int| 0 <= j < n && j != i && #[trigger] guilty(j),
{
    if marks.contains(true) {
        let p = choose|p: int| 0 <= p < marks.len() && marks[p];
        let j = peer(i, p);
        assert(seat(i, j) == p);
        assert(guilty(j));
    }
    if exists|j: int| 0 <= j < n && j != i && #[trigger] guilty(j) {
        let j = choose|j: int| 0 <= j < n && j != i && #[trigger] guilty(j);
        assert(marks[seat(i, j)]);
    }
}

/// Whether a decommitment has a point of each kind for each of `n` parties, and what is
/// contributed to the shares adds up to zero.
pub open spec fn shaped<E: RefreshCurve>(m: MsgRound2<E>, n: u16) -> bool {
    &&& m.x_prime_points.len() == n
    &&& m.y_points.len() == n
    &&& m.sch_commits.len() == n
    &&& total(
        Seq::new(m.x_prime_points@.len(), |k: int| m.x_prime_points@[k].log() as int),
    ) % (E::order() as int) == 0
}

proof fn lemma_shaped<E: RefreshCurve>(m: MsgRound2<E>, n: u16)
    requires
        E::order() > 0,
    ensures
        shaped(m, n) == m.well_formed(n),
{
    let x = Seq::new(m.x_prime_points@.len(), |k: int| m.x_prime_points@[k].log() as int);
    assert(x =~= logs(m.x_prime_points@));
    sum_is_total(x);
    lemma_congruent_small(0, 0, E::order());
}

/// Whether party `j` has opened something that is not shaped as it should be, or is not what it
/// has committed to.
pub open spec fn opened_badly<'a, E: RefreshCurve>(
    state: AwaitDecommitments<'a, E>,
    decommitments: Received<MsgRound2<E>>,
    j: int,
) -> bool {
    let p = seat(state.own.session.i as int, j);
    let m = decommitments.msgs@[p];
    ||| !shaped(m, state.own.session.n)
    ||| state.commitments.msgs@[p].commitment@ != digest_of(
        m,
        state.own.session.sid@,
        j as u16,
    )
}

/// The run goes on if and only if all parties have opened what they have committed to, in the
/// right shape; else exactly those that have not are blamed.
pub proof fn bad_openings_are_blamed<'a, E: RefreshCurve>(
    state: AwaitDecommitments<'a, E>,
    decommitments: Received<MsgRound2<E>>,
    result: Result<AwaitShares<'a, E>, KeyRefreshError>,
)
    requires
        state.wf(),
        one_of_each(decommitments, state.own.session.n),
        call_ensures(
            AwaitDecommitments::<'a, E>::on_decommitments,
            (state, decommitments),
            result,
        ),
    ensures
        result is Ok <==> forall|j: int|
            0 <= j < state.own.session.n && j != state.own.session.i ==> !(
            #[trigger] opened_badly(state, decommitments, j)),
        result is Err ==> (result matches Err(
            KeyRefreshError(Reason::Aborted(ProtocolAborted::InvalidDecommitment(list))),
        ) && blames_exactly(
            list@,
            state.own.session.i as int,
            state.own.session.n as int,
            |j: int| opened_badly(state, decommitments, j),
            state.commitments.ids@,
            decommitments.ids@,
        )),
{
    let i = state.own.session.i as int;
    let n = state.own.session.n as int;
    let marks = state.faulty(decommitments);
    lemma_order_of(state.own);
    lemma_lengths(state.own.session);
    assert forall|j: int| 0 <= j < n && j != i implies #[trigger] opened_badly(
        state,
        decommitments,
        j,
    ) == marks[seat(i, j)] by {
        let p = seat(i, j);
        assert(peer(i, p) == j);
        lemma_shaped(decommitments.msgs@[p], state.own.session.n);
        lemma_digest_of(decommitments.msgs@[p], state.own.session.sid@, j as u16);
    }
    lemma_marks(marks, i, n, |j: int| opened_badly(state, decommitments, j));
    lemma_blame_list(
        state.own.session.i,
        n,
        state.commitments.ids@,
        decommitments.ids@,
        marks,
        |j: int| opened_badly(state, decommitments, j),
    );
    assert forall|j: int| 0 <= j < n && j != i && !marks.contains(true) implies !(
    #[trigger] opened_badly(state, decommitments, j)) by {
        assert(marks[seat(i, j)] == opened_badly(state, decommitments, j));
    }
    if marks.contains(true) {
        let p = choose|p: int| 0 <= p < marks.len() && marks[p];
        let j = peer(i, p);
        assert(seat(i, j) == p);
        assert(opened_badly(state, decommitments, j));
    }
}

/// A party that opens anything else than what it has committed to, in whichever field, is
/// blamed, if no two inputs have the same digest.
pub proof fn opening_something_else_is_blamed<'a, E: RefreshCurve>(
    state: AwaitDecommitments<'a, E>,
    decommitments: Received<MsgRound2<E>>,
    result: Result<AwaitShares<'a, E>, KeyRefreshError>,
    j: u16,
    committed: &MsgRound2<E>,
    sid: &[u8],
    prover: u16,
    hash: Vec<u8>,
)
    requires
        state.wf(),
        one_of_each(decommitments, state.own.session.n),
        call_ensures(
            AwaitDecommitments::<'a, E>::on_decommitments,
            (state, decommitments),
            result,
        ),
        j < state.own.session.n,
        j != state.own.session.i,
        call_ensures(MsgRound2::<E>::commit, (committed, sid, prover), hash),
        state.commitments.msgs@[seat(
            state.own.session.i as int,
            j as int,
        )].commitment@ == hash@,
        ({
            let opened = decommitments.msgs@[seat(state.own.session.i as int, j as int)];
            ||| sid@ != state.own.session.sid@
            ||| prover != j
            ||| !same_decommitment(*committed, opened)
        }),
    ensures
        decommitment_digest_is_injective() ==> {
            &&& opened_badly(state, decommitments, j as int)
            &&& result matches Err(
                KeyRefreshError(Reason::Aborted(ProtocolAborted::InvalidDecommitment(list))),
            )
        },
{
    bad_openings_are_blamed(state, decommitments, result);
    let opened = decommitments.msgs@[seat(state.own.session.i as int, j as int)];
    lemma_digest_of(opened, state.own.session.sid@, j);
    lemma_digest_binds(*committed, sid@, prover, opened, state.own.session.sid@, j);
    if decommitment_digest_is_injective() {
        assert(opened_badly(state, decommitments, j as int));
    }
}

/// The decommitment of party `j`.
pub open spec fn decommitment_of<'a, E: RefreshCurve>(
    state: AwaitShares<'a, E>,
    j: int,
) -> MsgRound2<E> {
    if j == state.own.session.i {
        state.own.my_decommitment
    } else {
        state.decommitments.msgs@[seat(state.own.session.i as int, j)]
    }
}

/// Byte `k` of the session identifier is the exclusive or of the bytes `k` that all parties have
/// contributed.
pub proof fn identifier_is_made_by_all<'a, E: RefreshCurve>(
    state: AwaitDecommitments<'a, E>,
    decommitments: Received<MsgRound2<E>>,
    next: AwaitShares<'a, E>,
    k: int,
)
    requires
        state.wf(),
        one_of_each(decommitments, state.own.session.n),
        call_ensures(
            AwaitDecommitments::<'a, E>::on_decommitments,
            (state, decommitments),
            Ok(next),
        ),
        0 <= k < state.own.session.kappa_bytes,
    ensures
        next.own == state.own,
        next.decommitments == decommitments,
        next.rid.len() == state.own.session.kappa_bytes,
        next.rid@[k] == xor_of(
            Seq::new(
                state.own.session.n as nat,
                |j: int| decommitment_of(next, j).rid@[k],
            ),
        ),
{
    lemma_identifier(next, k);
}

/// When the contribution of one party changes, the session identifier changes in the same bits.
pub proof fn identifier_follows_each_party<'a, 'b, E: RefreshCurve>(
    one: AwaitDecommitments<'a, E>,
    got: Received<MsgRound2<E>>,
    one_next: AwaitShares<'a, E>,
    other: AwaitDecommitments<'b, E>,
    other_got: Received<MsgRound2<E>>,
    other_next: AwaitShares<'b, E>,
    j: int,
    k: int,
)
    requires
        one.wf(),
        one_of_each(got, one.own.session.n),
        call_ensures(
            AwaitDecommitments::<'a, E>::on_decommitments,
            (one, got),
            Ok(one_next),
        ),
        other.wf(),
        one_of_each(other_got, other.own.session.n),
        call_ensures(
            AwaitDecommitments::<'b, E>::on_decommitments,
            (other, other_got),
            Ok(other_next),
        ),
        one.own.session.n == other.own.session.n,
        one.own.session.kappa_bytes == other.own.session.kappa_bytes,
        0 <= j < one.own.session.n,
        0 <= k < one.own.session.kappa_bytes,
        forall|m: int|
            0 <= m < one.own.session.n && m != j ==> (#[trigger] decommitment_of(
                one_next,
                m,
            )).rid@[k] == decommitment_of(other_next, m).rid@[k],
    ensures
        one_next.rid@[k] ^ other_next.rid@[k] == decommitment_of(one_next, j).rid@[k]
            ^ decommitment_of(other_next, j).rid@[k],
{
    identifier_is_made_by_all(one, got, one_next, k);
    identifier_is_made_by_all(other, other_got, other_next, k);
    let n = one.own.session.n as nat;
    let a = Seq::new(n, |m: int| decommitment_of(one_next, m).rid@[k]);
    let b = Seq::new(n, |m: int| decommitment_of(other_next, m).rid@[k]);
    assert forall|m: int| 0 <= m < a.len() && m != j implies #[trigger] a[m] == b[m] by {
        assert(decommitment_of(one_next, m).rid@[k] == decommitment_of(other_next, m).rid@[k]);
    }
    xor_follows_each_byte(a, b, j);
}

proof fn lemma_identifier<'a, E: RefreshCurve>(state: AwaitShares<'a, E>, k: int)
    requires
        state.wf(),
        0 <= k < state.own.session.kappa_bytes,
    ensures
        state.rid.len() == state.own.session.kappa_bytes,
        state.rid@[k] == xor_of(
            Seq::new(
                state.own.session.n as nat,
                |j: int| decommitment_of(state, j).rid@[k],
            ),
        ),
{
    lemma_lengths(state.own.session);
    let all = state.all_decommitments();
    let rids = rids_of(all);
    let len = state.own.session.kappa_bytes as nat;
    lemma_xor_all_byte(rids, len, k);
    assert(Seq::new(rids.len(), |j: int| rids[j][k]) =~= Seq::new(
        state.own.session.n as nat,
        |j: int| decommitment_of(state, j).rid@[k],
    )) by {
        assert forall|j: int| 0 <= j < state.own.session.n implies #[trigger] rids[j]
            == decommitment_of(state, j).rid@ by {
            lemma_decommitment_of(state, j);
        }
    }
}

proof fn lemma_decommitment_of<'a, E: RefreshCurve>(state: AwaitShares<'a, E>, j: int)
    requires
        state.wf(),
        0 <= j < state.own.session.n,
    ensures
        state.all_decommitments().len() == state.own.session.n,
        state.all_decommitments()[j] == decommitment_of(state, j),
        decommitment_of(state, j).well_formed(state.own.session.n),
{
    lemma_lengths(state.own.session);
    let i = state.own.session.i as int;
    if j != i {
        assert(state.decommitments.msgs@[seat(i, j)].well_formed(
            state.own.session.n,
        ));
    }
}

/// What party `j` has committed to contribute to the share of party `k`.
pub open spec fn contribution<'a, E: RefreshCurve>(
    state: AwaitShares<'a, E>,
    j: int,
    k: int,
) -> int {
    decommitment_of(state, j).x_prime_points@[k].log() as int
}

/// What the party itself gives party `j`.
spec fn own_share<'a, E: RefreshCurve>(state: AwaitShares<'a, E>, j: int) -> int {
    state.own.x_prime@[j].value() as int
}

proof fn lemma_own_contribution<'a, E: RefreshCurve>(state: AwaitShares<'a, E>, j: int)
    requires
        state.wf(),
        0 <= j < state.own.session.n,
    ensures
        own_share(state, j) == contribution(state, state.own.session.i as int, j),
{
    let points = state.own.my_decommitment.x_prime_points@;
    lemma_lengths(state.own.session);
    assert(logs(points).len() == state.own.session.n);
    assert(values(state.own.x_prime@).len() == state.own.x_prime.len());
    assert(logs(points)[j] == points[j].log());
    assert(values(state.own.x_prime@)[j] == state.own.x_prime@[j].value());
}

proof fn lemma_expected<'a, E: RefreshCurve>(state: AwaitShares<'a, E>, j: int)
    requires
        state.wf(),
        0 <= j < state.own.session.n,
        j != state.own.session.i,
    ensures
        expected_shares(
            state.decommitments.msgs@,
            state.own.session.i,
        )[seat(state.own.session.i as int, j)] == contribution(
            state,
            j,
            state.own.session.i as int,
        ),
{
    lemma_lengths(state.own.session);
}

proof fn lemma_row<'a, E: RefreshCurve>(state: AwaitShares<'a, E>, j: int, k: int)
    requires
        state.wf(),
        E::order() > 0,
        0 <= j < state.own.session.n,
        0 <= k < state.own.session.n,
    ensures
        state.rows().len() == state.own.session.n,
        congruent(column(state.rows(), k)[j], contribution(state, j, k), E::order()),
{
    lemma_decommitment_of(state, j);
}

proof fn lemma_old_public_share<'a, E: RefreshCurve>(state: AwaitShares<'a, E>, k: int)
    requires
        state.wf(),
        0 <= k < state.own.session.n,
    ensures
        old_public_share(state, k) == logs(
            state.own.session.share.inner().key_info.public_shares@,
        )[k],
{
}

/// The mask on what party `j` sends to the party.
pub open spec fn mask_from<'a, E: RefreshCurve>(state: AwaitShares<'a, E>, j: int) -> int {
    mask_between(
        "dfns.cggmp24.key_refresh.refresh_mask"@,
        state.own.session.sid@,
        state.rid@,
        j as u16,
        state.own.session.i,
        decommitment_of(state, j).y_points@[state.own.session.i as int],
        state.own.y@[j],
    )
}

/// Each peer is sent what the party contributes to its share, plus the mask from the party to
/// that peer.
pub proof fn each_peer_is_sent_its_contribution<'a, E: RefreshCurve>(
    state: AwaitDecommitments<'a, E>,
    decommitments: Received<MsgRound2<E>>,
    next: AwaitShares<'a, E>,
    j: int,
)
    requires
        state.wf(),
        one_of_each(decommitments, state.own.session.n),
        call_ensures(
            AwaitDecommitments::<'a, E>::on_decommitments,
            (state, decommitments),
            Ok(next),
        ),
        0 <= j < state.own.session.n,
        j != state.own.session.i,
    ensures
        next.my_shares.len() + 1 == state.own.session.n,
        congruent(
            next.my_shares@[seat(state.own.session.i as int, j)].c.value() - mask_between(
                "dfns.cggmp24.key_refresh.refresh_mask"@,
                state.own.session.sid@,
                next.rid@,
                state.own.session.i,
                j as u16,
                decommitment_of(next, j).y_points@[state.own.session.i as int],
                state.own.y@[j],
            ),
            contribution(next, state.own.session.i as int, j),
            E::order(),
        ),
{
    lemma_lengths(state.own.session);
    let session = state.own.session;
    let i = session.i as int;
    let p = seat(i, j);
    let q = E::order();
    assert(peer(i, p) == j);
    lemma_order(next);
    lemma_decommitment_of(next, i);
    let mask = mask_between(
        "dfns.cggmp24.key_refresh.refresh_mask"@,
        session.sid@,
        next.rid@,
        session.i,
        j as u16,
        decommitment_of(next, j).y_points@[i],
        state.own.y@[j],
    );
    let c = next.my_shares@[p].c.value() as int;
    lemma_own_contribution(next, j);
    let given = own_share(next, j);
    assert(c == (given + mask) % (q as int));
    lemma_congruent_mod(given + mask, q);
    lemma_congruent_sub(c, given + mask, mask, mask, q);
    lemma_congruent_mod(contribution(next, i, j), q);
}

/// Each of the proofs that a party broadcasts holds.
pub proof fn each_proof_broadcast_holds<'a, E: RefreshCurve>(
    state: AwaitDecommitments<'a, E>,
    decommitments: Received<MsgRound2<E>>,
    next: AwaitShares<'a, E>,
    k: int,
)
    requires
        state.wf(),
        one_of_each(decommitments, state.own.session.n),
        call_ensures(
            AwaitDecommitments::<'a, E>::on_decommitments,
            (state, decommitments),
            Ok(next),
        ),
        0 <= k < state.own.session.n as int,
    ensures
        next.my_proofs.sch_proofs.len() == state.own.session.n as int,
        proof_holds(
            "dfns.cggmp24.key_refresh.schnorr_pok"@,
            state.own.session.sid@,
            state.own.session.i,
            next.rid@,
            state.own.my_decommitment.x_prime_points@[0 + k],
            state.own.my_decommitment.sch_commits@[k],
            next.my_proofs.sch_proofs@[k],
        ),
{
    lemma_lengths(state.own.session);
    let m = state.own.my_decommitment;
    lemma_order(next);
    lemma_decommitment_of(next, state.own.session.i as int);
    honest_proofs_hold(
        "dfns.cggmp24.key_refresh.schnorr_pok"@,
        state.own.session.sid@,
        state.own.session.i,
        next.rid@,
        m.x_prime_points@,
        0,
        m.sch_commits@,
        values(state.own.tau@),
        values(state.own.x_prime@),
        next.my_proofs.sch_proofs@,
    );
    lemma_proof_holds(
        "dfns.cggmp24.key_refresh.schnorr_pok"@,
        state.own.session.sid@,
        state.own.session.i,
        next.rid@,
        m.x_prime_points@[0 + k],
        m.sch_commits@[k],
        next.my_proofs.sch_proofs@[k],
    );
    let proof = next.my_proofs.sch_proofs@[k];
}

/// Whether what party `j` has sent, less its mask, is what it has committed to.
pub open spec fn share_fits<'a, E: RefreshCurve>(
    state: AwaitShares<'a, E>,
    masked: Received<MsgRound3Unicast<E>>,
    j: int,
) -> bool {
    let i = state.own.session.i as int;
    (masked.msgs@[seat(i, j)].c.value() - mask_from(state, j)) % (E::order() as int)
        == contribution(state, j, i)
}

/// Whether party `j` has proved that it knows all that it has committed to.
pub open spec fn proofs_fit<'a, E: RefreshCurve>(
    state: AwaitShares<'a, E>,
    proofs: Received<MsgRound3Broadcast<E>>,
    j: int,
) -> bool {
    let m = decommitment_of(state, j);
    let given = proofs.msgs@[seat(state.own.session.i as int, j)].sch_proofs@;
    &&& given.len() == state.own.session.n as int
    &&& forall|k: int|
        0 <= k < state.own.session.n as int ==> proof_holds(
            "dfns.cggmp24.key_refresh.schnorr_pok"@,
            state.own.session.sid@,
            j as u16,
            state.rid@,
            m.x_prime_points@[0 + k],
            m.sch_commits@[k],
            #[trigger] given[k],
        )
}

/// What is marked as a wrong share is one that does not fit.
proof fn lemma_share_fits<'a, E: RefreshCurve>(
    state: AwaitShares<'a, E>,
    masked: Received<MsgRound3Unicast<E>>,
    j: int,
)
    requires
        state.wf(),
        one_of_each(masked, state.own.session.n),
        0 <= j < state.own.session.n,
        j != state.own.session.i,
    ensures
        state.wrong_shares(masked)[seat(state.own.session.i as int, j)] == !share_fits(
            state,
            masked,
            j,
        ),
        !state.wrong_shares(masked)[seat(state.own.session.i as int, j)] ==> congruent(
            state.opened(masked)[seat(state.own.session.i as int, j)],
            contribution(state, j, state.own.session.i as int),
            E::order(),
        ),
{
    lemma_lengths(state.own.session);
    let i = state.own.session.i as int;
    let p = seat(i, j);
    let q = E::order();
    assert(peer(i, p) == j);
    lemma_order(state);
    lemma_decommitment_of(state, j);
    let c = masked.msgs@[p].c.value() as int;
    let mask = mask_from(state, j);
    let opened = state.opened(masked)[p];
    let expected = contribution(state, j, i);
    assert(opened == (c - mask) % (q as int));
    lemma_congruent_mod(c - mask, q);
    lemma_congruent_mod(expected, q);
    lemma_expected(state, j);
    assert(state.wrong_shares(masked)[p] == (opened != expected));
}

/// What is marked as wrong proofs is what does not fit.
proof fn lemma_proofs_fit<'a, E: RefreshCurve>(
    state: AwaitShares<'a, E>,
    proofs: Received<MsgRound3Broadcast<E>>,
    j: int,
)
    requires
        state.wf(),
        one_of_each(proofs, state.own.session.n),
        0 <= j < state.own.session.n,
        j != state.own.session.i,
    ensures
        state.bad_proofs(proofs)[seat(state.own.session.i as int, j)] == !proofs_fit(
            state,
            proofs,
            j,
        ),
{
    lemma_lengths(state.own.session);
    let i = state.own.session.i as int;
    let p = seat(i, j);
    assert(peer(i, p) == j);
    lemma_order(state);
    lemma_decommitment_of(state, j);
    let m = decommitment_of(state, j);
    let given = proofs.msgs@[p].sch_proofs@;
    assert forall|k: int|
        0 <= k < given.len() && given.len() == m.sch_commits.len() implies proof_holds(
        "dfns.cggmp24.key_refresh.schnorr_pok"@,
        state.own.session.sid@,
        j as u16,
        state.rid@,
        m.x_prime_points@[0 + k],
        m.sch_commits@[k],
        #[trigger] given[k],
    ) == schnorr_holds(
        given[k],
        m.sch_commits@[k],
        pok_challenge(
            "dfns.cggmp24.key_refresh.schnorr_pok"@,
            state.own.session.sid@,
            j as u16,
            state.rid@,
            m.x_prime_points@[0 + k],
            m.sch_commits@[k],
        ),
        m.x_prime_points@[0 + k],
    ) by {
        lemma_proof_holds(
            "dfns.cggmp24.key_refresh.schnorr_pok"@,
            state.own.session.sid@,
            j as u16,
            state.rid@,
            m.x_prime_points@[0 + k],
            m.sch_commits@[k],
            given[k],
        );
    }
    let fits = proofs_fit(state, proofs, j);
    let good = !state.bad_proofs(proofs)[p];
    if fits {
        assert forall|k: int| 0 <= k < given.len() implies schnorr_holds(
            #[trigger] given[k],
            m.sch_commits@[k],
            pok_challenge(
                "dfns.cggmp24.key_refresh.schnorr_pok"@,
                state.own.session.sid@,
                j as u16,
                state.rid@,
                m.x_prime_points@[0 + k],
                m.sch_commits@[k],
            ),
            m.x_prime_points@[0 + k],
        ) by {}
    }
    if good {
        assert forall|k: int| 0 <= k < state.own.session.n as int implies proof_holds(
            "dfns.cggmp24.key_refresh.schnorr_pok"@,
            state.own.session.sid@,
            j as u16,
            state.rid@,
            m.x_prime_points@[0 + k],
            m.sch_commits@[k],
            #[trigger] given[k],
        ) by {}
    }
}

/// The run fails over shares if and only if some party has sent a share that does not fit; then
/// exactly those are blamed.
pub proof fn wrong_shares_are_blamed<'a, E: RefreshCurve>(
    state: AwaitShares<'a, E>,
    proofs: Received<MsgRound3Broadcast<E>>,
    masked: Received<MsgRound3Unicast<E>>,
    result: Result<KeyRefreshOutput<E>, KeyRefreshError>,
)
    requires
        state.wf(),
        one_of_each(proofs, state.own.session.n),
        one_of_each(masked, state.own.session.n),
        call_ensures(AwaitShares::<'a, E>::on_shares, (state, proofs, masked), result),
    ensures
        (exists|j: int|
            0 <= j < state.own.session.n && j != state.own.session.i && !(#[trigger] share_fits(
                state,
                masked,
                j,
            ))) ==> (result matches Err(
            KeyRefreshError(Reason::Aborted(ProtocolAborted::InvalidMaskedShare(list))),
        ) && blames_exactly(
            list@,
            state.own.session.i as int,
            state.own.session.n as int,
            |j: int| !share_fits(state, masked, j),
            masked.ids@,
            masked.ids@,
        )),
{
    let i = state.own.session.i as int;
    let n = state.own.session.n as int;
    let marks = state.wrong_shares(masked);
    lemma_lengths(state.own.session);
    assert forall|j: int| 0 <= j < n && j != i implies !(#[trigger] share_fits(state, masked, j))
        == marks[seat(i, j)] by {
        lemma_share_fits(state, masked, j);
    }
    let guilty = |j: int| !share_fits(state, masked, j);
    assert forall|j: int| 0 <= j < n && j != i implies #[trigger] guilty(j) == marks[seat(
        i,
        j,
    )] by {
        assert(!share_fits(state, masked, j) == marks[seat(i, j)]);
    }
    lemma_marks(marks, i, n, guilty);
    lemma_blame_list(
        state.own.session.i,
        n,
        masked.ids@,
        masked.ids@,
        marks,
        |j: int| !share_fits(state, masked, j),
    );
    if exists|j: int| 0 <= j < n && j != i && !(#[trigger] share_fits(state, masked, j)) {
        let j = choose|j: int| 0 <= j < n && j != i && !(#[trigger] share_fits(state, masked, j));
        assert(guilty(j));
    }
}

/// Where all shares fit, the run fails over proofs if and only if some party has not proved all
/// that it should; then exactly those are blamed.
pub proof fn wrong_proofs_are_blamed<'a, E: RefreshCurve>(
    state: AwaitShares<'a, E>,
    proofs: Received<MsgRound3Broadcast<E>>,
    masked: Received<MsgRound3Unicast<E>>,
    result: Result<KeyRefreshOutput<E>, KeyRefreshError>,
)
    requires
        state.wf(),
        one_of_each(proofs, state.own.session.n),
        one_of_each(masked, state.own.session.n),
        call_ensures(AwaitShares::<'a, E>::on_shares, (state, proofs, masked), result),
        forall|j: int|
            0 <= j < state.own.session.n && j != state.own.session.i ==> #[trigger] share_fits(
                state,
                masked,
                j,
            ),
    ensures
        (exists|j: int|
            0 <= j < state.own.session.n && j != state.own.session.i && !(#[trigger] proofs_fit(
                state,
                proofs,
                j,
            ))) ==> (result matches Err(
            KeyRefreshError(Reason::Aborted(ProtocolAborted::InvalidSchnorrProof(list))),
        ) && blames_exactly(
            list@,
            state.own.session.i as int,
            state.own.session.n as int,
            |j: int| !proofs_fit(state, proofs, j),
            state.decommitments.ids@,
            proofs.ids@,
        )),
{
    let i = state.own.session.i as int;
    let n = state.own.session.n as int;
    let marks = state.bad_proofs(proofs);
    lemma_lengths(state.own.session);
    lemma_no_wrong_shares(state, masked);
    let guilty = |j: int| !proofs_fit(state, proofs, j);
    assert forall|j: int| 0 <= j < n && j != i implies #[trigger] guilty(j) == marks[seat(
        i,
        j,
    )] by {
        lemma_proofs_fit(state, proofs, j);
    }
    assert forall|j: int| 0 <= j < n && j != i implies !(#[trigger] proofs_fit(state, proofs, j))
        == marks[seat(i, j)] by {
        lemma_proofs_fit(state, proofs, j);
    }
    lemma_marks(marks, i, n, guilty);
    lemma_blame_list(
        state.own.session.i,
        n,
        state.decommitments.ids@,
        proofs.ids@,
        marks,
        |j: int| !proofs_fit(state, proofs, j),
    );
    if exists|j: int| 0 <= j < n && j != i && !(#[trigger] proofs_fit(state, proofs, j)) {
        let j = choose|j: int| 0 <= j < n && j != i && !(#[trigger] proofs_fit(state, proofs, j));
        assert(guilty(j));
    }
}

proof fn lemma_no_wrong_shares<'a, E: RefreshCurve>(
    state: AwaitShares<'a, E>,
    masked: Received<MsgRound3Unicast<E>>,
)
    requires
        state.wf(),
        one_of_each(masked, state.own.session.n),
    ensures
        !state.wrong_shares(masked).contains(true) <==> forall|j: int|
            0 <= j < state.own.session.n && j != state.own.session.i ==> #[trigger] share_fits(
                state,
                masked,
                j,
            ),
{
    let i = state.own.session.i as int;
    let n = state.own.session.n as int;
    let marks = state.wrong_shares(masked);
    lemma_lengths(state.own.session);
    let guilty = |j: int| !share_fits(state, masked, j);
    assert forall|j: int| 0 <= j < n && j != i implies #[trigger] guilty(j) == marks[seat(
        i,
        j,
    )] by {
        lemma_share_fits(state, masked, j);
    }
    lemma_marks(marks, i, n, guilty);
    if marks.contains(true) {
        let j = choose|j: int| 0 <= j < n && j != i && #[trigger] guilty(j);
        assert(!share_fits(state, masked, j));
    } else {
        assert forall|j: int| 0 <= j < n && j != i implies #[trigger] share_fits(
            state,
            masked,
            j,
        ) by {
            assert(!guilty(j));
        }
    }
}

proof fn lemma_no_bad_proofs<'a, E: RefreshCurve>(
    state: AwaitShares<'a, E>,
    proofs: Received<MsgRound3Broadcast<E>>,
)
    requires
        state.wf(),
        one_of_each(proofs, state.own.session.n),
    ensures
        !state.bad_proofs(proofs).contains(true) <==> forall|j: int|
            0 <= j < state.own.session.n && j != state.own.session.i ==> #[trigger] proofs_fit(
                state,
                proofs,
                j,
            ),
{
    let i = state.own.session.i as int;
    let n = state.own.session.n as int;
    let marks = state.bad_proofs(proofs);
    lemma_lengths(state.own.session);
    let guilty = |j: int| !proofs_fit(state, proofs, j);
    assert forall|j: int| 0 <= j < n && j != i implies #[trigger] guilty(j) == marks[seat(
        i,
        j,
    )] by {
        lemma_proofs_fit(state, proofs, j);
    }
    lemma_marks(marks, i, n, guilty);
    if marks.contains(true) {
        let j = choose|j: int| 0 <= j < n && j != i && #[trigger] guilty(j);
        assert(!proofs_fit(state, proofs, j));
    } else {
        assert forall|j: int| 0 <= j < n && j != i implies #[trigger] proofs_fit(
            state,
            proofs,
            j,
        ) by {
            assert(!guilty(j));
        }
    }
}

/// What all parties together contribute to the share of party `k`.
pub open spec fn contributed<'a, E: RefreshCurve>(state: AwaitShares<'a, E>, k: int) -> int {
    total(Seq::new(state.own.session.n as nat, |j: int| contribution(state, j, k)))
}

/// The public share of party `k` before the refresh.
pub open spec fn old_public_share<'a, E: RefreshCurve>(state: AwaitShares<'a, E>, k: int) -> int {
    state.own.session.share.inner().key_info.public_shares@[k].log() as int
}

/// What the refreshed public shares are, place by place.
proof fn lemma_public_share<'a, E: RefreshCurve>(state: AwaitShares<'a, E>, k: int)
    requires
        state.wf(),
        0 <= k < state.own.session.n,
    ensures
        E::order() > 0,
        state.refreshed_public_shares().len() == state.own.session.n,
        congruent(
            state.refreshed_public_shares()[k],
            old_public_share(state, k) + contributed(state, k),
            E::order(),
        ),
        0 <= state.refreshed_public_shares()[k] < E::order(),
{
    lemma_lengths(state.own.session);
    lemma_order(state);
    let q = E::order();
    let n = state.own.session.n as int;
    let parts = Seq::new(n as nat, |j: int| contribution(state, j, k));
    let col = column(state.rows(), k);
    lemma_decommitment_of(state, 0);
    assert(col.len() == n);
    assert forall|j: int| 0 <= j < n implies congruent(#[trigger] col[j], parts[j], q) by {
        lemma_decommitment_of(state, j);
        lemma_row(state, j, k);
    }
    lemma_sum_congruent(col, parts, q);
    sum_is_total(parts);
    lemma_old_public_share(state, k);
    let base = old_public_share(state, k);
    lemma_congruent_add(base, base, sum(col), sum(parts), q);
    lemma_congruent_mod(base + sum(col), q);
    assert(state.refreshed_public_shares()[k] == (base + sum(col)) % (q as int));
}

/// What the refreshed secret share is, once all shares fit.
proof fn lemma_secret_share<'a, E: RefreshCurve>(
    state: AwaitShares<'a, E>,
    masked: Received<MsgRound3Unicast<E>>,
    own: int,
)
    requires
        state.wf(),
        one_of_each(masked, state.own.session.n),
        !state.wrong_shares(masked).contains(true),
        congruent(
            own,
            contribution(state, state.own.session.i as int, state.own.session.i as int),
            E::order(),
        ),
    ensures
        congruent(
            refreshed_secret(
                state.own.session.share.inner().x.value() as int,
                state.opened(masked),
                own,
                E::order(),
            ),
            state.own.session.share.inner().x.value() + contributed(
                state,
                state.own.session.i as int,
            ),
            E::order(),
        ),
{
    lemma_lengths(state.own.session);
    lemma_order(state);
    let q = E::order();
    let n = state.own.session.n as int;
    let i = state.own.session.i as int;
    let x = state.own.session.share.inner().x.value() as int;
    let opened = state.opened(masked);
    let parts = Seq::new(n as nat, |j: int| contribution(state, j, i));
    let all = opened.insert(i, own);
    assert(all.len() == n);
    assert forall|j: int| 0 <= j < n implies congruent(#[trigger] all[j], parts[j], q) by {
        if j != i {
            lemma_share_fits(state, masked, j);
            assert(all[j] == opened[seat(i, j)]);
            assert(!state.wrong_shares(masked)[seat(i, j)]);
        }
    }
    lemma_sum_congruent(all, parts, q);
    lemma_sum_insert(opened, i, own);
    sum_is_total(parts);
    lemma_congruent_add(x, x, sum(all), sum(parts), q);
    lemma_congruent_mod(x + sum(opened) + own, q);
    assert(x + sum(opened) + own == x + sum(all));
}

/// When nobody is blamed, the share is refreshed with what all parties have committed to: to the
/// secret share of the party, and to the public share of every party, the contributions of all
/// parties are added, modulo the order. All else that a key share holds is kept.
pub proof fn share_is_refreshed_by_all<'a, E: RefreshCurve>(
    state: AwaitShares<'a, E>,
    proofs: Received<MsgRound3Broadcast<E>>,
    masked: Received<MsgRound3Unicast<E>>,
    output: KeyRefreshOutput<E>,
)
    requires
        state.wf(),
        one_of_each(proofs, state.own.session.n),
        one_of_each(masked, state.own.session.n),
        call_ensures(AwaitShares::<'a, E>::on_shares, (state, proofs, masked), Ok(output)),
    ensures
        ({
            let old = state.own.session.share.inner();
            let new = output.share.inner();
            let i = state.own.session.i as int;
            let n = state.own.session.n as int;
            &&& new.i == i
            &&& congruent(
                new.x.value() as int,
                old.x.value() + contributed(state, i),
                E::order(),
            )
            &&& new.key_info.public_shares.len() == n
            &&& forall|k: int|
                0 <= k < n ==> congruent(
                    (#[trigger] new.key_info.public_shares@[k]).log() as int,
                    old_public_share(state, k) + contributed(state, k),
                    E::order(),
                )
            &&& new.x.value() == new.key_info.public_shares@[i].log()
            &&& new.key_info.shared_public_key.log() == old.key_info.shared_public_key.log()
            &&& new.key_info.chain_code == old.key_info.chain_code
            &&& output.rid@ == state.rid@
        }),
        output.share.inner().key_info.vss_setup is None,
        forall|j: int|
            0 <= j < state.own.session.n && j != state.own.session.i ==> #[trigger] share_fits(
                state,
                masked,
                j,
            ),
        forall|j: int|
            0 <= j < state.own.session.n && j != state.own.session.i ==> #[trigger] proofs_fit(
                state,
                proofs,
                j,
            ),
{
    lemma_lengths(state.own.session);
    lemma_order(state);
    let n = state.own.session.n as int;
    let i = state.own.session.i as int;
    let new = output.share.inner();
    lemma_no_wrong_shares(state, masked);
    lemma_no_bad_proofs(state, proofs);
    lemma_public_share(state, i);
    let own = state.own.x_prime@[i].value() as int;
    lemma_own_contribution(state, i);
    lemma_secret_share(state, masked, own);
    let publics = logs(new.key_info.public_shares@);
    assert(publics.len() == new.key_info.public_shares.len());
    assert forall|k: int| 0 <= k < n implies congruent(
        (#[trigger] new.key_info.public_shares@[k]).log() as int,
        old_public_share(state, k) + contributed(state, k),
        E::order(),
    ) by {
        lemma_public_share(state, k);
        assert(publics[k] == new.key_info.public_shares@[k].log());
    }
    assert(new.valid());
}

/// When all shares and all proofs fit, the refresh succeeds, unless the secret share or a public
/// share would be zero.
pub proof fn honest_shares_are_refreshed<'a, E: RefreshCurve>(
    state: AwaitShares<'a, E>,
    proofs: Received<MsgRound3Broadcast<E>>,
    masked: Received<MsgRound3Unicast<E>>,
    result: Result<KeyRefreshOutput<E>, KeyRefreshError>,
)
    requires
        state.wf(),
        one_of_each(proofs, state.own.session.n),
        one_of_each(masked, state.own.session.n),
        call_ensures(AwaitShares::<'a, E>::on_shares, (state, proofs, masked), result),
        forall|j: int|
            0 <= j < state.own.session.n && j != state.own.session.i ==> #[trigger] share_fits(
                state,
                masked,
                j,
            ),
        forall|j: int|
            0 <= j < state.own.session.n && j != state.own.session.i ==> #[trigger] proofs_fit(
                state,
                proofs,
                j,
            ),
    ensures
        ({
            let q = E::order() as int;
            let i = state.own.session.i as int;
            let n = state.own.session.n as int;
            let secret = state.own.session.share.inner().x.value() + contributed(state, i);
            let some_zero = exists|k: int|
                0 <= k < n && #[trigger] ((old_public_share(state, k) + contributed(state, k))
                    % q) == 0;
            if secret % q == 0 {
                result matches Err(KeyRefreshError(Reason::Bug(Bug::ZeroSecret)))
            } else if some_zero {
                result matches Err(KeyRefreshError(Reason::Bug(Bug::ZeroPublic)))
            } else {
                result is Ok
            }
        }),
{
    lemma_lengths(state.own.session);
    lemma_order(state);
    let q = E::order();
    let n = state.own.session.n as int;
    let i = state.own.session.i as int;
    lemma_no_wrong_shares(state, masked);
    lemma_no_bad_proofs(state, proofs);
    lemma_public_share(state, i);
    let own = state.own.x_prime@[i].value() as int;
    lemma_own_contribution(state, i);
    lemma_secret_share(state, masked, own);
    let x = state.own.session.share.inner().x.value() as int;
    let secret = x + contributed(state, i);
    lemma_congruent_small(0, 0, q);
    lemma_congruent_mod(x + sum(state.opened(masked)) + own, q);
    lemma_congruent_small(
        refreshed_secret(x, state.opened(masked), own, q),
        0,
        q,
    );
    let publics = state.refreshed_public_shares();
    assert forall|k: int| 0 <= k < n implies ((old_public_share(state, k) + contributed(state, k))
        % (q as int) == 0) == (#[trigger] publics[k] == 0) by {
        lemma_public_share(state, k);
        lemma_congruent_small(publics[k], 0, q);
    }
    if nonzero(publics) {
        assert forall|k: int| 0 <= k < n implies #[trigger] ((old_public_share(state, k)
            + contributed(state, k)) % (q as int)) != 0 by {
            assert(publics[k] != 0);
        }
    } else {
        let k = choose|k: int| 0 <= k < publics.len() && #[trigger] publics[k] == 0;
        assert((old_public_share(state, k) + contributed(state, k)) % (q as int) == 0);
    }
}

/// The order of a curve that has a point is not zero.
proof fn lemma_order_of<'a, E: RefreshCurve>(own: AwaitCommitments<'a, E>)
    requires
        own.wf(),
    ensures
        E::order() > 0,
{
    lemma_lengths(own.session);
    own.my_decommitment.x_prime_points@[0].lemma_range();
}

proof fn lemma_order<'a, E: RefreshCurve>(state: AwaitShares<'a, E>)
    requires
        state.wf(),
    ensures
        E::order() > 0,
{
    lemma_order_of(state.own);
}

} // verus!
