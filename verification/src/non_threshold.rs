//! Non-threshold (`n`-out-of-`n`) key share refresh
//!
//! Each party splits zero into one summand per party and hands the summands out, masked, after
//! it has committed to them. A party adds what it gets to its secret share. The steps of one
//! party follow one another: [`Session::new`], [`Session::begin`],
//! [`AwaitCommitments::on_commitments`], [`AwaitEchoes::on_echoes`] where reliable broadcast is
//! enforced, [`AwaitDecommitments::on_decommitments`] and [`AwaitShares::on_shares`].
use crate::bytes::{byte_views, bytes_copy, bytes_equal};
use crate::curve::{
    copy_points, encodings, generator_multiples, logs, points_wf, values, Curve, Point, Scalar,
};
use crate::errors::{InvalidArgs, KeyRefreshError, ProtocolAborted, Reason};
use crate::key_share::{
    additive_shares_add_up_to_the_key, nonzero, of_one_key, secrets_of, DirtyIncompleteKeyShare,
    IncompleteKeyShare,
};
use crate::modular::{congruent, lemma_congruent_add, lemma_congruent_mod, lemma_congruent_small};
use crate::random::random_bytes;
use crate::refresh_curve::RefreshCurve;
use crate::rounds::{
    all_commitments, check_proofs, check_shares, column, combine_rids, commitments_of,
    compare_echoes, different_echoes, honest_proofs_hold, is_refreshed_share, mask_shares,
    masked_share, of_peers, proofs_answer, proofs_hold, prove_all, random_scalars, reduced,
    refresh_share, refreshed, refreshed_secret, row_logs, unmask_shares, unmasked_share,
    unmasking_undoes_masking, wrong_shares, xor_all, zero_rows_keep_the_sum,
};
use crate::unambiguous::{commitments_digest, decommitment_digest, Echo, HashRefreshCom};
use crate::utils::{
    any, blame_list, collect_blame, lemma_sum_insert, peer, peer_index, place, sum, sum_points,
    sum_scalars, Received,
};
use vstd::prelude::*;

pub use crate::rounds::{MsgReliabilityCheck, MsgRound1, MsgRound3Broadcast, MsgRound3Unicast};

verus! {

/// Tag of the commitment of round 1.
pub const HASH_REFRESH_COM: &'static str = "dfns.cggmp24.key_refresh.hash_refresh_com";

/// Tag of the digest of all commitments.
pub const ECHO_ROUND: &'static str = "dfns.cggmp24.key_refresh.echo_round";

/// Tag of the masks.
pub const REFRESH_MASK: &'static str = "dfns.cggmp24.key_refresh.refresh_mask";

/// Tag of the challenges.
pub const SCHNORR_POK: &'static str = "dfns.cggmp24.key_refresh.schnorr_pok";

/// Tag of the message of round 1.
pub const ROUND1: &'static str = "dfns.cggmp24.key_refresh.round1";

/// Tag of the message of round 2.
pub const ROUND2: &'static str = "dfns.cggmp24.key_refresh.round2";

/// Name of the points that a party commits to.
pub const POINTS_FIELD: &'static str = "x_prime_points";

/// Message from round 2
pub struct MsgRound2<E: Curve> {
    /// `rid_i`
    pub rid: Vec<u8>,
    /// $X'_{i,k}$
    pub x_prime_points: Vec<Point<E>>,
    /// $Y_{i,k}$
    pub y_points: Vec<Point<E>>,
    /// $A_{i,k}$
    pub sch_commits: Vec<Point<E>>,
    /// $u_i$
    pub decommit: Vec<u8>,
}

impl<E: Curve> MsgRound2<E> {
    /// The commitment of a party to its decommitment.
    pub open spec fn commitment(&self, sid: Seq<u8>, prover: u16) -> Seq<u8> {
        decommitment_digest(
            E::group_name(),
            HASH_REFRESH_COM@,
            ROUND2@,
            POINTS_FIELD@,
            sid,
            prover,
            self.rid@,
            encodings(self.x_prime_points@),
            encodings(self.y_points@),
            encodings(self.sch_commits@),
            self.decommit@,
        )
    }

    /// Computes the commitment of a party to its decommitment.
    pub fn commit(&self, sid: &[u8], prover: u16) -> (hash: Vec<u8>)
        ensures
            hash@ == self.commitment(sid@, prover),
    {
        HashRefreshCom {
            sid,
            prover,
            rid: &self.rid,
            points: &self.x_prime_points,
            y_points: &self.y_points,
            sch_commits: &self.sch_commits,
            decommit: &self.decommit,
        }.hash(HASH_REFRESH_COM, ROUND2, POINTS_FIELD)
    }

    /// Whether there is a point of each kind for each of `n` parties, and the points that are
    /// added to the public shares add up to zero.
    pub open spec fn well_formed(&self, n: u16) -> bool {
        &&& self.x_prime_points.len() == n
        &&& self.y_points.len() == n
        &&& self.sch_commits.len() == n
        &&& congruent(sum(logs(self.x_prime_points@)), 0, E::order())
    }
}

/// Message of key refresh protocol
pub enum Msg<E: Curve> {
    /// Round 1 message
    Round1(MsgRound1),
    /// Reliability check message (optional additional round)
    ReliabilityCheck(MsgReliabilityCheck),
    /// Round 2 message
    Round2(MsgRound2<E>),
    /// Round 3 broadcast message
    Round3Broadcast(MsgRound3Broadcast<E>),
    /// Round 3 unicast message
    Round3Unicast(MsgRound3Unicast<E>),
}

/// Output of the non-threshold key refresh protocol
pub struct KeyRefreshOutput<E: RefreshCurve> {
    /// Refreshed key share
    pub share: IncompleteKeyShare<E>,
    /// Ephemeral session identifier XOR'd from all parties' contributions
    pub rid: Vec<u8>,
}

/// The random values of a party
pub struct Randomness<E: Curve> {
    /// $y_{i,j}$ for each party
    pub y: Vec<Scalar<E>>,
    /// $x'_{i,j}$ for each party but the last one
    pub x_prime_head: Vec<Scalar<E>>,
    /// Nonces of the Schnorr proofs, for each party
    pub tau: Vec<Scalar<E>>,
    /// `rid_i`
    pub rid: Vec<u8>,
    /// $u_i$
    pub decommit: Vec<u8>,
}

impl<E: Curve> Randomness<E> {
    /// Whether there are as many values as `n` parties and strings of `kappa_bytes` bytes take.
    pub open spec fn fits(&self, n: u16, kappa_bytes: usize) -> bool {
        &&& self.y.len() == n
        &&& self.x_prime_head.len() == n - 1
        &&& self.tau.len() == n
        &&& self.rid.len() == kappa_bytes
        &&& self.decommit.len() == kappa_bytes
    }

    /// Picks the random values of a party among `n`, with strings of `kappa_bytes` bytes. No
    /// scalar is zero.
    pub fn sample(n: u16, kappa_bytes: usize) -> (randomness: Randomness<E>)
        requires
            n > 0,
        ensures
            randomness.fits(n, kappa_bytes),
            nonzero(values(randomness.y@)),
            nonzero(values(randomness.x_prime_head@)),
            nonzero(values(randomness.tau@)),
    {
        Randomness {
            y: random_scalars(n as usize),
            x_prime_head: random_scalars(n as usize - 1),
            tau: random_scalars(n as usize),
            rid: random_bytes(kappa_bytes),
            decommit: random_bytes(kappa_bytes),
        }
    }
}

/// A run of the protocol, as one party sees it
pub struct Session<'a, E: RefreshCurve> {
    /// Session
    pub sid: &'a [u8],
    /// Index of the party
    pub i: u16,
    /// Number of parties
    pub n: u16,
    /// Key share of the party
    pub share: &'a IncompleteKeyShare<E>,
    /// Whether parties compare what they got in round 1
    pub reliable_broadcast_enforced: bool,
    /// Length of random strings
    pub kappa_bytes: usize,
}

impl<'a, E: RefreshCurve> Session<'a, E> {
    /// Whether the session is one of an additive key share.
    pub open spec fn wf(&self) -> bool {
        &&& self.share.inner().valid()
        &&& self.share.inner().key_info.vss_setup is None
        &&& self.i == self.share.inner().i
        &&& self.n == self.share.inner().key_info.public_shares.len()
        &&& self.i < self.n
    }

    /// Starts a run of the protocol.
    ///
    /// Fails if the key share is a threshold one, or else if it is not the one of party `i`.
    pub fn new(
        sid: &'a [u8],
        i: u16,
        share: &'a IncompleteKeyShare<E>,
        reliable_broadcast_enforced: bool,
        kappa_bytes: usize,
    ) -> (result: Result<Session<'a, E>, KeyRefreshError>)
        ensures
            if share.inner().key_info.vss_setup is Some {
                result matches Err(KeyRefreshError(Reason::NotThreshold))
            } else if i != share.inner().i {
                result matches Err(
                    KeyRefreshError(Reason::InvalidArgs(InvalidArgs::MismatchedOwnIndex)),
                )
            } else {
                result matches Ok(session) && {
                    &&& session.wf()
                    &&& session.sid == sid
                    &&& session.i == i
                    &&& session.share == share
                    &&& session.reliable_broadcast_enforced == reliable_broadcast_enforced
                    &&& session.kappa_bytes == kappa_bytes
                }
            },
    {
        let inner = share.as_inner();
        if inner.key_info.vss_setup.is_some() {
            return Err(KeyRefreshError::from(Reason::NotThreshold));
        }
        if i != inner.i {
            return Err(KeyRefreshError::from(InvalidArgs::MismatchedOwnIndex));
        }
        Ok(Session { sid, i, n: share.n(), share, reliable_broadcast_enforced, kappa_bytes })
    }

    /// Round 1: splits zero, and commits to everything that goes with it.
    pub fn begin(self, randomness: Randomness<E>) -> (next: AwaitCommitments<'a, E>)
        requires
            self.wf(),
            randomness.fits(self.n, self.kappa_bytes),
        ensures
            next.wf(),
            next.session == self,
            next.y == randomness.y,
            next.tau == randomness.tau,
            values(next.x_prime@) == values(randomness.x_prime_head@).push(
                (-sum(values(randomness.x_prime_head@))) % (E::order() as int),
            ),
            next.my_decommitment.rid == randomness.rid,
            next.my_decommitment.decommit == randomness.decommit,
    {
        let Randomness { y, x_prime_head, tau, rid, decommit } = randomness;
        let ghost head = values(x_prime_head@);
        let ghost q = E::order();
        let last = sum_scalars(&x_prime_head).neg();
        let mut x_prime = x_prime_head;
        x_prime.push(last);
        proof {
            last.lemma_range();
            let total = sum(head);
            lemma_congruent_mod(total, q);
            crate::modular::lemma_congruent_sub(0, 0, total % (q as int), total, q);
            assert(last.value() == (-total) % (q as int));
            let all = values(x_prime@);
            assert(all =~= head.push(last.value() as int));
            assert(all.drop_last() =~= head);
            lemma_congruent_mod(-total, q);
            lemma_congruent_add(total, total, last.value() as int, -total, q);
        }
        let x_prime_points = generator_multiples(&x_prime);
        let y_points = generator_multiples(&y);
        let sch_commits = generator_multiples(&tau);
        let my_decommitment = MsgRound2 { rid, x_prime_points, y_points, sch_commits, decommit };
        let commitment = my_decommitment.commit(self.sid, self.i);
        AwaitCommitments {
            my_commitment: MsgRound1 { commitment },
            session: self,
            y,
            x_prime,
            tau,
            my_decommitment,
        }
    }
}

/// The party has broadcast `my_commitment`, and waits for the commitments of its peers
pub struct AwaitCommitments<'a, E: RefreshCurve> {
    /// The run of the protocol
    pub session: Session<'a, E>,
    /// $y_{i,j}$
    pub y: Vec<Scalar<E>>,
    /// $x'_{i,j}$
    pub x_prime: Vec<Scalar<E>>,
    /// Nonces of the Schnorr proofs
    pub tau: Vec<Scalar<E>>,
    /// What is sent in round 1
    pub my_commitment: MsgRound1,
    /// What is sent in round 2
    pub my_decommitment: MsgRound2<E>,
}

impl<'a, E: RefreshCurve> AwaitCommitments<'a, E> {
    /// Whether the messages of the party belong to its secrets.
    pub open spec fn wf(&self) -> bool {
        &&& self.session.wf()
        &&& self.my_decommitment.well_formed(self.session.n)
        &&& points_wf(self.my_decommitment.x_prime_points@)
        &&& logs(self.my_decommitment.x_prime_points@) == values(self.x_prime@)
        &&& logs(self.my_decommitment.y_points@) == values(self.y@)
        &&& logs(self.my_decommitment.sch_commits@) == values(self.tau@)
        &&& self.my_decommitment.rid.len() == self.session.kappa_bytes
        &&& self.my_commitment.commitment@ == self.my_decommitment.commitment(
            self.session.sid@,
            self.session.i,
        )
    }

    /// The digest of the commitments of all parties.
    pub open spec fn echo(&self, commitments: Received<MsgRound1>) -> Seq<u8> {
        commitments_digest(
            ECHO_ROUND@,
            ROUND1@,
            self.session.sid@,
            commitments_of(commitments.including(self.session.i, self.my_commitment)),
        )
    }

    /// Round 2: the commitments of the peers have come. Where reliable broadcast is enforced,
    /// their digest is broadcast, else the decommitment of the party.
    pub fn on_commitments(self, commitments: Received<MsgRound1>) -> (next: AfterRound1<'a, E>)
        requires
            self.wf(),
            commitments.complete(self.session.n),
        ensures
            match next {
                AfterRound1::SendEcho(state) => {
                    &&& self.session.reliable_broadcast_enforced
                    &&& state.wf()
                    &&& state.own == self
                    &&& state.commitments == commitments
                },
                AfterRound1::SendDecommitment(state) => {
                    &&& !self.session.reliable_broadcast_enforced
                    &&& state.wf()
                    &&& state.own == self
                    &&& state.commitments == commitments
                },
            },
    {
        if self.session.reliable_broadcast_enforced {
            let all = all_commitments(&commitments.msgs, self.session.i, &self.my_commitment);
            let hash = Echo { sid: self.session.sid, commitments: &all }.hash(ECHO_ROUND, ROUND1);
            AfterRound1::SendEcho(
                AwaitEchoes { own: self, commitments, echo: MsgReliabilityCheck { hash } },
            )
        } else {
            AfterRound1::SendDecommitment(AwaitDecommitments { own: self, commitments })
        }
    }
}

/// What a party does after round 1
pub enum AfterRound1<'a, E: RefreshCurve> {
    /// Broadcasts `echo`
    SendEcho(AwaitEchoes<'a, E>),
    /// Broadcasts `own.my_decommitment`
    SendDecommitment(AwaitDecommitments<'a, E>),
}

/// The party has broadcast `echo`, and waits for the echoes of its peers
pub struct AwaitEchoes<'a, E: RefreshCurve> {
    /// What the party has made itself
    pub own: AwaitCommitments<'a, E>,
    /// What the peers have sent in round 1
    pub commitments: Received<MsgRound1>,
    /// What is sent to check that broadcast is reliable
    pub echo: MsgReliabilityCheck,
}

impl<'a, E: RefreshCurve> AwaitEchoes<'a, E> {
    /// Whether all commitments are there, and the echo is their digest.
    pub open spec fn wf(&self) -> bool {
        &&& self.own.wf()
        &&& self.commitments.complete(self.own.session.n)
        &&& self.echo.hash@ == self.own.echo(self.commitments)
    }

    /// The echoes of the peers have come. Peers whose echo differs are blamed; if there are
    /// none, the decommitment of the party is broadcast.
    pub fn on_echoes(self, echoes: Received<MsgReliabilityCheck>) -> (result: Result<
        AwaitDecommitments<'a, E>,
        KeyRefreshError,
    >)
        requires
            self.wf(),
            echoes.complete(self.own.session.n),
        ensures
            ({
                let faulty = different_echoes(echoes.msgs@, self.echo.hash@);
                if faulty.contains(true) {
                    result matches Err(error) && error.blames_echoes(
                        blame_list(self.own.session.i, echoes.ids@, echoes.ids@, faulty),
                    )
                } else {
                    result matches Ok(state) && {
                        &&& state.wf()
                        &&& state.own == self.own
                        &&& state.commitments == self.commitments
                    }
                }
            }),
    {
        let faulty = compare_echoes(&echoes.msgs, &self.echo.hash);
        if any(&faulty) {
            let blame = collect_blame(self.own.session.i, &echoes.ids, &echoes.ids, &faulty);
            return Err(KeyRefreshError::from(ProtocolAborted::Round1NotReliable(blame)));
        }
        Ok(AwaitDecommitments { own: self.own, commitments: self.commitments })
    }
}

/// The party has broadcast `own.my_decommitment`, and waits for the decommitments of its peers
pub struct AwaitDecommitments<'a, E: RefreshCurve> {
    /// What the party has made itself
    pub own: AwaitCommitments<'a, E>,
    /// What the peers have sent in round 1
    pub commitments: Received<MsgRound1>,
}

/// Whether each peer's decommitment is not well-formed, or not what it has committed to.
pub open spec fn bad_decommitments<E: Curve>(
    sid: Seq<u8>,
    i: u16,
    n: u16,
    commitments: Seq<MsgRound1>,
    decommitments: Seq<MsgRound2<E>>,
) -> Seq<bool> {
    Seq::new(
        decommitments.len(),
        |p: int|
            !decommitments[p].well_formed(n) || commitments[p].commitment@
                != decommitments[p].commitment(sid, peer(i as int, p) as u16),
    )
}

/// The contributions to the session identifier.
pub open spec fn rids_of<E: Curve>(msgs: Seq<MsgRound2<E>>) -> Seq<Seq<u8>> {
    Seq::new(msgs.len(), |j: int| msgs[j].rid@)
}

/// Tells for each peer whether its decommitment is not well-formed, or not what it has
/// committed to.
fn check_decommitments<E: Curve>(
    sid: &[u8],
    i: u16,
    n: u16,
    commitments: &Vec<MsgRound1>,
    decommitments: &Vec<MsgRound2<E>>,
) -> (faulty: Vec<bool>)
    requires
        commitments.len() == decommitments.len(),
        decommitments.len() == n - 1,
    ensures
        faulty@ == bad_decommitments(sid@, i, n, commitments@, decommitments@),
{
    let ghost target = bad_decommitments(sid@, i, n, commitments@, decommitments@);
    let mut faulty: Vec<bool> = Vec::new();
    let mut p: usize = 0;
    while p < decommitments.len()
        invariant
            commitments.len() == decommitments.len(),
            decommitments.len() == n - 1,
            target == bad_decommitments(sid@, i, n, commitments@, decommitments@),
            p <= decommitments.len(),
            faulty.len() == p,
            forall|k: int| 0 <= k < p ==> #[trigger] faulty@[k] == target[k],
        decreases decommitments.len() - p,
    {
        let d = &decommitments[p];
        let bad_len = d.x_prime_points.len() != n as usize || d.y_points.len() != n as usize
            || d.sch_commits.len() != n as usize;
        let expected = d.commit(sid, peer_index(i, p));
        let bad_com = !bytes_equal(commitments[p].commitment.as_slice(), expected.as_slice());
        let total = sum_points(&d.x_prime_points);
        let bad_sum = !total.is_zero();
        proof {
            total.lemma_range();
            lemma_congruent_small(0, 0, E::order());
        }
        faulty.push(bad_len || bad_com || bad_sum);
        p += 1;
    }
    assert(faulty@ =~= target);
    faulty
}

/// Copies of the contributions of all parties to the session identifier.
fn all_rids<E: Curve>(
    decommitments: &Vec<MsgRound2<E>>,
    i: u16,
    mine: &MsgRound2<E>,
) -> (rids: Vec<Vec<u8>>)
    requires
        i <= decommitments.len(),
    ensures
        rids.len() == decommitments.len() + 1,
        byte_views(rids@) == rids_of(decommitments@.insert(i as int, *mine)),
{
    let mut rids: Vec<Vec<u8>> = Vec::new();
    let mut p: usize = 0;
    while p < decommitments.len()
        invariant
            p <= decommitments.len(),
            rids.len() == p,
            forall|k: int| 0 <= k < p ==> (#[trigger] rids@[k])@ == decommitments@[k].rid@,
        decreases decommitments.len() - p,
    {
        rids.push(bytes_copy(decommitments[p].rid.as_slice()));
        p += 1;
    }
    rids.insert(i as usize, bytes_copy(mine.rid.as_slice()));
    assert(byte_views(rids@) =~= rids_of(decommitments@.insert(i as int, *mine)));
    rids
}

/// The points that the peers have published for party `i` to make masks of.
fn y_column<E: Curve>(decommitments: &Vec<MsgRound2<E>>, i: u16) -> (points: Vec<Point<E>>)
    requires
        forall|p: int|
            0 <= p < decommitments.len() ==> i < (#[trigger] decommitments@[p]).y_points.len(),
    ensures
        points.len() == decommitments.len(),
        forall|p: int|
            0 <= p < points.len() ==> (#[trigger] points@[p]).log()
                == decommitments@[p].y_points@[i as int].log(),
{
    let mut points: Vec<Point<E>> = Vec::new();
    let mut p: usize = 0;
    while p < decommitments.len()
        invariant
            forall|p: int|
                0 <= p < decommitments.len() ==> i < (#[trigger] decommitments@[p]).y_points.len(),
            p <= decommitments.len(),
            points.len() == p,
            forall|k: int|
                0 <= k < p ==> (#[trigger] points@[k]).log()
                    == decommitments@[k].y_points@[i as int].log(),
        decreases decommitments.len() - p,
    {
        assert(i < decommitments@[p as int].y_points.len());
        points.push(decommitments[p].y_points[i as usize].copy());
        p += 1;
    }
    points
}

/// The points that the peers add to the public share of party `i`.
fn x_prime_column<E: Curve>(decommitments: &Vec<MsgRound2<E>>, i: u16) -> (points: Vec<Point<E>>)
    requires
        forall|p: int|
            0 <= p < decommitments.len() ==> i < (
            #[trigger] decommitments@[p]).x_prime_points.len(),
    ensures
        points.len() == decommitments.len(),
        logs(points@) == expected_shares(decommitments@, i),
{
    let mut points: Vec<Point<E>> = Vec::new();
    let mut p: usize = 0;
    while p < decommitments.len()
        invariant
            forall|p: int|
                0 <= p < decommitments.len() ==> i < (
                #[trigger] decommitments@[p]).x_prime_points.len(),
            p <= decommitments.len(),
            points.len() == p,
            forall|k: int|
                0 <= k < p ==> (#[trigger] points@[k]).log()
                    == decommitments@[k].x_prime_points@[i as int].log(),
        decreases decommitments.len() - p,
    {
        assert(i < decommitments@[p as int].x_prime_points.len());
        points.push(decommitments[p].x_prime_points[i as usize].copy());
        p += 1;
    }
    assert(logs(points@) =~= expected_shares(decommitments@, i));
    points
}

impl<'a, E: RefreshCurve> AwaitDecommitments<'a, E> {
    /// Whether all commitments are there.
    pub open spec fn wf(&self) -> bool {
        &&& self.own.wf()
        &&& self.commitments.complete(self.own.session.n)
    }

    /// Which peers have sent a wrong decommitment.
    pub open spec fn faulty(&self, decommitments: Received<MsgRound2<E>>) -> Seq<bool> {
        bad_decommitments(
            self.own.session.sid@,
            self.own.session.i,
            self.own.session.n,
            self.commitments.msgs@,
            decommitments.msgs@,
        )
    }

    /// Round 3: the decommitments of the peers have come. Peers whose decommitment is not
    /// well-formed, or not what they have committed to, are blamed; if there are none, the
    /// Schnorr proofs of the party are broadcast, and each peer is sent its share, masked.
    pub fn on_decommitments(self, decommitments: Received<MsgRound2<E>>) -> (result: Result<
        AwaitShares<'a, E>,
        KeyRefreshError,
    >)
        requires
            self.wf(),
            decommitments.complete(self.own.session.n),
            forall|p: int|
                0 <= p < decommitments.msgs.len() ==> (
                #[trigger] decommitments.msgs@[p]).rid.len() == self.own.session.kappa_bytes,
        ensures
            if self.faulty(decommitments).contains(true) {
                result matches Err(error) && error.blames_decommitments(
                    blame_list(
                        self.own.session.i,
                        self.commitments.ids@,
                        decommitments.ids@,
                        self.faulty(decommitments),
                    ),
                )
            } else {
                result matches Ok(state) && {
                    &&& state.wf()
                    &&& state.own == self.own
                    &&& state.decommitments == decommitments
                }
            },
    {
        let session = &self.own.session;
        let i: u16 = session.i;
        let n: u16 = session.n;
        let ghost target = self.faulty(decommitments);
        let faulty = check_decommitments(
            session.sid,
            i,
            n,
            &self.commitments.msgs,
            &decommitments.msgs,
        );
        if any(&faulty) {
            assert(target.contains(true));
            let blame = collect_blame(i, &self.commitments.ids, &decommitments.ids, &faulty);
            return Err(KeyRefreshError::from(ProtocolAborted::InvalidDecommitment(blame)));
        }
        proof {
            assert forall|p: int| 0 <= p < decommitments.msgs.len() implies (
            #[trigger] decommitments.msgs@[p]).well_formed(n) by {
                assert(!faulty@[p]);
            }
            assert(!target.contains(true));
            assert(self.own.x_prime.len() == values(self.own.x_prime@).len());
            assert(self.own.y.len() == values(self.own.y@).len());
            assert(self.own.tau.len() == values(self.own.tau@).len());
            assert(logs(self.own.my_decommitment.x_prime_points@).len() == n);
            assert(logs(self.own.my_decommitment.y_points@).len() == n);
            assert(logs(self.own.my_decommitment.sch_commits@).len() == n);
        }
        let rids = all_rids(&decommitments.msgs, i, &self.own.my_decommitment);
        proof {
            let all = decommitments.msgs@.insert(i as int, self.own.my_decommitment);
            assert forall|j: int| 0 <= j < rids.len() implies (#[trigger] rids@[j]).len()
                == session.kappa_bytes by {
                assert(rids@[j]@ == byte_views(rids@)[j]);
                assert(rids_of(all)[j] == all[j].rid@);
                if j < i {
                    assert(all[j] == decommitments.msgs@[j]);
                } else if j > i {
                    assert(all[j] == decommitments.msgs@[j - 1]);
                }
            }
        }
        let rid = combine_rids(&rids, session.kappa_bytes);
        let y_points = y_column(&decommitments.msgs, i);
        let shares = of_peers(&self.own.x_prime, i);
        let masked = mask_shares(
            REFRESH_MASK,
            session.sid,
            rid.as_slice(),
            i,
            &y_points,
            &self.own.y,
            &shares,
        );
        let sch_proofs = prove_all(
            SCHNORR_POK,
            session.sid,
            i,
            rid.as_slice(),
            &self.own.my_decommitment.x_prime_points,
            0,
            &self.own.my_decommitment.sch_commits,
            &self.own.tau,
            &self.own.x_prime,
        );
        Ok(
            AwaitShares {
                own: self.own,
                decommitments,
                rid,
                my_proofs: MsgRound3Broadcast { sch_proofs },
                my_shares: masked,
            },
        )
    }
}

/// The party has broadcast `my_proofs` and sent `my_shares` to its peers, one each, and waits
/// for the same from them
pub struct AwaitShares<'a, E: RefreshCurve> {
    /// What the party has made itself
    pub own: AwaitCommitments<'a, E>,
    /// What the peers have sent in round 2
    pub decommitments: Received<MsgRound2<E>>,
    /// Session identifier of all parties together
    pub rid: Vec<u8>,
    /// What is broadcast in round 3
    pub my_proofs: MsgRound3Broadcast<E>,
    /// What is sent to each peer in round 3
    pub my_shares: Vec<MsgRound3Unicast<E>>,
}

/// What the peers have committed to give party `i`.
pub open spec fn expected_shares<E: Curve>(
    decommitments: Seq<MsgRound2<E>>,
    i: u16,
) -> Seq<int> {
    Seq::new(
        decommitments.len(),
        |p: int| decommitments[p].x_prime_points@[i as int].log() as int,
    )
}

/// What each party adds to the public shares.
pub open spec fn rows_of<E: Curve>(decommitments: Seq<MsgRound2<E>>) -> Seq<Seq<int>> {
    Seq::new(decommitments.len(), |j: int| logs(decommitments[j].x_prime_points@))
}

/// Copies of the points that all parties add to the public shares.
fn all_rows<E: Curve>(
    decommitments: &Vec<MsgRound2<E>>,
    i: u16,
    mine: &MsgRound2<E>,
) -> (rows: Vec<Vec<Point<E>>>)
    requires
        i <= decommitments.len(),
    ensures
        rows.len() == decommitments.len() + 1,
        row_logs(rows@) == rows_of(decommitments@.insert(i as int, *mine)),
{
    let mut rows: Vec<Vec<Point<E>>> = Vec::new();
    let mut p: usize = 0;
    while p < decommitments.len()
        invariant
            p <= decommitments.len(),
            rows.len() == p,
            forall|k: int|
                0 <= k < p ==> logs((#[trigger] rows@[k])@) == logs(
                    decommitments@[k].x_prime_points@,
                ),
        decreases decommitments.len() - p,
    {
        rows.push(copy_points(&decommitments[p].x_prime_points));
        p += 1;
    }
    rows.insert(i as usize, copy_points(&mine.x_prime_points));
    assert(row_logs(rows@) =~= rows_of(decommitments@.insert(i as int, *mine)));
    rows
}

/// Whether each peer's Schnorr proofs do not hold.
pub open spec fn bad_proofs<E: RefreshCurve>(
    sid: Seq<u8>,
    i: u16,
    rid: Seq<u8>,
    decommitments: Seq<MsgRound2<E>>,
    proofs: Seq<MsgRound3Broadcast<E>>,
) -> Seq<bool> {
    Seq::new(
        decommitments.len(),
        |p: int|
            !proofs_hold(
                SCHNORR_POK@,
                sid,
                peer(i as int, p) as u16,
                rid,
                decommitments[p].x_prime_points@,
                0,
                decommitments[p].sch_commits@,
                proofs[p].sch_proofs@,
            ),
    )
}

/// Tells for each peer whether its Schnorr proofs do not hold.
fn check_all_proofs<E: RefreshCurve>(
    sid: &[u8],
    i: u16,
    rid: &[u8],
    decommitments: &Vec<MsgRound2<E>>,
    proofs: &Vec<MsgRound3Broadcast<E>>,
) -> (faulty: Vec<bool>)
    requires
        decommitments.len() == proofs.len(),
        decommitments.len() < u16::MAX,
    ensures
        faulty@ == bad_proofs(sid@, i, rid@, decommitments@, proofs@),
{
    let ghost target = bad_proofs(sid@, i, rid@, decommitments@, proofs@);
    let mut faulty: Vec<bool> = Vec::new();
    let mut p: usize = 0;
    while p < decommitments.len()
        invariant
            decommitments.len() == proofs.len(),
            decommitments.len() < u16::MAX,
            target == bad_proofs(sid@, i, rid@, decommitments@, proofs@),
            p <= decommitments.len(),
            faulty.len() == p,
            forall|k: int| 0 <= k < p ==> #[trigger] faulty@[k] == target[k],
        decreases decommitments.len() - p,
    {
        let d = &decommitments[p];
        let valid = check_proofs(
            SCHNORR_POK,
            sid,
            peer_index(i, p),
            rid,
            &d.x_prime_points,
            0,
            &d.sch_commits,
            &proofs[p].sch_proofs,
        );
        faulty.push(!valid);
        p += 1;
    }
    assert(faulty@ =~= target);
    faulty
}

/// What the key share in the output of a run is, or the error.
pub open spec fn share_of<E: RefreshCurve>(
    result: Result<KeyRefreshOutput<E>, KeyRefreshError>,
) -> Result<IncompleteKeyShare<E>, KeyRefreshError> {
    match result {
        Ok(output) => Ok(output.share),
        Err(error) => Err(error),
    }
}

impl<'a, E: RefreshCurve> AwaitShares<'a, E> {
    /// Whether all decommitments are there and well-formed, and what the party sends is made of
    /// its secrets and of them.
    pub open spec fn wf(&self) -> bool {
        let session = self.own.session;
        let i = session.i;
        &&& self.own.wf()
        &&& self.decommitments.complete(session.n)
        &&& forall|p: int|
            0 <= p < self.decommitments.msgs.len() ==> (
            #[trigger] self.decommitments.msgs@[p]).well_formed(session.n)
        &&& self.rid@ == xor_all(
            rids_of(self.decommitments.including(i, self.own.my_decommitment)),
            session.kappa_bytes as nat,
        )
        &&& proofs_answer(
            SCHNORR_POK@,
            session.sid@,
            i,
            self.rid@,
            self.own.my_decommitment.x_prime_points@,
            0,
            self.own.my_decommitment.sch_commits@,
            values(self.own.tau@),
            values(self.own.x_prime@),
            self.my_proofs.sch_proofs@,
        )
        &&& self.my_shares.len() == session.n - 1
        &&& forall|p: int|
            0 <= p < self.my_shares.len() ==> (#[trigger] self.my_shares@[p]).c.value()
                == masked_share::<E>(
                REFRESH_MASK@,
                session.sid@,
                self.rid@,
                i,
                p,
                self.decommitments.msgs@[p].y_points@[i as int].log(),
                self.own.y@[peer(i as int, p)].value(),
                self.own.x_prime@[peer(i as int, p)].value(),
            )
    }

    /// The decommitments of all parties.
    pub open spec fn all_decommitments(&self) -> Seq<MsgRound2<E>> {
        self.decommitments.including(self.own.session.i, self.own.my_decommitment)
    }

    /// What each party adds to the public shares.
    pub open spec fn rows(&self) -> Seq<Seq<int>> {
        rows_of(self.all_decommitments())
    }

    /// What the masked shares of the peers are opened to.
    pub open spec fn opened(&self, masked: Received<MsgRound3Unicast<E>>) -> Seq<int> {
        let i = self.own.session.i;
        Seq::new(
            masked.msgs.len() as nat,
            |p: int|
                unmasked_share::<E>(
                    REFRESH_MASK@,
                    self.own.session.sid@,
                    self.rid@,
                    i,
                    p,
                    self.decommitments.msgs@[p].y_points@[i as int].log(),
                    self.own.y@[peer(i as int, p)].value(),
                    masked.msgs@[p].c.value(),
                ),
        )
    }

    /// Which peers have sent a wrong share.
    pub open spec fn wrong_shares(&self, masked: Received<MsgRound3Unicast<E>>) -> Seq<bool> {
        wrong_shares::<E>(
            self.opened(masked),
            expected_shares(self.decommitments.msgs@, self.own.session.i),
        )
    }

    /// Which peers have sent a wrong proof.
    pub open spec fn bad_proofs(&self, proofs: Received<MsgRound3Broadcast<E>>) -> Seq<bool> {
        bad_proofs(
            self.own.session.sid@,
            self.own.session.i,
            self.rid@,
            self.decommitments.msgs@,
            proofs.msgs@,
        )
    }

    /// The refreshed public shares: to that of each party, everything is added that all parties
    /// have committed to for it.
    pub open spec fn refreshed_public_shares(&self) -> Seq<int> {
        reduced(
            refreshed(
                logs(self.own.session.share.inner().key_info.public_shares@),
                self.rows(),
            ),
            E::order(),
        )
    }

    /// The shares and proofs of the peers have come. Peers whose share is not the one they have
    /// committed to are blamed, else those whose proofs do not hold; if there are none, the key
    /// share is refreshed.
    pub fn on_shares(
        self,
        proofs: Received<MsgRound3Broadcast<E>>,
        masked: Received<MsgRound3Unicast<E>>,
    ) -> (result: Result<KeyRefreshOutput<E>, KeyRefreshError>)
        requires
            self.wf(),
            proofs.complete(self.own.session.n),
            masked.complete(self.own.session.n),
        ensures
            if self.wrong_shares(masked).contains(true) {
                result matches Err(error) && error.blames_masked_shares(
                    blame_list(
                        self.own.session.i,
                        masked.ids@,
                        masked.ids@,
                        self.wrong_shares(masked),
                    ),
                )
            } else if self.bad_proofs(proofs).contains(true) {
                result matches Err(error) && error.blames_schnorr_proofs(
                    blame_list(
                        self.own.session.i,
                        self.decommitments.ids@,
                        proofs.ids@,
                        self.bad_proofs(proofs),
                    ),
                )
            } else {
                &&& is_refreshed_share(
                    share_of(result),
                    self.own.session.share.inner(),
                    self.own.session.i,
                    None,
                    refreshed_secret(
                        self.own.session.share.inner().x.value() as int,
                        self.opened(masked),
                        self.own.x_prime@[self.own.session.i as int].value() as int,
                        E::order(),
                    ),
                    self.refreshed_public_shares(),
                )
                &&& result matches Ok(output) ==> output.rid == self.rid
            },
    {
        let session = &self.own.session;
        let i: u16 = session.i;
        let n: u16 = session.n;
        let decommitments = &self.decommitments.msgs;
        proof {
            assert(values(self.own.x_prime@).len() == self.own.x_prime.len());
            assert(values(self.own.y@).len() == self.own.y.len());
            assert(logs(self.own.my_decommitment.x_prime_points@).len() == n);
            assert(logs(self.own.my_decommitment.y_points@).len() == n);
        }
        let y_points = y_column(decommitments, i);
        let contributions = unmask_shares(
            REFRESH_MASK,
            session.sid,
            self.rid.as_slice(),
            i,
            &y_points,
            &self.own.y,
            &masked.msgs,
        );
        let expected = x_prime_column(decommitments, i);
        let wrong = check_shares(&contributions, &expected);
        assert(values(contributions@) =~= self.opened(masked));
        assert(wrong@ =~= self.wrong_shares(masked));
        if any(&wrong) {
            assert(self.wrong_shares(masked).contains(true));
            let blame = collect_blame(i, &masked.ids, &masked.ids, &wrong);
            return Err(KeyRefreshError::from(ProtocolAborted::InvalidMaskedShare(blame)));
        }
        let bad = check_all_proofs(
            session.sid,
            i,
            self.rid.as_slice(),
            decommitments,
            &proofs.msgs,
        );
        if any(&bad) {
            assert(self.bad_proofs(proofs).contains(true));
            let blame = collect_blame(i, &self.decommitments.ids, &proofs.ids, &bad);
            return Err(KeyRefreshError::from(ProtocolAborted::InvalidSchnorrProof(blame)));
        }
        assert(!self.wrong_shares(masked).contains(true));
        assert(!self.bad_proofs(proofs).contains(true));
        let old = session.share.as_inner();
        let rows = all_rows(decommitments, i, &self.own.my_decommitment);
        let own = &self.own.x_prime[i as usize];
        proof {
            let all = self.decommitments.including(i, self.own.my_decommitment);
            let base = logs(old.key_info.public_shares@);
            let r = rows_of(all);
            let q = E::order();
            let pk = old.key_info.shared_public_key.log() as int;
            assert(base.len() == n);
            assert forall|j: int| 0 <= j < r.len() implies (#[trigger] r[j]).len() == n
                && congruent(sum(r[j]), 0, q) by {
                if j < i {
                    assert(all[j] == self.decommitments.msgs@[j]);
                } else if j == i {
                    assert(all[j] == self.own.my_decommitment);
                } else {
                    assert(all[j] == self.decommitments.msgs@[j - 1]);
                }
            }
            assert forall|j: int| 0 <= j < rows.len() implies (#[trigger] rows@[j]).len() == n by {
                assert(row_logs(rows@)[j] == r[j]);
            }
            use_type_invariant(own);
            own.lemma_range();
            zero_rows_keep_the_sum(base, r, q);
            let col = column(r, i as int);
            let c = values(contributions@);
            let o = own.value() as int;
            assert(o == values(self.own.x_prime@)[i as int]);
            assert(col =~= c.insert(i as int, o)) by {
                assert forall|j: int| 0 <= j < col.len() implies #[trigger] col[j] == c.insert(
                    i as int,
                    o,
                )[j] by {
                    if j == i {
                        assert(all[j] == self.own.my_decommitment);
                    } else {
                        let p = if j < i {
                            j
                        } else {
                            j - 1
                        };
                        assert(all[j] == self.decommitments.msgs@[p]);
                        assert(!wrong@[p]);
                        assert(c.insert(i as int, o)[j] == c[p]);
                    }
                }
            }
            lemma_sum_insert(c, i as int, o);
            assert(old.x.value() == base[i as int]);
        }
        match refresh_share(
            old,
            i,
            None,
            &old.key_info.public_shares,
            &rows,
            &contributions,
            own,
        ) {
            Ok(share) => Ok(KeyRefreshOutput { share, rid: self.rid }),
            Err(error) => Err(error),
        }
    }
}

/// Parties that have got the same commitments send the same echo.
pub proof fn same_commitments_same_echo<'a, 'b, E: RefreshCurve>(
    a: AwaitEchoes<'a, E>,
    b: AwaitEchoes<'b, E>,
)
    requires
        a.wf(),
        b.wf(),
        a.own.session.sid@ == b.own.session.sid@,
        commitments_of(a.commitments.including(a.own.session.i, a.own.my_commitment))
            == commitments_of(b.commitments.including(b.own.session.i, b.own.my_commitment)),
    ensures
        a.echo.hash@ == b.echo.hash@,
{
}

/// Parties that have got the same decommitments compute the same session identifier and the same
/// refreshed public shares.
pub proof fn parties_agree<'a, 'b, E: RefreshCurve>(a: AwaitShares<'a, E>, b: AwaitShares<'b, E>)
    requires
        a.wf(),
        b.wf(),
        a.own.session.kappa_bytes == b.own.session.kappa_bytes,
        logs(a.own.session.share.inner().key_info.public_shares@) == logs(
            b.own.session.share.inner().key_info.public_shares@,
        ),
        rids_of(a.all_decommitments()) == rids_of(b.all_decommitments()),
        a.rows() == b.rows(),
    ensures
        a.rid@ == b.rid@,
        a.refreshed_public_shares() == b.refreshed_public_shares(),
{
}

/// A peer that opens what it has committed to, and has made it as the protocol says, is not
/// blamed for its decommitment.
pub proof fn honest_decommitment_passes<'a, 'b, E: RefreshCurve>(
    party: AwaitDecommitments<'a, E>,
    other: AwaitCommitments<'b, E>,
    decommitments: Received<MsgRound2<E>>,
    p: int,
)
    requires
        party.wf(),
        other.wf(),
        party.own.session.sid@ == other.session.sid@,
        party.own.session.n == other.session.n,
        decommitments.complete(party.own.session.n),
        0 <= p < decommitments.msgs.len(),
        other.session.i == peer(party.own.session.i as int, p),
        party.commitments.msgs@[p].commitment@ == other.my_commitment.commitment@,
        decommitments.msgs@[p] == other.my_decommitment,
    ensures
        !party.faulty(decommitments)[p],
{
}

/// A peer that sends the share and the proofs that the protocol asks for is not blamed for them:
/// what it masks for the party is opened there, and is what it has committed to.
///
/// The party is in place `r` among the peers of the other one, and the other one in place `p`
/// among the peers of the party; each has got the other's decommitment.
pub proof fn honest_shares_pass<'a, 'b, E: RefreshCurve>(
    party: AwaitShares<'a, E>,
    other: AwaitShares<'b, E>,
    proofs: Received<MsgRound3Broadcast<E>>,
    masked: Received<MsgRound3Unicast<E>>,
    p: int,
    r: int,
)
    requires
        party.wf(),
        other.wf(),
        party.own.session.sid@ == other.own.session.sid@,
        party.own.session.n == other.own.session.n,
        party.rid@ == other.rid@,
        proofs.complete(party.own.session.n),
        masked.complete(party.own.session.n),
        0 <= p < masked.msgs.len(),
        0 <= r < masked.msgs.len(),
        other.own.session.i == peer(party.own.session.i as int, p),
        party.own.session.i == peer(other.own.session.i as int, r),
        party.decommitments.msgs@[p] == other.own.my_decommitment,
        other.decommitments.msgs@[r] == party.own.my_decommitment,
        proofs.msgs@[p] == other.my_proofs,
        masked.msgs@[p] == other.my_shares@[r],
    ensures
        !party.wrong_shares(masked)[p],
        !party.bad_proofs(proofs)[p],
{
    let i = party.own.session.i;
    let j = other.own.session.i;
    let q = E::order();
    let theirs = other.own.my_decommitment;
    let mine = party.own.my_decommitment;
    theirs.x_prime_points@[0].lemma_range();
    assert(logs(theirs.x_prime_points@).len() == theirs.x_prime_points.len());
    assert(logs(theirs.y_points@).len() == theirs.y_points.len());
    assert(logs(mine.y_points@).len() == mine.y_points.len());
    assert(values(other.own.x_prime@).len() == other.own.x_prime.len());
    assert(values(other.own.y@).len() == other.own.y.len());
    assert(values(party.own.y@).len() == party.own.y.len());
    // The two ends of the mask.
    let y_of_j = other.own.y@[i as int].value();
    let y_of_i = party.own.y@[j as int].value();
    assert(theirs.y_points@[i as int].log() == y_of_j) by {
        assert(logs(theirs.y_points@)[i as int] == values(other.own.y@)[i as int]);
    }
    assert(mine.y_points@[j as int].log() == y_of_i) by {
        assert(logs(mine.y_points@)[j as int] == values(party.own.y@)[j as int]);
    }
    let share = other.own.x_prime@[i as int].value();
    assert(share == theirs.x_prime_points@[i as int].log()) by {
        assert(logs(theirs.x_prime_points@)[i as int] == values(other.own.x_prime@)[i as int]);
    }
    unmasking_undoes_masking::<E>(
        REFRESH_MASK@,
        party.own.session.sid@,
        party.rid@,
        j,
        i,
        r,
        p,
        y_of_j,
        y_of_i,
        share,
    );
    theirs.x_prime_points@[i as int].lemma_range();
    lemma_congruent_small(share as int, share as int, q);
    honest_proofs_hold(
        SCHNORR_POK@,
        party.own.session.sid@,
        j,
        party.rid@,
        theirs.x_prime_points@,
        0,
        theirs.sch_commits@,
        values(other.own.tau@),
        values(other.own.x_prime@),
        other.my_proofs.sch_proofs@,
    );
}

/// Whether the states are those of all parties in a run in which every party has got the
/// decommitments that the others have made.
pub open spec fn honest_run<'a, E: RefreshCurve>(parties: Seq<AwaitShares<'a, E>>) -> bool {
    &&& forall|k: int|
        0 <= k < parties.len() ==> {
            let party = #[trigger] parties[k];
            let session = party.own.session;
            &&& party.wf()
            &&& session.i == k
            &&& session.n == parties.len()
            &&& session.sid@ == parties[0].own.session.sid@
            &&& session.kappa_bytes == parties[0].own.session.kappa_bytes
        }
    &&& forall|k: int, p: int|
        0 <= k < parties.len() && 0 <= p < parties.len() - 1 ==> (
        #[trigger] parties[k].decommitments.msgs@[p]) == parties[peer(k, p)].own.my_decommitment
}

/// In such a run all parties have the same decommitments, in the order of the parties, and the
/// same session identifier.
pub proof fn honest_parties_agree<'a, E: RefreshCurve>(parties: Seq<AwaitShares<'a, E>>, k: int)
    requires
        honest_run(parties),
        0 <= k < parties.len(),
    ensures
        parties[k].all_decommitments() == Seq::new(
            parties.len(),
            |j: int| parties[j].own.my_decommitment,
        ),
        parties[k].rid@ == parties[0].rid@,
{
    let all = Seq::new(parties.len(), |j: int| parties[j].own.my_decommitment);
    assert forall|m: int| 0 <= m < parties.len() implies (
    #[trigger] parties[m]).all_decommitments() == all by {
        let party = parties[m];
        let got = party.all_decommitments();
        assert(got.len() == all.len());
        assert forall|j: int| 0 <= j < got.len() implies got[j] == all[j] by {
            if j != m {
                let p = place(m, j);
                assert(got[j] == party.decommitments.msgs@[p]);
                assert(parties[m].decommitments.msgs@[p] == parties[peer(
                    m,
                    p,
                )].own.my_decommitment);
            }
        }
        assert(got =~= all);
    }
    assert(parties[k].all_decommitments() == parties[0].all_decommitments());
}

/// In such a run, if the last messages arrive as they were sent, nobody is blamed.
pub proof fn honest_run_blames_nobody<'a, E: RefreshCurve>(
    parties: Seq<AwaitShares<'a, E>>,
    k: int,
    proofs: Received<MsgRound3Broadcast<E>>,
    masked: Received<MsgRound3Unicast<E>>,
)
    requires
        honest_run(parties),
        0 <= k < parties.len(),
        proofs.complete(parties[k].own.session.n),
        masked.complete(parties[k].own.session.n),
        forall|p: int|
            0 <= p < parties.len() - 1 ==> #[trigger] proofs.msgs@[p] == parties[peer(
                k,
                p,
            )].my_proofs,
        forall|p: int|
            0 <= p < parties.len() - 1 ==> #[trigger] masked.msgs@[p] == parties[peer(
                k,
                p,
            )].my_shares@[place(peer(k, p), k)],
    ensures
        !parties[k].wrong_shares(masked).contains(true),
        !parties[k].bad_proofs(proofs).contains(true),
{
    let party = parties[k];
    assert forall|p: int| 0 <= p < parties.len() - 1 implies !(
    #[trigger] party.wrong_shares(masked)[p]) && !party.bad_proofs(proofs)[p] by {
        let j = peer(k, p);
        let r = place(j, k);
        assert(parties[j].own.session.i == j);
        assert(peer(j, r) == k);
        assert(parties[j].decommitments.msgs@[r] == parties[k].own.my_decommitment);
        assert(parties[k].decommitments.msgs@[p] == parties[j].own.my_decommitment);
        honest_parties_agree(parties, k);
        honest_parties_agree(parties, j);
        assert(proofs.msgs@[p] == parties[j].my_proofs);
        assert(masked.msgs@[p] == parties[j].my_shares@[r]);
        honest_shares_pass(party, parties[j], proofs, masked, p, r);
    }
    assert forall|p: int| 0 <= p < party.bad_proofs(proofs).len() implies !(
    #[trigger] party.bad_proofs(proofs)[p]) by {
        assert(!party.wrong_shares(masked)[p]);
    }
}

/// The key shares that the parties of a run have brought.
pub open spec fn old_shares<'a, E: RefreshCurve>(parties: Seq<AwaitShares<'a, E>>) -> Seq<
    DirtyIncompleteKeyShare<E>,
> {
    Seq::new(parties.len(), |k: int| parties[k].own.session.share.inner())
}

/// The key shares that a run has given.
pub open spec fn new_shares<E: RefreshCurve>(shares: Seq<IncompleteKeyShare<E>>) -> Seq<
    DirtyIncompleteKeyShare<E>,
> {
    Seq::new(shares.len(), |k: int| shares[k].inner())
}

/// Refresh does not change the key: when all parties of a run, with shares of one key, have
/// refreshed them, the new shares are shares of one key, too, with the same public key, and
/// the secrets of all parties add up to what they added up to before.
pub proof fn refresh_keeps_the_key<'a, E: RefreshCurve>(
    parties: Seq<AwaitShares<'a, E>>,
    shares: Seq<IncompleteKeyShare<E>>,
    secrets: Seq<int>,
)
    requires
        parties.len() > 0,
        honest_run(parties),
        of_one_key(old_shares(parties)),
        shares.len() == parties.len(),
        secrets.len() == parties.len(),
        forall|k: int|
            0 <= k < parties.len() ==> is_refreshed_share(
                Ok(#[trigger] shares[k]),
                parties[k].own.session.share.inner(),
                k as u16,
                None,
                secrets[k],
                parties[k].refreshed_public_shares(),
            ),
    ensures
        of_one_key(new_shares(shares)),
        new_shares(shares)[0].key_info.shared_public_key.log() == old_shares(
            parties,
        )[0].key_info.shared_public_key.log(),
        congruent(
            sum(secrets_of(new_shares(shares))),
            sum(secrets_of(old_shares(parties))),
            E::order(),
        ),
{
    let old = old_shares(parties);
    let new = new_shares(shares);
    assert forall|k: int| 0 <= k < new.len() implies {
        let info = (#[trigger] new[k]).key_info;
        let first = new[0].key_info;
        &&& new[k].valid()
        &&& info.shared_public_key.log() == first.shared_public_key.log()
        &&& logs(info.public_shares@) == logs(first.public_shares@)
        &&& info.vss_setup is Some == first.vss_setup is Some
        &&& info.vss_setup is Some ==> {
            &&& info.vss_setup->0.min_signers == first.vss_setup->0.min_signers
            &&& values(info.vss_setup->0.I@) == values(first.vss_setup->0.I@)
        }
    } by {
        assert(new[k] == shares[k].inner());
        assert(new[0] == shares[0].inner());
        assert(old[k].valid() && old[0].valid());
        honest_parties_agree(parties, k);
        honest_parties_agree(parties, 0);
        assert(parties[k].own.session.i == k);
    }
    assert forall|k: int| 0 <= k < new.len() implies (#[trigger] new[k]).i == k && old[k].i
        == k by {
        assert(new[k] == shares[k].inner());
        assert(parties[k].wf());
        assert(parties[k].own.session.i == k);
    }
    assert(old[0].valid());
    assert(parties[0].wf());
    additive_shares_add_up_to_the_key(old);
    assert(logs(new[0].key_info.public_shares@).len() == new[0].key_info.public_shares.len());
    assert(logs(old[0].key_info.public_shares@).len() == old[0].key_info.public_shares.len());
    additive_shares_add_up_to_the_key(new);
}

} // verus!
