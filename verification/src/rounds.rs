//! Steps that the two key refresh protocols have in common.
use crate::bytes::{byte_views, bytes_copy, bytes_equal, xor_array, xor_bytes};
use crate::curve::{logs, points_wf, scalars_wf, values, Curve, Point, Scalar};
use crate::errors::{Bug, KeyRefreshError, Reason};
use crate::key_share::{
    distinct, nonzero, points_nonzero, shares_of, sharing, DirtyIncompleteKeyShare, DirtyKeyInfo,
    IncompleteKeyShare, VssSetup,
};
use crate::modular::{
    congruent, lemma_congruent_add, lemma_congruent_difference, lemma_congruent_mod,
};
use crate::polynomial::{eval, lemma_eval_add, lemma_eval_at_zero, poly_add};
use crate::refresh_curve::{schnorr_holds, schnorr_prove, schnorr_verify, RefreshCurve};
use crate::unambiguous::{RefreshMask, SchnorrPok};
use crate::utils::{peer, peer_index, sum, sum_points, sum_scalars};
use vstd::prelude::*;

verus! {

/// Message from round 1
pub struct MsgRound1 {
    /// $V_i$
    pub commitment: Vec<u8>,
}

/// Message parties exchange to ensure reliability of broadcast channel
pub struct MsgReliabilityCheck {
    /// Echo hash of round 1 commitments
    pub hash: Vec<u8>,
}

/// Round 3 broadcast message
pub struct MsgRound3Broadcast<E: Curve> {
    /// $\hat\psi_{i,k}$
    pub sch_proofs: Vec<Scalar<E>>,
}

/// Round 3 unicast message
pub struct MsgRound3Unicast<E: Curve> {
    /// $C_{i,j}$
    pub c: Scalar<E>,
}

/// The exclusive or of all contributions to a session identifier of `len` bytes.
pub open spec fn xor_all(rids: Seq<Seq<u8>>, len: nat) -> Seq<u8>
    decreases rids.len(),
{
    if rids.len() == 0 {
        Seq::new(len, |k: int| 0u8)
    } else {
        xor_bytes(xor_all(rids.drop_last(), len), rids.last())
    }
}

/// The exclusive or of all contributions to a session identifier of `len` bytes.
pub fn combine_rids(rids: &Vec<Vec<u8>>, len: usize) -> (rid: Vec<u8>)
    requires
        forall|j: int| 0 <= j < rids.len() ==> (#[trigger] rids@[j]).len() == len,
    ensures
        rid@ == xor_all(byte_views(rids@), len as nat),
        rid.len() == len,
{
    let mut rid: Vec<u8> = Vec::new();
    let mut k: usize = 0;
    while k < len
        invariant
            k <= len,
            rid.len() == k,
            forall|m: int| 0 <= m < k ==> rid@[m] == 0,
        decreases len - k,
    {
        rid.push(0);
        k += 1;
    }
    let mut j: usize = 0;
    assert(rid@ =~= xor_all(byte_views(rids@).take(0), len as nat));
    while j < rids.len()
        invariant
            j <= rids.len(),
            rid.len() == len,
            forall|j: int| 0 <= j < rids.len() ==> (#[trigger] rids@[j]).len() == len,
            rid@ == xor_all(byte_views(rids@).take(j as int), len as nat),
        decreases rids.len() - j,
    {
        assert(byte_views(rids@).take(j + 1).drop_last() =~= byte_views(rids@).take(j as int));
        assert(rids@[j as int].len() == len);
        rid = xor_array(rid, rids[j].as_slice());
        j += 1;
    }
    assert(byte_views(rids@).take(j as int) =~= byte_views(rids@));
    rid
}

/// The commitments of messages.
pub open spec fn commitments_of(msgs: Seq<MsgRound1>) -> Seq<Seq<u8>> {
    Seq::new(msgs.len(), |p: int| msgs[p].commitment@)
}

/// Copies of the commitments of peers, with one's own at one's index.
pub fn all_commitments(msgs: &Vec<MsgRound1>, i: u16, mine: &MsgRound1) -> (all: Vec<Vec<u8>>)
    requires
        i <= msgs.len(),
    ensures
        byte_views(all@) == commitments_of(msgs@.insert(i as int, *mine)),
{
    let mut all: Vec<Vec<u8>> = Vec::new();
    let mut p: usize = 0;
    while p < msgs.len()
        invariant
            p <= msgs.len(),
            all.len() == p,
            forall|k: int| 0 <= k < p ==> (#[trigger] all@[k])@ == msgs@[k].commitment@,
        decreases msgs.len() - p,
    {
        all.push(bytes_copy(msgs[p].commitment.as_slice()));
        p += 1;
    }
    all.insert(i as usize, bytes_copy(mine.commitment.as_slice()));
    assert(byte_views(all@) =~= commitments_of(msgs@.insert(i as int, *mine)));
    all
}

/// Whether the echo of each peer differs from one's own.
pub open spec fn different_echoes(msgs: Seq<MsgReliabilityCheck>, hash: Seq<u8>) -> Seq<bool> {
    Seq::new(msgs.len(), |p: int| msgs[p].hash@ != hash)
}

/// Tells for each peer whether its echo differs from one's own.
pub fn compare_echoes(msgs: &Vec<MsgReliabilityCheck>, hash: &Vec<u8>) -> (faulty: Vec<bool>)
    ensures
        faulty@ == different_echoes(msgs@, hash@),
{
    let mut faulty: Vec<bool> = Vec::new();
    let mut p: usize = 0;
    while p < msgs.len()
        invariant
            p <= msgs.len(),
            faulty.len() == p,
            forall|k: int| 0 <= k < p ==> #[trigger] faulty@[k] == (msgs@[k].hash@ != hash@),
        decreases msgs.len() - p,
    {
        faulty.push(!bytes_equal(msgs[p].hash.as_slice(), hash.as_slice()));
        p += 1;
    }
    assert(faulty@ =~= different_echoes(msgs@, hash@));
    faulty
}

/// The mask of a share that goes from `sender` to `recipient`, where one of them knows `y` and
/// the other one has published the multiple of the generator by `y_log`.
pub open spec fn peer_mask<E: RefreshCurve>(
    tag: Seq<char>,
    sid: Seq<u8>,
    rid: Seq<u8>,
    sender: u16,
    recipient: u16,
    y_log: nat,
    y: nat,
) -> nat {
    E::mask_digest(tag, sid, rid, sender, recipient, E::encoding((y_log * y) % E::order()))
}

/// Both ends of a masked share compute the same mask: who knows `a` from the point of `b`, and
/// who knows `b` from the point of `a`.
pub proof fn both_ends_compute_the_mask<E: RefreshCurve>(
    tag: Seq<char>,
    sid: Seq<u8>,
    rid: Seq<u8>,
    sender: u16,
    recipient: u16,
    a: nat,
    b: nat,
)
    ensures
        peer_mask::<E>(tag, sid, rid, sender, recipient, a, b) == peer_mask::<E>(
            tag,
            sid,
            rid,
            sender,
            recipient,
            b,
            a,
        ),
{
    assert(a * b == b * a) by (nonlinear_arith);
}

/// Computes the mask of a share.
fn compute_mask<E: RefreshCurve>(
    tag: &str,
    sid: &[u8],
    rid: &[u8],
    sender: u16,
    recipient: u16,
    y_point: &Point<E>,
    y: &Scalar<E>,
) -> (mask: Scalar<E>)
    ensures
        mask.wf(),
        mask.value() == peer_mask::<E>(
            tag@,
            sid@,
            rid@,
            sender,
            recipient,
            y_point.log(),
            y.value(),
        ),
{
    let dh_shared = y_point.mul(y);
    proof {
        dh_shared.lemma_range();
    }
    RefreshMask { sid, rid, sender, recipient, dh_shared: &dh_shared }.scalar(tag)
}

/// What is sent to the peer in place `p`: its share plus the mask, modulo the order.
pub open spec fn masked_share<E: RefreshCurve>(
    tag: Seq<char>,
    sid: Seq<u8>,
    rid: Seq<u8>,
    i: u16,
    p: int,
    y_log: nat,
    y: nat,
    share: nat,
) -> nat {
    (share + peer_mask::<E>(tag, sid, rid, i, peer(i as int, p) as u16, y_log, y)) % E::order()
}

/// What a masked share from the peer in place `p` is opened to: the difference to the mask,
/// modulo the order.
pub open spec fn unmasked_share<E: RefreshCurve>(
    tag: Seq<char>,
    sid: Seq<u8>,
    rid: Seq<u8>,
    i: u16,
    p: int,
    y_log: nat,
    y: nat,
    masked: nat,
) -> int {
    (masked - peer_mask::<E>(tag, sid, rid, peer(i as int, p) as u16, i, y_log, y)) % (
    E::order() as int)
}

/// Masks the shares of all peers.
///
/// `y_points` are the points that the peers have published for party `i`, `y` are the secrets
/// of party `i`, one per party, and `shares` are the shares of the peers.
pub fn mask_shares<E: RefreshCurve>(
    tag: &str,
    sid: &[u8],
    rid: &[u8],
    i: u16,
    y_points: &Vec<Point<E>>,
    y: &Vec<Scalar<E>>,
    shares: &Vec<Scalar<E>>,
) -> (msgs: Vec<MsgRound3Unicast<E>>)
    requires
        y.len() == y_points.len() + 1,
        y.len() <= u16::MAX,
        i < y.len(),
        shares.len() == y_points.len(),
    ensures
        msgs.len() == shares.len(),
        forall|p: int|
            0 <= p < msgs.len() ==> (#[trigger] msgs@[p]).c.value() == masked_share::<E>(
                tag@,
                sid@,
                rid@,
                i,
                p,
                y_points@[p].log(),
                y@[peer(i as int, p)].value(),
                shares@[p].value(),
            ),
{
    let mut msgs: Vec<MsgRound3Unicast<E>> = Vec::new();
    let mut p: usize = 0;
    while p < shares.len()
        invariant
            y.len() == y_points.len() + 1,
            y.len() <= u16::MAX,
            i < y.len(),
            shares.len() == y_points.len(),
            p <= shares.len(),
            msgs.len() == p,
            forall|k: int|
                0 <= k < p ==> (#[trigger] msgs@[k]).c.value() == masked_share::<E>(
                    tag@,
                    sid@,
                    rid@,
                    i,
                    k,
                    y_points@[k].log(),
                    y@[peer(i as int, k)].value(),
                    shares@[k].value(),
                ),
        decreases shares.len() - p,
    {
        let j: u16 = peer_index(i, p);
        let mask = compute_mask(tag, sid, rid, i, j, &y_points[p], &y[j as usize]);
        msgs.push(MsgRound3Unicast { c: shares[p].add(&mask) });
        p += 1;
    }
    msgs
}

/// Opens the masked shares of all peers.
///
/// `y_points` are the points that the peers have published for party `i`, and `y` are the
/// secrets of party `i`, one per party.
pub fn unmask_shares<E: RefreshCurve>(
    tag: &str,
    sid: &[u8],
    rid: &[u8],
    i: u16,
    y_points: &Vec<Point<E>>,
    y: &Vec<Scalar<E>>,
    msgs: &Vec<MsgRound3Unicast<E>>,
) -> (shares: Vec<Scalar<E>>)
    requires
        y.len() == y_points.len() + 1,
        y.len() <= u16::MAX,
        i < y.len(),
        msgs.len() == y_points.len(),
    ensures
        shares.len() == msgs.len(),
        scalars_wf(shares@),
        forall|p: int|
            0 <= p < msgs.len() ==> (#[trigger] shares@[p]).value() == unmasked_share::<E>(
                tag@,
                sid@,
                rid@,
                i,
                p,
                y_points@[p].log(),
                y@[peer(i as int, p)].value(),
                msgs@[p].c.value(),
            ),
{
    let mut shares: Vec<Scalar<E>> = Vec::new();
    let mut p: usize = 0;
    while p < msgs.len()
        invariant
            y.len() == y_points.len() + 1,
            y.len() <= u16::MAX,
            i < y.len(),
            msgs.len() == y_points.len(),
            p <= msgs.len(),
            shares.len() == p,
            scalars_wf(shares@),
            forall|k: int|
                0 <= k < p ==> (#[trigger] shares@[k]).value() == unmasked_share::<E>(
                    tag@,
                    sid@,
                    rid@,
                    i,
                    k,
                    y_points@[k].log(),
                    y@[peer(i as int, k)].value(),
                    msgs@[k].c.value(),
                ),
        decreases msgs.len() - p,
    {
        let j: u16 = peer_index(i, p);
        let mask = compute_mask(tag, sid, rid, j, i, &y_points[p], &y[j as usize]);
        shares.push(msgs[p].c.sub(&mask));
        p += 1;
    }
    shares
}

/// A share that was masked on its way from party `i` to party `j`, and opened there, is what
/// was sent, modulo the order: what party `j` opens under its own secret and the point of party
/// `i` is what party `i` masked under its own secret and the point of party `j`.
pub proof fn unmasking_undoes_masking<E: RefreshCurve>(
    tag: Seq<char>,
    sid: Seq<u8>,
    rid: Seq<u8>,
    i: u16,
    j: u16,
    p_of_j: int,
    p_of_i: int,
    y_of_i: nat,
    y_of_j: nat,
    share: nat,
)
    requires
        E::order() > 0,
        i != j,
        peer(i as int, p_of_j) == j,
        peer(j as int, p_of_i) == i,
    ensures
        unmasked_share::<E>(
            tag,
            sid,
            rid,
            j,
            p_of_i,
            y_of_i,
            y_of_j,
            masked_share::<E>(tag, sid, rid, i, p_of_j, y_of_j, y_of_i, share),
        ) == share % E::order(),
{
    both_ends_compute_the_mask::<E>(tag, sid, rid, i, j, y_of_i, y_of_j);
    let q = E::order();
    let mask = peer_mask::<E>(tag, sid, rid, i, j, y_of_j, y_of_i) as int;
    lemma_congruent_mod(share + mask, q);
    crate::modular::lemma_congruent_sub(
        masked_share::<E>(tag, sid, rid, i, p_of_j, y_of_j, y_of_i, share) as int,
        share + mask,
        mask,
        mask,
        q,
    );
}

/// Whether each opened share is not the one that the peer has committed to.
pub open spec fn wrong_shares<E: Curve>(shares: Seq<int>, expected: Seq<int>) -> Seq<bool> {
    Seq::new(shares.len(), |p: int| shares[p] != expected[p])
}

/// Tells for each peer whether its share is not the one that it has committed to.
pub fn check_shares<E: Curve>(
    shares: &Vec<Scalar<E>>,
    expected: &Vec<Point<E>>,
) -> (faulty: Vec<bool>)
    requires
        shares.len() == expected.len(),
    ensures
        faulty@ == wrong_shares::<E>(values(shares@), logs(expected@)),
{
    let mut faulty: Vec<bool> = Vec::new();
    let mut p: usize = 0;
    while p < shares.len()
        invariant
            shares.len() == expected.len(),
            p <= shares.len(),
            faulty.len() == p,
            forall|k: int|
                0 <= k < p ==> #[trigger] faulty@[k] == (shares@[k].value() != expected@[k].log()),
        decreases shares.len() - p,
    {
        let point = Point::generator_mul(&shares[p]);
        faulty.push(!point.equals(&expected[p]));
        p += 1;
    }
    assert(faulty@ =~= wrong_shares::<E>(values(shares@), logs(expected@)));
    faulty
}

/// The challenge for the proof of a party that it knows the logarithm of `x`.
pub open spec fn pok_challenge<E: RefreshCurve>(
    tag: Seq<char>,
    sid: Seq<u8>,
    prover: u16,
    rid: Seq<u8>,
    x: Point<E>,
    sch_commit: Point<E>,
) -> nat {
    E::schnorr_digest(tag, sid, prover, rid, x.encoding(), sch_commit.encoding())
}

/// Whether there is a Schnorr proof for each point but the first `skip`, and all of them hold.
pub open spec fn proofs_hold<E: RefreshCurve>(
    tag: Seq<char>,
    sid: Seq<u8>,
    prover: u16,
    rid: Seq<u8>,
    points: Seq<Point<E>>,
    skip: int,
    sch_commits: Seq<Point<E>>,
    proofs: Seq<Scalar<E>>,
) -> bool {
    &&& proofs.len() == sch_commits.len()
    &&& points.len() == skip + sch_commits.len()
    &&& forall|k: int|
        0 <= k < proofs.len() ==> schnorr_holds(
            #[trigger] proofs[k],
            sch_commits[k],
            pok_challenge(tag, sid, prover, rid, points[skip + k], sch_commits[k]),
            points[skip + k],
        )
}

/// Whether each proof is the answer to its challenge: the nonce plus the challenge times the
/// secret, modulo the order.
pub open spec fn proofs_answer<E: RefreshCurve>(
    tag: Seq<char>,
    sid: Seq<u8>,
    prover: u16,
    rid: Seq<u8>,
    points: Seq<Point<E>>,
    skip: int,
    sch_commits: Seq<Point<E>>,
    nonces: Seq<int>,
    secrets: Seq<int>,
    proofs: Seq<Scalar<E>>,
) -> bool {
    &&& proofs.len() == sch_commits.len()
    &&& forall|k: int|
        0 <= k < proofs.len() ==> (#[trigger] proofs[k]).value() == (nonces[k] + pok_challenge(
            tag,
            sid,
            prover,
            rid,
            points[skip + k],
            sch_commits[k],
        ) * secrets[skip + k]) % (E::order() as int)
}

/// Proves knowledge of the logarithms of all points but the first `skip`.
pub fn prove_all<E: RefreshCurve>(
    tag: &str,
    sid: &[u8],
    prover: u16,
    rid: &[u8],
    points: &Vec<Point<E>>,
    skip: usize,
    sch_commits: &Vec<Point<E>>,
    nonces: &Vec<Scalar<E>>,
    secrets: &Vec<Scalar<E>>,
) -> (proofs: Vec<Scalar<E>>)
    requires
        points.len() == skip + sch_commits.len(),
        nonces.len() == sch_commits.len(),
        secrets.len() == points.len(),
    ensures
        proofs_answer(
            tag@,
            sid@,
            prover,
            rid@,
            points@,
            skip as int,
            sch_commits@,
            values(nonces@),
            values(secrets@),
            proofs@,
        ),
{
    let mut proofs: Vec<Scalar<E>> = Vec::new();
    let mut k: usize = 0;
    while k < sch_commits.len()
        invariant
            points.len() == skip + sch_commits.len(),
            nonces.len() == sch_commits.len(),
            secrets.len() == points.len(),
            k <= sch_commits.len(),
            proofs.len() == k,
            forall|m: int|
                0 <= m < k ==> (#[trigger] proofs@[m]).value() == (values(nonces@)[m]
                    + pok_challenge(
                    tag@,
                    sid@,
                    prover,
                    rid@,
                    points@[skip + m],
                    sch_commits@[m],
                ) * values(secrets@)[skip + m]) % (E::order() as int),
        decreases sch_commits.len() - k,
    {
        let challenge = SchnorrPok {
            sid,
            prover,
            rid,
            X: &points[skip + k],
            sch_commit: &sch_commits[k],
        }.scalar(tag);
        let secret = &secrets[skip + k];
        let proof = schnorr_prove(&nonces[k], &challenge, secret);
        assert((challenge.value() * secret.value()) as int == challenge.value() * (
        secret.value() as int));
        proofs.push(proof);
        k += 1;
    }
    proofs
}

/// Tells whether all Schnorr proofs of a party hold.
pub fn check_proofs<E: RefreshCurve>(
    tag: &str,
    sid: &[u8],
    prover: u16,
    rid: &[u8],
    points: &Vec<Point<E>>,
    skip: usize,
    sch_commits: &Vec<Point<E>>,
    proofs: &Vec<Scalar<E>>,
) -> (valid: bool)
    requires
        skip <= points.len(),
    ensures
        valid == proofs_hold(
            tag@,
            sid@,
            prover,
            rid@,
            points@,
            skip as int,
            sch_commits@,
            proofs@,
        ),
{
    if proofs.len() != sch_commits.len() || points.len() - skip != sch_commits.len() {
        return false;
    }
    let mut k: usize = 0;
    while k < proofs.len()
        invariant
            points.len() == skip + sch_commits.len(),
            proofs.len() == sch_commits.len(),
            k <= proofs.len(),
            forall|m: int|
                0 <= m < k ==> schnorr_holds(
                    #[trigger] proofs@[m],
                    sch_commits@[m],
                    pok_challenge(
                        tag@,
                        sid@,
                        prover,
                        rid@,
                        points@[skip + m],
                        sch_commits@[m],
                    ),
                    points@[skip + m],
                ),
        decreases proofs.len() - k,
    {
        let x = &points[skip + k];
        let challenge = SchnorrPok { sid, prover, rid, X: x, sch_commit: &sch_commits[k] }.scalar(
            tag,
        );
        if !schnorr_verify(&proofs[k], &sch_commits[k], &challenge, x) {
            assert(!schnorr_holds(
                proofs@[k as int],
                sch_commits@[k as int],
                pok_challenge(
                    tag@,
                    sid@,
                    prover,
                    rid@,
                    points@[skip + k],
                    sch_commits@[k as int],
                ),
                points@[skip + k],
            ));
            return false;
        }
        k += 1;
    }
    true
}

/// The proofs of a party that knows the logarithms and the nonces hold.
pub proof fn honest_proofs_hold<E: RefreshCurve>(
    tag: Seq<char>,
    sid: Seq<u8>,
    prover: u16,
    rid: Seq<u8>,
    points: Seq<Point<E>>,
    skip: int,
    sch_commits: Seq<Point<E>>,
    nonces: Seq<int>,
    secrets: Seq<int>,
    proofs: Seq<Scalar<E>>,
)
    requires
        E::order() > 0,
        0 <= skip,
        points.len() == skip + sch_commits.len(),
        logs(points) == secrets,
        logs(sch_commits) == nonces,
        proofs_answer(
            tag,
            sid,
            prover,
            rid,
            points,
            skip,
            sch_commits,
            nonces,
            secrets,
            proofs,
        ),
    ensures
        proofs_hold(tag, sid, prover, rid, points, skip, sch_commits, proofs),
{
    assert forall|k: int| 0 <= k < proofs.len() implies schnorr_holds(
        #[trigger] proofs[k],
        sch_commits[k],
        pok_challenge(tag, sid, prover, rid, points[skip + k], sch_commits[k]),
        points[skip + k],
    ) by {
        let e = pok_challenge(tag, sid, prover, rid, points[skip + k], sch_commits[k]);
        assert(secrets[skip + k] == points[skip + k].log());
        assert(nonces[k] == sch_commits[k].log());
        assert(e * (points[skip + k].log() as int) == (e * points[skip + k].log()) as int);
        lemma_congruent_mod(nonces[k] + e * secrets[skip + k], E::order());
    }
}

/// The logarithms of rows of points.
pub open spec fn row_logs<E: Curve>(rows: Seq<Vec<Point<E>>>) -> Seq<Seq<int>> {
    Seq::new(rows.len(), |j: int| logs(rows[j]@))
}

/// The elements in place `k` of all rows.
pub open spec fn column(rows: Seq<Seq<int>>, k: int) -> Seq<int> {
    Seq::new(rows.len(), |j: int| rows[j][k])
}

/// What becomes of `base` when each row is added to it.
pub open spec fn refreshed(base: Seq<int>, rows: Seq<Seq<int>>) -> Seq<int> {
    Seq::new(base.len(), |k: int| base[k] + sum(column(rows, k)))
}

/// The remainders of a sequence.
pub open spec fn reduced(s: Seq<int>, q: nat) -> Seq<int> {
    Seq::new(s.len(), |k: int| s[k] % (q as int))
}

/// The public shares with the contributions of all parties added.
pub fn refresh_public_shares<E: Curve>(
    base: &Vec<Point<E>>,
    rows: &Vec<Vec<Point<E>>>,
) -> (shares: Vec<Point<E>>)
    requires
        forall|j: int| 0 <= j < rows.len() ==> (#[trigger] rows@[j]).len() == base.len(),
    ensures
        points_wf(shares@),
        shares.len() == base.len(),
        logs(shares@) == reduced(refreshed(logs(base@), row_logs(rows@)), E::order()),
{
    let ghost base_logs = logs(base@);
    let ghost rows_logs = row_logs(rows@);
    let ghost target = reduced(refreshed(base_logs, rows_logs), E::order());
    let mut shares: Vec<Point<E>> = Vec::new();
    let mut k: usize = 0;
    while k < base.len()
        invariant
            k <= base.len(),
            base_logs == logs(base@),
            rows_logs == row_logs(rows@),
            target == reduced(refreshed(base_logs, rows_logs), E::order()),
            forall|j: int| 0 <= j < rows.len() ==> (#[trigger] rows@[j]).len() == base.len(),
            shares.len() == k,
            points_wf(shares@),
            forall|m: int| 0 <= m < k ==> (#[trigger] shares@[m]).log() == target[m],
        decreases base.len() - k,
    {
        let mut parts: Vec<Point<E>> = Vec::new();
        let mut j: usize = 0;
        while j < rows.len()
            invariant
                j <= rows.len(),
                k < base.len(),
                rows_logs == row_logs(rows@),
                forall|j: int| 0 <= j < rows.len() ==> (#[trigger] rows@[j]).len() == base.len(),
                parts.len() == j,
                forall|m: int|
                    0 <= m < j ==> (#[trigger] parts@[m]).log() == rows_logs[m][k as int],
            decreases rows.len() - j,
        {
            assert(rows@[j as int].len() == base.len());
            let part = rows[j][k].copy();
            assert(rows_logs[j as int][k as int] == part.log());
            parts.push(part);
            j += 1;
        }
        let delta = sum_points(&parts);
        proof {
            let col = column(rows_logs, k as int);
            assert(logs(parts@) =~= col);
            let q = E::order();
            let b = base_logs[k as int];
            delta.lemma_range();
            lemma_congruent_mod(sum(col), q);
            lemma_congruent_add(b, b, delta.log() as int, sum(col), q);
        }
        shares.push(base[k].add(&delta));
        k += 1;
    }
    assert(logs(shares@) =~= target);
    shares
}

/// The sum of element-wise sums is the sum of the sums.
proof fn lemma_sum_add(a: Seq<int>, b: Seq<int>)
    requires
        a.len() == b.len(),
    ensures
        sum(Seq::new(a.len(), |k: int| a[k] + b[k])) == sum(a) + sum(b),
    decreases a.len(),
{
    let c = Seq::new(a.len(), |k: int| a[k] + b[k]);
    if a.len() > 0 {
        lemma_sum_add(a.drop_last(), b.drop_last());
        assert(c.drop_last() =~= Seq::new(
            (a.len() - 1) as nat,
            |k: int| a.drop_last()[k] + b.drop_last()[k],
        ));
    }
}

/// Adding rows that each sum up to zero changes a sum by nothing, modulo `q`.
pub proof fn zero_rows_keep_the_sum(base: Seq<int>, rows: Seq<Seq<int>>, q: nat)
    requires
        q > 0,
        forall|j: int|
            0 <= j < rows.len() ==> (#[trigger] rows[j]).len() == base.len() && congruent(
                sum(rows[j]),
                0,
                q,
            ),
    ensures
        congruent(sum(refreshed(base, rows)), sum(base), q),
    decreases rows.len(),
{
    if rows.len() == 0 {
        assert(refreshed(base, rows) =~= base) by {
            assert forall|k: int| 0 <= k < base.len() implies sum(column(rows, k)) == 0 by {
                assert(column(rows, k) =~= Seq::<int>::empty());
            }
        }
    } else {
        let before = rows.drop_last();
        let last = rows.last();
        assert(last == rows[rows.len() - 1]);
        assert forall|j: int| 0 <= j < before.len() implies (#[trigger] before[j]).len()
            == base.len() && congruent(sum(before[j]), 0, q) by {
            assert(before[j] == rows[j]);
        }
        zero_rows_keep_the_sum(base, before, q);
        let a = refreshed(base, before);
        lemma_refreshed_step(base, rows);
        lemma_sum_add(a, last);
        assert(refreshed(base, rows) =~= Seq::new(a.len(), |k: int| a[k] + last[k]));
        lemma_congruent_add(sum(a), sum(base), sum(last), 0, q);
    }
}

/// The last row is added to what the rows before it make.
proof fn lemma_refreshed_step(base: Seq<int>, rows: Seq<Seq<int>>)
    requires
        rows.len() > 0,
    ensures
        forall|k: int|
            0 <= k < base.len() ==> #[trigger] refreshed(base, rows)[k] == refreshed(
                base,
                rows.drop_last(),
            )[k] + rows.last()[k],
{
    assert forall|k: int| 0 <= k < base.len() implies #[trigger] refreshed(base, rows)[k]
        == refreshed(base, rows.drop_last())[k] + rows.last()[k] by {
        assert(column(rows, k).drop_last() =~= column(rows.drop_last(), k));
    }
}

/// The coefficients of the sum of a polynomial and others with equally many coefficients.
pub open spec fn poly_sum(f: Seq<int>, polynomials: Seq<Seq<int>>) -> Seq<int>
    decreases polynomials.len(),
{
    if polynomials.len() == 0 {
        f
    } else {
        poly_add(poly_sum(f, polynomials.drop_last()), polynomials.last())
    }
}

/// Adding the values of polynomials that are zero at zero turns shares of a secret into other
/// shares of the same secret: if the polynomial `f` shares `secret` as `base` at `xs`, with `t`
/// coefficients, then `f` plus all `polynomials` shares the same secret, as `base` with the
/// values of all `polynomials` added.
pub proof fn zero_polynomials_keep_the_secret(
    f: Seq<int>,
    xs: Seq<int>,
    base: Seq<int>,
    polynomials: Seq<Seq<int>>,
    rows: Seq<Seq<int>>,
    t: nat,
    secret: int,
    q: nat,
)
    requires
        q > 0,
        t > 0,
        base.len() == xs.len(),
        sharing(f, xs, base, t, secret, q),
        rows.len() == polynomials.len(),
        forall|j: int|
            0 <= j < polynomials.len() ==> (#[trigger] polynomials[j]).len() == t && congruent(
                polynomials[j][0],
                0,
                q,
            ),
        forall|j: int, k: int|
            0 <= j < rows.len() && 0 <= k < xs.len() ==> congruent(
                #[trigger] rows[j][k],
                eval(polynomials[j], xs[k]),
                q,
            ),
    ensures
        sharing(poly_sum(f, polynomials), xs, refreshed(base, rows), t, secret, q),
    decreases rows.len(),
{
    if rows.len() == 0 {
        assert(refreshed(base, rows) =~= base) by {
            assert forall|k: int| 0 <= k < base.len() implies sum(column(rows, k)) == 0 by {
                assert(column(rows, k) =~= Seq::<int>::empty());
            }
        }
    } else {
        let last = rows.len() - 1;
        let p = polynomials[last];
        let before_rows = rows.drop_last();
        let before_polys = polynomials.drop_last();
        assert forall|j: int| 0 <= j < before_polys.len() implies (
        #[trigger] before_polys[j]).len() == t && congruent(before_polys[j][0], 0, q) by {
            assert(before_polys[j] == polynomials[j]);
        }
        assert forall|j: int, k: int|
            0 <= j < before_rows.len() && 0 <= k < xs.len() implies congruent(
            #[trigger] before_rows[j][k],
            eval(before_polys[j], xs[k]),
            q,
        ) by {
            assert(before_rows[j][k] == rows[j][k]);
            assert(congruent(rows[j][k], eval(polynomials[j], xs[k]), q));
        }
        zero_polynomials_keep_the_secret(
            f,
            xs,
            base,
            before_polys,
            before_rows,
            t,
            secret,
            q,
        );
        let a = refreshed(base, before_rows);
        let g = poly_sum(f, before_polys);
        let after = refreshed(base, rows);
        lemma_refreshed_step(base, rows);
        lemma_eval_add(g, p, 0);
        lemma_eval_at_zero(p);
        assert(congruent(p[0], 0, q));
        lemma_congruent_add(eval(g, 0), secret, eval(p, 0), 0, q);
        assert forall|k: int| 0 <= k < xs.len() implies congruent(
            eval(poly_add(g, p), #[trigger] xs[k]),
            after[k],
            q,
        ) by {
            lemma_eval_add(g, p, xs[k]);
            assert(congruent(eval(g, xs[k]), a[k], q));
            assert(congruent(rows[last][k], eval(p, xs[k]), q));
            lemma_congruent_add(eval(g, xs[k]), a[k], eval(p, xs[k]), rows[last][k], q);
            assert(after[k] == a[k] + rows.last()[k]);
        }
    }
}

/// The value of a sum of polynomials is the sum of the values.
proof fn lemma_eval_poly_sum(f: Seq<int>, polynomials: Seq<Seq<int>>, x: int)
    requires
        forall|j: int| 0 <= j < polynomials.len() ==> (#[trigger] polynomials[j]).len() == f.len(),
    ensures
        poly_sum(f, polynomials).len() == f.len(),
        eval(poly_sum(f, polynomials), x) == eval(f, x) + sum(values_at(polynomials, x)),
    decreases polynomials.len(),
{
    if polynomials.len() > 0 {
        let before = polynomials.drop_last();
        assert forall|j: int| 0 <= j < before.len() implies (#[trigger] before[j]).len()
            == f.len() by {
            assert(before[j] == polynomials[j]);
        }
        lemma_eval_poly_sum(f, before, x);
        assert(polynomials.last() == polynomials[polynomials.len() - 1]);
        lemma_eval_add(poly_sum(f, before), polynomials.last(), x);
        assert(values_at(polynomials, x).drop_last() =~= values_at(before, x));
    }
}

/// The values of polynomials at `x`.
pub open spec fn values_at(polynomials: Seq<Seq<int>>, x: int) -> Seq<int> {
    Seq::new(polynomials.len(), |j: int| eval(polynomials[j], x))
}

/// A shareholder who is left out of a refresh keeps a share of the old polynomial `f`. It is no
/// share of the new one, unless all `polynomials` that are added cancel at its evaluation point.
pub proof fn share_left_out_does_not_fit(
    f: Seq<int>,
    polynomials: Seq<Seq<int>>,
    x: int,
    share: int,
    q: nat,
)
    requires
        q > 0,
        forall|j: int| 0 <= j < polynomials.len() ==> (#[trigger] polynomials[j]).len() == f.len(),
        congruent(eval(f, x), share, q),
    ensures
        congruent(eval(poly_sum(f, polynomials), x), share, q) <==> congruent(
            sum(values_at(polynomials, x)),
            0,
            q,
        ),
{
    lemma_eval_poly_sum(f, polynomials, x);
    let added = sum(values_at(polynomials, x));
    let value = eval(f, x);
    lemma_congruent_difference(value + added, value, q);
}

/// The refreshed secret share: the old one, the contributions of the peers and one's own,
/// modulo the order.
pub open spec fn refreshed_secret(x: int, contributions: Seq<int>, own: int, q: nat) -> int {
    (x + sum(contributions) + own) % (q as int)
}

/// What a refreshed share of party `i` is, and when there is none: the secret or a public share
/// would be zero.
pub open spec fn is_refreshed_share<E: RefreshCurve>(
    result: Result<IncompleteKeyShare<E>, KeyRefreshError>,
    old: DirtyIncompleteKeyShare<E>,
    i: u16,
    vss_setup: Option<VssSetup<E>>,
    secret: int,
    public_shares: Seq<int>,
) -> bool {
    if secret == 0 {
        result matches Err(KeyRefreshError(Reason::Bug(Bug::ZeroSecret)))
    } else if !nonzero(public_shares) {
        result matches Err(KeyRefreshError(Reason::Bug(Bug::ZeroPublic)))
    } else {
        result matches Ok(share) && {
            &&& share.inner().valid()
            &&& share.inner().i == i
            &&& share.inner().x.value() == secret
            &&& share.inner().key_info.shared_public_key.log()
                == old.key_info.shared_public_key.log()
            &&& logs(share.inner().key_info.public_shares@) == public_shares
            &&& share.inner().key_info.vss_setup == vss_setup
            &&& share.inner().key_info.chain_code == old.key_info.chain_code
        }
    }
}

/// Whether refreshed public shares still share the public key, as the setup says: they add up
/// to it, or they lie on a polynomial that takes it at zero.
pub open spec fn still_share_the_key<E: RefreshCurve>(
    public_shares: Seq<int>,
    vss_setup: Option<VssSetup<E>>,
    pk: int,
) -> bool {
    match vss_setup {
        None => congruent(sum(public_shares), pk, E::order()),
        Some(vss) => {
            &&& vss.I.len() == public_shares.len()
            &&& 2 <= vss.min_signers <= public_shares.len()
            &&& nonzero(values(vss.I@))
            &&& distinct(values(vss.I@))
            &&& shares_of(
                values(vss.I@),
                public_shares,
                vss.min_signers as nat,
                pk,
                E::order(),
            )
        },
    }
}

/// Reducing public shares modulo the order does not change what they share.
proof fn lemma_reduced_still_share<E: RefreshCurve>(
    public_shares: Seq<int>,
    vss_setup: Option<VssSetup<E>>,
    pk: int,
)
    requires
        E::order() > 0,
        still_share_the_key(public_shares, vss_setup, pk),
    ensures
        still_share_the_key(reduced(public_shares, E::order()), vss_setup, pk),
{
    let q = E::order();
    let small = reduced(public_shares, q);
    match vss_setup {
        None => {
            lemma_sum_reduced(public_shares, q);
        },
        Some(vss) => {
            let xs = values(vss.I@);
            let t = vss.min_signers as nat;
            let f = choose|f: Seq<int>| #[trigger] sharing(f, xs, public_shares, t, pk, q);
            assert forall|k: int| 0 <= k < xs.len() implies congruent(
                eval(f, #[trigger] xs[k]),
                small[k],
                q,
            ) by {
                assert(congruent(eval(f, xs[k]), public_shares[k], q));
                lemma_congruent_mod(public_shares[k], q);
            }
            assert(sharing(f, xs, small, t, pk, q));
        },
    }
}

proof fn lemma_sum_reduced(s: Seq<int>, q: nat)
    requires
        q > 0,
    ensures
        congruent(sum(reduced(s, q)), sum(s), q),
    decreases s.len(),
{
    if s.len() > 0 {
        lemma_sum_reduced(s.drop_last(), q);
        assert(reduced(s, q).drop_last() =~= reduced(s.drop_last(), q));
        lemma_congruent_mod(s.last(), q);
        lemma_congruent_add(
            sum(reduced(s.drop_last(), q)),
            sum(s.drop_last()),
            s.last() % (q as int),
            s.last(),
            q,
        );
    }
}

/// Makes the refreshed key share of party `i`.
///
/// `base` are the public shares of the parties and `rows` what each party adds to them;
/// `contributions` are what the peers add to the secret share and `own` what the party itself
/// adds.
pub fn refresh_share<E: RefreshCurve>(
    old: &DirtyIncompleteKeyShare<E>,
    i: u16,
    vss_setup: Option<VssSetup<E>>,
    base: &Vec<Point<E>>,
    rows: &Vec<Vec<Point<E>>>,
    contributions: &Vec<Scalar<E>>,
    own: &Scalar<E>,
) -> (result: Result<IncompleteKeyShare<E>, KeyRefreshError>)
    requires
        old.key_info.shared_public_key.log() != 0,
        i < base.len() <= u16::MAX,
        forall|j: int| 0 <= j < rows.len() ==> (#[trigger] rows@[j]).len() == base.len(),
        still_share_the_key(
            refreshed(logs(base@), row_logs(rows@)),
            vss_setup,
            old.key_info.shared_public_key.log() as int,
        ),
        congruent(
            old.x.value() + sum(values(contributions@)) + own.value(),
            refreshed(logs(base@), row_logs(rows@))[i as int],
            E::order(),
        ),
    ensures
        is_refreshed_share(
            result,
            *old,
            i,
            vss_setup,
            refreshed_secret(
                old.x.value() as int,
                values(contributions@),
                own.value() as int,
                E::order(),
            ),
            reduced(refreshed(logs(base@), row_logs(rows@)), E::order()),
        ),
{
    let delta = sum_scalars(contributions).add(own);
    let x = old.x.add(&delta);
    let ghost new_publics = reduced(refreshed(logs(base@), row_logs(rows@)), E::order());
    let ghost pk = old.key_info.shared_public_key.log() as int;
    proof {
        let q = E::order();
        let total = sum(values(contributions@));
        let o = own.value() as int;
        let xv = old.x.value() as int;
        x.lemma_range();
        delta.lemma_range();
        lemma_congruent_mod(total, q);
        lemma_congruent_add(total % (q as int), total, o, o, q);
        lemma_congruent_mod(total % (q as int) + o, q);
        lemma_congruent_add(xv, xv, delta.value() as int, total + o, q);
        assert(xv + (total + o) == xv + total + o);
        assert(x.value() == refreshed_secret(xv, values(contributions@), o, q));
        lemma_reduced_still_share(refreshed(logs(base@), row_logs(rows@)), vss_setup, pk);
    }
    if x.is_zero() {
        return Err(KeyRefreshError::from(Bug::ZeroSecret));
    }
    let public_shares = refresh_public_shares(base, rows);
    if !points_nonzero(&public_shares) {
        return Err(KeyRefreshError::from(Bug::ZeroPublic));
    }
    let share = DirtyIncompleteKeyShare {
        i,
        x,
        key_info: DirtyKeyInfo {
            shared_public_key: old.key_info.shared_public_key.copy(),
            public_shares,
            vss_setup,
            chain_code: old.key_info.chain_code,
        },
    };
    proof {
        assert(logs(share.key_info.public_shares@)[i as int] == new_publics[i as int]);
        assert(new_publics.len() == base.len());
        assert(share.x.value() == share.key_info.public_shares@[i as int].log());
        assert(share.key_info.problem() is None);
        assert(share.valid());
    }
    match share.validate() {
        Ok(share) => Ok(share),
        Err(error) => Err(KeyRefreshError::from(Bug::Invalid(error))),
    }
}

/// Random scalars that are not zero.
pub fn random_scalars<E: Curve>(len: usize) -> (scalars: Vec<Scalar<E>>)
    ensures
        scalars.len() == len,
        scalars_wf(scalars@),
        nonzero(values(scalars@)),
{
    let mut scalars: Vec<Scalar<E>> = Vec::new();
    while scalars.len() < len
        invariant
            scalars.len() <= len,
            scalars_wf(scalars@),
            nonzero(values(scalars@)),
        decreases len - scalars.len(),
    {
        let ghost before = values(scalars@);
        let scalar = Scalar::random();
        scalars.push(scalar);
        assert(values(scalars@) =~= before.push(scalar.value() as int));
    }
    scalars
}

/// The scalars of all peers of party `i`.
pub fn of_peers<E: Curve>(scalars: &Vec<Scalar<E>>, i: u16) -> (peers: Vec<Scalar<E>>)
    requires
        i < scalars.len() <= u16::MAX,
    ensures
        peers.len() == scalars.len() - 1,
        forall|p: int|
            0 <= p < peers.len() ==> (#[trigger] peers@[p]).value() == scalars@[peer(
                i as int,
                p,
            )].value(),
{
    let mut peers: Vec<Scalar<E>> = Vec::new();
    let mut p: usize = 0;
    while p < scalars.len() - 1
        invariant
            i < scalars.len() <= u16::MAX,
            p <= scalars.len() - 1,
            peers.len() == p,
            forall|k: int|
                0 <= k < p ==> (#[trigger] peers@[k]).value() == scalars@[peer(
                    i as int,
                    k,
                )].value(),
        decreases scalars.len() - p,
    {
        peers.push(scalars[peer_index(i, p) as usize].copy());
        p += 1;
    }
    peers
}

} // verus!
