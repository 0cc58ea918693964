//! The steps that the two protocols share.
use crate::bytes::byte_views;
use crate::curve::{logs, values, Curve, Point, Scalar};
use crate::laws::arithmetic::{congruent_means_divisible, sum_is_total, total};
use crate::laws::blame::seat;
use crate::modular::{congruent, lemma_congruent_add, lemma_congruent_mod, lemma_congruent_sub};
use crate::refresh_curve::{schnorr_holds, RefreshCurve};
use crate::rounds::{
    all_commitments, check_proofs, check_shares, column, compare_echoes, mask_shares, of_peers,
    pok_challenge, prove_all, random_scalars, reduced, refresh_public_shares, refreshed, row_logs,
    unmask_shares, MsgReliabilityCheck, MsgRound1, MsgRound3Unicast,
};
use crate::utils::{peer, sum};
use vstd::prelude::*;

verus! {

/// Whether a Schnorr proof holds: the proof times the generator is the commitment plus the
/// challenge for the point and the commitment, times the point.
pub open spec fn proof_holds<E: RefreshCurve>(
    tag: Seq<char>,
    sid: Seq<u8>,
    prover: u16,
    rid: Seq<u8>,
    x: Point<E>,
    sch_commit: Point<E>,
    proof: Scalar<E>,
) -> bool {
    let e = E::schnorr_digest(tag, sid, prover, rid, x.encoding(), sch_commit.encoding()) as int;
    (proof.value() - sch_commit.log() - e * x.log()) % (E::order() as int) == 0
}

/// The two ways to say that a proof holds.
pub proof fn lemma_proof_holds<E: RefreshCurve>(
    tag: Seq<char>,
    sid: Seq<u8>,
    prover: u16,
    rid: Seq<u8>,
    x: Point<E>,
    sch_commit: Point<E>,
    proof: Scalar<E>,
)
    requires
        E::order() > 0,
    ensures
        proof_holds(tag, sid, prover, rid, x, sch_commit, proof)
            == schnorr_holds(
            proof,
            sch_commit,
            pok_challenge(tag, sid, prover, rid, x, sch_commit),
            x,
        ),
{
    let e = E::schnorr_digest(tag, sid, prover, rid, x.encoding(), sch_commit.encoding());
    let right = sch_commit.log() + (e * x.log()) as int;
    congruent_means_divisible(proof.value() as int, right, E::order());
    assert(proof.value() - right == proof.value() - sch_commit.log() - (e as int) * x.log());
}

/// Every proof is looked at: a party passes only if it gives one proof for each commitment and
/// each point but the first `skip`, and whichever of them is picked, it holds.
pub proof fn each_proof_counts<E: RefreshCurve>(
    tag: &str,
    sid: &[u8],
    prover: u16,
    rid: &[u8],
    points: &Vec<Point<E>>,
    skip: usize,
    sch_commits: &Vec<Point<E>>,
    proofs: &Vec<Scalar<E>>,
    valid: bool,
    k: int,
)
    requires
        E::order() > 0,
        skip <= points.len(),
        call_ensures(
            check_proofs::<E>,
            (tag, sid, prover, rid, points, skip, sch_commits, proofs),
            valid,
        ),
    ensures
        proofs.len() != sch_commits.len() ==> !valid,
        points.len() != skip + sch_commits.len() ==> !valid,
        0 <= k < proofs.len() && !proof_holds(
            tag@,
            sid@,
            prover,
            rid@,
            points@[skip + k],
            sch_commits@[k],
            proofs@[k],
        ) ==> !valid,
{
    lemma_proof_holds(
        tag@,
        sid@,
        prover,
        rid@,
        points@[skip + k],
        sch_commits@[k],
        proofs@[k],
    );
    if valid && 0 <= k < proofs.len() {
        let proof = proofs@[k];
    }
}

/// A party all of whose proofs hold passes.
pub proof fn right_proofs_pass<E: RefreshCurve>(
    tag: &str,
    sid: &[u8],
    prover: u16,
    rid: &[u8],
    points: &Vec<Point<E>>,
    skip: usize,
    sch_commits: &Vec<Point<E>>,
    proofs: &Vec<Scalar<E>>,
    valid: bool,
)
    requires
        E::order() > 0,
        call_ensures(
            check_proofs::<E>,
            (tag, sid, prover, rid, points, skip, sch_commits, proofs),
            valid,
        ),
        proofs.len() == sch_commits.len(),
        points.len() == skip + sch_commits.len(),
        forall|k: int|
            0 <= k < proofs.len() ==> proof_holds(
                tag@,
                sid@,
                prover,
                rid@,
                points@[skip + k],
                sch_commits@[k],
                #[trigger] proofs@[k],
            ),
    ensures
        valid,
{
    assert forall|k: int| 0 <= k < proofs.len() implies schnorr_holds(
        #[trigger] proofs@[k],
        sch_commits@[k],
        pok_challenge(
            tag@,
            sid@,
            prover,
            rid@,
            points@[skip + k],
            sch_commits@[k],
        ),
        points@[skip + k],
    ) by {
        lemma_proof_holds(
            tag@,
            sid@,
            prover,
            rid@,
            points@[skip + k],
            sch_commits@[k],
            proofs@[k],
        );
    }
}

/// What a party proves, it is believed: where it knows the logarithms of its points and of its
/// commitments, each of its proofs holds.
pub proof fn each_proof_made_holds<E: RefreshCurve>(
    tag: &str,
    sid: &[u8],
    prover: u16,
    rid: &[u8],
    points: &Vec<Point<E>>,
    skip: usize,
    sch_commits: &Vec<Point<E>>,
    nonces: &Vec<Scalar<E>>,
    secrets: &Vec<Scalar<E>>,
    proofs: Vec<Scalar<E>>,
    k: int,
)
    requires
        E::order() > 0,
        points.len() == skip + sch_commits.len(),
        nonces.len() == sch_commits.len(),
        secrets.len() == points.len(),
        call_ensures(
            prove_all::<E>,
            (tag, sid, prover, rid, points, skip, sch_commits, nonces, secrets),
            proofs,
        ),
        0 <= k < sch_commits.len(),
        points@[skip + k].log() == secrets@[skip + k].value(),
        sch_commits@[k].log() == nonces@[k].value(),
    ensures
        proofs.len() == sch_commits.len(),
        proof_holds(
            tag@,
            sid@,
            prover,
            rid@,
            points@[skip + k],
            sch_commits@[k],
            proofs@[k],
        ),
{
    let e = E::schnorr_digest(
        tag@,
        sid@,
        prover,
        rid@,
        points@[skip + k].encoding(),
        sch_commits@[k].encoding(),
    );
    let x = points@[skip + k].log();
    assert(values(nonces@)[k] == nonces@[k].value());
    assert(values(secrets@)[skip + k] == secrets@[skip + k].value());
    assert(proofs@[k].value() == (nonces@[k].value() + e * (x as int)) % (E::order() as int));
    lemma_congruent_mod(nonces@[k].value() + e * (x as int), E::order());
    congruent_means_divisible(
        proofs@[k].value() as int,
        nonces@[k].value() + e * (x as int),
        E::order(),
    );
}

/// The mask between a sender and a recipient, where one of them knows `y` and the other one has
/// published `point`.
pub open spec fn mask_between<E: RefreshCurve>(
    tag: Seq<char>,
    sid: Seq<u8>,
    rid: Seq<u8>,
    sender: u16,
    recipient: u16,
    point: Point<E>,
    y: Scalar<E>,
) -> int {
    E::mask_digest(
        tag,
        sid,
        rid,
        sender,
        recipient,
        E::encoding((point.log() * y.value()) % E::order()),
    ) as int
}

/// Each peer is sent its own share, plus the mask from the party to that peer.
pub proof fn each_peer_is_sent_its_share<E: RefreshCurve>(
    tag: &str,
    sid: &[u8],
    rid: &[u8],
    i: u16,
    y_points: &Vec<Point<E>>,
    y: &Vec<Scalar<E>>,
    shares: &Vec<Scalar<E>>,
    msgs: Vec<MsgRound3Unicast<E>>,
    j: u16,
)
    requires
        E::order() > 0,
        y.len() == y_points.len() + 1,
        y.len() <= u16::MAX,
        i < y.len(),
        shares.len() == y_points.len(),
        call_ensures(mask_shares::<E>, (tag, sid, rid, i, y_points, y, shares), msgs),
        j < y.len(),
        j != i,
    ensures
        msgs.len() == shares.len(),
        congruent(
            msgs@[seat(i as int, j as int)].c.value() - mask_between(
                tag@,
                sid@,
                rid@,
                i,
                j,
                y_points@[seat(i as int, j as int)],
                y@[j as int],
            ),
            shares@[seat(i as int, j as int)].value() as int,
            E::order(),
        ),
{
    let p = seat(i as int, j as int);
    let mask = mask_between(tag@, sid@, rid@, i, j, y_points@[p], y@[j as int]);
    let share = shares@[p].value() as int;
    assert(peer(i as int, p) == j);
    assert(msgs@[p].c.value() == (share + mask) % (E::order() as int));
    lemma_congruent_mod(share + mask, E::order());
    lemma_congruent_sub(
        msgs@[p].c.value() as int,
        share + mask,
        mask,
        mask,
        E::order(),
    );
}

/// From each peer comes what it has sent, less the mask from that peer to the party.
pub proof fn each_share_is_opened<E: RefreshCurve>(
    tag: &str,
    sid: &[u8],
    rid: &[u8],
    i: u16,
    y_points: &Vec<Point<E>>,
    y: &Vec<Scalar<E>>,
    msgs: &Vec<MsgRound3Unicast<E>>,
    shares: Vec<Scalar<E>>,
    j: u16,
)
    requires
        E::order() > 0,
        y.len() == y_points.len() + 1,
        y.len() <= u16::MAX,
        i < y.len(),
        msgs.len() == y_points.len(),
        call_ensures(unmask_shares::<E>, (tag, sid, rid, i, y_points, y, msgs), shares),
        j < y.len(),
        j != i,
    ensures
        shares.len() == msgs.len(),
        congruent(
            shares@[seat(i as int, j as int)].value() + mask_between(
                tag@,
                sid@,
                rid@,
                j,
                i,
                y_points@[seat(i as int, j as int)],
                y@[j as int],
            ),
            msgs@[seat(i as int, j as int)].c.value() as int,
            E::order(),
        ),
{
    let p = seat(i as int, j as int);
    let mask = mask_between(tag@, sid@, rid@, j, i, y_points@[p], y@[j as int]);
    let masked = msgs@[p].c.value() as int;
    assert(peer(i as int, p) == j);
    assert(shares@[p].value() == (masked - mask) % (E::order() as int));
    lemma_congruent_mod(masked - mask, E::order());
    lemma_congruent_add(shares@[p].value() as int, masked - mask, mask, mask, E::order());
}

/// What party `i` masks for party `j` is what party `j` opens: each uses its own secret and the
/// point that the other one has published for it.
pub proof fn what_is_masked_is_opened<E: RefreshCurve>(
    tag: &str,
    sid: &[u8],
    rid: &[u8],
    i: u16,
    j: u16,
    y_points_of_i: &Vec<Point<E>>,
    y_of_i: &Vec<Scalar<E>>,
    shares: &Vec<Scalar<E>>,
    sent: Vec<MsgRound3Unicast<E>>,
    y_points_of_j: &Vec<Point<E>>,
    y_of_j: &Vec<Scalar<E>>,
    got: &Vec<MsgRound3Unicast<E>>,
    opened: Vec<Scalar<E>>,
)
    requires
        E::order() > 0,
        i != j,
        i < y_of_i.len(),
        j < y_of_i.len(),
        y_of_i.len() == y_of_j.len(),
        y_of_i.len() <= u16::MAX,
        y_of_i.len() == y_points_of_i.len() + 1,
        y_of_j.len() == y_points_of_j.len() + 1,
        shares.len() == y_points_of_i.len(),
        got.len() == y_points_of_j.len(),
        call_ensures(mask_shares::<E>, (tag, sid, rid, i, y_points_of_i, y_of_i, shares), sent),
        call_ensures(unmask_shares::<E>, (tag, sid, rid, j, y_points_of_j, y_of_j, got), opened),
        got@[seat(j as int, i as int)] == sent@[seat(i as int, j as int)],
        y_points_of_i@[seat(i as int, j as int)].log() == y_of_j@[i as int].value(),
        y_points_of_j@[seat(j as int, i as int)].log() == y_of_i@[j as int].value(),
    ensures
        congruent(
            opened@[seat(j as int, i as int)].value() as int,
            shares@[seat(i as int, j as int)].value() as int,
            E::order(),
        ),
{
    each_peer_is_sent_its_share(
        tag,
        sid,
        rid,
        i,
        y_points_of_i,
        y_of_i,
        shares,
        sent,
        j,
    );
    each_share_is_opened(tag, sid, rid, j, y_points_of_j, y_of_j, got, opened, i);
    let p = seat(i as int, j as int);
    let r = seat(j as int, i as int);
    let a = y_of_i@[j as int].value();
    let b = y_of_j@[i as int].value();
    assert(a * b == b * a) by (nonlinear_arith);
    let mask = mask_between(tag@, sid@, rid@, i, j, y_points_of_i@[p], y_of_i@[j as int]);
    assert(mask == mask_between(tag@, sid@, rid@, i, j, y_points_of_j@[r], y_of_j@[i as int]));
    lemma_congruent_sub(
        opened@[r].value() + mask,
        got@[r].c.value() as int,
        mask,
        mask,
        E::order(),
    );
}

/// A share is marked wrong if and only if its multiple of the generator is not the point that
/// was committed to.
pub proof fn each_share_is_checked<E: Curve>(
    shares: &Vec<Scalar<E>>,
    expected: &Vec<Point<E>>,
    faulty: Vec<bool>,
    p: int,
)
    requires
        shares.len() == expected.len(),
        call_ensures(check_shares::<E>, (shares, expected), faulty),
        0 <= p < shares.len(),
    ensures
        faulty.len() == shares.len(),
        faulty@[p] <==> shares@[p].value() != expected@[p].log(),
{
    assert(values(shares@).len() == shares.len());
    assert(values(shares@)[p] == shares@[p].value());
    assert(logs(expected@)[p] == expected@[p].log());
}

/// An echo is marked if and only if it differs.
pub proof fn each_echo_is_compared(
    msgs: &Vec<MsgReliabilityCheck>,
    hash: &Vec<u8>,
    faulty: Vec<bool>,
    p: int,
)
    requires
        call_ensures(compare_echoes, (msgs, hash), faulty),
        0 <= p < msgs.len(),
    ensures
        faulty.len() == msgs.len(),
        faulty@[p] <==> msgs@[p].hash@ != hash@,
{
}

/// The commitments of all parties are listed, each at the index of its party.
pub proof fn each_commitment_is_listed(
    msgs: &Vec<MsgRound1>,
    i: u16,
    mine: &MsgRound1,
    all: Vec<Vec<u8>>,
    j: int,
)
    requires
        i <= msgs.len(),
        call_ensures(all_commitments, (msgs, i, mine), all),
        0 <= j <= msgs.len(),
    ensures
        all.len() == msgs.len() + 1,
        all@[j]@ == if j == i {
            mine.commitment@
        } else {
            msgs@[seat(i as int, j)].commitment@
        },
{
    let listed = byte_views(all@);
    assert(listed.len() == all.len());
    assert(listed[j] == all@[j]@);
}

/// The scalars of the peers are listed, without one's own.
pub proof fn each_scalar_of_a_peer_is_listed<E: Curve>(
    scalars: &Vec<Scalar<E>>,
    i: u16,
    peers: Vec<Scalar<E>>,
    j: int,
)
    requires
        i < scalars.len() <= u16::MAX,
        call_ensures(of_peers::<E>, (scalars, i), peers),
        0 <= j < scalars.len(),
        j != i,
    ensures
        peers.len() == scalars.len() - 1,
        peers@[seat(i as int, j)].value() == scalars@[j].value(),
{
    assert(peer(i as int, seat(i as int, j)) == j);
}

/// No random scalar is zero.
pub proof fn no_random_scalar_is_zero<E: Curve>(len: usize, scalars: Vec<Scalar<E>>, k: int)
    requires
        call_ensures(random_scalars::<E>, (len,), scalars),
        0 <= k < len,
    ensures
        scalars.len() == len,
        scalars@[k].value() != 0,
{
    assert(values(scalars@)[k] == scalars@[k].value());
}

/// To each public share is added what every row holds in its place.
pub proof fn each_row_is_added<E: Curve>(
    base: &Vec<Point<E>>,
    rows: &Vec<Vec<Point<E>>>,
    shares: Vec<Point<E>>,
    k: int,
)
    requires
        E::order() > 0,
        forall|j: int| 0 <= j < rows.len() ==> (#[trigger] rows@[j]).len() == base.len(),
        call_ensures(refresh_public_shares::<E>, (base, rows), shares),
        0 <= k < base.len(),
    ensures
        shares.len() == base.len(),
        congruent(
            shares@[k].log() as int,
            base@[k].log() + total(
                Seq::new(rows@.len(), |j: int| rows@[j]@[k].log() as int),
            ),
            E::order(),
        ),
{
    let r = row_logs(rows@);
    let b = logs(base@);
    let parts = Seq::new(rows@.len(), |j: int| rows@[j]@[k].log() as int);
    assert(logs(shares@)[k] == shares@[k].log());
    assert(reduced(refreshed(b, r), E::order())[k] == (b[k] + sum(column(r, k))) % (
    E::order() as int));
    assert(column(r, k) =~= parts) by {
        assert forall|j: int| 0 <= j < parts.len() implies column(r, k)[j] == parts[j] by {
            assert(rows@[j].len() == base.len());
            assert(r[j] == logs(rows@[j]@));
        }
    }
    sum_is_total(parts);
    lemma_congruent_mod(b[k] + sum(parts), E::order());
}

} // verus!
