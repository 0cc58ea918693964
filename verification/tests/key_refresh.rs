use cggmp24_key_refresh::curve::{Point, Scalar};
use cggmp24_key_refresh::errors::{Bug, InvalidArgs, KeyRefreshError, ProtocolAborted, Reason};
use cggmp24_key_refresh::key_share::{
    DirtyIncompleteKeyShare, DirtyKeyInfo, IncompleteKeyShare, VssSetup,
};
use cggmp24_key_refresh::refresh_curve::{lagrange_coefficient, RefreshCurve};
use cggmp24_key_refresh::secp256k1::Secp256k1;
use cggmp24_key_refresh::secp256r1::Secp256r1 as E;
use cggmp24_key_refresh::utils::{AbortBlame, Received};
use cggmp24_key_refresh::{non_threshold, threshold};

const KAPPA: usize = 32;

fn scalar<C: RefreshCurve>(k: u64) -> Scalar<C> {
    Scalar::from_le_bytes_mod_order(&k.to_le_bytes())
}

fn points<C: RefreshCurve>(points: &[Point<C>]) -> Vec<Vec<u8>> {
    points.iter().map(|p| p.to_bytes().clone()).collect()
}

/// One message of each peer, with ids that tell the round and the sender.
fn received<M>(round: u64, i: usize, mut all: Vec<M>) -> Received<M> {
    let n = all.len();
    all.remove(i);
    let ids = (0..n).filter(|&j| j != i).map(|j| 100 * round + j as u64).collect();
    Received { ids, msgs: all }
}

fn copy<C: RefreshCurve>(points: &[Point<C>]) -> Vec<Point<C>> {
    points.iter().map(|p| p.copy()).collect()
}

fn blamed(result: Vec<AbortBlame>) -> Vec<(u16, u64, u64)> {
    result.iter().map(|b| (b.faulty_party, b.data_message, b.proof_message)).collect()
}

/// Key shares that add up to a key.
fn additive_shares<C: RefreshCurve>(secrets: &[Scalar<C>]) -> Vec<IncompleteKeyShare<C>> {
    let publics: Vec<Point<C>> = secrets.iter().map(Point::generator_mul).collect();
    let pk = publics.iter().fold(Point::zero(), |a, b| a.add(b));
    secrets
        .iter()
        .enumerate()
        .map(|(i, x)| {
            DirtyIncompleteKeyShare {
                i: i as u16,
                x: x.copy(),
                key_info: DirtyKeyInfo {
                    shared_public_key: pk.copy(),
                    public_shares: copy(&publics),
                    vss_setup: None,
                    chain_code: Some([7; 32]),
                },
            }
            .validate()
            .unwrap_or_else(|e| panic!("{e:?}"))
        })
        .collect()
}

fn random_additive_shares<C: RefreshCurve>(n: u16) -> Vec<IncompleteKeyShare<C>> {
    let secrets: Vec<_> = (0..n).map(|_| Scalar::random()).collect();
    additive_shares(&secrets)
}

/// Key shares that lie on a polynomial.
fn threshold_shares<C: RefreshCurve>(t: u16, n: u16) -> Vec<IncompleteKeyShare<C>> {
    let coefs: Vec<Scalar<C>> = (0..t).map(|_| Scalar::random()).collect();
    let eval = |x: &Scalar<C>| coefs.iter().rev().fold(Scalar::zero(), |a, c| a.mul(x).add(c));
    let indexes = || (1..=u64::from(n)).map(scalar).collect::<Vec<_>>();
    let secrets: Vec<Scalar<C>> = indexes().iter().map(eval).collect();
    let publics: Vec<Point<C>> = secrets.iter().map(Point::generator_mul).collect();
    let pk = Point::generator_mul(&coefs[0]);
    secrets
        .iter()
        .enumerate()
        .map(|(i, x)| {
            DirtyIncompleteKeyShare {
                i: i as u16,
                x: x.copy(),
                key_info: DirtyKeyInfo {
                    shared_public_key: pk.copy(),
                    public_shares: copy(&publics),
                    vss_setup: Some(VssSetup { min_signers: t, I: indexes() }),
                    chain_code: None,
                },
            }
            .validate()
            .unwrap_or_else(|e| panic!("{e:?}"))
        })
        .collect()
}

/// What a test may do to the messages of a run, by the index of the sender.
#[derive(Clone, Copy, PartialEq)]
enum Fault {
    Nobody,
    Commitment(u16),
    Echo(u16),
    DecommitmentLength(u16),
    DecommitmentSum(u16),
    Share(u16),
    Proof(u16),
    ProofLength(u16),
}

fn by(fault: Fault, kind: fn(u16) -> Fault, j: usize) -> bool {
    fault == kind(j as u16)
}

fn copy_round2<C: RefreshCurve>(m: &non_threshold::MsgRound2<C>) -> non_threshold::MsgRound2<C> {
    non_threshold::MsgRound2 {
        rid: m.rid.clone(),
        x_prime_points: copy(&m.x_prime_points),
        y_points: copy(&m.y_points),
        sch_commits: copy(&m.sch_commits),
        decommit: m.decommit.clone(),
    }
}

fn copy_threshold_round2<C: RefreshCurve>(m: &threshold::MsgRound2<C>) -> threshold::MsgRound2<C> {
    threshold::MsgRound2 {
        rid: m.rid.clone(),
        s_points: copy(&m.s_points),
        y_points: copy(&m.y_points),
        sch_commits: copy(&m.sch_commits),
        decommit: m.decommit.clone(),
    }
}

fn run_non_threshold<C: RefreshCurve>(
    shares: &[IncompleteKeyShare<C>],
    reliable: bool,
    fault: Fault,
    randomness: Vec<non_threshold::Randomness<C>>,
) -> Vec<Result<non_threshold::KeyRefreshOutput<C>, KeyRefreshError>> {
    let n = shares.len();
    let sid = b"session";
    let mut states = Vec::new();
    for ((i, share), randomness) in shares.iter().enumerate().zip(randomness) {
        let session = non_threshold::Session::new(sid, i as u16, share, reliable, KAPPA);
        states.push(session.unwrap_or_else(|e| panic!("{e:?}")).begin(randomness));
    }

    let decommitments: Vec<_> = states
        .iter()
        .enumerate()
        .map(|(j, s)| {
            let mut msg = copy_round2(&s.my_decommitment);
            if by(fault, Fault::DecommitmentLength, j) {
                msg.x_prime_points.push(Point::zero());
            }
            if by(fault, Fault::DecommitmentSum, j) {
                let one = Point::generator_mul(&scalar(1));
                msg.x_prime_points[0] = msg.x_prime_points[0].add(&one);
            }
            msg
        })
        .collect();
    let commitments: Vec<Vec<u8>> = decommitments
        .iter()
        .enumerate()
        .map(|(j, d)| {
            let mut commitment = d.commit(sid, j as u16);
            if by(fault, Fault::Commitment, j) {
                commitment[0] ^= 1;
            }
            commitment
        })
        .collect();
    let round1 = |i: usize| {
        let all = commitments.iter().map(|c| non_threshold::MsgRound1 { commitment: c.clone() });
        received(1, i, all.collect())
    };
    let mut results: Vec<Option<Result<_, KeyRefreshError>>> = (0..n).map(|_| None).collect();
    let mut echoing = Vec::new();
    let mut waiting = Vec::new();
    for (i, state) in states.into_iter().enumerate() {
        match state.on_commitments(round1(i)) {
            non_threshold::AfterRound1::SendEcho(state) => {
                assert!(reliable);
                echoing.push(state)
            }
            non_threshold::AfterRound1::SendDecommitment(state) => {
                assert!(!reliable);
                waiting.push(state)
            }
        }
    }
    let echoes: Vec<Vec<u8>> = echoing
        .iter()
        .enumerate()
        .map(|(j, s)| {
            let mut hash = s.echo.hash.clone();
            if by(fault, Fault::Echo, j) {
                hash[0] ^= 1;
            }
            hash
        })
        .collect();
    for (i, state) in echoing.into_iter().enumerate() {
        let all = echoes.iter().map(|h| non_threshold::MsgReliabilityCheck { hash: h.clone() });
        match state.on_echoes(received(2, i, all.collect())) {
            Ok(state) => waiting.push(state),
            Err(e) => results[i] = Some(Err(e)),
        }
    }
    if waiting.len() < n {
        return results.into_iter().map(|r| r.unwrap_or_else(|| Err(aborted()))).collect();
    }
    let mut last = Vec::new();
    for (i, state) in waiting.into_iter().enumerate() {
        let all = decommitments.iter().map(copy_round2).collect();
        match state.on_decommitments(received(3, i, all)) {
            Ok(state) => last.push(state),
            Err(e) => results[i] = Some(Err(e)),
        }
    }
    if last.len() < n {
        return results.into_iter().map(|r| r.unwrap_or_else(|| Err(aborted()))).collect();
    }
    let proofs: Vec<Vec<Scalar<C>>> = last
        .iter()
        .enumerate()
        .map(|(j, s)| {
            let mut proofs: Vec<_> = s.my_proofs.sch_proofs.iter().map(|p| p.copy()).collect();
            if by(fault, Fault::Proof, j) {
                proofs[0] = proofs[0].add(&scalar(1));
            }
            if by(fault, Fault::ProofLength, j) {
                proofs.pop();
            }
            proofs
        })
        .collect();
    // What each party sends to each other one.
    let sent: Vec<Vec<Option<Scalar<C>>>> = last
        .iter()
        .enumerate()
        .map(|(j, s)| {
            let mut row: Vec<_> = s
                .my_shares
                .iter()
                .map(|m| {
                    let wrong = by(fault, Fault::Share, j);
                    Some(if wrong { m.c.add(&scalar(1)) } else { m.c.copy() })
                })
                .collect();
            row.insert(j, None);
            row
        })
        .collect();
    for (i, state) in last.into_iter().enumerate() {
        let all = proofs
            .iter()
            .map(|p| non_threshold::MsgRound3Broadcast {
                sch_proofs: p.iter().map(|p| p.copy()).collect(),
            })
            .collect();
        let ids = (0..n).filter(|&j| j != i).map(|j| 500 + j as u64).collect();
        let msgs = (0..n)
            .filter(|&j| j != i)
            .map(|j| non_threshold::MsgRound3Unicast { c: sent[j][i].as_ref().unwrap().copy() })
            .collect();
        results[i] = Some(state.on_shares(received(4, i, all), Received { ids, msgs }));
    }
    results.into_iter().map(|r| r.unwrap()).collect()
}

fn aborted() -> KeyRefreshError {
    KeyRefreshError(Reason::Aborted(ProtocolAborted::Round1NotReliable(vec![])))
}

fn run_threshold<C: RefreshCurve>(
    shares: &[IncompleteKeyShare<C>],
    parties: &[u16],
    reliable: bool,
    fault: Fault,
) -> Vec<Result<threshold::KeyRefreshOutput<C>, KeyRefreshError>> {
    let n = parties.len();
    let sid = b"session";
    let t = shares[0].min_signers();
    let mut states = Vec::new();
    for (i, &k) in parties.iter().enumerate() {
        let session =
            threshold::Session::new(sid, i as u16, parties, &shares[k as usize], reliable, KAPPA);
        let randomness = threshold::Randomness::sample(t, n as u16, KAPPA);
        states.push(session.unwrap_or_else(|e| panic!("{e:?}")).begin(randomness));
    }

    let decommitments: Vec<_> = states
        .iter()
        .enumerate()
        .map(|(j, s)| {
            let mut msg = copy_threshold_round2(&s.my_decommitment);
            if by(fault, Fault::DecommitmentLength, j) {
                msg.s_points.pop();
            }
            if by(fault, Fault::DecommitmentSum, j) {
                msg.s_points[0] = Point::generator_mul(&scalar(1));
            }
            msg
        })
        .collect();
    let commitments: Vec<Vec<u8>> = decommitments
        .iter()
        .enumerate()
        .map(|(j, d)| {
            let mut commitment = d.commit(sid, j as u16);
            if by(fault, Fault::Commitment, j) {
                commitment[0] ^= 1;
            }
            commitment
        })
        .collect();
    let round1 = |i: usize| {
        let all = commitments.iter().map(|c| threshold::MsgRound1 { commitment: c.clone() });
        received(1, i, all.collect())
    };
    let mut results: Vec<Option<Result<_, KeyRefreshError>>> = (0..n).map(|_| None).collect();
    let mut echoing = Vec::new();
    let mut waiting = Vec::new();
    for (i, state) in states.into_iter().enumerate() {
        match state.on_commitments(round1(i)) {
            threshold::AfterRound1::SendEcho(state) => {
                assert!(reliable);
                echoing.push(state)
            }
            threshold::AfterRound1::SendDecommitment(state) => {
                assert!(!reliable);
                waiting.push(state)
            }
        }
    }
    let echoes: Vec<Vec<u8>> = echoing
        .iter()
        .enumerate()
        .map(|(j, s)| {
            let mut hash = s.echo.hash.clone();
            if by(fault, Fault::Echo, j) {
                hash[0] ^= 1;
            }
            hash
        })
        .collect();
    for (i, state) in echoing.into_iter().enumerate() {
        let all = echoes.iter().map(|h| threshold::MsgReliabilityCheck { hash: h.clone() });
        match state.on_echoes(received(2, i, all.collect())) {
            Ok(state) => waiting.push(state),
            Err(e) => results[i] = Some(Err(e)),
        }
    }
    if waiting.len() < n {
        return results.into_iter().map(|r| r.unwrap_or_else(|| Err(aborted()))).collect();
    }
    let mut last = Vec::new();
    for (i, state) in waiting.into_iter().enumerate() {
        let all = decommitments.iter().map(copy_threshold_round2).collect();
        match state.on_decommitments(received(3, i, all)) {
            Ok(state) => last.push(state),
            Err(e) => results[i] = Some(Err(e)),
        }
    }
    if last.len() < n {
        return results.into_iter().map(|r| r.unwrap_or_else(|| Err(aborted()))).collect();
    }
    let proofs: Vec<Vec<Scalar<C>>> = last
        .iter()
        .enumerate()
        .map(|(j, s)| {
            let mut proofs: Vec<_> = s.my_proofs.sch_proofs.iter().map(|p| p.copy()).collect();
            if by(fault, Fault::Proof, j) {
                proofs[0] = proofs[0].add(&scalar(1));
            }
            if by(fault, Fault::ProofLength, j) {
                proofs.pop();
            }
            proofs
        })
        .collect();
    let sent: Vec<Vec<Option<Scalar<C>>>> = last
        .iter()
        .enumerate()
        .map(|(j, s)| {
            let mut row: Vec<_> = s
                .my_shares
                .iter()
                .map(|m| {
                    let wrong = by(fault, Fault::Share, j);
                    Some(if wrong { m.c.add(&scalar(1)) } else { m.c.copy() })
                })
                .collect();
            row.insert(j, None);
            row
        })
        .collect();
    for (i, state) in last.into_iter().enumerate() {
        let all = proofs
            .iter()
            .map(|p| threshold::MsgRound3Broadcast {
                sch_proofs: p.iter().map(|p| p.copy()).collect(),
            })
            .collect();
        let ids = (0..n).filter(|&j| j != i).map(|j| 500 + j as u64).collect();
        let msgs = (0..n)
            .filter(|&j| j != i)
            .map(|j| threshold::MsgRound3Unicast { c: sent[j][i].as_ref().unwrap().copy() })
            .collect();
        results[i] = Some(state.on_shares(received(4, i, all), Received { ids, msgs }));
    }
    results.into_iter().map(|r| r.unwrap()).collect()
}

fn sample<C: RefreshCurve>(n: usize) -> Vec<non_threshold::Randomness<C>> {
    (0..n).map(|_| non_threshold::Randomness::sample(n as u16, KAPPA)).collect()
}

fn key_refresh_works<C: RefreshCurve>(n: u16, reliable_broadcast: bool) {
    let shares = random_additive_shares::<C>(n);
    let results = run_non_threshold(&shares, reliable_broadcast, Fault::Nobody, sample(n.into()));
    let refreshed: Vec<_> =
        results.into_iter().map(|r| r.unwrap_or_else(|e| panic!("{e:?}"))).collect();

    let original_pk = shares[0].as_inner().key_info.shared_public_key.to_bytes();
    let original_public_shares = points(&shares[0].as_inner().key_info.public_shares);
    let mut total = Scalar::<C>::zero();
    for (i, output) in refreshed.iter().enumerate() {
        let share = output.share.as_inner();
        assert_eq!(share.key_info.shared_public_key.to_bytes(), original_pk);
        assert!(share.key_info.vss_setup.is_none());
        assert_ne!(points(&share.key_info.public_shares), original_public_shares);
        assert_eq!(
            points(&share.key_info.public_shares),
            points(&refreshed[0].share.as_inner().key_info.public_shares),
        );
        assert_eq!(usize::from(share.i), i);
        assert_eq!(share.key_info.chain_code, Some([7; 32]));
        assert_eq!(output.rid, refreshed[0].rid);
        assert_eq!(output.rid.len(), KAPPA);
        total = total.add(&share.x);
    }
    // The secret shares still add up to the secret key.
    assert_eq!(Point::generator_mul(&total).to_bytes(), original_pk);
}

#[test]
fn key_refresh_works_n3() {
    key_refresh_works::<E>(3, false)
}

#[test]
fn key_refresh_works_n3_secp256k1() {
    key_refresh_works::<Secp256k1>(3, false)
}

#[test]
fn key_refresh_works_n5() {
    key_refresh_works::<E>(5, false)
}

#[test]
fn key_refresh_works_n5_secp256k1() {
    key_refresh_works::<Secp256k1>(5, false)
}

#[test]
fn key_refresh_works_n5_reliable() {
    key_refresh_works::<E>(5, true)
}

#[test]
fn key_refresh_works_n5_reliable_secp256k1() {
    key_refresh_works::<Secp256k1>(5, true)
}

fn threshold_key_refresh_works<C: RefreshCurve>(
    t: u16,
    n: u16,
    parties: &[u16],
    reliable_broadcast: bool,
) {
    let shares = threshold_shares::<C>(t, n);
    let results = run_threshold(&shares, parties, reliable_broadcast, Fault::Nobody);
    let refreshed: Vec<_> =
        results.into_iter().map(|r| r.unwrap_or_else(|e| panic!("{e:?}"))).collect();

    let original_pk = shares[0].as_inner().key_info.shared_public_key.to_bytes();
    let original_public_shares = points(&shares[0].as_inner().key_info.public_shares);
    for (i, output) in refreshed.iter().enumerate() {
        let share = output.share.as_inner();
        assert_eq!(share.key_info.shared_public_key.to_bytes(), original_pk);
        assert_eq!(output.share.min_signers(), t);
        assert_eq!(usize::from(output.share.n()), parties.len());
        assert_eq!(usize::from(share.i), i);
        assert_ne!(points(&share.key_info.public_shares), original_public_shares);
        assert_eq!(
            points(&share.key_info.public_shares),
            points(&refreshed[0].share.as_inner().key_info.public_shares),
        );
        let vss = share.key_info.vss_setup.as_ref().unwrap();
        for (j, &k) in parties.iter().enumerate() {
            assert!(vss.I[j].equals(&scalar(u64::from(k) + 1)));
        }
        assert_eq!(output.rid, refreshed[0].rid);
    }
    // The last `t` parties still have the secret key between them.
    let signers = &refreshed[parties.len() - usize::from(t)..];
    let xs: Vec<Scalar<C>> = signers
        .iter()
        .map(|o| {
            let share = o.share.as_inner();
            share.key_info.vss_setup.as_ref().unwrap().I[usize::from(share.i)].copy()
        })
        .collect();
    let mut total = Scalar::<C>::zero();
    for (j, output) in signers.iter().enumerate() {
        let lambda = lagrange_coefficient(&Scalar::zero(), j, &xs).unwrap();
        total = total.add(&lambda.mul(&output.share.as_inner().x));
    }
    assert_eq!(Point::generator_mul(&total).to_bytes(), original_pk);
}

#[test]
fn threshold_key_refresh_works_t2n3() {
    threshold_key_refresh_works::<E>(2, 3, &[0, 1, 2], false)
}

#[test]
fn threshold_key_refresh_works_t2n3_secp256k1() {
    threshold_key_refresh_works::<Secp256k1>(2, 3, &[0, 1, 2], false)
}

#[test]
fn threshold_key_refresh_works_t3n5() {
    threshold_key_refresh_works::<E>(3, 5, &[0, 1, 2, 3, 4], false)
}

#[test]
fn threshold_key_refresh_works_t3n5_secp256k1() {
    threshold_key_refresh_works::<Secp256k1>(3, 5, &[0, 1, 2, 3, 4], false)
}

#[test]
fn threshold_key_refresh_works_t3n5_reliable() {
    threshold_key_refresh_works::<E>(3, 5, &[0, 1, 2, 3, 4], true)
}

#[test]
fn threshold_key_refresh_works_t3n5_reliable_secp256k1() {
    threshold_key_refresh_works::<Secp256k1>(3, 5, &[0, 1, 2, 3, 4], true)
}

#[test]
fn threshold_key_refresh_with_all_needed() {
    threshold_key_refresh_works::<E>(3, 3, &[0, 1, 2], false)
}

#[test]
fn threshold_key_refresh_with_all_needed_secp256k1() {
    threshold_key_refresh_works::<Secp256k1>(3, 3, &[0, 1, 2], false)
}

#[test]
fn threshold_key_refresh_of_rotated_parties() {
    threshold_key_refresh_works::<E>(2, 3, &[2, 0, 1], false)
}

#[test]
fn threshold_key_refresh_of_rotated_parties_secp256k1() {
    threshold_key_refresh_works::<Secp256k1>(2, 3, &[2, 0, 1], false)
}

#[test]
fn threshold_key_refresh_of_some_parties() {
    threshold_key_refresh_works::<E>(2, 5, &[4, 1, 3], true)
}

#[test]
fn threshold_key_refresh_of_some_parties_secp256k1() {
    threshold_key_refresh_works::<Secp256k1>(2, 5, &[4, 1, 3], true)
}

#[test]
fn threshold_share_is_not_refreshed_as_additive() {
    let shares = threshold_shares::<E>(2, 3);
    for i in [0, 1] {
        match non_threshold::Session::new(b"session", i, &shares[0], false, KAPPA) {
            Err(KeyRefreshError(Reason::NotThreshold)) => (),
            _ => panic!("should not start"),
        }
    }
}

#[test]
fn additive_share_is_not_refreshed_as_threshold() {
    let shares = random_additive_shares::<E>(3);
    for parties in [&[0, 1, 2][..], &[]] {
        match threshold::Session::new(b"session", 0, parties, &shares[0], false, KAPPA) {
            Err(KeyRefreshError(Reason::ExpectedThresholdShare)) => (),
            _ => panic!("should not start"),
        }
    }
}

#[test]
fn index_must_be_that_of_the_share() {
    let shares = random_additive_shares::<E>(3);
    match non_threshold::Session::new(b"session", 1, &shares[0], false, KAPPA) {
        Err(KeyRefreshError(Reason::InvalidArgs(InvalidArgs::MismatchedOwnIndex))) => (),
        _ => panic!("should not start"),
    }
}

fn invalid_args(i: u16, parties: &[u16]) -> InvalidArgs {
    let shares = threshold_shares::<E>(2, 4);
    match threshold::Session::new(b"session", i, parties, &shares[1], false, KAPPA) {
        Err(KeyRefreshError(Reason::InvalidArgs(error))) => error,
        _ => panic!("should not start"),
    }
}

#[test]
fn threshold_arguments_are_checked() {
    assert_eq!(invalid_args(0, &[1]), InvalidArgs::NotEnoughParties);
    assert_eq!(invalid_args(9, &[]), InvalidArgs::NotEnoughParties);
    assert_eq!(invalid_args(2, &[1, 2]), InvalidArgs::PartyIndexOutOfBounds);
    assert_eq!(invalid_args(2, &[1, 1]), InvalidArgs::PartyIndexOutOfBounds);
    assert_eq!(invalid_args(0, &[1, 4]), InvalidArgs::InvalidPartiesIndexesAtKeygen);
    assert_eq!(invalid_args(0, &[1, 2, 1]), InvalidArgs::InvalidPartiesIndexesAtKeygen);
    assert_eq!(invalid_args(1, &[1, 1]), InvalidArgs::InvalidPartiesIndexesAtKeygen);
    assert_eq!(invalid_args(1, &[1, 2]), InvalidArgs::MismatchedOwnIndex);
    assert_eq!(invalid_args(0, &vec![0; 65536]), InvalidArgs::PartiesNumberExceedsU16);
}

#[test]
fn threshold_session_reorders_the_share() {
    let shares = threshold_shares::<E>(2, 4);
    let session = threshold::Session::new(b"session", 2, &[3, 0, 1], &shares[1], false, KAPPA);
    let session = session.unwrap_or_else(|e| panic!("{e:?}"));
    let publics = points(&shares[1].as_inner().key_info.public_shares);
    assert_eq!(
        points(&session.X),
        vec![publics[3].clone(), publics[0].clone(), publics[1].clone()],
    );
    assert!(session.I[0].equals(&scalar(4)));
    assert!(session.I[1].equals(&scalar(1)));
    assert!(session.I[2].equals(&scalar(2)));
    assert_eq!((session.t, session.n), (2, 3));
}

/// What the honest parties say of a run, with blame for a faulty party.
fn non_threshold_fault(fault: Fault, reliable: bool, faulty: usize) -> Vec<ProtocolAborted> {
    let shares = random_additive_shares::<E>(3);
    let results = run_non_threshold(&shares, reliable, fault, sample(3));
    results
        .into_iter()
        .enumerate()
        .filter(|(i, _)| *i != faulty)
        .map(|(_, r)| match r {
            Err(KeyRefreshError(Reason::Aborted(aborted))) => aborted,
            Err(e) => panic!("{e:?}"),
            Ok(_) => panic!("run should fail"),
        })
        .collect()
}

fn threshold_fault(fault: Fault, reliable: bool, faulty: usize) -> Vec<ProtocolAborted> {
    let shares = threshold_shares::<E>(3, 4);
    let results = run_threshold(&shares, &[0, 1, 2, 3], reliable, fault);
    results
        .into_iter()
        .enumerate()
        .filter(|(i, _)| *i != faulty)
        .map(|(_, r)| match r {
            Err(KeyRefreshError(Reason::Aborted(aborted))) => aborted,
            Err(e) => panic!("{e:?}"),
            Ok(_) => panic!("run should fail"),
        })
        .collect()
}

fn faults(fault: fn(u16) -> Fault, reliable: bool, faulty: u16) -> Vec<ProtocolAborted> {
    let mut all = non_threshold_fault(fault(faulty), reliable, faulty.into());
    all.extend(threshold_fault(fault(faulty), reliable, faulty.into()));
    all
}

#[test]
fn wrong_commitment_is_blamed() {
    for aborted in faults(Fault::Commitment, false, 1) {
        match aborted {
            ProtocolAborted::InvalidDecommitment(b) => assert_eq!(blamed(b), vec![(1, 101, 301)]),
            e => panic!("{e:?}"),
        }
    }
}

#[test]
fn wrong_length_of_decommitment_is_blamed() {
    for aborted in faults(Fault::DecommitmentLength, false, 0) {
        match aborted {
            ProtocolAborted::InvalidDecommitment(b) => assert_eq!(blamed(b), vec![(0, 100, 300)]),
            e => panic!("{e:?}"),
        }
    }
}

#[test]
fn contribution_that_is_not_zero_is_blamed() {
    for aborted in faults(Fault::DecommitmentSum, false, 2) {
        match aborted {
            ProtocolAborted::InvalidDecommitment(b) => assert_eq!(blamed(b), vec![(2, 102, 302)]),
            e => panic!("{e:?}"),
        }
    }
}

#[test]
fn different_echo_is_blamed() {
    for aborted in faults(Fault::Echo, true, 1) {
        match aborted {
            ProtocolAborted::Round1NotReliable(b) => assert_eq!(blamed(b), vec![(1, 201, 201)]),
            e => panic!("{e:?}"),
        }
    }
}

#[test]
fn wrong_share_is_blamed() {
    for aborted in faults(Fault::Share, false, 1) {
        match aborted {
            ProtocolAborted::InvalidMaskedShare(b) => assert_eq!(blamed(b), vec![(1, 501, 501)]),
            e => panic!("{e:?}"),
        }
    }
}

#[test]
fn wrong_proof_is_blamed() {
    for aborted in faults(Fault::Proof, false, 2) {
        match aborted {
            ProtocolAborted::InvalidSchnorrProof(b) => assert_eq!(blamed(b), vec![(2, 302, 402)]),
            e => panic!("{e:?}"),
        }
    }
}

#[test]
fn missing_proof_is_blamed() {
    for aborted in faults(Fault::ProofLength, true, 0) {
        match aborted {
            ProtocolAborted::InvalidSchnorrProof(b) => assert_eq!(blamed(b), vec![(0, 300, 400)]),
            e => panic!("{e:?}"),
        }
    }
}

#[test]
fn zero_shares_are_bugs() {
    let shares = additive_shares::<E>(&[scalar(10), scalar(20)]);
    let randomness = |head: Scalar<E>| non_threshold::Randomness {
        x_prime_head: vec![head],
        ..non_threshold::Randomness::sample(2, KAPPA)
    };
    // Party 0 ends with 10 + 3 - 13.
    let results = run_non_threshold(
        &shares,
        false,
        Fault::Nobody,
        vec![randomness(scalar(3)), randomness(scalar(13).neg())],
    );
    assert!(matches!(results[0], Err(KeyRefreshError(Reason::Bug(Bug::ZeroSecret)))));
    assert!(matches!(results[1], Err(KeyRefreshError(Reason::Bug(Bug::ZeroPublic)))));
}

#[test]
fn chosen_randomness_gives_known_shares() {
    let shares = additive_shares::<E>(&[scalar(10), scalar(20), scalar(30)]);
    let randomness = |heads: [u64; 2], byte: u8| non_threshold::Randomness {
        x_prime_head: heads.into_iter().map(scalar).collect(),
        rid: vec![byte; KAPPA],
        ..non_threshold::Randomness::sample(3, KAPPA)
    };
    let results = run_non_threshold(
        &shares,
        true,
        Fault::Nobody,
        vec![randomness([1, 2], 1), randomness([3, 4], 2), randomness([5, 6], 7)],
    );
    // The third party gets -(1 + 2) - (3 + 4) - (5 + 6).
    let expected = [scalar(19), scalar(32), scalar(9)];
    for (result, expected) in results.into_iter().zip(expected) {
        let output = result.unwrap_or_else(|e| panic!("{e:?}"));
        assert!(output.share.as_inner().x.equals(&expected));
        assert_eq!(output.rid, vec![1 ^ 2 ^ 7; KAPPA]);
    }
}

#[test]
fn first_round_commits_to_zero() {
    let shares = random_additive_shares::<E>(4);
    let session = non_threshold::Session::new(b"session", 2, &shares[2], false, KAPPA);
    let state = session
        .unwrap_or_else(|e| panic!("{e:?}"))
        .begin(non_threshold::Randomness::sample(4, KAPPA));
    let total = state.x_prime.iter().fold(Scalar::zero(), |a, b| a.add(b));
    assert!(total.is_zero());
    for (x, point) in state.x_prime.iter().zip(&state.my_decommitment.x_prime_points) {
        assert!(Point::generator_mul(x).equals(point));
    }
    for (y, point) in state.y.iter().zip(&state.my_decommitment.y_points) {
        assert!(Point::generator_mul(y).equals(point));
    }
    for (tau, point) in state.tau.iter().zip(&state.my_decommitment.sch_commits) {
        assert!(Point::generator_mul(tau).equals(point));
    }
    assert_eq!(state.my_commitment.commitment.len(), 32);

    let shares = threshold_shares::<E>(3, 4);
    let session = threshold::Session::new(b"session", 1, &[0, 1, 2, 3], &shares[1], false, KAPPA);
    let state = session
        .unwrap_or_else(|e| panic!("{e:?}"))
        .begin(threshold::Randomness::sample(3, 4, KAPPA));
    assert_eq!(state.s.len(), 3);
    assert!(state.s[0].is_zero());
    assert!(state.my_decommitment.s_points[0].is_zero());
    assert!(!state.my_decommitment.s_points[1].is_zero());
}

#[test]
fn share_left_out_does_not_fit_the_refreshed_ones() {
    let shares = threshold_shares::<E>(2, 3);
    let pk = shares[0].as_inner().key_info.shared_public_key.to_bytes();
    let refreshed: Vec<_> = run_threshold(&shares, &[0, 1], false, Fault::Nobody)
        .into_iter()
        .map(|r| r.unwrap_or_else(|e| panic!("{e:?}")))
        .collect();
    let interpolate = |xs: [u64; 2], ys: [&Scalar<E>; 2]| {
        let xs: Vec<Scalar<E>> = xs.into_iter().map(scalar).collect();
        let mut total = Scalar::<E>::zero();
        for (j, y) in ys.into_iter().enumerate() {
            total = total.add(&lagrange_coefficient(&Scalar::zero(), j, &xs).unwrap().mul(y));
        }
        Point::generator_mul(&total)
    };
    let new = |k: usize| &refreshed[k].share.as_inner().x;
    let old = |k: usize| &shares[k].as_inner().x;
    assert_eq!(interpolate([1, 2], [new(0), new(1)]).to_bytes(), pk);
    assert_eq!(interpolate([1, 3], [old(0), old(2)]).to_bytes(), pk);
    assert_ne!(interpolate([1, 3], [new(0), old(2)]).to_bytes(), pk);
}
