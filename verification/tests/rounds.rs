use cggmp24_key_refresh::bytes::{bytes_equal, xor_array};
use cggmp24_key_refresh::curve::{Point, Scalar};
use cggmp24_key_refresh::rounds::{
    check_proofs, check_shares, combine_rids, mask_shares, prove_all, random_scalars,
    refresh_public_shares, unmask_shares, MsgRound3Unicast,
};
use cggmp24_key_refresh::secp256r1::Secp256r1 as E;
use cggmp24_key_refresh::utils::{any, collect_blame, peer_index, AbortBlame};

fn scalar(k: u64) -> Scalar<E> {
    Scalar::from_le_bytes_mod_order(&k.to_le_bytes())
}

fn point(k: u64) -> Point<E> {
    Point::generator_mul(&scalar(k))
}

#[test]
fn strings_are_compared_and_combined() {
    assert!(bytes_equal(&[1, 2], &[1, 2]));
    assert!(!bytes_equal(&[1, 2], &[1, 3]));
    assert!(!bytes_equal(&[1, 2], &[1, 2, 0]));
    assert_eq!(xor_array(vec![0b1100, 1], &[0b1010, 1]), vec![0b0110, 0]);
    assert_eq!(combine_rids(&vec![vec![1, 2], vec![4, 2], vec![8, 16]], 2), vec![13, 16]);
    assert_eq!(combine_rids(&vec![], 3), vec![0, 0, 0]);
}

#[test]
fn peers_are_numbered() {
    let peers = |i| (0..3).map(|p| peer_index(i, p)).collect::<Vec<_>>();
    assert_eq!(peers(0), vec![1, 2, 3]);
    assert_eq!(peers(2), vec![0, 1, 3]);
    assert_eq!(peers(3), vec![0, 1, 2]);
}

#[test]
fn blame_goes_to_the_faulty() {
    let blame = collect_blame(1, &vec![10, 11, 12], &vec![20, 21, 22], &vec![true, false, true]);
    assert_eq!(blame, vec![AbortBlame::new(0, 10, 20), AbortBlame::new(3, 12, 22)]);
    assert!(collect_blame(1, &vec![10], &vec![20], &vec![false]).is_empty());
    assert!(any(&vec![false, true]));
    assert!(!any(&vec![false, false]));
    assert!(!any(&vec![]));
}

/// Party 0 masks for parties 1 and 2, who open what they get.
#[test]
fn what_is_masked_is_opened() {
    let y: [Vec<Scalar<E>>; 3] = [
        vec![scalar(11), scalar(12), scalar(13)],
        vec![scalar(21), scalar(22), scalar(23)],
        vec![scalar(31), scalar(32), scalar(33)],
    ];
    let column = |i: usize| -> Vec<Point<E>> {
        (0..3).filter(|&j| j != i).map(|j| Point::generator_mul(&y[j][i])).collect()
    };
    let shares = vec![scalar(100), scalar(200)];
    let masked = mask_shares("tag", b"sid", b"rid", 0, &column(0), &y[0], &shares);
    assert!(!masked[0].c.equals(&shares[0]));
    for (i, share) in [(1, 100), (2, 200)] {
        let msgs = vec![
            MsgRound3Unicast { c: masked[i - 1].c.copy() },
            MsgRound3Unicast { c: scalar(5) },
        ];
        let opened = unmask_shares("tag", b"sid", b"rid", i as u16, &column(i), &y[i], &msgs);
        assert!(opened[0].equals(&scalar(share)));
        for (tag, sid, rid) in
            [("other", b"sid", b"rid"), ("tag", b"dis", b"rid"), ("tag", b"sid", b"dir")]
        {
            let wrong = unmask_shares(tag, sid, rid, i as u16, &column(i), &y[i], &msgs);
            assert!(!wrong[0].equals(&scalar(share)));
        }
    }
}

#[test]
fn shares_are_compared_with_points() {
    let faulty = check_shares(&vec![scalar(1), scalar(2)], &vec![point(1), point(3)]);
    assert_eq!(faulty, vec![false, true]);
}

#[test]
fn proofs_are_checked() {
    let points = vec![point(0), point(5), point(6)];
    let secrets = vec![scalar(0), scalar(5), scalar(6)];
    let nonces = vec![scalar(8), scalar(9)];
    let commits = vec![point(8), point(9)];
    let proofs = prove_all("tag", b"sid", 3, b"rid", &points, 1, &commits, &nonces, &secrets);
    let check = |prover, rid: &[u8], skip, proofs: &Vec<Scalar<E>>| {
        check_proofs("tag", b"sid", prover, rid, &points, skip, &commits, proofs)
    };
    assert!(check(3, b"rid", 1, &proofs));
    assert!(!check(4, b"rid", 1, &proofs));
    assert!(!check(3, b"other", 1, &proofs));
    assert!(!check(3, b"rid", 0, &proofs));
    assert!(!check(3, b"rid", 1, &vec![proofs[0].copy()]));
    assert!(!check(3, b"rid", 1, &vec![proofs[1].copy(), proofs[0].copy()]));
}

#[test]
fn public_shares_are_refreshed() {
    let rows = vec![vec![point(1), point(2)], vec![point(10), point(20)]];
    let shares = refresh_public_shares(&vec![point(100), point(200)], &rows);
    assert!(shares[0].equals(&point(111)));
    assert!(shares[1].equals(&point(222)));
}

#[test]
fn random_scalars_are_not_zero() {
    let scalars = random_scalars::<E>(20);
    assert_eq!(scalars.len(), 20);
    assert!(scalars.iter().all(|s| !s.is_zero()));
    assert!(!scalars[0].equals(&scalars[1]));
}
