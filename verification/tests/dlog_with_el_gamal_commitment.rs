use cggmp24_key_refresh::curve::{Curve, Point, Scalar};
use cggmp24_key_refresh::dlog_with_el_gamal_commitment::{
    interactive, non_interactive, Aux, Data, InvalidProof, InvalidProofReason, PrivateCommitment,
    PrivateData, Proof, SecurityParams,
};
use cggmp24_key_refresh::integer::Integer;
use cggmp24_key_refresh::million::Million;
use cggmp24_key_refresh::secp256k1::Secp256k1;
use cggmp24_key_refresh::secp256r1::Secp256r1;
use generic_ec::curves::Secp256r1 as Ec;
use rand_core::RngCore;
use udigest::inline_struct::InlineStruct;

fn aux() -> Aux {
    Aux {
        s: Integer::from_le_bytes(&[1, 2, 3]),
        t: Integer::from_le_bytes(&[4, 5, 6]),
        rsa_modulo: Integer::from_le_bytes(&[7, 8, 9, 10]),
    }
}

fn random_aux() -> Aux {
    let random = || Integer::random_from_range(&Integer::power_of_two(256));
    Aux { s: random(), t: random(), rsa_modulo: random() }
}

fn run<C: Curve>(
    security: SecurityParams,
    data: Data<C>,
    pdata: PrivateData,
) -> Result<(), InvalidProof> {
    let aux = random_aux();
    let shared_state = b"shared state";
    let (commitment, proof) =
        non_interactive::prove(shared_state, &aux, data, pdata, &security).unwrap();
    non_interactive::verify(shared_state, &aux, data, &commitment, &security, &proof)
}

fn passing_test<C: Curve>() {
    let security = SecurityParams { q: Integer::power_of_two(128) };
    let y = Integer::random_from_range(&Integer::curve_order::<C>());
    let lambda = Integer::random_from_range(&Integer::curve_order::<C>());
    let x = Point::<C>::generator_mul(&Scalar::random());
    let h = Point::<C>::generator_mul(&Scalar::random());

    let l = Point::<C>::generator_mul(&lambda.to_scalar());
    let m = Point::<C>::generator_mul(&y.to_scalar()).add(&x.mul(&lambda.to_scalar()));
    let h_to_y = h.mul(&y.to_scalar());

    let data = Data { l: &l, m: &m, x: &x, h_to_y: &h_to_y, h: &h };
    let pdata = PrivateData { y: &y, lambda: &lambda };
    run::<C>(security, data, pdata).expect("proof failed");
}

fn failing_check_lambda_<C: Curve>() {
    let security = SecurityParams { q: Integer::power_of_two(128) };
    let y = Integer::random_from_range(&Integer::curve_order::<C>());
    let lambda = Integer::random_from_range(&Integer::curve_order::<C>());
    let false_lambda = Integer::random_from_range(&Integer::curve_order::<C>());
    let x = Point::<C>::generator_mul(&Scalar::random());
    let h = Point::<C>::generator_mul(&Scalar::random());

    let l = Point::<C>::generator_mul(&lambda.to_scalar());
    let m = Point::<C>::generator_mul(&y.to_scalar()).add(&x.mul(&lambda.to_scalar()));
    let h_to_y = h.mul(&y.to_scalar());

    let data = Data { l: &l, m: &m, x: &x, h_to_y: &h_to_y, h: &h };
    let pdata = PrivateData { y: &y, lambda: &false_lambda };
    let r = run::<C>(security, data, pdata).expect_err("proof should not pass");
    match r.reason() {
        InvalidProofReason::EqualityCheck(1) => (),
        e => panic!("proof should not fail with {e:?}"),
    }
}

fn failing_check_y_<C: Curve>() {
    let security = SecurityParams { q: Integer::power_of_two(128) };
    let y = Integer::random_from_range(&Integer::curve_order::<C>());
    let lambda = Integer::random_from_range(&Integer::curve_order::<C>());
    let false_y = Integer::random_from_range(&Integer::curve_order::<C>());
    let x = Point::<C>::generator_mul(&Scalar::random());
    let h = Point::<C>::generator_mul(&Scalar::random());

    let l = Point::<C>::generator_mul(&lambda.to_scalar());
    let m = Point::<C>::generator_mul(&y.to_scalar()).add(&x.mul(&lambda.to_scalar()));
    let h_to_y = h.mul(&y.to_scalar());

    let data = Data { l: &l, m: &m, x: &x, h_to_y: &h_to_y, h: &h };
    let pdata = PrivateData { y: &false_y, lambda: &lambda };
    let r = run::<C>(security, data, pdata).expect_err("proof should not pass");
    match r.reason() {
        InvalidProofReason::EqualityCheck(2) => (),
        e => panic!("proof should not fail with {e:?}"),
    }
}

#[test]
fn passing_p256() {
    passing_test::<Secp256r1>()
}

#[test]
fn failing_check_1_p256() {
    failing_check_lambda_::<Secp256r1>()
}

#[test]
fn failing_check_2_p256() {
    failing_check_y_::<Secp256r1>()
}

#[test]
fn passing_secp256k1() {
    passing_test::<Secp256k1>()
}

#[test]
fn failing_check_1_secp256k1() {
    failing_check_lambda_::<Secp256k1>()
}

#[test]
fn failing_check_2_secp256k1() {
    failing_check_y_::<Secp256k1>()
}

#[test]
fn passing_million() {
    passing_test::<Million>()
}

#[test]
fn failing_check_1_million() {
    failing_check_lambda_::<Million>()
}

#[test]
fn failing_check_2_million() {
    failing_check_y_::<Million>()
}

fn integer(k: i64) -> Integer {
    let magnitude = Integer::from_le_bytes(&k.unsigned_abs().to_le_bytes());
    if k < 0 {
        magnitude.neg()
    } else {
        magnitude
    }
}

fn number(x: &Integer) -> i64 {
    let mut bytes = x.magnitude_le_bytes().clone();
    bytes.resize(8, 0);
    let magnitude = i64::from_le_bytes(bytes.try_into().unwrap());
    if x.is_negative() {
        -magnitude
    } else {
        magnitude
    }
}

fn point(k: i64) -> Point<Million> {
    Point::generator_mul(&integer(k).to_scalar())
}

/// lambda = 3, y = 5, X = 7, h = 11, so L = 3, M = 5 + 7 * 3, Y = 11 * 5
fn points() -> [Point<Million>; 5] {
    [point(3), point(26), point(7), point(55), point(11)]
}

fn data(p: &[Point<Million>; 5]) -> Data<'_, Million> {
    Data { l: &p[0], m: &p[1], x: &p[2], h_to_y: &p[3], h: &p[4] }
}

fn private_commitment() -> PrivateCommitment {
    PrivateCommitment { alpha: integer(100), m: integer(200) }
}

#[test]
fn commitment_of_known_values() {
    let points = points();
    let commitment = interactive::commit_to(data(&points), &private_commitment());
    assert!(commitment.a.equals(&point(100)));
    assert!(commitment.cap_n.equals(&point(200 + 7 * 100)));
    assert!(commitment.b.equals(&point(11 * 200)));
}

#[test]
fn random_commitment_opens() {
    let points = points();
    let (commitment, private) = interactive::commit(data(&points)).unwrap();
    let again = interactive::commit_to(data(&points), &private);
    assert!(commitment.a.equals(&again.a));
    assert!(commitment.cap_n.equals(&again.cap_n));
    assert!(commitment.b.equals(&again.b));
    assert!((1..1_000_003).contains(&number(&private.alpha)));
    assert!((1..1_000_003).contains(&number(&private.m)));
}

#[test]
fn proof_of_known_values() {
    let (y, lambda) = (integer(5), integer(3));
    let pdata = PrivateData { y: &y, lambda: &lambda };
    for (challenge, z, u) in [
        (10, 130, 250),
        (0, 100, 200),
        (-50, 1_000_003 - 50, 1_000_003 - 50),
        (1_000_003, 100, 200),
    ] {
        let proof =
            interactive::prove::<Million>(pdata, &private_commitment(), &integer(challenge)).unwrap();
        assert_eq!((number(&proof.z), number(&proof.u)), (z, u));
    }
}

fn verdict(z: i64, u: i64, challenge: i64) -> Option<usize> {
    let points = points();
    let commitment = interactive::commit_to(data(&points), &private_commitment());
    let proof = Proof { z: integer(z), u: integer(u) };
    match interactive::verify(data(&points), &commitment, &integer(challenge), &proof) {
        Ok(()) => None,
        Err(error) => match error.reason() {
            InvalidProofReason::EqualityCheck(k) => Some(*k),
        },
    }
}

#[test]
fn verdicts_on_known_values() {
    assert_eq!(verdict(130, 250, 10), None);
    // Only the residues count.
    assert_eq!(verdict(130 - 1_000_003, 250 + 1_000_003, 10), None);
    assert_eq!(verdict(70, 150, -10), None);
    assert_eq!(verdict(131, 250, 10), Some(1));
    assert_eq!(verdict(131, 251, 10), Some(1));
    assert_eq!(verdict(130, 251, 10), Some(2));
    assert_eq!(verdict(130, 250, 11), Some(1));
}

#[test]
fn third_check_fails_alone() {
    let mut points = points();
    points[3] = point(56);
    let commitment = interactive::commit_to(data(&points), &private_commitment());
    let proof = Proof { z: integer(130), u: integer(250) };
    let error =
        interactive::verify(data(&points), &commitment, &integer(10), &proof).unwrap_err();
    assert_eq!(*error.reason(), InvalidProofReason::EqualityCheck(3));
}

#[test]
fn challenge_that_cancels_the_error_lets_it_pass() {
    let points = points();
    let (y, wrong) = (integer(5), integer(4));
    let pdata = PrivateData { y: &y, lambda: &wrong };
    let commitment = interactive::commit_to(data(&points), &private_commitment());
    for (challenge, passes) in [(0, true), (1_000_003, true), (1, false), (-7, false)] {
        let challenge = integer(challenge);
        let proof =
            interactive::prove::<Million>(pdata, &private_commitment(), &challenge).unwrap();
        let result = interactive::verify(data(&points), &commitment, &challenge, &proof);
        assert_eq!(result.is_ok(), passes);
    }
}

#[test]
fn two_answers_reveal_lambda() {
    let (y, lambda) = (integer(5), integer(3));
    let pdata = PrivateData { y: &y, lambda: &lambda };
    let answer = |challenge: i64| {
        let challenge = integer(challenge);
        interactive::prove::<Million>(pdata, &private_commitment(), &challenge).unwrap()
    };
    let (a, b) = (answer(10), answer(11));
    assert_eq!(number(&b.z) - number(&a.z), 3);
    assert_eq!(number(&b.u) - number(&a.u), 5);
}

#[test]
fn random_challenge_is_in_range() {
    let security = SecurityParams { q: integer(4) };
    let mut seen = std::collections::BTreeSet::new();
    for _ in 0..400 {
        let challenge = number(&interactive::challenge(&security));
        assert!((-4..=4).contains(&challenge));
        seen.insert(challenge);
    }
    assert_eq!(seen.len(), 9);
}

#[test]
fn derived_challenge_depends_on_everything() {
    let security = SecurityParams { q: Integer::power_of_two(128) };
    let p = points();
    let commitment = interactive::commit_to(data(&p), &private_commitment());
    let digits = |x: Integer| (x.is_negative(), x.digits());
    let base = digits(non_interactive::challenge(b"a", &aux(), data(&p), &commitment, &security));
    let again = digits(non_interactive::challenge(b"a", &aux(), data(&p), &commitment, &security));
    assert_eq!(base, again);

    let other_state =
        digits(non_interactive::challenge(b"b", &aux(), data(&p), &commitment, &security));
    assert_ne!(base, other_state);
    let other_aux = Aux { t: integer(1), ..aux() };
    assert_ne!(
        base,
        digits(non_interactive::challenge(b"a", &other_aux, data(&p), &commitment, &security)),
    );
    for k in 0..5 {
        let mut p = points();
        p[k] = point(99);
        let other = non_interactive::challenge(b"a", &aux(), data(&p), &commitment, &security);
        assert_ne!(base, digits(other));
    }
    let other = interactive::commit_to(
        data(&p),
        &PrivateCommitment { alpha: integer(100), m: integer(201) },
    );
    assert_ne!(
        base,
        digits(non_interactive::challenge(b"a", &aux(), data(&p), &other, &security)),
    );
    let other_security = SecurityParams { q: Integer::power_of_two(120) };
    assert_ne!(
        base,
        digits(non_interactive::challenge(b"a", &aux(), data(&p), &commitment, &other_security)),
    );
}

#[test]
fn derived_challenge_is_drawn_from_the_digest() {
    let outside: Vec<generic_ec::Point<Ec>> = (1u64..=8)
        .map(|k| generic_ec::Point::generator() * generic_ec::Scalar::from(k))
        .collect();
    let ours: Vec<Point<Secp256r1>> = outside
        .iter()
        .map(|p| Point::from_bytes(&p.to_bytes(true)).unwrap_or_else(|| panic!("no point")))
        .collect();
    let data = Data { l: &ours[0], m: &ours[1], x: &ours[2], h_to_y: &ours[3], h: &ours[4] };
    let commitment = cggmp24_key_refresh::dlog_with_el_gamal_commitment::Commitment {
        a: ours[5].copy(),
        cap_n: ours[6].copy(),
        b: ours[7].copy(),
    };
    let security = SecurityParams { q: integer(1000) };

    let bytes = |b: &[u8]| udigest::Bytes(b.to_vec());
    let seed = InlineStruct::new()
        .add_field("shared_state", "shared state")
        .add_field(
            "aux",
            InlineStruct::new()
                .add_field("s", bytes(&[3, 2, 1]))
                .add_field("t", bytes(&[6, 5, 4]))
                .add_field("rsa_modulo", bytes(&[10, 9, 8, 7])),
        )
        .add_field("security", InlineStruct::new().add_field("q", bytes(&[3, 232])))
        .add_field(
            "data",
            InlineStruct::new()
                .add_field("l", outside[0])
                .add_field("m", outside[1])
                .add_field("x", outside[2])
                .add_field("h_to_y", outside[3])
                .add_field("h", outside[4]),
        )
        .add_field(
            "commitment",
            InlineStruct::new()
                .add_field("a", outside[5])
                .add_field("cap_n", outside[6])
                .add_field("b", outside[7]),
        )
        .set_tag("paillier_zk.dlog_with_el_gamal.ni_challenge");
    let mut stream = vec![0u8; 19];
    rand_hash::HashRng::<sha2::Sha256, _>::from_seed(seed).fill_bytes(&mut stream);
    let expected = Integer::pick_from_range(&security.q, &stream);
    let challenge = non_interactive::challenge(b"shared state", &aux(), data, &commitment, &security);
    assert_eq!(number(&challenge), number(&expected));
}

#[test]
fn proof_with_chosen_masks() {
    let points = points();
    let (y, lambda) = (integer(5), integer(3));
    let pdata = PrivateData { y: &y, lambda: &lambda };
    let security = SecurityParams { q: integer(1000) };
    let prove = || {
        non_interactive::prove_with(
            b"state",
            &aux(),
            data(&points),
            pdata,
            &security,
            &private_commitment(),
        )
        .unwrap()
    };
    let (commitment, proof) = prove();
    let challenge =
        non_interactive::challenge(b"state", &aux(), data(&points), &commitment, &security);
    let e = number(&challenge);
    assert_eq!(number(&proof.z), (100 + e * 3).rem_euclid(1_000_003));
    assert_eq!(number(&proof.u), (200 + e * 5).rem_euclid(1_000_003));
    let result =
        non_interactive::verify(b"state", &aux(), data(&points), &commitment, &security, &proof);
    assert!(result.is_ok());
    let other =
        non_interactive::verify(b"other", &aux(), data(&points), &commitment, &security, &proof);
    assert!(other.is_err());
}
