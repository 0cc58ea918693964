use cggmp24_key_refresh::curve::{Curve, Point, Scalar};
use cggmp24_key_refresh::million::Million;
use cggmp24_key_refresh::refresh_curve::{
    lagrange_coefficient, point_polynomial, scalar_polynomial, schnorr_prove, schnorr_verify,
    RefreshCurve,
};
use cggmp24_key_refresh::secp256k1::Secp256k1;
use cggmp24_key_refresh::secp256r1::Secp256r1;
use cggmp24_key_refresh::unambiguous::{Echo, HashRefreshCom, RefreshMask, SchnorrPok};
use generic_ec::curves::{Secp256k1 as Ek, Secp256r1 as Er};
use udigest::inline_struct::InlineStruct;

fn scalar<E: Curve>(k: u64) -> Scalar<E> {
    Scalar::from_le_bytes_mod_order(&k.to_le_bytes())
}

fn point<E: Curve>(k: u64) -> Point<E> {
    Point::generator_mul(&scalar(k))
}

fn outside<Ec: generic_ec::Curve>(k: u64) -> generic_ec::Point<Ec> {
    generic_ec::Point::generator() * generic_ec::Scalar::from(k)
}

fn hex(bytes: &[u8]) -> String {
    bytes.iter().map(|b| format!("{b:02x}")).collect()
}

fn laws_of_a_group<E: Curve>() {
    for (a, b) in [(0, 0), (0, 5), (3, 4), (70_000, 999_999)] {
        assert!(point::<E>(a).add(&point(b)).equals(&point(a + b)));
        let product = Point::generator_mul(&scalar::<E>(a).mul(&scalar(b)));
        assert!(point::<E>(a).mul(&scalar(b)).equals(&product));
        assert!(scalar::<E>(a).add(&scalar(b)).equals(&scalar(a + b)));
        assert!(scalar::<E>(a).sub(&scalar(b)).add(&scalar(b)).equals(&scalar(a)));
        assert!(scalar::<E>(a).neg().add(&scalar(a)).is_zero());
        assert!(scalar::<E>(a).mul(&scalar(b)).equals(&scalar(a * b)));
        assert_eq!(point::<E>(a).equals(&point(b)), a == b);
        assert_eq!(scalar::<E>(a).equals(&scalar(b)), a == b);
    }
    assert!(Point::<E>::zero().is_zero());
    assert!(!point::<E>(1).is_zero());
    assert!(Scalar::<E>::zero().is_zero());
    assert!(!Scalar::<E>::random().is_zero());
    assert!(!Scalar::<E>::random().equals(&Scalar::random()) || E::name() == "million");
    let s = scalar::<E>(123_456);
    assert!(s.copy().equals(&s));
    let p = point::<E>(123_456);
    assert!(p.copy().equals(&p));
    assert!(Point::<E>::from_bytes(p.to_bytes()).unwrap_or_else(|| panic!("no point")).equals(&p));
    assert!(Scalar::<E>::from_le_bytes(s.to_le_bytes())
        .unwrap_or_else(|| panic!("no scalar"))
        .equals(&s));
    let five = Scalar::<E>::from_le_bytes(&[5]).unwrap_or_else(|| panic!("no scalar"));
    assert!(five.equals(&scalar(5)));
    assert!(Scalar::<E>::from_le_bytes(&[0xff; 100]).is_none());
    assert!(Point::<E>::from_bytes(&[0xff; 100]).is_none());
}

#[test]
fn secp256r1_is_a_group() {
    laws_of_a_group::<Secp256r1>()
}

#[test]
fn secp256k1_is_a_group() {
    laws_of_a_group::<Secp256k1>()
}

#[test]
fn million_is_a_group() {
    laws_of_a_group::<Million>()
}

#[test]
fn known_points_of_secp256r1() {
    assert_eq!(
        hex(point::<Secp256r1>(1).to_bytes()),
        "036b17d1f2e12c4247f8bce6e563a440f277037d812deb33a0f4a13945d898c296",
    );
    assert_eq!(
        hex(point::<Secp256r1>(2).to_bytes()),
        "037cf27b188d034f7e8a52380304b51ac3c08969e277f21b35a60b48fc47669978",
    );
    assert_eq!(point::<Secp256r1>(0).to_bytes(), &vec![0u8; 33]);
    // An uncompressed encoding is read as the same point.
    let read = Point::<Secp256r1>::from_bytes(&outside::<Er>(7).to_bytes(false));
    assert!(read.unwrap_or_else(|| panic!("no point")).equals(&point(7)));
    assert_eq!(Secp256r1::name(), "secp256r1");
}

#[test]
fn known_points_of_secp256k1() {
    assert_eq!(
        hex(point::<Secp256k1>(1).to_bytes()),
        "0279be667ef9dcbbac55a06295ce870b07029bfcdb2dce28d959f2815b16f81798",
    );
    assert_eq!(
        hex(point::<Secp256k1>(2).to_bytes()),
        "02c6047f9441ed7d6d3045406e95c07cd85c778e4b8cef3ca7abac09b95c709ee5",
    );
    assert_eq!(point::<Secp256k1>(0).to_bytes(), &vec![0u8; 33]);
    let read = Point::<Secp256k1>::from_bytes(&outside::<Ek>(7).to_bytes(false));
    assert!(read.unwrap_or_else(|| panic!("no point")).equals(&point(7)));
    assert_eq!(Secp256k1::name(), "secp256k1");
}

#[test]
fn scalars_of_secp256k1_end_at_the_order() {
    let mut order: Vec<u8> = vec![
        0x41, 0x41, 0x36, 0xd0, 0x8c, 0x5e, 0xd2, 0xbf, 0x3b, 0xa0, 0x48, 0xaf, 0xe6, 0xdc, 0xae,
        0xba, 0xfe,
    ];
    order.resize(32, 0xff);
    assert!(Scalar::<Secp256k1>::from_le_bytes(&order).is_none());
    assert!(Scalar::<Secp256k1>::from_le_bytes_mod_order(&order).is_zero());
    order[0] -= 1;
    let last = Scalar::<Secp256k1>::from_le_bytes(&order).unwrap_or_else(|| panic!("no scalar"));
    assert!(last.equals(&scalar::<Secp256k1>(1).neg()));
    // 256^100 is the fourth power of 256^25
    let mut long = vec![0u8; 101];
    long[100] = 1;
    let mut short = vec![0u8; 26];
    short[25] = 1;
    let short = Scalar::<Secp256k1>::from_le_bytes_mod_order(&short);
    let square = short.mul(&short);
    assert!(Scalar::<Secp256k1>::from_le_bytes_mod_order(&long).equals(&square.mul(&square)));
}

#[test]
fn scalars_end_at_the_order() {
    let mut order: Vec<u8> = vec![
        0x51, 0x25, 0x63, 0xfc, 0xc2, 0xca, 0xb9, 0xf3, 0x84, 0x9e, 0x17, 0xa7, 0xad, 0xfa, 0xe6,
        0xbc, 0xff, 0xff, 0xff, 0xff, 0xff, 0xff, 0xff, 0xff, 0x00, 0x00, 0x00, 0x00, 0xff, 0xff,
        0xff, 0xff,
    ];
    assert!(Scalar::<Secp256r1>::from_le_bytes(&order).is_none());
    assert!(Scalar::<Secp256r1>::from_le_bytes_mod_order(&order).is_zero());
    order[0] -= 1;
    let last = Scalar::<Secp256r1>::from_le_bytes(&order).unwrap_or_else(|| panic!("no scalar"));
    assert!(last.equals(&scalar::<Secp256r1>(1).neg()));
    assert!(Scalar::<Million>::from_le_bytes(&[0x43, 0x42, 0x0f]).is_none());
    assert!(Scalar::<Million>::from_le_bytes(&[0x42, 0x42, 0x0f]).is_some());
    assert!(Scalar::<Million>::from_le_bytes_mod_order(&[0x43, 0x42, 0x0f]).is_zero());
}

fn check_polynomials_are_evaluated<E: RefreshCurve>() {
    // 7 + 2x + 3x^2 at 5
    let coefs: Vec<Scalar<E>> = vec![scalar(7), scalar(2), scalar(3)];
    assert!(scalar_polynomial(&coefs, &scalar(5)).equals(&scalar(92)));
    let points: Vec<Point<E>> = vec![point(7), point(2), point(3)];
    assert!(point_polynomial(&points, &scalar(5)).equals(&point(92)));
    assert!(point_polynomial(&points, &scalar(0)).equals(&point(7)));
    assert!(point_polynomial::<E>(&vec![], &scalar(5)).is_zero());
}

#[test]
fn polynomials_are_evaluated() {
    check_polynomials_are_evaluated::<Secp256r1>();
    check_polynomials_are_evaluated::<Secp256k1>();
}

fn check_schnorr_proofs<E: RefreshCurve>() {
    let proof = schnorr_prove::<E>(&scalar(10), &scalar(3), &scalar(4));
    assert!(proof.equals(&scalar(22)));
    assert!(schnorr_verify(&proof, &point(10), &scalar(3), &point(4)));
    assert!(!schnorr_verify(&proof, &point(10), &scalar(4), &point(4)));
    assert!(!schnorr_verify(&proof, &point(11), &scalar(3), &point(4)));
    assert!(!schnorr_verify::<E>(&scalar(23), &point(10), &scalar(3), &point(4)));
}

#[test]
fn schnorr_proofs() {
    check_schnorr_proofs::<Secp256r1>();
    check_schnorr_proofs::<Secp256k1>();
}

fn check_commitment_is_the_digest_of_the_fields<E: RefreshCurve, Ec: generic_ec::Curve>() {
    let (rid, decommit) = (vec![1u8; 32], vec![2u8; 32]);
    let (points, y_points, sch_commits): (Vec<Point<E>>, Vec<_>, Vec<_>) =
        (vec![point(1), point(0)], vec![point(3)], vec![point(4), point(5)]);
    let hash = HashRefreshCom {
        sid: b"sid",
        prover: 9,
        rid: &rid,
        points: &points,
        y_points: &y_points,
        sch_commits: &sch_commits,
        decommit: &decommit,
    }
    .hash("tag", "round 2", "s_points");

    let commit = |k| generic_ec_zkp::schnorr_pok::Commit(outside::<Ec>(k));
    let decommitment = InlineStruct::new()
        .add_field("rid", udigest::Bytes(&rid))
        .add_field("s_points", vec![outside::<Ec>(1), outside::<Ec>(0)])
        .add_field("y_points", vec![outside::<Ec>(3)])
        .add_field("sch_commits", vec![commit(4), commit(5)])
        .add_field("decommit", udigest::Bytes(&decommit))
        .set_tag("round 2");
    let expected = udigest::hash::<sha2::Sha256>(
        &InlineStruct::new()
            .add_field("sid", InlineStruct::new().add_field("id", udigest::Bytes(b"sid")))
            .add_field("prover", 9u16)
            .add_field("decommitment", decommitment)
            .set_tag("tag"),
    );
    assert_eq!(hash, expected.to_vec());
}

#[test]
fn commitment_is_the_digest_of_the_fields() {
    check_commitment_is_the_digest_of_the_fields::<Secp256r1, Er>();
    check_commitment_is_the_digest_of_the_fields::<Secp256k1, Ek>();
}

#[test]
fn echo_is_the_digest_of_all_commitments() {
    let commitments = vec![vec![1u8; 32], vec![2u8; 32]];
    let hash = Echo { sid: b"sid", commitments: &commitments }.hash("tag", "round 1");
    let expected = udigest::hash_iter::<sha2::Sha256>(commitments.iter().map(|c| {
        InlineStruct::new()
            .add_field("sid", InlineStruct::new().add_field("id", udigest::Bytes(b"sid")))
            .add_field(
                "commitment",
                InlineStruct::new().add_field("commitment", udigest::Bytes(c)).set_tag("round 1"),
            )
            .set_tag("tag")
    }));
    assert_eq!(hash, expected.to_vec());
}

fn check_mask_is_drawn_from_the_fields<E: RefreshCurve, Ec: generic_ec::Curve>() {
    let mask = RefreshMask::<E> {
        sid: b"sid",
        rid: b"rid",
        sender: 1,
        recipient: 2,
        dh_shared: &point(77),
    }
    .scalar("tag");
    let expected = generic_ec::Scalar::<Ec>::from_hash::<sha2::Sha256>(
        &InlineStruct::new()
            .add_field("sid", InlineStruct::new().add_field("id", udigest::Bytes(b"sid")))
            .add_field("rid", udigest::Bytes(b"rid"))
            .add_field("sender", 1u16)
            .add_field("recipient", 2u16)
            .add_field("dh_shared", outside::<Ec>(77))
            .set_tag("tag"),
    );
    assert_eq!(mask.to_le_bytes()[..], expected.to_le_bytes()[..]);
}

#[test]
fn mask_is_drawn_from_the_fields() {
    check_mask_is_drawn_from_the_fields::<Secp256r1, Er>();
    check_mask_is_drawn_from_the_fields::<Secp256k1, Ek>();
}

fn check_schnorr_challenge_is_drawn_from_the_fields<E: RefreshCurve, Ec: generic_ec::Curve>() {
    let challenge = SchnorrPok::<E> {
        sid: b"sid",
        prover: 3,
        rid: b"rid",
        X: &point(5),
        sch_commit: &point(6),
    }
    .scalar("tag");
    let expected = generic_ec::Scalar::<Ec>::from_hash::<sha2::Sha256>(
        &InlineStruct::new()
            .add_field("sid", InlineStruct::new().add_field("id", udigest::Bytes(b"sid")))
            .add_field("prover", 3u16)
            .add_field("rid", udigest::Bytes(b"rid"))
            .add_field("X", outside::<Ec>(5))
            .add_field("sch_commit", generic_ec_zkp::schnorr_pok::Commit(outside::<Ec>(6)))
            .set_tag("tag"),
    );
    assert_eq!(challenge.to_le_bytes()[..], expected.to_le_bytes()[..]);
}

#[test]
fn schnorr_challenge_is_drawn_from_the_fields() {
    check_schnorr_challenge_is_drawn_from_the_fields::<Secp256r1, Er>();
    check_schnorr_challenge_is_drawn_from_the_fields::<Secp256k1, Ek>();
}

fn check_lagrange_coefficients<E: RefreshCurve>() {
    let xs: Vec<Scalar<E>> = vec![scalar(1), scalar(2), scalar(3)];
    assert!(lagrange_coefficient(&scalar(0), 0, &xs).unwrap().equals(&scalar(3)));
    assert!(lagrange_coefficient(&scalar(0), 1, &xs).unwrap().equals(&scalar(3).neg()));
    assert!(lagrange_coefficient(&scalar(2), 1, &xs).unwrap().equals(&scalar(1)));
    assert!(lagrange_coefficient(&scalar(2), 0, &xs).is_none());
}

#[test]
fn lagrange_coefficients_of_both_curves() {
    check_lagrange_coefficients::<Secp256r1>();
    check_lagrange_coefficients::<Secp256k1>();
}
