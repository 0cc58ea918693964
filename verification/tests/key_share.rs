use cggmp24_key_refresh::curve::{Point, Scalar};
use cggmp24_key_refresh::key_share::{
    DirtyIncompleteKeyShare, DirtyKeyInfo, InvalidCoreShare, VssSetup,
};
use cggmp24_key_refresh::refresh_curve::lagrange_coefficient;
use cggmp24_key_refresh::secp256r1::Secp256r1 as E;

fn scalar(k: u64) -> Scalar<E> {
    Scalar::from_le_bytes_mod_order(&k.to_le_bytes())
}

fn point(k: u64) -> Point<E> {
    Point::generator_mul(&scalar(k))
}

fn share(
    i: u16,
    x: u64,
    pk: u64,
    publics: &[u64],
    vss: Option<(u16, &[u64])>,
) -> Result<(), InvalidCoreShare> {
    let vss_setup = vss.map(|(min_signers, indexes)| VssSetup {
        min_signers,
        I: indexes.iter().copied().map(scalar).collect(),
    });
    DirtyIncompleteKeyShare {
        i,
        x: scalar(x),
        key_info: DirtyKeyInfo {
            shared_public_key: point(pk),
            public_shares: publics.iter().copied().map(point).collect(),
            vss_setup,
            chain_code: None,
        },
    }
    .validate()
    .map(|_| ())
}

#[test]
fn additive_shares_are_checked() {
    assert_eq!(share(1, 5, 12, &[4, 5, 3], None), Ok(()));
    assert_eq!(share(0, 4, 4, &[4], None), Ok(()));
    assert_eq!(
        share(1, 5, 13, &[4, 5, 3], None),
        Err(InvalidCoreShare::SharesDontMatchPublicKey),
    );
    assert_eq!(share(3, 5, 12, &[4, 5, 3], None), Err(InvalidCoreShare::PartyIndexOutOfBounds));
    assert_eq!(
        share(1, 4, 12, &[4, 5, 3], None),
        Err(InvalidCoreShare::PartySecretShareDoesntMatchPublicShare),
    );
    assert_eq!(share(1, 0, 12, &[4, 5, 3], None), Err(InvalidCoreShare::ZeroShare));
    assert_eq!(share(0, 4, 0, &[4], None), Err(InvalidCoreShare::ZeroShare));
    assert_eq!(share(0, 4, 4, &[4, 0], None), Err(InvalidCoreShare::ZeroShare));
}

#[test]
fn too_many_public_shares_are_refused() {
    let one = point(1);
    let info = DirtyKeyInfo {
        shared_public_key: point(65536),
        public_shares: (0..65536).map(|_| one.copy()).collect(),
        vss_setup: None,
        chain_code: None,
    };
    assert_eq!(info.validate(), Err(InvalidCoreShare::PartiesNumberExceedsU16));
}

#[test]
fn threshold_shares_are_checked() {
    // f(x) = 7 + 2x + x^2
    let (publics, indexes) = ([10, 15, 22, 31], [1, 2, 3, 4]);
    assert_eq!(share(2, 22, 7, &publics, Some((3, &indexes))), Ok(()));
    assert_eq!(share(2, 22, 7, &publics, Some((4, &indexes))), Ok(()));
    assert_eq!(
        share(2, 22, 7, &publics, Some((2, &indexes))),
        Err(InvalidCoreShare::SharesDontMatchPublicKey),
    );
    assert_eq!(
        share(2, 22, 8, &publics, Some((3, &indexes))),
        Err(InvalidCoreShare::SharesDontMatchPublicKey),
    );
    assert_eq!(
        share(2, 22, 7, &[10, 15, 22, 32], Some((3, &indexes))),
        Err(InvalidCoreShare::SharesDontMatchPublicKey),
    );
    assert_eq!(
        share(2, 22, 7, &publics, Some((3, &[1, 2, 3]))),
        Err(InvalidCoreShare::ILen),
    );
    assert_eq!(
        share(2, 22, 7, &publics, Some((1, &indexes))),
        Err(InvalidCoreShare::ThresholdTooSmall),
    );
    assert_eq!(
        share(2, 22, 7, &publics, Some((5, &indexes))),
        Err(InvalidCoreShare::ThresholdTooLarge),
    );
    assert_eq!(
        share(2, 22, 7, &publics, Some((3, &[1, 2, 0, 4]))),
        Err(InvalidCoreShare::ZeroShare),
    );
    assert_eq!(
        share(2, 22, 7, &publics, Some((3, &[1, 2, 3, 1]))),
        Err(InvalidCoreShare::INotPairwiseDistinct),
    );
}

#[test]
fn threshold_shares_interpolate() {
    // f(x) = 7 + 2x + x^2 at 4, 1 and 3, taken to 0
    let xs = vec![scalar(4), scalar(1), scalar(3)];
    let ys = [scalar(31), scalar(10), scalar(22)];
    let mut total = Scalar::<E>::zero();
    for (j, y) in ys.iter().enumerate() {
        total = total.add(&lagrange_coefficient(&scalar(0), j, &xs).unwrap().mul(y));
    }
    assert!(total.equals(&scalar(7)));
}

#[test]
fn lagrange_coefficients() {
    let xs = vec![scalar(1), scalar(2), scalar(3)];
    // (0 - 2)(0 - 3) / ((1 - 2)(1 - 3)) and so on
    assert!(lagrange_coefficient(&scalar(0), 0, &xs).unwrap().equals(&scalar(3)));
    assert!(lagrange_coefficient(&scalar(0), 1, &xs).unwrap().equals(&scalar(3).neg()));
    assert!(lagrange_coefficient(&scalar(0), 2, &xs).unwrap().equals(&scalar(1)));
    // At a node there is one for that node alone.
    assert!(lagrange_coefficient(&scalar(2), 1, &xs).unwrap().equals(&scalar(1)));
    assert!(lagrange_coefficient(&scalar(2), 0, &xs).is_none());
    let twice = vec![scalar(1), scalar(2), scalar(1)];
    assert!(lagrange_coefficient(&scalar(0), 0, &twice).is_none());
    assert!(lagrange_coefficient(&scalar(0), 1, &twice).is_some());
}

#[test]
fn valid_share_tells_its_parts() {
    let dirty = DirtyIncompleteKeyShare {
        i: 1,
        x: scalar(5),
        key_info: DirtyKeyInfo {
            shared_public_key: point(9),
            public_shares: vec![point(4), point(5)],
            vss_setup: None,
            chain_code: None,
        },
    };
    let share = dirty.validate().unwrap_or_else(|e| panic!("{e:?}"));
    assert_eq!((share.n(), share.min_signers()), (2, 2));
    assert_eq!(share.as_inner().i, 1);
    assert!(share.into_inner().x.equals(&scalar(5)));
}
