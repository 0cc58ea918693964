use cggmp24_key_refresh::integer::Integer;
use cggmp24_key_refresh::million::Million;
use cggmp24_key_refresh::natural;
use cggmp24_key_refresh::secp256r1::Secp256r1;

fn integer(k: i64) -> Integer {
    let magnitude = Integer::from_le_bytes(&k.unsigned_abs().to_le_bytes());
    if k < 0 {
        magnitude.neg()
    } else {
        magnitude
    }
}

fn number(x: &Integer) -> i64 {
    let mut bytes = x.magnitude_le_bytes().clone();
    bytes.resize(8, 0);
    let magnitude = i64::from_le_bytes(bytes.try_into().unwrap());
    if x.is_negative() {
        -magnitude
    } else {
        magnitude
    }
}

#[test]
fn numbers_are_read_back() {
    for k in [0, 1, -1, 255, 256, -65536, i64::MAX] {
        assert_eq!(number(&integer(k)), k);
        assert_eq!(number(&integer(k).neg()), -k);
    }
    assert!(!integer(0).neg().is_negative());
}

#[test]
fn digits_start_with_the_most_significant() {
    assert_eq!(integer(0x010203).digits(), vec![1, 2, 3]);
    assert_eq!(integer(-0x0100).digits(), vec![1, 0]);
    assert_eq!(integer(0).digits(), Vec::<u8>::new());
}

#[test]
fn significant_bits_are_counted() {
    assert_eq!(integer(0).significant_bits(), 0);
    assert_eq!(integer(1).significant_bits(), 1);
    assert_eq!(integer(255).significant_bits(), 8);
    assert_eq!(integer(-256).significant_bits(), 9);
    assert_eq!(Integer::power_of_two(128).significant_bits(), 129);
}

#[test]
fn powers_of_two() {
    for bits in 0..63 {
        assert_eq!(number(&Integer::power_of_two(bits)), 1 << bits);
    }
}

#[test]
fn order_of_a_curve() {
    assert_eq!(number(&Integer::curve_order::<Million>()), 1_000_003);
    let order = Integer::curve_order::<Secp256r1>();
    let expected = [
        0xff, 0xff, 0xff, 0xff, 0x00, 0x00, 0x00, 0x00, 0xff, 0xff, 0xff, 0xff, 0xff, 0xff, 0xff,
        0xff, 0xbc, 0xe6, 0xfa, 0xad, 0xa7, 0x17, 0x9e, 0x84, 0xf3, 0xb9, 0xca, 0xc2, 0xfc, 0x63,
        0x25, 0x51,
    ];
    assert_eq!(order.digits(), expected);
}

#[test]
fn residues_modulo_the_order() {
    for (k, residue) in [(5, 5), (1_000_003, 0), (-1, 1_000_002), (-2_000_007, 1_000_002)] {
        let scalar = integer(k).to_scalar::<Million>();
        assert_eq!(number(&Integer::from_scalar(&scalar)), residue);
    }
    // A number longer than the order, minus one
    let mut square = vec![0u8; 64];
    square[63] = 1;
    let a = Integer::from_le_bytes(&square).to_scalar::<Secp256r1>();
    let b = Integer::power_of_two(63 * 8).to_scalar::<Secp256r1>();
    assert!(a.equals(&b));
}

#[test]
fn picks_from_a_range() {
    for (range, bytes, picked) in [
        (3, &[0][..], -3),
        (3, &[3], 0),
        (3, &[6], 3),
        (3, &[7], -3),
        (0, &[200], 0),
        (1000, &[0xff, 0xff, 0xff], 16777215 % 2001 - 1000),
    ] {
        assert_eq!(number(&Integer::pick_from_range(&integer(range), bytes)), picked);
    }
    assert_eq!(Integer::pick_len(&Integer::power_of_two(128)), 34);
    assert_eq!(Integer::pick_len(&integer(0)), 17);
}

#[test]
fn random_picks_stay_in_the_range() {
    let mut seen = std::collections::BTreeSet::new();
    for _ in 0..200 {
        let k = number(&Integer::random_from_range(&integer(2)));
        assert!((-2..=2).contains(&k));
        seen.insert(k);
    }
    assert_eq!(seen.len(), 5);
}

#[test]
fn natural_numbers() {
    assert!(natural::less(&[255], &[0, 1]));
    assert!(!natural::less(&[0, 1], &[255]));
    assert!(!natural::less(&[5, 0], &[5]));
    assert_eq!(natural::trimmed(&natural::sum(&[255, 255], &[1])), vec![0, 0, 1]);
    assert_eq!(natural::trimmed(&natural::difference(&[0, 0, 1], &[1])), vec![255, 255]);
    assert_eq!(natural::trimmed(&natural::remainder(&[0, 0, 1], &[7])), vec![2]);
    assert_eq!(natural::trimmed(&natural::remainder(&[6], &[7, 0, 0])), vec![6]);
    assert_eq!(natural::trimmed(&natural::remainder(&[], &[7])), Vec::<u8>::new());
}
