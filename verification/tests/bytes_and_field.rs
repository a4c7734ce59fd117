use libzeropool_rs::bytes::{from_be, from_le, to_be, to_le};
use libzeropool_rs::field::{Num, Scalar, U256};

const FR_MODULUS_LE: [u8; 32] = [
    1, 0, 0, 240, 147, 245, 225, 67, 145, 112, 185, 121, 72, 232, 51, 40, 93, 88, 129, 129, 182,
    69, 80, 184, 41, 160, 49, 225, 114, 78, 100, 48,
];

const FS_MODULUS_LE: [u8; 32] = [
    241, 38, 33, 57, 220, 151, 114, 103, 10, 238, 32, 57, 184, 237, 62, 171, 11, 43, 48, 208, 182,
    8, 10, 55, 5, 52, 38, 92, 206, 137, 12, 6,
];

#[test]
fn to_be_writes_most_significant_byte_first() {
    assert_eq!(to_be(0x0102030405060708, 8), vec![1, 2, 3, 4, 5, 6, 7, 8]);
    assert_eq!(to_be(48, 4), vec![0, 0, 0, 48]);
    assert_eq!(to_be(0, 0), Vec::<u8>::new());
}

#[test]
fn from_be_reads_what_to_be_wrote() {
    assert_eq!(from_be(&[1, 2, 3, 4, 5, 6, 7, 8]), 0x0102030405060708);
    assert_eq!(from_be(&to_be(u64::MAX, 8)), u64::MAX);
    assert_eq!(from_be(&[]), 0);
}

#[test]
fn to_le_writes_least_significant_byte_first() {
    assert_eq!(to_le(0x0102030405060708, 8), vec![8, 7, 6, 5, 4, 3, 2, 1]);
    assert_eq!(to_le(100, 10), vec![100, 0, 0, 0, 0, 0, 0, 0, 0, 0]);
    assert_eq!(to_le(u128::MAX, 16), vec![255u8; 16]);
}

#[test]
fn from_le_reads_what_to_le_wrote() {
    assert_eq!(from_le(&[8, 7, 6, 5, 4, 3, 2, 1]), 0x0102030405060708);
    assert_eq!(from_le(&to_le(u128::MAX, 16)), u128::MAX);
    assert_eq!(from_le(&[1, 1]), 257);
}

#[test]
fn be_keys_sort_like_their_numbers() {
    let mut keys: Vec<Vec<u8>> = vec![to_be(256, 8), to_be(2, 8), to_be(255, 8), to_be(1 << 40, 8)];
    keys.sort();
    let numbers: Vec<u64> = keys.iter().map(|k| from_be(k)).collect();
    assert_eq!(numbers, vec![2, 255, 256, 1 << 40]);
}

#[test]
fn u256_reads_limbs_from_little_endian_bytes() {
    let mut bytes = vec![0u8; 32];
    bytes[0] = 1;
    bytes[8] = 2;
    bytes[16] = 3;
    bytes[31] = 4;
    let x = U256::from_le_bytes(&bytes);
    assert_eq!(x, U256 { l0: 1, l1: 2, l2: 3, l3: 4 << 56 });
    assert_eq!(x.to_le_bytes(), bytes);
}

#[test]
fn u256_lt_compares_from_the_highest_limb() {
    let small = U256 { l0: u64::MAX, l1: u64::MAX, l2: u64::MAX, l3: 0 };
    let large = U256 { l0: 0, l1: 0, l2: 0, l3: 1 };
    assert!(small.lt(&large));
    assert!(!large.lt(&small));
    assert!(!large.lt(&large));
    assert!(U256::from_u64(4).lt(&U256::from_u64(5)));
}

#[test]
fn num_from_bytes_rejects_the_modulus_and_accepts_its_predecessor() {
    assert_eq!(Num::from_bytes(&FR_MODULUS_LE), None);
    let mut below = FR_MODULUS_LE;
    below[0] = 0;
    let n = Num::from_bytes(&below).unwrap();
    assert_eq!(n.to_bytes(), below.to_vec());
}

#[test]
fn num_from_bytes_rejects_other_lengths() {
    assert_eq!(Num::from_bytes(&[0u8; 31]), None);
    assert_eq!(Num::from_bytes(&[0u8; 33]), None);
    assert_eq!(Num::from_bytes(&[]), None);
    assert_eq!(Num::from_bytes(&[0u8; 32]), Some(Num::zero()));
}

#[test]
fn num_from_u64_has_that_value() {
    let n = Num::from_u64(0x0102030405060708);
    let mut expected = vec![0u8; 32];
    expected[..8].copy_from_slice(&[8, 7, 6, 5, 4, 3, 2, 1]);
    assert_eq!(n.to_bytes(), expected);
    assert_eq!(n.to_u256(), U256 { l0: 0x0102030405060708, l1: 0, l2: 0, l3: 0 });
    assert_eq!(Num::from_u64(0), Num::zero());
}

#[test]
fn num_from_u256_checks_the_range() {
    assert!(Num::from_u256(U256::from_le_bytes(&FR_MODULUS_LE)).is_none());
    assert!(Num::from_u256(U256 { l0: 0, l1: 0, l2: 0, l3: u64::MAX }).is_none());
    assert_eq!(Num::from_u256(U256::from_u64(9)), Some(Num::from_u64(9)));
}

#[test]
fn scalar_from_u256_checks_the_range() {
    assert!(Scalar::from_u256(U256::from_le_bytes(&FS_MODULUS_LE)).is_none());
    let mut below = FS_MODULUS_LE;
    below[0] = 240;
    let s = Scalar::from_u256(U256::from_le_bytes(&below)).unwrap();
    assert_eq!(s.to_bytes(), below.to_vec());
    assert_eq!(Scalar::from_u64(7).to_u256(), U256::from_u64(7));
    assert_eq!(Scalar::zero(), Scalar::from_u64(0));
}
