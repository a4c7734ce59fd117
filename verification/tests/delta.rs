use libzeropool::fawkes_crypto::engines::bn256::Fr;
use libzeropool::fawkes_crypto::ff_uint::{Num as NativeNum, NumRepr, Uint};
use libzeropool::native::tx::make_delta;
use libzeropool_rs::crypto::to_decimal_string;
use libzeropool_rs::delta::{num_to_i64, num_to_u64, parse_delta, ParsedDelta};
use libzeropool_rs::field::{Num, U256};
use libzeropool_rs::tx::{indexed_notes, IndexedNote, Note};

fn from_native(n: NativeNum<Fr>) -> Num {
    Num::from_bytes(&n.to_uint().0.to_little_endian()).unwrap()
}

fn to_native(n: Num) -> NativeNum<Fr> {
    NativeNum::from_uint(NumRepr(Uint::from_little_endian(&n.to_bytes()))).unwrap()
}

fn delta(v: i64, e: i64, index: u64, pool_id: u64) -> Num {
    from_native(make_delta::<Fr>(
        NativeNum::from(v),
        NativeNum::from(e),
        NativeNum::from(index),
        NativeNum::from(pool_id),
    ))
}

#[test]
fn parse_delta_reads_back_what_was_packed() {
    for (v, e, index) in [
        (0i64, 0i64, 0u64),
        (1, 2, 3),
        (-1, -2, 4),
        (i64::MAX, -i64::MAX, (1 << 48) - 1),
        (-i64::MAX, i64::MAX, 1 << 47),
        (-123456789, 987654321, 42),
    ] {
        assert_eq!(parse_delta(delta(v, e, index, 7)), Some(ParsedDelta { v, e, index }));
    }
}

#[test]
fn parse_delta_of_plain_limbs() {
    let packed = Num::from_u256(U256 { l0: 5, l1: 6, l2: 9 << 48, l3: 0 }).unwrap();
    assert_eq!(parse_delta(packed), Some(ParsedDelta { v: 5, e: 6, index: 9 }));
    let negative = Num::from_u256(U256 { l0: u64::MAX, l1: u64::MAX, l2: (1 << 48) - 1, l3: 1 })
        .unwrap();
    assert_eq!(parse_delta(negative), Some(ParsedDelta { v: -1, e: -1, index: 1 << 16 }));
}

#[test]
fn parse_delta_gives_nothing_for_the_lowest_balance_change() {
    let packed = Num::from_u256(U256 { l0: 1 << 63, l1: 0, l2: 0, l3: 0 }).unwrap();
    assert_eq!(parse_delta(packed), None);
}

#[test]
fn parse_delta_gives_nothing_for_an_energy_beyond_sixty_four_bits() {
    let large = Num::from_u256(U256 { l0: 0, l1: 0, l2: 1, l3: 0 }).unwrap();
    assert_eq!(parse_delta(large), None);
    let edge = Num::from_u256(U256 { l0: 0, l1: 1 << 63, l2: 0, l3: 0 }).unwrap();
    assert_eq!(parse_delta(edge), None);
    let lowest = Num::from_u256(U256 { l0: 0, l1: 1 << 63, l2: (1 << 48) - 1, l3: 0 }).unwrap();
    assert_eq!(parse_delta(lowest), None);
    let fits = Num::from_u256(U256 { l0: 0, l1: (1 << 63) - 1, l2: 0, l3: 0 }).unwrap();
    assert_eq!(parse_delta(fits), Some(ParsedDelta { v: 0, e: i64::MAX, index: 0 }));
}

#[test]
fn num_to_i64_reads_negative_numbers_from_below_the_order() {
    assert_eq!(num_to_i64(Num::from_u64(0)), Some(0));
    assert_eq!(num_to_i64(Num::from_u64(i64::MAX as u64)), Some(i64::MAX));
    assert_eq!(num_to_i64(Num::from_u64(1 << 63)), None);
    assert_eq!(num_to_i64(from_native(NativeNum::from(-1i64))), Some(-1));
    assert_eq!(num_to_i64(from_native(NativeNum::from(-i64::MAX))), Some(-i64::MAX));
    assert_eq!(num_to_i64(from_native(-NativeNum::<Fr>::from(1u64 << 63))), None);
    assert_eq!(num_to_i64(from_native(NativeNum::from(-(1i64 << 62)))), Some(-(1 << 62)));
    let middle = Num::from_u256(U256 { l0: 0, l1: 0, l2: 0, l3: 1 }).unwrap();
    assert_eq!(num_to_i64(middle), None);
}

#[test]
fn num_to_u64_takes_what_fits() {
    assert_eq!(num_to_u64(Num::from_u64(u64::MAX)), Some(u64::MAX));
    assert_eq!(num_to_u64(Num::zero()), Some(0));
    let over = Num::from_u256(U256 { l0: 0, l1: 1, l2: 0, l3: 0 }).unwrap();
    assert_eq!(num_to_u64(over), None);
}

#[test]
fn decimal_string_of_field_elements() {
    assert_eq!(to_decimal_string(Num::zero()), "0");
    assert_eq!(to_decimal_string(Num::from_u64(7)), "7");
    assert_eq!(to_decimal_string(Num::from_u64(1234567890)), "1234567890");
    assert_eq!(to_decimal_string(Num::from_u64(u64::MAX)), "18446744073709551615");
    let wide = Num::from_u256(U256 { l0: 0, l1: 1, l2: 0, l3: 0 }).unwrap();
    assert_eq!(to_decimal_string(wide), "18446744073709551616");
    let largest = from_native(-NativeNum::<Fr>::from(1u64));
    assert_eq!(
        to_decimal_string(largest),
        "21888242871839275222246405745257275088548364400416034343698204186575808495616"
    );
    assert_eq!(to_decimal_string(largest), to_native(largest).to_string());
}

#[test]
fn indexed_notes_keeps_positions_and_drops_gaps() {
    let a = Note::new(1, Num::from_u64(2), 3, 4).unwrap();
    let b = Note::new(5, Num::from_u64(6), 7, 8).unwrap();
    assert_eq!(
        indexed_notes(&[None, Some(a), None, None, Some(b)]),
        vec![IndexedNote { index: 1, note: a }, IndexedNote { index: 4, note: b }]
    );
    assert_eq!(indexed_notes(&[]), vec![]);
    assert_eq!(indexed_notes(&[None, None]), vec![]);
    assert_eq!(indexed_notes(&[Some(b)]), vec![IndexedNote { index: 0, note: b }]);
}
