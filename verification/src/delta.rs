//! The delta of a transaction: one field element that packs the change of balance, the
//! change of energy, the leaf index and the pool's id, and what this library reads from it.

use crate::crypto::native_parse_delta;
use crate::field::{fr_modulus, Num, U256};
use vstd::prelude::*;

verus! {

/// 2 to the power 64: the number of values of a change of balance.
pub open spec fn balance_span() -> nat {
    0x1_0000_0000_0000_0000nat
}

/// 2 to the power 112: the number of values of a change of energy.
pub open spec fn energy_span() -> nat {
    0x1_0000_0000_0000_0000_0000_0000_0000nat
}

/// 2 to the power 48: the number of leaf indices.
pub open spec fn index_span() -> nat {
    0x1_0000_0000_0000nat
}

/// 2 to the power 24: the number of pool ids.
pub open spec fn pool_id_span() -> nat {
    0x100_0000nat
}

/// The number that `raw` stands for among `span` values in two's complement: itself in the
/// lower half, and `raw - span` in the upper.
pub open spec fn signed_reading(raw: nat, span: nat) -> int {
    if 2 * raw < span {
        raw as int
    } else {
        raw - span
    }
}

/// The value of the field element that stands for `x`: `x` itself if it is not negative,
/// else the field's order less `-x`.
pub open spec fn field_value(x: int) -> nat {
    if x >= 0 {
        x as nat
    } else {
        (fr_modulus() + x) as nat
    }
}

/// The integer that a field element stands for: its value if that is within `i64`, else
/// its value less the field's order.
pub open spec fn signed_value(v: nat) -> int {
    if v <= i64::MAX {
        v as int
    } else {
        v - fr_modulus()
    }
}

/// The change of balance that a delta packs: its lowest 64 bits, read as signed.
pub open spec fn delta_value(delta: nat) -> int {
    signed_reading(delta % balance_span(), balance_span())
}

/// The change of energy that a delta packs: the next 112 bits, read as signed.
pub open spec fn delta_energy(delta: nat) -> int {
    signed_reading((delta / balance_span()) % energy_span(), energy_span())
}

/// The leaf index that a delta packs: the 48 bits above the energy.
pub open spec fn delta_index(delta: nat) -> nat {
    (delta / (balance_span() * energy_span())) % index_span()
}

/// The pool id that a delta packs: the 24 bits above the index.
pub open spec fn delta_pool_id(delta: nat) -> nat {
    (delta / (balance_span() * energy_span() * index_span())) % pool_id_span()
}

/// What a delta packs, as machine integers.
#[derive(Clone, Copy, Debug, PartialEq, Eq, Structural)]
pub struct ParsedDelta {
    /// The change of balance.
    pub v: i64,
    /// The change of energy.
    pub e: i64,
    /// The leaf index.
    pub index: u64,
}

fn fr_negative_threshold() -> (r: U256)
    ensures
        r@ == fr_modulus() - i64::MAX,
{
    U256 {
        l0: 0xc3e1f593f0000002,
        l1: 0x2833e84879b97090,
        l2: 0xb85045b68181585d,
        l3: 0x30644e72e131a029,
    }
}

/// The integer that a field element stands for, if it is within `i64` and not the lowest
/// value of `i64`.
pub fn num_to_i64(n: Num) -> (r: Option<i64>)
    ensures
        r.is_some() <==> -i64::MAX <= signed_value(n@) <= i64::MAX,
        r matches Some(x) ==> x == signed_value(n@),
{
    let u = n.to_u256();
    if u.l3 == 0 && u.l2 == 0 && u.l1 == 0 && u.l0 <= 0x7fff_ffff_ffff_ffff {
        return Some(u.l0 as i64);
    }
    let threshold = fr_negative_threshold();
    if u.lt(&threshold) {
        return None;
    }
    // At most `i64::MAX` below the order: only the two lowest limbs can differ from it.

    let low: u64 = 0x43e1f593f0000001;
    let high: u64 = 0x2833e84879b97091;
    proof {
        assert(u.l3 == 0x30644e72e131a029 && u.l2 == 0xb85045b68181585d);
        assert(u.l1 == high || u.l1 == high - 1);
    }
    let below: u64 = if u.l1 == high {
        low - u.l0
    } else {
        (u64::MAX - u.l0) + low + 1
    };
    Some(-(below as i64))
}

/// The number that a field element holds, if it is within `u64`.
pub fn num_to_u64(n: Num) -> (r: Option<u64>)
    ensures
        r.is_some() <==> n@ <= u64::MAX,
        r matches Some(x) ==> x == n@,
{
    let u = n.to_u256();
    if u.l3 == 0 && u.l2 == 0 && u.l1 == 0 {
        Some(u.l0)
    } else {
        None
    }
}

/// What a delta packs. Gives nothing if the change of balance is the lowest value of 64
/// signed bits, or if the change of energy does not fit `i64` or is its lowest value.
pub fn parse_delta(delta: Num) -> (r: Option<ParsedDelta>)
    ensures
        r.is_some() <==> delta_value(delta@) != i64::MIN && -i64::MAX <= delta_energy(delta@)
            <= i64::MAX,
        r matches Some(p) ==> p.v == delta_value(delta@) && p.e == delta_energy(delta@)
            && p.index == delta_index(delta@),
{
    delta.value_bound();
    let (v, e, index, pool_id) = native_parse_delta(delta);
    proof {
        lemma_signed_bounds(delta@);
    }
    let v = Num::from_u256(U256 { l0: v[0], l1: v[1], l2: v[2], l3: v[3] });
    let e = Num::from_u256(U256 { l0: e[0], l1: e[1], l2: e[2], l3: e[3] });
    let index = Num::from_u256(U256 { l0: index[0], l1: index[1], l2: index[2], l3: index[3] });
    match (v, e, index) {
        (Some(v), Some(e), Some(index)) => {
            match (num_to_i64(v), num_to_i64(e), num_to_u64(index)) {
                (Some(v), Some(e), Some(index)) => Some(ParsedDelta { v, e, index }),
                _ => None,
            }
        },
        _ => None,
    }
}

/// The numbers that a delta packs are within their widths, so that the field elements that
/// stand for them are within the field.
pub proof fn lemma_signed_bounds(delta: nat)
    ensures
        -0x8000_0000_0000_0000 <= delta_value(delta) < 0x8000_0000_0000_0000,
        -0x8000_0000_0000_0000_0000_0000_0000 <= delta_energy(delta)
            < 0x8000_0000_0000_0000_0000_0000_0000,
        delta_index(delta) < index_span(),
        field_value(delta_value(delta)) < fr_modulus(),
        field_value(delta_energy(delta)) < fr_modulus(),
{
}

} // verus!
