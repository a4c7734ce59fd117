//! The primitives that the pool's cryptography library computes for this crate, and what
//! this crate takes on trust about them. Each hash is named, not spelled out: the same
//! inputs give the same output, and nothing more is claimed of it.

use crate::bytes::le_value;
use crate::delta::{delta_energy, delta_index, delta_pool_id, delta_value, field_value};
use crate::field::{fr_modulus, fs_modulus, limbs_value, Num, Scalar, U256};
use libzeropool::fawkes_crypto::engines::bn256::{Fr, Fs};
use libzeropool::fawkes_crypto::engines::U256 as NativeU256;
use libzeropool::fawkes_crypto::ff_uint::{Num as NativeNum, NumRepr, Uint};
use libzeropool::fawkes_crypto::native::poseidon::poseidon;
use libzeropool::native::account::Account as NativeAccount;
use libzeropool::native::boundednum::BoundedNum;
use libzeropool::native::key::{derive_key_a, derive_key_eta};
use libzeropool::native::note::Note as NativeNote;
use libzeropool::native::params::PoolParams;
use libzeropool::native::tx::parse_delta;
use libzeropool::POOL_PARAMS;
use vstd::prelude::*;

verus! {

/// The hash of two child nodes of the commitment tree, each by its value.
pub uninterp spec fn spec_compress(left: nat, right: nat) -> nat;

/// The hash of an account, from the values of its fields: diversifier, address key,
/// index, balance and energy.
pub uninterp spec fn spec_account_hash(d: nat, p_d: nat, i: nat, b: nat, e: nat) -> nat;

/// The hash of a note, from the values of its fields: diversifier, address key, balance
/// and salt.
pub uninterp spec fn spec_note_hash(d: nat, p_d: nat, b: nat, t: nat) -> nat;

/// The intermediate key of a spending key.
pub uninterp spec fn spec_derive_a(sk: nat) -> nat;

/// The viewing key of an intermediate key.
pub uninterp spec fn spec_derive_eta(a: nat) -> nat;

/// `poseidon` over two inputs with the pool's parameters for compression: a field element
/// that depends on the two inputs alone.
#[verifier::external_body]
pub(crate) fn poseidon_compress(left: Num, right: Num) -> (r: Num)
    requires
        left@ < fr_modulus(),
        right@ < fr_modulus(),
    ensures
        r@ == spec_compress(left@, right@),
        r@ < fr_modulus(),
{
    let (a, b) = (left.repr, right.repr);
    let l = NativeNum::<Fr>::from_uint_unchecked(NumRepr(NativeU256 { 0: [a.l0, a.l1, a.l2, a.l3] }));
    let r = NativeNum::<Fr>::from_uint_unchecked(NumRepr(NativeU256 { 0: [b.l0, b.l1, b.l2, b.l3] }));
    let h = poseidon(&[l, r], POOL_PARAMS.compress()).to_uint().0.0;
    Num { repr: U256 { l0: h[0], l1: h[1], l2: h[2], l3: h[3] } }
}

/// `Account::hash` with the pool's parameters: a field element that depends on the five
/// fields alone. The bounds are those that `BoundedNum::new` insists on.
#[verifier::external_body]
pub(crate) fn native_account_hash(d: u128, p_d: Num, i: u64, b: u64, e: u128) -> (r: Num)
    requires
        d < 0x1_0000_0000_0000_0000_0000,
        p_d@ < fr_modulus(),
        i < 0x1_0000_0000_0000,
        e < 0x1_0000_0000_0000_0000_0000_0000_0000,
    ensures
        r@ == spec_account_hash(d as nat, p_d@, i as nat, b as nat, e as nat),
        r@ < fr_modulus(),
{
    let p = p_d.repr;
    let account = NativeAccount::<Fr> {
        d: BoundedNum::new(NativeNum::from(d)),
        p_d: NativeNum::from_uint_unchecked(NumRepr(NativeU256 { 0: [p.l0, p.l1, p.l2, p.l3] })),
        i: BoundedNum::new(NativeNum::from(i)),
        b: BoundedNum::new(NativeNum::from(b)),
        e: BoundedNum::new(NativeNum::from(e)),
    };
    let h = account.hash(&*POOL_PARAMS).to_uint().0.0;
    Num { repr: U256 { l0: h[0], l1: h[1], l2: h[2], l3: h[3] } }
}

/// `Note::hash` with the pool's parameters: a field element that depends on the four
/// fields alone. The bounds are those that `BoundedNum::new` insists on.
#[verifier::external_body]
pub(crate) fn native_note_hash(d: u128, p_d: Num, b: u64, t: u128) -> (r: Num)
    requires
        d < 0x1_0000_0000_0000_0000_0000,
        p_d@ < fr_modulus(),
        t < 0x1_0000_0000_0000_0000_0000,
    ensures
        r@ == spec_note_hash(d as nat, p_d@, b as nat, t as nat),
        r@ < fr_modulus(),
{
    let p = p_d.repr;
    let note = NativeNote::<Fr> {
        d: BoundedNum::new(NativeNum::from(d)),
        p_d: NativeNum::from_uint_unchecked(NumRepr(NativeU256 { 0: [p.l0, p.l1, p.l2, p.l3] })),
        b: BoundedNum::new(NativeNum::from(b)),
        t: BoundedNum::new(NativeNum::from(t)),
    };
    let h = note.hash(&*POOL_PARAMS).to_uint().0.0;
    Num { repr: U256 { l0: h[0], l1: h[1], l2: h[2], l3: h[3] } }
}

/// `derive_key_a` with the pool's parameters: the first coordinate of the curve's generator
/// multiplied by the spending key, a field element that depends on the key alone.
#[verifier::external_body]
pub(crate) fn native_derive_a(sk: Scalar) -> (r: Num)
    requires
        sk@ < fs_modulus(),
    ensures
        r@ == spec_derive_a(sk@),
        r@ < fr_modulus(),
{
    let s = sk.repr;
    let k = NativeNum::<Fs>::from_uint_unchecked(NumRepr(NativeU256 { 0: [s.l0, s.l1, s.l2, s.l3] }));
    let h = derive_key_a(k, &*POOL_PARAMS).x.to_uint().0.0;
    Num { repr: U256 { l0: h[0], l1: h[1], l2: h[2], l3: h[3] } }
}

/// `derive_key_eta` with the pool's parameters: a hash of the intermediate key, a field
/// element that depends on that key alone.
#[verifier::external_body]
pub(crate) fn native_derive_eta(a: Num) -> (r: Num)
    requires
        a@ < fr_modulus(),
    ensures
        r@ == spec_derive_eta(a@),
        r@ < fr_modulus(),
{
    let s = a.repr;
    let k = NativeNum::<Fr>::from_uint_unchecked(NumRepr(NativeU256 { 0: [s.l0, s.l1, s.l2, s.l3] }));
    let h = derive_key_eta(k, &*POOL_PARAMS).to_uint().0.0;
    Num { repr: U256 { l0: h[0], l1: h[1], l2: h[2], l3: h[3] } }
}

/// `Num::from_uint_reduced` of `Uint::from_little_endian`: the number that at most 32
/// bytes denote, least significant first, reduced modulo the order of the scalar field.
/// Longer input makes `from_little_endian` panic.
#[verifier::external_body]
pub(crate) fn fs_reduce(bytes: &[u8]) -> (r: Scalar)
    requires
        bytes@.len() <= 32,
    ensures
        r@ == le_value(bytes@) % fs_modulus(),
{
    let n = NativeNum::<Fs>::from_uint_reduced(NumRepr(Uint::from_little_endian(bytes)));
    let h = n.to_uint().0.0;
    Scalar { repr: U256 { l0: h[0], l1: h[1], l2: h[2], l3: h[3] } }
}

/// Addition of `Num<Fs>`: the sum modulo the order of the scalar field.
#[verifier::external_body]
pub(crate) fn fs_add(a: Scalar, b: Scalar) -> (r: Scalar)
    requires
        a@ < fs_modulus(),
        b@ < fs_modulus(),
    ensures
        r@ == (a@ + b@) % fs_modulus(),
{
    let (x, y) = (a.repr, b.repr);
    let l = NativeNum::<Fs>::from_uint_unchecked(NumRepr(NativeU256 { 0: [x.l0, x.l1, x.l2, x.l3] }));
    let r = NativeNum::<Fs>::from_uint_unchecked(NumRepr(NativeU256 { 0: [y.l0, y.l1, y.l2, y.l3] }));
    let h = (l + r).to_uint().0.0;
    Scalar { repr: U256 { l0: h[0], l1: h[1], l2: h[2], l3: h[3] } }
}

/// Multiplication of `Num<Fs>`: the product modulo the order of the scalar field.
#[verifier::external_body]
pub(crate) fn fs_mul(a: Scalar, b: Scalar) -> (r: Scalar)
    requires
        a@ < fs_modulus(),
        b@ < fs_modulus(),
    ensures
        r@ == (a@ * b@) % fs_modulus(),
{
    let (x, y) = (a.repr, b.repr);
    let l = NativeNum::<Fs>::from_uint_unchecked(NumRepr(NativeU256 { 0: [x.l0, x.l1, x.l2, x.l3] }));
    let r = NativeNum::<Fs>::from_uint_unchecked(NumRepr(NativeU256 { 0: [y.l0, y.l1, y.l2, y.l3] }));
    let h = (l * r).to_uint().0.0;
    Scalar { repr: U256 { l0: h[0], l1: h[1], l2: h[2], l3: h[3] } }
}

/// The number that four limbs in an array denote, least significant limb first.
pub open spec fn array_value(limbs: [u64; 4]) -> nat {
    limbs_value(limbs[0], limbs[1], limbs[2], limbs[3])
}

/// `parse_delta`: the four numbers that a delta packs, each as the limbs of the field
/// element that stands for it: the change of balance and the change of energy, which are
/// signed, the leaf index and the pool id.
#[verifier::external_body]
pub(crate) fn native_parse_delta(delta: Num) -> (r: ([u64; 4], [u64; 4], [u64; 4], [u64; 4]))
    requires
        delta@ < fr_modulus(),
    ensures
        array_value(r.0) == field_value(delta_value(delta@)),
        array_value(r.1) == field_value(delta_energy(delta@)),
        array_value(r.2) == delta_index(delta@),
        array_value(r.3) == delta_pool_id(delta@),
{
    let d = delta.repr;
    let n = NativeNum::<Fr>::from_uint_unchecked(NumRepr(NativeU256 { 0: [d.l0, d.l1, d.l2, d.l3] }));
    let (v, e, i, p) = parse_delta(n);
    (v.to_uint().0.0, e.to_uint().0.0, i.to_uint().0.0, p.to_uint().0.0)
}

/// The character of a decimal digit.
pub open spec fn digit_char(d: nat) -> char {
    (48 + d) as char
}

/// A number in decimal digits, without leading zeros.
pub open spec fn decimal_digits(v: nat) -> Seq<char>
    decreases v,
{
    if v < 10 {
        seq![digit_char(v)]
    } else {
        decimal_digits(v / 10).push(digit_char(v % 10))
    }
}

/// `Display` of `Num`: the value in decimal digits, without leading zeros.
#[verifier::external_body]
pub(crate) fn native_to_decimal(n: Num) -> (r: String)
    requires
        n@ < fr_modulus(),
    ensures
        r@ == decimal_digits(n@),
{
    let d = n.repr;
    NativeNum::<Fr>::from_uint_unchecked(NumRepr(NativeU256 { 0: [d.l0, d.l1, d.l2, d.l3] }))
        .to_string()
}

/// A field element in decimal digits.
pub fn to_decimal_string(n: Num) -> (r: String)
    ensures
        r@ == decimal_digits(n@),
{
    n.value_bound();
    native_to_decimal(n)
}

/// The hash of two child nodes.
pub fn compress(left: Num, right: Num) -> (r: Num)
    ensures
        r@ == spec_compress(left@, right@),
{
    left.value_bound();
    right.value_bound();
    poseidon_compress(left, right)
}

} // verus!
