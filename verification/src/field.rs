//! 256-bit values and the two prime fields of the pool: the base field `Fr`, in which hashes,
//! commitments and keys live, and the scalar field `Fs` of the embedded curve, in which the
//! spending key lives. An element is held by its canonical value, as four 64-bit limbs.

use crate::bytes::{
    from_le, le_bytes, le_value, lemma_le_bytes_of_value, lemma_le_value_bound,
    lemma_le_value_concat, lemma_pow256_add, lemma_pow256_values, pow256, to_le,
};
use vstd::prelude::*;
use vstd::slice::slice_subrange;

verus! {

/// The order of the base field `Fr`.
pub open spec fn fr_modulus() -> nat {
    0x30644e72e131a029b85045b68181585d2833e84879b9709143e1f593f0000001nat
}

/// The order of the scalar field `Fs`.
pub open spec fn fs_modulus() -> nat {
    0x060c89ce5c263405370a08b6d0302b0bab3eedb83920ee0a677297dc392126f1nat
}

/// The number that four limbs denote, least significant limb first.
pub open spec fn limbs_value(l0: u64, l1: u64, l2: u64, l3: u64) -> nat {
    (l0 as nat) + (l1 as nat) * 0x1_0000_0000_0000_0000nat + (l2 as nat)
        * 0x1_0000_0000_0000_0000_0000_0000_0000_0000nat + (l3 as nat)
        * 0x1_0000_0000_0000_0000_0000_0000_0000_0000_0000_0000_0000_0000nat
}

/// An unsigned 256-bit integer.
#[derive(Clone, Copy, Debug, PartialEq, Eq, Structural)]
pub struct U256 {
    pub l0: u64,
    pub l1: u64,
    pub l2: u64,
    pub l3: u64,
}

impl View for U256 {
    type V = nat;

    open spec fn view(&self) -> nat {
        limbs_value(self.l0, self.l1, self.l2, self.l3)
    }
}

/// 256 to the power 32 is 2 to the power 256.
pub proof fn lemma_pow256_32()
    ensures
        pow256(32)
            == 0x1_0000_0000_0000_0000_0000_0000_0000_0000_0000_0000_0000_0000_0000_0000_0000_0000nat,
{
    lemma_pow256_values();
    lemma_pow256_add(16, 16);
    assert(0x1_0000_0000_0000_0000_0000_0000_0000_0000nat * 0x1_0000_0000_0000_0000_0000_0000_0000_0000nat
        == 0x1_0000_0000_0000_0000_0000_0000_0000_0000_0000_0000_0000_0000_0000_0000_0000_0000nat)
        by (nonlinear_arith);
}

/// A number has one lowest digit and one rest in any base.
proof fn lemma_split_digits(x0: int, x1: int, y0: int, y1: int, w: int)
    by (nonlinear_arith)
    requires
        0 <= x0 < w,
        0 <= y0 < w,
        x0 + w * x1 == y0 + w * y1,
    ensures
        x0 == y0,
        x1 == y1,
{
}

impl U256 {
    /// Equal numbers have equal limbs.
    pub proof fn lemma_view_injective(a: U256, b: U256)
        requires
            a@ == b@,
        ensures
            a == b,
    {
        let w: int = 0x1_0000_0000_0000_0000;
        let a2 = a.l2 as int + w * (a.l3 as int);
        let b2 = b.l2 as int + w * (b.l3 as int);
        let a1 = a.l1 as int + w * a2;
        let b1 = b.l1 as int + w * b2;
        assert(a@ == a.l0 as int + w * a1);
        assert(b@ == b.l0 as int + w * b1);
        lemma_split_digits(a.l0 as int, a1, b.l0 as int, b1, w);
        lemma_split_digits(a.l1 as int, a2, b.l1 as int, b2, w);
        lemma_split_digits(a.l2 as int, a.l3 as int, b.l2 as int, b.l3 as int, w);
    }

    pub fn from_u64(x: u64) -> (r: U256)
        ensures
            r@ == x,
    {
        U256 { l0: x, l1: 0, l2: 0, l3: 0 }
    }

    /// Whether `self` is the smaller number.
    pub fn lt(&self, other: &U256) -> (r: bool)
        ensures
            r == (self@ < other@),
    {
        if self.l3 != other.l3 {
            self.l3 < other.l3
        } else if self.l2 != other.l2 {
            self.l2 < other.l2
        } else if self.l1 != other.l1 {
            self.l1 < other.l1
        } else {
            self.l0 < other.l0
        }
    }

    /// Reads 32 bytes, least significant first.
    pub fn from_le_bytes(s: &[u8]) -> (r: U256)
        requires
            s@.len() == 32,
        ensures
            r@ == le_value(s@),
    {
        let a = slice_subrange(s, 0, 8);
        let b = slice_subrange(s, 8, 16);
        let c = slice_subrange(s, 16, 24);
        let d = slice_subrange(s, 24, 32);
        proof {
            lemma_pow256_values();
            lemma_le_value_bound(a@);
            lemma_le_value_bound(b@);
            lemma_le_value_bound(c@);
            lemma_le_value_bound(d@);
            let cd = c@ + d@;
            let bcd = b@ + cd;
            assert(s@ =~= a@ + bcd);
            lemma_le_value_concat(a@, bcd);
            lemma_le_value_concat(b@, cd);
            lemma_le_value_concat(c@, d@);
        }
        let l0: u64 = from_le(a) as u64;
        let l1: u64 = from_le(b) as u64;
        let l2: u64 = from_le(c) as u64;
        let l3: u64 = from_le(d) as u64;
        U256 { l0, l1, l2, l3 }
    }

    /// Writes the number as 32 bytes, least significant first.
    pub fn to_le_bytes(&self) -> (r: Vec<u8>)
        ensures
            r@.len() == 32,
            le_value(r@) == self@,
            r@ == le_bytes(self@, 32),
    {
        proof {
            lemma_pow256_values();
        }
        let mut out: Vec<u8> = to_le(self.l0 as u128, 8);
        let mut b: Vec<u8> = to_le(self.l1 as u128, 8);
        let mut c: Vec<u8> = to_le(self.l2 as u128, 8);
        let mut d: Vec<u8> = to_le(self.l3 as u128, 8);
        let ghost sa = out@;
        let ghost sb = b@;
        let ghost sc = c@;
        let ghost sd = d@;
        out.append(&mut b);
        out.append(&mut c);
        out.append(&mut d);
        proof {
            let cd = sc + sd;
            let bcd = sb + cd;
            assert(out@ =~= sa + bcd);
            lemma_le_value_concat(sa, bcd);
            lemma_le_value_concat(sb, cd);
            lemma_le_value_concat(sc, sd);
            assert(le_value(cd) == self.l2 as nat + 0x1_0000_0000_0000_0000nat * (self.l3 as nat));
            assert(le_value(bcd) == self.l1 as nat + 0x1_0000_0000_0000_0000nat * le_value(cd));
            assert(le_value(out@) == self.l0 as nat + 0x1_0000_0000_0000_0000nat * le_value(bcd));
            lemma_le_bytes_of_value(out@);
        }
        out
    }
}

/// An element of the base field `Fr`, held by its canonical value.
#[derive(Clone, Copy, Debug, PartialEq, Eq, Structural)]
pub struct Num {
    pub(crate) repr: U256,
}

impl View for Num {
    type V = nat;

    closed spec fn view(&self) -> nat {
        self.repr@
    }
}

/// The 256-bit integer with the given value.
pub open spec fn u256_of(v: nat) -> U256 {
    U256 {
        l0: (v % 0x1_0000_0000_0000_0000) as u64,
        l1: ((v / 0x1_0000_0000_0000_0000) % 0x1_0000_0000_0000_0000) as u64,
        l2: ((v / 0x1_0000_0000_0000_0000_0000_0000_0000_0000nat) % 0x1_0000_0000_0000_0000)
            as u64,
        l3: ((v / 0x1_0000_0000_0000_0000_0000_0000_0000_0000_0000_0000_0000_0000nat)
            % 0x1_0000_0000_0000_0000) as u64,
    }
}

/// `u256_of` gives back the integer whose value it is given.
pub proof fn lemma_u256_of_view(x: U256)
    ensures
        u256_of(x@) == x,
{
    let w: int = 0x1_0000_0000_0000_0000;
    let v = x@ as int;
    let a2 = x.l2 as int + w * (x.l3 as int);
    let a1 = x.l1 as int + w * a2;
    assert(v == x.l0 as int + w * a1);
    lemma_digit(x.l0 as int, a1, w);
    assert(v / w == a1 && v % w == x.l0);
    lemma_digit(x.l1 as int, a2, w);
    lemma_digit(x.l2 as int, x.l3 as int, w);
    vstd::arithmetic::div_mod::lemma_div_denominator(v, w, w);
    vstd::arithmetic::div_mod::lemma_div_denominator(v, w * w, w);
    assert(w * w == 0x1_0000_0000_0000_0000_0000_0000_0000_0000int) by (nonlinear_arith)
        requires
            w == 0x1_0000_0000_0000_0000,
    ;
    assert((w * w) * w == 0x1_0000_0000_0000_0000_0000_0000_0000_0000_0000_0000_0000_0000int)
        by (nonlinear_arith)
        requires
            w == 0x1_0000_0000_0000_0000,
    ;
    assert(v / (w * w) == a2);
    assert(v / ((w * w) * w) == x.l3 as int) by {
        assert(a2 / w == x.l3 as int);
    }
    lemma_digit(x.l3 as int, 0, w);
}

/// Division and remainder take a number apart into its lowest digit and the rest.
proof fn lemma_digit(x0: int, x1: int, w: int)
    by (nonlinear_arith)
    requires
        0 <= x0 < w,
    ensures
        (x0 + w * x1) / w == x1,
        (x0 + w * x1) % w == x0,
{
}

fn fr_modulus_repr() -> (r: U256)
    ensures
        r@ == fr_modulus(),
{
    U256 {
        l0: 0x43e1f593f0000001,
        l1: 0x2833e84879b97091,
        l2: 0xb85045b68181585d,
        l3: 0x30644e72e131a029,
    }
}

fn fs_modulus_repr() -> (r: U256)
    ensures
        r@ == fs_modulus(),
{
    U256 {
        l0: 0x677297dc392126f1,
        l1: 0xab3eedb83920ee0a,
        l2: 0x370a08b6d0302b0b,
        l3: 0x060c89ce5c263405,
    }
}

impl Num {
    /// Every element is below the field's order.
    #[verifier::type_invariant]
    pub closed spec fn is_canonical(self) -> bool {
        self.repr@ < fr_modulus()
    }

    /// The element with the given value.
    pub closed spec fn of_value(v: nat) -> Num {
        Num { repr: u256_of(v) }
    }

    /// A canonical element has a value below the field's order.
    pub proof fn lemma_canonical_bound(self)
        requires
            self.is_canonical(),
        ensures
            self@ < fr_modulus(),
    {
    }

    /// `of_value` gives back the element whose value it is given.
    pub proof fn lemma_of_value(x: Num)
        ensures
            Num::of_value(x@) == x,
    {
        lemma_u256_of_view(x.repr);
    }

    /// Equal values are the same element.
    pub proof fn lemma_view_injective(a: Num, b: Num)
        requires
            a@ == b@,
        ensures
            a == b,
    {
        U256::lemma_view_injective(a.repr, b.repr);
    }

    /// The value of any element that executable code holds is below the field's order.
    pub fn value_bound(&self)
        ensures
            self@ < fr_modulus(),
    {
        proof {
            use_type_invariant(self);
        }
    }

    pub fn zero() -> (r: Num)
        ensures
            r@ == 0,
    {
        Num { repr: U256::from_u64(0) }
    }

    pub fn from_u64(x: u64) -> (r: Num)
        ensures
            r@ == x,
    {
        Num { repr: U256::from_u64(x) }
    }

    /// The element with the given value, if the value is below the field's order.
    pub fn from_u256(x: U256) -> (r: Option<Num>)
        ensures
            r.is_some() <==> x@ < fr_modulus(),
            r matches Some(n) ==> n@ == x@,
    {
        let m = fr_modulus_repr();
        if x.lt(&m) {
            Some(Num { repr: x })
        } else {
            None
        }
    }

    pub fn to_u256(&self) -> (r: U256)
        ensures
            r@ == self@,
            r@ < fr_modulus(),
    {
        proof {
            use_type_invariant(self);
        }
        self.repr
    }

    /// Decodes the canonical form: exactly 32 bytes, least significant first, below the
    /// field's order.
    pub fn from_bytes(s: &[u8]) -> (r: Option<Num>)
        ensures
            r.is_some() <==> (s@.len() == 32 && le_value(s@) < fr_modulus()),
            r matches Some(n) ==> n@ == le_value(s@),
    {
        if s.len() != 32 {
            return None;
        }
        Num::from_u256(U256::from_le_bytes(s))
    }

    /// The canonical form: 32 bytes, least significant first.
    pub fn to_bytes(&self) -> (r: Vec<u8>)
        ensures
            r@.len() == 32,
            le_value(r@) == self@,
            le_value(r@) < fr_modulus(),
            r@ == le_bytes(self@, 32),
    {
        proof {
            use_type_invariant(self);
        }
        self.repr.to_le_bytes()
    }
}

/// An element of the scalar field `Fs`, held by its canonical value.
#[derive(Clone, Copy, Debug, PartialEq, Eq, Structural)]
pub struct Scalar {
    pub(crate) repr: U256,
}

impl View for Scalar {
    type V = nat;

    closed spec fn view(&self) -> nat {
        self.repr@
    }
}

impl Scalar {
    /// Every element is below the field's order.
    #[verifier::type_invariant]
    pub closed spec fn is_canonical(self) -> bool {
        self.repr@ < fs_modulus()
    }

    /// Equal values are the same element.
    pub proof fn lemma_view_injective(a: Scalar, b: Scalar)
        requires
            a@ == b@,
        ensures
            a == b,
    {
        U256::lemma_view_injective(a.repr, b.repr);
    }

    /// The value of any element that executable code holds is below the field's order.
    pub fn value_bound(&self)
        ensures
            self@ < fs_modulus(),
    {
        proof {
            use_type_invariant(self);
        }
    }

    pub fn zero() -> (r: Scalar)
        ensures
            r@ == 0,
    {
        Scalar { repr: U256::from_u64(0) }
    }

    pub fn from_u64(x: u64) -> (r: Scalar)
        ensures
            r@ == x,
    {
        Scalar { repr: U256::from_u64(x) }
    }

    /// The element with the given value, if the value is below the field's order.
    pub fn from_u256(x: U256) -> (r: Option<Scalar>)
        ensures
            r.is_some() <==> x@ < fs_modulus(),
            r matches Some(n) ==> n@ == x@,
    {
        let m = fs_modulus_repr();
        if x.lt(&m) {
            Some(Scalar { repr: x })
        } else {
            None
        }
    }

    pub fn to_u256(&self) -> (r: U256)
        ensures
            r@ == self@,
            r@ < fs_modulus(),
    {
        proof {
            use_type_invariant(self);
        }
        self.repr
    }

    /// The canonical form: 32 bytes, least significant first.
    pub fn to_bytes(&self) -> (r: Vec<u8>)
        ensures
            r@.len() == 32,
            le_value(r@) == self@,
            le_value(r@) < fs_modulus(),
            r@ == le_bytes(self@, 32),
    {
        proof {
            use_type_invariant(self);
        }
        self.repr.to_le_bytes()
    }
}

} // verus!
