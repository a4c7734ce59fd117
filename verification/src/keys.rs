//! The user's keys: the spending key, a scalar, and the two keys derived from it.

use crate::bytes::{
    le_value, lemma_le_value_bound, lemma_le_value_concat, lemma_le_value_push,
    lemma_pow256_add, lemma_pow256_values, pow256,
};
use crate::crypto::{
    fs_add, fs_mul, fs_reduce, native_derive_a, native_derive_eta, spec_derive_a,
    spec_derive_eta,
};
use crate::error::Error;
use crate::field::{fs_modulus, lemma_pow256_32, Num, Scalar, U256};
use vstd::arithmetic::div_mod::{lemma_add_mod_noop, lemma_mul_mod_noop_general};
use vstd::prelude::*;
use vstd::slice::slice_subrange;

verus! {

/// The spending key and the keys derived from it.
#[derive(Clone, Copy, Debug)]
pub struct Keys {
    /// The spending key.
    pub sk: Scalar,
    /// The intermediate key.
    pub a: Num,
    /// The viewing key.
    pub eta: Num,
}

impl Keys {
    /// The keys of a spending key.
    pub fn derive(sk: Scalar) -> (r: Keys)
        ensures
            r.sk == sk,
            r.a@ == spec_derive_a(sk@),
            r.eta@ == spec_derive_eta(r.a@),
    {
        sk.value_bound();
        let a = native_derive_a(sk);
        a.value_bound();
        let eta = native_derive_eta(a);
        Keys { sk, a, eta }
    }
}

/// A string of zero bytes denotes 0, and a string with another byte denotes more.
pub proof fn lemma_le_value_zero(s: Seq<u8>)
    ensures
        (forall|i: int| 0 <= i < s.len() ==> s[i] == 0) <==> le_value(s) == 0,
    decreases s.len(),
{
    if s.len() > 0 {
        let rest = s.drop_first();
        lemma_le_value_zero(rest);
        if forall|i: int| 0 <= i < s.len() ==> s[i] == 0 {
            assert forall|i: int| 0 <= i < rest.len() implies rest[i] == 0 by {
                assert(rest[i] == s[i + 1]);
            }
        }
        if le_value(s) == 0 {
            assert(s[0] == 0 && le_value(rest) == 0);
            assert forall|i: int| 0 <= i < s.len() implies s[i] == 0 by {
                if i > 0 {
                    assert(rest[i - 1] == s[i]);
                }
            }
        }
    }
}

fn is_all_zero(s: &[u8]) -> (r: bool)
    ensures
        r <==> le_value(s@) == 0,
{
    let mut i: usize = 0;
    while i < s.len()
        invariant
            i <= s@.len(),
            forall|j: int| 0 <= j < i ==> s@[j] == 0,
        decreases s@.len() - i,
    {
        if s[i] != 0 {
            proof {
                lemma_le_value_zero(s@);
            }
            return false;
        }
        i = i + 1;
    }
    proof {
        lemma_le_value_zero(s@);
    }
    true
}

/// The scalar that bytes denote, least significant first: the spending key as it is
/// given. Fails with `Error::InvalidInput` if the number is not below the order of the
/// scalar field.
pub fn sk_from_bytes(bytes: &[u8]) -> (r: Result<Scalar, Error>)
    ensures
        r is Ok <==> le_value(bytes@) < fs_modulus(),
        r matches Ok(sk) ==> sk@ == le_value(bytes@),
        r matches Err(e) ==> e == Error::InvalidInput,
{
    let n = bytes.len();
    let mut low: Vec<u8> = Vec::new();
    let mut i: usize = 0;
    let ghost head = bytes@.subrange(0, if n < 32 {
        n as int
    } else {
        32
    });
    while i < 32
        invariant
            i <= 32,
            n == bytes@.len(),
            low@.len() == i,
            forall|j: int| 0 <= j < i && j < n ==> low@[j] == bytes@[j],
            forall|j: int| 0 <= j < i && j >= n ==> low@[j] == 0,
        decreases 32 - i,
    {
        low.push(if i < n {
            bytes[i]
        } else {
            0u8
        });
        i = i + 1;
    }
    proof {
        // The padded copy denotes what the first 32 bytes denote.
        let pad = low@.subrange(head.len() as int, 32);
        assert(low@ =~= head + pad);
        lemma_le_value_concat(head, pad);
        lemma_le_value_zero(pad);
        assert(le_value(pad) == 0);
        assert(pow256(head.len()) * 0 == 0);
        lemma_pow256_32();
    }
    if n > 32 {
        let high = slice_subrange(bytes, 32, n);
        proof {
            assert(bytes@ =~= head + high@);
            lemma_le_value_concat(head, high@);
            lemma_le_value_bound(head);
            let p = pow256(32);
            let v = le_value(high@);
            assert(v >= 1 ==> p * v >= p) by (nonlinear_arith)
                requires
                    p >= 0,
            ;
            assert(v == 0 ==> p * v == 0);
        }
        if !is_all_zero(high) {
            return Err(Error::InvalidInput);
        }
    } else {
        proof {
            assert(bytes@ =~= head);
        }
    }
    match Scalar::from_u256(U256::from_le_bytes(low.as_slice())) {
        Some(sk) => Ok(sk),
        None => Err(Error::InvalidInput),
    }
}

/// The spending key of a seed: the number that the seed's bytes denote, least significant
/// first, reduced modulo the order of the scalar field. Any seed gives a key.
pub fn reduce_sk(seed: &[u8]) -> (r: Scalar)
    ensures
        r@ == le_value(seed@) % fs_modulus(),
{
    let n = seed.len();
    if n <= 32 {
        return fs_reduce(seed);
    }
    // 2 to the power 256, reduced: the weight of one chunk of 32 bytes over the next.

    let mut half: Vec<u8> = Vec::new();
    let mut i: usize = 0;
    while i < 16
        invariant
            i <= 16,
            half@.len() == i,
            le_value(half@) == 0,
        decreases 16 - i,
    {
        proof {
            lemma_le_value_push(half@, 0u8);
            assert(pow256(half@.len()) * 0 == 0);
        }
        half.push(0u8);
        i = i + 1;
    }
    proof {
        lemma_le_value_push(half@, 1u8);
        lemma_pow256_values();
        lemma_pow256_32();
    }
    half.push(1u8);
    let root = fs_reduce(half.as_slice());
    root.value_bound();
    let weight = fs_mul(root, root);
    let ghost q = fs_modulus() as int;
    let ghost p = pow256(32) as int;
    proof {
        let h = pow256(16) as int;
        lemma_mul_mod_noop_general(h, h, q);
        assert(h * h == p) by {
            lemma_pow256_add(16, 16);
        }
        assert(weight@ == p % q);
    }
    // The highest chunk, which may be short, and then each chunk below it.
    let mut lo: usize = (n - 1) / 32 * 32;
    let top = slice_subrange(seed, lo, n);
    let mut acc = fs_reduce(top);
    proof {
        assert(top@ =~= seed@.subrange(lo as int, n as int));
    }
    while lo > 0
        invariant
            lo <= n,
            n == seed@.len(),
            lo % 32 == 0,
            q == fs_modulus(),
            p == pow256(32),
            weight@ == p % q,
            acc@ == le_value(seed@.subrange(lo as int, n as int)) % fs_modulus(),
        decreases lo,
    {
        let chunk = slice_subrange(seed, lo - 32, lo);
        let low = fs_reduce(chunk);
        let ghost rest = seed@.subrange(lo as int, n as int);
        acc.value_bound();
        weight.value_bound();
        let shifted = fs_mul(acc, weight);
        shifted.value_bound();
        low.value_bound();
        let next = fs_add(shifted, low);
        proof {
            let c = le_value(chunk@) as int;
            let r = le_value(rest) as int;
            assert(seed@.subrange(lo - 32, n as int) =~= chunk@ + rest);
            lemma_le_value_concat(chunk@, rest);
            lemma_mul_mod_noop_general(r, p, q);
            assert(shifted@ == (r * p) % q);
            lemma_add_mod_noop(r * p, c, q);
            assert(next@ == (r * p + c) % q);
            assert(r * p == p * r) by (nonlinear_arith);
        }
        acc = next;
        lo = lo - 32;
    }
    proof {
        assert(seed@.subrange(0, n as int) =~= seed@);
    }
    acc
}

} // verus!
