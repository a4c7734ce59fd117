//! Fixed-width integer encodings used for store keys (big-endian, so that byte order is
//! numeric order) and for stored values (little-endian).

use vstd::prelude::*;

verus! {

/// 256 to the power `n`.
pub open spec fn pow256(n: nat) -> nat
    decreases n,
{
    if n == 0 {
        1
    } else {
        256 * pow256((n - 1) as nat)
    }
}

/// The number a byte string denotes when read least significant byte first.
pub open spec fn le_value(s: Seq<u8>) -> nat
    decreases s.len(),
{
    if s.len() == 0 {
        0
    } else {
        s[0] as nat + 256 * le_value(s.drop_first())
    }
}

/// The number a byte string denotes when read most significant byte first.
pub open spec fn be_value(s: Seq<u8>) -> nat
    decreases s.len(),
{
    if s.len() == 0 {
        0
    } else {
        be_value(s.drop_last()) * 256 + s.last() as nat
    }
}

/// Lexicographic order on byte strings: the order of `Vec<u8>` and of byte slices.
pub open spec fn lex_lt(a: Seq<u8>, b: Seq<u8>) -> bool
    decreases a.len(),
{
    if b.len() == 0 {
        false
    } else if a.len() == 0 {
        true
    } else if a[0] != b[0] {
        a[0] < b[0]
    } else {
        lex_lt(a.drop_first(), b.drop_first())
    }
}

pub proof fn lemma_pow256_add(a: nat, b: nat)
    ensures
        pow256(a + b) == pow256(a) * pow256(b),
    decreases a,
{
    if a == 0 {
        assert(pow256(a + b) == 1 * pow256(b));
    } else {
        lemma_pow256_add((a - 1) as nat, b);
        let x = pow256((a - 1) as nat);
        let y = pow256(b);
        assert(pow256(a + b) == 256 * pow256((a - 1 + b) as nat));
        assert(256 * (x * y) == (256 * x) * y) by (nonlinear_arith);
    }
}

pub proof fn lemma_pow256_monotonic(a: nat, b: nat)
    requires
        a <= b,
    ensures
        pow256(a) <= pow256(b),
    decreases b,
{
    if a < b {
        lemma_pow256_monotonic(a, (b - 1) as nat);
    }
}

/// The powers of 256 that the fixed widths of this crate need.
pub proof fn lemma_pow256_values()
    ensures
        pow256(0) == 1,
        pow256(1) == 0x100,
        pow256(4) == 0x1_0000_0000,
        pow256(6) == 0x1_0000_0000_0000,
        pow256(8) == 0x1_0000_0000_0000_0000,
        pow256(10) == 0x1_0000_0000_0000_0000_0000nat,
        pow256(14) == 0x1_0000_0000_0000_0000_0000_0000_0000nat,
        pow256(16) == 0x1_0000_0000_0000_0000_0000_0000_0000_0000nat,
{
    reveal_with_fuel(pow256, 17);
}

pub proof fn lemma_le_value_bound(s: Seq<u8>)
    ensures
        le_value(s) < pow256(s.len()),
    decreases s.len(),
{
    if s.len() > 0 {
        lemma_le_value_bound(s.drop_first());
    }
}

pub proof fn lemma_be_value_bound(s: Seq<u8>)
    ensures
        be_value(s) < pow256(s.len()),
    decreases s.len(),
{
    if s.len() > 0 {
        lemma_be_value_bound(s.drop_last());
    }
}

/// Appending high bytes adds their value shifted past the low ones.
pub proof fn lemma_le_value_concat(a: Seq<u8>, b: Seq<u8>)
    ensures
        le_value(a + b) == le_value(a) + pow256(a.len()) * le_value(b),
    decreases a.len(),
{
    if a.len() == 0 {
        assert(a + b =~= b);
        assert(pow256(a.len()) == 1);
    } else {
        let a1 = a.drop_first();
        assert((a + b).drop_first() =~= a1 + b);
        lemma_le_value_concat(a1, b);
        let p = pow256(a1.len());
        let v = le_value(b);
        assert(256 * (p * v) == (256 * p) * v) by (nonlinear_arith);
    }
}

pub proof fn lemma_le_value_push(a: Seq<u8>, x: u8)
    ensures
        le_value(a.push(x)) == le_value(a) + pow256(a.len()) * (x as nat),
{
    let b = seq![x];
    assert(a.push(x) =~= a + b);
    lemma_le_value_concat(a, b);
    assert(b.drop_first() =~= Seq::<u8>::empty());
    assert(le_value(b) == x as nat) by {
        assert(le_value(b.drop_first()) == 0);
    }
}

/// Appending low bytes shifts the high ones up.
pub proof fn lemma_be_value_concat(a: Seq<u8>, b: Seq<u8>)
    ensures
        be_value(a + b) == be_value(a) * pow256(b.len()) + be_value(b),
    decreases b.len(),
{
    if b.len() == 0 {
        assert(a + b =~= a);
        assert(pow256(b.len()) == 1);
    } else {
        let b1 = b.drop_last();
        assert((a + b).drop_last() =~= a + b1);
        assert((a + b).last() == b.last());
        lemma_be_value_concat(a, b1);
        let p = pow256(b1.len());
        let v = be_value(a);
        assert((v * p) * 256 == v * (256 * p)) by (nonlinear_arith);
    }
}

/// The first byte of a big-endian string carries the highest weight.
pub proof fn lemma_be_value_first(s: Seq<u8>)
    requires
        s.len() > 0,
    ensures
        be_value(s) == (s[0] as nat) * pow256((s.len() - 1) as nat) + be_value(s.drop_first()),
{
    let a = seq![s[0]];
    assert(s =~= a + s.drop_first());
    lemma_be_value_concat(a, s.drop_first());
    assert(a.drop_last() =~= Seq::<u8>::empty());
    assert(be_value(a) == s[0] as nat) by {
        assert(be_value(a.drop_last()) == 0);
    }
}

/// Two big-endian strings of one length that denote the same number are the same string.
pub proof fn lemma_be_value_injective(a: Seq<u8>, b: Seq<u8>)
    requires
        a.len() == b.len(),
        be_value(a) == be_value(b),
    ensures
        a == b,
    decreases a.len(),
{
    if a.len() == 0 {
        assert(a =~= b);
    } else {
        let x = be_value(a.drop_last());
        let y = be_value(b.drop_last());
        assert(x * 256 + a.last() as nat == y * 256 + b.last() as nat);
        assert(x == y && a.last() == b.last());
        lemma_be_value_injective(a.drop_last(), b.drop_last());
        assert(a =~= a.drop_last().push(a.last()));
        assert(b =~= b.drop_last().push(b.last()));
    }
}

/// Two little-endian strings of one length that denote the same number are the same string.
pub proof fn lemma_le_value_injective(a: Seq<u8>, b: Seq<u8>)
    requires
        a.len() == b.len(),
        le_value(a) == le_value(b),
    ensures
        a == b,
    decreases a.len(),
{
    if a.len() == 0 {
        assert(a =~= b);
    } else {
        let x = le_value(a.drop_first());
        let y = le_value(b.drop_first());
        assert(a[0] as nat + 256 * x == b[0] as nat + 256 * y);
        assert(x == y && a[0] == b[0]);
        lemma_le_value_injective(a.drop_first(), b.drop_first());
        assert(a =~= seq![a[0]] + a.drop_first());
        assert(b =~= seq![b[0]] + b.drop_first());
    }
}

/// On big-endian strings of one length, byte order is numeric order.
pub proof fn lemma_lex_lt_is_numeric(a: Seq<u8>, b: Seq<u8>)
    requires
        a.len() == b.len(),
    ensures
        lex_lt(a, b) <==> be_value(a) < be_value(b),
    decreases a.len(),
{
    if a.len() > 0 {
        let n = (a.len() - 1) as nat;
        let ra = a.drop_first();
        let rb = b.drop_first();
        lemma_be_value_first(a);
        lemma_be_value_first(b);
        lemma_be_value_bound(ra);
        lemma_be_value_bound(rb);
        lemma_lex_lt_is_numeric(ra, rb);
        let p = pow256(n);
        let x = a[0] as nat;
        let y = b[0] as nat;
        if x < y {
            assert(x * p + p <= y * p) by (nonlinear_arith)
                requires
                    x + 1 <= y,
            ;
        } else if x > y {
            assert(y * p + p <= x * p) by (nonlinear_arith)
                requires
                    y + 1 <= x,
            ;
        }
    }
}

/// `x` written as `n` bytes, least significant first.
pub open spec fn le_bytes(x: nat, n: nat) -> Seq<u8>
    decreases n,
{
    if n == 0 {
        Seq::empty()
    } else {
        seq![(x % 256) as u8] + le_bytes(x / 256, (n - 1) as nat)
    }
}

pub proof fn lemma_le_bytes_len(x: nat, n: nat)
    ensures
        le_bytes(x, n).len() == n,
    decreases n,
{
    if n > 0 {
        lemma_le_bytes_len(x / 256, (n - 1) as nat);
    }
}

/// Reading back what was written gives the number, if it fits the width.
pub proof fn lemma_le_bytes_value(x: nat, n: nat)
    requires
        x < pow256(n),
    ensures
        le_value(le_bytes(x, n)) == x,
    decreases n,
{
    if n > 0 {
        let s = le_bytes(x, n);
        let t = le_bytes(x / 256, (n - 1) as nat);
        lemma_le_bytes_value(x / 256, (n - 1) as nat);
        assert(s.drop_first() =~= t);
        assert(s[0] == (x % 256) as u8);
    }
}

/// Writing the number that a string denotes, at the string's width, gives the string.
pub proof fn lemma_le_bytes_of_value(s: Seq<u8>)
    ensures
        le_bytes(le_value(s), s.len()) == s,
{
    let t = le_bytes(le_value(s), s.len());
    lemma_le_bytes_len(le_value(s), s.len());
    lemma_le_value_bound(s);
    lemma_le_bytes_value(le_value(s), s.len());
    lemma_le_value_injective(t, s);
}

/// `x` written as `n` bytes, most significant first.
pub open spec fn be_bytes(x: nat, n: nat) -> Seq<u8>
    decreases n,
{
    if n == 0 {
        Seq::empty()
    } else {
        be_bytes(x / 256, (n - 1) as nat).push((x % 256) as u8)
    }
}

pub proof fn lemma_be_bytes_len(x: nat, n: nat)
    ensures
        be_bytes(x, n).len() == n,
    decreases n,
{
    if n > 0 {
        lemma_be_bytes_len(x / 256, (n - 1) as nat);
    }
}

/// Reading back what was written gives the number, if it fits the width.
pub proof fn lemma_be_bytes_value(x: nat, n: nat)
    requires
        x < pow256(n),
    ensures
        be_value(be_bytes(x, n)) == x,
    decreases n,
{
    if n > 0 {
        let s = be_bytes(x, n);
        let t = be_bytes(x / 256, (n - 1) as nat);
        lemma_be_bytes_value(x / 256, (n - 1) as nat);
        assert(s.drop_last() =~= t);
        assert(s.last() == (x % 256) as u8);
    }
}

/// Writing the number that a string denotes, at the string's width, gives the string.
pub proof fn lemma_be_bytes_of_value(s: Seq<u8>)
    ensures
        be_bytes(be_value(s), s.len()) == s,
{
    let t = be_bytes(be_value(s), s.len());
    lemma_be_bytes_len(be_value(s), s.len());
    lemma_be_value_bound(s);
    lemma_be_bytes_value(be_value(s), s.len());
    lemma_be_value_injective(t, s);
}

/// Writes `x` as `n` bytes, least significant first.
pub fn to_le(x: u128, n: usize) -> (r: Vec<u8>)
    requires
        n <= 16,
        x < pow256(n as nat),
    ensures
        r@.len() == n,
        le_value(r@) == x,
        r@ == le_bytes(x as nat, n as nat),
{
    let mut out: Vec<u8> = Vec::new();
    let mut rest: u128 = x;
    let mut i: usize = 0;
    proof {
        assert(pow256(0) == 1);
    }
    while i < n
        invariant
            i <= n <= 16,
            out@.len() == i,
            le_value(out@) + pow256(i as nat) * (rest as nat) == x,
            rest < pow256((n - i) as nat),
        decreases n - i,
    {
        let byte: u8 = (rest % 256) as u8;
        let next: u128 = rest / 256;
        proof {
            lemma_le_value_push(out@, byte);
            let p = pow256(i as nat);
            assert(pow256((i + 1) as nat) == 256 * p);
            assert(p * (rest as nat) == p * (byte as nat) + (256 * p) * (next as nat))
                by (nonlinear_arith)
                requires
                    rest as nat == 256 * (next as nat) + byte as nat,
            ;
            assert(pow256((n - i) as nat) == 256 * pow256((n - i - 1) as nat));
        }
        out.push(byte);
        rest = next;
        i = i + 1;
    }
    proof {
        assert(pow256(0) == 1);
        assert(rest == 0);
        assert(pow256(n as nat) * 0 == 0);
        lemma_le_bytes_of_value(out@);
    }
    out
}

/// Reads up to 16 bytes as a number, least significant first.
pub fn from_le(s: &[u8]) -> (r: u128)
    requires
        s@.len() <= 16,
    ensures
        r == le_value(s@),
{
    let n: usize = s.len();
    let mut acc: u128 = 0;
    let mut i: usize = n;
    proof {
        assert(s@.subrange(n as int, n as int) =~= Seq::<u8>::empty());
    }
    while i > 0
        invariant
            i <= n <= 16,
            n == s@.len(),
            acc == le_value(s@.subrange(i as int, n as int)),
        decreases i,
    {
        proof {
            let cur = s@.subrange(i as int, n as int);
            let ext = s@.subrange(i - 1, n as int);
            assert(ext.drop_first() =~= cur);
            lemma_le_value_bound(ext);
            lemma_pow256_monotonic(ext.len(), 16);
            lemma_pow256_values();
        }
        acc = acc * 256 + s[i - 1] as u128;
        i = i - 1;
    }
    proof {
        assert(s@.subrange(0, n as int) =~= s@);
    }
    acc
}

/// Writes `x` as `n` bytes, most significant first.
pub fn to_be(x: u64, n: usize) -> (r: Vec<u8>)
    requires
        n <= 8,
        x < pow256(n as nat),
    ensures
        r@.len() == n,
        be_value(r@) == x,
        r@ == be_bytes(x as nat, n as nat),
{
    let mut out: Vec<u8> = Vec::new();
    let mut i: usize = 0;
    while i < n
        invariant
            i <= n,
            out@.len() == i,
        decreases n - i,
    {
        out.push(0u8);
        i = i + 1;
    }
    let mut rest: u64 = x;
    let mut k: usize = n;
    proof {
        assert(out@.subrange(n as int, n as int) =~= Seq::<u8>::empty());
        assert(pow256((n - n) as nat) == 1);
    }
    while k > 0
        invariant
            k <= n <= 8,
            out@.len() == n,
            be_value(out@.subrange(k as int, n as int)) + pow256((n - k) as nat) * (rest as nat)
                == x,
            rest < pow256(k as nat),
        decreases k,
    {
        let byte: u8 = (rest % 256) as u8;
        let next: u64 = rest / 256;
        let ghost before = out@;
        out.set(k - 1, byte);
        proof {
            let tail = before.subrange(k as int, n as int);
            let ext = out@.subrange(k - 1, n as int);
            assert(out@.subrange(k as int, n as int) =~= tail);
            assert(ext.drop_first() =~= tail);
            lemma_be_value_first(ext);
            let p = pow256((n - k) as nat);
            assert(pow256((n - k + 1) as nat) == 256 * p);
            assert(p * (rest as nat) == (byte as nat) * p + (256 * p) * (next as nat))
                by (nonlinear_arith)
                requires
                    rest as nat == 256 * (next as nat) + byte as nat,
            ;
            assert(pow256(k as nat) == 256 * pow256((k - 1) as nat));
        }
        rest = next;
        k = k - 1;
    }
    proof {
        assert(rest == 0);
        assert(pow256(n as nat) * 0 == 0);
        assert(out@.subrange(0, n as int) =~= out@);
        lemma_be_bytes_of_value(out@);
    }
    out
}

/// Reads up to 8 bytes as a number, most significant first.
pub fn from_be(s: &[u8]) -> (r: u64)
    requires
        s@.len() <= 8,
    ensures
        r == be_value(s@),
{
    let n: usize = s.len();
    let mut acc: u64 = 0;
    let mut i: usize = 0;
    proof {
        assert(s@.subrange(0, 0) =~= Seq::<u8>::empty());
    }
    while i < n
        invariant
            i <= n <= 8,
            n == s@.len(),
            acc == be_value(s@.subrange(0, i as int)),
        decreases n - i,
    {
        proof {
            let cur = s@.subrange(0, i as int);
            let ext = s@.subrange(0, i + 1);
            assert(ext.drop_last() =~= cur);
            lemma_be_value_bound(ext);
            lemma_pow256_monotonic(ext.len(), 8);
            lemma_pow256_values();
        }
        acc = acc * 256 + s[i] as u64;
        i = i + 1;
    }
    proof {
        assert(s@.subrange(0, n as int) =~= s@);
    }
    acc
}

} // verus!
