//! The records of the user's log: accounts and notes, their hashes, and the bytes under
//! which the log keeps them. A record is one tag byte, 0 for an account and 1 for a note,
//! followed by the fields, each least significant byte first at its fixed width.

use crate::bytes::{
    from_le, le_bytes, le_value, lemma_le_bytes_len, lemma_le_bytes_of_value,
    lemma_le_bytes_value, lemma_le_value_bound, lemma_pow256_values, to_le,
};
use crate::crypto::{native_account_hash, native_note_hash, spec_account_hash, spec_note_hash};
use crate::field::{fr_modulus, lemma_pow256_32, Num};
use vstd::prelude::*;
use vstd::slice::slice_subrange;

verus! {

/// One past the largest diversifier and the largest salt: 2 to the power 80.
pub const LIMIT_80_BITS: u128 = 0x1_0000_0000_0000_0000_0000;

/// One past the largest leaf index: 2 to the power 48.
pub const LIMIT_48_BITS: u64 = 0x1_0000_0000_0000;

/// One past the largest energy: 2 to the power 112.
pub const LIMIT_112_BITS: u128 = 0x1_0000_0000_0000_0000_0000_0000_0000;

/// The length of an account's fields in bytes.
pub const ACCOUNT_BYTES: usize = 70;

/// The length of a note's fields in bytes.
pub const NOTE_BYTES: usize = 60;

/// The user's account as it stood at some point of the pool's history.
#[derive(Clone, Copy, Debug, PartialEq, Eq, Structural)]
pub struct Account {
    pub(crate) d: u128,
    pub(crate) p_d: Num,
    pub(crate) i: u64,
    pub(crate) b: u64,
    pub(crate) e: u128,
}

/// One unit of value that the user received.
#[derive(Clone, Copy, Debug, PartialEq, Eq, Structural)]
pub struct Note {
    pub(crate) d: u128,
    pub(crate) p_d: Num,
    pub(crate) b: u64,
    pub(crate) t: u128,
}

/// An entry of the user's log.
#[derive(Clone, Copy, Debug, PartialEq, Eq, Structural)]
pub enum Transaction {
    Account(Account),
    Note(Note),
}

impl Account {
    /// Each field is within its width: a diversifier of 80 bits, an index of 48, an energy
    /// of 112, and an address key of the field.
    #[verifier::type_invariant]
    pub closed spec fn in_range(self) -> bool {
        &&& self.d < LIMIT_80_BITS
        &&& self.p_d.is_canonical()
        &&& self.i < LIMIT_48_BITS
        &&& self.e < LIMIT_112_BITS
    }

    pub closed spec fn spec_d(&self) -> u128 {
        self.d
    }

    pub closed spec fn spec_p_d(&self) -> Num {
        self.p_d
    }

    pub closed spec fn spec_i(&self) -> u64 {
        self.i
    }

    pub closed spec fn spec_b(&self) -> u64 {
        self.b
    }

    pub closed spec fn spec_e(&self) -> u128 {
        self.e
    }

    /// An account of the given fields, if each is within its width.
    pub fn new(d: u128, p_d: Num, i: u64, b: u64, e: u128) -> (r: Option<Account>)
        ensures
            r.is_some() <==> (d < LIMIT_80_BITS && i < LIMIT_48_BITS && e < LIMIT_112_BITS),
            r matches Some(a) ==> a.d() == d && a.p_d() == p_d && a.i() == i && a.b() == b
                && a.e() == e,
    {
        if d < LIMIT_80_BITS && i < LIMIT_48_BITS && e < LIMIT_112_BITS {
            proof {
                use_type_invariant(&p_d);
            }
            Some(Account { d, p_d, i, b, e })
        } else {
            None
        }
    }

    /// The diversifier of the address.
    #[verifier::when_used_as_spec(spec_d)]
    pub fn d(&self) -> (r: u128)
        ensures
            r == self.d(),
            r < LIMIT_80_BITS,
    {
        proof {
            use_type_invariant(self);
        }
        self.d
    }

    /// The key of the address.
    #[verifier::when_used_as_spec(spec_p_d)]
    pub fn p_d(&self) -> (r: Num)
        ensures
            r == self.p_d(),
    {
        self.p_d
    }

    /// The leaf index up to which the account has taken the user's notes in.
    #[verifier::when_used_as_spec(spec_i)]
    pub fn i(&self) -> (r: u64)
        ensures
            r == self.i(),
            r < LIMIT_48_BITS,
    {
        proof {
            use_type_invariant(self);
        }
        self.i
    }

    /// The balance.
    #[verifier::when_used_as_spec(spec_b)]
    pub fn b(&self) -> (r: u64)
        ensures
            r == self.b(),
    {
        self.b
    }

    /// The energy.
    #[verifier::when_used_as_spec(spec_e)]
    pub fn e(&self) -> (r: u128)
        ensures
            r == self.e(),
            r < LIMIT_112_BITS,
    {
        proof {
            use_type_invariant(self);
        }
        self.e
    }

    /// The value of the account's hash.
    pub open spec fn hash_value(&self) -> nat {
        spec_account_hash(
            self.d() as nat,
            self.p_d()@,
            self.i() as nat,
            self.b() as nat,
            self.e() as nat,
        )
    }

    /// The hash under which the account is a leaf of the commitment tree.
    pub fn hash(&self) -> (r: Num)
        ensures
            r@ == self.hash_value(),
    {
        proof {
            use_type_invariant(self);
        }
        self.p_d.value_bound();
        native_account_hash(self.d, self.p_d, self.i, self.b, self.e)
    }

    /// The bytes of the account's fields.
    pub fn to_bytes(&self) -> (r: Vec<u8>)
        ensures
            r@ == account_bytes(*self),
            r@.len() == ACCOUNT_BYTES,
    {
        proof {
            use_type_invariant(self);
            lemma_pow256_values();
        }
        let mut out = to_le(self.d, 10);
        let mut p_d = self.p_d.to_bytes();
        let mut i = to_le(self.i as u128, 6);
        let mut b = to_le(self.b as u128, 8);
        let mut e = to_le(self.e, 14);
        out.append(&mut p_d);
        out.append(&mut i);
        out.append(&mut b);
        out.append(&mut e);
        out
    }

    /// The account that the bytes hold, if they are an account's fields.
    pub fn from_bytes(bytes: &[u8]) -> (r: Option<Account>)
        ensures
            r.is_some() <==> is_account_bytes(bytes@),
            r matches Some(a) ==> a == account_of(bytes@) && account_bytes(a) == bytes@,
    {
        if bytes.len() != ACCOUNT_BYTES {
            return None;
        }
        let sd = slice_subrange(bytes, 0, 10);
        let sp = slice_subrange(bytes, 10, 42);
        let si = slice_subrange(bytes, 42, 48);
        let sb = slice_subrange(bytes, 48, 56);
        let se = slice_subrange(bytes, 56, 70);
        proof {
            lemma_pow256_values();
            lemma_le_value_bound(sd@);
            lemma_le_value_bound(si@);
            lemma_le_value_bound(sb@);
            lemma_le_value_bound(se@);
            lemma_le_bytes_of_value(sd@);
            lemma_le_bytes_of_value(sp@);
            lemma_le_bytes_of_value(si@);
            lemma_le_bytes_of_value(sb@);
            lemma_le_bytes_of_value(se@);
        }
        let p_d = match Num::from_bytes(sp) {
            Some(p_d) => p_d,
            None => {
                return None;
            },
        };
        proof {
            use_type_invariant(&p_d);
        }
        let account = Account {
            d: from_le(sd),
            p_d,
            i: from_le(si) as u64,
            b: from_le(sb) as u64,
            e: from_le(se),
        };
        proof {
            Num::lemma_of_value(p_d);
            assert(account_bytes(account) =~= bytes@);
        }
        Some(account)
    }
}

impl Note {
    /// Each field is within its width: a diversifier and a salt of 80 bits, and an address
    /// key of the field.
    #[verifier::type_invariant]
    pub closed spec fn in_range(self) -> bool {
        &&& self.d < LIMIT_80_BITS
        &&& self.p_d.is_canonical()
        &&& self.t < LIMIT_80_BITS
    }

    pub closed spec fn spec_d(&self) -> u128 {
        self.d
    }

    pub closed spec fn spec_p_d(&self) -> Num {
        self.p_d
    }

    pub closed spec fn spec_b(&self) -> u64 {
        self.b
    }

    pub closed spec fn spec_t(&self) -> u128 {
        self.t
    }

    /// A note of the given fields, if each is within its width.
    pub fn new(d: u128, p_d: Num, b: u64, t: u128) -> (r: Option<Note>)
        ensures
            r.is_some() <==> (d < LIMIT_80_BITS && t < LIMIT_80_BITS),
            r matches Some(n) ==> n.d() == d && n.p_d() == p_d && n.b() == b && n.t() == t,
    {
        if d < LIMIT_80_BITS && t < LIMIT_80_BITS {
            proof {
                use_type_invariant(&p_d);
            }
            Some(Note { d, p_d, b, t })
        } else {
            None
        }
    }

    /// The diversifier of the address.
    #[verifier::when_used_as_spec(spec_d)]
    pub fn d(&self) -> (r: u128)
        ensures
            r == self.d(),
            r < LIMIT_80_BITS,
    {
        proof {
            use_type_invariant(self);
        }
        self.d
    }

    /// The key of the address.
    #[verifier::when_used_as_spec(spec_p_d)]
    pub fn p_d(&self) -> (r: Num)
        ensures
            r == self.p_d(),
    {
        self.p_d
    }

    /// The balance.
    #[verifier::when_used_as_spec(spec_b)]
    pub fn b(&self) -> (r: u64)
        ensures
            r == self.b(),
    {
        self.b
    }

    /// The salt.
    #[verifier::when_used_as_spec(spec_t)]
    pub fn t(&self) -> (r: u128)
        ensures
            r == self.t(),
            r < LIMIT_80_BITS,
    {
        proof {
            use_type_invariant(self);
        }
        self.t
    }

    /// The value of the note's hash.
    pub open spec fn hash_value(&self) -> nat {
        spec_note_hash(self.d() as nat, self.p_d()@, self.b() as nat, self.t() as nat)
    }

    /// The hash under which the note is a leaf of the commitment tree.
    pub fn hash(&self) -> (r: Num)
        ensures
            r@ == self.hash_value(),
    {
        proof {
            use_type_invariant(self);
        }
        self.p_d.value_bound();
        native_note_hash(self.d, self.p_d, self.b, self.t)
    }

    /// The bytes of the note's fields.
    pub fn to_bytes(&self) -> (r: Vec<u8>)
        ensures
            r@ == note_bytes(*self),
            r@.len() == NOTE_BYTES,
    {
        proof {
            use_type_invariant(self);
            lemma_pow256_values();
        }
        let mut out = to_le(self.d, 10);
        let mut p_d = self.p_d.to_bytes();
        let mut b = to_le(self.b as u128, 8);
        let mut t = to_le(self.t, 10);
        out.append(&mut p_d);
        out.append(&mut b);
        out.append(&mut t);
        out
    }

    /// The note that the bytes hold, if they are a note's fields.
    pub fn from_bytes(bytes: &[u8]) -> (r: Option<Note>)
        ensures
            r.is_some() <==> is_note_bytes(bytes@),
            r matches Some(n) ==> n == note_of(bytes@) && note_bytes(n) == bytes@,
    {
        if bytes.len() != NOTE_BYTES {
            return None;
        }
        let sd = slice_subrange(bytes, 0, 10);
        let sp = slice_subrange(bytes, 10, 42);
        let sb = slice_subrange(bytes, 42, 50);
        let st = slice_subrange(bytes, 50, 60);
        proof {
            lemma_pow256_values();
            lemma_le_value_bound(sd@);
            lemma_le_value_bound(sb@);
            lemma_le_value_bound(st@);
            lemma_le_bytes_of_value(sd@);
            lemma_le_bytes_of_value(sp@);
            lemma_le_bytes_of_value(sb@);
            lemma_le_bytes_of_value(st@);
        }
        let p_d = match Num::from_bytes(sp) {
            Some(p_d) => p_d,
            None => {
                return None;
            },
        };
        proof {
            use_type_invariant(&p_d);
        }
        let note = Note { d: from_le(sd), p_d, b: from_le(sb) as u64, t: from_le(st) };
        proof {
            Num::lemma_of_value(p_d);
            assert(note_bytes(note) =~= bytes@);
        }
        Some(note)
    }
}

/// The bytes of an account's fields: diversifier, address key, index, balance, energy.
pub open spec fn account_bytes(a: Account) -> Seq<u8> {
    le_bytes(a.d() as nat, 10) + le_bytes(a.p_d()@, 32) + le_bytes(a.i() as nat, 6) + le_bytes(
        a.b() as nat,
        8,
    ) + le_bytes(a.e() as nat, 14)
}

/// The bytes of a note's fields: diversifier, address key, balance, salt.
pub open spec fn note_bytes(n: Note) -> Seq<u8> {
    le_bytes(n.d() as nat, 10) + le_bytes(n.p_d()@, 32) + le_bytes(n.b() as nat, 8) + le_bytes(
        n.t() as nat,
        10,
    )
}

/// Whether bytes are an account's fields: they have the length, and the address key is an
/// element of the field.
pub open spec fn is_account_bytes(bytes: Seq<u8>) -> bool {
    bytes.len() == ACCOUNT_BYTES && le_value(bytes.subrange(10, 42)) < fr_modulus()
}

/// Whether bytes are a note's fields: they have the length, and the address key is an
/// element of the field.
pub open spec fn is_note_bytes(bytes: Seq<u8>) -> bool {
    bytes.len() == NOTE_BYTES && le_value(bytes.subrange(10, 42)) < fr_modulus()
}

/// The account that bytes hold.
pub closed spec fn account_of(bytes: Seq<u8>) -> Account {
    Account {
        d: le_value(bytes.subrange(0, 10)) as u128,
        p_d: Num::of_value(le_value(bytes.subrange(10, 42))),
        i: le_value(bytes.subrange(42, 48)) as u64,
        b: le_value(bytes.subrange(48, 56)) as u64,
        e: le_value(bytes.subrange(56, 70)) as u128,
    }
}

/// The note that bytes hold.
pub closed spec fn note_of(bytes: Seq<u8>) -> Note {
    Note {
        d: le_value(bytes.subrange(0, 10)) as u128,
        p_d: Num::of_value(le_value(bytes.subrange(10, 42))),
        b: le_value(bytes.subrange(42, 50)) as u64,
        t: le_value(bytes.subrange(50, 60)) as u128,
    }
}

/// The bytes of a log entry: the tag, then the fields.
pub open spec fn transaction_bytes(tx: Transaction) -> Seq<u8> {
    match tx {
        Transaction::Account(a) => seq![0u8] + account_bytes(a),
        Transaction::Note(n) => seq![1u8] + note_bytes(n),
    }
}

/// Whether bytes are a log entry.
pub open spec fn is_transaction_bytes(bytes: Seq<u8>) -> bool {
    bytes.len() >= 1 && (if bytes[0] == 0 {
        is_account_bytes(bytes.skip(1))
    } else {
        bytes[0] == 1 && is_note_bytes(bytes.skip(1))
    })
}

/// The log entry that bytes hold.
pub open spec fn transaction_of(bytes: Seq<u8>) -> Transaction {
    if bytes[0] == 0 {
        Transaction::Account(account_of(bytes.skip(1)))
    } else {
        Transaction::Note(note_of(bytes.skip(1)))
    }
}

impl Transaction {
    /// Whether the fields of the entry are within their widths.
    pub open spec fn in_range(self) -> bool {
        match self {
            Transaction::Account(a) => a.in_range(),
            Transaction::Note(n) => n.in_range(),
        }
    }

    /// The bytes under which the log keeps the entry.
    pub fn encode(&self) -> (r: Vec<u8>)
        ensures
            r@ == transaction_bytes(*self),
    {
        match self {
            Transaction::Account(a) => {
                let mut out: Vec<u8> = vec![0u8];
                let mut fields = a.to_bytes();
                out.append(&mut fields);
                out
            },
            Transaction::Note(n) => {
                let mut out: Vec<u8> = vec![1u8];
                let mut fields = n.to_bytes();
                out.append(&mut fields);
                out
            },
        }
    }

    /// The entry that the bytes hold, if they are a log entry.
    pub fn decode(bytes: &[u8]) -> (r: Option<Transaction>)
        ensures
            r.is_some() <==> is_transaction_bytes(bytes@),
            r matches Some(tx) ==> tx == transaction_of(bytes@) && transaction_bytes(tx)
                == bytes@,
    {
        if bytes.len() < 1 {
            return None;
        }
        let fields = slice_subrange(bytes, 1, bytes.len());
        proof {
            assert(fields@ =~= bytes@.skip(1));
        }
        if bytes[0] == 0 {
            match Account::from_bytes(fields) {
                Some(a) => {
                    proof {
                        assert(seq![0u8] + account_bytes(a) =~= bytes@);
                    }
                    Some(Transaction::Account(a))
                },
                None => None,
            }
        } else if bytes[0] == 1 {
            match Note::from_bytes(fields) {
                Some(n) => {
                    proof {
                        assert(seq![1u8] + note_bytes(n) =~= bytes@);
                    }
                    Some(Transaction::Note(n))
                },
                None => None,
            }
        } else {
            None
        }
    }
}

/// A note with the position at which it was found.
#[derive(Clone, Copy, Debug, PartialEq, Eq, Structural)]
pub struct IndexedNote {
    pub index: u64,
    pub note: Note,
}

/// The notes among `found`, each with its position, in order.
pub open spec fn notes_with_positions(found: Seq<Option<Note>>) -> Seq<IndexedNote>
    decreases found.len(),
{
    if found.len() == 0 {
        Seq::empty()
    } else {
        let before = notes_with_positions(found.drop_last());
        match found.last() {
            Some(note) => before.push(IndexedNote { index: (found.len() - 1) as u64, note }),
            None => before,
        }
    }
}

/// The notes that a decryption found, each with its position among the outputs that were
/// tried; an output that held no note of the user's is left out.
pub fn indexed_notes(found: &[Option<Note>]) -> (r: Vec<IndexedNote>)
    ensures
        r@ == notes_with_positions(found@),
{
    let mut out: Vec<IndexedNote> = Vec::new();
    let mut i: usize = 0;
    proof {
        assert(found@.take(0) =~= Seq::<Option<Note>>::empty());
    }
    while i < found.len()
        invariant
            i <= found@.len(),
            out@ == notes_with_positions(found@.take(i as int)),
        decreases found@.len() - i,
    {
        proof {
            assert(found@.take(i + 1).drop_last() =~= found@.take(i as int));
        }
        match found[i] {
            Some(note) => {
                out.push(IndexedNote { index: i as u64, note });
            },
            None => {},
        }
        i = i + 1;
    }
    proof {
        assert(found@.take(found@.len() as int) =~= found@);
    }
    out
}

/// Decoding the bytes of an entry gives the entry back.
pub proof fn lemma_decode_encode(tx: Transaction)
    requires
        tx.in_range(),
    ensures
        is_transaction_bytes(transaction_bytes(tx)),
        transaction_of(transaction_bytes(tx)) == tx,
{
    lemma_pow256_values();
    lemma_pow256_32();
    let bytes = transaction_bytes(tx);
    match tx {
        Transaction::Account(a) => {
            let f = account_bytes(a);
            a.p_d.lemma_canonical_bound();
            assert(bytes.skip(1) =~= f);
            lemma_le_bytes_len(a.d as nat, 10);
            lemma_le_bytes_len(a.p_d@, 32);
            lemma_le_bytes_len(a.i as nat, 6);
            lemma_le_bytes_len(a.b as nat, 8);
            lemma_le_bytes_len(a.e as nat, 14);
            assert(f.subrange(0, 10) =~= le_bytes(a.d as nat, 10));
            assert(f.subrange(10, 42) =~= le_bytes(a.p_d@, 32));
            assert(f.subrange(42, 48) =~= le_bytes(a.i as nat, 6));
            assert(f.subrange(48, 56) =~= le_bytes(a.b as nat, 8));
            assert(f.subrange(56, 70) =~= le_bytes(a.e as nat, 14));
            lemma_le_bytes_value(a.d as nat, 10);
            lemma_le_bytes_value(a.p_d@, 32);
            lemma_le_bytes_value(a.i as nat, 6);
            lemma_le_bytes_value(a.b as nat, 8);
            lemma_le_bytes_value(a.e as nat, 14);
            Num::lemma_of_value(a.p_d);
        },
        Transaction::Note(n) => {
            let f = note_bytes(n);
            n.p_d.lemma_canonical_bound();
            assert(bytes.skip(1) =~= f);
            lemma_le_bytes_len(n.d as nat, 10);
            lemma_le_bytes_len(n.p_d@, 32);
            lemma_le_bytes_len(n.b as nat, 8);
            lemma_le_bytes_len(n.t as nat, 10);
            assert(f.subrange(0, 10) =~= le_bytes(n.d as nat, 10));
            assert(f.subrange(10, 42) =~= le_bytes(n.p_d@, 32));
            assert(f.subrange(42, 50) =~= le_bytes(n.b as nat, 8));
            assert(f.subrange(50, 60) =~= le_bytes(n.t as nat, 10));
            lemma_le_bytes_value(n.d as nat, 10);
            lemma_le_bytes_value(n.p_d@, 32);
            lemma_le_bytes_value(n.b as nat, 8);
            lemma_le_bytes_value(n.t as nat, 10);
            Num::lemma_of_value(n.p_d);
        },
    }
}

} // verus!
