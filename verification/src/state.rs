//! The state of one user of the pool: the commitment tree, the log of the user's own
//! accounts and notes, and the balance and latest indices that follow from the log.

use crate::error::Error;
use crate::field::Num;
use crate::merkle::{hash_values, valid_position, MerkleTree, OUTPLUSONELOG};
use crate::merkle_spec::{
    insert_leaves, larger, leaves_end, lemma_pow2n_values, pow2n, update_path, HEIGHT,
};
use crate::kv::{is_column_listing, pairs_view};
use crate::sparse_array::{
    is_ascending_listing, records_in, records_view, slice_of, SparseArray,
};
use crate::state_spec::{
    account_at, apply_account, apply_note, balance_of, earliest_from, initial, is_first_from,
    latest_account_of, latest_note_index_of, lemma_first_from, lemma_latest_account,
    lemma_latest_note, lemma_no_account, lemma_no_note, lemma_note_sum_gap, log_of, note_at,
    note_balance_at, note_sum, records_decode, replay, Derived,
};
use crate::tx::{is_transaction_bytes, lemma_decode_encode, Account, Note, Transaction};
use vstd::prelude::*;

verus! {

/// The tree, the log, and what follows from the log.
pub struct State {
    tree: MerkleTree,
    /// Holds only the user's own accounts and notes.
    txs: SparseArray,
    latest_account: Option<Account>,
    latest_account_index: u64,
    /// The index of the latest note that the user owns.
    latest_note_index: u64,
    total_balance: u64,
}

impl State {
    /// The tree and the log are both in order, and every record of the log is an entry.
    pub closed spec fn wf(&self) -> bool {
        self.tree.wf() && self.txs.wf() && records_decode(self.txs@)
    }

    pub closed spec fn spec_tree(&self) -> &MerkleTree {
        &self.tree
    }

    /// The commitment tree.
    #[verifier::when_used_as_spec(spec_tree)]
    pub fn tree(&self) -> (r: &MerkleTree)
        requires
            self.wf(),
        ensures
            r == self.tree(),
            r.wf(),
    {
        &self.tree
    }

    /// The log: the user's own accounts and notes, each at its leaf index.
    pub closed spec fn log(&self) -> Map<u64, Transaction> {
        log_of(self.txs@)
    }

    /// What the state holds besides the tree and the log.
    pub closed spec fn derived(&self) -> Derived {
        Derived {
            latest_account: self.latest_account,
            latest_account_index: self.latest_account_index,
            latest_note_index: self.latest_note_index,
            total_balance: self.total_balance as nat,
        }
    }

    /// A fresh state over an empty tree and an empty log.
    pub fn init_test() -> (r: State)
        ensures
            r.wf(),
            r.log() == Map::<u64, Transaction>::empty(),
            r.tree().nodes() == Map::<(nat, nat), nat>::empty(),
            r.tree().next_index_spec() == 0,
            r.derived() == initial(),
    {
        let r = State {
            tree: MerkleTree::new_test(),
            txs: SparseArray::new_test(),
            latest_account: None,
            latest_account_index: 0,
            latest_note_index: 0,
            total_balance: 0,
        };
        assert(r.log() =~= Map::<u64, Transaction>::empty());
        r
    }

    /// The state that a tree and a log determine: the log is replayed once in ascending
    /// order of its indices. Fails with `Error::Corruption` if a record of the log is no
    /// entry, and else with `Error::Overflow` if the balance leaves the range of 64 bits.
    pub fn new(tree: MerkleTree, txs: SparseArray) -> (r: Result<State, Error>)
        requires
            tree.wf(),
            txs.wf(),
        ensures
            r is Ok <==> records_decode(txs@) && balance_of(log_of(txs@)) <= u64::MAX,
            r matches Ok(state) ==> state.wf() && *state.tree() == tree && state.log() == log_of(
                txs@,
            ) && state.derived() == replay(log_of(txs@)),
            r matches Err(e) ==> e == (if records_decode(txs@) {
                Error::Overflow
            } else {
                Error::Corruption
            }),
    {
        let ghost log = log_of(txs@);
        let items = txs.iter();
        let ghost listing = records_view(items@);
        let mut latest_account: Option<Account> = None;
        let mut latest_account_index: u64 = 0;
        let mut latest_note_index: u64 = 0;
        let ghost mut note_seen = false;
        let mut j: usize = 0;
        while j < items.len()
            invariant
                j <= items.len(),
                listing == records_view(items@),
                log == log_of(txs@),
                is_ascending_listing(txs@, listing),
                forall|m: int| 0 <= m < j ==> is_transaction_bytes_at(txs@, (#[trigger] listing[m]).0),
                forall|m: int|
                    0 <= m < j && account_at(log, (#[trigger] listing[m]).0) ==> listing[m].0
                        <= latest_account_index,
                forall|m: int|
                    0 <= m < j && note_at(log, (#[trigger] listing[m]).0) ==> listing[m].0
                        <= latest_note_index,
                latest_account matches Some(account) ==> account_at(log, latest_account_index)
                    && log[latest_account_index] == Transaction::Account(account),
                latest_account is None ==> latest_account_index == 0 && forall|m: int|
                    0 <= m < j ==> !account_at(log, (#[trigger] listing[m]).0),
                note_seen ==> note_at(log, latest_note_index),
                !note_seen ==> latest_note_index == 0 && forall|m: int|
                    0 <= m < j ==> !note_at(log, (#[trigger] listing[m]).0),
            decreases items.len() - j,
        {
            let index = items[j].0;
            proof {
                assert(listing[j as int] == (items@[j as int].0, items@[j as int].1@));
                assert(txs@.contains_key(listing[j as int].0));
            }
            match Transaction::decode(items[j].1.as_slice()) {
                None => {
                    return Err(Error::Corruption);
                },
                Some(Transaction::Account(account)) => {
                    proof {
                        assert forall|m: int|
                            0 <= m < j + 1 && account_at(
                                log,
                                (#[trigger] listing[m]).0,
                            ) implies listing[m].0 <= index by {
                            if m < j {
                                assert(listing[m].0 < listing[j as int].0);
                            }
                        }
                    }
                    latest_account_index = index;
                    latest_account = Some(account);
                },
                Some(Transaction::Note(_)) => {
                    proof {
                        assert forall|m: int|
                            0 <= m < j + 1 && note_at(
                                log,
                                (#[trigger] listing[m]).0,
                            ) implies listing[m].0 <= index by {
                            if m < j {
                                assert(listing[m].0 < listing[j as int].0);
                            }
                        }
                        note_seen = true;
                    }
                    latest_note_index = index;
                },
            }
            j = j + 1;
        }
        proof {
            assert forall|i: u64| #[trigger] txs@.contains_key(i) implies is_transaction_bytes_at(
                txs@,
                i,
            ) by {
                let m = choose|m: int| 0 <= m < listing.len() && (#[trigger] listing[m]).0 == i;
                assert(is_transaction_bytes_at(txs@, listing[m].0));
            }
            assert(records_decode(txs@));
            if latest_account is Some {
                assert forall|k: u64| #[trigger] account_at(log, k) implies k
                    <= latest_account_index by {
                    let m = choose|m: int| 0 <= m < listing.len() && (#[trigger] listing[m]).0 == k;
                    assert(account_at(log, listing[m].0));
                }
                lemma_latest_account(log, latest_account_index);
            } else {
                assert forall|k: u64| !account_at(log, k) by {
                    if account_at(log, k) {
                        let m = choose|m: int|
                            0 <= m < listing.len() && (#[trigger] listing[m]).0 == k;
                        assert(!account_at(log, listing[m].0));
                    }
                }
                lemma_no_account(log);
            }
            if note_seen {
                assert forall|k: u64| #[trigger] note_at(log, k) implies k <= latest_note_index by {
                    let m = choose|m: int| 0 <= m < listing.len() && (#[trigger] listing[m]).0 == k;
                    assert(note_at(log, listing[m].0));
                }
                lemma_latest_note(log, latest_note_index);
            } else {
                assert forall|k: u64| !note_at(log, k) by {
                    if note_at(log, k) {
                        let m = choose|m: int|
                            0 <= m < listing.len() && (#[trigger] listing[m]).0 == k;
                        assert(!note_at(log, listing[m].0));
                    }
                }
                lemma_no_note(log);
            }
        }
        let mut total_balance: u64 = 0;
        match latest_account {
            None => {},
            Some(account) => {
                total_balance = account.b();
                if account.i() <= latest_note_index {
                    let lo: u64 = account.i() + 1;
                    let hi: u64 = latest_note_index;
                    let notes = txs.iter_slice(lo, hi);
                    let ghost part = records_view(notes@);
                    let ghost mut upto: int = lo - 1;
                    let mut m: usize = 0;
                    while m < notes.len()
                        invariant
                            m <= notes.len(),
                            part == records_view(notes@),
                            log == log_of(txs@),
                            records_decode(txs@),
                            is_ascending_listing(slice_of(txs@, lo, hi), part),
                            lo - 1 <= upto <= hi,
                            lo == account.i() + 1,
                            latest_account_of(log) == Some(account),
                            latest_note_index_of(log) == hi,
                            forall|n: int| 0 <= n < m ==> (#[trigger] part[n]).0 <= upto,
                            forall|n: int| m <= n < part.len() ==> (#[trigger] part[n]).0 > upto,
                            total_balance == account.b() + note_sum(log, lo as int, upto),
                        decreases notes.len() - m,
                    {
                        let index = notes[m].0;
                        proof {
                            assert(part[m as int] == (notes@[m as int].0, notes@[m as int].1@));
                            assert(slice_of(txs@, lo, hi).contains_key(part[m as int].0));
                            assert(txs@.contains_key(index));
                            assert forall|k: u64| upto < k < index implies !#[trigger] note_at(
                                log,
                                k,
                            ) by {
                                if note_at(log, k) {
                                    assert(slice_of(txs@, lo, hi).contains_key(k));
                                    let n = choose|n: int|
                                        0 <= n < part.len() && (#[trigger] part[n]).0 == k;
                                    if n < m {
                                        assert(part[n].0 <= upto);
                                    } else if n > m {
                                        assert(part[m as int].0 < part[n].0);
                                    }
                                }
                            }
                            lemma_note_sum_gap(log, lo as int, upto, index - 1);
                            lemma_note_sum_tail(log, lo as int, index as int, hi as int);
                        }
                        let added: u64 = match Transaction::decode(notes[m].1.as_slice()) {
                            Some(Transaction::Note(note)) => note.b(),
                            _ => 0,
                        };
                        proof {
                            assert(added == note_balance_at(log, index as int));
                        }
                        if added > u64::MAX - total_balance {
                            proof {
                                assert(note_sum(log, lo as int, index as int) == note_sum(
                                    log,
                                    lo as int,
                                    index - 1,
                                ) + added);
                            }
                            return Err(Error::Overflow);
                        }
                        total_balance = total_balance + added;
                        proof {
                            assert forall|n: int| m + 1 <= n < part.len() implies (
                            #[trigger] part[n]).0 > index by {
                                assert(part[m as int].0 < part[n].0);
                            }
                            upto = index as int;
                        }
                        m = m + 1;
                    }
                    proof {
                        assert forall|k: u64| upto < k <= hi implies !#[trigger] note_at(log, k) by {
                            if note_at(log, k) {
                                assert(slice_of(txs@, lo, hi).contains_key(k));
                                let n = choose|n: int|
                                    0 <= n < part.len() && (#[trigger] part[n]).0 == k;
                                assert(part[n].0 <= upto);
                            }
                        }
                        lemma_note_sum_gap(log, lo as int, upto, hi as int);
                    }
                }
            },
        }
        let state = State {
            tree,
            txs,
            latest_account,
            latest_account_index,
            latest_note_index,
            total_balance,
        };
        Ok(state)
    }

    /// The entries of the log's database as they are stored, in ascending order of the
    /// keys: what has to be written elsewhere to keep the log.
    pub fn export_log(&self) -> (r: Vec<(Vec<u8>, Vec<u8>)>)
        requires
            self.wf(),
        ensures
            is_column_listing(self.log_entries(), 0u32, pairs_view(r@)),
    {
        self.txs.export()
    }

    /// What the database behind the log holds, by column and key.
    pub closed spec fn log_entries(&self) -> Map<(u32, Seq<u8>), Seq<u8>> {
        self.txs.entries()
    }

    /// The log is made of the records among the entries of its database.
    pub proof fn lemma_log_entries(&self)
        ensures
            self.log() == log_of(records_in(self.log_entries())),
    {
        self.txs.lemma_entries();
    }

    /// Takes the state apart into its tree and its log.
    pub fn into_parts(self) -> (r: (MerkleTree, SparseArray))
        requires
            self.wf(),
        ensures
            r.0 == *self.tree(),
            r.0.wf(),
            r.1.wf(),
            records_decode(r.1@),
            log_of(r.1@) == self.log(),
    {
        (self.tree, self.txs)
    }

    /// Adds an account to the log at `at_index` and its hash to the tree as that leaf. If
    /// the index is higher than that of every account added before, the account becomes
    /// the latest and the balance is reset to the account's own; otherwise the latest
    /// account and the balance stay as they are.
    pub fn add_account(&mut self, at_index: u64, account: Account)
        requires
            old(self).wf(),
            at_index < pow2n(HEIGHT as nat),
        ensures
            final(self).wf(),
            final(self).log() == old(self).log().insert(at_index, Transaction::Account(account)),
            final(self).tree().nodes() == update_path(
                old(self).tree().nodes(),
                0,
                at_index as nat,
                account.hash_value(),
            ),
            final(self).tree().next_index_spec() == larger(
                old(self).tree().next_index_spec(),
                (at_index + 1) as nat,
            ),
            final(self).derived() == apply_account(old(self).derived(), at_index, account),
    {
        let hash = account.hash();
        let entry = Transaction::Account(account);
        let record = entry.encode();
        proof {
            use_type_invariant(&account);
            lemma_decode_encode(entry);
        }
        self.txs.set(at_index, record.as_slice());
        self.tree.add_hash(at_index, hash, false);
        if self.latest_account.is_none() || at_index > self.latest_account_index {
            self.latest_account_index = at_index;
            self.latest_account = Some(account);
            self.total_balance = account.b();
        }
        proof {
            assert(self.log() =~= old(self).log().insert(at_index, entry));
        }
    }

    /// Adds a received note to the log at `at_index` and its hash to the tree as that leaf.
    /// The index becomes the latest of the notes if it is higher, and the note's balance is
    /// added to the balance whatever the index.
    pub fn add_received_note(&mut self, at_index: u64, note: Note)
        requires
            old(self).wf(),
            at_index < pow2n(HEIGHT as nat),
            old(self).derived().total_balance + note.b() <= u64::MAX,
        ensures
            final(self).wf(),
            final(self).log() == old(self).log().insert(at_index, Transaction::Note(note)),
            final(self).tree().nodes() == update_path(
                old(self).tree().nodes(),
                0,
                at_index as nat,
                note.hash_value(),
            ),
            final(self).tree().next_index_spec() == larger(
                old(self).tree().next_index_spec(),
                (at_index + 1) as nat,
            ),
            final(self).derived() == apply_note(old(self).derived(), at_index, note),
    {
        let entry = Transaction::Note(note);
        let record = entry.encode();
        proof {
            use_type_invariant(&note);
            lemma_decode_encode(entry);
        }
        self.txs.set(at_index, record.as_slice());
        let hash = note.hash();
        self.tree.add_hash(at_index, hash, false);
        if at_index > self.latest_note_index {
            self.latest_note_index = at_index;
        }
        self.total_balance = self.total_balance + note.b();
        proof {
            assert(self.log() =~= old(self).log().insert(at_index, entry));
        }
    }

    /// Adds hashes to the tree as the leaves `start_index`, `start_index + 1` and so on.
    /// The log and what follows from it stay as they are.
    pub fn add_hashes(&mut self, start_index: u64, hashes: &[Num])
        requires
            old(self).wf(),
            start_index + hashes@.len() <= pow2n(HEIGHT as nat),
        ensures
            final(self).wf(),
            final(self).log() == old(self).log(),
            final(self).derived() == old(self).derived(),
            final(self).tree().nodes() == insert_leaves(
                old(self).tree().nodes(),
                start_index as nat,
                hash_values(hashes@),
            ),
            final(self).tree().next_index_spec() == (if hashes@.len() == 0 {
                old(self).tree().next_index_spec()
            } else {
                larger(old(self).tree().next_index_spec(), (start_index + hashes@.len()) as nat)
            }),
    {
        proof {
            lemma_pow2n_values();
        }
        let ghost values = hash_values(hashes@);
        let ghost target = insert_leaves(old(self).tree().nodes(), start_index as nat, values);
        let mut j: usize = 0;
        proof {
            assert(values.skip(0) =~= values);
        }
        while j < hashes.len()
            invariant
                self.wf(),
                j <= hashes@.len(),
                start_index + hashes@.len() <= 0x1_0000_0000_0000,
                pow2n(HEIGHT as nat) == 0x1_0000_0000_0000,
                values == hash_values(hashes@),
                self.log() == old(self).log(),
                self.derived() == old(self).derived(),
                insert_leaves(self.tree.nodes(), (start_index + j) as nat, values.skip(j as int))
                    == target,
                self.tree.next_index_spec() == (if j == 0 {
                    old(self).tree().next_index_spec()
                } else {
                    larger(old(self).tree().next_index_spec(), (start_index + j) as nat)
                }),
            decreases hashes@.len() - j,
        {
            proof {
                let rest = values.skip(j as int);
                assert(rest[0] == hashes@[j as int]@);
                assert(rest.drop_first() =~= values.skip(j + 1));
            }
            self.tree.add_hash(start_index + j as u64, hashes[j], false);
            j = j + 1;
        }
    }

    /// The first index of the log that is the index of the latest account or above; 0 if
    /// there is none, as on an empty log.
    pub fn earliest_usable_index(&self) -> (r: u64)
        requires
            self.wf(),
        ensures
            r == earliest_from(self.log(), self.derived().latest_account_index),
    {
        let from = self.latest_account_index;
        let items = self.txs.iter_slice(from, u64::MAX);
        let ghost listing = records_view(items@);
        let ghost log = self.log();
        if items.len() > 0 {
            let first = items[0].0;
            proof {
                assert(listing[0] == (items@[0].0, items@[0].1@));
                assert(slice_of(self.txs@, from, u64::MAX).contains_key(listing[0].0));
                assert forall|j: u64| #[trigger] log.contains_key(j) && from <= j implies first
                    <= j by {
                    assert(slice_of(self.txs@, from, u64::MAX).contains_key(j));
                    let n = choose|n: int| 0 <= n < listing.len() && (#[trigger] listing[n]).0 == j;
                    if n > 0 {
                        assert(listing[0].0 < listing[n].0);
                    }
                }
                assert(is_first_from(log, from, first));
                lemma_first_from(log, from, first);
            }
            first
        } else {
            proof {
                assert forall|k: u64| !is_first_from(log, from, k) by {
                    if is_first_from(log, from, k) {
                        assert(slice_of(self.txs@, from, u64::MAX).contains_key(k));
                    }
                }
            }
            0
        }
    }

    /// The user's balance: that of the account and of the notes counted on top of it.
    pub fn total_balance(&self) -> (r: Num)
        ensures
            r@ == self.derived().total_balance,
    {
        Num::from_u64(self.total_balance)
    }

    /// The highest index at which an account was added; 0 if none was.
    pub fn latest_account_index(&self) -> (r: u64)
        ensures
            r == self.derived().latest_account_index,
    {
        self.latest_account_index
    }

    /// The highest index at which a note was added; 0 if none was.
    pub fn latest_note_index(&self) -> (r: u64)
        ensures
            r == self.derived().latest_note_index,
    {
        self.latest_note_index
    }

    /// Stores `hash` in the tree as the commitment of the transaction number `index`: the
    /// node of that index at the height of commitments. The log and what follows from it
    /// stay as they are.
    pub fn add_commitment(&mut self, index: u64, hash: Num)
        requires
            old(self).wf(),
            valid_position(OUTPLUSONELOG as nat, index as nat),
        ensures
            final(self).wf(),
            final(self).log() == old(self).log(),
            final(self).derived() == old(self).derived(),
            final(self).tree().nodes() == update_path(
                old(self).tree().nodes(),
                OUTPLUSONELOG as nat,
                index as nat,
                hash@,
            ),
            final(self).tree().next_index_spec() == larger(
                old(self).tree().next_index_spec(),
                leaves_end(OUTPLUSONELOG as nat, index as nat),
            ),
    {
        self.tree.add_hash_at_height(OUTPLUSONELOG, index, hash, false);
    }

    /// The account that was added at the highest index, if any was added.
    pub fn latest_account(&self) -> (r: Option<Account>)
        ensures
            r == self.derived().latest_account,
    {
        self.latest_account
    }

    /// The entry of the log at `index`, if there is one.
    pub fn get_transaction(&self, index: u64) -> (r: Option<Transaction>)
        requires
            self.wf(),
        ensures
            r.is_some() <==> self.log().contains_key(index),
            r matches Some(tx) ==> tx == self.log()[index],
    {
        match self.txs.get(index) {
            Some(bytes) => Transaction::decode(bytes.as_slice()),
            None => None,
        }
    }
}

/// Whether the record at `i` is a log entry.
pub open spec fn is_transaction_bytes_at(records: Map<u64, Seq<u8>>, i: u64) -> bool {
    records.contains_key(i) && is_transaction_bytes(records[i])
}

/// The sum up to `hi` is no less than the sum up to any index before it.
pub proof fn lemma_note_sum_tail(log: Map<u64, Transaction>, lo: int, k: int, hi: int)
    requires
        k <= hi,
    ensures
        note_sum(log, lo, k) <= note_sum(log, lo, hi),
    decreases hi - k,
{
    if k < hi {
        lemma_note_sum_tail(log, lo, k, hi - 1);
        if hi < lo {
            assert(note_sum(log, lo, k) == 0);
        }
    }
}

} // verus!
