//! The user's log as mathematics: what the latest account, the latest indices and the
//! balance are for a given log, what each mutation makes of them, and when the two agree.

use crate::tx::{is_transaction_bytes, transaction_of, Account, Note, Transaction};
use vstd::prelude::*;

verus! {

/// The log that records hold: each record by the entry that its bytes are.
pub open spec fn log_of(records: Map<u64, Seq<u8>>) -> Map<u64, Transaction> {
    Map::new(|i: u64| records.contains_key(i), |i: u64| transaction_of(records[i]))
}

/// Whether every record is a log entry.
pub open spec fn records_decode(records: Map<u64, Seq<u8>>) -> bool {
    forall|i: u64| #[trigger] records.contains_key(i) ==> is_transaction_bytes(records[i])
}

/// What the log determines besides itself.
pub struct Derived {
    /// The account of the highest index, if the log holds an account.
    pub latest_account: Option<Account>,
    /// The highest index of an account; 0 if there is none.
    pub latest_account_index: u64,
    /// The highest index of a note; 0 if there is none.
    pub latest_note_index: u64,
    /// The balance of the latest account and of the notes that it has not taken in.
    pub total_balance: nat,
}

/// Whether the log holds an account at `k`.
pub open spec fn account_at(log: Map<u64, Transaction>, k: u64) -> bool {
    log.contains_key(k) && log[k] is Account
}

/// Whether the log holds a note at `k`.
pub open spec fn note_at(log: Map<u64, Transaction>, k: u64) -> bool {
    log.contains_key(k) && log[k] is Note
}

/// Whether `k` is the highest index at which the log holds an account.
pub open spec fn is_latest_account(log: Map<u64, Transaction>, k: u64) -> bool {
    account_at(log, k) && forall|j: u64| #[trigger] account_at(log, j) ==> j <= k
}

/// Whether `k` is the highest index at which the log holds a note.
pub open spec fn is_latest_note(log: Map<u64, Transaction>, k: u64) -> bool {
    note_at(log, k) && forall|j: u64| #[trigger] note_at(log, j) ==> j <= k
}

/// The highest index at which the log holds an account; 0 if it holds none.
pub open spec fn latest_account_index_of(log: Map<u64, Transaction>) -> u64 {
    if exists|k: u64| is_latest_account(log, k) {
        choose|k: u64| is_latest_account(log, k)
    } else {
        0
    }
}

/// The highest index at which the log holds a note; 0 if it holds none.
pub open spec fn latest_note_index_of(log: Map<u64, Transaction>) -> u64 {
    if exists|k: u64| is_latest_note(log, k) {
        choose|k: u64| is_latest_note(log, k)
    } else {
        0
    }
}

/// The account at the highest index at which the log holds one.
pub open spec fn latest_account_of(log: Map<u64, Transaction>) -> Option<Account> {
    if exists|k: u64| is_latest_account(log, k) {
        Some(log[latest_account_index_of(log)]->Account_0)
    } else {
        None
    }
}

/// The balance of the note that the log holds at `k`; 0 if it holds no note there.
pub open spec fn note_balance_at(log: Map<u64, Transaction>, k: int) -> nat {
    if 0 <= k <= u64::MAX && note_at(log, k as u64) {
        log[k as u64]->Note_0.b() as nat
    } else {
        0
    }
}

/// The sum of the balances of the notes that the log holds at the indices `lo ..= hi`.
pub open spec fn note_sum(log: Map<u64, Transaction>, lo: int, hi: int) -> nat
    decreases hi - lo + 1,
{
    if hi < lo {
        0
    } else {
        note_sum(log, lo, hi - 1) + note_balance_at(log, hi)
    }
}

/// The balance that the log determines: that of the latest account alone if the account
/// has taken in every note, else that of the account and of the notes above the index that
/// the account records; 0 without an account.
pub open spec fn balance_of(log: Map<u64, Transaction>) -> nat {
    match latest_account_of(log) {
        None => 0,
        Some(account) => if account.i() > latest_note_index_of(log) {
            account.b() as nat
        } else {
            account.b() as nat + note_sum(
                log,
                account.i() + 1,
                latest_note_index_of(log) as int,
            )
        },
    }
}

/// What a log determines: the outcome of replaying it in ascending order of its indices.
pub open spec fn replay(log: Map<u64, Transaction>) -> Derived {
    Derived {
        latest_account: latest_account_of(log),
        latest_account_index: latest_account_index_of(log),
        latest_note_index: latest_note_index_of(log),
        total_balance: balance_of(log),
    }
}

/// The first index of the log that is `from` or above; 0 if there is none.
pub open spec fn earliest_from(log: Map<u64, Transaction>, from: u64) -> u64 {
    if exists|k: u64| is_first_from(log, from, k) {
        choose|k: u64| is_first_from(log, from, k)
    } else {
        0
    }
}

/// Whether `k` is the first index of the log that is `from` or above.
pub open spec fn is_first_from(log: Map<u64, Transaction>, from: u64, k: u64) -> bool {
    log.contains_key(k) && from <= k && forall|j: u64|
        #[trigger] log.contains_key(j) && from <= j ==> k <= j
}

/// What adding an account at `at_index` makes of the derived values: a new highest index
/// replaces the latest account and resets the balance to the account's own; any other
/// index changes nothing.
pub open spec fn apply_account(d: Derived, at_index: u64, account: Account) -> Derived {
    if d.latest_account is None || at_index > d.latest_account_index {
        Derived {
            latest_account: Some(account),
            latest_account_index: at_index,
            latest_note_index: d.latest_note_index,
            total_balance: account.b() as nat,
        }
    } else {
        d
    }
}

/// What adding a received note at `at_index` makes of the derived values: the index
/// becomes the latest if it is higher, and the note's balance is added.
pub open spec fn apply_note(d: Derived, at_index: u64, note: Note) -> Derived {
    Derived {
        latest_account: d.latest_account,
        latest_account_index: d.latest_account_index,
        latest_note_index: if at_index > d.latest_note_index {
            at_index
        } else {
            d.latest_note_index
        },
        total_balance: d.total_balance + note.b() as nat,
    }
}

/// What a fresh state derives.
pub open spec fn initial() -> Derived {
    Derived {
        latest_account: None,
        latest_account_index: 0,
        latest_note_index: 0,
        total_balance: 0,
    }
}

/// The log after the entries of `ops` are added in turn, each at its index.
pub open spec fn log_after(ops: Seq<(u64, Transaction)>) -> Map<u64, Transaction>
    decreases ops.len(),
{
    if ops.len() == 0 {
        Map::empty()
    } else {
        log_after(ops.drop_last()).insert(ops.last().0, ops.last().1)
    }
}

/// The derived values after the entries of `ops` are added in turn to a fresh state.
pub open spec fn derived_after(ops: Seq<(u64, Transaction)>) -> Derived
    decreases ops.len(),
{
    if ops.len() == 0 {
        initial()
    } else {
        match ops.last().1 {
            Transaction::Account(account) => apply_account(
                derived_after(ops.drop_last()),
                ops.last().0,
                account,
            ),
            Transaction::Note(note) => apply_note(
                derived_after(ops.drop_last()),
                ops.last().0,
                note,
            ),
        }
    }
}

/// Whether the entries come in the order that the state counts on: at strictly ascending
/// indices, an account first, and each account recording an index that is no higher than
/// its own and no lower than that of any note before it.
pub open spec fn well_ordered(ops: Seq<(u64, Transaction)>) -> bool {
    &&& forall|p: int, q: int| 0 <= p < q < ops.len() ==> (#[trigger] ops[p]).0 < (#[trigger] ops[q]).0
    &&& ops.len() > 0 ==> ops[0].1 is Account
    &&& forall|q: int|
        0 <= q < ops.len() && (#[trigger] ops[q]).1 is Account ==> ops[q].1->Account_0.i()
            <= ops[q].0
    &&& forall|p: int, q: int|
        0 <= p < q < ops.len() && (#[trigger] ops[p]).1 is Note && (#[trigger] ops[q]).1 is Account
            ==> ops[p].0 <= ops[q].1->Account_0.i()
}

pub proof fn lemma_latest_account(log: Map<u64, Transaction>, k: u64)
    requires
        is_latest_account(log, k),
    ensures
        latest_account_index_of(log) == k,
        latest_account_of(log) == Some(log[k]->Account_0),
{
    let c = choose|c: u64| is_latest_account(log, c);
    assert(account_at(log, c) && account_at(log, k));
}

pub proof fn lemma_no_account(log: Map<u64, Transaction>)
    requires
        forall|k: u64| !account_at(log, k),
    ensures
        latest_account_index_of(log) == 0,
        latest_account_of(log) is None,
{
}

pub proof fn lemma_latest_note(log: Map<u64, Transaction>, k: u64)
    requires
        is_latest_note(log, k),
    ensures
        latest_note_index_of(log) == k,
{
    let c = choose|c: u64| is_latest_note(log, c);
    assert(note_at(log, c) && note_at(log, k));
}

pub proof fn lemma_no_note(log: Map<u64, Transaction>)
    requires
        forall|k: u64| !note_at(log, k),
    ensures
        latest_note_index_of(log) == 0,
{
}

pub proof fn lemma_first_from(log: Map<u64, Transaction>, from: u64, k: u64)
    requires
        is_first_from(log, from, k),
    ensures
        earliest_from(log, from) == k,
{
    let c = choose|c: u64| is_first_from(log, from, c);
    assert(log.contains_key(c) && log.contains_key(k));
}

/// Where the log holds no note, the sum of balances does not grow.
pub proof fn lemma_note_sum_gap(log: Map<u64, Transaction>, lo: int, a: int, b: int)
    requires
        a <= b,
        forall|k: u64| a < k <= b ==> !#[trigger] note_at(log, k),
    ensures
        note_sum(log, lo, b) == note_sum(log, lo, a),
    decreases b - a,
{
    if a < b {
        lemma_note_sum_gap(log, lo, a, b - 1);
        if lo <= b {
            if 0 <= b <= u64::MAX {
                assert(!note_at(log, b as u64));
            }
        } else {
            assert(note_sum(log, lo, b) == 0);
            assert(note_sum(log, lo, a) == 0);
        }
    }
}

/// Two logs that hold the same notes in a range have the same sum there.
pub proof fn lemma_note_sum_same(
    log: Map<u64, Transaction>,
    other: Map<u64, Transaction>,
    lo: int,
    hi: int,
)
    requires
        forall|k: u64|
            lo <= k <= hi ==> (#[trigger] note_at(log, k) == note_at(other, k)) && (note_at(log, k)
                ==> log[k] == other[k]),
    ensures
        note_sum(log, lo, hi) == note_sum(other, lo, hi),
    decreases hi - lo + 1,
{
    if lo <= hi {
        lemma_note_sum_same(log, other, lo, hi - 1);
        if 0 <= hi <= u64::MAX {
            assert(note_at(log, hi as u64) == note_at(other, hi as u64));
        }
    }
}

/// `earliest_from` is 0 on an empty log, and no entry at or above `from` lies before it.
pub proof fn lemma_earliest_usable(log: Map<u64, Transaction>, from: u64, k: u64)
    ensures
        log.dom().is_empty() ==> earliest_from(log, from) == 0,
        log.contains_key(k) && from <= k ==> earliest_from(log, from) <= k && log.contains_key(
            earliest_from(log, from),
        ) && from <= earliest_from(log, from),
{
    if log.contains_key(k) && from <= k {
        lemma_first_exists(log, from, k);
        let c = choose|c: u64| is_first_from(log, from, c);
        assert(is_first_from(log, from, c));
    }
    if log.dom().is_empty() {
        assert forall|c: u64| !is_first_from(log, from, c) by {
            assert(!log.dom().contains(c));
        }
    }
}

/// A log with an entry at or above `from`, at `k` say, has a first such entry.
proof fn lemma_first_exists(log: Map<u64, Transaction>, from: u64, k: u64)
    requires
        log.contains_key(k),
        from <= k,
    ensures
        exists|c: u64| is_first_from(log, from, c),
    decreases k - from,
{
    if forall|j: u64| #[trigger] log.contains_key(j) && from <= j ==> k <= j {
        assert(is_first_from(log, from, k));
    } else {
        let j = choose|j: u64| #[trigger] log.contains_key(j) && from <= j && !(k <= j);
        lemma_first_exists(log, from, j);
    }
}

} // verus!
