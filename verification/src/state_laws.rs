//! What holds of the state whatever is added in order: the values that the mutations keep
//! up to date are the values that a replay of the resulting log gives.

use crate::state_spec::{
    account_at, apply_account, apply_note, balance_of, derived_after, is_latest_account,
    is_latest_note, latest_account_index_of, latest_account_of, latest_note_index_of,
    lemma_latest_account, lemma_latest_note, lemma_no_account, lemma_no_note,
    lemma_note_sum_gap, lemma_note_sum_same, log_after, note_at, note_balance_at, note_sum,
    replay, well_ordered, Derived,
};
use crate::tx::{Account, Note, Transaction};
use vstd::prelude::*;

verus! {

/// The latest indices never decrease: each is the highest index that its mutation was
/// given so far.
pub proof fn lemma_latest_indices_never_decrease(
    d: Derived,
    at_index: u64,
    account: Account,
    note: Note,
)
    requires
        d.latest_account is None ==> d.latest_account_index == 0,
    ensures
        apply_account(d, at_index, account).latest_account_index >= d.latest_account_index,
        apply_account(d, at_index, account).latest_account_index >= at_index,
        apply_account(d, at_index, account).latest_note_index == d.latest_note_index,
        apply_note(d, at_index, note).latest_note_index >= d.latest_note_index,
        apply_note(d, at_index, note).latest_note_index >= at_index,
        apply_note(d, at_index, note).latest_account_index == d.latest_account_index,
{
}

/// Whether the indices of the entries are strictly ascending.
pub open spec fn ascending(ops: Seq<(u64, Transaction)>) -> bool {
    forall|p: int, q: int| 0 <= p < q < ops.len() ==> (#[trigger] ops[p]).0 < (#[trigger] ops[q]).0
}

/// The log after entries were added at ascending indices holds each of them at its index,
/// and nothing else.
pub proof fn lemma_log_after_entries(ops: Seq<(u64, Transaction)>)
    requires
        ascending(ops),
    ensures
        forall|p: int|
            0 <= p < ops.len() ==> log_after(ops).contains_key((#[trigger] ops[p]).0) && log_after(
                ops,
            )[ops[p].0] == ops[p].1,
        forall|k: u64| #[trigger]
            log_after(ops).contains_key(k) ==> exists|p: int|
                0 <= p < ops.len() && (#[trigger] ops[p]).0 == k,
    decreases ops.len(),
{
    if ops.len() > 0 {
        let pre = ops.drop_last();
        let last = ops.last();
        assert forall|p: int, q: int| 0 <= p < q < pre.len() implies (#[trigger] pre[p]).0 < (
        #[trigger] pre[q]).0 by {
            assert(pre[p] == ops[p] && pre[q] == ops[q]);
        }
        lemma_log_after_entries(pre);
        let log = log_after(ops);
        assert forall|p: int| 0 <= p < ops.len() implies log.contains_key(
            (#[trigger] ops[p]).0,
        ) && log[ops[p].0] == ops[p].1 by {
            if p < ops.len() - 1 {
                assert(pre[p] == ops[p]);
                assert(ops[p].0 < ops[ops.len() - 1].0);
            }
        }
        assert forall|k: u64| #[trigger] log.contains_key(k) implies exists|p: int|
            0 <= p < ops.len() && (#[trigger] ops[p]).0 == k by {
            if k == last.0 {
                assert(ops[ops.len() - 1].0 == k);
            } else {
                assert(log_after(pre).contains_key(k));
                let p = choose|p: int| 0 <= p < pre.len() && (#[trigger] pre[p]).0 == k;
                assert(ops[p] == pre[p]);
            }
        }
    }
}

/// The log after entries were added at ascending indices holds no account, or holds its
/// latest account at the index that `latest_account_index_of` gives.
pub proof fn lemma_account_status(ops: Seq<(u64, Transaction)>)
    requires
        ascending(ops),
    ensures
        (forall|k: u64| !account_at(log_after(ops), k)) || is_latest_account(
            log_after(ops),
            latest_account_index_of(log_after(ops)),
        ),
        ops.len() > 0 && ops[0].1 is Account ==> is_latest_account(
            log_after(ops),
            latest_account_index_of(log_after(ops)),
        ),
    decreases ops.len(),
{
    if ops.len() > 0 {
        let pre = ops.drop_last();
        let last = ops.last();
        let log = log_after(ops);
        let before = log_after(pre);
        assert(ascending(pre)) by {
            assert forall|p: int, q: int| 0 <= p < q < pre.len() implies (#[trigger] pre[p]).0 < (
            #[trigger] pre[q]).0 by {
                assert(pre[p] == ops[p] && pre[q] == ops[q]);
            }
        }
        lemma_account_status(pre);
        lemma_log_after_entries(pre);
        lemma_log_after_entries(ops);
        assert forall|k: u64| before.contains_key(k) implies k < last.0 by {
            let p = choose|p: int| 0 <= p < pre.len() && (#[trigger] pre[p]).0 == k;
            assert(ops[p] == pre[p]);
            assert(ops[p].0 < ops[ops.len() - 1].0);
        }
        if last.1 is Account {
            assert(is_latest_account(log, last.0)) by {
                assert forall|j: u64| #[trigger] account_at(log, j) implies j <= last.0 by {
                    if j != last.0 {
                        assert(before.contains_key(j));
                    }
                }
            }
            lemma_latest_account(log, last.0);
        } else {
            assert forall|k: u64| account_at(log, k) == account_at(before, k) by {
                if k == last.0 {
                    assert(!before.contains_key(k));
                }
            }
            if forall|k: u64| !account_at(before, k) {
                assert(forall|k: u64| !account_at(log, k));
                if pre.len() > 0 {
                    assert(pre[0] == ops[0]);
                }
            } else {
                let k0 = latest_account_index_of(before);
                assert(is_latest_account(before, k0));
                assert(is_latest_account(log, k0)) by {
                    assert forall|j: u64| #[trigger] account_at(log, j) implies j <= k0 by {
                        assert(account_at(before, j));
                    }
                }
                lemma_latest_account(log, k0);
            }
            if ops[0].1 is Account {
                assert(pre.len() > 0);
                assert(pre[0] == ops[0]);
            }
        }
    }
}

/// The log after entries were added at ascending indices holds no note, or holds its
/// latest note at the index that `latest_note_index_of` gives.
pub proof fn lemma_note_status(ops: Seq<(u64, Transaction)>)
    requires
        ascending(ops),
    ensures
        (forall|k: u64| !note_at(log_after(ops), k)) || is_latest_note(
            log_after(ops),
            latest_note_index_of(log_after(ops)),
        ),
    decreases ops.len(),
{
    if ops.len() > 0 {
        let pre = ops.drop_last();
        let last = ops.last();
        let log = log_after(ops);
        let before = log_after(pre);
        assert(ascending(pre)) by {
            assert forall|p: int, q: int| 0 <= p < q < pre.len() implies (#[trigger] pre[p]).0 < (
            #[trigger] pre[q]).0 by {
                assert(pre[p] == ops[p] && pre[q] == ops[q]);
            }
        }
        lemma_note_status(pre);
        lemma_log_after_entries(pre);
        lemma_log_after_entries(ops);
        assert forall|k: u64| before.contains_key(k) implies k < last.0 by {
            let p = choose|p: int| 0 <= p < pre.len() && (#[trigger] pre[p]).0 == k;
            assert(ops[p] == pre[p]);
            assert(ops[p].0 < ops[ops.len() - 1].0);
        }
        if last.1 is Note {
            assert(is_latest_note(log, last.0)) by {
                assert forall|j: u64| #[trigger] note_at(log, j) implies j <= last.0 by {
                    if j != last.0 {
                        assert(before.contains_key(j));
                    }
                }
            }
            lemma_latest_note(log, last.0);
        } else {
            assert forall|k: u64| note_at(log, k) == note_at(before, k) by {
                if k == last.0 {
                    assert(!before.contains_key(k));
                }
            }
            if forall|k: u64| !note_at(before, k) {
                assert(forall|k: u64| !note_at(log, k));
            } else {
                let k0 = latest_note_index_of(before);
                assert(is_latest_note(before, k0));
                assert(is_latest_note(log, k0)) by {
                    assert forall|j: u64| #[trigger] note_at(log, j) implies j <= k0 by {
                        assert(note_at(before, j));
                    }
                }
                lemma_latest_note(log, k0);
            }
        }
    }
}

/// A prefix of well-ordered entries is well ordered.
pub proof fn lemma_well_ordered_prefix(ops: Seq<(u64, Transaction)>)
    requires
        well_ordered(ops),
        ops.len() > 0,
    ensures
        well_ordered(ops.drop_last()),
{
    let pre = ops.drop_last();
    assert forall|p: int| 0 <= p < pre.len() implies #[trigger] pre[p] == ops[p] by {}
    assert forall|p: int, q: int| 0 <= p < q < pre.len() implies (#[trigger] pre[p]).0 < (
    #[trigger] pre[q]).0 by {
        assert(pre[p] == ops[p] && pre[q] == ops[q]);
    }
    assert forall|q: int| 0 <= q < pre.len() && (#[trigger] pre[q]).1 is Account implies pre[q].1->Account_0.i()
        <= pre[q].0 by {
        assert(pre[q] == ops[q]);
    }
    assert forall|p: int, q: int|
        0 <= p < q < pre.len() && (#[trigger] pre[p]).1 is Note && (
        #[trigger] pre[q]).1 is Account implies pre[p].0 <= pre[q].1->Account_0.i() by {
        assert(pre[p] == ops[p] && pre[q] == ops[q]);
    }
}

/// Every index of the log before the last entry lies below the index of the last entry.
proof fn lemma_last_index_is_highest(ops: Seq<(u64, Transaction)>)
    requires
        ascending(ops),
        ops.len() > 0,
    ensures
        ascending(ops.drop_last()),
        forall|k: u64| #[trigger] log_after(ops.drop_last()).contains_key(k) ==> k < ops.last().0,
        ops.len() > 1 ==> ops.drop_last()[0] == ops[0],
{
    let pre = ops.drop_last();
    assert forall|p: int, q: int| 0 <= p < q < pre.len() implies (#[trigger] pre[p]).0 < (
    #[trigger] pre[q]).0 by {
        assert(pre[p] == ops[p] && pre[q] == ops[q]);
    }
    lemma_log_after_entries(pre);
    assert forall|k: u64| #[trigger] log_after(pre).contains_key(k) implies k < ops.last().0 by {
        let p = choose|p: int| 0 <= p < pre.len() && (#[trigger] pre[p]).0 == k;
        assert(ops[p] == pre[p]);
        assert(ops[p].0 < ops[ops.len() - 1].0);
    }
    if ops.len() > 1 {
        assert(pre[0] == ops[0]);
    }
}

/// Adding an account in order keeps the mutations and the replay in step.
proof fn lemma_account_step(ops: Seq<(u64, Transaction)>, account: Account)
    requires
        well_ordered(ops),
        ops.len() > 0,
        ops.last().1 == Transaction::Account(account),
        derived_after(ops.drop_last()) == replay(log_after(ops.drop_last())),
    ensures
        derived_after(ops) == replay(log_after(ops)),
{
    let log = log_after(ops);
    let pre = ops.drop_last();
    let idx = ops.last().0;
    let before = log_after(pre);
    let d = derived_after(pre);
    lemma_last_index_is_highest(ops);
    lemma_log_after_entries(ops);
    lemma_account_status(pre);
    lemma_note_status(pre);
    assert(is_latest_account(log, idx)) by {
        assert forall|j: u64| #[trigger] account_at(log, j) implies j <= idx by {
            if j != idx {
                assert(before.contains_key(j));
            }
        }
    }
    lemma_latest_account(log, idx);
    assert forall|k: u64| note_at(log, k) == note_at(before, k) by {
        if k == idx {
            assert(!before.contains_key(k));
        }
    }
    // The latest note is the one it was.
    if forall|k: u64| !note_at(before, k) {
        assert(forall|k: u64| !note_at(log, k));
        lemma_no_note(before);
        lemma_no_note(log);
    } else {
        let k0 = latest_note_index_of(before);
        assert(is_latest_note(log, k0)) by {
            assert forall|j: u64| #[trigger] note_at(log, j) implies j <= k0 by {
                assert(note_at(before, j));
            }
        }
        lemma_latest_note(log, k0);
    }
    // The new index is the highest of the accounts.
    if pre.len() > 0 {
        assert(d.latest_account is Some);
        assert(before.contains_key(d.latest_account_index));
    }
    assert(apply_account(d, idx, account).latest_account_index == idx);
    // No note lies above the index that the account records.
    let lni = latest_note_index_of(log);
    assert forall|k: u64| account.i() < k <= lni implies !#[trigger] note_at(log, k) by {
        if note_at(log, k) {
            let p = choose|p: int| 0 <= p < ops.len() && (#[trigger] ops[p]).0 == k;
            assert(ops[p].1 is Note);
            assert(p < ops.len() - 1);
            assert(ops[ops.len() - 1].1 is Account);
        }
    }
    if account.i() <= lni {
        lemma_note_sum_gap(log, account.i() + 1, account.i() as int, lni as int);
    }
}

/// Adding a received note in order keeps the mutations and the replay in step.
proof fn lemma_note_step(ops: Seq<(u64, Transaction)>, note: Note)
    requires
        well_ordered(ops),
        ops.len() > 0,
        ops.last().1 == Transaction::Note(note),
        derived_after(ops.drop_last()) == replay(log_after(ops.drop_last())),
    ensures
        derived_after(ops) == replay(log_after(ops)),
{
    let log = log_after(ops);
    let pre = ops.drop_last();
    let idx = ops.last().0;
    let before = log_after(pre);
    let d = derived_after(pre);
    lemma_last_index_is_highest(ops);
    lemma_log_after_entries(pre);
    lemma_log_after_entries(ops);
    lemma_account_status(pre);
    lemma_note_status(pre);
    assert(pre.len() > 0);
    assert(is_latest_note(log, idx)) by {
        assert forall|j: u64| #[trigger] note_at(log, j) implies j <= idx by {
            if j != idx {
                assert(before.contains_key(j));
            }
        }
    }
    lemma_latest_note(log, idx);
    assert forall|k: u64| account_at(log, k) == account_at(before, k) by {
        if k == idx {
            assert(!before.contains_key(k));
        }
    }
    let k0 = latest_account_index_of(before);
    assert(is_latest_account(before, k0));
    assert(is_latest_account(log, k0)) by {
        assert forall|j: u64| #[trigger] account_at(log, j) implies j <= k0 by {
            assert(account_at(before, j));
        }
    }
    lemma_latest_account(before, k0);
    lemma_latest_account(log, k0);
    let account = before[k0]->Account_0;
    assert(log[k0] == before[k0]);
    // The account records an index that is no higher than its own.
    let p0 = choose|p: int| 0 <= p < pre.len() && (#[trigger] pre[p]).0 == k0;
    assert(ops[p0] == pre[p0]);
    assert(account.i() <= k0);
    let lo = account.i() + 1;
    let old_lni = latest_note_index_of(before);
    assert(old_lni < idx) by {
        if forall|k: u64| !note_at(before, k) {
            lemma_no_note(before);
            assert(before.contains_key(k0));
        } else {
            assert(before.contains_key(old_lni));
        }
    }
    assert(apply_note(d, idx, note).latest_note_index == idx);
    // Below the new index the two logs hold the same notes.
    assert forall|k: u64| lo <= k <= idx - 1 implies (#[trigger] note_at(log, k) == note_at(
        before,
        k,
    )) && (note_at(log, k) ==> log[k] == before[k]) by {}
    lemma_note_sum_same(log, before, lo, idx - 1);
    assert(note_balance_at(log, idx as int) == note.b());
    assert(note_sum(log, lo, idx as int) == note_sum(log, lo, idx - 1) + note.b());
    // No note of the old log lies above its latest note.
    lemma_old_balance(before, account, idx);
    assert(balance_of(before) == account.b() + note_sum(before, lo, idx - 1));
    assert(balance_of(log) == account.b() + note_sum(log, lo, idx as int));
}

/// The balance of a log is that of its latest account and of the notes above the index
/// that the account records, up to any index that no note of the log exceeds.
proof fn lemma_old_balance(log: Map<u64, Transaction>, account: Account, idx: u64)
    requires
        latest_account_of(log) == Some(account),
        account.i() < idx,
        latest_note_index_of(log) < idx,
        (forall|k: u64| !note_at(log, k)) || is_latest_note(log, latest_note_index_of(log)),
    ensures
        balance_of(log) == account.b() + note_sum(log, account.i() + 1, idx - 1),
{
    let lo = account.i() + 1;
    let lni = latest_note_index_of(log);
    if forall|k: u64| !note_at(log, k) {
        lemma_no_note(log);
        lemma_note_sum_gap(log, lo, lo - 1, idx - 1);
        if account.i() <= lni {
            lemma_note_sum_gap(log, lo, lo - 1, lni as int);
        }
    } else {
        if account.i() > lni {
            assert forall|k: u64| lo - 1 < k <= idx - 1 implies !#[trigger] note_at(log, k) by {}
            lemma_note_sum_gap(log, lo, lo - 1, idx - 1);
        } else {
            assert forall|k: u64| lni < k <= idx - 1 implies !#[trigger] note_at(log, k) by {}
            lemma_note_sum_gap(log, lo, lni as int, idx - 1);
        }
    }
}

/// When accounts and received notes are added to a fresh state in the order that the
/// state counts on, the latest account, the latest indices and the balance that the
/// mutations keep are those that a replay of the resulting log gives.
pub proof fn lemma_mutations_match_replay(ops: Seq<(u64, Transaction)>)
    requires
        well_ordered(ops),
    ensures
        derived_after(ops) == replay(log_after(ops)),
    decreases ops.len(),
{
    let log = log_after(ops);
    if ops.len() == 0 {
        assert forall|k: u64| !account_at(log, k) by {}
        assert forall|k: u64| !note_at(log, k) by {}
        lemma_no_account(log);
        lemma_no_note(log);
    } else {
        lemma_well_ordered_prefix(ops);
        lemma_mutations_match_replay(ops.drop_last());
        match ops.last().1 {
            Transaction::Account(account) => {
                lemma_account_step(ops, account);
            },
            Transaction::Note(note) => {
                lemma_note_step(ops, note);
            },
        }
    }
}

} // verus!
