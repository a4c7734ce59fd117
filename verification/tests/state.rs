use kvdb::KeyValueDB;
use libzeropool::fawkes_crypto::borsh::BorshSerialize;
use libzeropool::fawkes_crypto::engines::bn256::Fr;
use libzeropool::fawkes_crypto::ff_uint::{Num as NativeNum, NumRepr, Uint};
use libzeropool::native::account::Account as NativeAccount;
use libzeropool::native::boundednum::BoundedNum;
use libzeropool::native::note::Note as NativeNote;
use libzeropool::POOL_PARAMS;
use libzeropool_rs::error::Error;
use libzeropool_rs::field::Num;
use libzeropool_rs::merkle::MerkleTree;
use libzeropool_rs::sparse_array::SparseArray;
use libzeropool_rs::state::State;
use libzeropool_rs::tx::{Account, Note, Transaction};

fn account(i: u64, b: u64) -> Account {
    Account::new(7, Num::from_u64(11), i, b, 13).unwrap()
}

fn note(b: u64) -> Note {
    Note::new(3, Num::from_u64(5), b, 9).unwrap()
}

fn balance(state: &State) -> Num {
    state.total_balance()
}

fn native_num(n: Num) -> NativeNum<Fr> {
    NativeNum::from_uint(NumRepr(Uint::from_little_endian(&n.to_bytes()))).unwrap()
}

fn native_account(a: &Account) -> NativeAccount<Fr> {
    NativeAccount {
        d: BoundedNum::new(NativeNum::from(a.d())),
        p_d: native_num(a.p_d()),
        i: BoundedNum::new(NativeNum::from(a.i())),
        b: BoundedNum::new(NativeNum::from(a.b())),
        e: BoundedNum::new(NativeNum::from(a.e())),
    }
}

fn native_note(n: &Note) -> NativeNote<Fr> {
    NativeNote {
        d: BoundedNum::new(NativeNum::from(n.d())),
        p_d: native_num(n.p_d()),
        b: BoundedNum::new(NativeNum::from(n.b())),
        t: BoundedNum::new(NativeNum::from(n.t())),
    }
}

fn reload(state: State) -> Result<State, Error> {
    let (tree, txs) = state.into_parts();
    State::new(tree, txs)
}

#[test]
fn account_then_note_then_account_resets_the_balance() {
    let mut state = State::init_test();
    state.add_account(0, account(0, 100));
    assert_eq!(balance(&state), Num::from_u64(100));
    state.add_received_note(1, note(50));
    assert_eq!(balance(&state), Num::from_u64(150));
    state.add_account(2, account(1, 150));
    assert_eq!(balance(&state), Num::from_u64(150));
}

#[test]
fn fresh_state_is_empty() {
    let state = State::init_test();
    assert_eq!(balance(&state), Num::zero());
    assert_eq!(state.latest_account(), None);
    assert_eq!(state.latest_account_index(), 0);
    assert_eq!(state.latest_note_index(), 0);
    assert_eq!(state.earliest_usable_index(), 0);
    assert_eq!(state.tree().next_index(), 0);
}

#[test]
fn add_account_at_a_lower_index_is_a_backfill() {
    let mut state = State::init_test();
    state.add_account(4, account(4, 100));
    state.add_received_note(6, note(5));
    state.add_account(2, account(2, 900));
    assert_eq!(balance(&state), Num::from_u64(105));
    assert_eq!(state.latest_account(), Some(account(4, 100)));
    assert_eq!(state.latest_account_index(), 4);
    assert_eq!(state.get_transaction(2), Some(Transaction::Account(account(2, 900))));
    assert_eq!(state.tree().get(0, 2), account(2, 900).hash());
    state.add_account(4, account(4, 1));
    assert_eq!(balance(&state), Num::from_u64(105));
}

#[test]
fn add_received_note_counts_a_note_twice_if_asked_twice() {
    let mut state = State::init_test();
    state.add_account(0, account(0, 10));
    state.add_received_note(1, note(5));
    state.add_received_note(1, note(5));
    assert_eq!(balance(&state), Num::from_u64(20));
    assert_eq!(state.latest_note_index(), 1);
}

#[test]
fn add_received_note_keeps_the_highest_index() {
    let mut state = State::init_test();
    state.add_received_note(8, note(1));
    state.add_received_note(3, note(2));
    assert_eq!(state.latest_note_index(), 8);
    assert_eq!(balance(&state), Num::from_u64(3));
    assert_eq!(state.tree().next_index(), 9);
}

#[test]
fn mutators_write_log_and_tree() {
    let mut state = State::init_test();
    let a = account(0, 100);
    let n = note(50);
    state.add_account(0, a);
    state.add_received_note(1, n);
    assert_eq!(state.get_transaction(0), Some(Transaction::Account(a)));
    assert_eq!(state.get_transaction(1), Some(Transaction::Note(n)));
    assert_eq!(state.get_transaction(2), None);
    assert_eq!(state.tree().get(0, 0), a.hash());
    assert_eq!(state.tree().get(0, 1), n.hash());
    assert_eq!(state.tree().next_index(), 2);
    let mut only_tree = MerkleTree::new_test();
    only_tree.add_hash(0, a.hash(), false);
    only_tree.add_hash(1, n.hash(), false);
    assert_eq!(state.tree().get_root(), only_tree.get_root());
}

#[test]
fn add_hashes_fills_the_tree_and_leaves_the_log() {
    let mut state = State::init_test();
    state.add_account(0, account(0, 100));
    let hashes = vec![Num::from_u64(1), Num::from_u64(2), Num::from_u64(3)];
    state.add_hashes(1, &hashes);
    assert_eq!(state.tree().get(0, 1), Num::from_u64(1));
    assert_eq!(state.tree().get(0, 3), Num::from_u64(3));
    assert_eq!(state.tree().next_index(), 4);
    assert_eq!(state.get_transaction(1), None);
    assert_eq!(balance(&state), Num::from_u64(100));
    let mut expected = MerkleTree::new_test();
    expected.add_hash(0, account(0, 100).hash(), false);
    for (j, hash) in hashes.iter().enumerate() {
        expected.add_hash(1 + j as u64, *hash, false);
    }
    assert_eq!(state.tree().get_root(), expected.get_root());
    state.add_hashes(9, &[]);
    assert_eq!(state.tree().next_index(), 4);
}

#[test]
fn add_commitment_stores_a_node_at_the_commitment_height() {
    let mut state = State::init_test();
    state.add_commitment(3, Num::from_u64(8));
    assert_eq!(state.tree().get(7, 3), Num::from_u64(8));
    assert_eq!(state.tree().next_index(), 4 * 128);
    assert_eq!(balance(&state), Num::zero());
}

#[test]
fn earliest_usable_index_is_the_first_entry_from_the_latest_account() {
    let mut state = State::init_test();
    state.add_received_note(1, note(1));
    assert_eq!(state.earliest_usable_index(), 1);
    state.add_account(4, account(4, 10));
    assert_eq!(state.earliest_usable_index(), 4);
    state.add_received_note(6, note(2));
    state.add_received_note(9, note(3));
    assert_eq!(state.earliest_usable_index(), 4);
    state.add_account(7, account(7, 12));
    assert_eq!(state.earliest_usable_index(), 7);
    for index in [9u64] {
        assert!(state.earliest_usable_index() <= index);
    }
}

#[test]
fn replay_gives_the_balance_that_the_mutators_kept() {
    let mut state = State::init_test();
    state.add_account(0, account(0, 100));
    state.add_received_note(1, note(50));
    state.add_received_note(3, note(7));
    state.add_account(5, account(4, 157));
    state.add_received_note(6, note(1));
    state.add_received_note(20, note(2));
    let kept = (
        balance(&state),
        state.latest_account(),
        state.latest_account_index(),
        state.latest_note_index(),
        state.tree().get_root(),
    );
    assert_eq!(kept.0, Num::from_u64(160));
    let again = reload(state).unwrap();
    assert_eq!(balance(&again), kept.0);
    assert_eq!(again.latest_account(), kept.1);
    assert_eq!(again.latest_account_index(), kept.2);
    assert_eq!(again.latest_note_index(), kept.3);
    assert_eq!(again.tree().get_root(), kept.4);
    assert_eq!(again.latest_account_index(), 5);
    assert_eq!(again.latest_note_index(), 20);
}

#[test]
fn replay_counts_the_account_and_the_notes_above_its_recorded_index() {
    let mut state = State::init_test();
    state.add_received_note(2, note(1));
    state.add_received_note(3, note(10));
    state.add_received_note(8, note(100));
    state.add_account(5, account(2, 1000));
    let again = reload(state).unwrap();
    assert_eq!(balance(&again), Num::from_u64(1110));
    assert_eq!(again.latest_note_index(), 8);
}

#[test]
fn replay_of_an_account_that_took_every_note_in_is_its_balance() {
    let mut state = State::init_test();
    state.add_received_note(2, note(1));
    state.add_account(5, account(3, 40));
    let again = reload(state).unwrap();
    assert_eq!(balance(&again), Num::from_u64(40));
}

#[test]
fn replay_without_an_account_has_no_balance() {
    let mut state = State::init_test();
    state.add_received_note(2, note(9));
    let again = reload(state).unwrap();
    assert_eq!(balance(&again), Num::zero());
    assert_eq!(again.latest_account(), None);
    assert_eq!(again.latest_note_index(), 2);
}

#[test]
fn replay_of_account_at_index_zero() {
    let mut state = State::init_test();
    state.add_account(0, account(0, 100));
    assert_eq!(state.latest_account(), Some(account(0, 100)));
    let again = reload(state).unwrap();
    assert_eq!(again.latest_account(), Some(account(0, 100)));
    assert_eq!(balance(&again), Num::from_u64(100));
}

#[test]
fn new_fails_when_the_balance_overflows() {
    let mut state = State::init_test();
    state.add_account(0, account(0, u64::MAX));
    let (tree, mut txs) = state.into_parts();
    txs.set(1, &Transaction::Note(note(1)).encode());
    assert_eq!(State::new(tree, txs).err(), Some(Error::Overflow));
}

#[test]
fn new_fails_on_a_record_that_is_no_entry() {
    let mut txs = SparseArray::new_test();
    txs.set(0, &Transaction::Account(account(0, 1)).encode());
    txs.set(1, &[2, 0, 0]);
    assert_eq!(State::new(MerkleTree::new_test(), txs).err(), Some(Error::Corruption));

    let mut txs = SparseArray::new_test();
    let mut short = Transaction::Note(note(1)).encode();
    short.pop();
    txs.set(0, &short);
    assert_eq!(State::new(MerkleTree::new_test(), txs).err(), Some(Error::Corruption));

    let mut txs = SparseArray::new_test();
    txs.set(0, &[]);
    assert_eq!(State::new(MerkleTree::new_test(), txs).err(), Some(Error::Corruption));
}

#[test]
fn account_constructor_checks_the_widths() {
    let p_d = Num::from_u64(1);
    assert!(Account::new((1 << 80) - 1, p_d, (1 << 48) - 1, u64::MAX, (1 << 112) - 1).is_some());
    assert!(Account::new(1 << 80, p_d, 0, 0, 0).is_none());
    assert!(Account::new(0, p_d, 1 << 48, 0, 0).is_none());
    assert!(Account::new(0, p_d, 0, 0, 1 << 112).is_none());
    let a = Account::new(1, p_d, 2, 3, 4).unwrap();
    assert_eq!((a.d(), a.p_d(), a.i(), a.b(), a.e()), (1, p_d, 2, 3, 4));
}

#[test]
fn note_constructor_checks_the_widths() {
    let p_d = Num::from_u64(1);
    assert!(Note::new((1 << 80) - 1, p_d, u64::MAX, (1 << 80) - 1).is_some());
    assert!(Note::new(1 << 80, p_d, 0, 0).is_none());
    assert!(Note::new(0, p_d, 0, 1 << 80).is_none());
    let n = Note::new(1, p_d, 2, 3).unwrap();
    assert_eq!((n.d(), n.p_d(), n.b(), n.t()), (1, p_d, 2, 3));
}

#[test]
fn account_hash_is_the_hash_of_the_pool() {
    let a = Account::new(0x0123456789abcdef0123, Num::from_u64(99), 17, 5000, 1 << 100).unwrap();
    let expected = native_account(&a).hash(&*POOL_PARAMS);
    assert_eq!(a.hash().to_bytes(), expected.to_uint().0.to_little_endian());
    assert_ne!(a.hash(), account(17, 5000).hash());
    assert_ne!(a.hash(), a.p_d());
}

#[test]
fn note_hash_is_the_hash_of_the_pool() {
    let n = Note::new(0x0123456789abcdef0123, Num::from_u64(99), 5000, 77).unwrap();
    let expected = native_note(&n).hash(&*POOL_PARAMS);
    assert_eq!(n.hash().to_bytes(), expected.to_uint().0.to_little_endian());
    assert_ne!(n.hash(), note(5000).hash());
    assert_ne!(n.hash(), n.p_d());
}

#[test]
fn account_bytes_are_the_fields_in_order() {
    let a = Account::new(0x0a09080706050403_0201, Num::from_u64(0x1122), 0x060504030201, 258, 3)
        .unwrap();
    let mut expected = vec![1u8, 2, 3, 4, 5, 6, 7, 8, 9, 10];
    expected.extend_from_slice(&Num::from_u64(0x1122).to_bytes());
    expected.extend_from_slice(&[1, 2, 3, 4, 5, 6]);
    expected.extend_from_slice(&[2, 1, 0, 0, 0, 0, 0, 0]);
    expected.extend_from_slice(&[3, 0, 0, 0, 0, 0, 0, 0, 0, 0, 0, 0, 0, 0]);
    assert_eq!(a.to_bytes(), expected);
    assert_eq!(a.to_bytes().len(), 70);
    assert_eq!(a.to_bytes(), native_account(&a).try_to_vec().unwrap());
    assert_eq!(Account::from_bytes(&expected), Some(a));
}

#[test]
fn note_bytes_are_the_fields_in_order() {
    let n = Note::new(0x0a09080706050403_0201, Num::from_u64(0x1122), 258, 4).unwrap();
    let mut expected = vec![1u8, 2, 3, 4, 5, 6, 7, 8, 9, 10];
    expected.extend_from_slice(&Num::from_u64(0x1122).to_bytes());
    expected.extend_from_slice(&[2, 1, 0, 0, 0, 0, 0, 0]);
    expected.extend_from_slice(&[4, 0, 0, 0, 0, 0, 0, 0, 0, 0]);
    assert_eq!(n.to_bytes(), expected);
    assert_eq!(n.to_bytes().len(), 60);
    assert_eq!(n.to_bytes(), native_note(&n).try_to_vec().unwrap());
    assert_eq!(Note::from_bytes(&expected), Some(n));
}

#[test]
fn transaction_bytes_start_with_the_tag() {
    let a = Transaction::Account(account(1, 2));
    let n = Transaction::Note(note(3));
    assert_eq!(a.encode()[0], 0);
    assert_eq!(n.encode()[0], 1);
    assert_eq!(a.encode().len(), 71);
    assert_eq!(n.encode().len(), 61);
    assert_eq!(&a.encode()[1..], &account(1, 2).to_bytes()[..]);
    assert_eq!(Transaction::decode(&a.encode()), Some(a));
    assert_eq!(Transaction::decode(&n.encode()), Some(n));
}

#[test]
fn transaction_decode_rejects_what_is_no_entry() {
    assert_eq!(Transaction::decode(&[]), None);
    assert_eq!(Transaction::decode(&[0]), None);
    let mut wrong_tag = Transaction::Note(note(3)).encode();
    wrong_tag[0] = 2;
    assert_eq!(Transaction::decode(&wrong_tag), None);
    let mut wrong_kind = Transaction::Note(note(3)).encode();
    wrong_kind[0] = 0;
    assert_eq!(Transaction::decode(&wrong_kind), None);
    let mut bad_key = Transaction::Account(account(1, 2)).encode();
    for byte in &mut bad_key[11..43] {
        *byte = 0xff;
    }
    assert_eq!(Transaction::decode(&bad_key), None);
    assert_eq!(Account::from_bytes(&[0u8; 69]), None);
    assert_eq!(Note::from_bytes(&[0u8; 61]), None);
}

#[test]
fn hashes_of_records_have_their_known_values() {
    let a = Account::new(1, Num::from_u64(2), 3, 4, 5).unwrap();
    assert_eq!(
        a.hash().to_bytes(),
        vec![
            221, 144, 226, 134, 188, 154, 43, 137, 73, 26, 203, 217, 75, 90, 172, 148, 93, 31, 60,
            33, 249, 139, 103, 40, 29, 140, 76, 56, 164, 171, 120, 7
        ]
    );
    let n = Note::new(1, Num::from_u64(2), 3, 4).unwrap();
    assert_eq!(
        n.hash().to_bytes(),
        vec![
            65, 225, 173, 167, 113, 27, 203, 28, 55, 228, 152, 23, 253, 18, 14, 145, 114, 246, 3,
            102, 198, 152, 151, 100, 67, 210, 13, 54, 20, 89, 186, 3
        ]
    );
}

#[test]
fn exported_entries_rebuild_the_state() {
    let mut state = State::init_test();
    state.add_account(0, account(0, 100));
    state.add_received_note(1, note(50));
    let root = state.tree().get_root();

    let tree_db = kvdb_memorydb::create(2);
    for col in 0..2 {
        let mut transaction = tree_db.transaction();
        for (key, value) in state.tree().export_column(col) {
            transaction.put(col, &key, &value);
        }
        tree_db.write(transaction).unwrap();
    }
    let log_db = kvdb_memorydb::create(1);
    let mut transaction = log_db.transaction();
    let log = state.export_log();
    assert_eq!(log.len(), 2);
    assert_eq!(log[0].0, vec![0, 0, 0, 0, 0, 0, 0, 0]);
    assert_eq!(log[1].0, vec![0, 0, 0, 0, 0, 0, 0, 1]);
    assert_eq!(log[1].1, Transaction::Note(note(50)).encode());
    for (key, value) in log {
        transaction.put(0, &key, &value);
    }
    log_db.write(transaction).unwrap();

    let again =
        State::new(MerkleTree::new(tree_db).unwrap(), SparseArray::new(log_db).unwrap()).unwrap();
    assert_eq!(again.tree().get_root(), root);
    assert_eq!(again.tree().next_index(), 2);
    assert_eq!(balance(&again), Num::from_u64(150));
}
