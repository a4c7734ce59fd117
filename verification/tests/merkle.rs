use kvdb::KeyValueDB;
use libzeropool::fawkes_crypto::engines::bn256::Fr;
use libzeropool::fawkes_crypto::ff_uint::{Num as NativeNum, NumRepr, Uint};
use libzeropool::fawkes_crypto::native::poseidon::poseidon;
use libzeropool::native::params::PoolParams;
use libzeropool::POOL_PARAMS;
use libzeropool_rs::error::Error;
use libzeropool_rs::field::Num;
use libzeropool_rs::merkle::{pow2_u64, sibling_index, MerkleProof, MerkleTree, Overlay};
use libzeropool_rs::merkle_spec::HEIGHT;

fn to_native(n: Num) -> NativeNum<Fr> {
    NativeNum::from_uint(NumRepr(Uint::from_little_endian(&n.to_bytes()))).unwrap()
}

fn from_native(n: NativeNum<Fr>) -> Num {
    Num::from_bytes(&n.to_uint().0.to_little_endian()).unwrap()
}

fn combine(left: Num, right: Num) -> Num {
    from_native(poseidon(&[to_native(left), to_native(right)], POOL_PARAMS.compress()))
}

fn defaults() -> Vec<Num> {
    let mut table = vec![Num::zero()];
    for h in 0..HEIGHT as usize {
        table.push(combine(table[h], table[h]));
    }
    table
}

fn batch_root(leaves: &[Num], table: &[Num], h: u32, i: u64) -> Num {
    if (i << h) >= leaves.len() as u64 {
        table[h as usize]
    } else if h == 0 {
        leaves[i as usize]
    } else {
        combine(batch_root(leaves, table, h - 1, 2 * i), batch_root(leaves, table, h - 1, 2 * i + 1))
    }
}

fn leaf(i: u64) -> Num {
    Num::from_u64(1000 + i)
}

fn tree_of(n: u64) -> MerkleTree {
    let mut tree = MerkleTree::new_test();
    for i in 0..n {
        tree.add_hash(i, leaf(i), false);
    }
    tree
}

#[test]
fn pow2_u64_doubles() {
    assert_eq!(pow2_u64(0), 1);
    assert_eq!(pow2_u64(7), 128);
    assert_eq!(pow2_u64(48), 1 << 48);
}

#[test]
fn sibling_index_flips_the_lowest_bit() {
    assert_eq!(sibling_index(0), 1);
    assert_eq!(sibling_index(1), 0);
    assert_eq!(sibling_index(6), 7);
    assert_eq!(sibling_index(7), 6);
}

#[test]
fn unset_node_reads_as_the_empty_subtree_hash() {
    let tree = MerkleTree::new_test();
    let table = defaults();
    assert_eq!(tree.get(0, 0), Num::zero());
    assert_eq!(tree.get(0, 12345), Num::zero());
    assert_eq!(tree.get(1, 3), table[1]);
    assert_eq!(tree.get(17, 9), table[17]);
    assert_eq!(tree.get_root(), table[HEIGHT as usize]);
    assert_ne!(table[1], table[0]);
    assert_ne!(table[2], table[1]);
}

#[test]
fn empty_tree_has_no_leaves() {
    let tree = MerkleTree::new_test();
    assert_eq!(tree.next_index(), 0);
    assert_eq!(tree.last_leaf(), Num::zero());
}

#[test]
fn add_hash_recomputes_every_ancestor() {
    let mut tree = MerkleTree::new_test();
    let table = defaults();
    tree.add_hash(5, leaf(5), false);
    let mut expected = leaf(5);
    let mut index = 5u64;
    for h in 0..HEIGHT {
        assert_eq!(tree.get(h, index), expected);
        expected = if index % 2 == 0 {
            combine(expected, table[h as usize])
        } else {
            combine(table[h as usize], expected)
        };
        index /= 2;
    }
    assert_eq!(tree.get_root(), expected);
    assert_eq!(tree.get(0, 4), Num::zero());
}

#[test]
fn add_hash_twice_changes_nothing() {
    let mut tree = tree_of(3);
    let root = tree.get_root();
    tree.add_hash(1, leaf(1), false);
    assert_eq!(tree.get_root(), root);
    assert_eq!(tree.next_index(), 3);
}

#[test]
fn add_hash_overwrites_a_leaf() {
    let mut tree = tree_of(3);
    let root = tree.get_root();
    tree.add_hash(1, Num::from_u64(77), false);
    assert_eq!(tree.get(0, 1), Num::from_u64(77));
    assert_ne!(tree.get_root(), root);
    let mut leaves: Vec<Num> = (0..3).map(leaf).collect();
    leaves[1] = Num::from_u64(77);
    assert_eq!(tree.get_root(), batch_root(&leaves, &defaults(), HEIGHT, 0));
}

#[test]
fn temporary_flag_does_not_change_what_is_stored() {
    let mut plain = MerkleTree::new_test();
    let mut flagged = MerkleTree::new_test();
    plain.add_hash(2, leaf(2), false);
    flagged.add_hash(2, leaf(2), true);
    assert_eq!(plain.get_root(), flagged.get_root());
    assert_eq!(plain.next_index(), flagged.next_index());
}

#[test]
fn next_index_is_one_past_the_highest_leaf() {
    let mut tree = MerkleTree::new_test();
    tree.add_hash(9, leaf(9), false);
    assert_eq!(tree.next_index(), 10);
    assert_eq!(tree.last_leaf(), leaf(9));
    tree.add_hash(3, leaf(3), false);
    assert_eq!(tree.next_index(), 10);
    assert_eq!(tree.last_leaf(), leaf(9));
    tree.add_hash((1 << 48) - 1, leaf(0), false);
    assert_eq!(tree.next_index(), 1 << 48);
}

#[test]
fn add_hash_at_height_counts_the_leaves_below() {
    let mut tree = MerkleTree::new_test();
    tree.add_hash_at_height(7, 2, leaf(1), false);
    assert_eq!(tree.next_index(), 3 * 128);
    assert_eq!(tree.get(7, 2), leaf(1));
    assert_eq!(tree.get(0, 2 * 128), Num::zero());
    let table = defaults();
    assert_eq!(tree.get(8, 1), combine(leaf(1), table[7]));
    tree.add_hash_at_height(HEIGHT, 0, leaf(2), false);
    assert_eq!(tree.get_root(), leaf(2));
    assert_eq!(tree.next_index(), 1 << 48);
}

#[test]
fn incremental_root_equals_batch_root() {
    let table = defaults();
    let mut tree = MerkleTree::new_test();
    let mut leaves = Vec::new();
    assert_eq!(tree.get_root(), batch_root(&leaves, &table, HEIGHT, 0));
    for i in 0..9u64 {
        tree.add_hash(i, leaf(i), false);
        leaves.push(leaf(i));
        assert_eq!(tree.get_root(), batch_root(&leaves, &table, HEIGHT, 0));
    }
}

#[test]
fn proof_recombines_to_the_root() {
    let tree = tree_of(6);
    let root = tree.get_root();
    for i in 0..6u64 {
        let proof = tree.get_proof_unchecked::<48>(i);
        assert_eq!(proof.sibling.len(), 48);
        assert_eq!(proof.path.len(), 48);
        assert_eq!(proof.root(leaf(i)), root);
        assert_ne!(proof.root(leaf(i + 1)), root);
    }
}

#[test]
fn proof_lists_siblings_from_the_leaf_up() {
    let tree = tree_of(4);
    let proof = tree.get_proof_unchecked::<48>(2);
    assert_eq!(proof.sibling[0], leaf(3));
    assert_eq!(proof.sibling[1], combine(leaf(0), leaf(1)));
    assert_eq!(proof.sibling[2], defaults()[2]);
    assert_eq!(&proof.path[..3], &[false, true, false]);
    assert!(proof.path[3..].iter().all(|right| !right));
}

#[test]
fn proof_of_a_commitment_starts_at_its_height() {
    let mut tree = MerkleTree::new_test();
    tree.add_hash_at_height(7, 0, leaf(0), false);
    tree.add_hash_at_height(7, 1, leaf(1), false);
    tree.add_hash_at_height(7, 2, leaf(2), false);
    let proof = tree.get_proof_unchecked::<41>(1);
    assert_eq!(proof.sibling.len(), 41);
    assert_eq!(proof.sibling[0], leaf(0));
    assert_eq!(proof.path[0], true);
    assert_eq!(proof.root(leaf(1)), tree.get_root());
}

#[test]
fn proof_of_no_steps_is_empty() {
    let tree = tree_of(2);
    let proof = tree.get_proof_unchecked::<0>(0);
    assert!(proof.sibling.is_empty());
    assert!(proof.path.is_empty());
    assert_eq!(proof.root(leaf(9)), leaf(9));
}

#[test]
fn proof_over_a_gap_reads_empty_subtrees() {
    let mut tree = MerkleTree::new_test();
    tree.add_hash(4, leaf(4), false);
    let proof = tree.get_proof_unchecked::<48>(4);
    let table = defaults();
    for h in 0..48 {
        assert_eq!(proof.sibling[h], table[h]);
    }
}

#[test]
fn merkle_proof_root_puts_the_sibling_on_the_side_given() {
    let a = Num::from_u64(1);
    let b = Num::from_u64(2);
    let left = MerkleProof { sibling: vec![b], path: vec![false] };
    let right = MerkleProof { sibling: vec![b], path: vec![true] };
    assert_eq!(left.root(a), combine(a, b));
    assert_eq!(right.root(a), combine(b, a));
    assert_ne!(combine(a, b), combine(b, a));
}

#[test]
fn virtual_node_without_overlay_is_the_stored_node() {
    let tree = tree_of(7);
    let overlay = Overlay::new();
    assert_eq!(tree.get_virtual_node(HEIGHT, 0, &overlay, 0, 7), tree.get_root());
    assert_eq!(tree.get_virtual_node(2, 1, &overlay, 0, 7), tree.get(2, 1));
    assert_eq!(tree.get_virtual_node(0, 3, &overlay, 0, 7), leaf(3));
    assert_eq!(tree.get_virtual_node(3, 5, &overlay, 2, 4), tree.get(3, 5));
}

#[test]
fn virtual_node_prefers_the_overlay() {
    let tree = tree_of(4);
    let mut overlay = Overlay::new();
    overlay.insert(0, 1, Num::from_u64(55));
    assert_eq!(overlay.get(0, 1), Some(Num::from_u64(55)));
    assert_eq!(overlay.get(0, 2), None);
    assert_eq!(tree.get_virtual_node(0, 1, &overlay, 0, 4), Num::from_u64(55));
    assert_eq!(
        tree.get_virtual_node(1, 0, &overlay, 0, 4),
        combine(leaf(0), Num::from_u64(55))
    );
    assert_eq!(tree.get_virtual_node(1, 1, &overlay, 0, 4), combine(leaf(2), leaf(3)));
    assert_eq!(tree.get(0, 1), leaf(1));
}

#[test]
fn virtual_node_outside_the_range_is_read_from_the_tree() {
    let tree = tree_of(4);
    let mut overlay = Overlay::new();
    overlay.insert(0, 1, Num::from_u64(55));
    assert_eq!(tree.get_virtual_node(1, 0, &overlay, 2, 4), tree.get(1, 0));
    assert_eq!(tree.get_virtual_node(0, 1, &overlay, 2, 4), Num::from_u64(55));
}

#[test]
fn proofs_after_virtual_equal_proofs_after_insertion() {
    let mut tree = tree_of(5);
    let pending: Vec<Num> = (0..4).map(|i| Num::from_u64(9000 + i)).collect();
    let root_before = tree.get_root();
    let before = tree.get_proof_after_virtual(pending.clone());
    assert_eq!(tree.get_root(), root_before);
    assert_eq!(tree.next_index(), 5);
    assert_eq!(before.len(), 4);
    for (j, hash) in pending.iter().enumerate() {
        tree.add_hash(5 + j as u64, *hash, false);
    }
    for (j, hash) in pending.iter().enumerate() {
        let after = tree.get_proof_unchecked::<48>(5 + j as u64);
        assert_eq!(before[j].sibling, after.sibling);
        assert_eq!(before[j].path, after.path);
        assert_eq!(before[j].root(*hash), tree.get_root());
    }
}

#[test]
fn proofs_after_virtual_of_nothing_is_empty() {
    let tree = tree_of(3);
    assert!(tree.get_proof_after_virtual(Vec::new()).is_empty());
}

#[test]
fn proofs_after_virtual_on_an_empty_tree() {
    let mut tree = MerkleTree::new_test();
    let pending = vec![leaf(0), leaf(1), leaf(2)];
    let proofs = tree.get_proof_after_virtual(pending.clone());
    for (j, hash) in pending.iter().enumerate() {
        tree.add_hash(j as u64, *hash, false);
    }
    for (j, hash) in pending.iter().enumerate() {
        assert_eq!(proofs[j].root(*hash), tree.get_root());
    }
}

#[test]
fn root_after_commitment_is_the_root_once_the_commitment_is_added() {
    let mut tree = MerkleTree::new_test();
    tree.add_hash_at_height(7, 0, leaf(0), false);
    let expected_before = tree.get_root();
    let predicted = tree.get_root_after_commitment(1, leaf(1));
    assert_eq!(tree.get_root(), expected_before);
    tree.add_hash_at_height(7, 1, leaf(1), false);
    assert_eq!(tree.get_root(), predicted);
}

#[test]
fn new_fails_on_a_database_that_lacks_a_column() {
    assert_eq!(MerkleTree::new(kvdb_memorydb::create(0)).err(), Some(Error::Storage));
    assert_eq!(MerkleTree::new(kvdb_memorydb::create(1)).err(), Some(Error::Storage));
    assert!(MerkleTree::new(kvdb_memorydb::create(2)).is_ok());
}

#[test]
fn new_fails_on_a_node_that_does_not_decode() {
    let db = kvdb_memorydb::create(2);
    let mut transaction = db.transaction();
    transaction.put(0, &[0, 0, 0, 0, 0, 0, 0, 0, 0, 0, 0, 1], &[0xff; 32]);
    db.write(transaction).unwrap();
    assert_eq!(MerkleTree::new(db).err(), Some(Error::Corruption));

    let db = kvdb_memorydb::create(2);
    let mut transaction = db.transaction();
    transaction.put(0, &[0, 0, 0, 0, 0, 0, 0, 0, 0, 0, 0, 1], &[1; 31]);
    db.write(transaction).unwrap();
    assert_eq!(MerkleTree::new(db).err(), Some(Error::Corruption));

    let db = kvdb_memorydb::create(2);
    let mut transaction = db.transaction();
    transaction.put(0, &[0, 0, 0, 1], &[1; 32]);
    db.write(transaction).unwrap();
    assert_eq!(MerkleTree::new(db).err(), Some(Error::Corruption));
}

#[test]
fn new_fails_on_a_next_index_that_does_not_decode() {
    let db = kvdb_memorydb::create(2);
    let mut transaction = db.transaction();
    transaction.put(1, b"next_index", &[0, 0, 1]);
    db.write(transaction).unwrap();
    assert_eq!(MerkleTree::new(db).err(), Some(Error::Corruption));

    let db = kvdb_memorydb::create(2);
    let mut transaction = db.transaction();
    transaction.put(1, b"next_index", &[0, 1, 0, 0, 0, 0, 0, 1]);
    db.write(transaction).unwrap();
    assert_eq!(MerkleTree::new(db).err(), Some(Error::Corruption));
}

#[test]
fn tree_survives_a_reload() {
    let tree = tree_of(5);
    let root = tree.get_root();
    let db = tree.into_db();
    assert_eq!(
        db.get(0, &[0, 0, 0, 0, 0, 0, 0, 0, 0, 0, 0, 3]).unwrap(),
        Some(leaf(3).to_bytes())
    );
    assert_eq!(db.get(1, b"next_index").unwrap(), Some(vec![0, 0, 0, 0, 0, 0, 0, 5]));
    let again = MerkleTree::new(db).unwrap();
    assert_eq!(again.get_root(), root);
    assert_eq!(again.next_index(), 5);
    assert_eq!(again.last_leaf(), leaf(4));
}

#[test]
fn empty_subtree_hashes_have_their_known_values() {
    let tree = MerkleTree::new_test();
    assert_eq!(
        tree.get(1, 0).to_bytes(),
        vec![
            217, 132, 234, 33, 142, 192, 27, 84, 77, 139, 13, 197, 129, 173, 13, 55, 205, 189, 163,
            2, 181, 11, 51, 128, 197, 41, 19, 168, 67, 234, 74, 5
        ]
    );
    assert_eq!(
        tree.get_root().to_bytes(),
        vec![
            13, 169, 12, 238, 81, 86, 134, 125, 91, 194, 178, 66, 231, 137, 21, 159, 230, 156, 86,
            104, 35, 75, 145, 43, 40, 183, 66, 236, 9, 159, 91, 25
        ]
    );
}

#[test]
fn root_of_two_leaves_has_its_known_value() {
    let mut tree = MerkleTree::new_test();
    tree.add_hash(0, Num::from_u64(1), false);
    tree.add_hash(1, Num::from_u64(2), false);
    assert_eq!(
        tree.get(1, 0).to_bytes(),
        vec![
            248, 251, 195, 59, 207, 29, 151, 50, 108, 76, 205, 85, 48, 57, 76, 3, 231, 243, 197,
            37, 28, 168, 41, 9, 44, 166, 167, 2, 200, 250, 111, 36
        ]
    );
    assert_eq!(
        tree.get_root().to_bytes(),
        vec![
            166, 255, 80, 17, 161, 154, 228, 6, 139, 147, 178, 175, 52, 141, 16, 26, 255, 48, 9,
            229, 58, 119, 80, 86, 190, 49, 163, 39, 87, 23, 69, 47
        ]
    );
}
