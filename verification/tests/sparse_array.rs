use kvdb::KeyValueDB;
use libzeropool_rs::error::Error;
use libzeropool_rs::sparse_array::SparseArray;

fn put(db: &kvdb_memorydb::InMemory, col: u32, key: &[u8], value: &[u8]) {
    let mut transaction = db.transaction();
    transaction.put(col, key, value);
    db.write(transaction).unwrap();
}

#[test]
fn iter_yields_records_in_ascending_index_order() {
    let mut array = SparseArray::new_test();
    array.set(5, b"X");
    array.set(2, b"Y");
    array.set(9, b"Z");
    assert_eq!(
        array.iter(),
        vec![(2, b"Y".to_vec()), (5, b"X".to_vec()), (9, b"Z".to_vec())]
    );
}

#[test]
fn iter_orders_indices_that_differ_in_high_bytes() {
    let mut array = SparseArray::new_test();
    array.set(1 << 40, b"a");
    array.set(255, b"b");
    array.set(256, b"c");
    array.set(u64::MAX, b"d");
    array.set(0, b"e");
    let indices: Vec<u64> = array.iter().into_iter().map(|(i, _)| i).collect();
    assert_eq!(indices, vec![0, 255, 256, 1 << 40, u64::MAX]);
}

#[test]
fn iter_on_empty_array_is_empty() {
    let array = SparseArray::new_test();
    assert!(array.iter().is_empty());
    assert!(array.iter_slice(0, u64::MAX).is_empty());
}

#[test]
fn iter_is_restartable() {
    let mut array = SparseArray::new_test();
    array.set(1, b"one");
    let first = array.iter();
    array.set(0, b"zero");
    let second = array.iter();
    assert_eq!(first, vec![(1, b"one".to_vec())]);
    assert_eq!(second, vec![(0, b"zero".to_vec()), (1, b"one".to_vec())]);
}

#[test]
fn set_overwrites_silently() {
    let mut array = SparseArray::new_test();
    array.set(7, b"old");
    array.set(7, b"new");
    assert_eq!(array.get(7), Some(b"new".to_vec()));
    assert_eq!(array.iter(), vec![(7, b"new".to_vec())]);
}

#[test]
fn get_of_an_absent_index_is_none() {
    let mut array = SparseArray::new_test();
    array.set(3, b"three");
    assert_eq!(array.get(2), None);
    assert_eq!(array.get(4), None);
    assert_eq!(array.get(3), Some(b"three".to_vec()));
}

#[test]
fn iter_slice_keeps_both_ends() {
    let mut array = SparseArray::new_test();
    for i in [1u64, 3, 5, 7, 9] {
        array.set(i, &[i as u8]);
    }
    assert_eq!(array.iter_slice(3, 7), vec![(3, vec![3]), (5, vec![5]), (7, vec![7])]);
    assert_eq!(array.iter_slice(4, 4), vec![]);
    assert_eq!(array.iter_slice(9, u64::MAX), vec![(9, vec![9])]);
    assert_eq!(array.iter_slice(8, 2), vec![]);
}

#[test]
fn new_fails_on_a_database_without_columns() {
    let result = SparseArray::new(kvdb_memorydb::create(0));
    assert_eq!(result.err(), Some(Error::Storage));
}

#[test]
fn new_fails_on_a_key_that_is_no_index() {
    let db = kvdb_memorydb::create(1);
    put(&db, 0, &[0, 0, 0, 0, 0, 0, 0, 1], b"fine");
    put(&db, 0, b"abc", b"stray");
    let result = SparseArray::new(db);
    assert_eq!(result.err(), Some(Error::Corruption));
}

#[test]
fn new_reads_records_under_big_endian_keys() {
    let db = kvdb_memorydb::create(1);
    put(&db, 0, &[0, 0, 0, 0, 0, 0, 1, 2], b"value");
    let array = SparseArray::new(db).unwrap();
    assert_eq!(array.get(258), Some(b"value".to_vec()));
    assert_eq!(array.iter(), vec![(258, b"value".to_vec())]);
}

#[test]
fn into_db_gives_the_records_back() {
    let mut array = SparseArray::new_test();
    array.set(258, b"value");
    let db = array.into_db();
    assert_eq!(db.get(0, &[0, 0, 0, 0, 0, 0, 1, 2]).unwrap(), Some(b"value".to_vec()));
    let again = SparseArray::new(db).unwrap();
    assert_eq!(again.get(258), Some(b"value".to_vec()));
}

#[test]
fn export_lists_the_stored_entries_in_key_order() {
    let mut array = SparseArray::new_test();
    array.set(300, b"b");
    array.set(2, b"a");
    assert_eq!(
        array.export(),
        vec![
            (vec![0, 0, 0, 0, 0, 0, 0, 2], b"a".to_vec()),
            (vec![0, 0, 0, 0, 0, 0, 1, 44], b"b".to_vec())
        ]
    );
}
