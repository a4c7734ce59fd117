//! The in-memory key-value database that backs the tree and the log, and what this crate
//! takes on trust about it.

use crate::bytes::lex_lt;
use kvdb::KeyValueDB;
use kvdb_memorydb::InMemory;
use vstd::prelude::*;

verus! {

/// `kvdb_memorydb::InMemory`, carried as a value that only the functions below look into.
#[verifier::external_type_specification]
#[verifier::external_body]
pub struct ExInMemory(kvdb_memorydb::InMemory);

/// What a database holds: the value stored under each column and key.
pub uninterp spec fn db_entries(db: kvdb_memorydb::InMemory) -> Map<(u32, Seq<u8>), Seq<u8>>;

/// The columns that a database was made with.
pub uninterp spec fn db_columns(db: kvdb_memorydb::InMemory) -> Set<u32>;

/// The entries of a listing, each key and value by its bytes.
pub open spec fn pairs_view(items: Seq<(Vec<u8>, Vec<u8>)>) -> Seq<(Seq<u8>, Seq<u8>)> {
    Seq::new(items.len(), |i: int| (items[i].0@, items[i].1@))
}

/// A database that holds nothing.
pub open spec fn no_entries() -> Map<(u32, Seq<u8>), Seq<u8>> {
    Map::empty()
}

/// Whether `items` lists what `entries` holds in column `col`: every entry once, with its
/// value, in ascending byte order of the keys.
pub open spec fn is_column_listing(
    entries: Map<(u32, Seq<u8>), Seq<u8>>,
    col: u32,
    items: Seq<(Seq<u8>, Seq<u8>)>,
) -> bool {
    &&& forall|i: int, j: int|
        0 <= i < j < items.len() ==> lex_lt((#[trigger] items[i]).0, (#[trigger] items[j]).0)
    &&& forall|i: int|
        0 <= i < items.len() ==> entries.contains_key((col, (#[trigger] items[i]).0))
            && entries[(col, items[i].0)] == items[i].1
    &&& forall|key: Seq<u8>| #[trigger]
        entries.contains_key((col, key)) ==> exists|i: int|
            0 <= i < items.len() && (#[trigger] items[i]).0 == key
}

/// `kvdb_memorydb::create`: an empty database whose columns are those below `num_cols`.
#[verifier::external_body]
pub(crate) fn db_create(num_cols: u32) -> (db: InMemory)
    ensures
        db_columns(db) == Set::new(|c: u32| c < num_cols),
        db_entries(db) == no_entries(),
{
    kvdb_memorydb::create(num_cols)
}

/// `KeyValueDB::get` of `InMemory`: a copy of the value stored under `key` in column `col`,
/// if there is one. The call fails, here `None`, exactly when the database was made
/// without that column.
#[verifier::external_body]
pub(crate) fn db_get(db: &InMemory, col: u32, key: &[u8]) -> (r: Option<Option<Vec<u8>>>)
    ensures
        r.is_some() <==> db_columns(*db).contains(col),
        r matches Some(found) ==> (found.is_some() <==> db_entries(*db).contains_key(
            (col, key@),
        )),
        r matches Some(Some(value)) ==> value@ == db_entries(*db)[(col, key@)],
{
    db.get(col, key).ok()
}

/// `KeyValueDB::write` of `InMemory` with one `DBTransaction::put`: the value is stored under
/// `key` in column `col`, replacing what was there; a column that the database was made
/// without is left out silently. Nothing else changes, and the write does not fail.
#[verifier::external_body]
pub(crate) fn db_put(db: &mut InMemory, col: u32, key: &[u8], value: &[u8])
    ensures
        db_columns(*final(db)) == db_columns(*old(db)),
        db_entries(*final(db)) == (if db_columns(*old(db)).contains(col) {
            db_entries(*old(db)).insert((col, key@), value@)
        } else {
            db_entries(*old(db))
        }),
{
    let mut transaction = db.transaction();
    transaction.put(col, key, value);
    let _ = db.write(transaction);
}

/// `KeyValueDB::iter` of `InMemory`: the entries of column `col`, walked in the order of the
/// `BTreeMap` that holds them, which is ascending byte order of the keys. The walk fails,
/// here `None`, exactly when the database was made without that column.
#[verifier::external_body]
pub(crate) fn db_iter(db: &InMemory, col: u32) -> (r: Option<Vec<(Vec<u8>, Vec<u8>)>>)
    ensures
        r.is_some() <==> db_columns(*db).contains(col),
        r matches Some(items) ==> is_column_listing(db_entries(*db), col, pairs_view(items@)),
{
    db.iter(col).map(|item| item.map(|(key, value)| (key.to_vec(), value))).collect::<
        Result<Vec<_>, _>,
    >().ok()
}

} // verus!
