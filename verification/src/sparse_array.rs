//! A sparse array of serialized records: an ordered map from a 64-bit index to bytes, kept
//! in a key-value database. Indices may lie arbitrarily far apart.

use crate::bytes::{
    be_bytes, be_value, from_be, lemma_be_bytes_of_value, lemma_be_bytes_value,
    lemma_lex_lt_is_numeric, lemma_pow256_values, to_be,
};
use crate::error::Error;
use crate::kv::{
    db_columns, db_create, db_entries, db_get, db_iter, db_put, is_column_listing, pairs_view,
};
use kvdb_memorydb::InMemory;
use vstd::prelude::*;
use vstd::slice::slice_to_vec;

verus! {

/// The database key of an index: its eight bytes, most significant first, so that the
/// database walks the records in ascending order of their indices.
pub open spec fn index_key(index: u64) -> Seq<u8> {
    be_bytes(index as nat, 8)
}

pub proof fn lemma_index_key_injective(a: u64, b: u64)
    requires
        index_key(a) == index_key(b),
    ensures
        a == b,
{
    lemma_pow256_values();
    lemma_be_bytes_value(a as nat, 8);
    lemma_be_bytes_value(b as nat, 8);
}

/// The records of a listing, each value by its bytes.
pub open spec fn records_view(items: Seq<(u64, Vec<u8>)>) -> Seq<(u64, Seq<u8>)> {
    Seq::new(items.len(), |i: int| (items[i].0, items[i].1@))
}

/// Whether `items` lists `m`: every record once, in strictly ascending order of the indices.
pub open spec fn is_ascending_listing(m: Map<u64, Seq<u8>>, items: Seq<(u64, Seq<u8>)>) -> bool {
    &&& forall|i: int, j: int|
        0 <= i < j < items.len() ==> (#[trigger] items[i]).0 < (#[trigger] items[j]).0
    &&& forall|i: int|
        0 <= i < items.len() ==> m.contains_key((#[trigger] items[i]).0) && m[items[i].0]
            == items[i].1
    &&& forall|k: u64| #[trigger]
        m.contains_key(k) ==> exists|i: int| 0 <= i < items.len() && (#[trigger] items[i]).0 == k
}

/// The part of a map whose indices lie in `lo ..= hi`.
pub open spec fn slice_of(m: Map<u64, Seq<u8>>, lo: u64, hi: u64) -> Map<u64, Seq<u8>> {
    m.restrict(Set::new(|k: u64| lo <= k <= hi))
}

/// The records among the entries of a database, by index: those of its first column.
pub open spec fn records_in(entries: Map<(u32, Seq<u8>), Seq<u8>>) -> Map<u64, Seq<u8>> {
    Map::new(
        |i: u64| entries.contains_key((0u32, index_key(i))),
        |i: u64| entries[(0u32, index_key(i))],
    )
}

/// The records that a database holds in its first column, by index.
pub open spec fn records_of(db: InMemory) -> Map<u64, Seq<u8>> {
    records_in(db_entries(db))
}

/// Whether a database can back an array: it has the column of the records, and every key
/// in that column is an index of eight bytes.
pub open spec fn holds_records(db: InMemory) -> bool {
    &&& db_columns(db).contains(0u32)
    &&& forall|key: Seq<u8>| #[trigger]
        db_entries(db).contains_key((0u32, key)) ==> key.len() == 8
}

/// An ordered map from index to record, with at most one record per index.
pub struct SparseArray {
    db: InMemory,
}

impl View for SparseArray {
    type V = Map<u64, Seq<u8>>;

    closed spec fn view(&self) -> Map<u64, Seq<u8>> {
        records_of(self.db)
    }
}

impl SparseArray {
    /// The database behind the array can back it.
    pub closed spec fn wf(&self) -> bool {
        holds_records(self.db)
    }

    /// An empty array over a fresh database.
    pub fn new_test() -> (r: SparseArray)
        ensures
            r.wf(),
            r@ == Map::<u64, Seq<u8>>::empty(),
    {
        let r = SparseArray { db: db_create(1) };
        assert(r@ =~= Map::<u64, Seq<u8>>::empty());
        r
    }

    /// An array over the records that `db` holds in its first column. Fails with
    /// `Error::Storage` if `db` has no column, and with `Error::Corruption` if a key of that
    /// column is not an index of eight bytes.
    pub fn new(db: InMemory) -> (r: Result<SparseArray, Error>)
        ensures
            r is Ok <==> holds_records(db),
            r matches Ok(array) ==> array.wf() && array@ == records_of(db),
            r matches Err(e) ==> e == (if db_columns(db).contains(0u32) {
                Error::Corruption
            } else {
                Error::Storage
            }),
    {
        let listed = db_iter(&db, 0);
        match listed {
            None => Err(Error::Storage),
            Some(items) => {
                let ghost listing = pairs_view(items@);
                let mut i: usize = 0;
                while i < items.len()
                    invariant
                        i <= items.len(),
                        listing == pairs_view(items@),
                        db_columns(db).contains(0u32),
                        is_column_listing(db_entries(db), 0u32, listing),
                        forall|j: int| 0 <= j < i ==> (#[trigger] listing[j]).0.len() == 8,
                    decreases items.len() - i,
                {
                    if items[i].0.len() != 8 {
                        proof {
                            assert(db_entries(db).contains_key((0u32, listing[i as int].0)));
                        }
                        return Err(Error::Corruption);
                    }
                    i = i + 1;
                }
                Ok(SparseArray { db })
            },
        }
    }

    /// What the database behind the array holds, by column and key.
    pub closed spec fn entries(&self) -> Map<(u32, Seq<u8>), Seq<u8>> {
        db_entries(self.db)
    }

    /// The records are those among the entries of the database.
    pub proof fn lemma_entries(&self)
        ensures
            self@ == records_in(self.entries()),
    {
    }

    /// The entries of the database's first column as they are stored, in ascending order
    /// of the keys: what has to be written elsewhere to keep the array.
    pub fn export(&self) -> (r: Vec<(Vec<u8>, Vec<u8>)>)
        requires
            self.wf(),
        ensures
            is_column_listing(self.entries(), 0u32, pairs_view(r@)),
    {
        match db_iter(&self.db, 0) {
            Some(items) => items,
            None => Vec::new(),
        }
    }

    /// Gives the database back, with the records in its first column.
    pub fn into_db(self) -> (db: InMemory)
        requires
            self.wf(),
        ensures
            holds_records(db),
            records_of(db) == self@,
    {
        self.db
    }

    /// Stores `value` at `index`, replacing what was there.
    pub fn set(&mut self, index: u64, value: &[u8])
        requires
            old(self).wf(),
        ensures
            final(self).wf(),
            final(self)@ == old(self)@.insert(index, value@),
    {
        proof {
            lemma_pow256_values();
        }
        let key = to_be(index, 8);
        db_put(&mut self.db, 0, key.as_slice(), value);
        proof {
            assert forall|i: u64| i != index implies index_key(i) != index_key(index) by {
                if index_key(i) == index_key(index) {
                    lemma_index_key_injective(i, index);
                }
            }
            assert(self@ =~= old(self)@.insert(index, value@));
        }
    }

    /// The record at `index`, if there is one.
    pub fn get(&self, index: u64) -> (r: Option<Vec<u8>>)
        requires
            self.wf(),
        ensures
            r.is_some() <==> self@.contains_key(index),
            r matches Some(value) ==> value@ == self@[index],
    {
        proof {
            lemma_pow256_values();
        }
        let key = to_be(index, 8);
        match db_get(&self.db, 0, key.as_slice()) {
            Some(found) => found,
            None => None,
        }
    }

    /// All records, in ascending order of their indices.
    pub fn iter(&self) -> (r: Vec<(u64, Vec<u8>)>)
        requires
            self.wf(),
        ensures
            is_ascending_listing(self@, records_view(r@)),
    {
        let listed = db_iter(&self.db, 0);
        let items = match listed {
            Some(items) => items,
            None => Vec::new(),
        };
        let ghost listing = pairs_view(items@);
        let mut out: Vec<(u64, Vec<u8>)> = Vec::new();
        let mut i: usize = 0;
        while i < items.len()
            invariant
                i <= items.len(),
                self.wf(),
                listing == pairs_view(items@),
                is_column_listing(db_entries(self.db), 0u32, listing),
                out@.len() == i,
                forall|j: int|
                    0 <= j < i ==> (#[trigger] out@[j]).0 == be_value(listing[j].0) && out@[j].1@
                        == listing[j].1,
            decreases items.len() - i,
        {
            proof {
                assert(db_entries(self.db).contains_key((0u32, listing[i as int].0)));
            }
            let index = from_be(items[i].0.as_slice());
            let value = slice_to_vec(items[i].1.as_slice());
            out.push((index, value));
            i = i + 1;
        }
        proof {
            let records = records_view(out@);
            let entries = db_entries(self.db);
            assert forall|a: int, b: int| 0 <= a < b < records.len() implies (
            #[trigger] records[a]).0 < (#[trigger] records[b]).0 by {
                assert(entries.contains_key((0u32, listing[a].0)));
                assert(entries.contains_key((0u32, listing[b].0)));
                lemma_lex_lt_is_numeric(listing[a].0, listing[b].0);
                assert(records[a].0 == out@[a].0);
                assert(records[b].0 == out@[b].0);
            }
            assert forall|a: int| 0 <= a < records.len() implies self@.contains_key(
                (#[trigger] records[a]).0,
            ) && self@[records[a].0] == records[a].1 by {
                assert(entries.contains_key((0u32, listing[a].0)));
                lemma_be_bytes_of_value(listing[a].0);
                assert(records[a].0 == out@[a].0);
                assert(index_key(records[a].0) == listing[a].0);
            }
            assert forall|k: u64| #[trigger] self@.contains_key(k) implies exists|a: int|
                0 <= a < records.len() && (#[trigger] records[a]).0 == k by {
                assert(entries.contains_key((0u32, index_key(k))));
                let a = choose|a: int|
                    0 <= a < listing.len() && (#[trigger] listing[a]).0 == index_key(k);
                lemma_pow256_values();
                lemma_be_bytes_value(k as nat, 8);
                assert(records[a].0 == out@[a].0);
                assert(records[a].0 == k);
            }
        }
        out
    }

    /// The records whose indices lie in `lo ..= hi`, in ascending order of their indices.
    pub fn iter_slice(&self, lo: u64, hi: u64) -> (r: Vec<(u64, Vec<u8>)>)
        requires
            self.wf(),
        ensures
            is_ascending_listing(slice_of(self@, lo, hi), records_view(r@)),
    {
        let all = self.iter();
        let ghost full = records_view(all@);
        let ghost part = slice_of(self@, lo, hi);
        let mut out: Vec<(u64, Vec<u8>)> = Vec::new();
        let ghost mut origin: Seq<int> = Seq::empty();
        let mut i: usize = 0;
        while i < all.len()
            invariant
                i <= all.len(),
                full == records_view(all@),
                part == slice_of(self@, lo, hi),
                is_ascending_listing(self@, full),
                origin.len() == out@.len(),
                forall|j: int|
                    0 <= j < out@.len() ==> 0 <= #[trigger] origin[j] < i && (out@[j].0, out@[j].1@)
                        == full[origin[j]] && lo <= out@[j].0 <= hi,
                forall|a: int, b: int|
                    0 <= a < b < origin.len() ==> #[trigger] origin[a] < #[trigger] origin[b],
                forall|j: int|
                    0 <= j < i && lo <= (#[trigger] full[j]).0 <= hi ==> exists|a: int|
                        0 <= a < origin.len() && #[trigger] origin[a] == j,
            decreases all.len() - i,
        {
            let index = all[i].0;
            if lo <= index && index <= hi {
                let value = slice_to_vec(all[i].1.as_slice());
                let ghost before = origin;
                out.push((index, value));
                proof {
                    origin = origin.push(i as int);
                    assert(full[i as int] == (all@[i as int].0, all@[i as int].1@));
                    assert forall|j: int|
                        0 <= j < i + 1 && lo <= (#[trigger] full[j]).0 <= hi implies exists|a: int|
                        0 <= a < origin.len() && #[trigger] origin[a] == j by {
                        if j < i {
                            let a = choose|a: int|
                                0 <= a < before.len() && #[trigger] before[a] == j;
                            assert(origin[a] == j);
                        } else {
                            assert(origin[before.len() as int] == j);
                        }
                    }
                }
            } else {
                proof {
                    assert(full[i as int] == (all@[i as int].0, all@[i as int].1@));
                }
            }
            i = i + 1;
        }
        proof {
            let records = records_view(out@);
            assert forall|a: int, b: int| 0 <= a < b < records.len() implies (
            #[trigger] records[a]).0 < (#[trigger] records[b]).0 by {
                assert(records[a] == full[origin[a]]);
                assert(records[b] == full[origin[b]]);
            }
            assert forall|a: int| 0 <= a < records.len() implies part.contains_key(
                (#[trigger] records[a]).0,
            ) && part[records[a].0] == records[a].1 by {
                assert(records[a] == full[origin[a]]);
            }
            assert forall|k: u64| #[trigger] part.contains_key(k) implies exists|a: int|
                0 <= a < records.len() && (#[trigger] records[a]).0 == k by {
                assert(self@.contains_key(k));
                let j = choose|j: int| 0 <= j < full.len() && (#[trigger] full[j]).0 == k;
                let a = choose|a: int| 0 <= a < origin.len() && #[trigger] origin[a] == j;
                assert(records[a] == full[origin[a]]);
            }
        }
        out
    }
}

} // verus!
