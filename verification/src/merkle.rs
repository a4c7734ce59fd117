//! The commitment tree: a Merkle tree of fixed height over a sparse set of nodes kept in a
//! key-value database. A node that was never written reads as the hash of an empty subtree
//! of its height.

use crate::bytes::{
    be_bytes, be_value, from_be, le_value, lemma_be_bytes_len, lemma_be_bytes_value,
    lemma_pow256_values, to_be,
};
use crate::crypto::compress;
use crate::error::Error;
use crate::field::{fr_modulus, Num};
use crate::kv::{
    db_columns, db_create, db_entries, db_get, db_iter, db_put, is_column_listing, pairs_view,
};
use crate::merkle_spec::{
    ancestor, default_hash, fold_proof, larger, leaf_overlay, leaves_end, lemma_pow2n_add,
    lemma_pow2n_monotonic, lemma_pow2n_values, node_at, parent_hash, pow2n, proof_path,
    proof_siblings, sibling, update_path, virtual_node, virtual_proof_siblings, HEIGHT,
};
use kvdb_memorydb::InMemory;
use std::collections::HashMap;
use vstd::prelude::*;

verus! {

broadcast use vstd::std_specs::hash::group_hash_axioms;

/// The height at which the commitment of one transaction sits: it covers the leaves of the
/// transaction's account and notes.
pub const OUTPLUSONELOG: u32 = 7;

/// The number of notes that one transaction puts out.
pub const OUT: u64 = 127;

/// The database key of a node: four bytes of height, then eight bytes of index, each most
/// significant byte first.
pub open spec fn node_key(h: nat, i: nat) -> Seq<u8> {
    be_bytes(h, 4) + be_bytes(i, 8)
}

/// The database key under which the next free leaf index is kept, in a column of its own.
pub open spec fn next_index_key() -> Seq<u8> {
    seq![110u8, 101u8, 120u8, 116u8, 95u8, 105u8, 110u8, 100u8, 101u8, 120u8]
}

/// Whether a position can be written down as a key.
pub open spec fn key_range(h: nat, i: nat) -> bool {
    h < 0x1_0000_0000 && i < 0x1_0000_0000_0000_0000
}

/// Whether `(h, i)` is a position of the tree.
pub open spec fn valid_position(h: nat, i: nat) -> bool {
    h <= HEIGHT && i < pow2n((HEIGHT - h) as nat)
}

pub proof fn lemma_node_key_injective(h: nat, i: nat, h2: nat, i2: nat)
    requires
        key_range(h, i),
        key_range(h2, i2),
        node_key(h, i) == node_key(h2, i2),
    ensures
        h == h2,
        i == i2,
{
    lemma_pow256_values();
    lemma_be_bytes_len(h, 4);
    lemma_be_bytes_len(h2, 4);
    lemma_be_bytes_len(i, 8);
    lemma_be_bytes_len(i2, 8);
    lemma_be_bytes_value(h, 4);
    lemma_be_bytes_value(h2, 4);
    lemma_be_bytes_value(i, 8);
    lemma_be_bytes_value(i2, 8);
    let k = node_key(h, i);
    let k2 = node_key(h2, i2);
    assert(k.subrange(0, 4) =~= be_bytes(h, 4));
    assert(k2.subrange(0, 4) =~= be_bytes(h2, 4));
    assert(k.subrange(4, 12) =~= be_bytes(i, 8));
    assert(k2.subrange(4, 12) =~= be_bytes(i2, 8));
}

/// The nodes among the entries of a database, by position, each by the value of its hash:
/// those of its first column.
pub open spec fn nodes_in(entries: Map<(u32, Seq<u8>), Seq<u8>>) -> Map<(nat, nat), nat> {
    Map::new(
        |k: (nat, nat)| key_range(k.0, k.1) && entries.contains_key((0u32, node_key(k.0, k.1))),
        |k: (nat, nat)| le_value(entries[(0u32, node_key(k.0, k.1))]),
    )
}

/// The next free leaf index among the entries of a database, kept in its second column: 0
/// if none was written.
pub open spec fn next_index_in(entries: Map<(u32, Seq<u8>), Seq<u8>>) -> nat {
    if entries.contains_key((1u32, next_index_key())) {
        be_value(entries[(1u32, next_index_key())])
    } else {
        0
    }
}

/// The nodes that a database holds.
pub open spec fn tree_nodes_of(db: InMemory) -> Map<(nat, nat), nat> {
    nodes_in(db_entries(db))
}

/// The next free leaf index that a database holds.
pub open spec fn next_index_of(db: InMemory) -> nat {
    next_index_in(db_entries(db))
}

/// Whether a database can back a tree: it has the two columns; every key of the first is
/// a position of twelve bytes and every value there the canonical form of a field element;
/// and the next free leaf index, if written, is eight bytes and no more than the number of
/// leaves.
pub open spec fn holds_tree(db: InMemory) -> bool {
    &&& db_columns(db).contains(0u32)
    &&& db_columns(db).contains(1u32)
    &&& forall|key: Seq<u8>| #[trigger]
        db_entries(db).contains_key((0u32, key)) ==> key.len() == 12 && db_entries(db)[(
            0u32,
            key,
        )].len() == 32 && le_value(db_entries(db)[(0u32, key)]) < fr_modulus()
    &&& db_entries(db).contains_key((1u32, next_index_key())) ==> db_entries(db)[(
        1u32,
        next_index_key(),
    )].len() == 8 && next_index_of(db) <= pow2n(HEIGHT as nat)
}

/// 2 to the power `k`.
pub fn pow2_u64(k: u32) -> (r: u64)
    requires
        k <= HEIGHT,
    ensures
        r == pow2n(k as nat),
{
    let mut r: u64 = 1;
    let mut j: u32 = 0;
    while j < k
        invariant
            j <= k <= HEIGHT,
            r == pow2n(j as nat),
        decreases k - j,
    {
        proof {
            lemma_pow2n_monotonic((j + 1) as nat, HEIGHT as nat);
            lemma_pow2n_values();
        }
        r = r * 2;
        j = j + 1;
    }
    r
}

/// The index of the other child of a node's parent.
pub fn sibling_index(index: u64) -> (r: u64)
    requires
        index < u64::MAX,
    ensures
        r == sibling(index as nat),
{
    if index % 2 == 0 {
        index + 1
    } else {
        index - 1
    }
}

fn make_node_key(height: u32, index: u64) -> (r: Vec<u8>)
    ensures
        r@ == node_key(height as nat, index as nat),
{
    proof {
        lemma_pow256_values();
    }
    let mut key = to_be(height as u64, 4);
    let mut low = to_be(index, 8);
    key.append(&mut low);
    key
}

fn make_next_index_key() -> (r: Vec<u8>)
    ensures
        r@ == next_index_key(),
{
    let key = vec![110u8, 101u8, 120u8, 116u8, 95u8, 105u8, 110u8, 100u8, 101u8, 120u8];
    assert(key@ =~= next_index_key());
    key
}

/// A proof of inclusion: the siblings along a path towards the root, lowest first, and
/// for each step whether the node on the path is a right child.
pub struct MerkleProof {
    pub sibling: Vec<Num>,
    pub path: Vec<bool>,
}

impl MerkleProof {
    /// The siblings, each by the value of its hash.
    pub open spec fn sibling_values(&self) -> Seq<nat> {
        Seq::new(self.sibling@.len(), |k: int| self.sibling@[k]@)
    }

    /// The hash that the proof leads to from `leaf`.
    pub fn root(&self, leaf: Num) -> (r: Num)
        requires
            self.sibling@.len() == self.path@.len(),
        ensures
            r@ == fold_proof(leaf@, self.path@, self.sibling_values()),
    {
        let n = self.sibling.len();
        let ghost values = self.sibling_values();
        let mut acc = leaf;
        let mut k: usize = 0;
        proof {
            assert(self.path@.subrange(0, n as int) =~= self.path@);
            assert(values.subrange(0, n as int) =~= values);
        }
        while k < n
            invariant
                k <= n,
                n == self.sibling@.len(),
                n == self.path@.len(),
                values == self.sibling_values(),
                fold_proof(
                    acc@,
                    self.path@.subrange(k as int, n as int),
                    values.subrange(k as int, n as int),
                ) == fold_proof(leaf@, self.path@, values),
            decreases n - k,
        {
            let s = self.sibling[k];
            proof {
                let p = self.path@.subrange(k as int, n as int);
                let v = values.subrange(k as int, n as int);
                assert(p.drop_first() =~= self.path@.subrange(k + 1, n as int));
                assert(v.drop_first() =~= values.subrange(k + 1, n as int));
                assert(v[0] == s@);
                assert(p[0] == self.path@[k as int]);
            }
            acc = if self.path[k] {
                compress(s, acc)
            } else {
                compress(acc, s)
            };
            k = k + 1;
        }
        acc
    }
}

/// The values of a sequence of hashes.
pub open spec fn hash_values(hashes: Seq<Num>) -> Seq<nat> {
    Seq::new(hashes.len(), |k: int| hashes[k]@)
}

/// The number under which an overlay files a position.
pub open spec fn position_code(h: nat, i: nat) -> u64 {
    (h * 0x1_0000_0000_0000 + i) as u64
}

pub proof fn lemma_position_code_injective(h: nat, i: nat, h2: nat, i2: nat)
    requires
        valid_position(h, i),
        valid_position(h2, i2),
        position_code(h, i) == position_code(h2, i2),
    ensures
        h == h2,
        i == i2,
{
    lemma_pow2n_values();
    lemma_pow2n_monotonic((HEIGHT - h) as nat, HEIGHT as nat);
    lemma_pow2n_monotonic((HEIGHT - h2) as nat, HEIGHT as nat);
}

fn make_position_code(height: u32, index: u64) -> (r: u64)
    requires
        valid_position(height as nat, index as nat),
    ensures
        r == position_code(height as nat, index as nat),
{
    proof {
        lemma_pow2n_values();
        lemma_pow2n_monotonic((HEIGHT - height) as nat, HEIGHT as nat);
    }
    (height as u64) * 0x1_0000_0000_0000 + index
}

/// Hashes laid over the stored tree: pending nodes that are not written yet.
pub struct Overlay {
    map: HashMap<u64, Num>,
}

impl View for Overlay {
    type V = Map<(nat, nat), nat>;

    closed spec fn view(&self) -> Map<(nat, nat), nat> {
        Map::new(
            |k: (nat, nat)|
                valid_position(k.0, k.1) && self.map@.contains_key(position_code(k.0, k.1)),
            |k: (nat, nat)| self.map@[position_code(k.0, k.1)]@,
        )
    }
}

impl Overlay {
    /// An overlay that holds nothing.
    pub fn new() -> (r: Overlay)
        ensures
            r@ == Map::<(nat, nat), nat>::empty(),
    {
        let r = Overlay { map: HashMap::new() };
        assert(r@ =~= Map::<(nat, nat), nat>::empty());
        r
    }

    /// Lays `hash` over the position `(height, index)`.
    pub fn insert(&mut self, height: u32, index: u64, hash: Num)
        requires
            valid_position(height as nat, index as nat),
        ensures
            final(self)@ == old(self)@.insert((height as nat, index as nat), hash@),
    {
        let code = make_position_code(height, index);
        self.map.insert(code, hash);
        proof {
            let h = height as nat;
            let i = index as nat;
            assert forall|k: (nat, nat)| valid_position(k.0, k.1) && k != (h, i) implies position_code(
                k.0,
                k.1,
            ) != position_code(h, i) by {
                if position_code(k.0, k.1) == position_code(h, i) {
                    lemma_position_code_injective(k.0, k.1, h, i);
                }
            }
            assert(self@ =~= old(self)@.insert((h, i), hash@));
        }
    }

    /// The hash laid over `(height, index)`, if there is one.
    pub fn get(&self, height: u32, index: u64) -> (r: Option<Num>)
        requires
            valid_position(height as nat, index as nat),
        ensures
            r.is_some() <==> self@.contains_key((height as nat, index as nat)),
            r matches Some(hash) ==> hash@ == self@[(height as nat, index as nat)],
    {
        let code = make_position_code(height, index);
        match self.map.get(&code) {
            Some(hash) => Some(*hash),
            None => None,
        }
    }
}

/// Whether every hash that `cache` remembers is the hash that the overlay gives its
/// position.
pub open spec fn cache_valid(
    cache: Map<u64, Num>,
    nodes: Map<(nat, nat), nat>,
    overlay: Map<(nat, nat), nat>,
    left: nat,
    right: nat,
) -> bool {
    forall|h: nat, i: nat|
        valid_position(h, i) && #[trigger] cache.contains_key(position_code(h, i)) ==> cache[position_code(
            h,
            i,
        )]@ == virtual_node(nodes, overlay, h, i, left, right)
}

/// The commitment tree.
pub struct MerkleTree {
    db: InMemory,
    default_hashes: Vec<Num>,
    next_index: u64,
}

impl MerkleTree {
    /// The database behind the tree can back it, and the tree's own fields agree with it.
    pub closed spec fn wf(&self) -> bool {
        &&& holds_tree(self.db)
        &&& self.default_hashes@.len() == HEIGHT + 1
        &&& forall|h: int|
            0 <= h <= HEIGHT ==> (#[trigger] self.default_hashes@[h])@ == default_hash(h as nat)
        &&& self.next_index == next_index_of(self.db)
        &&& self.next_index <= pow2n(HEIGHT as nat)
    }

    /// The nodes that were written, by position, each by the value of its hash.
    pub closed spec fn nodes(&self) -> Map<(nat, nat), nat> {
        tree_nodes_of(self.db)
    }

    /// One past the highest leaf that was ever inserted.
    pub closed spec fn next_index_spec(&self) -> nat {
        self.next_index as nat
    }

    fn default_table() -> (r: Vec<Num>)
        ensures
            r@.len() == HEIGHT + 1,
            forall|h: int| 0 <= h <= HEIGHT ==> (#[trigger] r@[h])@ == default_hash(h as nat),
    {
        let mut table: Vec<Num> = Vec::new();
        let mut current = Num::zero();
        table.push(current);
        let mut h: u32 = 0;
        while h < HEIGHT
            invariant
                h <= HEIGHT,
                table@.len() == h + 1,
                current@ == default_hash(h as nat),
                forall|j: int| 0 <= j <= h ==> (#[trigger] table@[j])@ == default_hash(j as nat),
            decreases HEIGHT - h,
        {
            current = compress(current, current);
            table.push(current);
            h = h + 1;
        }
        table
    }

    /// An empty tree over a fresh database.
    pub fn new_test() -> (r: MerkleTree)
        ensures
            r.wf(),
            r.nodes() == Map::<(nat, nat), nat>::empty(),
            r.next_index_spec() == 0,
    {
        let r = MerkleTree { db: db_create(2), default_hashes: Self::default_table(), next_index: 0 };
        assert(r.nodes() =~= Map::<(nat, nat), nat>::empty());
        r
    }

    /// A tree over the nodes that `db` holds. Fails with `Error::Storage` if `db` lacks one
    /// of the two columns, and with `Error::Corruption` if a stored key or value does not
    /// decode.
    pub fn new(db: InMemory) -> (r: Result<MerkleTree, Error>)
        ensures
            r is Ok <==> holds_tree(db),
            r matches Ok(tree) ==> tree.wf() && tree.nodes() == tree_nodes_of(db)
                && tree.next_index_spec() == next_index_of(db),
            r matches Err(e) ==> e == (if db_columns(db).contains(0u32) && db_columns(
                db,
            ).contains(1u32) {
                Error::Corruption
            } else {
                Error::Storage
            }),
    {
        let listed = db_iter(&db, 0);
        let key = make_next_index_key();
        let stored = db_get(&db, 1, key.as_slice());
        if listed.is_none() || stored.is_none() {
            return Err(Error::Storage);
        }
        let items = listed.unwrap();
        let ghost listing = pairs_view(items@);
        let mut i: usize = 0;
        while i < items.len()
            invariant
                i <= items.len(),
                listing == pairs_view(items@),
                db_columns(db).contains(0u32),
                db_columns(db).contains(1u32),
                is_column_listing(db_entries(db), 0u32, listing),
                forall|j: int|
                    0 <= j < i ==> (#[trigger] listing[j]).0.len() == 12 && listing[j].1.len()
                        == 32 && le_value(listing[j].1) < fr_modulus(),
            decreases items.len() - i,
        {
            proof {
                assert(db_entries(db).contains_key((0u32, listing[i as int].0)));
            }
            if items[i].0.len() != 12 {
                return Err(Error::Corruption);
            }
            if Num::from_bytes(items[i].1.as_slice()).is_none() {
                return Err(Error::Corruption);
            }
            i = i + 1;
        }
        let mut next_index: u64 = 0;
        match stored.unwrap() {
            Some(bytes) => {
                if bytes.len() != 8 {
                    return Err(Error::Corruption);
                }
                next_index = from_be(bytes.as_slice());
                proof {
                    lemma_pow2n_values();
                }
                if next_index > 0x1_0000_0000_0000 {
                    return Err(Error::Corruption);
                }
            },
            None => {},
        }
        proof {
            lemma_pow2n_values();
        }
        Ok(MerkleTree { db, default_hashes: Self::default_table(), next_index })
    }

    /// What the database behind the tree holds, by column and key.
    pub closed spec fn entries(&self) -> Map<(u32, Seq<u8>), Seq<u8>> {
        db_entries(self.db)
    }

    /// The nodes and the next free leaf index are those among the entries of the database.
    pub proof fn lemma_entries(&self)
        requires
            self.wf(),
        ensures
            self.nodes() == nodes_in(self.entries()),
            self.next_index_spec() == next_index_in(self.entries()),
    {
    }

    /// The entries of one column of the database as they are stored, in ascending order of
    /// the keys: what has to be written elsewhere to keep the tree. The first column holds
    /// the nodes, the second the next free leaf index.
    pub fn export_column(&self, col: u32) -> (r: Vec<(Vec<u8>, Vec<u8>)>)
        requires
            self.wf(),
            col < 2,
        ensures
            is_column_listing(self.entries(), col, pairs_view(r@)),
    {
        match db_iter(&self.db, col) {
            Some(items) => items,
            None => Vec::new(),
        }
    }

    /// Gives the database back, with the nodes in its first column and the next free leaf
    /// index in its second.
    pub fn into_db(self) -> (db: InMemory)
        requires
            self.wf(),
        ensures
            holds_tree(db),
            tree_nodes_of(db) == self.nodes(),
            next_index_of(db) == self.next_index_spec(),
    {
        self.db
    }

    /// The hash at a position: what was written there, or the hash of an empty subtree.
    pub fn get(&self, height: u32, index: u64) -> (r: Num)
        requires
            self.wf(),
            height <= HEIGHT,
        ensures
            r@ == node_at(self.nodes(), height as nat, index as nat),
    {
        let key = make_node_key(height, index);
        let found = match db_get(&self.db, 0, key.as_slice()) {
            Some(found) => found,
            None => None,
        };
        // What is stored decodes: the store was checked when the tree was made, and only
        // hashes were written since.
        let decoded = match found {
            Some(bytes) => Num::from_bytes(bytes.as_slice()),
            None => None,
        };
        match decoded {
            Some(hash) => hash,
            None => self.default_hashes[height as usize],
        }
    }

    /// The hash of the whole tree.
    pub fn get_root(&self) -> (r: Num)
        requires
            self.wf(),
        ensures
            r@ == node_at(self.nodes(), HEIGHT as nat, 0),
    {
        self.get(HEIGHT, 0)
    }

    /// One past the highest leaf that was ever inserted.
    pub fn next_index(&self) -> (r: u64)
        requires
            self.wf(),
        ensures
            r == self.next_index_spec(),
            r <= pow2n(HEIGHT as nat),
    {
        self.next_index
    }

    /// The hash of the highest leaf that was ever inserted, or of an empty leaf if none was.
    pub fn last_leaf(&self) -> (r: Num)
        requires
            self.wf(),
        ensures
            r@ == (if self.next_index_spec() == 0 {
                default_hash(0)
            } else {
                node_at(self.nodes(), 0, (self.next_index_spec() - 1) as nat)
            }),
    {
        if self.next_index == 0 {
            self.default_hashes[0]
        } else {
            self.get(0, self.next_index - 1)
        }
    }

    fn put_node(&mut self, height: u32, index: u64, hash: Num)
        requires
            old(self).wf(),
        ensures
            final(self).wf(),
            final(self).nodes() == old(self).nodes().insert((height as nat, index as nat), hash@),
            final(self).next_index_spec() == old(self).next_index_spec(),
    {
        let key = make_node_key(height, index);
        let value = hash.to_bytes();
        db_put(&mut self.db, 0, key.as_slice(), value.as_slice());
        proof {
            let h = height as nat;
            let i = index as nat;
            lemma_be_bytes_len(h, 4);
            lemma_be_bytes_len(i, 8);
            assert forall|k: (nat, nat)| key_range(k.0, k.1) && k != (h, i) implies node_key(
                k.0,
                k.1,
            ) != node_key(h, i) by {
                if node_key(k.0, k.1) == node_key(h, i) {
                    lemma_node_key_injective(k.0, k.1, h, i);
                }
            }
            assert(self.nodes() =~= old(self).nodes().insert((h, i), hash@));
        }
    }

    fn put_next_index(&mut self, next_index: u64)
        requires
            old(self).wf(),
            next_index <= pow2n(HEIGHT as nat),
        ensures
            final(self).wf(),
            final(self).nodes() == old(self).nodes(),
            final(self).next_index_spec() == next_index,
    {
        proof {
            lemma_pow256_values();
        }
        let key = make_next_index_key();
        let value = to_be(next_index, 8);
        db_put(&mut self.db, 1, key.as_slice(), value.as_slice());
        self.next_index = next_index;
        proof {
            assert(self.nodes() =~= old(self).nodes());
        }
    }

    /// Stores `hash` at `(height, index)` and computes every ancestor up to the root anew
    /// from its two children. The tree then counts every leaf below the position as
    /// inserted. `temporary` marks a node that the caller may replace later; what is
    /// stored does not depend on it.
    pub fn add_hash_at_height(&mut self, height: u32, index: u64, hash: Num, temporary: bool)
        requires
            old(self).wf(),
            valid_position(height as nat, index as nat),
        ensures
            final(self).wf(),
            final(self).nodes() == update_path(
                old(self).nodes(),
                height as nat,
                index as nat,
                hash@,
            ),
            final(self).next_index_spec() == larger(
                old(self).next_index_spec(),
                leaves_end(height as nat, index as nat),
            ),
    {
        let ghost target = update_path(old(self).nodes(), height as nat, index as nat, hash@);
        let mut h: u32 = height;
        let mut i: u64 = index;
        let mut value: Num = hash;
        while h < HEIGHT
            invariant
                self.wf(),
                valid_position(h as nat, i as nat),
                self.next_index_spec() == old(self).next_index_spec(),
                update_path(self.nodes(), h as nat, i as nat, value@) == target,
            decreases HEIGHT - h,
        {
            proof {
                lemma_pow2n_monotonic((HEIGHT - h) as nat, HEIGHT as nat);
                lemma_pow2n_values();
                assert(pow2n((HEIGHT - h) as nat) == 2 * pow2n((HEIGHT - h - 1) as nat));
            }
            let other = self.get(h, sibling_index(i));
            let up = if i % 2 == 0 {
                compress(value, other)
            } else {
                compress(other, value)
            };
            proof {
                assert(up@ == parent_hash(self.nodes(), h as nat, i as nat, value@));
            }
            self.put_node(h, i, value);
            h = h + 1;
            i = i / 2;
            value = up;
        }
        self.put_node(h, i, value);
        let span = pow2_u64(height);
        proof {
            lemma_pow2n_monotonic((HEIGHT - height) as nat, HEIGHT as nat);
            lemma_pow2n_add(height as nat, (HEIGHT - height) as nat);
            lemma_pow2n_values();
            let p = pow2n(height as nat);
            let q = pow2n((HEIGHT - height) as nat);
            assert((index + 1) * p <= q * p) by (nonlinear_arith)
                requires
                    index + 1 <= q,
                    p >= 0,
            ;
            assert(q * p == p * q) by (nonlinear_arith);
        }
        let reached = (index + 1) * span;
        if reached > self.next_index {
            self.put_next_index(reached);
        }
    }

    /// Stores `hash` as leaf `index` and computes every ancestor up to the root anew.
    pub fn add_hash(&mut self, index: u64, hash: Num, temporary: bool)
        requires
            old(self).wf(),
            index < pow2n(HEIGHT as nat),
        ensures
            final(self).wf(),
            final(self).nodes() == update_path(old(self).nodes(), 0, index as nat, hash@),
            final(self).next_index_spec() == larger(
                old(self).next_index_spec(),
                (index + 1) as nat,
            ),
    {
        proof {
            assert(pow2n(0) == 1);
            assert((index + 1) * 1 == index + 1);
        }
        self.add_hash_at_height(0, index, hash, temporary);
    }

    /// The siblings along the path of `H` steps that ends below the root, so that it starts
    /// at node `index` of height `HEIGHT - H`. Nothing checks that the siblings were ever
    /// written: one that was not reads as the hash of an empty subtree.
    pub fn get_proof_unchecked<const H: usize>(&self, index: u64) -> (r: MerkleProof)
        requires
            self.wf(),
            H <= HEIGHT,
            index < pow2n(H as nat),
        ensures
            r.sibling_values() == proof_siblings(
                self.nodes(),
                (HEIGHT - H) as nat,
                index as nat,
                H as nat,
            ),
            r.path@ == proof_path(index as nat, H as nat),
    {
        let start: u32 = HEIGHT - H as u32;
        let mut others: Vec<Num> = Vec::new();
        let mut sides: Vec<bool> = Vec::new();
        let mut x: u64 = index;
        let mut k: u32 = 0;
        proof {
            lemma_pow2n_monotonic(H as nat, HEIGHT as nat);
            lemma_pow2n_values();
        }
        while k < H as u32
            invariant
                self.wf(),
                H <= HEIGHT,
                start == HEIGHT - H,
                k <= H,
                x == ancestor(index as nat, k as nat),
                x <= index,
                index < 0x1_0000_0000_0000,
                others@.len() == k,
                sides@.len() == k,
                forall|j: int|
                    0 <= j < k ==> (#[trigger] others@[j])@ == node_at(
                        self.nodes(),
                        (start + j) as nat,
                        sibling(ancestor(index as nat, j as nat)),
                    ),
                forall|j: int|
                    0 <= j < k ==> #[trigger] sides@[j] == (ancestor(index as nat, j as nat) % 2
                        == 1),
            decreases H - k,
        {
            let other = self.get(start + k, sibling_index(x));
            others.push(other);
            sides.push(x % 2 == 1);
            x = x / 2;
            k = k + 1;
        }
        let r = MerkleProof { sibling: others, path: sides };
        proof {
            assert(r.sibling_values() =~= proof_siblings(
                self.nodes(),
                (HEIGHT - H) as nat,
                index as nat,
                H as nat,
            ));
            assert(r.path@ =~= proof_path(index as nat, H as nat));
        }
        r
    }

    fn virtual_node_memo(
        &self,
        height: u32,
        index: u64,
        overlay: &Overlay,
        cache: &mut HashMap<u64, Num>,
        left: u64,
        right: u64,
    ) -> (r: Num)
        requires
            self.wf(),
            valid_position(height as nat, index as nat),
            cache_valid(old(cache)@, self.nodes(), overlay@, left as nat, right as nat),
        ensures
            r@ == virtual_node(
                self.nodes(),
                overlay@,
                height as nat,
                index as nat,
                left as nat,
                right as nat,
            ),
            cache_valid(final(cache)@, self.nodes(), overlay@, left as nat, right as nat),
        decreases height,
    {
        match overlay.get(height, index) {
            Some(hash) => {
                return hash;
            },
            None => {},
        }
        if height == 0 {
            return self.get(height, index);
        }
        let span = pow2_u64(height);
        proof {
            lemma_pow2n_values();
            lemma_pow2n_add(height as nat, (HEIGHT - height) as nat);
            let p = pow2n(height as nat);
            let q = pow2n((HEIGHT - height) as nat);
            assert((index + 1) * p <= q * p) by (nonlinear_arith)
                requires
                    index + 1 <= q,
                    p >= 0,
            ;
            assert(q * p == p * q) by (nonlinear_arith);
            assert((index + 1) * p == index * p + p) by (nonlinear_arith);
            assert(index * p >= 0) by (nonlinear_arith)
                requires
                    index >= 0,
                    p >= 0,
            ;
        }
        let node_left = index * span;
        let node_right = node_left + span;
        if node_right <= left || right <= node_left {
            return self.get(height, index);
        }
        let code = make_position_code(height, index);
        match cache.get(&code) {
            Some(hash) => {
                return *hash;
            },
            None => {},
        }
        proof {
            lemma_pow2n_monotonic((HEIGHT - height) as nat, HEIGHT as nat);
            assert(pow2n((HEIGHT - height + 1) as nat) == 2 * pow2n((HEIGHT - height) as nat));
        }
        let l = self.virtual_node_memo(height - 1, 2 * index, overlay, cache, left, right);
        let r = self.virtual_node_memo(height - 1, 2 * index + 1, overlay, cache, left, right);
        let hash = compress(l, r);
        let ghost before = cache@;
        cache.insert(code, hash);
        proof {
            let h = height as nat;
            let i = index as nat;
            assert forall|h2: nat, i2: nat|
                valid_position(h2, i2) && #[trigger] cache@.contains_key(
                    position_code(h2, i2),
                ) implies cache@[position_code(h2, i2)]@ == virtual_node(
                self.nodes(),
                overlay@,
                h2,
                i2,
                left as nat,
                right as nat,
            ) by {
                if position_code(h2, i2) == position_code(h, i) {
                    lemma_position_code_injective(h2, i2, h, i);
                } else {
                    assert(before.contains_key(position_code(h2, i2)));
                }
            }
        }
        hash
    }

    /// The hash at `(height, index)` when the hashes of `overlay` are laid over the tree for
    /// the leaves `left .. right`. Nothing is written.
    pub fn get_virtual_node(
        &self,
        height: u32,
        index: u64,
        overlay: &Overlay,
        left: u64,
        right: u64,
    ) -> (r: Num)
        requires
            self.wf(),
            valid_position(height as nat, index as nat),
        ensures
            r@ == virtual_node(
                self.nodes(),
                overlay@,
                height as nat,
                index as nat,
                left as nat,
                right as nat,
            ),
    {
        let mut cache: HashMap<u64, Num> = HashMap::new();
        self.virtual_node_memo(height, index, overlay, &mut cache, left, right)
    }

    /// The root that the tree would have if `hash` were the commitment of the transaction
    /// number `commitment_index`. Nothing is written.
    pub fn get_root_after_commitment(&self, commitment_index: u64, hash: Num) -> (r: Num)
        requires
            self.wf(),
            valid_position(OUTPLUSONELOG as nat, commitment_index as nat),
        ensures
            r@ == virtual_node(
                self.nodes(),
                Map::<(nat, nat), nat>::empty().insert(
                    (OUTPLUSONELOG as nat, commitment_index as nat),
                    hash@,
                ),
                HEIGHT as nat,
                0,
                (commitment_index * (OUT + 1)) as nat,
                (commitment_index * (OUT + 1) + OUT + 1) as nat,
            ),
    {
        let mut overlay = Overlay::new();
        overlay.insert(OUTPLUSONELOG, commitment_index, hash);
        proof {
            lemma_pow2n_values();
            assert(pow2n(41) == 0x200_0000_0000) by {
                reveal_with_fuel(pow2n, 42);
            }
        }
        let left = commitment_index * (OUT + 1);
        self.get_virtual_node(HEIGHT, 0, &overlay, left, left + OUT + 1)
    }

    /// For each of `new_hashes`, the proof of inclusion that it would have as a leaf if all
    /// of them were appended at the next free leaf index. Nothing is written.
    pub fn get_proof_after_virtual(&self, new_hashes: Vec<Num>) -> (r: Vec<MerkleProof>)
        requires
            self.wf(),
            self.next_index_spec() + new_hashes@.len() <= pow2n(HEIGHT as nat),
        ensures
            r@.len() == new_hashes@.len(),
            forall|j: int|
                0 <= j < r@.len() ==> (#[trigger] r@[j]).sibling_values()
                    == virtual_proof_siblings(
                    self.nodes(),
                    leaf_overlay(self.next_index_spec(), hash_values(new_hashes@)),
                    (self.next_index_spec() + j) as nat,
                    self.next_index_spec(),
                    self.next_index_spec() + new_hashes@.len(),
                ) && r@[j].path@ == proof_path(
                    (self.next_index_spec() + j) as nat,
                    HEIGHT as nat,
                ),
    {
        proof {
            lemma_pow2n_values();
        }
        let start: u64 = self.next_index;
        let count: usize = new_hashes.len();
        let end: u64 = start + count as u64;
        let ghost values = hash_values(new_hashes@);
        let ghost laid = leaf_overlay(start as nat, values);
        let mut overlay = Overlay::new();
        let mut j: usize = 0;
        while j < count
            invariant
                j <= count,
                count == new_hashes@.len(),
                start + count <= 0x1_0000_0000_0000,
                pow2n(HEIGHT as nat) == 0x1_0000_0000_0000,
                values == hash_values(new_hashes@),
                overlay@ == leaf_overlay(start as nat, values.take(j as int)),
            decreases count - j,
        {
            let ghost before = overlay@;
            overlay.insert(0, start + j as u64, new_hashes[j]);
            proof {
                assert(overlay@ =~= leaf_overlay(start as nat, values.take(j + 1)));
            }
            j = j + 1;
        }
        proof {
            assert(values.take(count as int) =~= values);
        }
        let mut cache: HashMap<u64, Num> = HashMap::new();
        let mut proofs: Vec<MerkleProof> = Vec::new();
        let mut j: usize = 0;
        while j < count
            invariant
                self.wf(),
                j <= count,
                count == new_hashes@.len(),
                start == self.next_index_spec(),
                end == start + count,
                end <= 0x1_0000_0000_0000,
                pow2n(HEIGHT as nat) == 0x1_0000_0000_0000,
                overlay@ == laid,
                laid == leaf_overlay(start as nat, hash_values(new_hashes@)),
                cache_valid(cache@, self.nodes(), laid, start as nat, end as nat),
                proofs@.len() == j,
                forall|m: int|
                    0 <= m < j ==> (#[trigger] proofs@[m]).sibling_values()
                        == virtual_proof_siblings(
                        self.nodes(),
                        laid,
                        (start + m) as nat,
                        start as nat,
                        end as nat,
                    ) && proofs@[m].path@ == proof_path((start + m) as nat, HEIGHT as nat),
            decreases count - j,
        {
            let leaf: u64 = start + j as u64;
            let mut others: Vec<Num> = Vec::new();
            let mut sides: Vec<bool> = Vec::new();
            let mut x: u64 = leaf;
            let mut k: u32 = 0;
            while k < HEIGHT
                invariant
                    self.wf(),
                    k <= HEIGHT,
                    x == ancestor(leaf as nat, k as nat),
                    x < pow2n((HEIGHT - k) as nat),
                    overlay@ == laid,
                    cache_valid(cache@, self.nodes(), laid, start as nat, end as nat),
                    others@.len() == k,
                    sides@.len() == k,
                    forall|m: int|
                        0 <= m < k ==> (#[trigger] others@[m])@ == virtual_node(
                            self.nodes(),
                            laid,
                            m as nat,
                            sibling(ancestor(leaf as nat, m as nat)),
                            start as nat,
                            end as nat,
                        ),
                    forall|m: int|
                        0 <= m < k ==> #[trigger] sides@[m] == (ancestor(leaf as nat, m as nat) % 2
                            == 1),
                decreases HEIGHT - k,
            {
                proof {
                    lemma_pow2n_monotonic((HEIGHT - k) as nat, HEIGHT as nat);
                    lemma_pow2n_values();
                    assert(pow2n((HEIGHT - k) as nat) == 2 * pow2n((HEIGHT - k - 1) as nat));
                }
                let other = self.virtual_node_memo(
                    k,
                    sibling_index(x),
                    &overlay,
                    &mut cache,
                    start,
                    end,
                );
                others.push(other);
                sides.push(x % 2 == 1);
                x = x / 2;
                k = k + 1;
            }
            let proof_of_leaf = MerkleProof { sibling: others, path: sides };
            proof {
                assert(proof_of_leaf.sibling_values() =~= virtual_proof_siblings(
                    self.nodes(),
                    laid,
                    leaf as nat,
                    start as nat,
                    end as nat,
                ));
                assert(proof_of_leaf.path@ =~= proof_path(leaf as nat, HEIGHT as nat));
            }
            proofs.push(proof_of_leaf);
            j = j + 1;
        }
        proofs
    }
}

} // verus!
