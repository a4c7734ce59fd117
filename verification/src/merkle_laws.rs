//! What holds of the commitment tree whatever is inserted: insertions one by one build the
//! same tree as the leaves alone determine, a proof of inclusion leads to the root, and
//! nodes computed over an overlay of pending leaves are the nodes that the tree holds once
//! the leaves are inserted.

use crate::merkle_spec::{
    ancestor, consistent, consistent_at, default_hash, fold_proof, insert_leaves, leaf_overlay,
    lemma_ancestor_of_parent, lemma_ancestor_range, lemma_pow2n_positive, lemma_update_path_on,
    lemma_update_path_other, node_at, on_path, outside_range, parent_hash, pow2n, proof_path,
    proof_siblings, sibling, subtree_hash, update_path, virtual_node, virtual_proof_siblings,
    HEIGHT,
};
use vstd::prelude::*;

verus! {

/// Inserting the same hash at the same position a second time changes nothing.
pub proof fn lemma_update_path_idempotent(nodes: Map<(nat, nat), nat>, h: nat, i: nat, value: nat)
    requires
        h <= HEIGHT,
    ensures
        update_path(update_path(nodes, h, i, value), h, i, value) == update_path(
            nodes,
            h,
            i,
            value,
        ),
{
    let once = update_path(nodes, h, i, value);
    assert(ancestor(i, 0) == i);
    lemma_update_path_on(nodes, h, i, value, h);
    assert forall|k: nat| 1 <= k && h + k <= HEIGHT implies consistent_at(
        once,
        h + k,
        #[trigger] ancestor(i, k),
    ) && once.contains_key((h + k, ancestor(i, k))) by {
        lemma_update_path_on(nodes, h, i, value, h + k);
    }
    lemma_update_path_again(once, h, i, value);
}

/// Storing at a position the value that is stored there, in a tree whose path from the
/// position is consistent, gives the same tree.
proof fn lemma_update_path_again(nodes: Map<(nat, nat), nat>, h: nat, i: nat, value: nat)
    requires
        h <= HEIGHT,
        nodes.contains_key((h, i)),
        nodes[(h, i)] == value,
        forall|k: nat|
            1 <= k && h + k <= HEIGHT ==> consistent_at(nodes, h + k, #[trigger] ancestor(i, k))
                && nodes.contains_key((h + k, ancestor(i, k))),
    ensures
        update_path(nodes, h, i, value) == nodes,
    decreases HEIGHT - h,
{
    let stored = nodes.insert((h, i), value);
    assert(stored =~= nodes);
    if h < HEIGHT {
        let up = parent_hash(nodes, h, i, value);
        let parent = ancestor(i, 1);
        assert(ancestor(i, 0) == i);
        assert(parent == i / 2);
        assert(consistent_at(nodes, h + 1, parent) && nodes.contains_key((h + 1, parent)));
        assert(node_at(nodes, h, i) == value);
        if i % 2 == 0 {
            assert(2 * parent == i);
        } else {
            assert(2 * parent + 1 == i);
        }
        assert(nodes[(h + 1, i / 2)] == up);
        assert forall|k: nat| 1 <= k && (h + 1) + k <= HEIGHT implies consistent_at(
            nodes,
            (h + 1) + k,
            #[trigger] ancestor(i / 2, k),
        ) && nodes.contains_key(((h + 1) + k, ancestor(i / 2, k))) by {
            lemma_ancestor_of_parent(i, k + 1);
            assert(consistent_at(nodes, h + (k + 1), ancestor(i, k + 1)));
        }
        lemma_update_path_again(nodes, h + 1, i / 2, up);
    }
}

/// A tree in which nothing was inserted is consistent.
pub proof fn lemma_empty_consistent()
    ensures
        consistent(Map::<(nat, nat), nat>::empty()),
{
    let nodes = Map::<(nat, nat), nat>::empty();
    assert forall|h: nat, i: nat| 1 <= h <= HEIGHT implies #[trigger] consistent_at(
        nodes,
        h,
        i,
    ) by {
        assert(node_at(nodes, h, i) == default_hash(h));
        assert(node_at(nodes, (h - 1) as nat, 2 * i) == default_hash((h - 1) as nat));
        assert(node_at(nodes, (h - 1) as nat, 2 * i + 1) == default_hash((h - 1) as nat));
    }
}

/// Inserting a leaf leaves every node that held the hash of its children holding it.
pub proof fn lemma_leaf_insert_keeps_consistent_at(
    nodes: Map<(nat, nat), nat>,
    i: nat,
    value: nat,
    h2: nat,
    i2: nat,
)
    requires
        1 <= h2 <= HEIGHT,
        consistent_at(nodes, h2, i2),
    ensures
        consistent_at(update_path(nodes, 0, i, value), h2, i2),
{
    if on_path(0, i, h2, i2) {
        lemma_update_path_on(nodes, 0, i, value, h2);
    } else {
        let below = (h2 - 1) as nat;
        assert(ancestor(i, h2) == ancestor(i, below) / 2);
        lemma_update_path_other(nodes, 0, i, value, h2, i2);
        lemma_update_path_other(nodes, 0, i, value, below, 2 * i2);
        lemma_update_path_other(nodes, 0, i, value, below, 2 * i2 + 1);
    }
}

/// Inserting leaves leaves every node that held the hash of its children holding it.
pub proof fn lemma_insert_leaves_keeps_consistent_at(
    nodes: Map<(nat, nat), nat>,
    start: nat,
    leaves: Seq<nat>,
    h2: nat,
    i2: nat,
)
    requires
        1 <= h2 <= HEIGHT,
        consistent_at(nodes, h2, i2),
    ensures
        consistent_at(insert_leaves(nodes, start, leaves), h2, i2),
    decreases leaves.len(),
{
    if leaves.len() > 0 {
        lemma_leaf_insert_keeps_consistent_at(nodes, start, leaves[0], h2, i2);
        lemma_insert_leaves_keeps_consistent_at(
            update_path(nodes, 0, start, leaves[0]),
            start + 1,
            leaves.drop_first(),
            h2,
            i2,
        );
    }
}

/// Inserting leaves into a consistent tree gives a consistent tree.
pub proof fn lemma_insert_leaves_consistent(
    nodes: Map<(nat, nat), nat>,
    start: nat,
    leaves: Seq<nat>,
)
    requires
        consistent(nodes),
    ensures
        consistent(insert_leaves(nodes, start, leaves)),
{
    let after = insert_leaves(nodes, start, leaves);
    assert forall|h: nat, i: nat| 1 <= h <= HEIGHT implies #[trigger] consistent_at(
        after,
        h,
        i,
    ) by {
        assert(consistent_at(nodes, h, i));
        lemma_insert_leaves_keeps_consistent_at(nodes, start, leaves, h, i);
    }
}

/// After leaves are inserted, each of them is a leaf of the tree, and every other leaf is
/// what it was.
pub proof fn lemma_insert_leaves_leaf(
    nodes: Map<(nat, nat), nat>,
    start: nat,
    leaves: Seq<nat>,
    j: nat,
)
    ensures
        node_at(insert_leaves(nodes, start, leaves), 0, j) == (if start <= j < start
            + leaves.len() {
            leaves[j - start]
        } else {
            node_at(nodes, 0, j)
        }),
    decreases leaves.len(),
{
    if leaves.len() > 0 {
        let first = update_path(nodes, 0, start, leaves[0]);
        lemma_insert_leaves_leaf(first, start + 1, leaves.drop_first(), j);
        assert(ancestor(start, 0) == start);
        if j == start {
            lemma_update_path_on(nodes, 0, start, leaves[0], 0);
        } else {
            lemma_update_path_other(nodes, 0, start, leaves[0], 0, j);
        }
    }
}

/// After leaves are inserted, a node above none of them is what it was.
pub proof fn lemma_insert_leaves_untouched(
    nodes: Map<(nat, nat), nat>,
    start: nat,
    leaves: Seq<nat>,
    h2: nat,
    i2: nat,
)
    requires
        forall|j: nat| start <= j < start + leaves.len() ==> #[trigger] ancestor(j, h2) != i2,
    ensures
        node_at(insert_leaves(nodes, start, leaves), h2, i2) == node_at(nodes, h2, i2),
    decreases leaves.len(),
{
    if leaves.len() > 0 {
        let first = update_path(nodes, 0, start, leaves[0]);
        assert(ancestor(start, h2) != i2);
        lemma_update_path_other(nodes, 0, start, leaves[0], h2, i2);
        assert forall|j: nat| start + 1 <= j < start + 1 + leaves.drop_first().len() implies #[trigger] ancestor(
            j,
            h2,
        ) != i2 by {}
        lemma_insert_leaves_untouched(first, start + 1, leaves.drop_first(), h2, i2);
    }
}

/// After leaves are inserted, every node above one of them holds the hash of its children.
pub proof fn lemma_insert_leaves_path_consistent(
    nodes: Map<(nat, nat), nat>,
    start: nat,
    leaves: Seq<nat>,
    j: nat,
    h2: nat,
)
    requires
        start <= j < start + leaves.len(),
        1 <= h2 <= HEIGHT,
    ensures
        consistent_at(insert_leaves(nodes, start, leaves), h2, ancestor(j, h2)),
    decreases leaves.len(),
{
    let first = update_path(nodes, 0, start, leaves[0]);
    if j == start {
        lemma_update_path_on(nodes, 0, start, leaves[0], h2);
        lemma_insert_leaves_keeps_consistent_at(
            first,
            start + 1,
            leaves.drop_first(),
            h2,
            ancestor(j, h2),
        );
    } else {
        lemma_insert_leaves_path_consistent(first, start + 1, leaves.drop_first(), j, h2);
    }
}

/// In a consistent tree, every node is the hash that the leaves alone determine.
pub proof fn lemma_consistent_matches_subtree(
    nodes: Map<(nat, nat), nat>,
    leaves: Seq<nat>,
    h: nat,
    i: nat,
)
    requires
        h <= HEIGHT,
        consistent(nodes),
        forall|j: nat| #[trigger]
            node_at(nodes, 0, j) == (if j < leaves.len() {
                leaves[j as int]
            } else {
                default_hash(0)
            }),
    ensures
        node_at(nodes, h, i) == subtree_hash(leaves, h, i),
    decreases h,
{
    if h > 0 {
        assert(consistent_at(nodes, h, i));
        lemma_consistent_matches_subtree(nodes, leaves, (h - 1) as nat, 2 * i);
        lemma_consistent_matches_subtree(nodes, leaves, (h - 1) as nat, 2 * i + 1);
    }
}

/// Inserting leaves one by one into an empty tree, from index 0 on, gives the root that a
/// build from the leaves alone gives.
pub proof fn lemma_incremental_root_is_batch_root(leaves: Seq<nat>)
    ensures
        node_at(insert_leaves(Map::<(nat, nat), nat>::empty(), 0, leaves), HEIGHT as nat, 0)
            == subtree_hash(leaves, HEIGHT as nat, 0),
{
    let empty = Map::<(nat, nat), nat>::empty();
    let built = insert_leaves(empty, 0, leaves);
    lemma_empty_consistent();
    lemma_insert_leaves_consistent(empty, 0, leaves);
    assert forall|j: nat| #[trigger]
        node_at(built, 0, j) == (if j < leaves.len() {
            leaves[j as int]
        } else {
            default_hash(0)
        }) by {
        lemma_insert_leaves_leaf(empty, 0, leaves, j);
    }
    lemma_consistent_matches_subtree(built, leaves, HEIGHT as nat, 0);
}

/// Whether every ancestor of `(h, i)` holds the hash of its two children.
pub open spec fn path_consistent(nodes: Map<(nat, nat), nat>, h: nat, i: nat) -> bool {
    forall|k: nat|
        1 <= k && h + k <= HEIGHT ==> consistent_at(nodes, h + k, #[trigger] ancestor(i, k))
}

proof fn lemma_fold_from(nodes: Map<(nat, nat), nat>, h: nat, i: nat, k: nat)
    requires
        h + k <= HEIGHT,
        path_consistent(nodes, h, i),
    ensures
        fold_proof(
            node_at(nodes, h + k, ancestor(i, k)),
            proof_path(i, (HEIGHT - h) as nat).skip(k as int),
            proof_siblings(nodes, h, i, (HEIGHT - h) as nat).skip(k as int),
        ) == node_at(nodes, HEIGHT as nat, ancestor(i, (HEIGHT - h) as nat)),
    decreases HEIGHT - h - k,
{
    let len = (HEIGHT - h) as nat;
    let path = proof_path(i, len).skip(k as int);
    let siblings = proof_siblings(nodes, h, i, len).skip(k as int);
    if h + k < HEIGHT {
        let a = ancestor(i, k);
        let up = ancestor(i, k + 1);
        assert(up == a / 2);
        assert(consistent_at(nodes, h + (k + 1), up));
        assert(path[0] == (a % 2 == 1));
        assert(siblings[0] == node_at(nodes, h + k, sibling(a)));
        assert(path.drop_first() =~= proof_path(i, len).skip(k + 1 as int));
        assert(siblings.drop_first() =~= proof_siblings(nodes, h, i, len).skip(k + 1 as int));
        if a % 2 == 0 {
            assert(2 * up == a && 2 * up + 1 == sibling(a));
        } else {
            assert(2 * up == sibling(a) && 2 * up + 1 == a);
        }
        lemma_fold_from(nodes, h, i, k + 1);
    } else {
        assert(siblings.len() == 0);
    }
}

/// A proof of inclusion leads to the root: when every ancestor of a position holds the
/// hash of its two children, combining the hash at the position with the siblings along
/// its path, each on the side that the path gives, yields the root.
pub proof fn lemma_proof_leads_to_root(nodes: Map<(nat, nat), nat>, h: nat, i: nat)
    requires
        h <= HEIGHT,
        i < pow2n((HEIGHT - h) as nat),
        path_consistent(nodes, h, i),
    ensures
        fold_proof(
            node_at(nodes, h, i),
            proof_path(i, (HEIGHT - h) as nat),
            proof_siblings(nodes, h, i, (HEIGHT - h) as nat),
        ) == node_at(nodes, HEIGHT as nat, 0),
{
    let len = (HEIGHT - h) as nat;
    lemma_fold_from(nodes, h, i, 0);
    assert(ancestor(i, 0) == i);
    assert(proof_path(i, len).skip(0) =~= proof_path(i, len));
    assert(proof_siblings(nodes, h, i, len).skip(0) =~= proof_siblings(nodes, h, i, len));
    lemma_ancestor_range(i, len, 0);
    assert(0 * pow2n(len) == 0 && (0 + 1) * pow2n(len) == pow2n(len)) by (nonlinear_arith);
}

/// Right after a hash is stored at a position, every ancestor of the position holds the
/// hash of its two children, and the position holds the hash.
pub proof fn lemma_inserted_path_consistent(
    nodes: Map<(nat, nat), nat>,
    h: nat,
    i: nat,
    value: nat,
)
    requires
        h <= HEIGHT,
    ensures
        path_consistent(update_path(nodes, h, i, value), h, i),
        node_at(update_path(nodes, h, i, value), h, i) == value,
{
    let after = update_path(nodes, h, i, value);
    assert forall|k: nat| 1 <= k && h + k <= HEIGHT implies consistent_at(
        after,
        h + k,
        #[trigger] ancestor(i, k),
    ) by {
        lemma_update_path_on(nodes, h, i, value, h + k);
    }
    lemma_update_path_on(nodes, h, i, value, h);
    assert(ancestor(i, 0) == i);
}

/// Leaves inserted later leave the path of a leaf consistent.
pub proof fn lemma_insert_leaves_keeps_path_consistent(
    nodes: Map<(nat, nat), nat>,
    start: nat,
    leaves: Seq<nat>,
    i: nat,
)
    requires
        path_consistent(nodes, 0, i),
    ensures
        path_consistent(insert_leaves(nodes, start, leaves), 0, i),
{
    let after = insert_leaves(nodes, start, leaves);
    assert forall|k: nat| 1 <= k && 0 + k <= HEIGHT implies consistent_at(
        after,
        0 + k,
        #[trigger] ancestor(i, k),
    ) by {
        assert(consistent_at(nodes, 0 + k, ancestor(i, k)));
        lemma_insert_leaves_keeps_consistent_at(nodes, start, leaves, k, ancestor(i, k));
    }
}

/// Without an overlay, a computed node is the stored node, provided that every inner node
/// with a leaf of the range below it holds the hash of its two children.
pub proof fn lemma_virtual_node_without_overlay(
    nodes: Map<(nat, nat), nat>,
    h: nat,
    i: nat,
    left: nat,
    right: nat,
)
    requires
        forall|h2: nat, i2: nat|
            1 <= h2 <= h && !outside_range(h2, i2, left, right) ==> #[trigger] consistent_at(
                nodes,
                h2,
                i2,
            ),
    ensures
        virtual_node(nodes, Map::<(nat, nat), nat>::empty(), h, i, left, right) == node_at(
            nodes,
            h,
            i,
        ),
    decreases h,
{
    if h > 0 && !outside_range(h, i, left, right) {
        assert(consistent_at(nodes, h, i));
        lemma_virtual_node_without_overlay(nodes, (h - 1) as nat, 2 * i, left, right);
        lemma_virtual_node_without_overlay(nodes, (h - 1) as nat, 2 * i + 1, left, right);
    }
}

/// A node computed over pending leaves, at least one, is the node that the tree holds once
/// the leaves are inserted.
pub proof fn lemma_virtual_node_is_inserted_node(
    nodes: Map<(nat, nat), nat>,
    start: nat,
    leaves: Seq<nat>,
    h: nat,
    i: nat,
)
    requires
        h <= HEIGHT,
        leaves.len() > 0,
    ensures
        virtual_node(nodes, leaf_overlay(start, leaves), h, i, start, start + leaves.len())
            == node_at(insert_leaves(nodes, start, leaves), h, i),
    decreases h,
{
    let overlay = leaf_overlay(start, leaves);
    let end = start + leaves.len();
    let after = insert_leaves(nodes, start, leaves);
    if h == 0 {
        lemma_insert_leaves_leaf(nodes, start, leaves, i);
    } else {
        assert(!overlay.contains_key((h, i)));
        let p = pow2n(h);
        lemma_pow2n_positive(h);
        if outside_range(h, i, start, end) {
            assert forall|j: nat| start <= j < end implies #[trigger] ancestor(j, h) != i by {
                lemma_ancestor_range(j, h, i);
            }
            lemma_insert_leaves_untouched(nodes, start, leaves, h, i);
        } else {
            assert((i + 1) * p == i * p + p) by (nonlinear_arith);
            let j: nat = if start >= i * p {
                start
            } else {
                i * p
            };
            lemma_ancestor_range(j, h, i);
            lemma_insert_leaves_path_consistent(nodes, start, leaves, j, h);
            lemma_virtual_node_is_inserted_node(nodes, start, leaves, (h - 1) as nat, 2 * i);
            lemma_virtual_node_is_inserted_node(nodes, start, leaves, (h - 1) as nat, 2 * i + 1);
        }
    }
}

/// The proof of inclusion computed for a leaf over pending leaves, at least one, is the
/// proof that the tree gives for it once the leaves are inserted.
pub proof fn lemma_virtual_proof_is_inserted_proof(
    nodes: Map<(nat, nat), nat>,
    start: nat,
    leaves: Seq<nat>,
    i: nat,
)
    requires
        leaves.len() > 0,
    ensures
        virtual_proof_siblings(
            nodes,
            leaf_overlay(start, leaves),
            i,
            start,
            start + leaves.len(),
        ) == proof_siblings(insert_leaves(nodes, start, leaves), 0, i, HEIGHT as nat),
{
    let before = virtual_proof_siblings(
        nodes,
        leaf_overlay(start, leaves),
        i,
        start,
        start + leaves.len(),
    );
    let after = proof_siblings(insert_leaves(nodes, start, leaves), 0, i, HEIGHT as nat);
    assert forall|k: int| 0 <= k < HEIGHT implies before[k] == after[k] by {
        lemma_virtual_node_is_inserted_node(
            nodes,
            start,
            leaves,
            k as nat,
            sibling(ancestor(i, k as nat)),
        );
    }
    assert(before =~= after);
}

} // verus!
