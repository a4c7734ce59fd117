//! The commitment tree as mathematics: a map from positions to hash values, the effect of
//! an insertion on it, proofs of inclusion, and nodes computed over an overlay of pending
//! hashes. A position is a pair of height and index; a hash is the value of a field
//! element.

use crate::crypto::spec_compress;
use vstd::prelude::*;

verus! {

/// The height of the root. Leaves are at height 0.
pub const HEIGHT: u32 = 48;

/// 2 to the power `k`.
pub open spec fn pow2n(k: nat) -> nat
    decreases k,
{
    if k == 0 {
        1
    } else {
        2 * pow2n((k - 1) as nat)
    }
}

/// The hash of a subtree of height `h` in which nothing was ever inserted.
pub open spec fn default_hash(h: nat) -> nat
    decreases h,
{
    if h == 0 {
        0
    } else {
        spec_compress(default_hash((h - 1) as nat), default_hash((h - 1) as nat))
    }
}

/// The hash at a position: what is stored there, or the hash of an empty subtree.
pub open spec fn node_at(nodes: Map<(nat, nat), nat>, h: nat, i: nat) -> nat {
    if nodes.contains_key((h, i)) {
        nodes[(h, i)]
    } else {
        default_hash(h)
    }
}

/// One past the highest leaf below `(h, i)`.
pub open spec fn leaves_end(h: nat, i: nat) -> nat {
    (i + 1) * pow2n(h)
}

/// The larger of two numbers.
pub open spec fn larger(a: nat, b: nat) -> nat {
    if a >= b {
        a
    } else {
        b
    }
}

/// The index of the other child of a node's parent.
pub open spec fn sibling(i: nat) -> nat {
    if i % 2 == 0 {
        i + 1
    } else {
        (i - 1) as nat
    }
}

/// The index of the ancestor of node `i`, `k` levels up.
pub open spec fn ancestor(i: nat, k: nat) -> nat
    decreases k,
{
    if k == 0 {
        i
    } else {
        ancestor(i, (k - 1) as nat) / 2
    }
}

/// The hash of the parent of node `(h, i)`, were that node to hold `value`.
pub open spec fn parent_hash(nodes: Map<(nat, nat), nat>, h: nat, i: nat, value: nat) -> nat {
    if i % 2 == 0 {
        spec_compress(value, node_at(nodes, h, i + 1))
    } else {
        spec_compress(node_at(nodes, h, (i - 1) as nat), value)
    }
}

/// The tree after `value` is stored at `(h, i)` and every ancestor up to the root is
/// computed anew from its two children.
pub open spec fn update_path(nodes: Map<(nat, nat), nat>, h: nat, i: nat, value: nat) -> Map<
    (nat, nat),
    nat,
>
    decreases HEIGHT - h,
{
    let stored = nodes.insert((h, i), value);
    if h >= HEIGHT {
        stored
    } else {
        update_path(stored, h + 1, i / 2, parent_hash(nodes, h, i, value))
    }
}

/// Whether `(h2, i2)` is node `(h, i)` or one of its ancestors.
pub open spec fn on_path(h: nat, i: nat, h2: nat, i2: nat) -> bool {
    h <= h2 <= HEIGHT && i2 == ancestor(i, (h2 - h) as nat)
}

/// Whether the hash at `(h, i)` is the hash of its two children.
pub open spec fn consistent_at(nodes: Map<(nat, nat), nat>, h: nat, i: nat) -> bool {
    h >= 1 && node_at(nodes, h, i) == spec_compress(
        node_at(nodes, (h - 1) as nat, 2 * i),
        node_at(nodes, (h - 1) as nat, 2 * i + 1),
    )
}

/// Whether every inner node of the tree holds the hash of its two children.
pub open spec fn consistent(nodes: Map<(nat, nat), nat>) -> bool {
    forall|h: nat, i: nat| 1 <= h <= HEIGHT ==> #[trigger] consistent_at(nodes, h, i)
}

/// The tree after the hashes of `leaves` are inserted one by one at `start`, `start + 1`
/// and so on.
pub open spec fn insert_leaves(nodes: Map<(nat, nat), nat>, start: nat, leaves: Seq<nat>) -> Map<
    (nat, nat),
    nat,
>
    decreases leaves.len(),
{
    if leaves.len() == 0 {
        nodes
    } else {
        insert_leaves(update_path(nodes, 0, start, leaves[0]), start + 1, leaves.drop_first())
    }
}

/// The hash of the subtree at `(h, i)` of the tree whose leaves are `leaves`, built from
/// the leaves alone.
pub open spec fn subtree_hash(leaves: Seq<nat>, h: nat, i: nat) -> nat
    decreases h,
{
    if h == 0 {
        if i < leaves.len() {
            leaves[i as int]
        } else {
            default_hash(0)
        }
    } else {
        spec_compress(
            subtree_hash(leaves, (h - 1) as nat, 2 * i),
            subtree_hash(leaves, (h - 1) as nat, 2 * i + 1),
        )
    }
}

/// The siblings along the path from `(h, i)` upwards, `len` of them.
pub open spec fn proof_siblings(nodes: Map<(nat, nat), nat>, h: nat, i: nat, len: nat) -> Seq<
    nat,
> {
    Seq::new(len, |k: int| node_at(nodes, h + k as nat, sibling(ancestor(i, k as nat))))
}

/// For each node along the path from index `i` upwards, whether it is a right child.
pub open spec fn proof_path(i: nat, len: nat) -> Seq<bool> {
    Seq::new(len, |k: int| ancestor(i, k as nat) % 2 == 1)
}

/// The hash that a proof leads to: `leaf` combined with each sibling in turn, on the side
/// that `path` gives.
pub open spec fn fold_proof(leaf: nat, path: Seq<bool>, siblings: Seq<nat>) -> nat
    decreases siblings.len(),
{
    if siblings.len() == 0 || path.len() == 0 {
        leaf
    } else {
        let next = if path[0] {
            spec_compress(siblings[0], leaf)
        } else {
            spec_compress(leaf, siblings[0])
        };
        fold_proof(next, path.drop_first(), siblings.drop_first())
    }
}

/// Whether the leaves below `(h, i)` all lie outside `left .. right`.
pub open spec fn outside_range(h: nat, i: nat, left: nat, right: nat) -> bool {
    (i + 1) * pow2n(h) <= left || right <= i * pow2n(h)
}

/// The hash at `(h, i)` when the hashes of `overlay` are laid over the stored tree for the
/// leaves `left .. right`: an overlay entry wins; a leaf, or a node with no leaf in the
/// range below it, is read from the tree; any other node is the hash of its two children.
pub open spec fn virtual_node(
    nodes: Map<(nat, nat), nat>,
    overlay: Map<(nat, nat), nat>,
    h: nat,
    i: nat,
    left: nat,
    right: nat,
) -> nat
    decreases h,
{
    if overlay.contains_key((h, i)) {
        overlay[(h, i)]
    } else if h == 0 || outside_range(h, i, left, right) {
        node_at(nodes, h, i)
    } else {
        spec_compress(
            virtual_node(nodes, overlay, (h - 1) as nat, 2 * i, left, right),
            virtual_node(nodes, overlay, (h - 1) as nat, 2 * i + 1, left, right),
        )
    }
}

/// The overlay that holds `leaves` as the leaves `start`, `start + 1` and so on.
pub open spec fn leaf_overlay(start: nat, leaves: Seq<nat>) -> Map<(nat, nat), nat> {
    Map::new(
        |k: (nat, nat)| k.0 == 0 && start <= k.1 < start + leaves.len(),
        |k: (nat, nat)| leaves[k.1 - start],
    )
}

/// The siblings along the path from leaf `i` to the root, each computed over the overlay.
pub open spec fn virtual_proof_siblings(
    nodes: Map<(nat, nat), nat>,
    overlay: Map<(nat, nat), nat>,
    i: nat,
    left: nat,
    right: nat,
) -> Seq<nat> {
    Seq::new(
        HEIGHT as nat,
        |k: int| virtual_node(nodes, overlay, k as nat, sibling(ancestor(i, k as nat)), left, right),
    )
}

pub proof fn lemma_pow2n_positive(k: nat)
    ensures
        pow2n(k) > 0,
    decreases k,
{
    if k > 0 {
        lemma_pow2n_positive((k - 1) as nat);
    }
}

pub proof fn lemma_pow2n_monotonic(a: nat, b: nat)
    requires
        a <= b,
    ensures
        pow2n(a) <= pow2n(b),
    decreases b,
{
    if a < b {
        lemma_pow2n_monotonic(a, (b - 1) as nat);
    }
}

pub proof fn lemma_pow2n_add(a: nat, b: nat)
    ensures
        pow2n(a + b) == pow2n(a) * pow2n(b),
    decreases a,
{
    if a == 0 {
        assert(pow2n(a + b) == 1 * pow2n(b));
    } else {
        lemma_pow2n_add((a - 1) as nat, b);
        let x = pow2n((a - 1) as nat);
        let y = pow2n(b);
        assert(pow2n(a + b) == 2 * pow2n((a - 1 + b) as nat));
        assert(2 * (x * y) == (2 * x) * y) by (nonlinear_arith);
    }
}

/// 2 to the power 48 and 2 to the power 7.
pub proof fn lemma_pow2n_values()
    ensures
        pow2n(0) == 1,
        pow2n(7) == 128,
        pow2n(48) == 0x1_0000_0000_0000,
{
    reveal_with_fuel(pow2n, 49);
}

/// The ancestor `k` levels up is the ancestor `k - 1` levels up of the parent.
pub proof fn lemma_ancestor_of_parent(i: nat, k: nat)
    requires
        k >= 1,
    ensures
        ancestor(i, k) == ancestor(i / 2, (k - 1) as nat),
    decreases k,
{
    if k > 1 {
        lemma_ancestor_of_parent(i, (k - 1) as nat);
        assert(ancestor(i / 2, (k - 1) as nat) == ancestor(i / 2, (k - 2) as nat) / 2);
    } else {
        assert(ancestor(i, 0) == i);
        assert(ancestor(i / 2, 0) == i / 2);
    }
}

/// A node's ancestor `k` levels up is the one whose leaves, seen from the node's level,
/// include the node.
pub proof fn lemma_ancestor_range(j: nat, k: nat, i: nat)
    ensures
        ancestor(j, k) == i <==> i * pow2n(k) <= j < (i + 1) * pow2n(k),
    decreases k,
{
    if k == 0 {
        assert(i * 1 == i && (i + 1) * 1 == i + 1);
    } else {
        let p = pow2n((k - 1) as nat);
        let a = ancestor(j, (k - 1) as nat);
        lemma_ancestor_range(j, (k - 1) as nat, a);
        lemma_ancestor_range(j, (k - 1) as nat, 2 * i);
        lemma_ancestor_range(j, (k - 1) as nat, 2 * i + 1);
        lemma_pow2n_positive((k - 1) as nat);
        assert(i * (2 * p) == (2 * i) * p) by (nonlinear_arith);
        assert((i + 1) * (2 * p) == (2 * i + 1) * p + p) by (nonlinear_arith);
        assert((2 * i + 1) * p == (2 * i) * p + p) by (nonlinear_arith);
        assert((2 * i + 1 + 1) * p == (2 * i + 1) * p + p) by (nonlinear_arith);
        if ancestor(j, k) == i {
            assert(a == 2 * i || a == 2 * i + 1);
        } else {
            assert(a != 2 * i && a != 2 * i + 1);
            if i * (2 * p) <= j && j < (i + 1) * (2 * p) {
                // `j` lies in the range of `2 * i` or in that of `2 * i + 1`.
                assert(false);
            }
        }
    }
}

/// A position off the path of an insertion keeps what it held.
pub proof fn lemma_update_path_other(
    nodes: Map<(nat, nat), nat>,
    h: nat,
    i: nat,
    value: nat,
    h2: nat,
    i2: nat,
)
    requires
        h <= HEIGHT,
        !on_path(h, i, h2, i2),
    ensures
        update_path(nodes, h, i, value).contains_key((h2, i2)) == nodes.contains_key((h2, i2)),
        update_path(nodes, h, i, value)[(h2, i2)] == nodes[(h2, i2)],
        node_at(update_path(nodes, h, i, value), h2, i2) == node_at(nodes, h2, i2),
    decreases HEIGHT - h,
{
    let stored = nodes.insert((h, i), value);
    assert((h2, i2) != (h, i));
    if h < HEIGHT {
        if h2 >= h + 1 {
            lemma_ancestor_of_parent(i, (h2 - h) as nat);
        }
        lemma_update_path_other(stored, h + 1, i / 2, parent_hash(nodes, h, i, value), h2, i2);
    }
}

/// After an insertion, the position holds the new value, and each ancestor holds the hash
/// of its two children.
pub proof fn lemma_update_path_on(
    nodes: Map<(nat, nat), nat>,
    h: nat,
    i: nat,
    value: nat,
    h2: nat,
)
    requires
        h <= h2 <= HEIGHT,
    ensures
        update_path(nodes, h, i, value).contains_key((h2, ancestor(i, (h2 - h) as nat))),
        h2 == h ==> update_path(nodes, h, i, value)[(h, i)] == value,
        h2 > h ==> consistent_at(
            update_path(nodes, h, i, value),
            h2,
            ancestor(i, (h2 - h) as nat),
        ),
    decreases HEIGHT - h,
{
    let stored = nodes.insert((h, i), value);
    let up = parent_hash(nodes, h, i, value);
    let result = update_path(nodes, h, i, value);
    if h < HEIGHT {
        if h2 == h {
            lemma_update_path_other(stored, h + 1, i / 2, up, h, i);
        } else {
            lemma_ancestor_of_parent(i, (h2 - h) as nat);
            lemma_update_path_on(stored, h + 1, i / 2, up, h2);
            if h2 == h + 1 {
                let s = sibling(i);
                lemma_update_path_other(stored, h + 1, i / 2, up, h, i);
                lemma_update_path_other(stored, h + 1, i / 2, up, h, s);
                assert(node_at(result, h, i) == value);
                assert(node_at(result, h, s) == node_at(nodes, h, s));
                assert(ancestor(i, 1) == i / 2) by {
                    assert(ancestor(i, 0) == i);
                }
                if i % 2 == 0 {
                    assert(2 * (i / 2) == i && 2 * (i / 2) + 1 == s);
                } else {
                    assert(2 * (i / 2) == s && 2 * (i / 2) + 1 == i);
                }
            }
        }
    }
}

} // verus!
