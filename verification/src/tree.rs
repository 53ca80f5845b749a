//! A ghost model of a hashed binary tree, and the law that a proof read
//! off such a tree by an honest walk always validates.
//!
//! Building trees and producing proofs are a producer's job, not this
//! library's; the model exists so that the producer's contract — leaf hash
//! first, the exact sibling hashes in leaf-to-root order, the tree's root
//! last, one direction bit per level — can be stated and the validation
//! algorithm proved complete for it.

use vstd::prelude::*;

use crate::hash::HashCombiner;
use crate::inclusion::{derived_hash, lemma_derived_hash_congruence, spec_valid};

verus! {

/// A binary hash tree, as a mathematical model: every node carries its
/// hash, and a leaf's hash stands for one data element.
pub enum SpecTree<T> {
    Leaf { hash: T },
    Node { hash: T, left: Box<SpecTree<T>>, right: Box<SpecTree<T>> },
}

/// The hash at a tree's top node.
pub open spec fn tree_root<T>(t: SpecTree<T>) -> T {
    match t {
        SpecTree::Leaf { hash } => hash,
        SpecTree::Node { hash, .. } => hash,
    }
}

/// Whether every inner node's hash combines its children's hashes, in
/// left/right order, under the combiner `A`.
pub open spec fn well_hashed<T, A: HashCombiner<T>>(t: SpecTree<T>) -> bool
    decreases t,
{
    match t {
        SpecTree::Leaf { .. } => true,
        SpecTree::Node { hash, left, right } => {
            &&& hash == A::combined(tree_root(*left), tree_root(*right))
            &&& well_hashed::<T, A>(*left)
            &&& well_hashed::<T, A>(*right)
        },
    }
}

/// Whether descending by `dirs` (`true` picks the left child), starting at
/// the root, ends exactly at a leaf.
pub open spec fn on_path<T>(t: SpecTree<T>, dirs: Seq<bool>) -> bool
    decreases t,
{
    if dirs.len() == 0 {
        t is Leaf
    } else {
        match t {
            SpecTree::Leaf { .. } => false,
            SpecTree::Node { left, right, .. } => {
                if dirs[0] {
                    on_path(*left, dirs.drop_first())
                } else {
                    on_path(*right, dirs.drop_first())
                }
            },
        }
    }
}

/// The hash of the node the descent ends at.
pub open spec fn leaf_at<T>(t: SpecTree<T>, dirs: Seq<bool>) -> T
    decreases t,
{
    if dirs.len() == 0 {
        tree_root(t)
    } else {
        match t {
            SpecTree::Leaf { hash } => hash,
            SpecTree::Node { left, right, .. } => {
                if dirs[0] {
                    leaf_at(*left, dirs.drop_first())
                } else {
                    leaf_at(*right, dirs.drop_first())
                }
            },
        }
    }
}

/// The sibling hashes met on the way down, reordered leaf to root.
pub open spec fn walk_siblings<T>(t: SpecTree<T>, dirs: Seq<bool>) -> Seq<T>
    decreases t,
{
    if dirs.len() == 0 {
        Seq::empty()
    } else {
        match t {
            SpecTree::Leaf { .. } => Seq::empty(),
            SpecTree::Node { left, right, .. } => {
                if dirs[0] {
                    walk_siblings(*left, dirs.drop_first()).push(tree_root(*right))
                } else {
                    walk_siblings(*right, dirs.drop_first()).push(tree_root(*left))
                }
            },
        }
    }
}

/// The direction bits of the walk, ordered leaf to root: a bit is set
/// exactly where the walk descended left, which makes the running hash the
/// left operand at that level.
pub open spec fn walk_path<T>(t: SpecTree<T>, dirs: Seq<bool>) -> Seq<bool>
    decreases t,
{
    if dirs.len() == 0 {
        Seq::empty()
    } else {
        match t {
            SpecTree::Leaf { .. } => Seq::empty(),
            SpecTree::Node { left, right, .. } => {
                if dirs[0] {
                    walk_path(*left, dirs.drop_first()).push(true)
                } else {
                    walk_path(*right, dirs.drop_first()).push(false)
                }
            },
        }
    }
}

/// The full lemma the walk produces: leaf hash, siblings, root hash.
pub open spec fn walk_lemma<T>(t: SpecTree<T>, dirs: Seq<bool>) -> Seq<T> {
    seq![leaf_at(t, dirs)] + walk_siblings(t, dirs) + seq![tree_root(t)]
}

/// An honest walk yields one sibling and one direction bit per level.
pub proof fn lemma_walk_lengths<T>(t: SpecTree<T>, dirs: Seq<bool>)
    requires
        on_path(t, dirs),
    ensures
        walk_siblings(t, dirs).len() == dirs.len(),
        walk_path(t, dirs).len() == dirs.len(),
    decreases t,
{
    if dirs.len() > 0 {
        match t {
            SpecTree::Leaf { .. } => {},
            SpecTree::Node { left, right, .. } => {
                if dirs[0] {
                    lemma_walk_lengths(*left, dirs.drop_first());
                } else {
                    lemma_walk_lengths(*right, dirs.drop_first());
                }
            },
        }
    }
}

/// Folding the walked siblings into the walked leaf, directed by the
/// walked bits, re-derives the tree's root.
pub proof fn lemma_walk_derives_root<T, A: HashCombiner<T>>(t: SpecTree<T>, dirs: Seq<bool>)
    requires
        well_hashed::<T, A>(t),
        on_path(t, dirs),
    ensures
        derived_hash::<T, A>(walk_lemma(t, dirs), walk_path(t, dirs), dirs.len() as int)
            == tree_root(t),
    decreases t,
{
    let wl = walk_lemma(t, dirs);
    let wp = walk_path(t, dirs);
    lemma_walk_lengths(t, dirs);
    if dirs.len() == 0 {
        assert(wl[0] == leaf_at(t, dirs));
    } else {
        match t {
            SpecTree::Leaf { .. } => {},
            SpecTree::Node { hash, left, right } => {
                let d2 = dirs.drop_first();
                let sub = if dirs[0] {
                    *left
                } else {
                    *right
                };
                let sib = if dirs[0] {
                    tree_root(*right)
                } else {
                    tree_root(*left)
                };
                let k = dirs.len() as int;
                lemma_walk_derives_root::<T, A>(sub, d2);
                lemma_walk_lengths(sub, d2);
                let wls = walk_lemma(sub, d2);
                let wps = walk_path(sub, d2);
                assert(leaf_at(t, dirs) == leaf_at(sub, d2));
                assert(walk_siblings(t, dirs) == walk_siblings(sub, d2).push(sib));
                assert(wp == wps.push(dirs[0]));
                assert forall|j: int| 0 <= j <= k - 1 implies wl[j] == wls[j] by {
                    if j == 0 {
                        assert(wl[0] == leaf_at(t, dirs));
                        assert(wls[0] == leaf_at(sub, d2));
                    } else {
                        assert(wl[j] == walk_siblings(t, dirs)[j - 1]);
                        assert(wls[j] == walk_siblings(sub, d2)[j - 1]);
                        assert(walk_siblings(t, dirs)[j - 1] == walk_siblings(sub, d2)[j - 1]);
                    }
                }
                assert forall|j: int| 0 <= j < k - 1 implies wp[j] == wps[j] by {
                    assert(wps.push(dirs[0])[j] == wps[j]);
                }
                lemma_derived_hash_congruence::<T, A>(wl, wp, wls, wps, k - 1);
                assert(derived_hash::<T, A>(wl, wp, k - 1) == tree_root(sub));
                assert(wp[k - 1] == dirs[0]);
                assert(wl[k] == walk_siblings(t, dirs)[k - 1]);
                assert(wl[k] == sib);
                if dirs[0] {
                    assert(derived_hash::<T, A>(wl, wp, k) == A::combined(
                        derived_hash::<T, A>(wl, wp, k - 1),
                        wl[k],
                    ));
                    assert(hash == A::combined(tree_root(sub), sib));
                } else {
                    assert(derived_hash::<T, A>(wl, wp, k) == A::combined(
                        wl[k],
                        derived_hash::<T, A>(wl, wp, k - 1),
                    ));
                    assert(hash == A::combined(sib, tree_root(sub)));
                }
            },
        }
    }
}

/// A proof read off a well-hashed tree by an honest walk — leaf hash
/// first, the exact sibling hashes in leaf-to-root order, the tree's root
/// last, with a direction bit recording each descent — always validates.
pub proof fn lemma_tree_walk_validates<T, A: HashCombiner<T>>(t: SpecTree<T>, dirs: Seq<bool>)
    requires
        well_hashed::<T, A>(t),
        on_path(t, dirs),
    ensures
        spec_valid::<T, A>(walk_lemma(t, dirs), walk_path(t, dirs)),
{
    lemma_walk_lengths(t, dirs);
    lemma_walk_derives_root::<T, A>(t, dirs);
    let wl = walk_lemma(t, dirs);
    assert(wl.len() == dirs.len() + 2);
    assert(wl[wl.len() - 1] == tree_root(t));
}

} // verus!
