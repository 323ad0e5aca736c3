//! Insertion below a node: the key goes into a leaf, and a node that the
//! insertion has filled is split by its parent.

use crate::order::{
    in_gap, lemma_gap_excludes, lemma_insert_in_gap, lemma_slot_found, lemma_slot_in_range,
    lemma_strict_total_order, lt, rank, slot, Key, Rank,
};
use crate::trees::node::{InternalNode, LeafNode, Node, BTREE_MAX_KEYS};
use crate::trees::split::split_node;
use vstd::prelude::*;

verus! {

/// What an insertion below a node has done.
pub struct InsertState {
    /// The key was not stored before and is stored now.
    pub success: bool,
    /// The node has reached `BTREE_MAX_KEYS` keys: its owner has to split it.
    pub must_split: bool,
}

/// Puts `key` into the leaf, at its place among the keys, unless the leaf
/// stores it already.
pub fn insert_at_leaf_node<T: Key>(leaf: &mut LeafNode<T>, key: T) -> (state: InsertState)
    requires
        old(leaf).wf(),
        old(leaf).keys().len() < BTREE_MAX_KEYS,
    ensures
        final(leaf).wf(),
        state.success == !old(leaf).holds(key),
        state.success ==> final(leaf).keys() == old(leaf).keys().insert(
            slot(old(leaf).keys(), key),
            key,
        ),
        !state.success ==> final(leaf).keys() == old(leaf).keys(),
        state.success == old(leaf).gains(key),
        state.must_split == old(leaf).fills(key),
        state.must_split == (final(leaf).keys().len() >= BTREE_MAX_KEYS),
        forall|k: T| final(leaf).holds(k) <==> old(leaf).holds(k) || k == key,
{
    proof {
        lemma_strict_total_order::<T>();
    }
    let mut i: usize = 0;
    while i < leaf.num_keys
        invariant
            *leaf == *old(leaf),
            leaf.wf(),
            leaf.keys().len() < BTREE_MAX_KEYS,
            i <= leaf.num_keys,
            forall|j: int| 0 <= j < i ==> lt(#[trigger] leaf.keys()[j], key),
        decreases leaf.num_keys - i,
    {
        match rank(&key, &leaf.keys[i]) {
            Rank::Before => {
                proof {
                    lemma_slot_found(leaf.keys(), key, i as int);
                    lemma_gap_excludes(leaf.keys(), i as int, key);
                    lemma_insert_in_gap(leaf.keys(), i as int, key);
                }
                leaf.keys.insert(i, key);
                leaf.num_keys += 1;
                return InsertState { success: true, must_split: leaf.num_keys >= BTREE_MAX_KEYS };
            },
            Rank::Same => {
                assert(leaf.keys()[i as int] == key);
                return InsertState { success: false, must_split: false };
            },
            Rank::After => {},
        }
        i += 1;
    }
    proof {
        lemma_slot_found(leaf.keys(), key, i as int);
        lemma_gap_excludes(leaf.keys(), i as int, key);
        lemma_insert_in_gap(leaf.keys(), i as int, key);
    }
    leaf.keys.insert(leaf.num_keys, key);
    leaf.num_keys += 1;
    return InsertState { success: true, must_split: leaf.num_keys >= BTREE_MAX_KEYS };
}

impl<T: Key> InternalNode<T> {
    /// Child `i` has taken in a key from its own gap and is still below
    /// `BTREE_MAX_KEYS`: the node is well formed as before, and stores that
    /// key besides what it stored.
    pub proof fn lemma_child_grown(self, post: InternalNode<T>, i: int, key: T)
        requires
            self.wf(),
            in_gap(self.keys(), i, key),
            post.keys() == self.keys(),
            post.count() == self.count(),
            post.children() == self.children().update(i, post.children()[i]),
            post.children()[i].wf(),
            post.children()[i].keys().len() < BTREE_MAX_KEYS,
            post.children()[i].height() == self.children()[i].height(),
            forall|k: T| post.children()[i].holds(k) <==> self.children()[i].holds(k) || k == key,
        ensures
            post.wf(),
            post.height() == self.height(),
            forall|k: T| post.holds(k) <==> self.holds(k) || k == key,
    {
        assert(post.children().len() == self.children().len());
        assert(post.children()[0].height() == self.children()[0].height());
        assert forall|j: int| 0 <= j < post.children().len() implies {
            &&& (#[trigger] post.children()[j]).wf()
            &&& post.children()[j].keys().len() < BTREE_MAX_KEYS
            &&& post.children()[j].height() + 1 == post.height()
            &&& post.fenced(j)
        } by {
            assert(self.fenced(j));
            if j != i {
                assert(post.children()[j] == self.children()[j]);
            }
        }
        assert forall|k: T| post.holds(k) <==> self.holds(k) || k == key by {
            if post.holds(k) && !post.keys().contains(k) {
                let j = choose|j: int|
                    0 <= j < post.children().len() && (#[trigger] post.children()[j]).holds(k);
                if j != i {
                    assert(self.children()[j].holds(k));
                } else if k != key {
                    assert(self.children()[i].holds(k));
                }
            }
            if self.holds(k) && !self.keys().contains(k) {
                let j = choose|j: int|
                    0 <= j < self.children().len() && (#[trigger] self.children()[j]).holds(k);
                assert(post.children()[j].holds(k));
            }
            if k == key {
                assert(post.children()[i].holds(k));
            }
        }
    }

    /// Child `i` has taken in a key from its own gap and has been split, and
    /// the node has taken the median as key `i` and the right half as child
    /// `i + 1`: the node is well formed as before.
    pub proof fn lemma_child_split(
        self,
        post: InternalNode<T>,
        i: int,
        key: T,
        grown: Node<T>,
        median: T,
    )
        requires
            self.wf(),
            self.keys().len() < BTREE_MAX_KEYS,
            in_gap(self.keys(), i, key),
            grown.wf(),
            grown.height() == self.children()[i].height(),
            forall|k: T| grown.holds(k) <==> self.children()[i].holds(k) || k == key,
            post.keys() == self.keys().insert(i, median),
            post.count() == post.keys().len(),
            post.children().len() == self.children().len() + 1,
            post.children() == self.children().update(i, post.children()[i]).insert(
                i + 1,
                post.children()[i + 1],
            ),
            grown.splits_into(post.children()[i], median, post.children()[i + 1]),
        ensures
            post.wf(),
            post.height() == self.height(),
    {
        let left = post.children()[i];
        let right = post.children()[i + 1];
        let keys = self.keys();
        let kids = self.children();
        grown.lemma_split_partitions(left, median, right);
        assert(self.fenced(i));
        assert(grown.holds(median));
        assert(in_gap(keys, i, median));
        lemma_insert_in_gap(keys, i, median);
        assert(post.children()[0].height() == kids[0].height());
        assert forall|j: int| 0 <= j < post.children().len() implies {
            &&& (#[trigger] post.children()[j]).wf()
            &&& post.children()[j].keys().len() < BTREE_MAX_KEYS
            &&& post.children()[j].height() + 1 == post.height()
            &&& post.fenced(j)
        } by {
            if j < i {
                assert(post.children()[j] == kids[j]);
                assert(self.fenced(j));
            } else if j > i + 1 {
                assert(post.children()[j] == kids[j - 1]);
                assert(self.fenced(j - 1));
            } else {
                assert forall|k: T| #[trigger]
                    post.children()[j].holds(k) implies in_gap(post.keys(), j, k) by {
                    assert(grown.holds(k));
                    assert(in_gap(keys, i, k));
                }
            }
        }
    }

    /// Child `i` has taken in a key from its own gap and has been split, and
    /// the node has taken the median as key `i` and the right half as child
    /// `i + 1`: the node stores that key besides what it stored.
    pub proof fn lemma_child_split_holds(
        self,
        post: InternalNode<T>,
        i: int,
        key: T,
        grown: Node<T>,
        median: T,
    )
        requires
            self.wf(),
            in_gap(self.keys(), i, key),
            grown.wf(),
            forall|k: T| grown.holds(k) <==> self.children()[i].holds(k) || k == key,
            post.keys() == self.keys().insert(i, median),
            post.children().len() == self.children().len() + 1,
            post.children() == self.children().update(i, post.children()[i]).insert(
                i + 1,
                post.children()[i + 1],
            ),
            grown.splits_into(post.children()[i], median, post.children()[i + 1]),
        ensures
            forall|k: T| post.holds(k) <==> self.holds(k) || k == key,
    {
        let left = post.children()[i];
        let right = post.children()[i + 1];
        let keys = self.keys();
        let kids = self.children();
        grown.lemma_split_partitions(left, median, right);
        assert(post.keys()[i] == median);
        assert forall|k: T| post.holds(k) implies self.holds(k) || k == key by {
            if post.keys().contains(k) {
                let a = choose|a: int| 0 <= a < post.keys().len() && post.keys()[a] == k;
                if a < i {
                    assert(keys[a] == k);
                } else if a > i {
                    assert(keys[a - 1] == k);
                } else {
                    assert(grown.holds(k));
                    if k != key {
                        self.lemma_holds_below(i, k);
                    }
                }
            } else {
                let j = post.lemma_holds_where(k);
                if j < i {
                    assert(post.children()[j] == kids[j]);
                    self.lemma_holds_below(j, k);
                } else if j > i + 1 {
                    assert(post.children()[j] == kids[j - 1]);
                    self.lemma_holds_below(j - 1, k);
                } else {
                    assert(grown.holds(k));
                    if k != key {
                        self.lemma_holds_below(i, k);
                    }
                }
            }
        }
        assert forall|k: T| self.holds(k) || k == key implies post.holds(k) by {
            if self.keys().contains(k) {
                let a = choose|a: int| 0 <= a < keys.len() && keys[a] == k;
                if a < i {
                    assert(post.keys()[a] == k);
                } else {
                    assert(post.keys()[a + 1] == k);
                }
            } else {
                let j = if k == key {
                    i
                } else {
                    self.lemma_holds_where(k)
                };
                if j < i {
                    assert(post.children()[j] == kids[j]);
                    post.lemma_holds_below(j, k);
                } else if j > i {
                    assert(post.children()[j + 1] == kids[j]);
                    post.lemma_holds_below(j + 1, k);
                } else {
                    assert(grown.holds(k));
                    if left.holds(k) {
                        post.lemma_holds_below(i, k);
                    } else if right.holds(k) {
                        post.lemma_holds_below(i + 1, k);
                    }
                }
            }
        }
    }
}

/// Puts `key` into the leaf below the node in which it belongs, unless the
/// node or one below it stores the key already. A child that the insertion
/// fills is split at once: its median becomes a key of the node, and its
/// right half the child after it.
pub fn insert_at_internal_node<T: Key>(internal: &mut InternalNode<T>, key: T) -> (state:
    InsertState)
    requires
        old(internal).wf(),
        old(internal).keys().len() < BTREE_MAX_KEYS,
    ensures
        final(internal).wf(),
        final(internal).height() == old(internal).height(),
        state.success == !old(internal).holds(key),
        forall|k: T| final(internal).holds(k) <==> old(internal).holds(k) || k == key,
        ({
            let i = slot(old(internal).keys(), key);
            let kids = final(internal).children();
            &&& 0 <= i < old(internal).children().len()
            &&& if old(internal).gains(key) {
                &&& final(internal).keys() == old(internal).keys().insert(
                    i,
                    final(internal).keys()[i],
                )
                &&& kids == old(internal).children().update(i, kids[i]).insert(i + 1, kids[i + 1])
            } else {
                &&& final(internal).keys() == old(internal).keys()
                &&& kids == old(internal).children().update(i, kids[i])
            }
        }),
        state.must_split == old(internal).fills(key),
        state.must_split == (final(internal).keys().len() >= BTREE_MAX_KEYS),
    decreases *old(internal), 0nat,
{
    let ghost pre = *internal;
    let ghost k0 = key;
    let mut i: usize = 0;
    while i < internal.num_keys
        invariant_except_break
            forall|j: int| 0 <= j < i ==> lt(#[trigger] internal.keys()[j], key),
        invariant
            *internal == pre,
            internal.wf(),
            internal.keys().len() < BTREE_MAX_KEYS,
            i <= internal.num_keys,
        ensures
            in_gap(internal.keys(), i as int, key),
        decreases internal.num_keys - i,
    {
        match rank(&key, &internal.keys[i]) {
            Rank::Before => {
                break;
            },
            Rank::Same => {
                proof {
                    lemma_strict_total_order::<T>();
                    lemma_slot_found(pre.keys(), key, i as int);
                    assert(internal.keys()[i as int] == key);
                    assert(internal.children() =~= pre.children().update(
                        i as int,
                        internal.children()[i as int],
                    ));
                }
                return InsertState { success: false, must_split: false };
            },
            Rank::After => {},
        }
        i += 1;
    }
    proof {
        pre.lemma_descend(i as int, k0);
        lemma_strict_total_order::<T>();
        lemma_slot_found(pre.keys(), k0, i as int);
        lemma_gap_excludes(pre.keys(), i as int, k0);
    }

    let mut insert_state = insert_at_node(&mut *internal.children[i], key);
    let ghost grown = internal.children()[i as int];
    proof {
        assert(internal.children() =~= pre.children().update(i as int, grown));
    }

    if insert_state.must_split {
        let split_result = split_node(&mut *internal.children[i]);
        let ghost left = internal.children()[i as int];
        let ghost median = split_result.median_key;
        let ghost right = split_result.right;

        internal.keys.insert(i, split_result.median_key);
        internal.children.insert(i + 1, Box::new(split_result.right));
        internal.num_keys += 1;

        insert_state.must_split = internal.num_keys >= BTREE_MAX_KEYS;
        proof {
            assert(internal.children() =~= pre.children().update(i as int, left).insert(
                i + 1,
                right,
            ));
            pre.lemma_child_split(*internal, i as int, k0, grown, median);
            pre.lemma_child_split_holds(*internal, i as int, k0, grown, median);
            assert(internal.keys()[i as int] == median);
            assert(internal.children()[i as int] == left);
            assert(internal.children()[i as int + 1] == right);
        }
    } else {
        proof {
            pre.lemma_child_grown(*internal, i as int, k0);
        }
    }

    insert_state
}

/// Puts `key` into the leaf at or below the node in which it belongs, unless
/// the node or one below it stores the key already.
pub fn insert_at_node<T: Key>(node: &mut Node<T>, key: T) -> (state: InsertState)
    requires
        old(node).wf(),
        old(node).keys().len() < BTREE_MAX_KEYS,
    ensures
        final(node).wf(),
        final(node).is_leaf() == old(node).is_leaf(),
        final(node).height() == old(node).height(),
        state.success == !old(node).holds(key),
        forall|k: T| final(node).holds(k) <==> old(node).holds(k) || k == key,
        final(node).keys().len() == old(node).keys().len() + if old(node).gains(key) {
            1nat
        } else {
            0nat
        },
        ({
            let i = slot(old(node).keys(), key);
            let kids = final(node).children();
            &&& 0 <= i <= old(node).keys().len()
            &&& if old(node).gains(key) {
                &&& final(node).keys() == old(node).keys().insert(i, final(node).keys()[i])
                &&& old(node).is_leaf() ==> final(node).keys()[i] == key
                &&& !old(node).is_leaf() ==> kids == old(node).children().update(i, kids[i]).insert(
                    i + 1,
                    kids[i + 1],
                )
            } else {
                &&& final(node).keys() == old(node).keys()
                &&& !old(node).is_leaf() ==> kids == old(node).children().update(i, kids[i])
            }
        }),
        state.must_split == old(node).fills(key),
        state.must_split == (final(node).keys().len() >= BTREE_MAX_KEYS),
    decreases *old(node), 1nat,
{
    let state = match node {
        Node::Internal(internal) => insert_at_internal_node(internal, key),
        Node::Leaf(leaf) => insert_at_leaf_node(leaf, key),
    };
    let ghost pre = *old(node);
    let ghost post = *node;
    proof {
        match (pre, post) {
            (Node::Internal(a), Node::Internal(b)) => {
                assert(pre.gains(key) == a.gains(key));
                assert forall|k: T| post.holds(k) <==> pre.holds(k) || k == key by {
                    assert(post.holds(k) == b.holds(k));
                    assert(pre.holds(k) == a.holds(k));
                }
            },
            (Node::Leaf(a), Node::Leaf(b)) => {
                lemma_slot_in_range(a.keys(), key);
            },
            _ => {},
        }
    }
    state
}

} // verus!
