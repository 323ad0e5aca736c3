//! Splitting a node: the keys before the median stay, the median goes up to
//! the parent, and the keys after it move to a new node on the right.

use crate::order::{lemma_strict_total_order, lt, Key};
use crate::trees::node::{
    InternalNode, LeafNode, Node, BTREE_MAX_KEYS, BTREE_MEDIAN_INDEX, BTREE_MIN_KEYS,
};
use vstd::prelude::*;

verus! {

/// What a split hands to the owner of the node that was split.
pub struct SplitResult<T: Key> {
    /// The key that stood at `BTREE_MEDIAN_INDEX`.
    pub median_key: T,
    /// The new node, which holds what stood after the median.
    pub right: Node<T>,
}

impl<T: Key> Node<T> {
    /// `left`, `median` and `right` are what a split at
    /// `BTREE_MEDIAN_INDEX` makes of this node: `left` has the keys before
    /// the median and the children up to the one that follows them, `right`
    /// has the keys and children after those, and both are of this node's
    /// kind.
    pub open spec fn splits_into(self, left: Node<T>, median: T, right: Node<T>) -> bool {
        &&& self.keys().len() > BTREE_MEDIAN_INDEX
        &&& left.is_leaf() == self.is_leaf()
        &&& right.is_leaf() == self.is_leaf()
        &&& left.keys() == self.keys().take(BTREE_MEDIAN_INDEX as int)
        &&& median == self.keys()[BTREE_MEDIAN_INDEX as int]
        &&& right.keys() == self.keys().skip(BTREE_MEDIAN_INDEX + 1)
        &&& !self.is_leaf() ==> {
            &&& left.children() == self.children().take(BTREE_MEDIAN_INDEX + 1)
            &&& right.children() == self.children().skip(BTREE_MEDIAN_INDEX + 1)
        }
        &&& left.wf()
        &&& right.wf()
    }
}

/// Splits a leaf at `BTREE_MEDIAN_INDEX`.
pub fn split_leaf_node<T: Key>(node: &mut LeafNode<T>) -> (res: SplitResult<T>)
    requires
        old(node).wf(),
        old(node).keys().len() > BTREE_MEDIAN_INDEX,
    ensures
        Node::Leaf(*old(node)).splits_into(Node::Leaf(*final(node)), res.median_key, res.right),
{
    let right_keys = node.keys.split_off(BTREE_MEDIAN_INDEX + 1);
    let median_key = node.keys.remove(BTREE_MEDIAN_INDEX);

    let right = LeafNode { num_keys: right_keys.len(), keys: right_keys };

    node.num_keys = node.keys.len();

    proof {
        assert(node.keys() =~= old(node).keys().take(BTREE_MEDIAN_INDEX as int));
        assert(right.keys() =~= old(node).keys().skip(BTREE_MEDIAN_INDEX + 1));
    }

    SplitResult { right: Node::Leaf(right), median_key }
}

/// Splits a node with children at `BTREE_MEDIAN_INDEX`.
pub fn split_internal_node<T: Key>(node: &mut InternalNode<T>) -> (res: SplitResult<T>)
    requires
        old(node).wf(),
        old(node).keys().len() > BTREE_MEDIAN_INDEX,
    ensures
        Node::Internal(*old(node)).splits_into(
            Node::Internal(*final(node)),
            res.median_key,
            res.right,
        ),
{
    let right_keys = node.keys.split_off(BTREE_MEDIAN_INDEX + 1);
    let right_children = node.children.split_off(BTREE_MEDIAN_INDEX + 1);

    let median_key = node.keys.remove(BTREE_MEDIAN_INDEX);

    let right = InternalNode {
        num_keys: right_keys.len(),
        keys: right_keys,
        children: right_children,
    };

    node.num_keys = node.keys.len();

    proof {
        let whole = *old(node);
        assert(node.keys() =~= whole.keys().take(BTREE_MEDIAN_INDEX as int));
        assert(right.keys() =~= whole.keys().skip(BTREE_MEDIAN_INDEX + 1));
        assert(node.children() =~= whole.children().take(BTREE_MEDIAN_INDEX + 1));
        assert(right.children() =~= whole.children().skip(BTREE_MEDIAN_INDEX + 1));
        whole.lemma_halves_wf(*node, right);
    }

    SplitResult { right: Node::Internal(right), median_key }
}

impl<T: Key> InternalNode<T> {
    /// The two halves of a well-formed node are well formed, and stand as
    /// high as the node did.
    pub proof fn lemma_halves_wf(self, left: InternalNode<T>, right: InternalNode<T>)
        requires
            self.wf(),
            self.keys().len() > BTREE_MEDIAN_INDEX,
            left.keys() == self.keys().take(BTREE_MEDIAN_INDEX as int),
            right.keys() == self.keys().skip(BTREE_MEDIAN_INDEX + 1),
            left.children() == self.children().take(BTREE_MEDIAN_INDEX + 1),
            right.children() == self.children().skip(BTREE_MEDIAN_INDEX + 1),
            left.count() == left.keys().len(),
            right.count() == right.keys().len(),
        ensures
            left.wf(),
            right.wf(),
            left.height() == self.height(),
            right.height() == self.height(),
    {
        let m = BTREE_MEDIAN_INDEX as int;
        assert(left.children()[0] == self.children()[0]);
        assert(right.children()[0] == self.children()[m + 1]);
        assert forall|i: int| 0 <= i < left.children().len() implies {
            &&& (#[trigger] left.children()[i]).wf()
            &&& left.children()[i].keys().len() < BTREE_MAX_KEYS
            &&& left.children()[i].height() + 1 == left.height()
            &&& left.fenced(i)
        } by {
            assert(left.children()[i] == self.children()[i]);
            assert(self.fenced(i));
        }
        assert forall|i: int| 0 <= i < right.children().len() implies {
            &&& (#[trigger] right.children()[i]).wf()
            &&& right.children()[i].keys().len() < BTREE_MAX_KEYS
            &&& right.children()[i].height() + 1 == right.height()
            &&& right.fenced(i)
        } by {
            assert(right.children()[i] == self.children()[i + m + 1]);
            assert(self.fenced(i + m + 1));
        }
    }
}

impl<T: Key> Node<T> {
    /// A split loses no key and adds none: what the node stored is what
    /// the left half stores, the median, and what the right half stores.
    /// Every key of the left half is before the median, and every key of
    /// the right half is after it. Both halves stand as high as the node.
    pub proof fn lemma_split_partitions(self, left: Node<T>, median: T, right: Node<T>)
        requires
            self.wf(),
            self.splits_into(left, median, right),
        ensures
            forall|k: T| self.holds(k) <==> left.holds(k) || k == median || right.holds(k),
            forall|k: T| left.holds(k) ==> lt(k, median),
            forall|k: T| right.holds(k) ==> lt(median, k),
            left.height() == self.height(),
            right.height() == self.height(),
    {
        lemma_strict_total_order::<T>();
        let m = BTREE_MEDIAN_INDEX as int;
        let keys = self.keys();
        assert forall|k: T|
            keys.contains(k) <==> left.keys().contains(k) || k == median || right.keys().contains(
                k,
            ) by {
            if keys.contains(k) {
                let a = choose|a: int| 0 <= a < keys.len() && keys[a] == k;
                if a < m {
                    assert(left.keys()[a] == k);
                } else if a > m {
                    assert(right.keys()[a - m - 1] == k);
                }
            }
            if left.keys().contains(k) {
                let a = choose|a: int| 0 <= a < left.keys().len() && left.keys()[a] == k;
                assert(keys[a] == k);
            }
            if right.keys().contains(k) {
                let a = choose|a: int| 0 <= a < right.keys().len() && right.keys()[a] == k;
                assert(keys[a + m + 1] == k);
            }
            if k == median {
                assert(keys[m] == k);
            }
        }
        assert forall|k: T| left.keys().contains(k) implies lt(k, median) by {
            let a = choose|a: int| 0 <= a < left.keys().len() && left.keys()[a] == k;
            assert(lt(keys[a], keys[m]));
        }
        assert forall|k: T| right.keys().contains(k) implies lt(median, k) by {
            let a = choose|a: int| 0 <= a < right.keys().len() && right.keys()[a] == k;
            assert(lt(keys[m], keys[a + m + 1]));
        }
        match self {
            Node::Leaf(_) => {},
            Node::Internal(whole) => {
                let kids = self.children();
                assert(left.children()[0] == kids[0]);
                assert(right.children()[0] == kids[m + 1]);
                assert forall|k: T| self.holds(k) implies left.holds(k) || k == median
                    || right.holds(k) by {
                    if !keys.contains(k) {
                        let i = choose|i: int| 0 <= i < kids.len() && (#[trigger] kids[i]).holds(k);
                        if i <= m {
                            assert(left.children()[i].holds(k));
                        } else {
                            assert(right.children()[i - m - 1].holds(k));
                        }
                    }
                }
                assert forall|k: T| left.holds(k) implies self.holds(k) && lt(k, median) by {
                    if !left.keys().contains(k) {
                        let i = choose|i: int|
                            0 <= i < left.children().len() && (#[trigger] left.children()[i]).holds(
                                k,
                            );
                        assert(kids[i].holds(k));
                        assert(whole.fenced(i));
                        if i < m {
                            assert(lt(keys[i], keys[m]));
                        }
                    }
                }
                assert forall|k: T| right.holds(k) implies self.holds(k) && lt(median, k) by {
                    if !right.keys().contains(k) {
                        let i = choose|i: int|
                            0 <= i < right.children().len() && (
                            #[trigger] right.children()[i]).holds(k);
                        assert(kids[i + m + 1].holds(k));
                        assert(whole.fenced(i + m + 1));
                        if i > 0 {
                            assert(lt(keys[m], keys[i + m]));
                        }
                    }
                }
            },
        }
    }

    /// A node that is split when it has `BTREE_MAX_KEYS` keys leaves
    /// `BTREE_MIN_KEYS` keys on each side of the median, and, where it has
    /// children, one child more than that on each side.
    pub proof fn lemma_split_of_full(self, left: Node<T>, median: T, right: Node<T>)
        requires
            self.wf(),
            self.keys().len() == BTREE_MAX_KEYS,
            self.splits_into(left, median, right),
        ensures
            left.keys().len() == BTREE_MIN_KEYS,
            right.keys().len() == BTREE_MIN_KEYS,
            !self.is_leaf() ==> left.children().len() == BTREE_MIN_KEYS + 1,
            !self.is_leaf() ==> right.children().len() == BTREE_MIN_KEYS + 1,
    {
    }
}

/// Splits a node at `BTREE_MEDIAN_INDEX`.
pub fn split_node<T: Key>(node: &mut Node<T>) -> (res: SplitResult<T>)
    requires
        old(node).wf(),
        old(node).keys().len() > BTREE_MEDIAN_INDEX,
    ensures
        old(node).splits_into(*final(node), res.median_key, res.right),
{
    match node {
        Node::Leaf(leaf) => split_leaf_node(leaf),
        Node::Internal(internal) => split_internal_node(internal),
    }
}

} // verus!
