//! The B-tree: its nodes, how they split, and the tree that owns the root.

pub mod draw;
pub mod insert;
pub mod laws;
pub mod node;
pub mod split;
pub mod traverse;

use crate::order::{in_gap, lemma_gap_excludes, lt, rank, Key, Rank};
use crate::trees::draw::{lines_of, print_node, NodeLine};
use crate::trees::insert::insert_at_node;
use crate::trees::node::{InternalNode, LeafNode, Node, BTREE_MAX_KEYS};
use crate::trees::split::split_node;
use vstd::prelude::*;

verus! {

/// An ordered set of keys, kept as a B-tree.
pub struct BTree<T: Key> {
    pub(crate) num_keys: usize,
    pub(crate) root: Node<T>,
}

impl<T: Key> View for BTree<T> {
    type V = Set<T>;

    /// The keys that the tree stores.
    open spec fn view(&self) -> Set<T> {
        Set::new(|k: T| self.root().holds(k))
    }
}

impl<T: Key> InternalNode<T> {
    /// A node whose one key is the median of a split, and whose two children
    /// are the halves, is well formed, stores what the node stored that was
    /// split, and stands one level above it.
    pub proof fn lemma_new_root(self, whole: Node<T>)
        requires
            whole.wf(),
            self.keys().len() == 1,
            self.count() == 1,
            self.children().len() == 2,
            whole.splits_into(self.children()[0], self.keys()[0], self.children()[1]),
        ensures
            self.wf(),
            self.height() == whole.height() + 1,
            forall|k: T| self.holds(k) <==> whole.holds(k),
    {
        let left = self.children()[0];
        let median = self.keys()[0];
        let right = self.children()[1];
        whole.lemma_split_partitions(left, median, right);
        assert forall|i: int| 0 <= i < self.children().len() implies {
            &&& (#[trigger] self.children()[i]).wf()
            &&& self.children()[i].keys().len() < BTREE_MAX_KEYS
            &&& self.children()[i].height() + 1 == self.height()
            &&& self.fenced(i)
        } by {}
        assert forall|k: T| self.holds(k) <==> whole.holds(k) by {
            if self.holds(k) && !self.keys().contains(k) {
                let i = choose|i: int|
                    0 <= i < self.children().len() && (#[trigger] self.children()[i]).holds(k);
            }
            if left.holds(k) {
                assert(self.children()[0].holds(k));
            }
            if right.holds(k) {
                assert(self.children()[1].holds(k));
            }
            if k == median {
                assert(self.keys()[0] == k);
            }
        }
    }
}

impl<T: Key> BTree<T> {
    /// The node at the top of the tree.
    pub open(crate) spec fn root(self) -> Node<T> {
        self.root
    }

    /// The count that the tree keeps of its keys.
    pub open(crate) spec fn count(self) -> nat {
        self.num_keys as nat
    }

    /// The root and every node below it is well formed, the root has fewer
    /// than `BTREE_MAX_KEYS` keys, and the count is the number of keys that
    /// the tree stores.
    pub open spec fn wf(self) -> bool {
        &&& self.root().wf()
        &&& self.root().keys().len() < BTREE_MAX_KEYS
        &&& self@.finite()
        &&& self.count() == self@.len()
    }

    /// An empty tree: its root is a leaf without keys.
    pub fn new() -> (tree: BTree<T>)
        ensures
            tree.wf(),
            tree@ == Set::<T>::empty(),
            tree@.len() == 0,
            tree.root().is_leaf(),
            tree.root().keys() == Seq::<T>::empty(),
    {
        let tree = BTree { num_keys: 0, root: Node::Leaf(LeafNode::new()) };
        proof {
            assert(tree@ =~= Set::<T>::empty());
        }
        tree
    }

    /// Says whether the tree stores `key`.
    pub fn find(&self, key: &T) -> (found: bool)
        requires
            self.wf(),
        ensures
            found == self@.contains(*key),
    {
        let mut current: &Node<T> = &self.root;
        loop
            invariant
                current.wf(),
                self.root().holds(*key) <==> current.holds(*key),
            decreases current.height(),
        {
            match current {
                Node::Leaf(node) => {
                    let mut i: usize = 0;
                    while i < node.num_keys
                        invariant
                            node.wf(),
                            self.root().holds(*key) <==> node.holds(*key),
                            i <= node.num_keys,
                            forall|j: int| 0 <= j < i ==> lt(#[trigger] node.keys()[j], *key),
                        decreases node.num_keys - i,
                    {
                        match rank(key, &node.keys[i]) {
                            Rank::Before => {
                                proof {
                                    lemma_gap_excludes(node.keys(), i as int, *key);
                                }
                                return false;
                            },
                            Rank::Same => {
                                assert(node.keys()[i as int] == *key);
                                return true;
                            },
                            Rank::After => {},
                        }
                        i += 1;
                    }
                    proof {
                        lemma_gap_excludes(node.keys(), i as int, *key);
                    }
                    return false;
                },
                Node::Internal(node) => {
                    let mut i: usize = 0;
                    while i < node.num_keys
                        invariant_except_break
                            forall|j: int| 0 <= j < i ==> lt(#[trigger] node.keys()[j], *key),
                        invariant
                            node.wf(),
                            self.root().holds(*key) <==> node.holds(*key),
                            i <= node.num_keys,
                        ensures
                            in_gap(node.keys(), i as int, *key),
                        decreases node.num_keys - i,
                    {
                        match rank(key, &node.keys[i]) {
                            Rank::Before => {
                                break;
                            },
                            Rank::Same => {
                                assert(node.keys()[i as int] == *key);
                                return true;
                            },
                            Rank::After => {},
                        }
                        i += 1;
                    }
                    proof {
                        node.lemma_descend(i as int, *key);
                    }
                    current = &node.children[i];
                },
            }
        }
    }

    /// Stores `key` unless the tree stores it already, and says whether it
    /// was added. Where the insertion fills the root, the root is split and
    /// a new root with one key is put above the two halves: the tree grows
    /// by one level.
    pub fn insert(&mut self, key: T) -> (added: bool)
        requires
            old(self).wf(),
            old(self)@.len() < usize::MAX,
        ensures
            final(self).wf(),
            added == !old(self)@.contains(key),
            final(self)@ == old(self)@.insert(key),
            final(self).root().height() == old(self).root().height() + if old(self).root().fills(
                key,
            ) {
                1nat
            } else {
                0nat
            },
    {
        let root_insert = insert_at_node(&mut self.root, key);
        let ghost grown = self.root;

        // a root that the insertion has filled is split under a new root
        if root_insert.must_split {
            let root_split = split_node(&mut self.root);
            let new_root = InternalNode {
                num_keys: 1,
                keys: Vec::with_capacity(BTREE_MAX_KEYS),
                children: Vec::with_capacity(BTREE_MAX_KEYS + 1),
            };

            let mut old_root = Node::Internal(new_root);
            core::mem::swap(&mut self.root, &mut old_root);

            match &mut self.root {
                Node::Internal(root) => {
                    root.children.push(Box::new(old_root));
                    root.keys.push(root_split.median_key);
                    root.children.push(Box::new(root_split.right));
                    proof {
                        root.lemma_new_root(grown);
                    }
                },
                Node::Leaf(_) => {},
            }
        }

        if root_insert.success {
            self.num_keys += 1;
        }
        proof {
            assert(self@ =~= old(self)@.insert(key));
        }

        root_insert.success
    }

    /// The outline of the tree: a line for each node, the root first and
    /// each node before its children, with two blanks before the line for
    /// each level that the node stands below the root.
    pub fn draw_tree(&self) -> (lines: Vec<NodeLine<'_, T>>)
        ensures
            lines_of(lines@) == self.root().outline(Seq::empty()),
    {
        let mut lines = Vec::new();
        let indent = String::new();
        print_node(&self.root, &indent, &mut lines);
        proof {
            assert(lines_of(Seq::<NodeLine<'_, T>>::empty()) =~= Seq::empty());
        }
        lines
    }

    /// The number of keys that the tree stores.
    pub fn size(&self) -> (n: usize)
        requires
            self.wf(),
        ensures
            n == self@.len(),
    {
        return self.num_keys;
    }
}

} // verus!
