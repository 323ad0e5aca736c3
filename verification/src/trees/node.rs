//! The nodes of the tree and what it means for them to be well formed.

use crate::order::{ascending, in_gap, lemma_gap_excludes, lemma_gap_unique, slot, Key};
use vstd::prelude::*;

verus! {

/// The index at which a full node is split. It is also the number of keys
/// that each half keeps.
pub const BTREE_MIN_KEYS: usize = 15;

/// A node that reaches this number of keys is split before the insertion
/// that filled it returns to the node's parent.
pub const BTREE_MAX_KEYS: usize = 31;

/// The index of the key that a split hands up to the parent.
pub const BTREE_MEDIAN_INDEX: usize = BTREE_MIN_KEYS;

/// A node of the tree.
pub enum Node<T: Key> {
    Internal(InternalNode<T>),
    Leaf(LeafNode<T>),
}

/// A node with children: child `i` holds the keys between key `i - 1` and
/// key `i` of the node.
pub struct InternalNode<T: Key> {
    pub(crate) keys: Vec<T>,
    pub(crate) children: Vec<Box<Node<T>>>,
    pub(crate) num_keys: usize,
}

/// A node without children.
pub struct LeafNode<T: Key> {
    pub(crate) keys: Vec<T>,
    pub(crate) num_keys: usize,
}

impl<T: Key> LeafNode<T> {
    /// A leaf without keys.
    pub fn new() -> (leaf: LeafNode<T>)
        ensures
            leaf.wf(),
            leaf.keys() == Seq::<T>::empty(),
    {
        LeafNode { keys: Vec::with_capacity(BTREE_MAX_KEYS), num_keys: 0 }
    }

    /// The keys of the leaf, in the order in which it stores them.
    pub open(crate) spec fn keys(self) -> Seq<T> {
        self.keys@
    }

    /// The count that the leaf keeps of its keys.
    pub open(crate) spec fn count(self) -> nat {
        self.num_keys as nat
    }

    /// The leaf stores `k`.
    pub open spec fn holds(self, k: T) -> bool {
        self.keys().contains(k)
    }

    /// The keys ascend, the count is their number, and that number is at
    /// most `BTREE_MAX_KEYS`.
    pub open spec fn wf(self) -> bool {
        &&& self.count() == self.keys().len()
        &&& self.keys().len() <= BTREE_MAX_KEYS
        &&& ascending(self.keys())
    }

    /// To insert `k` adds a key to the leaf: it does not store `k` yet.
    pub open spec fn gains(self, k: T) -> bool {
        !self.holds(k)
    }

    /// To insert `k` brings the leaf to `BTREE_MAX_KEYS` keys.
    pub open spec fn fills(self, k: T) -> bool {
        self.gains(k) && self.keys().len() + 1 >= BTREE_MAX_KEYS
    }
}

impl<T: Key> InternalNode<T> {
    /// The keys of the node, in the order in which it stores them.
    pub open(crate) spec fn keys(self) -> Seq<T> {
        self.keys@
    }

    /// The children of the node, from left to right.
    pub open(crate) spec fn children(self) -> Seq<Node<T>> {
        Seq::new(self.children@.len(), |i: int| *self.children@[i])
    }

    /// The count that the node keeps of its keys.
    pub open(crate) spec fn count(self) -> nat {
        self.num_keys as nat
    }

    /// The number of levels below this node.
    pub open spec fn height(self) -> nat
        decreases self,
    {
        if self.children().len() > 0 {
            1 + self.children()[0].height()
        } else {
            1
        }
    }

    /// The node or one of the nodes below it stores `k`.
    pub open spec fn holds(self, k: T) -> bool
        decreases self,
    {
        self.keys().contains(k) || exists|i: int|
            0 <= i < self.children().len() && (#[trigger] self.children()[i]).holds(k)
    }

    /// Every key stored in child `i` or below it lies in gap `i` of the
    /// node's keys.
    pub open spec fn fenced(self, i: int) -> bool {
        forall|k: T| #[trigger] self.children()[i].holds(k) ==> in_gap(self.keys(), i, k)
    }

    /// The keys ascend and are at most `BTREE_MAX_KEYS`; there is one child
    /// more than keys; and each child is well formed, has fewer than
    /// `BTREE_MAX_KEYS` keys, stands one level lower than the node and
    /// stores only keys from its own gap.
    pub open spec fn wf(self) -> bool
        decreases self,
    {
        &&& self.count() == self.keys().len()
        &&& self.keys().len() <= BTREE_MAX_KEYS
        &&& ascending(self.keys())
        &&& self.children().len() == self.keys().len() + 1
        &&& forall|i: int|
            0 <= i < self.children().len() ==> {
                &&& (#[trigger] self.children()[i]).wf()
                &&& self.children()[i].keys().len() < BTREE_MAX_KEYS
                &&& self.children()[i].height() + 1 == self.height()
                &&& self.fenced(i)
            }
    }
}

impl<T: Key> InternalNode<T> {
    /// To insert `k` adds a key to the node itself: `k` is none of the
    /// node's keys, and the child in which it belongs is filled and so
    /// hands up its median.
    pub open spec fn gains(self, k: T) -> bool
        decreases self, 0nat,
    {
        let i = slot(self.keys(), k);
        &&& !self.keys().contains(k)
        &&& 0 <= i < self.children().len()
        &&& self.children()[i].fills(k)
    }

    /// To insert `k` brings the node to `BTREE_MAX_KEYS` keys.
    pub open spec fn fills(self, k: T) -> bool
        decreases self, 1nat,
    {
        self.gains(k) && self.keys().len() + 1 >= BTREE_MAX_KEYS
    }

    /// What child `j` stores, the node stores.
    pub proof fn lemma_holds_below(self, j: int, k: T)
        requires
            0 <= j < self.children().len(),
            self.children()[j].holds(k),
        ensures
            self.holds(k),
    {
    }

    /// A key that the node stores is one of its own keys or is stored by
    /// one of its children.
    pub proof fn lemma_holds_where(self, k: T) -> (j: int)
        requires
            self.holds(k),
            !self.keys().contains(k),
        ensures
            0 <= j < self.children().len(),
            self.children()[j].holds(k),
    {
        choose|j: int| 0 <= j < self.children().len() && (#[trigger] self.children()[j]).holds(k)
    }

    /// A key that lies in gap `i` of the node's keys is stored at or below
    /// the node exactly when it is stored at or below child `i`.
    pub proof fn lemma_descend(self, i: int, k: T)
        requires
            self.wf(),
            in_gap(self.keys(), i, k),
        ensures
            self.holds(k) <==> self.children()[i].holds(k),
    {
        lemma_gap_excludes(self.keys(), i, k);
        if self.holds(k) {
            let j = choose|j: int|
                0 <= j < self.children().len() && (#[trigger] self.children()[j]).holds(k);
            assert(self.fenced(j));
            lemma_gap_unique(self.keys(), i, j, k);
        }
    }
}

impl<T: Key> Node<T> {
    /// The node has no children.
    pub open spec fn is_leaf(self) -> bool {
        self is Leaf
    }

    /// The keys of the node itself, in the order in which it stores them.
    pub open spec fn keys(self) -> Seq<T> {
        match self {
            Node::Internal(n) => n.keys(),
            Node::Leaf(l) => l.keys(),
        }
    }

    /// The children of the node, from left to right; none for a leaf.
    pub open spec fn children(self) -> Seq<Node<T>> {
        match self {
            Node::Internal(n) => n.children(),
            Node::Leaf(l) => Seq::empty(),
        }
    }

    /// The number of levels below this node: none below a leaf.
    pub open spec fn height(self) -> nat
        decreases self,
    {
        match self {
            Node::Internal(n) => n.height(),
            Node::Leaf(l) => 0,
        }
    }

    /// The node or one of the nodes below it stores `k`.
    pub open spec fn holds(self, k: T) -> bool
        decreases self,
    {
        match self {
            Node::Internal(n) => n.holds(k),
            Node::Leaf(l) => l.holds(k),
        }
    }

    /// The node and every node below it is well formed.
    pub open spec fn wf(self) -> bool
        decreases self,
    {
        match self {
            Node::Internal(n) => n.wf(),
            Node::Leaf(l) => l.wf(),
        }
    }

    /// To insert `k` at or below the node adds a key to the node itself.
    pub open spec fn gains(self, k: T) -> bool
        decreases self,
    {
        match self {
            Node::Internal(n) => n.gains(k),
            Node::Leaf(l) => l.gains(k),
        }
    }

    /// To insert `k` at or below the node brings the node to
    /// `BTREE_MAX_KEYS` keys.
    pub open spec fn fills(self, k: T) -> bool
        decreases self,
    {
        match self {
            Node::Internal(n) => n.fills(k),
            Node::Leaf(l) => l.fills(k),
        }
    }
}

} // verus!
