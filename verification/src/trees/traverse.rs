//! The keys of a tree in the order of a walk from left to right.

use crate::order::{
    ascending, in_gap, lemma_ascending_no_duplicates, lemma_join_ascending,
    lemma_strict_total_order, lt, Key,
};
use crate::trees::node::{InternalNode, Node};
use crate::trees::BTree;
use vstd::prelude::*;

verus! {

impl<T: Key> InternalNode<T> {
    /// The walk from left to right through the first `n` keys and the
    /// `n + 1` children around them: child 0, key 0, child 1, and so on up
    /// to child `n`.
    pub open spec fn in_order_to(self, n: nat) -> Seq<T>
        decreases self, n,
    {
        if n >= self.children().len() || n > self.keys().len() {
            Seq::empty()
        } else if n == 0 {
            self.children()[0].in_order()
        } else {
            self.in_order_to((n - 1) as nat) + seq![self.keys()[n - 1]]
                + self.children()[n as int].in_order()
        }
    }

    /// The walk from left to right through the node and all that is below
    /// it.
    pub open spec fn in_order(self) -> Seq<T>
        decreases self, self.keys().len() + 1,
    {
        self.in_order_to(self.keys().len())
    }

    /// The walk through the first `n` keys and the children around them
    /// ascends, and passes exactly those keys and the keys below those
    /// children.
    pub proof fn lemma_in_order_to(self, n: nat)
        requires
            self.wf(),
            n <= self.keys().len(),
        ensures
            ascending(self.in_order_to(n)),
            forall|k: T|
                self.in_order_to(n).contains(k) <==> (exists|j: int|
                    0 <= j < n && self.keys()[j] == k) || (exists|j: int|
                    0 <= j <= n && (#[trigger] self.children()[j]).holds(k)),
        decreases self, n,
    {
        lemma_strict_total_order::<T>();
        let keys = self.keys();
        let kids = self.children();
        if n == 0 {
            kids[0].lemma_in_order();
            assert forall|k: T|
                self.in_order_to(n).contains(k) <==> (exists|j: int|
                    0 <= j < n && keys[j] == k) || (exists|j: int|
                    0 <= j <= n && (#[trigger] kids[j]).holds(k)) by {
                if kids[0].holds(k) {
                    assert(0 <= 0 <= n && kids[0].holds(k));
                }
            }
        } else {
            let a = self.in_order_to((n - 1) as nat);
            let m = keys[n - 1];
            let b = kids[n as int].in_order();
            self.lemma_in_order_to((n - 1) as nat);
            kids[n as int].lemma_in_order();
            assert forall|i: int| 0 <= i < a.len() implies lt(#[trigger] a[i], m) by {
                let k = a[i];
                assert(a.contains(k));
                if exists|j: int| 0 <= j < n - 1 && keys[j] == k {
                    let j = choose|j: int| 0 <= j < n - 1 && keys[j] == k;
                    assert(lt(keys[j], keys[n - 1]));
                } else {
                    let j = choose|j: int| 0 <= j <= n - 1 && (#[trigger] kids[j]).holds(k);
                    assert(self.fenced(j));
                    if j < n - 1 {
                        assert(lt(keys[j], keys[n - 1]));
                    }
                }
            }
            assert forall|i: int| 0 <= i < b.len() implies lt(m, #[trigger] b[i]) by {
                let k = b[i];
                assert(b.contains(k));
                assert(kids[n as int].holds(k));
                assert(self.fenced(n as int));
                assert(in_gap(keys, n as int, k));
            }
            lemma_join_ascending(a, m, b);
            assert forall|k: T|
                self.in_order_to(n).contains(k) <==> (exists|j: int|
                    0 <= j < n && keys[j] == k) || (exists|j: int|
                    0 <= j <= n && (#[trigger] kids[j]).holds(k)) by {
                if a.contains(k) {
                    if exists|j: int| 0 <= j < n - 1 && keys[j] == k {
                        let j = choose|j: int| 0 <= j < n - 1 && keys[j] == k;
                        assert(0 <= j < n && keys[j] == k);
                    } else {
                        let j = choose|j: int| 0 <= j <= n - 1 && (#[trigger] kids[j]).holds(k);
                        assert(0 <= j <= n && kids[j].holds(k));
                    }
                }
                if k == m {
                    assert(0 <= n - 1 < n && keys[n - 1] == k);
                }
                if b.contains(k) {
                    assert(0 <= n <= n && kids[n as int].holds(k));
                }
                if exists|j: int| 0 <= j < n && keys[j] == k {
                    let j = choose|j: int| 0 <= j < n && keys[j] == k;
                    if j < n - 1 {
                        assert(a.contains(k));
                    }
                }
                if exists|j: int| 0 <= j <= n && (#[trigger] kids[j]).holds(k) {
                    let j = choose|j: int| 0 <= j <= n && (#[trigger] kids[j]).holds(k);
                    if j <= n - 1 {
                        assert(a.contains(k));
                    }
                }
            }
        }
    }
}

impl<T: Key> Node<T> {
    /// The walk from left to right through the node and all that is below
    /// it: the keys of a leaf as they stand, and for a node with children
    /// each child's walk before the key that follows the child.
    pub open spec fn in_order(self) -> Seq<T>
        decreases self,
    {
        match self {
            Node::Internal(n) => n.in_order(),
            Node::Leaf(l) => l.keys(),
        }
    }

    /// The walk through a well-formed node ascends, and passes exactly the
    /// keys that the node stores.
    pub proof fn lemma_in_order(self)
        requires
            self.wf(),
        ensures
            ascending(self.in_order()),
            forall|k: T| self.in_order().contains(k) <==> self.holds(k),
        decreases self,
    {
        match self {
            Node::Leaf(l) => {},
            Node::Internal(n) => {
                n.lemma_in_order_to(n.keys().len());
                assert forall|k: T| self.in_order().contains(k) <==> self.holds(k) by {
                    if self.in_order().contains(k) {
                        if exists|j: int| 0 <= j < n.keys().len() && n.keys()[j] == k {
                        } else {
                            let j = choose|j: int|
                                0 <= j <= n.keys().len() && (#[trigger] n.children()[j]).holds(k);
                        }
                    }
                    if n.keys().contains(k) {
                        let j = choose|j: int| 0 <= j < n.keys().len() && n.keys()[j] == k;
                    }
                    if exists|j: int|
                        0 <= j < n.children().len() && (#[trigger] n.children()[j]).holds(k) {
                        let j = choose|j: int|
                            0 <= j < n.children().len() && (#[trigger] n.children()[j]).holds(k);
                        assert(0 <= j <= n.keys().len() && n.children()[j].holds(k));
                    }
                }
            },
        }
    }
}

impl<T: Key> BTree<T> {
    /// The keys of the tree in the order of a walk from left to right.
    pub open spec fn in_order(self) -> Seq<T> {
        self.root().in_order()
    }

    /// At every point of a tree's life the walk from left to right ascends
    /// strictly, so it passes no key twice; it passes exactly the keys that
    /// the tree stores, and as many as the tree counts.
    pub proof fn lemma_in_order_ascending(self)
        requires
            self.wf(),
        ensures
            ascending(self.in_order()),
            self.in_order().no_duplicates(),
            self.in_order().to_set() == self@,
            self.in_order().len() == self.count(),
    {
        self.root().lemma_in_order();
        lemma_ascending_no_duplicates(self.in_order());
        assert(self.in_order().to_set() =~= self@);
        self.in_order().unique_seq_to_set();
    }
}

} // verus!
