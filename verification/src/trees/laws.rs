//! What holds of every tree, and of every run of insertions.

use crate::order::{ascending, Key};
use crate::trees::node::{Node, BTREE_MAX_KEYS};
use crate::trees::BTree;
use vstd::prelude::*;

verus! {

impl<T: Key> Node<T> {
    /// `n` is a node of this subtree and stands `depth` levels below its
    /// top.
    pub open spec fn has_at(self, n: Node<T>, depth: nat) -> bool
        decreases depth,
    {
        if depth == 0 {
            n == self
        } else {
            exists|i: int|
                0 <= i < self.children().len() && (#[trigger] self.children()[i]).has_at(
                    n,
                    (depth - 1) as nat,
                )
        }
    }

    /// Every node of a well-formed subtree is well formed, every node below
    /// the top has fewer than `BTREE_MAX_KEYS` keys, and a node that stands
    /// `depth` levels below the top has that many levels fewer below it.
    pub proof fn lemma_nodes_below(self, n: Node<T>, depth: nat)
        requires
            self.wf(),
            self.has_at(n, depth),
        ensures
            n.wf(),
            depth > 0 ==> n.keys().len() < BTREE_MAX_KEYS,
            n.height() + depth == self.height(),
        decreases depth,
    {
        if depth > 0 {
            let i = choose|i: int|
                0 <= i < self.children().len() && (#[trigger] self.children()[i]).has_at(
                    n,
                    (depth - 1) as nat,
                );
            self.children()[i].lemma_nodes_below(n, (depth - 1) as nat);
        }
    }
}

/// The set that is left when the keys of `keys` have been inserted into `s`
/// one after the other.
pub open spec fn insert_all<T>(s: Set<T>, keys: Seq<T>) -> Set<T>
    decreases keys.len(),
{
    if keys.len() == 0 {
        s
    } else {
        insert_all(s, keys.drop_last()).insert(keys.last())
    }
}

/// A key is in the set after a run of insertions exactly when it was in the
/// set before or is one of the keys inserted; and the set stays finite.
pub proof fn lemma_insert_all<T>(s: Set<T>, keys: Seq<T>)
    ensures
        forall|k: T| #[trigger]
            insert_all(s, keys).contains(k) <==> s.contains(k) || keys.contains(k),
        s.finite() ==> insert_all(s, keys).finite(),
    decreases keys.len(),
{
    if keys.len() > 0 {
        let front = keys.drop_last();
        let last = keys.last();
        lemma_insert_all(s, front);
        assert(keys =~= front.push(last));
        assert forall|k: T| #[trigger]
            insert_all(s, keys).contains(k) <==> s.contains(k) || keys.contains(k) by {
            assert(insert_all(s, keys).contains(k) <==> insert_all(s, front).contains(k) || k
                == last);
            assert(keys.contains(k) <==> front.contains(k) || k == last) by {
                if front.contains(k) {
                    let i = choose|i: int| 0 <= i < front.len() && front[i] == k;
                    assert(keys[i] == k);
                }
                if keys.contains(k) && k != last {
                    let i = choose|i: int| 0 <= i < keys.len() && keys[i] == k;
                    assert(front[i] == k);
                }
                if k == last {
                    assert(keys[keys.len() - 1] == k);
                }
            }
        }
    }
}

impl<T: Key> BTree<T> {
    /// Every node of the tree has ascending keys and fewer than
    /// `BTREE_MAX_KEYS` of them, every node with children has one child
    /// more than keys, and the leaves, and only they, stand as deep as the
    /// tree is high: all leaves are at the same depth.
    pub proof fn lemma_structure(self, n: Node<T>, depth: nat)
        requires
            self.wf(),
            self.root().has_at(n, depth),
        ensures
            ascending(n.keys()),
            n.keys().len() <= BTREE_MAX_KEYS - 1,
            !n.is_leaf() ==> n.children().len() == n.keys().len() + 1,
            n.is_leaf() <==> depth == self.root().height(),
    {
        self.root().lemma_nodes_below(n, depth);
    }

    /// A key that has just been inserted is stored, so `find` finds it; and
    /// whatever is inserted after it, in `later`, it stays stored.
    pub proof fn lemma_inserted_key_stays(self, key: T, later: Seq<T>)
        ensures
            self@.insert(key).contains(key),
            insert_all(self@.insert(key), later).contains(key),
    {
        lemma_insert_all(self@.insert(key), later);
    }

    /// To insert a key that the tree stores changes nothing: `insert`
    /// reports that nothing was added, and the tree stores the same keys,
    /// and as many, as before. So of two insertions of one key into a tree
    /// that did not store it the first adds the key and the second does
    /// not.
    pub proof fn lemma_duplicate_insert(self, key: T)
        requires
            self.wf(),
        ensures
            self@.insert(key).insert(key) == self@.insert(key),
            self@.insert(key).insert(key).len() == self@.insert(key).len(),
            self@.contains(key) ==> self@.insert(key) == self@,
    {
        assert(self@.insert(key).insert(key) =~= self@.insert(key));
        if self@.contains(key) {
            assert(self@.insert(key) =~= self@);
        }
    }

    /// After the insertion of keys that are all different into an empty
    /// tree, the tree stores as many keys as were inserted.
    pub proof fn lemma_count_of_distinct(self, keys: Seq<T>)
        requires
            self.wf(),
            self@ == Set::<T>::empty(),
            keys.no_duplicates(),
        ensures
            insert_all(self@, keys).len() == keys.len(),
        decreases keys.len(),
    {
        if keys.len() > 0 {
            let front = keys.drop_last();
            self.lemma_count_of_distinct(front);
            lemma_insert_all(self@, front);
            if front.contains(keys.last()) {
                let i = choose|i: int| 0 <= i < front.len() && front[i] == keys.last();
                assert(keys[i] == keys[keys.len() - 1]);
            }
        }
    }
}

} // verus!
