use crate::key::Key;
use crate::node::{Node, NodeType};
use crate::order::total_order;
use crate::sorted::{lemma_to_map_len, lookup, to_map};
use crate::utils::error::BtreeError;
use vstd::prelude::*;

verus! {

/// Smallest minimum degree a tree can have.
pub const MINIMUM_LOWER_BOUND: usize = 2;

/// Largest minimum degree a tree can have.
pub const MAXIMUM_LOWER_BOUND: usize = 2048;

/// An ordered map from `K` to `V`, kept as a B-tree of minimum degree `D`.
pub struct Btree<K, V, const D: usize> {
    root: Node<K, V, D>,
    size: usize,
}

impl<K: Ord, V, const D: usize> View for Btree<K, V, D> {
    type V = Map<K, V>;

    /// The map this tree holds: the map of its in-order traversal.
    open spec fn view(&self) -> Map<K, V> {
        to_map(self.in_order())
    }
}

impl<K, V, const D: usize> Btree<K, V, D> {
    /// The root node.
    pub closed spec fn root_node(self) -> Node<K, V, D> {
        self.root
    }

    /// The running count of pairs.
    pub closed spec fn count(self) -> nat {
        self.size as nat
    }

    /// In-order traversal of the tree.
    pub open spec fn in_order(self) -> Seq<(K, V)> {
        self.root_node().entries()
    }

    /// Number of levels of the tree; an empty tree has one.
    pub open spec fn height(self) -> nat {
        self.root_node().height()
    }
}

impl<K: Ord, V, const D: usize> Btree<K, V, D> {

    /// A well-formed tree: the root subtree is well formed, an internal
    /// root holds at least one key, and the count is the number of pairs.
    pub open spec fn wf(self) -> bool {
        &&& self.root_node().wf()
        &&& self.root_node().last_node is Some ==> self.root_node().keys.len() >= 1
        &&& self.count() == self.in_order().len()
    }

    /// Whether any removal takes a level off this tree: its root is an
    /// internal node with one key over two minimal children, which are
    /// merged into the new root.
    pub open spec fn loses_level(self) -> bool {
        let root = self.root_node();
        &&& root.last_node is Some
        &&& root.keys.len() == 1
        &&& root.child(0).unwrap().keys.len() == D - 1
        &&& root.child(1).unwrap().keys.len() == D - 1
    }

    /// The view is the map of the traversal, which has one pair per key.
    pub proof fn lemma_view(self)
        requires
            total_order::<K>(),
            self.wf(),
        ensures
            self@ == to_map(self.in_order()),
            self@ == self.root_node()@,
            self@.dom().finite(),
            self@.len() == self.in_order().len(),
            self@.len() == self.count(),
    {
        lemma_to_map_len(self.root.entries());
    }

    /// An empty tree, if the minimum degree `D` is within bounds.
    pub fn new() -> (r: Result<Self, BtreeError>)
        ensures
            D < 2 ==> r == Err::<Self, BtreeError>(BtreeError::LowerBoundTooLow),
            D > 2048 ==> r == Err::<Self, BtreeError>(BtreeError::LowerBoundTooLarge),
            2 <= D <= 2048 ==> r is Ok && r->Ok_0.wf() && r->Ok_0@ == Map::<K, V>::empty()
                && r->Ok_0.in_order() == Seq::<(K, V)>::empty() && r->Ok_0.count() == 0
                && r->Ok_0.height() == 1 && r->Ok_0.root_node().type_ is Leaf,
    {
        if D < MINIMUM_LOWER_BOUND {
            return Err(BtreeError::LowerBoundTooLow);
        }
        if D > MAXIMUM_LOWER_BOUND {
            return Err(BtreeError::LowerBoundTooLarge);
        }
        let tree = Btree { root: Node::default(NodeType::Leaf), size: 0 };
        proof {
            assert(tree.root.entries() =~= Seq::<(K, V)>::empty());
        }
        Ok(tree)
    }

    /// Number of pairs in the tree.
    pub fn len(&self) -> (r: usize)
        ensures
            r == self.count(),
            self.wf() ==> r == self.in_order().len(),
    {
        self.size
    }

    /// Whether the tree holds no pair.
    pub fn is_empty(&self) -> (r: bool)
        ensures
            r == (self.count() == 0),
            self.wf() ==> r == (self.in_order().len() == 0),
    {
        self.size == 0
    }

    /// The root node, for reading.
    pub fn root(&self) -> (r: &Node<K, V, D>)
        ensures
            *r == self.root_node(),
    {
        &self.root
    }

    /// Looks `key` up.
    pub fn get(&self, key: &K) -> (r: Option<&V>)
        requires
            total_order::<K>(),
            self.wf(),
        ensures
            match r {
                Some(v) => self@.contains_key(*key) && self@[*key] == *v,
                None => !self@.contains_key(*key),
            },
    {
        self.root.find(key)
    }

    /// Grows the tree by one level: the full root is split around its median
    /// key, which becomes the only key of a new internal root.
    pub fn split_root(&mut self)
        requires
            old(self).wf(),
            old(self).root_node().keys.len() == 2 * D - 1,
        ensures
            final(self).wf(),
            final(self)@ == old(self)@,
            final(self).in_order() == old(self).in_order(),
            final(self).count() == old(self).count(),
            final(self).height() == old(self).height() + 1,
            final(self).root_node().type_ is Internal,
            final(self).root_node().keys.len() == 1,
    {
        self.root.split_root();
    }

    /// Maps `key` to `value`. Returns the value `key` was mapped to before,
    /// if any; the count grows by one if there was none.
    pub fn insert(&mut self, key: K, value: V) -> (r: Option<V>)
        requires
            total_order::<K>(),
            old(self).wf(),
            old(self).count() < usize::MAX,
        ensures
            final(self).wf(),
            final(self)@ == old(self)@.insert(key, value),
            r == lookup(old(self)@, key),
            final(self).count() == old(self).count() + (if r is None {
                1nat
            } else {
                0nat
            }),
            final(self).height() == old(self).height() + (if old(self).root_node().keys.len() == 2
                * D - 1 {
                1nat
            } else {
                0nat
            }),
    {
        proof {
            self.lemma_view();
        }
        if self.root.is_full() {
            self.split_root();
        }
        let r = self.root.insert_inner(Key::new(key, value));
        proof {
            lemma_to_map_len(self.root.entries());
        }
        if r.is_none() {
            self.size = self.size + 1;
        }
        r
    }

    /// Unmaps `key`. Returns the value it was mapped to, if any; the count
    /// shrinks by one if there was one. A root left without keys above a
    /// single child is replaced by that child.
    pub fn remove(&mut self, key: &K) -> (r: Option<V>)
        requires
            total_order::<K>(),
            old(self).wf(),
        ensures
            final(self).wf(),
            final(self)@ == old(self)@.remove(*key),
            r == lookup(old(self)@, *key),
            final(self).count() + (if r is None {
                0nat
            } else {
                1nat
            }) == old(self).count(),
            final(self).height() + (if old(self).loses_level() {
                1nat
            } else {
                0nat
            }) == old(self).height(),
    {
        proof {
            self.lemma_view();
            self.root.lemma_child(0);
            if self.root.keys.len() >= 1 {
                self.root.lemma_child(1);
            }
        }
        let ghost before = self.root;
        let r = self.root.remove(key);
        proof {
            lemma_to_map_len(self.root.entries());
            assert forall|found: bool, at: int|
                #![trigger before.located(*key, found, at)]
                before.located(*key, found, at) && self.root.keys.len()
                    == before.keys_after_remove(found, at) implies (self.root.last_node is Some
                && self.root.keys.len() == 0) == old(self).loses_level() by {}
        }
        if !self.root.is_leaf() && self.root.len() == 0 {
            let ghost upper = self.root;
            proof {
                upper.lemma_child(0);
                upper.lemma_entries_at(0);
                assert(upper.keys@.take(0) =~= Seq::<Key<K, V, D>>::empty());
                assert(upper.entries() =~= upper.last_node.unwrap().entries());
            }
            let child = self.root.take_child(0);
            self.root = *child;
        }
        if r.is_some() {
            self.size = self.size - 1;
        }
        r
    }
}

} // verus!
