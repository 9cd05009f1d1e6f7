use crate::key::Key;
use crate::node::{Node, NodeType};
use vstd::prelude::*;

verus! {

impl<K, V, const D: usize> Node<K, V, D> {
    /// A node made of the given parts.
    pub fn new(
        keys: Vec<Key<K, V, D>>,
        last_node: Option<Box<Node<K, V, D>>>,
        type_: NodeType,
    ) -> (r: Self)
        ensures
            r.keys == keys,
            r.last_node == last_node,
            r.type_ == type_,
    {
        Node { keys, last_node, type_ }
    }

    /// A leaf with the given key records.
    pub fn leaf(keys: Vec<Key<K, V, D>>) -> (r: Self)
        ensures
            r.keys == keys,
            r.last_node is None,
            r.type_ is Leaf,
    {
        Self::new(keys, None, NodeType::Leaf)
    }

    /// An internal node with the given key records and trailing subtree.
    pub fn internal(keys: Vec<Key<K, V, D>>, last_node: Option<Box<Node<K, V, D>>>) -> (r: Self)
        ensures
            r.keys == keys,
            r.last_node == last_node,
            r.type_ is Internal,
    {
        Self::new(keys, last_node, NodeType::Internal)
    }

    /// A node of the given type without keys or children.
    pub fn default(type_: NodeType) -> (r: Self)
        ensures
            r.keys@ == Seq::<Key<K, V, D>>::empty(),
            r.last_node is None,
            r.type_ == type_,
    {
        Node { keys: Self::new_keys(), last_node: None, type_ }
    }

    /// This node on the heap.
    pub fn boxed(self) -> (r: Box<Self>)
        ensures
            *r == self,
    {
        Box::new(self)
    }

    /// This node on the heap, as a child pointer.
    pub fn into_ptr(self) -> (r: Option<Box<Self>>)
        ensures
            r == Some(Box::new(self)),
    {
        Some(self.boxed())
    }

    /// Whether this node is a leaf.
    pub fn is_leaf(&self) -> (r: bool)
        ensures
            r == (self.type_ is Leaf),
    {
        match self.type_ {
            NodeType::Leaf => true,
            NodeType::Internal => false,
        }
    }

    /// Number of keys held by this node itself.
    pub fn len(&self) -> (r: usize)
        ensures
            r == self.keys.len(),
    {
        self.keys.len()
    }

    /// Whether this node holds no key.
    pub fn is_empty(&self) -> (r: bool)
        ensures
            r == (self.keys.len() == 0),
    {
        self.len() == 0
    }

    /// Number of keys held by this node itself.
    pub fn keys_count(&self) -> (r: usize)
        ensures
            r == self.keys.len(),
    {
        self.keys.len()
    }

    /// Whether this node holds `2D-1` keys or more, the most a node may.
    pub fn is_full(&self) -> (r: bool)
        ensures
            r == (self.keys.len() >= 2 * D - 1),
    {
        let n: usize = self.keys.len();
        n / 2 + n % 2 >= D
    }

    /// Whether this node holds more than `2D-1` keys.
    pub fn overflow(&self) -> (r: bool)
        ensures
            r == (self.keys.len() > 2 * D - 1),
    {
        self.keys.len() / 2 >= D
    }

    /// Whether this node holds fewer than `D-1` keys.
    pub fn underflow(&self) -> (r: bool)
        ensures
            r == (self.keys.len() < D - 1),
    {
        D > 0 && self.keys.len() < D - 1
    }

    /// Number of child slots of this node: none for a leaf, one more than
    /// its keys for an internal node.
    pub fn child_count(&self) -> (r: usize)
        requires
            self.keys.len() < usize::MAX,
        ensures
            r == (if self.type_ is Leaf {
                0int
            } else {
                self.keys.len() + 1
            }),
    {
        if self.is_leaf() {
            0
        } else {
            self.keys.len() + 1
        }
    }

    /// The type of this node.
    pub fn type_(&self) -> (r: NodeType)
        ensures
            r == self.type_,
    {
        self.type_
    }

    /// Key record `index`, if there is one.
    pub fn get(&self, index: usize) -> (r: Option<&Key<K, V, D>>)
        ensures
            index < self.keys.len() ==> r == Some(&self.keys[index as int]),
            index >= self.keys.len() ==> r is None,
    {
        if index < self.keys.len() {
            Some(&self.keys[index])
        } else {
            None
        }
    }

    /// Key record `index`, if there is one, for changing in place.
    pub fn get_mut(&mut self, index: usize) -> (r: Option<&mut Key<K, V, D>>)
        ensures
            final(self).last_node == old(self).last_node,
            final(self).type_ == old(self).type_,
            index >= old(self).keys.len() ==> r is None && final(self).keys@ == old(self).keys@,
            index < old(self).keys.len() ==> r is Some && *r.unwrap() == old(self).keys[index as int]
                && final(self).keys@ == old(self).keys@.update(index as int, *final(r.unwrap())),
    {
        if index < self.keys.len() {
            Some(&mut self.keys[index])
        } else {
            None
        }
    }

    /// Takes key record `index` out of this node, if there is one; the
    /// records after it move down by one.
    pub fn remove_key(&mut self, index: usize) -> (r: Option<Key<K, V, D>>)
        ensures
            final(self).last_node == old(self).last_node,
            final(self).type_ == old(self).type_,
            index < old(self).keys.len() ==> r == Some(old(self).keys[index as int])
                && final(self).keys@ == old(self).keys@.remove(index as int),
            index >= old(self).keys.len() ==> r is None && final(self).keys@ == old(self).keys@,
    {
        if index >= self.keys.len() {
            return None;
        }
        let key = self.keys.remove(index);
        Some(key)
    }

    /// Takes the first key record out of this node, if it has one.
    pub fn pop_first(&mut self) -> (r: Option<Key<K, V, D>>)
        ensures
            final(self).last_node == old(self).last_node,
            final(self).type_ == old(self).type_,
            old(self).keys.len() > 0 ==> r == Some(old(self).keys[0]) && final(self).keys@
                == old(self).keys@.drop_first(),
            old(self).keys.len() == 0 ==> r is None && final(self).keys@ == old(self).keys@,
    {
        let r = self.remove_key(0);
        proof {
            if old(self).keys.len() > 0 {
                assert(old(self).keys@.remove(0) =~= old(self).keys@.drop_first());
            }
        }
        r
    }

    /// Takes the middle key record, the one at index `len / 2`, out of this
    /// node, if it has one.
    pub fn pop_middle(&mut self) -> (r: Option<Key<K, V, D>>)
        ensures
            final(self).last_node == old(self).last_node,
            final(self).type_ == old(self).type_,
            old(self).keys.len() > 0 ==> r == Some(old(self).keys[old(self).keys.len() as int / 2])
                && final(self).keys@ == old(self).keys@.remove(old(self).keys.len() as int / 2),
            old(self).keys.len() == 0 ==> r is None && final(self).keys@ == old(self).keys@,
    {
        let index: usize = self.keys.len() / 2;
        self.remove_key(index)
    }

    /// Takes the last key record out of this node, if it has one.
    pub fn pop_last(&mut self) -> (r: Option<Key<K, V, D>>)
        ensures
            final(self).last_node == old(self).last_node,
            final(self).type_ == old(self).type_,
            old(self).keys.len() > 0 ==> r == Some(old(self).keys@.last()) && final(self).keys@
                == old(self).keys@.drop_last(),
            old(self).keys.len() == 0 ==> r is None && final(self).keys@ == old(self).keys@,
    {
        self.keys.pop()
    }

    /// Number of keys held by the child in slot `index`.
    pub fn child_len(&self, index: usize) -> (r: usize)
        requires
            index <= self.keys.len(),
            self.child(index as int) is Some,
        ensures
            r == self.child(index as int).unwrap().keys.len(),
    {
        if index < self.keys.len() {
            match &self.keys[index].pointed_node {
                Some(c) => c.keys.len(),
                None => 0,
            }
        } else {
            match &self.last_node {
                Some(c) => c.keys.len(),
                None => 0,
            }
        }
    }

    /// Detaches the child in slot `index`, leaving the slot empty.
    pub fn take_child(&mut self, index: usize) -> (r: Box<Node<K, V, D>>)
        requires
            index <= old(self).keys.len(),
            old(self).child(index as int) is Some,
        ensures
            old(self).child(index as int) == Some(r),
            final(self).child(index as int) is None,
            old(self).same_but_child(*final(self), index as int),
    {
        if index < self.keys.len() {
            self.keys[index].pointed_node.take().unwrap()
        } else {
            self.last_node.take().unwrap()
        }
    }

    /// Hangs `child` in slot `index`, replacing what was there.
    pub fn put_child(&mut self, index: usize, child: Box<Node<K, V, D>>)
        requires
            index <= old(self).keys.len(),
        ensures
            final(self).child(index as int) == Some(child),
            old(self).same_but_child(*final(self), index as int),
    {
        if index < self.keys.len() {
            self.keys[index].pointed_node = Some(child);
        } else {
            self.last_node = Some(child);
        }
    }
}

} // verus!
