use crate::key::Key;
use crate::node::Node;
use vstd::prelude::*;

verus! {

/// A cursor over the key records of one node, first to last.
pub struct KeysIterator<'a, K, V, const D: usize> {
    pub node: &'a Node<K, V, D>,
    pub index: usize,
}

impl<'a, K, V, const D: usize> KeysIterator<'a, K, V, D> {
    /// A cursor on the first key record of `node`.
    pub fn new(node: &'a Node<K, V, D>) -> (r: Self)
        ensures
            r.node == node,
            r.index == 0,
    {
        KeysIterator { node, index: 0 }
    }

    /// The key record under the cursor, which then moves on; nothing once
    /// all records have been passed.
    pub fn next(&mut self) -> (r: Option<&'a Key<K, V, D>>)
        ensures
            final(self).node == old(self).node,
            old(self).index < old(self).node.keys.len() ==> r == Some(
                &old(self).node.keys[old(self).index as int],
            ) && final(self).index == old(self).index + 1,
            old(self).index >= old(self).node.keys.len() ==> r is None && final(self).index
                == old(self).index,
    {
        if self.index < self.node.keys_count() {
            let r = Some(&self.node.keys[self.index]);
            self.index = self.index + 1;
            r
        } else {
            None
        }
    }
}

/// A cursor over the child slots of one node, first to last.
pub struct ChildIterator<'a, K, V, const D: usize> {
    pub node: &'a Node<K, V, D>,
    pub index: usize,
}

impl<'a, K, V, const D: usize> ChildIterator<'a, K, V, D> {
    /// A cursor on the first child slot of `node`.
    pub fn new(node: &'a Node<K, V, D>) -> (r: Self)
        ensures
            r.node == node,
            r.index == 0,
    {
        ChildIterator { node, index: 0 }
    }

    /// The child in the slot under the cursor, which then moves on. Nothing
    /// where the slot is empty, on a node without keys, and once the
    /// trailing slot has been passed.
    pub fn next(&mut self) -> (r: Option<&'a Node<K, V, D>>)
        requires
            old(self).node.keys.len() < usize::MAX,
        ensures
            final(self).node == old(self).node,
            old(self).index <= old(self).node.keys.len() && old(self).node.keys.len() > 0 ==> {
                &&& final(self).index == old(self).index + 1
                &&& match old(self).node.child(old(self).index as int) {
                    Some(b) => r == Some(&*b),
                    None => r is None,
                }
            },
            old(self).index > old(self).node.keys.len() || old(self).node.keys.len() == 0 ==> r is None
                && final(self).index == old(self).index,
    {
        let key_count = self.node.keys_count();
        if self.index < key_count {
            let r = self.node.keys[self.index].pointed_node();
            self.index = self.index + 1;
            r
        } else if self.index == key_count && key_count > 0 {
            let r = match &self.node.last_node {
                Some(b) => Some(&**b),
                None => None,
            };
            self.index = self.index + 1;
            r
        } else {
            None
        }
    }
}

impl<K, V, const D: usize> Node<K, V, D> {
    /// A cursor over this node's key records.
    pub fn key_iter(&self) -> (r: KeysIterator<'_, K, V, D>)
        ensures
            *r.node == *self,
            r.index == 0,
    {
        KeysIterator::new(self)
    }

    /// A cursor over this node's child slots.
    pub fn child_iter(&self) -> (r: ChildIterator<'_, K, V, D>)
        ensures
            *r.node == *self,
            r.index == 0,
    {
        ChildIterator::new(self)
    }
}

} // verus!
