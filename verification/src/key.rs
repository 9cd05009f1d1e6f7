use crate::node::Node;
use core::cmp::Ordering;
use vstd::prelude::*;
use vstd::std_specs::cmp::{PartialEqSpec, PartialEqSpecImpl, PartialOrdSpec, PartialOrdSpecImpl};

verus! {

/// A key record: a key, its value, and, inside an internal node, the subtree
/// of everything that sorts between the preceding key and this one.
#[derive(Debug)]
pub struct Key<K, V, const D: usize> {
    pub key: K,
    pub value: V,
    pub pointed_node: Option<Box<Node<K, V, D>>>,
}

impl<K, V, const D: usize> Key<K, V, D> {
    /// The `(key, value)` pair this record carries.
    pub open spec fn pair(self) -> (K, V) {
        (self.key, self.value)
    }

    /// A record without a subtree.
    pub fn new(key: K, value: V) -> (r: Self)
        ensures
            r.key == key,
            r.value == value,
            r.pointed_node is None,
    {
        Key { key, value, pointed_node: None }
    }

    /// The key.
    pub fn key(&self) -> (r: &K)
        ensures
            *r == self.key,
    {
        &self.key
    }

    /// The value.
    pub fn value(&self) -> (r: &V)
        ensures
            *r == self.value,
    {
        &self.value
    }

    /// The subtree this record owns, if any.
    pub fn pointed_node(&self) -> (r: Option<&Node<K, V, D>>)
        ensures
            match self.pointed_node {
                Some(b) => r == Some(&*b),
                None => r is None,
            },
    {
        match &self.pointed_node {
            Some(b) => Some(&**b),
            None => None,
        }
    }

    /// The subtree this record owns, if any, for changing in place.
    pub fn pointed_node_mut(&mut self) -> (r: Option<&mut Node<K, V, D>>)
        ensures
            final(self).key == old(self).key,
            final(self).value == old(self).value,
            match old(self).pointed_node {
                None => r is None && final(self).pointed_node is None,
                Some(b) => r is Some && *r.unwrap() == *b && final(self).pointed_node == Some(
                    Box::new(*final(r.unwrap())),
                ),
            },
    {
        match &mut self.pointed_node {
            Some(b) => Some(&mut **b),
            None => None,
        }
    }

    /// Attaches `pointed_node` as the subtree of this record, in place of
    /// any it had.
    pub fn set_pointed_node(&mut self, pointed_node: Box<Node<K, V, D>>)
        ensures
            final(self).pointed_node == Some(pointed_node),
            final(self).key == old(self).key,
            final(self).value == old(self).value,
    {
        self.pointed_node = Some(pointed_node);
    }

    /// Detaches the subtree of this record and returns it.
    pub fn unset_pointed_node(&mut self) -> (r: Option<Box<Node<K, V, D>>>)
        ensures
            r == old(self).pointed_node,
            final(self).pointed_node is None,
            final(self).key == old(self).key,
            final(self).value == old(self).value,
    {
        self.pointed_node.take()
    }

    /// Stores `new_value` and hands back the value held before.
    pub fn replace_value(&mut self, new_value: V) -> (r: V)
        ensures
            r == old(self).value,
            final(self).value == new_value,
            final(self).key == old(self).key,
            final(self).pointed_node == old(self).pointed_node,
    {
        let mut v = new_value;
        core::mem::swap(&mut self.value, &mut v);
        v
    }
}

impl<K: Ord, V, const D: usize> PartialEq for Key<K, V, D> {
    /// Two records are equal when their keys are; values and subtrees do not
    /// count.
    fn eq(&self, other: &Self) -> (r: bool) {
        self.key == other.key
    }
}

impl<K: Ord, V, const D: usize> PartialEqSpecImpl for Key<K, V, D> {
    open spec fn obeys_eq_spec() -> bool {
        K::obeys_eq_spec()
    }

    open spec fn eq_spec(&self, other: &Self) -> bool {
        self.key.eq_spec(&other.key)
    }
}

impl<K: Ord, V, const D: usize> Eq for Key<K, V, D> {

}

impl<K: Ord, V, const D: usize> PartialOrd for Key<K, V, D> {
    /// Records are ordered as their keys are; values and subtrees do not
    /// count.
    fn partial_cmp(&self, other: &Self) -> (r: Option<Ordering>) {
        self.key.partial_cmp(&other.key)
    }
}

impl<K: Ord, V, const D: usize> PartialOrdSpecImpl for Key<K, V, D> {
    open spec fn obeys_partial_cmp_spec() -> bool {
        K::obeys_partial_cmp_spec()
    }

    open spec fn partial_cmp_spec(&self, other: &Self) -> Option<Ordering> {
        self.key.partial_cmp_spec(&other.key)
    }
}

} // verus!
