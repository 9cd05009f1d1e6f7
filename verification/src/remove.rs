use crate::key::Key;
use crate::node::{lemma_flat_leaf, subtree, Node};
use crate::order::total_order;
use crate::sorted::{
    all_above, all_below, lemma_bound_ends, lemma_bound_parts, lemma_high_swapped,
    lemma_low_swapped, lemma_predecessor_swapped, lemma_remove_at, lemma_sorted_concat,
    lemma_splice_lookup, lemma_splice_remove, lemma_successor_swapped, lemma_to_map_index, lookup,
    sorted, to_map,
};
use vstd::prelude::*;

verus! {

impl<K: Ord, V, const D: usize> Node<K, V, D> {
    /// A node that holds a key has a non-empty traversal.
    pub proof fn lemma_nonempty(self)
        requires
            self.keys.len() > 0,
        ensures
            self.entries().len() > 0,
    {
        self.lemma_entries_at(0);
    }

    /// Whether the child left of child slot `i` holds a key more than the
    /// least a node may.
    pub open spec fn left_can_spare(self, i: int) -> bool {
        i > 0 && self.child(i - 1).unwrap().keys.len() >= D
    }

    /// Whether the child right of child slot `i` holds a key more than the
    /// least a node may.
    pub open spec fn right_can_spare(self, i: int) -> bool {
        i < self.keys.len() && self.child(i + 1).unwrap().keys.len() >= D
    }

    /// Brings the minimal child in slot `index` to at least `D` keys before
    /// it is entered: by a rotation from its left sibling if that one can
    /// spare a key, else from its right sibling, else by merging it with a
    /// sibling. Returns the slot that now covers what slot `index` covered.
    pub fn ensure_child_has_extra(&mut self, index: usize) -> (r: usize)
        requires
            old(self).shaped(),
            old(self).last_node is Some,
            old(self).keys.len() >= 1,
            index <= old(self).keys.len(),
            old(self).child(index as int).unwrap().keys.len() == D - 1,
        ensures
            final(self).shaped(),
            final(self).height() == old(self).height(),
            final(self).entries() == old(self).entries(),
            r <= final(self).keys.len(),
            final(self).pre(r as int).is_prefix_of(old(self).pre(index as int)),
            final(self).post(r as int).is_suffix_of(old(self).post(index as int)),
            r == (if index < old(self).keys.len() || old(self).left_can_spare(index as int) {
                index as int
            } else {
                index - 1
            }),
            final(self).keys.len() == old(self).keys.len() - (if old(self).left_can_spare(
                index as int,
            ) || old(self).right_can_spare(index as int) {
                0int
            } else {
                1int
            }),
            final(self).child(r as int).unwrap().keys.len() == (if old(self).left_can_spare(
                index as int,
            ) || old(self).right_can_spare(index as int) {
                D as int
            } else {
                2 * D - 1
            }),
            old(self).left_can_spare(index as int) ==> final(self).child(
                index - 1,
            ).unwrap().keys.len() + 1 == old(self).child(index - 1).unwrap().keys.len(),
            !old(self).left_can_spare(index as int) && old(self).right_can_spare(index as int)
                ==> final(self).child(index + 1).unwrap().keys.len() + 1 == old(self).child(
                index + 1,
            ).unwrap().keys.len(),
    {
        let ghost before = *self;
        let ghost i = index as int;
        proof {
            before.lemma_child(i);
            if index > 0 {
                before.lemma_child(i - 1);
                before.lemma_pre_step(i - 1);
            }
            if index < self.keys.len() {
                before.lemma_child(i + 1);
                before.lemma_post_step(i);
            }
        }
        if index > 0 && self.child_len(index - 1) >= D {
            self.rotate_right_from_left(index - 1);
            proof {
                assert(self.post(i).is_suffix_of(before.post(i)));
            }
            index
        } else if index < self.keys.len() && self.child_len(index + 1) >= D {
            self.rotate_left_from_right(index);
            proof {
                assert(self.pre(i).is_prefix_of(before.pre(i)));
            }
            index
        } else if index < self.keys.len() {
            self.merge_childs(index);
            proof {
                assert(self.pre(i).is_prefix_of(before.pre(i)));
                assert(self.post(i).is_suffix_of(before.post(i)));
            }
            index
        } else {
            self.merge_childs(index - 1);
            proof {
                assert(self.pre(i - 1).is_prefix_of(before.pre(i)));
                assert(self.post(i - 1).is_suffix_of(before.post(i)));
            }
            index - 1
        }
    }

    /// Exchanges the pair of `slot` with the last pair of this subtree's
    /// traversal: the last key of its rightmost leaf.
    pub fn swap_last_entry(&mut self, slot: &mut Key<K, V, D>)
        requires
            old(self).shaped(),
            old(self).keys.len() >= 1,
        ensures
            final(self).shaped(),
            final(self).height() == old(self).height(),
            final(self).keys.len() == old(self).keys.len(),
            old(self).entries().len() > 0,
            final(self).entries() == old(self).entries().drop_last().push(old(slot).pair()),
            final(slot).pair() == old(self).entries().last(),
            final(slot).pointed_node == old(slot).pointed_node,
        decreases old(self).height(),
    {
        let ghost before = *self;
        let n = self.keys.len();
        proof {
            before.lemma_child(n as int);
            before.lemma_entries_at(n as int);
            before.lemma_nonempty();
        }
        if self.is_leaf() {
            core::mem::swap(&mut self.keys[n - 1].key, &mut slot.key);
            core::mem::swap(&mut self.keys[n - 1].value, &mut slot.value);
            proof {
                assert forall|j: int| 0 <= j < self.keys.len() implies (
                #[trigger] self.keys[j]).pointed_node is None by {
                    assert(before.keys[j].pointed_node is None);
                }
                lemma_flat_leaf(before.keys@);
                lemma_flat_leaf(self.keys@);
                assert(self.entries() =~= before.entries().drop_last().push(old(slot).pair()));
            }
        } else {
            let mut child = self.take_child(n);
            proof {
                child.lemma_nonempty();
            }
            child.swap_last_entry(slot);
            self.put_child(n, child);
            proof {
                before.lemma_child_replaced(*self, n as int);
                before.lemma_child_replaced_shaped(*self, n as int);
                assert(self.entries() =~= before.entries().drop_last().push(old(slot).pair()));
            }
        }
    }

    /// Exchanges the pair of `slot` with the first pair of this subtree's
    /// traversal: the first key of its leftmost leaf.
    pub fn swap_first_entry(&mut self, slot: &mut Key<K, V, D>)
        requires
            old(self).shaped(),
            old(self).keys.len() >= 1,
        ensures
            final(self).shaped(),
            final(self).height() == old(self).height(),
            final(self).keys.len() == old(self).keys.len(),
            old(self).entries().len() > 0,
            final(self).entries() == seq![old(slot).pair()] + old(self).entries().drop_first(),
            final(slot).pair() == old(self).entries().first(),
            final(slot).pointed_node == old(slot).pointed_node,
        decreases old(self).height(),
    {
        let ghost before = *self;
        proof {
            before.lemma_child(0);
            before.lemma_entries_at(0);
            before.lemma_nonempty();
            assert(before.keys@.take(0) =~= Seq::<Key<K, V, D>>::empty());
        }
        if self.is_leaf() {
            core::mem::swap(&mut self.keys[0].key, &mut slot.key);
            core::mem::swap(&mut self.keys[0].value, &mut slot.value);
            proof {
                assert forall|j: int| 0 <= j < self.keys.len() implies (
                #[trigger] self.keys[j]).pointed_node is None by {
                    assert(before.keys[j].pointed_node is None);
                }
                lemma_flat_leaf(before.keys@);
                lemma_flat_leaf(self.keys@);
                assert(self.entries() =~= seq![old(slot).pair()] + before.entries().drop_first());
            }
        } else {
            let mut child = self.take_child(0);
            proof {
                child.lemma_nonempty();
            }
            child.swap_first_entry(slot);
            self.put_child(0, child);
            proof {
                before.lemma_child_replaced(*self, 0);
                before.lemma_child_replaced_shaped(*self, 0);
                assert(self.entries() =~= seq![old(slot).pair()] + before.entries().drop_first());
            }
        }
    }

    /// Taking key `i` out of a leaf removes it from the map.
    pub proof fn lemma_leaf_remove(self, after: Self, i: int)
        requires
            total_order::<K>(),
            self.wf(),
            self.last_node is None,
            0 <= i < self.keys.len(),
            after.type_ == self.type_,
            after.last_node == self.last_node,
            after.keys@ == self.keys@.remove(i),
        ensures
            after.wf(),
            after.height() == self.height(),
            after@ == self@.remove(self.keys[i].key),
            self@.contains_key(self.keys[i].key),
            self@[self.keys[i].key] == self.keys[i].value,
    {
        assert forall|j: int| 0 <= j < after.keys.len() implies (
        #[trigger] after.keys[j]).pointed_node is None by {
            if j < i {
                assert(self.keys[j].pointed_node is None);
            } else {
                assert(self.keys[j + 1].pointed_node is None);
            }
        }
        lemma_flat_leaf(self.keys@);
        lemma_flat_leaf(after.keys@);
        assert(self.entries()[i] == self.keys[i].pair());
        assert(after.entries() =~= self.entries().remove(i));
        lemma_remove_at(self.entries(), i);
    }

    /// Removing from the child that covers the key is removing from the
    /// whole subtree.
    pub proof fn lemma_remove_below(self, after: Self, i: int, k: K)
        requires
            total_order::<K>(),
            self.wf(),
            self.last_node is Some,
            0 <= i <= self.keys.len(),
            self.same_but_child(after, i),
            all_below(self.pre(i), k),
            all_above(self.post(i), k),
            self.child(i) is Some,
            after.child(i) is Some,
            after.child(i).unwrap().wf(),
            after.child(i).unwrap().height() == self.child(i).unwrap().height(),
            after.child(i).unwrap().keys.len() >= D - 1,
            after.child(i).unwrap()@ == self.child(i).unwrap()@.remove(k),
        ensures
            after.wf(),
            after.height() == self.height(),
            after@ == self@.remove(k),
            self@.contains_key(k) <==> self.child(i).unwrap()@.contains_key(k),
            self@.contains_key(k) ==> self@[k] == self.child(i).unwrap()@[k],
    {
        self.lemma_child(i);
        self.lemma_child_replaced(after, i);
        self.lemma_child_replaced_shaped(after, i);
        self.lemma_entries_at(i);
        lemma_splice_remove(
            self.pre(i),
            subtree(self.child(i)),
            subtree(after.child(i)),
            self.post(i),
            k,
        );
    }

    /// Removal of key `i` by way of its predecessor: the last pair of the
    /// child on its left took its place, and the key was then removed from
    /// that child.
    pub proof fn lemma_removed_by_predecessor(self, after: Self, i: int)
        requires
            total_order::<K>(),
            self.wf(),
            self.last_node is Some,
            0 <= i < self.keys.len(),
            self.same_but_pair(after, i),
            after.child(i + 1) == self.child(i + 1),
            subtree(self.child(i)).len() > 0,
            after.keys[i].pair() == subtree(self.child(i)).last(),
            after.child(i) is Some,
            after.child(i).unwrap().wf(),
            after.child(i).unwrap().keys.len() >= D - 1,
            after.child(i).unwrap().height() + 1 == self.height(),
            after.child(i).unwrap()@ == to_map(
                subtree(self.child(i)).drop_last().push(self.keys[i].pair()),
            ).remove(self.keys[i].key),
        ensures
            after.wf(),
            after.height() == self.height(),
            after@ == self@.remove(self.keys[i].key),
    {
        let k = self.keys[i].key;
        let pre = self.pre(i);
        let low = subtree(self.child(i));
        let x = self.keys[i].pair();
        let tail = subtree(self.child(i + 1)) + self.post(i + 1);
        let done = subtree(after.child(i));
        self.lemma_child(i + 1);
        self.lemma_pair_frame(after, i);
        self.lemma_key_bounds(i);
        lemma_bound_parts(pre, low, k);
        assert(self.entries() =~= pre + (low + seq![x]) + tail);
        assert(after.entries() =~= pre + (done + seq![low.last()]) + tail);
        lemma_sorted_concat(pre + (low + seq![x]), tail);
        lemma_sorted_concat(pre, low + seq![x]);
        lemma_predecessor_swapped(low, x, done);
        lemma_splice_remove(pre, low + seq![x], done + seq![low.last()], tail, k);
    }

    /// Removal of key `i` by way of its successor: the first pair of the
    /// child on its right took its place, and the key was then removed from
    /// that child.
    pub proof fn lemma_removed_by_successor(self, after: Self, i: int)
        requires
            total_order::<K>(),
            self.wf(),
            self.last_node is Some,
            0 <= i < self.keys.len(),
            self.same_but_pair(after, i),
            after.child(i) == self.child(i),
            subtree(self.child(i + 1)).len() > 0,
            after.keys[i].pair() == subtree(self.child(i + 1)).first(),
            after.child(i + 1) is Some,
            after.child(i + 1).unwrap().wf(),
            after.child(i + 1).unwrap().keys.len() >= D - 1,
            after.child(i + 1).unwrap().height() + 1 == self.height(),
            after.child(i + 1).unwrap()@ == to_map(
                seq![self.keys[i].pair()] + subtree(self.child(i + 1)).drop_first(),
            ).remove(self.keys[i].key),
        ensures
            after.wf(),
            after.height() == self.height(),
            after@ == self@.remove(self.keys[i].key),
    {
        let k = self.keys[i].key;
        let head = self.pre(i) + subtree(self.child(i));
        let high = subtree(self.child(i + 1));
        let x = self.keys[i].pair();
        let post = self.post(i + 1);
        let done = subtree(after.child(i + 1));
        self.lemma_child(i);
        self.lemma_pair_frame(after, i);
        self.lemma_key_bounds(i);
        lemma_bound_parts(high, post, k);
        assert(self.entries() =~= head + (seq![x] + high) + post);
        assert(after.entries() =~= head + (seq![high.first()] + done) + post);
        lemma_sorted_concat(head + (seq![x] + high), post);
        lemma_sorted_concat(head, seq![x] + high);
        lemma_successor_swapped(high, x, done);
        lemma_splice_remove(head, seq![x] + high, seq![high.first()] + done, post, k);
    }

    /// Key `i` of a sorted node is in its map, beside its value; everything
    /// before the child on its left sorts below it and everything after the
    /// child on its right sorts above it.
    pub proof fn lemma_key_held(self, i: int)
        requires
            total_order::<K>(),
            sorted(self.entries()),
            0 <= i < self.keys.len(),
        ensures
            self@.contains_key(self.keys[i].key),
            self@[self.keys[i].key] == self.keys[i].value,
            all_below(self.pre(i), self.keys[i].key),
            all_above(self.post(i + 1), self.keys[i].key),
            sorted(subtree(self.child(i)) + seq![self.keys[i].pair()]),
            sorted(seq![self.keys[i].pair()] + subtree(self.child(i + 1))),
    {
        let k = self.keys[i].key;
        let x = seq![self.keys[i].pair()];
        self.lemma_position(i);
        lemma_to_map_index(self.entries(), self.position(i));
        self.lemma_key_bounds(i);
        lemma_bound_parts(self.pre(i), subtree(self.child(i)), k);
        lemma_bound_parts(subtree(self.child(i + 1)), self.post(i + 1), k);
        self.lemma_entries_at(i);
        self.lemma_post_step(i);
        let low = subtree(self.child(i));
        let high = subtree(self.child(i + 1));
        assert(self.entries() =~= (self.pre(i) + (low + x)) + (high + self.post(i + 1)));
        lemma_sorted_concat(self.pre(i) + (low + x), high + self.post(i + 1));
        lemma_sorted_concat(self.pre(i), low + x);
        assert(self.entries() =~= (self.pre(i) + low) + ((x + high) + self.post(i + 1)));
        lemma_sorted_concat(self.pre(i) + low, (x + high) + self.post(i + 1));
        lemma_sorted_concat(x + high, self.post(i + 1));
    }

    /// Whether removing a key that stands at (`found`, `at`) among this
    /// node's keys takes a key from this node itself: in a leaf when the key
    /// is there; in an internal node when two children are merged, that is
    /// when neither child beside the key found here can spare a key, or when
    /// the child to enter is minimal and so are its neighbours.
    pub open spec fn loses_key(self, found: bool, at: int) -> bool {
        if self.last_node is None {
            found
        } else if found {
            self.child(at).unwrap().keys.len() < D && self.child(at + 1).unwrap().keys.len() < D
        } else {
            &&& self.child(at).unwrap().keys.len() < D
            &&& !self.left_can_spare(at)
            &&& !self.right_can_spare(at)
        }
    }

    /// The key count of this node after the removal of a key that stands at
    /// (`found`, `at`) among its keys.
    pub open spec fn keys_after_remove(self, found: bool, at: int) -> int {
        self.keys.len() - (if self.loses_key(found, at) {
            1int
        } else {
            0int
        })
    }

    /// Removes `key` from this leaf, given where it stands among the keys.
    pub fn remove_in_leaf(&mut self, found: bool, at: usize, key: &K) -> (r: Option<V>)
        requires
            total_order::<K>(),
            old(self).wf(),
            old(self).last_node is None,
            old(self).located(*key, found, at as int),
        ensures
            final(self).wf(),
            final(self).type_ == old(self).type_,
            final(self).height() == old(self).height(),
            final(self).keys.len() == old(self).keys_after_remove(found, at as int),
            final(self)@ == old(self)@.remove(*key),
            r == lookup(old(self)@, *key),
    {
        let ghost before = *self;
        if found {
            let gone = self.keys.remove(at);
            proof {
                before.lemma_leaf_remove(*self, at as int);
            }
            Some(gone.value)
        } else {
            proof {
                before.lemma_child(at as int);
                before.lemma_entries_at(at as int);
                before.lemma_bounds(at as int, *key);
                lemma_splice_lookup(
                    before.pre(at as int),
                    subtree(before.child(at as int)),
                    before.post(at as int),
                    *key,
                );
                assert(subtree(before.child(at as int)) =~= Seq::<(K, V)>::empty());
                assert(self@ =~= before@.remove(*key));
            }
            None
        }
    }

    /// Removes key `at` of this internal node by way of its predecessor,
    /// where the child on its left holds at least `D` keys: the last pair of
    /// that child's subtree takes the key's place, and the key is removed
    /// from that child.
    pub fn remove_by_predecessor(&mut self, at: usize, key: &K) -> (r: Option<V>)
        requires
            total_order::<K>(),
            old(self).wf(),
            old(self).last_node is Some,
            at < old(self).keys.len(),
            old(self).keys[at as int].key == *key,
            old(self).child(at as int).unwrap().keys.len() >= D,
        ensures
            final(self).wf(),
            final(self).type_ == old(self).type_,
            final(self).height() == old(self).height(),
            final(self).keys.len() == old(self).keys.len(),
            final(self)@ == old(self)@.remove(*key),
            r == lookup(old(self)@, *key),
        decreases old(self).height(), 0int,
    {
        let ghost before = *self;
        proof {
            before.lemma_child(at as int);
            before.lemma_key_held(at as int);
        }
        let mut child = self.take_child(at);
        proof {
            lemma_low_swapped(child.entries(), before.keys[at as int].pair());
        }
        child.swap_last_entry(&mut self.keys[at]);
        let r = child.remove(key);
        self.put_child(at, child);
        proof {
            before.lemma_removed_by_predecessor(*self, at as int);
        }
        r
    }

    /// Removes key `at` of this internal node by way of its successor,
    /// where the child on its right holds at least `D` keys: the first pair
    /// of that child's subtree takes the key's place, and the key is removed
    /// from that child.
    pub fn remove_by_successor(&mut self, at: usize, key: &K) -> (r: Option<V>)
        requires
            total_order::<K>(),
            old(self).wf(),
            old(self).last_node is Some,
            at < old(self).keys.len(),
            old(self).keys[at as int].key == *key,
            old(self).child(at + 1).unwrap().keys.len() >= D,
        ensures
            final(self).wf(),
            final(self).type_ == old(self).type_,
            final(self).height() == old(self).height(),
            final(self).keys.len() == old(self).keys.len(),
            final(self)@ == old(self)@.remove(*key),
            r == lookup(old(self)@, *key),
        decreases old(self).height(), 0int,
    {
        let ghost before = *self;
        proof {
            before.lemma_child(at + 1);
            before.lemma_key_held(at as int);
        }
        let mut child = self.take_child(at + 1);
        proof {
            lemma_high_swapped(child.entries(), before.keys[at as int].pair());
        }
        child.swap_first_entry(&mut self.keys[at]);
        let r = child.remove(key);
        self.put_child(at + 1, child);
        proof {
            before.lemma_removed_by_successor(*self, at as int);
        }
        r
    }

    /// Removes `key` from the child in slot `index`, which covers it and
    /// holds at least `D` keys.
    pub fn remove_from_child(&mut self, index: usize, key: &K) -> (r: Option<V>)
        requires
            total_order::<K>(),
            old(self).wf(),
            old(self).last_node is Some,
            index <= old(self).keys.len(),
            old(self).child(index as int).unwrap().keys.len() >= D,
            all_below(old(self).pre(index as int), *key),
            all_above(old(self).post(index as int), *key),
        ensures
            final(self).wf(),
            final(self).type_ == old(self).type_,
            final(self).height() == old(self).height(),
            final(self).keys.len() == old(self).keys.len(),
            final(self)@ == old(self)@.remove(*key),
            r == lookup(old(self)@, *key),
        decreases old(self).height(), 0int,
    {
        let ghost before = *self;
        proof {
            before.lemma_child(index as int);
            before.lemma_parts_sorted(index as int);
        }
        let mut child = self.take_child(index);
        let r = child.remove(key);
        self.put_child(index, child);
        proof {
            before.lemma_remove_below(*self, index as int, *key);
        }
        r
    }

    /// Removes key `at` of this internal node: by way of its predecessor if
    /// the child on its left can spare a key, else by way of its successor
    /// if the child on its right can, else by merging the two children
    /// around the key and removing the key from the merged child.
    pub fn remove_here(&mut self, at: usize, key: &K) -> (r: Option<V>)
        requires
            total_order::<K>(),
            old(self).wf(),
            old(self).last_node is Some,
            at < old(self).keys.len(),
            old(self).keys[at as int].key == *key,
        ensures
            final(self).wf(),
            final(self).type_ == old(self).type_,
            final(self).height() == old(self).height(),
            final(self).keys.len() == old(self).keys_after_remove(true, at as int),
            final(self)@ == old(self)@.remove(*key),
            r == lookup(old(self)@, *key),
        decreases old(self).height(), 1int,
    {
        let ghost before = *self;
        proof {
            before.lemma_child(at as int);
            before.lemma_child(at + 1);
        }
        if self.child_len(at) >= D {
            self.remove_by_predecessor(at, key)
        } else if self.child_len(at + 1) >= D {
            self.remove_by_successor(at, key)
        } else {
            proof {
                before.lemma_key_held(at as int);
            }
            self.merge_childs(at);
            self.remove_from_child(at, key)
        }
    }

    /// Removes `key`, which is not among this internal node's own keys, from
    /// the child in slot `at` where it belongs. A minimal child is first
    /// brought to `D` keys.
    pub fn remove_below(&mut self, at: usize, key: &K) -> (r: Option<V>)
        requires
            total_order::<K>(),
            old(self).wf(),
            old(self).last_node is Some,
            old(self).keys.len() >= 1,
            old(self).located(*key, false, at as int),
        ensures
            final(self).wf(),
            final(self).type_ == old(self).type_,
            final(self).height() == old(self).height(),
            final(self).keys.len() == old(self).keys_after_remove(false, at as int),
            final(self)@ == old(self)@.remove(*key),
            r == lookup(old(self)@, *key),
        decreases old(self).height(), 1int,
    {
        let ghost before = *self;
        let mut index: usize = at;
        proof {
            before.lemma_child(at as int);
            before.lemma_bounds(at as int, *key);
        }
        if self.child_len(index) < D {
            index = self.ensure_child_has_extra(index);
        }
        proof {
            lemma_bound_ends(self.pre(index as int), before.pre(at as int), *key);
            lemma_bound_ends(self.post(index as int), before.post(at as int), *key);
        }
        self.remove_from_child(index, key)
    }

    /// Removes `key` from the subtree rooted at this node and returns the
    /// value it had, if it was there. A minimal child on the way down is
    /// first brought to `D` keys by a rotation or a merge, so every node
    /// below this one keeps at least `D-1` keys; this node itself may lose
    /// one key to a merge.
    pub fn remove(&mut self, key: &K) -> (r: Option<V>)
        requires
            total_order::<K>(),
            old(self).wf(),
            old(self).last_node is Some ==> old(self).keys.len() >= 1,
        ensures
            final(self).wf(),
            final(self).type_ == old(self).type_,
            final(self).height() == old(self).height(),
            exists|found: bool, at: int|
                #![trigger old(self).located(*key, found, at)]
                old(self).located(*key, found, at) && final(self).keys.len() == old(self)
                    .keys_after_remove(found, at),
            final(self)@ == old(self)@.remove(*key),
            r == lookup(old(self)@, *key),
        decreases old(self).height(), 2int,
    {
        proof {
            self.lemma_keys_ascending();
            self.lemma_child(0);
        }
        let (found, at) = self.index_for(key);
        assert(old(self).located(*key, found, at as int));
        if self.is_leaf() {
            self.remove_in_leaf(found, at, key)
        } else if found {
            self.remove_here(at, key)
        } else {
            self.remove_below(at, key)
        }
    }
}

} // verus!
