use crate::key::Key;
use crate::node::{subtree, Node};
use crate::order::{compare, lt, total_order, KeyOrder};
use crate::sorted::{inserted_all, lemma_splice_insert, lemma_to_map_one, lookup, to_map};
use vstd::prelude::*;

verus! {

impl<K: Ord, V, const D: usize> Node<K, V, D> {
    /// Whether inserting a key that stands at (`found`, `at`) among this
    /// node's keys adds a key to this node itself: a new key does so in a
    /// leaf, and in an internal node when the child it belongs to is full
    /// and has to be split.
    pub open spec fn gains_key(self, found: bool, at: int) -> bool {
        !found && (self.last_node is None || self.child(at).unwrap().keys.len() == 2 * D - 1)
    }

    /// The key count of this node after the insertion of a key that stands
    /// at (`found`, `at`) among its keys.
    pub open spec fn keys_after_insert(self, found: bool, at: int) -> int {
        self.keys.len() + (if self.gains_key(found, at) {
            1int
        } else {
            0int
        })
    }

    /// Storing a new value beside key `i` is inserting into the map.
    pub proof fn lemma_value_replaced(self, after: Self, i: int)
        requires
            total_order::<K>(),
            self.wf(),
            0 <= i < self.keys.len(),
            after.type_ == self.type_,
            after.last_node == self.last_node,
            after.keys.len() == self.keys.len(),
            forall|j: int|
                0 <= j < self.keys.len() && j != i ==> (#[trigger] after.keys[j]) == self.keys[j],
            after.keys[i].key == self.keys[i].key,
            after.keys[i].pointed_node == self.keys[i].pointed_node,
        ensures
            after.wf(),
            after.height() == self.height(),
            after@ == self@.insert(self.keys[i].key, after.keys[i].value),
            self@.contains_key(self.keys[i].key),
            self@[self.keys[i].key] == self.keys[i].value,
    {
        let k = self.keys[i].key;
        match self.last_node {
            None => {
                assert forall|j: int| 0 <= j < after.keys.len() implies (
                #[trigger] after.keys[j]).pointed_node is None by {
                    assert(self.keys[j].pointed_node is None);
                }
            },
            Some(last) => {
                assert forall|j: int| 0 <= j < after.keys.len() implies Self::fits_below(
                    (#[trigger] after.keys[j]).pointed_node,
                    last.height(),
                ) by {
                    assert(Self::fits_below(self.keys[j].pointed_node, last.height()));
                }
            },
        }
        let a = self.pre(i) + subtree(self.child(i));
        let b = subtree(self.child(i + 1)) + self.post(i + 1);
        let one = seq![self.keys[i].pair()];
        let two = seq![after.keys[i].pair()];
        self.lemma_entries_at(i);
        self.lemma_post_step(i);
        self.lemma_key_bounds(i);
        after.lemma_entries_at(i);
        assert(after.keys@.take(i) =~= self.keys@.take(i));
        assert(after.keys@.skip(i + 1) =~= self.keys@.skip(i + 1));
        after.lemma_post_step(i);
        assert(after.child(i + 1) == self.child(i + 1));
        if i + 1 < self.keys.len() {
            assert(after.keys@.skip(i + 2) =~= self.keys@.skip(i + 2));
        }
        assert(after.post(i + 1) =~= self.post(i + 1));
        assert(self.entries() =~= a + one + b);
        assert(after.entries() =~= a + two + b);
        lemma_to_map_one(self.keys[i].key, self.keys[i].value);
        lemma_to_map_one(after.keys[i].key, after.keys[i].value);
        assert(to_map(two) =~= to_map(one).insert(k, after.keys[i].value));
        lemma_splice_insert(a, one, two, b, k, after.keys[i].value);
    }

    /// Putting a fresh record into a leaf at the index where its key
    /// belongs is inserting into the map.
    pub proof fn lemma_leaf_insert(self, after: Self, i: int)
        requires
            total_order::<K>(),
            self.wf(),
            self.last_node is None,
            0 <= i <= self.keys.len() < 2 * D - 1,
            after.type_ == self.type_,
            after.last_node == self.last_node,
            after.keys.len() == self.keys.len() + 1,
            after.keys@ == self.keys@.insert(i, after.keys[i]),
            after.keys[i].pointed_node is None,
            i > 0 ==> lt(self.keys[i - 1].key, after.keys[i].key),
            i < self.keys.len() ==> lt(after.keys[i].key, self.keys[i].key),
        ensures
            after.wf(),
            after.height() == self.height(),
            after@ == self@.insert(after.keys[i].key, after.keys[i].value),
            !self@.contains_key(after.keys[i].key),
    {
        let k = after.keys[i].key;
        let v = after.keys[i].value;
        assert forall|j: int| 0 <= j < after.keys.len() implies (
        #[trigger] after.keys[j]).pointed_node is None by {
            if j < i {
                assert(self.keys[j].pointed_node is None);
            } else if j > i {
                assert(self.keys[j - 1].pointed_node is None);
            }
        }
        self.lemma_child(i);
        self.lemma_entries_at(i);
        self.lemma_bounds(i, k);
        self.lemma_key_inserted(after, i);
        let none = Seq::<(K, V)>::empty();
        let one = seq![(k, v)];
        assert(self.entries() =~= self.pre(i) + none + self.post(i));
        assert(after.entries() =~= self.pre(i) + one + self.post(i));
        lemma_to_map_one(k, v);
        assert(to_map(none) =~= Map::<K, V>::empty());
        lemma_splice_insert(self.pre(i), none, one, self.post(i), k, v);
    }

    /// Inserting into the child where the key belongs is inserting into the
    /// whole subtree.
    pub proof fn lemma_insert_below(self, after: Self, i: int, k: K, v: V)
        requires
            total_order::<K>(),
            self.wf(),
            self.last_node is Some,
            0 <= i <= self.keys.len(),
            self.same_but_child(after, i),
            i > 0 ==> lt(self.keys[i - 1].key, k),
            i < self.keys.len() ==> lt(k, self.keys[i].key),
            self.child(i) is Some,
            after.child(i) is Some,
            after.child(i).unwrap().wf(),
            after.child(i).unwrap().height() == self.child(i).unwrap().height(),
            after.child(i).unwrap().keys.len() >= D - 1,
            after.child(i).unwrap()@ == self.child(i).unwrap()@.insert(k, v),
        ensures
            after.wf(),
            after.height() == self.height(),
            after@ == self@.insert(k, v),
            self@.contains_key(k) <==> self.child(i).unwrap()@.contains_key(k),
            self@.contains_key(k) ==> self@[k] == self.child(i).unwrap()@[k],
    {
        self.lemma_child(i);
        self.lemma_child_replaced(after, i);
        self.lemma_child_replaced_shaped(after, i);
        self.lemma_entries_at(i);
        self.lemma_bounds(i, k);
        lemma_splice_insert(
            self.pre(i),
            subtree(self.child(i)),
            subtree(after.child(i)),
            self.post(i),
            k,
            v,
        );
    }

    /// Inserts a record into this leaf, which must not be full: at the index
    /// where its key belongs, or, if the key is already there, by replacing
    /// the value beside it, which is returned.
    pub fn insert_inner_leaf(&mut self, key: Key<K, V, D>) -> (r: Option<V>)
        requires
            total_order::<K>(),
            old(self).wf(),
            old(self).last_node is None,
            old(self).keys.len() < 2 * D - 1,
            key.pointed_node is None,
        ensures
            final(self).wf(),
            final(self).type_ == old(self).type_,
            final(self).height() == old(self).height(),
            final(self).keys.len() == old(self).keys.len() + (if r is None {
                1int
            } else {
                0int
            }),
            exists|found: bool, at: int|
                #![trigger old(self).located(key.key, found, at)]
                old(self).located(key.key, found, at) && final(self).keys.len() == old(self)
                    .keys_after_insert(found, at),
            final(self)@ == old(self)@.insert(key.key, key.value),
            r == lookup(old(self)@, key.key),
    {
        let ghost before = *self;
        proof {
            before.lemma_keys_ascending();
        }
        let (found, at) = self.index_for(&key.key);
        assert(before.located(key.key, found, at as int));
        if found {
            let previous = self.keys[at].replace_value(key.value);
            proof {
                before.lemma_value_replaced(*self, at as int);
            }
            Some(previous)
        } else {
            self.keys.insert(at, key);
            proof {
                before.lemma_leaf_insert(*self, at as int);
            }
            None
        }
    }

    /// Inserts a record into the subtree below this internal node, which
    /// must not be full. A key found in this node has its value replaced.
    /// Otherwise the child where the key belongs is entered, after it has
    /// been split if it was full; if the median that comes up is the key,
    /// its value is replaced there.
    pub fn insert_inner_internal(&mut self, key: Key<K, V, D>) -> (r: Option<V>)
        requires
            total_order::<K>(),
            old(self).wf(),
            old(self).last_node is Some,
            old(self).keys.len() < 2 * D - 1,
            key.pointed_node is None,
        ensures
            final(self).wf(),
            final(self).type_ == old(self).type_,
            final(self).height() == old(self).height(),
            exists|found: bool, at: int|
                #![trigger old(self).located(key.key, found, at)]
                old(self).located(key.key, found, at) && final(self).keys.len() == old(self)
                    .keys_after_insert(found, at),
            final(self)@ == old(self)@.insert(key.key, key.value),
            r == lookup(old(self)@, key.key),
        decreases old(self).height(), 0int,
    {
        let ghost before = *self;
        proof {
            before.lemma_keys_ascending();
        }
        let (found, at) = self.index_for(&key.key);
        assert(before.located(key.key, found, at as int));
        if found {
            let previous = self.keys[at].replace_value(key.value);
            proof {
                before.lemma_value_replaced(*self, at as int);
            }
            return Some(previous);
        }
        let mut index: usize = at;
        proof {
            before.lemma_child(at as int);
        }
        if self.child_len(index) == 2 * D - 1 {
            self.split_node_pointed_by_key(index);
            match compare(&key.key, &self.keys[index].key) {
                KeyOrder::Equal => {
                    let ghost mid = *self;
                    let previous = self.keys[index].replace_value(key.value);
                    proof {
                        mid.lemma_value_replaced(*self, index as int);
                    }
                    return Some(previous);
                },
                KeyOrder::Less => {},
                KeyOrder::Greater => {
                    index = index + 1;
                },
            }
        }
        let ghost mid = *self;
        proof {
            mid.lemma_child(index as int);
            mid.lemma_parts_sorted(index as int);
        }
        let mut child = self.take_child(index);
        let r = child.insert_inner(key);
        self.put_child(index, child);
        proof {
            mid.lemma_insert_below(*self, index as int, key.key, key.value);
        }
        r
    }

    /// Inserts a record into the subtree rooted at this node, which must not
    /// be full. If the key is already present its value is replaced and the
    /// old value returned. A full child on the way down is split before it
    /// is entered, so no node ever holds more than `2D-1` keys.
    pub fn insert_inner(&mut self, key: Key<K, V, D>) -> (r: Option<V>)
        requires
            total_order::<K>(),
            old(self).wf(),
            old(self).keys.len() < 2 * D - 1,
            key.pointed_node is None,
        ensures
            final(self).wf(),
            final(self).type_ == old(self).type_,
            final(self).height() == old(self).height(),
            exists|found: bool, at: int|
                #![trigger old(self).located(key.key, found, at)]
                old(self).located(key.key, found, at) && final(self).keys.len() == old(self)
                    .keys_after_insert(found, at),
            final(self)@ == old(self)@.insert(key.key, key.value),
            r == lookup(old(self)@, key.key),
        decreases old(self).height(), 1int,
    {
        proof {
            self.lemma_child(0);
        }
        if self.is_leaf() {
            self.insert_inner_leaf(key)
        } else {
            self.insert_inner_internal(key)
        }
    }

    /// Maps `key` to `value` in the tree rooted at this node, and returns
    /// the value `key` was mapped to before, if any. A full root is first
    /// split in place, which adds a level.
    pub fn insert(&mut self, key: K, value: V) -> (r: Option<V>)
        requires
            total_order::<K>(),
            old(self).wf(),
            old(self).last_node is Some ==> old(self).keys.len() >= 1,
        ensures
            final(self).wf(),
            final(self).height() == old(self).height() + (if old(self).keys.len() == 2 * D - 1 {
                1int
            } else {
                0int
            }),
            final(self).last_node is Some ==> final(self).keys.len() >= 1,
            final(self)@ == old(self)@.insert(key, value),
            r == lookup(old(self)@, key),
    {
        if self.keys.len() == 2 * D - 1 {
            self.split_root();
        }
        let ghost mid = *self;
        let r = self.insert_inner(Key::new(key, value));
        proof {
            if self.last_node is Some && mid.last_node is None {
                assert(self.type_ is Internal);
            }
        }
        r
    }

    /// Inserts the pairs of `keys`, first to last, into the tree rooted at
    /// this node. The subtrees that the records may own are dropped.
    pub fn insert_keys(&mut self, keys: Vec<Key<K, V, D>>)
        requires
            total_order::<K>(),
            old(self).wf(),
            old(self).last_node is Some ==> old(self).keys.len() >= 1,
        ensures
            final(self).wf(),
            final(self).last_node is Some ==> final(self).keys.len() >= 1,
            final(self)@ == inserted_all(old(self)@, keys@.map_values(|k: Key<K, V, D>| k.pair())),
    {
        let ghost start = self@;
        let ghost pairs = keys@.map_values(|k: Key<K, V, D>| k.pair());
        proof {
            assert(pairs.take(0) =~= Seq::<(K, V)>::empty());
        }
        for key in it: keys
            invariant
                total_order::<K>(),
                self.wf(),
                self.last_node is Some ==> self.keys.len() >= 1,
                it.seq().len() == pairs.len(),
                forall|j: int| 0 <= j < pairs.len() ==> it.seq()[j].pair() == #[trigger] pairs[j],
                self@ == inserted_all(start, pairs.take(it.index() as int)),
        {
            proof {
                let i = it.index() as int;
                assert(pairs.take(i + 1).drop_last() =~= pairs.take(i));
                assert(pairs.take(i + 1).last() == key.pair());
            }
            self.insert(key.key, key.value);
        }
        proof {
            assert(pairs.take(pairs.len() as int) =~= pairs);
        }
    }
}

} // verus!
