use crate::key::Key;
use crate::node::{lemma_flat_concat, lemma_flat_one, subtree, Node};
use vstd::prelude::*;

verus! {

impl<K, V, const D: usize> Node<K, V, D> {
    /// Moves one key from the front of this node, through the separator
    /// `parent_key`, to the back of `left_sibling`: the separator's pair
    /// becomes the sibling's last key, this node's first pair becomes the
    /// separator, and the subtree that hung left of that first key becomes
    /// the sibling's trailing subtree. Fails, changing nothing, when this
    /// node has no key to give.
    pub fn slide_one_key_to_left_sibling(
        &mut self,
        left_sibling: &mut Self,
        parent_key: &mut Key<K, V, D>,
    ) -> (r: Result<(), ()>)
        ensures
            r is Err <==> old(self).keys.len() == 0,
            r is Err ==> *final(self) == *old(self) && *final(left_sibling) == *old(left_sibling)
                && *final(parent_key) == *old(parent_key),
            r is Ok ==> {
                &&& final(self).keys@ == old(self).keys@.drop_first()
                &&& final(self).last_node == old(self).last_node
                &&& final(self).type_ == old(self).type_
                &&& final(parent_key).pair() == old(self).keys[0].pair()
                &&& final(parent_key).pointed_node == old(parent_key).pointed_node
                &&& final(left_sibling).keys@ == old(left_sibling).keys@.push(
                    Key {
                        key: old(parent_key).key,
                        value: old(parent_key).value,
                        pointed_node: old(left_sibling).last_node,
                    },
                )
                &&& final(left_sibling).last_node == old(self).keys[0].pointed_node
                &&& final(left_sibling).type_ == old(left_sibling).type_
            },
    {
        if self.keys.len() == 0 {
            return Err(());
        }
        let mut first = self.keys.remove(0);
        let moved = first.pointed_node.take();
        core::mem::swap(&mut first.key, &mut parent_key.key);
        core::mem::swap(&mut first.value, &mut parent_key.value);
        first.pointed_node = left_sibling.last_node.take();
        left_sibling.last_node = moved;
        left_sibling.keys.push(first);
        proof {
            assert(self.keys@ =~= old(self).keys@.drop_first());
        }
        Ok(())
    }

    /// Moves one key from the back of this node, through the separator
    /// `parent_key`, to the front of `right_sibling`: the separator's pair
    /// becomes the sibling's first key, owning this node's old trailing
    /// subtree; this node's last pair becomes the separator, and the subtree
    /// that hung left of that last key becomes this node's trailing subtree.
    /// Fails, changing nothing, when this node has no key to give.
    pub fn slide_one_key_to_right_sibling(
        &mut self,
        right_sibling: &mut Self,
        parent_key: &mut Key<K, V, D>,
    ) -> (r: Result<(), ()>)
        ensures
            r is Err <==> old(self).keys.len() == 0,
            r is Err ==> *final(self) == *old(self) && *final(right_sibling) == *old(right_sibling)
                && *final(parent_key) == *old(parent_key),
            r is Ok ==> {
                &&& final(self).keys@ == old(self).keys@.drop_last()
                &&& final(self).last_node == old(self).keys@.last().pointed_node
                &&& final(self).type_ == old(self).type_
                &&& final(parent_key).pair() == old(self).keys@.last().pair()
                &&& final(parent_key).pointed_node == old(parent_key).pointed_node
                &&& final(right_sibling).keys@ == old(right_sibling).keys@.insert(
                    0,
                    Key {
                        key: old(parent_key).key,
                        value: old(parent_key).value,
                        pointed_node: old(self).last_node,
                    },
                )
                &&& final(right_sibling).last_node == old(right_sibling).last_node
                &&& final(right_sibling).type_ == old(right_sibling).type_
            },
    {
        if self.keys.len() == 0 {
            return Err(());
        }
        let mut last = self.keys.pop().unwrap();
        let moved = last.pointed_node.take();
        core::mem::swap(&mut last.key, &mut parent_key.key);
        core::mem::swap(&mut last.value, &mut parent_key.value);
        last.pointed_node = self.last_node.take();
        self.last_node = moved;
        right_sibling.keys.insert(0, last);
        proof {
            assert(self.keys@ =~= old(self).keys@.drop_last());
        }
        Ok(())
    }

    /// What a slide to the left does to the contents and shape of the two
    /// siblings: `giver` and `taker` before, `giver2` and `taker2` after.
    pub proof fn lemma_slid_left(giver: Self, taker: Self, sep: (K, V), giver2: Self, taker2: Self)
        requires
            giver.keys.len() > 0,
            giver2.keys@ == giver.keys@.drop_first(),
            giver2.last_node == giver.last_node,
            giver2.type_ == giver.type_,
            taker2.keys@ == taker.keys@.push(
                Key { key: sep.0, value: sep.1, pointed_node: taker.last_node },
            ),
            taker2.last_node == giver.keys[0].pointed_node,
            taker2.type_ == taker.type_,
        ensures
            taker2.entries() == taker.entries() + seq![sep] + subtree(giver.keys[0].pointed_node),
            giver.entries() == subtree(giver.keys[0].pointed_node) + seq![giver.keys[0].pair()]
                + giver2.entries(),
            giver.shaped() && taker.shaped() && giver.height() == taker.height()
                && taker.keys.len() < 2 * D - 1 ==> giver2.shaped() && taker2.shaped()
                && giver2.height() == giver.height() && taker2.height() == giver.height(),
    {
        let joint = Key { key: sep.0, value: sep.1, pointed_node: taker.last_node };
        assert(taker.keys@.push(joint) =~= taker.keys@ + seq![joint]);
        lemma_flat_concat(taker.keys@, seq![joint]);
        lemma_flat_one(joint);
        assert(taker2.entries() =~= taker.entries() + seq![sep] + subtree(
            giver.keys[0].pointed_node,
        ));
        assert(giver.keys@ =~= seq![giver.keys[0]] + giver2.keys@);
        lemma_flat_concat(seq![giver.keys[0]], giver2.keys@);
        lemma_flat_one(giver.keys[0]);
        assert(giver.entries() =~= subtree(giver.keys[0].pointed_node) + seq![
            giver.keys[0].pair(),
        ] + giver2.entries());
        if giver.shaped() && taker.shaped() && giver.height() == taker.height() && taker.keys.len()
            < 2 * D - 1 {
            let n = taker.keys.len() as int;
            match giver.last_node {
                None => {
                    assert(giver.keys[0].pointed_node is None);
                    assert forall|j: int| 0 <= j < giver2.keys.len() implies (
                    #[trigger] giver2.keys[j]).pointed_node is None by {
                        assert(giver.keys[j + 1].pointed_node is None);
                    }
                    assert forall|j: int| 0 <= j < taker2.keys.len() implies (
                    #[trigger] taker2.keys[j]).pointed_node is None by {
                        if j < n {
                            assert(taker.keys[j].pointed_node is None);
                        }
                    }
                },
                Some(last) => {
                    let h = last.height();
                    assert(Self::fits_below(giver.keys[0].pointed_node, h));
                    assert forall|j: int| 0 <= j < giver2.keys.len() implies Self::fits_below(
                        (#[trigger] giver2.keys[j]).pointed_node,
                        h,
                    ) by {
                        assert(Self::fits_below(giver.keys[j + 1].pointed_node, h));
                    }
                    assert forall|j: int| 0 <= j < taker2.keys.len() implies Self::fits_below(
                        (#[trigger] taker2.keys[j]).pointed_node,
                        h,
                    ) by {
                        if j < n {
                            assert(Self::fits_below(taker.keys[j].pointed_node, h));
                        }
                    }
                },
            }
        }
    }

    /// What a slide to the right does to the contents and shape of the two
    /// siblings: `giver` and `taker` before, `giver2` and `taker2` after.
    pub proof fn lemma_slid_right(giver: Self, taker: Self, sep: (K, V), giver2: Self, taker2: Self)
        requires
            giver.keys.len() > 0,
            giver2.keys@ == giver.keys@.drop_last(),
            giver2.last_node == giver.keys@.last().pointed_node,
            giver2.type_ == giver.type_,
            taker2.keys@ == taker.keys@.insert(
                0,
                Key { key: sep.0, value: sep.1, pointed_node: giver.last_node },
            ),
            taker2.last_node == taker.last_node,
            taker2.type_ == taker.type_,
        ensures
            taker2.entries() == subtree(giver.last_node) + seq![sep] + taker.entries(),
            giver.entries() == giver2.entries() + seq![giver.keys@.last().pair()] + subtree(
                giver.last_node,
            ),
            giver.shaped() && taker.shaped() && giver.height() == taker.height()
                && taker.keys.len() < 2 * D - 1 ==> giver2.shaped() && taker2.shaped()
                && giver2.height() == giver.height() && taker2.height() == giver.height(),
    {
        let joint = Key { key: sep.0, value: sep.1, pointed_node: giver.last_node };
        assert(taker.keys@.insert(0, joint) =~= seq![joint] + taker.keys@);
        lemma_flat_concat(seq![joint], taker.keys@);
        lemma_flat_one(joint);
        assert(taker2.entries() =~= subtree(giver.last_node) + seq![sep] + taker.entries());
        let m = giver.keys.len() - 1;
        assert(giver.entries() =~= giver2.entries() + seq![giver.keys@.last().pair()] + subtree(
            giver.last_node,
        ));
        if giver.shaped() && taker.shaped() && giver.height() == taker.height() && taker.keys.len()
            < 2 * D - 1 {
            match giver.last_node {
                None => {
                    assert(giver.keys[m].pointed_node is None);
                    assert forall|j: int| 0 <= j < giver2.keys.len() implies (
                    #[trigger] giver2.keys[j]).pointed_node is None by {
                        assert(giver.keys[j].pointed_node is None);
                    }
                    assert forall|j: int| 0 <= j < taker2.keys.len() implies (
                    #[trigger] taker2.keys[j]).pointed_node is None by {
                        if j > 0 {
                            assert(taker.keys[j - 1].pointed_node is None);
                        }
                    }
                },
                Some(last) => {
                    let h = last.height();
                    assert(Self::fits_below(giver.keys[m].pointed_node, h));
                    assert forall|j: int| 0 <= j < giver2.keys.len() implies Self::fits_below(
                        (#[trigger] giver2.keys[j]).pointed_node,
                        h,
                    ) by {
                        assert(Self::fits_below(giver.keys[j].pointed_node, h));
                    }
                    assert forall|j: int| 0 <= j < taker2.keys.len() implies Self::fits_below(
                        (#[trigger] taker2.keys[j]).pointed_node,
                        h,
                    ) by {
                        if j > 0 {
                            assert(Self::fits_below(taker.keys[j - 1].pointed_node, h));
                        }
                    }
                },
            }
        }
    }

    /// `self` and `other` differ at most in key `i` and in what hangs in the
    /// two child slots beside it.
    pub open spec fn same_but_pair(self, other: Self, i: int) -> bool {
        &&& other.type_ == self.type_
        &&& other.keys.len() == self.keys.len()
        &&& forall|j: int|
            0 <= j < self.keys.len() && j != i && j != i + 1 ==> (#[trigger] other.keys[j])
                == self.keys[j]
        &&& i + 1 < self.keys.len() ==> other.keys[i + 1].pair() == self.keys[i + 1].pair()
            && other.last_node == self.last_node
    }

    /// How the traversal passes around key `i`, and what stays as it was
    /// when only that key and the two children beside it are rearranged.
    pub proof fn lemma_pair_frame(self, after: Self, i: int)
        requires
            0 <= i < self.keys.len(),
            self.same_but_pair(after, i),
        ensures
            after.pre(i) == self.pre(i),
            after.post(i + 1) == self.post(i + 1),
            self.entries() == self.pre(i) + subtree(self.child(i)) + seq![self.keys[i].pair()]
                + subtree(self.child(i + 1)) + self.post(i + 1),
            after.entries() == self.pre(i) + subtree(after.child(i)) + seq![after.keys[i].pair()]
                + subtree(after.child(i + 1)) + self.post(i + 1),
            self.shaped() && self.last_node is Some && Self::fits_below(
                after.child(i),
                (self.height() - 1) as nat,
            ) && Self::fits_below(after.child(i + 1), (self.height() - 1) as nat)
                ==> after.shaped() && after.height() == self.height(),
    {
        assert(after.keys@.take(i) =~= self.keys@.take(i));
        if i + 1 < self.keys.len() {
            assert(after.keys@.skip(i + 2) =~= self.keys@.skip(i + 2));
        }
        assert(after.post(i + 1) =~= self.post(i + 1));
        self.lemma_entries_at(i);
        self.lemma_post_step(i);
        after.lemma_entries_at(i);
        after.lemma_post_step(i);
        assert(self.entries() =~= self.pre(i) + subtree(self.child(i)) + seq![self.keys[i].pair()]
            + subtree(self.child(i + 1)) + self.post(i + 1));
        assert(after.entries() =~= self.pre(i) + subtree(after.child(i)) + seq![
            after.keys[i].pair(),
        ] + subtree(after.child(i + 1)) + self.post(i + 1));
        if self.shaped() && self.last_node is Some && Self::fits_below(
            after.child(i),
            (self.height() - 1) as nat,
        ) && Self::fits_below(after.child(i + 1), (self.height() - 1) as nat) {
            let h = self.last_node.unwrap().height();
            assert(after.last_node is Some);
            assert(after.last_node.unwrap().height() == h);
            assert forall|j: int| 0 <= j < after.keys.len() implies Self::fits_below(
                (#[trigger] after.keys[j]).pointed_node,
                h,
            ) by {
                if j != i && j != i + 1 {
                    assert(Self::fits_below(self.keys[j].pointed_node, h));
                }
            }
        }
    }

    /// Rearranging key `i` and the two children beside it, keeping their
    /// joint traversal, keeps the traversal of the whole subtree.
    pub proof fn lemma_pair_replaced(self, after: Self, i: int)
        requires
            0 <= i < self.keys.len(),
            self.same_but_pair(after, i),
            subtree(after.child(i)) + seq![after.keys[i].pair()] + subtree(after.child(i + 1))
                == subtree(self.child(i)) + seq![self.keys[i].pair()] + subtree(self.child(i + 1)),
        ensures
            after.entries() == self.entries(),
            after.pre(i) == self.pre(i),
            after.post(i + 1) == self.post(i + 1),
            self.shaped() && self.last_node is Some && Self::fits_below(
                after.child(i),
                (self.height() - 1) as nat,
            ) && Self::fits_below(after.child(i + 1), (self.height() - 1) as nat)
                ==> after.shaped() && after.height() == self.height(),
    {
        self.lemma_pair_frame(after, i);
        let mid_a = subtree(after.child(i)) + seq![after.keys[i].pair()] + subtree(
            after.child(i + 1),
        );
        let mid_b = subtree(self.child(i)) + seq![self.keys[i].pair()] + subtree(
            self.child(i + 1),
        );
        assert(after.entries() =~= self.pre(i) + mid_a + self.post(i + 1));
        assert(self.entries() =~= self.pre(i) + mid_b + self.post(i + 1));
    }

    /// Rotates one key to the left through separator `index`: the child to
    /// the right of the separator gives its first key up, and the separator
    /// comes down to the end of the child on its left. What the subtree
    /// holds, and in what order, does not change.
    pub fn rotate_left_from_right(&mut self, index: usize)
        requires
            old(self).shaped(),
            old(self).last_node is Some,
            index < old(self).keys.len(),
            old(self).child(index as int).unwrap().keys.len() < 2 * D - 1,
            old(self).child(index + 1).unwrap().keys.len() >= D,
        ensures
            final(self).shaped(),
            final(self).keys.len() == old(self).keys.len(),
            final(self).height() == old(self).height(),
            final(self).entries() == old(self).entries(),
            final(self).child(index as int).unwrap().keys.len() == old(self).child(
                index as int,
            ).unwrap().keys.len() + 1,
            final(self).child(index + 1).unwrap().keys.len() == old(self).child(
                index + 1,
            ).unwrap().keys.len() - 1,
            final(self).pre(index as int) == old(self).pre(index as int),
            final(self).post(index as int).is_suffix_of(old(self).post(index as int)),
            old(self).same_but_pair(*final(self), index as int),
            final(self).keys[index as int].pair() == old(self).child(
                index + 1,
            ).unwrap().keys[0].pair(),
            final(self).child(index as int).unwrap().keys@ == old(self).child(
                index as int,
            ).unwrap().keys@.push(
                Key {
                    key: old(self).keys[index as int].key,
                    value: old(self).keys[index as int].value,
                    pointed_node: old(self).child(index as int).unwrap().last_node,
                },
            ),
            final(self).child(index as int).unwrap().last_node == old(self).child(
                index + 1,
            ).unwrap().keys[0].pointed_node,
            final(self).child(index + 1).unwrap().keys@ == old(self).child(
                index + 1,
            ).unwrap().keys@.drop_first(),
            final(self).child(index + 1).unwrap().last_node == old(self).child(
                index + 1,
            ).unwrap().last_node,
    {
        let ghost before = *self;
        let ghost i = index as int;
        proof {
            before.lemma_child(i);
            before.lemma_child(i + 1);
        }
        let mut left = self.take_child(index);
        let mut right = self.take_child(index + 1);
        let ghost l = *left;
        let ghost r = *right;
        let _ = right.slide_one_key_to_left_sibling(&mut left, &mut self.keys[index]);
        let ghost l2 = *left;
        let ghost r2 = *right;
        self.put_child(index, left);
        self.put_child(index + 1, right);
        proof {
            let sep = before.keys[i].pair();
            let moved = subtree(r.keys[0].pointed_node);
            Self::lemma_slid_left(r, l, sep, r2, l2);
            assert(self.child(i) == Some(Box::new(l2)));
            assert(self.child(i + 1) == Some(Box::new(r2)));
            assert(self.keys[i].pair() == r.keys[0].pair());
            assert(subtree(self.child(i)) + seq![self.keys[i].pair()] + subtree(self.child(i + 1))
                =~= subtree(before.child(i)) + seq![sep] + subtree(before.child(i + 1)));
            before.lemma_pair_replaced(*self, i);
            before.lemma_post_step(i);
            self.lemma_post_step(i);
            assert(before.post(i) =~= (seq![sep] + moved) + self.post(i));
            assert(self.post(i).is_suffix_of(before.post(i)));
        }
    }

    /// Rotates one key to the right through separator `index`: the child to
    /// the left of the separator gives its last key up, and the separator
    /// comes down to the front of the child on its right. What the subtree
    /// holds, and in what order, does not change.
    pub fn rotate_right_from_left(&mut self, index: usize)
        requires
            old(self).shaped(),
            old(self).last_node is Some,
            index < old(self).keys.len(),
            old(self).child(index as int).unwrap().keys.len() >= D,
            old(self).child(index + 1).unwrap().keys.len() < 2 * D - 1,
        ensures
            final(self).shaped(),
            final(self).keys.len() == old(self).keys.len(),
            final(self).height() == old(self).height(),
            final(self).entries() == old(self).entries(),
            final(self).child(index as int).unwrap().keys.len() == old(self).child(
                index as int,
            ).unwrap().keys.len() - 1,
            final(self).child(index + 1).unwrap().keys.len() == old(self).child(
                index + 1,
            ).unwrap().keys.len() + 1,
            final(self).pre(index + 1).is_prefix_of(old(self).pre(index + 1)),
            final(self).post(index + 1) == old(self).post(index + 1),
            old(self).same_but_pair(*final(self), index as int),
            final(self).keys[index as int].pair() == old(self).child(
                index as int,
            ).unwrap().keys@.last().pair(),
            final(self).child(index as int).unwrap().keys@ == old(self).child(
                index as int,
            ).unwrap().keys@.drop_last(),
            final(self).child(index as int).unwrap().last_node == old(self).child(
                index as int,
            ).unwrap().keys@.last().pointed_node,
            final(self).child(index + 1).unwrap().keys@ == old(self).child(
                index + 1,
            ).unwrap().keys@.insert(
                0,
                Key {
                    key: old(self).keys[index as int].key,
                    value: old(self).keys[index as int].value,
                    pointed_node: old(self).child(index as int).unwrap().last_node,
                },
            ),
            final(self).child(index + 1).unwrap().last_node == old(self).child(
                index + 1,
            ).unwrap().last_node,
    {
        let ghost before = *self;
        let ghost i = index as int;
        proof {
            before.lemma_child(i);
            before.lemma_child(i + 1);
        }
        let mut left = self.take_child(index);
        let mut right = self.take_child(index + 1);
        let ghost l = *left;
        let ghost r = *right;
        let _ = left.slide_one_key_to_right_sibling(&mut right, &mut self.keys[index]);
        let ghost l2 = *left;
        let ghost r2 = *right;
        self.put_child(index, left);
        self.put_child(index + 1, right);
        proof {
            let sep = before.keys[i].pair();
            let moved = subtree(l.last_node);
            Self::lemma_slid_right(l, r, sep, l2, r2);
            assert(self.child(i) == Some(Box::new(l2)));
            assert(self.child(i + 1) == Some(Box::new(r2)));
            assert(self.keys[i].pair() == l.keys@.last().pair());
            assert(subtree(self.child(i)) + seq![self.keys[i].pair()] + subtree(self.child(i + 1))
                =~= subtree(before.child(i)) + seq![sep] + subtree(before.child(i + 1)));
            before.lemma_pair_replaced(*self, i);
            before.lemma_pre_step(i);
            self.lemma_pre_step(i);
            assert(before.pre(i + 1) =~= self.pre(i + 1) + (moved + seq![sep]));
            assert(self.pre(i + 1).is_prefix_of(before.pre(i + 1)));
        }
    }
}

} // verus!
