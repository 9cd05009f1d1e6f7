use crate::key::Key;
use crate::node::{lemma_flat_concat, lemma_flat_one, subtree, Node};
use vstd::prelude::*;

verus! {

impl<K, V, const D: usize> Node<K, V, D> {
    /// A node made of the records of `left`, a separator and the records of
    /// `right` holds their contents in that order, and is well shaped when
    /// both halves are minimal siblings.
    pub proof fn lemma_merged(left: Self, sep: (K, V), right: Self, merged: Self)
        requires
            merged.keys@ == left.keys@.push(
                Key { key: sep.0, value: sep.1, pointed_node: left.last_node },
            ) + right.keys@,
            merged.last_node == right.last_node,
            merged.type_ == left.type_,
        ensures
            merged.entries() == left.entries() + seq![sep] + right.entries(),
            left.shaped() && right.shaped() && left.height() == right.height() && left.keys.len()
                + right.keys.len() + 2 <= 2 * D ==> merged.shaped() && merged.height()
                == left.height(),
    {
        let joint = Key { key: sep.0, value: sep.1, pointed_node: left.last_node };
        let one = seq![joint];
        assert(left.keys@.push(joint) =~= left.keys@ + one);
        lemma_flat_concat(left.keys@ + one, right.keys@);
        lemma_flat_concat(left.keys@, one);
        lemma_flat_one(joint);
        assert(merged.entries() =~= left.entries() + seq![sep] + right.entries());
        if left.shaped() && right.shaped() && left.height() == right.height() && left.keys.len()
            + right.keys.len() + 2 <= 2 * D {
            let n = left.keys.len() as int;
            match right.last_node {
                None => {
                    assert forall|j: int| 0 <= j < merged.keys.len() implies (
                    #[trigger] merged.keys[j]).pointed_node is None by {
                        if j < n {
                            assert(left.keys[j].pointed_node is None);
                        } else if j > n {
                            assert(right.keys[j - n - 1].pointed_node is None);
                        }
                    }
                },
                Some(last) => {
                    let h = last.height();
                    assert forall|j: int| 0 <= j < merged.keys.len() implies Self::fits_below(
                        (#[trigger] merged.keys[j]).pointed_node,
                        h,
                    ) by {
                        if j < n {
                            assert(Self::fits_below(left.keys[j].pointed_node, h));
                        } else if j > n {
                            assert(Self::fits_below(right.keys[j - n - 1].pointed_node, h));
                        }
                    }
                },
            }
        }
    }

    /// What `merge_childs` leaves behind: `after` is `before` without key
    /// `i`, with `merged` where the two children beside that key were.
    proof fn lemma_merge_children(before: Self, after: Self, i: int, merged: Self)
        requires
            before.shaped(),
            before.last_node is Some,
            0 <= i < before.keys.len(),
            after.type_ == before.type_,
            after.keys.len() == before.keys.len() - 1,
            forall|j: int| 0 <= j < i ==> (#[trigger] after.keys[j]) == before.keys[j],
            forall|j: int|
                i < j < after.keys.len() ==> (#[trigger] after.keys[j]) == before.keys[j + 1],
            after.child(i) == Some(Box::new(merged)),
            i < after.keys.len() ==> after.keys[i].pair() == before.keys[i + 1].pair()
                && after.last_node == before.last_node,
            merged.entries() == subtree(before.child(i)) + seq![before.keys[i].pair()] + subtree(
                before.child(i + 1),
            ),
            merged.shaped(),
            merged.height() + 1 == before.height(),
            merged.keys.len() >= D - 1,
        ensures
            after.shaped(),
            after.height() == before.height(),
            after.entries() == before.entries(),
            after.pre(i) == before.pre(i),
            after.post(i) == before.post(i + 1),
    {
        let h = before.last_node.unwrap().height();
        assert(after.last_node.unwrap().height() == h);
        assert forall|j: int| 0 <= j < after.keys.len() implies Self::fits_below(
            (#[trigger] after.keys[j]).pointed_node,
            h,
        ) by {
            if j < i {
                assert(Self::fits_below(before.keys[j].pointed_node, h));
            } else if j > i {
                assert(Self::fits_below(before.keys[j + 1].pointed_node, h));
            }
        }
        before.lemma_entries_at(i);
        before.lemma_post_step(i);
        after.lemma_entries_at(i);
        assert(after.keys@.take(i) =~= before.keys@.take(i));
        if i < after.keys.len() {
            assert(after.keys@.skip(i + 1) =~= before.keys@.skip(i + 2));
        }
        assert(after.post(i) =~= before.post(i + 1));
        assert(after.entries() =~= before.entries());
    }

    /// Merges the two minimal children beside key `index`: the left one
    /// absorbs the key and then the right one's records, and takes the slot;
    /// the key and the right child leave this node. What the subtree holds,
    /// and in what order, does not change.
    pub fn merge_childs(&mut self, index: usize)
        requires
            old(self).shaped(),
            old(self).last_node is Some,
            index < old(self).keys.len(),
            old(self).child(index as int).unwrap().keys.len() == D - 1,
            old(self).child(index + 1).unwrap().keys.len() == D - 1,
        ensures
            final(self).shaped(),
            final(self).keys.len() == old(self).keys.len() - 1,
            final(self).height() == old(self).height(),
            final(self).entries() == old(self).entries(),
            final(self).child(index as int).unwrap().keys.len() == 2 * D - 1,
            final(self).child(index as int).unwrap().entries() == subtree(
                old(self).child(index as int),
            ) + seq![old(self).keys[index as int].pair()] + subtree(old(self).child(index + 1)),
            final(self).pre(index as int) == old(self).pre(index as int),
            final(self).post(index as int) == old(self).post(index + 1),
            forall|j: int| 0 <= j < index ==> (#[trigger] final(self).keys[j]) == old(self).keys[j],
            forall|j: int|
                index < j < final(self).keys.len() ==> (#[trigger] final(self).keys[j]) == old(self)
                    .keys[j + 1],
            index < final(self).keys.len() ==> final(self).keys[index as int].pair() == old(self)
                .keys[index + 1].pair() && final(self).last_node == old(self).last_node,
            final(self).child(index as int).unwrap().keys@ == old(self).child(
                index as int,
            ).unwrap().keys@.push(
                Key {
                    key: old(self).keys[index as int].key,
                    value: old(self).keys[index as int].value,
                    pointed_node: old(self).child(index as int).unwrap().last_node,
                },
            ) + old(self).child(index + 1).unwrap().keys@,
            final(self).child(index as int).unwrap().last_node == old(self).child(
                index + 1,
            ).unwrap().last_node,
    {
        let ghost before = *self;
        proof {
            before.lemma_child(index as int);
            before.lemma_child(index + 1);
        }
        let mut sep = self.keys.remove(index);
        let mut left = sep.pointed_node.take().unwrap();
        let mut right = self.take_child(index);
        let ghost l = *left;
        let ghost r = *right;
        sep.pointed_node = left.last_node.take();
        left.keys.push(sep);
        left.keys.append(&mut right.keys);
        left.last_node = right.last_node.take();
        proof {
            Self::lemma_merged(l, before.keys[index as int].pair(), r, *left);
        }
        self.put_child(index, left);
        proof {
            Self::lemma_merge_children(before, *self, index as int, *left);
        }
    }
}

} // verus!
