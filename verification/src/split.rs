use crate::btree::MAXIMUM_LOWER_BOUND;
use crate::key::Key;
use crate::node::{lemma_flat_one, subtree, Node, NodeType};
use vstd::prelude::*;

verus! {

impl<K, V, const D: usize> Node<K, V, D> {
    /// An empty run of key records, with room for a full node where the
    /// minimum degree is within bounds.
    pub fn new_keys() -> (r: Vec<Key<K, V, D>>)
        ensures
            r@ == Seq::<Key<K, V, D>>::empty(),
    {
        if D <= MAXIMUM_LOWER_BOUND {
            Vec::with_capacity(D * 2)
        } else {
            Vec::new()
        }
    }

    /// Makes `key` the only key of this node.
    pub fn init_keys(&mut self, key: Key<K, V, D>)
        ensures
            final(self).keys@ == seq![key],
            final(self).last_node == old(self).last_node,
            final(self).type_ == old(self).type_,
    {
        self.keys = Self::new_keys();
        self.keys.push(key);
    }

    /// Takes a full node apart around its median key, the key at index
    /// `D-1`: returns a node with the `D-1` keys below the median, the
    /// median owning no subtree, and a node with the `D-1` keys above it,
    /// both of this node's type. This node is left without keys or
    /// children.
    pub fn split_inner(&mut self) -> (r: (Node<K, V, D>, Key<K, V, D>, Node<K, V, D>))
        requires
            old(self).shaped(),
            old(self).keys.len() == 2 * D - 1,
        ensures
            final(self).keys@ == Seq::<Key<K, V, D>>::empty(),
            final(self).last_node is None,
            final(self).type_ == old(self).type_,
            r.0.keys@ == old(self).keys@.take(D - 1),
            r.0.last_node == old(self).keys[D - 1].pointed_node,
            r.0.type_ == old(self).type_,
            r.1.pair() == old(self).keys[D - 1].pair(),
            r.1.pointed_node is None,
            r.2.keys@ == old(self).keys@.skip(D as int),
            r.2.last_node == old(self).last_node,
            r.2.type_ == old(self).type_,
            r.0.shaped(),
            r.2.shaped(),
            r.0.height() == old(self).height(),
            r.2.height() == old(self).height(),
            old(self).entries() == r.0.entries() + seq![r.1.pair()] + r.2.entries(),
    {
        let ghost before = *self;
        proof {
            before.lemma_child(D - 1);
            before.lemma_entries_at(D - 1);
        }
        let mut left_keys = Self::new_keys();
        core::mem::swap(&mut self.keys, &mut left_keys);
        let right_keys = left_keys.split_off(D);
        let mut median = left_keys.pop().unwrap();
        let left_last = median.pointed_node.take();
        let right_last = self.last_node.take();
        let left = Node::new(left_keys, left_last, self.type_);
        let right = Node::new(right_keys, right_last, self.type_);
        proof {
            assert(left.keys@ =~= before.keys@.take(D - 1));
            assert(right.keys@ =~= before.keys@.skip(D as int));
            assert forall|i: int| 0 <= i < left.keys.len() implies (#[trigger] left.keys[i])
                == before.keys[i] by {}
            assert forall|i: int| 0 <= i < right.keys.len() implies (#[trigger] right.keys[i])
                == before.keys[i + D] by {}
            match before.last_node {
                None => {
                    assert forall|i: int| 0 <= i < right.keys.len() implies (
                    #[trigger] right.keys[i]).pointed_node is None by {
                        assert(before.keys[i + D].pointed_node is None);
                    }
                },
                Some(last) => {
                    assert forall|i: int| 0 <= i < left.keys.len() implies Self::fits_below(
                        (#[trigger] left.keys[i]).pointed_node,
                        last.height(),
                    ) by {
                        assert(Self::fits_below(before.keys[i].pointed_node, last.height()));
                    }
                    assert forall|i: int| 0 <= i < right.keys.len() implies Self::fits_below(
                        (#[trigger] right.keys[i]).pointed_node,
                        last.height(),
                    ) by {
                        assert(Self::fits_below(before.keys[i + D].pointed_node, last.height()));
                    }
                },
            }
            assert(before.entries() =~= left.entries() + seq![median.pair()] + right.entries());
        }
        (left, median, right)
    }

    /// Splits a full node around its median key. The node keeps the `D-1`
    /// keys above the median; the median is returned, owning a new node of
    /// the same type with the `D-1` keys below it.
    pub fn split(&mut self) -> (r: Key<K, V, D>)
        requires
            old(self).shaped(),
            old(self).keys.len() == 2 * D - 1,
        ensures
            final(self).keys@ == old(self).keys@.skip(D as int),
            final(self).last_node == old(self).last_node,
            final(self).type_ == old(self).type_,
            r.pair() == old(self).keys[D - 1].pair(),
            r.pointed_node is Some,
            r.pointed_node.unwrap().keys@ == old(self).keys@.take(D - 1),
            r.pointed_node.unwrap().last_node == old(self).keys[D - 1].pointed_node,
            r.pointed_node.unwrap().type_ == old(self).type_,
            final(self).shaped(),
            r.pointed_node.unwrap().shaped(),
            final(self).height() == old(self).height(),
            r.pointed_node.unwrap().height() == old(self).height(),
            old(self).entries() == subtree(r.pointed_node) + seq![r.pair()] + final(self).entries(),
    {
        let (left, mut median, right) = self.split_inner();
        *self = right;
        median.pointed_node = left.into_ptr();
        median
    }

    /// Moves the upper half of this node's key records, `len / 2` of them,
    /// to a new node of the same type without a trailing subtree, hangs
    /// that node on `new_parent` and hands `new_parent` back.
    pub fn split_into_parent<'a>(&mut self, new_parent: &'a mut Key<K, V, D>) -> (r: &'a mut Key<
        K,
        V,
        D,
    >)
        ensures
            final(self).keys@ == old(self).keys@.take(
                old(self).keys.len() - old(self).keys.len() / 2,
            ),
            final(self).last_node == old(self).last_node,
            final(self).type_ == old(self).type_,
            r.key == old(new_parent).key,
            r.value == old(new_parent).value,
            r.pointed_node is Some,
            r.pointed_node.unwrap().keys@ == old(self).keys@.skip(
                old(self).keys.len() - old(self).keys.len() / 2,
            ),
            r.pointed_node.unwrap().last_node is None,
            r.pointed_node.unwrap().type_ == old(self).type_,
            *final(new_parent) == *final(r),
    {
        let keep: usize = self.keys.len() - self.keys.len() / 2;
        let moved = self.keys.split_off(keep);
        let new_node = Node::new(moved, None, self.type_);
        new_parent.set_pointed_node(new_node.boxed());
        new_parent
    }

    /// What `split_node_pointed_by_key` leaves behind: `after` is `before`
    /// with the child in slot `i` replaced by `left`, the median `m` and
    /// `right`.
    proof fn lemma_split_child(
        before: Self,
        after: Self,
        i: int,
        left: Self,
        m: Key<K, V, D>,
        right: Self,
    )
        requires
            before.shaped(),
            before.last_node is Some,
            0 <= i <= before.keys.len() < 2 * D - 1,
            left.shaped(),
            right.shaped(),
            left.keys.len() == D - 1,
            right.keys.len() == D - 1,
            left.height() + 1 == before.height(),
            right.height() + 1 == before.height(),
            subtree(before.child(i)) == left.entries() + seq![m.pair()] + right.entries(),
            after.type_ == before.type_,
            after.keys.len() == before.keys.len() + 1,
            forall|j: int| 0 <= j < i ==> (#[trigger] after.keys[j]) == before.keys[j],
            after.keys[i].pair() == m.pair(),
            after.keys[i].pointed_node == Some(Box::new(left)),
            forall|j: int|
                i + 1 < j <= before.keys.len() ==> (#[trigger] after.keys[j]) == before.keys[j - 1],
            after.child(i + 1) == Some(Box::new(right)),
            i < before.keys.len() ==> after.keys[i + 1].pair() == before.keys[i].pair()
                && after.last_node == before.last_node,
        ensures
            after.shaped(),
            after.height() == before.height(),
            after.entries() == before.entries(),
    {
        let h = before.last_node.unwrap().height();
        assert(after.last_node.unwrap().height() == h);
        assert forall|j: int| 0 <= j < after.keys.len() implies Self::fits_below(
            (#[trigger] after.keys[j]).pointed_node,
            h,
        ) by {
            if j < i {
                assert(after.keys[j] == before.keys[j]);
                assert(Self::fits_below(before.keys[j].pointed_node, h));
            } else if j == i {
            } else if j == i + 1 {
                assert(after.child(i + 1) == after.keys[j].pointed_node);
            } else {
                assert(after.keys[j] == before.keys[j - 1]);
                assert(Self::fits_below(before.keys[j - 1].pointed_node, h));
            }
        }
        assert(after.shaped());
        before.lemma_entries_at(i);
        after.lemma_entries_at(i);
        after.lemma_post_step(i);
        assert(after.keys@.take(i) =~= before.keys@.take(i));
        if i < before.keys.len() {
            assert(after.keys@.skip(i + 2) =~= before.keys@.skip(i + 1));
        }
        assert(after.post(i + 1) =~= before.post(i));
        assert(after.entries() =~= before.entries());
    }

    /// Splits the full child in slot `index`. Its median key moves up into
    /// this node at `index`, owning the lower half; the upper half takes the
    /// slot to its right. What the subtree holds, and in what order, does not
    /// change.
    pub fn split_node_pointed_by_key(&mut self, index: usize)
        requires
            old(self).shaped(),
            old(self).last_node is Some,
            old(self).keys.len() < 2 * D - 1,
            index <= old(self).keys.len(),
            old(self).child(index as int).unwrap().keys.len() == 2 * D - 1,
        ensures
            final(self).shaped(),
            final(self).keys.len() == old(self).keys.len() + 1,
            final(self).height() == old(self).height(),
            final(self).entries() == old(self).entries(),
            final(self).keys[index as int].pair() == old(self).child(index as int).unwrap().keys[D
                - 1].pair(),
            final(self).child(index as int).unwrap().keys.len() == D - 1,
            final(self).child(index + 1).unwrap().keys.len() == D - 1,
            forall|j: int| 0 <= j < index ==> (#[trigger] final(self).keys[j]) == old(self).keys[j],
            forall|j: int|
                index < j < final(self).keys.len() ==> (#[trigger] final(self).keys[j]).pair()
                    == old(self).keys[j - 1].pair(),
            forall|j: int|
                index + 1 < j < final(self).keys.len() ==> (#[trigger] final(self).keys[j])
                    == old(self).keys[j - 1],
            index < old(self).keys.len() ==> final(self).last_node == old(self).last_node,
            final(self).child(index as int).unwrap().keys@ == old(self).child(
                index as int,
            ).unwrap().keys@.take(D - 1),
            final(self).child(index as int).unwrap().last_node == old(self).child(
                index as int,
            ).unwrap().keys[D - 1].pointed_node,
            final(self).child(index + 1).unwrap().keys@ == old(self).child(
                index as int,
            ).unwrap().keys@.skip(D as int),
            final(self).child(index + 1).unwrap().last_node == old(self).child(
                index as int,
            ).unwrap().last_node,
    {
        let ghost before = *self;
        proof {
            before.lemma_child(index as int);
        }
        let mut child = self.take_child(index);
        let median = child.split();
        let ghost left = *median.pointed_node.unwrap();
        let ghost m = median;
        let ghost right = *child;
        self.put_child(index, child);
        self.keys.insert(index, median);
        proof {
            Self::lemma_split_child(before, *self, index as int, left, m, right);
        }
    }

    /// Splits this full node in place, making it an internal node with the
    /// old median as its only key and the two halves as its children. The
    /// subtree grows by one level and holds what it held.
    pub fn split_root(&mut self)
        requires
            old(self).shaped(),
            old(self).keys.len() == 2 * D - 1,
        ensures
            final(self).shaped(),
            final(self).type_ is Internal,
            final(self).keys.len() == 1,
            final(self).height() == old(self).height() + 1,
            final(self).entries() == old(self).entries(),
            final(self).keys[0].pair() == old(self).keys[D - 1].pair(),
    {
        let ghost before = *self;
        let (lower, mut median, upper) = self.split_inner();
        self.last_node = Some(upper.boxed());
        median.pointed_node = lower.into_ptr();
        self.init_keys(median);
        self.type_ = NodeType::Internal;
        proof {
            assert(self.keys@ =~= seq![median]);
            lemma_flat_one(median);
            assert(Self::fits_below(self.keys[0].pointed_node, upper.height()));
            assert(self.entries() =~= before.entries());
        }
    }
}

} // verus!
