use crate::btree::Btree;
use crate::node::{lemma_flat_leaf, Node};
use crate::order::total_order;
use crate::sorted::{
    has_key, inserted_all, lemma_inserted_all, lemma_sorted_unique, lemma_to_map_dom,
    lemma_to_map_from_pair, lookup, sorted, to_map,
};
use vstd::prelude::*;

verus! {

impl<K, V, const D: usize> Node<K, V, D> {
    /// Every leaf of this subtree lies `depth` levels down, this node being
    /// level one.
    pub open spec fn leaves_at(self, depth: nat) -> bool
        decreases self,
    {
        if self.type_ is Leaf {
            depth == 1
        } else {
            depth > 1 && forall|i: int|
                0 <= i <= self.keys.len() ==> ((#[trigger] self.child(i)) matches Some(c)
                    ==> c.leaves_at((depth - 1) as nat))
        }
    }

    /// Every node below this one holds between `D-1` and `2D-1` keys.
    pub open spec fn occupied(self) -> bool
        decreases self,
    {
        forall|i: int|
            0 <= i <= self.keys.len() ==> ((#[trigger] self.child(i)) matches Some(c) ==> D - 1
                <= c.keys.len() <= 2 * D - 1 && c.occupied())
    }

    /// In this subtree an internal node with `n` keys has all its `n + 1`
    /// child slots filled, and a leaf has none filled.
    pub open spec fn linked(self) -> bool
        decreases self,
    {
        if self.type_ is Leaf {
            forall|i: int| 0 <= i <= self.keys.len() ==> (#[trigger] self.child(i)) is None
        } else {
            forall|i: int|
                0 <= i <= self.keys.len() ==> ((#[trigger] self.child(i)) matches Some(c)
                    && c.linked())
        }
    }

    /// In a well-shaped subtree all leaves are at one depth, its height.
    pub proof fn lemma_leaves_level(self)
        requires
            self.shaped(),
        ensures
            self.leaves_at(self.height()),
        decreases self.height(),
    {
        self.lemma_child(0);
        if self.last_node is Some {
            assert forall|i: int| 0 <= i <= self.keys.len() implies ((#[trigger] self.child(
                i,
            )) matches Some(c) ==> c.leaves_at((self.height() - 1) as nat)) by {
                self.lemma_child(i);
                self.child(i).unwrap().lemma_leaves_level();
            }
        }
    }

    /// In a well-shaped subtree no node below the top is under- or overfull.
    pub proof fn lemma_occupied(self)
        requires
            self.shaped(),
        ensures
            self.occupied(),
            self.keys.len() <= 2 * D - 1,
        decreases self.height(),
    {
        assert forall|i: int| 0 <= i <= self.keys.len() implies ((#[trigger] self.child(
            i,
        )) matches Some(c) ==> D - 1 <= c.keys.len() <= 2 * D - 1 && c.occupied()) by {
            self.lemma_child(i);
            if self.child(i) is Some {
                self.child(i).unwrap().lemma_occupied();
            }
        }
    }

    /// In a well-shaped subtree internal nodes have all child slots filled
    /// and leaves have none.
    pub proof fn lemma_linked(self)
        requires
            self.shaped(),
        ensures
            self.linked(),
        decreases self.height(),
    {
        self.lemma_child(0);
        assert forall|i: int| 0 <= i <= self.keys.len() implies (if self.type_ is Leaf {
            (#[trigger] self.child(i)) is None
        } else {
            self.child(i) matches Some(c) && c.linked()
        }) by {
            self.lemma_child(i);
            if self.child(i) is Some {
                self.child(i).unwrap().lemma_linked();
            }
        }
    }
}

impl<K: Ord, V, const D: usize> Btree<K, V, D> {
    /// Order: the in-order traversal of a well-formed tree is strictly
    /// ascending by key, and the tree's map is the map of that traversal.
    pub proof fn law_order(self)
        requires
            total_order::<K>(),
            self.wf(),
        ensures
            sorted(self.in_order()),
            self@ == to_map(self.in_order()),
    {
        self.lemma_view();
    }

    /// Height: all leaves of a well-formed tree are at the same depth, the
    /// height of the tree.
    pub proof fn law_height(self)
        requires
            self.wf(),
        ensures
            self.root_node().leaves_at(self.height()),
    {
        self.root_node().lemma_leaves_level();
    }

    /// Occupancy: in a well-formed tree every node but the root holds
    /// between `D-1` and `2D-1` keys; the root holds at most `2D-1`, at
    /// least one when the tree is not empty, and is an empty leaf when it is.
    pub proof fn law_occupancy(self)
        requires
            self.wf(),
        ensures
            2 <= D <= 2048,
            self.root_node().occupied(),
            self.root_node().keys.len() <= 2 * D - 1,
            self.count() > 0 ==> self.root_node().keys.len() >= 1,
            self.count() == 0 ==> self.root_node().type_ is Leaf && self.root_node().keys.len()
                == 0,
    {
        let root = self.root_node();
        root.lemma_occupied();
        root.lemma_child(0);
        if root.last_node is None {
            lemma_flat_leaf(root.keys@);
        } else {
            root.lemma_entries_at(0);
        }
    }

    /// Structure: in a well-formed tree an internal node with `n` keys has
    /// `n + 1` children and a leaf has none.
    pub proof fn law_structure(self)
        requires
            self.wf(),
        ensures
            self.root_node().linked(),
    {
        self.root_node().lemma_linked();
    }

    /// Size: the count of a well-formed tree is the number of pairs its
    /// in-order traversal meets, which is the number of keys of its map.
    pub proof fn law_size(self)
        requires
            total_order::<K>(),
            self.wf(),
        ensures
            self.count() == self.in_order().len(),
            self.count() == self@.len(),
    {
        self.lemma_view();
    }

    /// Insert-then-get: in the tree that `insert(k, v)` leaves, `get(k)`
    /// finds `v`.
    pub proof fn law_insert_then_get(self, after: Self, k: K, v: V)
        requires
            after@ == self@.insert(k, v),
        ensures
            lookup(after@, k) == Some(v),
    {
    }

    /// Replace semantics: after `insert(k, v1)` found no earlier value, a
    /// following `insert(k, v2)` hands back `v1`, leaves `k` mapped to `v2`
    /// and leaves the count as it was.
    pub proof fn law_replace(self, first: Self, second: Self, k: K, v1: V, v2: V)
        requires
            total_order::<K>(),
            self.wf(),
            first.wf(),
            second.wf(),
            lookup(self@, k) is None,
            first@ == self@.insert(k, v1),
            second@ == first@.insert(k, v2),
        ensures
            lookup(first@, k) == Some(v1),
            lookup(second@, k) == Some(v2),
            second.count() == first.count(),
    {
        first.lemma_view();
        second.lemma_view();
        assert(second@.dom() =~= first@.dom());
    }

    /// Remove inverse: `insert(k, v)` followed by `remove(k)` leaves `k`
    /// absent; and if `k` was absent before the two, it leaves the tree with
    /// the map, the traversal and the count it had before them.
    pub proof fn law_remove_inverse(self, inserted: Self, removed: Self, k: K, v: V)
        requires
            total_order::<K>(),
            self.wf(),
            inserted.wf(),
            removed.wf(),
            inserted@ == self@.insert(k, v),
            removed@ == inserted@.remove(k),
        ensures
            lookup(removed@, k) is None,
            lookup(self@, k) is None ==> removed@ == self@ && removed.count() == self.count()
                && removed.in_order() == self.in_order(),
    {
        if lookup(self@, k) is None {
            self.lemma_view();
            removed.lemma_view();
            assert(removed@ =~= self@);
            lemma_sorted_unique(removed.in_order(), self.in_order());
        }
    }

    /// Idempotent remove: after `remove(k)` a second `remove(k)` finds
    /// nothing and changes nothing.
    pub proof fn law_idempotent_remove(self, once: Self, twice: Self, k: K)
        requires
            once@ == self@.remove(k),
            twice@ == once@.remove(k),
        ensures
            lookup(once@, k) is None,
            twice@ == once@,
    {
        assert(twice@ =~= once@);
    }

    /// Two well-formed trees that hold the same map have the same in-order
    /// traversal, whatever their shapes.
    pub proof fn law_same_map_same_order(self, other: Self)
        requires
            total_order::<K>(),
            self.wf(),
            other.wf(),
            self@ == other@,
        ensures
            self.in_order() == other.in_order(),
    {
        self.lemma_view();
        other.lemma_view();
        lemma_sorted_unique(self.in_order(), other.in_order());
    }

    /// Permutation-independence: two trees filled from empty by inserting
    /// the pairs of `s1` and of `s2`, which are the same pairs in another
    /// order with no key given two values, have the same in-order traversal.
    pub proof fn law_permutation_independence(self, other: Self, s1: Seq<(K, V)>, s2: Seq<(K, V)>)
        requires
            total_order::<K>(),
            self.wf(),
            other.wf(),
            self@ == inserted_all(Map::<K, V>::empty(), s1),
            other@ == inserted_all(Map::<K, V>::empty(), s2),
            same_pairs(s1, s2),
            one_value_per_key(s1),
        ensures
            self.in_order() == other.in_order(),
    {
        lemma_inserted_all(Map::<K, V>::empty(), s1);
        lemma_inserted_all(Map::<K, V>::empty(), s2);
        lemma_same_pairs_same_map(s1, s2);
        assert(self@ =~= other@);
        self.law_same_map_same_order(other);
    }
}

/// The same pairs occur in `s1` and in `s2`.
pub open spec fn same_pairs<K, V>(s1: Seq<(K, V)>, s2: Seq<(K, V)>) -> bool {
    forall|p: (K, V)| s1.contains(p) <==> s2.contains(p)
}

/// No key occurs in `s` with two different values.
pub open spec fn one_value_per_key<K, V>(s: Seq<(K, V)>) -> bool {
    forall|i: int, j: int|
        #![trigger s[i], s[j]]
        0 <= i < s.len() && 0 <= j < s.len() && s[i].0 == s[j].0 ==> s[i].1 == s[j].1
}

/// Sequences of the same pairs, with one value per key, stand for the same
/// map.
pub proof fn lemma_same_pairs_same_map<K, V>(s1: Seq<(K, V)>, s2: Seq<(K, V)>)
    requires
        same_pairs(s1, s2),
        one_value_per_key(s1),
    ensures
        to_map(s1) == to_map(s2),
{
    lemma_to_map_dom(s1);
    lemma_to_map_dom(s2);
    assert forall|k: K|
        (#[trigger] to_map(s1).dom().contains(k)) == to_map(s2).dom().contains(k) && (to_map(
            s1,
        ).dom().contains(k) ==> to_map(s2)[k] == to_map(s1)[k]) by {
        if to_map(s1).contains_key(k) {
            lemma_to_map_from_pair(s1, k);
            let i = choose|i: int| 0 <= i < s1.len() && #[trigger] s1[i] == (k, to_map(s1)[k]);
            assert(s1.contains(s1[i]));
            assert(s2.contains(s1[i]));
            let j = choose|j: int| 0 <= j < s2.len() && s2[j] == s1[i];
            assert(s2[j].0 == k);
            assert(has_key(s2, k));
            lemma_to_map_from_pair(s2, k);
            let j2 = choose|j2: int| 0 <= j2 < s2.len() && #[trigger] s2[j2] == (k, to_map(s2)[k]);
            assert(s2.contains(s2[j2]));
            assert(s1.contains(s2[j2]));
            let i2 = choose|i2: int| 0 <= i2 < s1.len() && s1[i2] == s2[j2];
            assert(s1[i].0 == s1[i2].0);
        }
        if to_map(s2).contains_key(k) {
            lemma_to_map_from_pair(s2, k);
            let j = choose|j: int| 0 <= j < s2.len() && #[trigger] s2[j] == (k, to_map(s2)[k]);
            assert(s2.contains(s2[j]));
            assert(s1.contains(s2[j]));
            let i = choose|i: int| 0 <= i < s1.len() && s1[i] == s2[j];
            assert(s1[i].0 == k);
            assert(has_key(s1, k));
        }
    }
    assert(to_map(s1) =~= to_map(s2));
}

} // verus!
