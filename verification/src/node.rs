use crate::key::Key;
use crate::order::{lemma_lt_trans, lt, total_order};
use crate::sorted::{all_above, all_below, lemma_sorted_concat, sorted, to_map};
use vstd::prelude::*;

verus! {

/// Whether a node has children.
#[derive(Clone, Copy, Debug)]
pub enum NodeType {
    Internal,
    Leaf,
}

/// A B-tree node of minimum degree `D`: its key records in ascending order and,
/// for an internal node, the subtree of everything above the last key.
#[derive(Debug)]
pub struct Node<K, V, const D: usize> {
    pub keys: Vec<Key<K, V, D>>,
    pub last_node: Option<Box<Node<K, V, D>>>,
    pub type_: NodeType,
}

/// In-order contents of an optional subtree.
pub open spec fn subtree<K, V, const D: usize>(c: Option<Box<Node<K, V, D>>>) -> Seq<(K, V)>
    decreases c,
{
    match c {
        None => Seq::empty(),
        Some(b) => b.entries(),
    }
}

/// In-order contents of a run of key records: for each record its subtree,
/// then its own pair.
pub open spec fn flat<K, V, const D: usize>(s: Seq<Key<K, V, D>>) -> Seq<(K, V)>
    decreases s,
{
    if s.len() == 0 {
        Seq::empty()
    } else {
        flat(s.drop_last()) + subtree(s.last().pointed_node) + seq![s.last().pair()]
    }
}

impl<K, V, const D: usize> Node<K, V, D> {
    /// In-order traversal of the subtree rooted here.
    pub open spec fn entries(self) -> Seq<(K, V)>
        decreases self,
    {
        flat(self.keys@) + subtree(self.last_node)
    }

    /// Number of levels from this node down to its leaves, both included.
    pub open spec fn height(self) -> nat
        decreases self,
    {
        match self.last_node {
            None => 1,
            Some(b) => 1 + b.height(),
        }
    }

    /// The `i`-th child slot: the subtree of key `i`, or the trailing subtree
    /// when `i` is the key count.
    pub open spec fn child(self, i: int) -> Option<Box<Node<K, V, D>>> {
        if 0 <= i < self.keys.len() {
            self.keys[i].pointed_node
        } else {
            self.last_node
        }
    }

    /// A child that may hang below a node whose children have height `h`.
    pub open spec fn fits_below(c: Option<Box<Node<K, V, D>>>, h: nat) -> bool
        decreases c, 1int,
    {
        match c {
            None => false,
            Some(b) => b.shaped() && b.keys.len() >= D - 1 && b.height() == h,
        }
    }

    /// Shape invariant of a subtree: type tags agree with the child slots,
    /// no node holds more than `2D-1` keys, every node below this one holds at
    /// least `D-1`, and all leaves are at one depth.
    pub open spec fn shaped(self) -> bool
        decreases self, 0int,
    {
        &&& 2 <= D <= 2048
        &&& self.keys.len() <= 2 * D - 1
        &&& match self.last_node {
            None => {
                &&& self.type_ is Leaf
                &&& forall|i: int|
                    0 <= i < self.keys.len() ==> (#[trigger] self.keys[i]).pointed_node is None
            },
            Some(last) => {
                &&& self.type_ is Internal
                &&& last.shaped()
                &&& last.keys.len() >= D - 1
                &&& forall|i: int|
                    0 <= i < self.keys.len() ==> Self::fits_below(
                        (#[trigger] self.keys[i]).pointed_node,
                        last.height(),
                    )
            },
        }
    }
}

/// `flat` distributes over concatenation.
pub proof fn lemma_flat_concat<K, V, const D: usize>(a: Seq<Key<K, V, D>>, b: Seq<Key<K, V, D>>)
    ensures
        flat(a + b) == flat(a) + flat(b),
    decreases b.len(),
{
    if b.len() == 0 {
        assert(a + b =~= a);
        assert(flat(a) + flat(b) =~= flat(a));
    } else {
        let t = b.drop_last();
        lemma_flat_concat(a, t);
        assert((a + b).drop_last() =~= a + t);
        assert((a + b).last() == b.last());
        assert(flat(a + b) =~= flat(a) + flat(b));
    }
}

/// `flat` of a single record.
pub proof fn lemma_flat_one<K, V, const D: usize>(k: Key<K, V, D>)
    ensures
        flat(seq![k]) == subtree(k.pointed_node) + seq![k.pair()],
{
    let s = seq![k];
    assert(s.drop_last() =~= Seq::<Key<K, V, D>>::empty());
    assert(flat(s.drop_last()) =~= Seq::<(K, V)>::empty());
    assert(flat(s) =~= subtree(k.pointed_node) + seq![k.pair()]);
}

/// `flat` of records without subtrees is just their pairs.
pub proof fn lemma_flat_leaf<K, V, const D: usize>(s: Seq<Key<K, V, D>>)
    requires
        forall|i: int| 0 <= i < s.len() ==> (#[trigger] s[i]).pointed_node is None,
    ensures
        flat(s).len() == s.len(),
        forall|i: int| 0 <= i < s.len() ==> (#[trigger] flat(s)[i]) == s[i].pair(),
    decreases s.len(),
{
    if s.len() > 0 {
        let t = s.drop_last();
        lemma_flat_leaf(t);
        assert(s.last().pointed_node is None);
        assert(subtree(s.last().pointed_node) =~= Seq::<(K, V)>::empty());
        assert(flat(s) =~= flat(t) + seq![s.last().pair()]);
        assert forall|i: int| 0 <= i < s.len() implies (#[trigger] flat(s)[i]) == s[i].pair() by {
            if i < t.len() {
                assert(flat(t)[i] == t[i].pair());
                assert(t[i] == s[i]);
            }
        }
    }
}

impl<K, V, const D: usize> Node<K, V, D> {
    /// What the shape invariant says of child slot `i`.
    pub proof fn lemma_child(self, i: int)
        requires
            self.shaped(),
            0 <= i <= self.keys.len(),
        ensures
            self.last_node is None <==> self.child(i) is None,
            self.last_node is None <==> self.type_ is Leaf,
            self.child(i) matches Some(c) ==> c.shaped() && c.keys.len() >= D - 1 && c.height() + 1
                == self.height(),
    {
        if i < self.keys.len() {
            match self.last_node {
                None => {
                    assert(self.keys[i].pointed_node is None);
                },
                Some(last) => {
                    assert(Self::fits_below(self.keys[i].pointed_node, last.height()));
                },
            }
        }
    }

    /// `self` and `other` differ at most in what hangs in child slot `i`.
    pub open spec fn same_but_child(self, other: Self, i: int) -> bool {
        &&& other.type_ == self.type_
        &&& other.keys.len() == self.keys.len()
        &&& forall|j: int|
            0 <= j < self.keys.len() && j != i ==> (#[trigger] other.keys[j]) == self.keys[j]
        &&& 0 <= i < self.keys.len() ==> other.keys[i].pair() == self.keys[i].pair()
            && other.last_node == self.last_node
    }

    /// Everything that comes before child slot `i` in the traversal.
    pub open spec fn pre(self, i: int) -> Seq<(K, V)> {
        flat(self.keys@.take(i))
    }

    /// Everything that comes after child slot `i` in the traversal.
    pub open spec fn post(self, i: int) -> Seq<(K, V)> {
        if 0 <= i < self.keys.len() {
            seq![self.keys[i].pair()] + flat(self.keys@.skip(i + 1)) + subtree(self.last_node)
        } else {
            Seq::empty()
        }
    }

    /// The traversal passes through child slot `i` between `pre(i)` and
    /// `post(i)`.
    pub proof fn lemma_entries_at(self, i: int)
        requires
            0 <= i <= self.keys.len(),
        ensures
            self.entries() == self.pre(i) + subtree(self.child(i)) + self.post(i),
    {
        let n = self.keys.len() as int;
        if i < n {
            let a = self.keys@.take(i);
            let b = self.keys@.skip(i + 1);
            let one = seq![self.keys[i]];
            assert(self.keys@ =~= a + one + b);
            lemma_flat_concat(a + one, b);
            lemma_flat_concat(a, one);
            lemma_flat_one(self.keys[i]);
            assert(self.entries() =~= self.pre(i) + subtree(self.child(i)) + self.post(i));
        } else {
            assert(self.keys@.take(i) =~= self.keys@);
            assert(self.entries() =~= self.pre(i) + subtree(self.child(i)) + self.post(i));
        }
    }

    /// After key `i` the traversal goes through child slot `i + 1`.
    pub proof fn lemma_post_step(self, i: int)
        requires
            0 <= i < self.keys.len(),
        ensures
            self.post(i) == seq![self.keys[i].pair()] + subtree(self.child(i + 1)) + self.post(
                i + 1,
            ),
    {
        let n = self.keys.len() as int;
        let b = self.keys@.skip(i + 1);
        if i + 1 < n {
            let one = seq![self.keys[i + 1]];
            let c = self.keys@.skip(i + 2);
            assert(b =~= one + c);
            lemma_flat_concat(one, c);
            lemma_flat_one(self.keys[i + 1]);
            assert(self.post(i) =~= seq![self.keys[i].pair()] + subtree(self.child(i + 1))
                + self.post(i + 1));
        } else {
            assert(b =~= Seq::<Key<K, V, D>>::empty());
            assert(flat(b) =~= Seq::<(K, V)>::empty());
            assert(self.post(i) =~= seq![self.keys[i].pair()] + subtree(self.child(i + 1))
                + self.post(i + 1));
        }
    }

    /// `pre` grows by one child and one pair per key.
    pub proof fn lemma_pre_step(self, i: int)
        requires
            0 <= i < self.keys.len(),
        ensures
            self.pre(i + 1) == self.pre(i) + subtree(self.child(i)) + seq![self.keys[i].pair()],
    {
        let a = self.keys@.take(i + 1);
        assert(a.drop_last() =~= self.keys@.take(i));
        assert(a.last() == self.keys[i]);
    }
}

/// The keys of a run of records ascend strictly.
pub open spec fn ascending<K: Ord, V, const D: usize>(s: Seq<Key<K, V, D>>) -> bool {
    forall|a: int, b: int| #![trigger s[a], s[b]] 0 <= a < b < s.len() ==> lt(s[a].key, s[b].key)
}

impl<K: Ord, V, const D: usize> View for Node<K, V, D> {
    type V = Map<K, V>;

    /// The map held by the subtree rooted here.
    open spec fn view(&self) -> Map<K, V> {
        to_map(self.entries())
    }
}

impl<K: Ord, V, const D: usize> Node<K, V, D> {
    /// A well-formed subtree: well shaped, and its traversal is strictly
    /// ascending by key.
    pub open spec fn wf(self) -> bool {
        self.shaped() && sorted(self.entries())
    }

    /// Where key `i` stands in the traversal.
    pub open spec fn position(self, i: int) -> int {
        (self.pre(i).len() + subtree(self.child(i)).len()) as int
    }

    /// Key `i` is found at `position(i)` of the traversal.
    pub proof fn lemma_position(self, i: int)
        requires
            0 <= i < self.keys.len(),
        ensures
            0 <= self.position(i) < self.entries().len(),
            self.entries()[self.position(i)] == self.keys[i].pair(),
    {
        self.lemma_entries_at(i);
        assert(self.post(i)[0] == self.keys[i].pair());
    }

    /// In a sorted subtree every part of the traversal is sorted.
    pub proof fn lemma_parts_sorted(self, i: int)
        requires
            0 <= i <= self.keys.len(),
            sorted(self.entries()),
        ensures
            sorted(self.pre(i)),
            sorted(subtree(self.child(i))),
            sorted(self.post(i)),
            sorted(self.pre(i) + subtree(self.child(i)) + self.post(i)),
    {
        self.lemma_entries_at(i);
        lemma_sorted_concat(self.pre(i) + subtree(self.child(i)), self.post(i));
        lemma_sorted_concat(self.pre(i), subtree(self.child(i)));
    }

    /// A key that sorts between key `i - 1` and key `i` sorts above all of
    /// `pre(i)` and below all of `post(i)`.
    pub proof fn lemma_bounds(self, i: int, k: K)
        requires
            total_order::<K>(),
            sorted(self.entries()),
            0 <= i <= self.keys.len(),
            i > 0 ==> lt(self.keys[i - 1].key, k),
            i < self.keys.len() ==> lt(k, self.keys[i].key),
        ensures
            all_below(self.pre(i), k),
            all_above(self.post(i), k),
    {
        self.lemma_parts_sorted(i);
        let pre = self.pre(i);
        let post = self.post(i);
        if i > 0 {
            self.lemma_pre_step(i - 1);
            let last = pre.len() - 1;
            assert(pre[last] == self.keys[i - 1].pair());
            assert forall|p: int| 0 <= p < pre.len() implies lt((#[trigger] pre[p]).0, k) by {
                if p < last {
                    assert(lt(pre[p].0, pre[last].0));
                    lemma_lt_trans(pre[p].0, pre[last].0, k);
                }
            }
        } else {
            assert(self.keys@.take(0) =~= Seq::<Key<K, V, D>>::empty());
        }
        if i < self.keys.len() {
            assert(post[0] == self.keys[i].pair());
            assert forall|p: int| 0 <= p < post.len() implies lt(k, (#[trigger] post[p]).0) by {
                if p > 0 {
                    assert(lt(post[0].0, post[p].0));
                    lemma_lt_trans(k, post[0].0, post[p].0);
                }
            }
        }
    }

    /// In a sorted subtree everything before key `i` sorts below it and
    /// everything after it sorts above it.
    pub proof fn lemma_key_bounds(self, i: int)
        requires
            total_order::<K>(),
            sorted(self.entries()),
            0 <= i < self.keys.len(),
        ensures
            all_below(self.pre(i) + subtree(self.child(i)), self.keys[i].key),
            all_above(subtree(self.child(i + 1)) + self.post(i + 1), self.keys[i].key),
    {
        self.lemma_entries_at(i);
        self.lemma_post_step(i);
        let a = self.pre(i) + subtree(self.child(i));
        let one = seq![self.keys[i].pair()];
        let b = subtree(self.child(i + 1)) + self.post(i + 1);
        assert(self.entries() =~= a + (one + b));
        lemma_sorted_concat(a, one + b);
        lemma_sorted_concat(one, b);
        assert forall|p: int| 0 <= p < a.len() implies lt((#[trigger] a[p]).0, self.keys[i].key) by {
            assert((one + b)[0] == self.keys[i].pair());
            assert(lt(a[p].0, (one + b)[0].0));
        }
        assert forall|p: int| 0 <= p < b.len() implies lt(self.keys[i].key, (#[trigger] b[p]).0) by {
            assert(lt(one[0].0, b[p].0));
        }
    }

    /// The keys of a sorted node ascend.
    pub proof fn lemma_keys_ascending(self)
        requires
            total_order::<K>(),
            sorted(self.entries()),
        ensures
            ascending(self.keys@),
    {
        assert forall|a: int, b: int|
            #![trigger self.keys@[a], self.keys@[b]]
            0 <= a < b < self.keys.len() implies lt(self.keys@[a].key, self.keys@[b].key) by {
            self.lemma_position(a);
            self.lemma_position(b);
            self.lemma_position_grows(a, b);
        }
    }

    /// A later key stands later in the traversal.
    pub proof fn lemma_position_grows(self, a: int, b: int)
        requires
            0 <= a < b < self.keys.len(),
        ensures
            self.position(a) < self.position(b),
        decreases b - a,
    {
        self.lemma_pre_step(a);
        if a + 1 < b {
            self.lemma_position_grows(a + 1, b);
        }
    }

    /// Replacing what hangs in child slot `i` changes the traversal only
    /// between `pre(i)` and `post(i)`.
    pub proof fn lemma_child_replaced(self, after: Self, i: int)
        requires
            0 <= i <= self.keys.len(),
            self.same_but_child(after, i),
        ensures
            after.pre(i) == self.pre(i),
            after.post(i) == self.post(i),
            after.entries() == self.pre(i) + subtree(after.child(i)) + self.post(i),
    {
        assert(after.keys@.take(i) =~= self.keys@.take(i));
        if i < self.keys.len() {
            assert(after.keys@.skip(i + 1) =~= self.keys@.skip(i + 1));
        }
        after.lemma_entries_at(i);
    }

    /// Replacing a child by a subtree of the same height that holds enough
    /// keys keeps the shape.
    pub proof fn lemma_child_replaced_shaped(self, after: Self, i: int)
        requires
            0 <= i <= self.keys.len(),
            self.same_but_child(after, i),
            self.shaped(),
            self.last_node is Some,
            after.child(i) matches Some(c) && c.shaped() && c.keys.len() >= D - 1 && c.height() + 1
                == self.height(),
        ensures
            after.shaped(),
            after.height() == self.height(),
    {
        let h = self.last_node.unwrap().height();
        assert forall|j: int| 0 <= j < after.keys.len() implies Self::fits_below(
            (#[trigger] after.keys[j]).pointed_node,
            h,
        ) by {
            if j != i {
                assert(after.keys[j] == self.keys[j]);
                assert(Self::fits_below(self.keys[j].pointed_node, h));
            }
        }
    }

    /// The traversal of a node that gained the record `after.keys[i]` at
    /// index `i`.
    pub proof fn lemma_key_inserted(self, after: Self, i: int)
        requires
            0 <= i <= self.keys.len(),
            after.keys.len() == self.keys.len() + 1,
            after.keys@ == self.keys@.insert(i, after.keys[i]),
            after.last_node == self.last_node,
        ensures
            after.pre(i) == self.pre(i),
            after.child(i + 1) == self.child(i),
            after.post(i + 1) == self.post(i),
            after.post(i) == seq![after.keys[i].pair()] + subtree(self.child(i)) + self.post(i),
            after.entries() == self.pre(i) + subtree(after.keys[i].pointed_node) + seq![
                after.keys[i].pair(),
            ] + subtree(self.child(i)) + self.post(i),
    {
        assert(after.keys@.take(i) =~= self.keys@.take(i));
        if i < self.keys.len() {
            assert(after.keys@.skip(i + 2) =~= self.keys@.skip(i + 1));
        }
        assert(after.post(i + 1) =~= self.post(i));
        after.lemma_entries_at(i);
        after.lemma_post_step(i);
        assert(after.entries() =~= self.pre(i) + subtree(after.keys[i].pointed_node) + seq![
            after.keys[i].pair(),
        ] + subtree(self.child(i)) + self.post(i));
    }
}

} // verus!
