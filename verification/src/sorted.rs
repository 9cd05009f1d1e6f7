use crate::order::{lemma_lt_asym, lt, total_order};
use vstd::prelude::*;

verus! {

/// Keys strictly ascending from front to back.
pub open spec fn sorted<K: Ord, V>(s: Seq<(K, V)>) -> bool {
    forall|i: int, j: int| #![trigger s[i], s[j]] 0 <= i < j < s.len() ==> lt(s[i].0, s[j].0)
}

/// Some pair of `s` carries the key `k`.
pub open spec fn has_key<K, V>(s: Seq<(K, V)>, k: K) -> bool {
    exists|i: int| 0 <= i < s.len() && (#[trigger] s[i]).0 == k
}

/// Every key of `s` is below `k`.
pub open spec fn all_below<K: Ord, V>(s: Seq<(K, V)>, k: K) -> bool {
    forall|i: int| 0 <= i < s.len() ==> lt((#[trigger] s[i]).0, k)
}

/// Every key of `s` is above `k`.
pub open spec fn all_above<K: Ord, V>(s: Seq<(K, V)>, k: K) -> bool {
    forall|i: int| 0 <= i < s.len() ==> lt(k, (#[trigger] s[i]).0)
}

/// The map a sequence of pairs stands for; a later pair overrides an earlier
/// one with the same key.
pub open spec fn to_map<K, V>(s: Seq<(K, V)>) -> Map<K, V>
    decreases s.len(),
{
    if s.len() == 0 {
        Map::empty()
    } else {
        to_map(s.drop_last()).insert(s.last().0, s.last().1)
    }
}

/// What a map answers for `k`: the value beside it, if it is a key.
pub open spec fn lookup<K, V>(m: Map<K, V>, k: K) -> Option<V> {
    if m.contains_key(k) {
        Some(m[k])
    } else {
        None
    }
}

/// The keys of `to_map(s)` are exactly the keys that occur in `s`.
pub proof fn lemma_to_map_dom<K, V>(s: Seq<(K, V)>)
    ensures
        forall|k: K| #[trigger] to_map(s).contains_key(k) <==> has_key(s, k),
    decreases s.len(),
{
    if s.len() > 0 {
        let t = s.drop_last();
        lemma_to_map_dom(t);
        assert forall|k: K| #[trigger] to_map(s).contains_key(k) <==> has_key(s, k) by {
            assert(to_map(s).contains_key(k) <==> (to_map(t).contains_key(k) || s.last().0 == k));
            assert(to_map(t).contains_key(k) <==> has_key(t, k));
            if has_key(t, k) {
                let i = choose|i: int| 0 <= i < t.len() && (#[trigger] t[i]).0 == k;
                assert(s[i].0 == k);
                assert(has_key(s, k));
            }
            if s.last().0 == k {
                assert(s[s.len() - 1].0 == k);
                assert(has_key(s, k));
            }
            if has_key(s, k) {
                let i = choose|i: int| 0 <= i < s.len() && (#[trigger] s[i]).0 == k;
                if i < s.len() - 1 {
                    assert(t[i].0 == k);
                    assert(has_key(t, k));
                }
            }
        }
    } else {
        assert forall|k: K| #[trigger] to_map(s).contains_key(k) <==> has_key(s, k) by {}
    }
}

/// The map of a concatenation is the union of the two maps, the right one
/// winning on common keys.
pub proof fn lemma_to_map_concat<K, V>(a: Seq<(K, V)>, b: Seq<(K, V)>)
    ensures
        to_map(a + b) == to_map(a).union_prefer_right(to_map(b)),
    decreases b.len(),
{
    if b.len() == 0 {
        assert(a + b =~= a);
        assert(to_map(a).union_prefer_right(to_map(b)) =~= to_map(a));
    } else {
        let t = b.drop_last();
        lemma_to_map_concat(a, t);
        assert((a + b).drop_last() =~= a + t);
        assert((a + b).last() == b.last());
        assert(to_map(a + b) =~= to_map(a).union_prefer_right(to_map(b)));
    }
}

/// The map of a one-pair sequence.
pub proof fn lemma_to_map_one<K, V>(k: K, v: V)
    ensures
        to_map(seq![(k, v)]) == Map::<K, V>::empty().insert(k, v),
{
    let s = seq![(k, v)];
    assert(s.drop_last() =~= Seq::<(K, V)>::empty());
    assert(to_map(s.drop_last()) =~= Map::<K, V>::empty());
}

/// In a sorted sequence each key maps to the value it stands beside.
pub proof fn lemma_to_map_index<K: Ord, V>(s: Seq<(K, V)>, i: int)
    requires
        total_order::<K>(),
        sorted(s),
        0 <= i < s.len(),
    ensures
        to_map(s).contains_key(s[i].0),
        to_map(s)[s[i].0] == s[i].1,
    decreases s.len(),
{
    let t = s.drop_last();
    if i < s.len() - 1 {
        assert(sorted(t)) by {
            assert forall|a: int, b: int| #![trigger t[a], t[b]] 0 <= a < b < t.len() implies lt(
                t[a].0,
                t[b].0,
            ) by {
                assert(lt(s[a].0, s[b].0));
            }
        }
        lemma_to_map_index(t, i);
        assert(t[i] == s[i]);
        assert(lt(s[i].0, s[s.len() - 1].0));
        lemma_lt_asym(s[i].0, s.last().0);
    }
}

/// A sorted sequence, cut anywhere, gives two sorted parts with the left part
/// wholly below the right part; and the converse.
pub proof fn lemma_sorted_concat<K: Ord, V>(a: Seq<(K, V)>, b: Seq<(K, V)>)
    ensures
        sorted(a + b) <==> {
            &&& sorted(a)
            &&& sorted(b)
            &&& forall|i: int, j: int|
                #![trigger a[i], b[j]]
                0 <= i < a.len() && 0 <= j < b.len() ==> lt(a[i].0, b[j].0)
        },
{
    let s = a + b;
    if sorted(s) {
        assert forall|i: int, j: int| #![trigger a[i], a[j]] 0 <= i < j < a.len() implies lt(
            a[i].0,
            a[j].0,
        ) by {
            assert(s[i] == a[i] && s[j] == a[j]);
        }
        assert forall|i: int, j: int| #![trigger b[i], b[j]] 0 <= i < j < b.len() implies lt(
            b[i].0,
            b[j].0,
        ) by {
            assert(s[a.len() + i] == b[i] && s[a.len() + j] == b[j]);
        }
        assert forall|i: int, j: int|
            #![trigger a[i], b[j]]
            0 <= i < a.len() && 0 <= j < b.len() implies lt(a[i].0, b[j].0) by {
            assert(s[i] == a[i] && s[a.len() + j] == b[j]);
        }
    }
    if sorted(a) && sorted(b) && (forall|i: int, j: int|
        #![trigger a[i], b[j]]
        0 <= i < a.len() && 0 <= j < b.len() ==> lt(a[i].0, b[j].0)) {
        assert forall|i: int, j: int| #![trigger s[i], s[j]] 0 <= i < j < s.len() implies lt(
            s[i].0,
            s[j].0,
        ) by {
            if j < a.len() {
                assert(lt(a[i].0, a[j].0));
            } else if i < a.len() {
                assert(lt(a[i].0, b[j - a.len()].0));
            } else {
                assert(lt(b[i - a.len()].0, b[j - a.len()].0));
            }
        }
    }
}

/// Replacing the middle of a sorted sequence by another sorted run keeps it
/// sorted, provided each new key either was in the old middle or lies above
/// everything before the middle and below everything after it.
pub proof fn lemma_splice_sorted<K: Ord, V>(
    pre: Seq<(K, V)>,
    mid: Seq<(K, V)>,
    mid2: Seq<(K, V)>,
    post: Seq<(K, V)>,
)
    requires
        total_order::<K>(),
        sorted(pre + mid + post),
        sorted(mid2),
        forall|j: int|
            0 <= j < mid2.len() ==> has_key(mid, (#[trigger] mid2[j]).0) || (all_below(
                pre,
                mid2[j].0,
            ) && all_above(post, mid2[j].0)),
    ensures
        sorted(pre + mid2 + post),
{
    lemma_sorted_concat(pre + mid, post);
    lemma_sorted_concat(pre, mid);
    assert forall|i: int, j: int|
        #![trigger pre[i], mid2[j]]
        0 <= i < pre.len() && 0 <= j < mid2.len() implies lt(pre[i].0, mid2[j].0) by {
        if has_key(mid, mid2[j].0) {
            let m = choose|m: int| 0 <= m < mid.len() && (#[trigger] mid[m]).0 == mid2[j].0;
            assert(lt(pre[i].0, mid[m].0));
        }
    }
    lemma_sorted_concat(pre, mid2);
    let left = pre + mid2;
    assert forall|i: int, j: int|
        #![trigger left[i], post[j]]
        0 <= i < left.len() && 0 <= j < post.len() implies lt(left[i].0, post[j].0) by {
        if i < pre.len() {
            assert((pre + mid)[i] == pre[i]);
            assert(lt((pre + mid)[i].0, post[j].0));
        } else {
            let q = i - pre.len();
            assert(left[i] == mid2[q]);
            if has_key(mid, mid2[q].0) {
                let m = choose|m: int| 0 <= m < mid.len() && (#[trigger] mid[m]).0 == mid2[q].0;
                assert((pre + mid)[pre.len() + m] == mid[m]);
                assert(lt((pre + mid)[pre.len() + m].0, post[j].0));
            }
        }
    }
    lemma_sorted_concat(left, post);
}

/// In a sorted sequence cut in three, a key above the first part and below
/// the last part can only be found in the middle.
pub proof fn lemma_splice_lookup<K: Ord, V>(
    pre: Seq<(K, V)>,
    mid: Seq<(K, V)>,
    post: Seq<(K, V)>,
    k: K,
)
    requires
        total_order::<K>(),
        all_below(pre, k),
        all_above(post, k),
    ensures
        !has_key(pre, k),
        !has_key(post, k),
        to_map(pre + mid + post).contains_key(k) <==> to_map(mid).contains_key(k),
        to_map(mid).contains_key(k) ==> to_map(pre + mid + post)[k] == to_map(mid)[k],
{
    if has_key(pre, k) {
        let i = choose|i: int| 0 <= i < pre.len() && (#[trigger] pre[i]).0 == k;
        lemma_lt_asym(pre[i].0, k);
    }
    if has_key(post, k) {
        let i = choose|i: int| 0 <= i < post.len() && (#[trigger] post[i]).0 == k;
        lemma_lt_asym(k, post[i].0);
    }
    lemma_to_map_dom(pre);
    lemma_to_map_dom(post);
    lemma_to_map_concat(pre, mid);
    lemma_to_map_concat(pre + mid, post);
}

/// Inserting into the middle of a sorted sequence cut in three is inserting
/// into the whole, for a key that lies between the outer parts.
pub proof fn lemma_splice_insert<K: Ord, V>(
    pre: Seq<(K, V)>,
    mid: Seq<(K, V)>,
    mid2: Seq<(K, V)>,
    post: Seq<(K, V)>,
    k: K,
    v: V,
)
    requires
        total_order::<K>(),
        sorted(pre + mid + post),
        sorted(mid2),
        to_map(mid2) == to_map(mid).insert(k, v),
        all_below(pre, k),
        all_above(post, k),
    ensures
        sorted(pre + mid2 + post),
        to_map(pre + mid2 + post) == to_map(pre + mid + post).insert(k, v),
        to_map(pre + mid + post).contains_key(k) <==> to_map(mid).contains_key(k),
        to_map(mid).contains_key(k) ==> to_map(pre + mid + post)[k] == to_map(mid)[k],
{
    lemma_to_map_dom(mid);
    lemma_to_map_dom(mid2);
    assert forall|j: int| 0 <= j < mid2.len() implies has_key(mid, (#[trigger] mid2[j]).0) || (
    all_below(pre, mid2[j].0) && all_above(post, mid2[j].0)) by {
        assert(has_key(mid2, mid2[j].0));
        assert(to_map(mid2).contains_key(mid2[j].0));
        if mid2[j].0 != k {
            assert(to_map(mid).contains_key(mid2[j].0));
        }
    }
    lemma_splice_sorted(pre, mid, mid2, post);
    lemma_splice_lookup(pre, mid, post, k);
    lemma_to_map_dom(post);
    lemma_to_map_concat(pre, mid);
    lemma_to_map_concat(pre + mid, post);
    lemma_to_map_concat(pre, mid2);
    lemma_to_map_concat(pre + mid2, post);
    assert(to_map(pre + mid2 + post) =~= to_map(pre + mid + post).insert(k, v));
}

/// Removing from the middle of a sorted sequence cut in three is removing
/// from the whole, for a key that lies between the outer parts.
pub proof fn lemma_splice_remove<K: Ord, V>(
    pre: Seq<(K, V)>,
    mid: Seq<(K, V)>,
    mid2: Seq<(K, V)>,
    post: Seq<(K, V)>,
    k: K,
)
    requires
        total_order::<K>(),
        sorted(pre + mid + post),
        sorted(mid2),
        to_map(mid2) == to_map(mid).remove(k),
        all_below(pre, k),
        all_above(post, k),
    ensures
        sorted(pre + mid2 + post),
        to_map(pre + mid2 + post) == to_map(pre + mid + post).remove(k),
        to_map(pre + mid + post).contains_key(k) <==> to_map(mid).contains_key(k),
        to_map(mid).contains_key(k) ==> to_map(pre + mid + post)[k] == to_map(mid)[k],
{
    lemma_to_map_dom(mid);
    lemma_to_map_dom(mid2);
    assert forall|j: int| 0 <= j < mid2.len() implies has_key(mid, (#[trigger] mid2[j]).0) || (
    all_below(pre, mid2[j].0) && all_above(post, mid2[j].0)) by {
        assert(has_key(mid2, mid2[j].0));
        assert(to_map(mid2).contains_key(mid2[j].0));
        assert(to_map(mid).contains_key(mid2[j].0));
    }
    lemma_splice_sorted(pre, mid, mid2, post);
    lemma_splice_lookup(pre, mid, post, k);
    lemma_to_map_dom(pre);
    lemma_to_map_dom(post);
    lemma_to_map_concat(pre, mid);
    lemma_to_map_concat(pre + mid, post);
    lemma_to_map_concat(pre, mid2);
    lemma_to_map_concat(pre + mid2, post);
    assert(to_map(pre + mid2 + post) =~= to_map(pre + mid + post).remove(k));
}

/// Around any pair of a sorted sequence, what comes before sorts below its
/// key and what comes after sorts above it.
pub proof fn lemma_sorted_around<K: Ord, V>(a: Seq<(K, V)>, x: (K, V), b: Seq<(K, V)>)
    requires
        sorted(a + seq![x] + b),
    ensures
        all_below(a, x.0),
        all_above(b, x.0),
        sorted(a),
        sorted(b),
        sorted(a + b),
{
    let one = seq![x];
    lemma_sorted_concat(a + one, b);
    lemma_sorted_concat(a, one);
    assert forall|i: int| 0 <= i < a.len() implies lt((#[trigger] a[i]).0, x.0) by {
        assert(lt(a[i].0, one[0].0));
    }
    assert forall|i: int| 0 <= i < b.len() implies lt(x.0, (#[trigger] b[i]).0) by {
        assert((a + one)[a.len() as int] == x);
        assert(lt((a + one)[a.len() as int].0, b[i].0));
    }
    assert forall|i: int, j: int|
        #![trigger a[i], b[j]]
        0 <= i < a.len() && 0 <= j < b.len() implies lt(a[i].0, b[j].0) by {
        assert((a + one)[i] == a[i]);
        assert(lt((a + one)[i].0, b[j].0));
    }
    lemma_sorted_concat(a, b);
}

/// Taking one pair out of a sorted sequence removes its key from the map.
pub proof fn lemma_remove_at<K: Ord, V>(s: Seq<(K, V)>, p: int)
    requires
        total_order::<K>(),
        sorted(s),
        0 <= p < s.len(),
    ensures
        sorted(s.remove(p)),
        to_map(s.remove(p)) == to_map(s).remove(s[p].0),
        to_map(s).contains_key(s[p].0),
        to_map(s)[s[p].0] == s[p].1,
{
    let a = s.take(p);
    let b = s.skip(p + 1);
    let one = seq![s[p]];
    let none = Seq::<(K, V)>::empty();
    assert(s =~= a + one + b);
    assert(s.remove(p) =~= a + none + b);
    lemma_sorted_around(a, s[p], b);
    lemma_to_map_one(s[p].0, s[p].1);
    assert(to_map(none) =~= to_map(one).remove(s[p].0));
    lemma_splice_remove(a, one, none, b, s[p].0);
}

/// Removal by way of the predecessor. `low` is what sorts just below the
/// pair `x`; its last pair changes places with `x`, and `x` is then removed
/// from it, leaving `done`. With the old last pair of `low` appended, `done`
/// is `low + [x]` without `x`.
pub proof fn lemma_predecessor_swapped<K: Ord, V>(low: Seq<(K, V)>, x: (K, V), done: Seq<(K, V)>)
    requires
        total_order::<K>(),
        sorted(low + seq![x]),
        low.len() > 0,
        sorted(done),
        to_map(done) == to_map(low.drop_last().push(x)).remove(x.0),
    ensures
        sorted(done + seq![low.last()]),
        to_map(done + seq![low.last()]) == to_map(low + seq![x]).remove(x.0),
{
    let rest = low.drop_last();
    let one = seq![low.last()];
    lemma_sorted_concat(low, seq![x]);
    assert(low =~= rest + one);
    lemma_sorted_concat(rest, one);
    assert(!has_key(low, x.0)) by {
        if has_key(low, x.0) {
            let i = choose|i: int| 0 <= i < low.len() && (#[trigger] low[i]).0 == x.0;
            assert(lt(low[i].0, seq![x][0].0));
            lemma_lt_asym(low[i].0, x.0);
        }
    }
    lemma_to_map_dom(low);
    lemma_to_map_dom(rest);
    lemma_to_map_dom(done);
    assert(rest.push(x) =~= rest + seq![x]);
    lemma_to_map_concat(rest, seq![x]);
    lemma_to_map_concat(rest, one);
    lemma_to_map_concat(low, seq![x]);
    lemma_to_map_concat(done, one);
    lemma_to_map_one(x.0, x.1);
    lemma_to_map_one(low.last().0, low.last().1);
    assert(!to_map(rest).contains_key(x.0)) by {
        if has_key(rest, x.0) {
            let i = choose|i: int| 0 <= i < rest.len() && (#[trigger] rest[i]).0 == x.0;
            assert(low[i].0 == x.0);
        }
    }
    assert(to_map(done) =~= to_map(rest));
    assert forall|i: int, j: int|
        #![trigger done[i], one[j]]
        0 <= i < done.len() && 0 <= j < one.len() implies lt(done[i].0, one[j].0) by {
        assert(has_key(done, done[i].0));
        assert(to_map(rest).contains_key(done[i].0));
        let m = choose|m: int| 0 <= m < rest.len() && (#[trigger] rest[m]).0 == done[i].0;
        assert(lt(rest[m].0, one[0].0));
    }
    lemma_sorted_concat(done, one);
    assert(!to_map(low).contains_key(x.0));
    assert(to_map(done + one) =~= to_map(low + seq![x]).remove(x.0));
}

/// Removal by way of the successor. `high` is what sorts just above the pair
/// `x`; its first pair changes places with `x`, and `x` is then removed from
/// it, leaving `done`. With the old first pair of `high` put in front,
/// `done` is `[x] + high` without `x`.
pub proof fn lemma_successor_swapped<K: Ord, V>(high: Seq<(K, V)>, x: (K, V), done: Seq<(K, V)>)
    requires
        total_order::<K>(),
        sorted(seq![x] + high),
        high.len() > 0,
        sorted(done),
        to_map(done) == to_map(seq![x] + high.drop_first()).remove(x.0),
    ensures
        sorted(seq![high.first()] + done),
        to_map(seq![high.first()] + done) == to_map(seq![x] + high).remove(x.0),
{
    let rest = high.drop_first();
    let one = seq![high.first()];
    lemma_sorted_concat(seq![x], high);
    assert(high =~= one + rest);
    lemma_sorted_concat(one, rest);
    assert(!has_key(high, x.0)) by {
        if has_key(high, x.0) {
            let i = choose|i: int| 0 <= i < high.len() && (#[trigger] high[i]).0 == x.0;
            assert(lt(seq![x][0].0, high[i].0));
            lemma_lt_asym(x.0, high[i].0);
        }
    }
    lemma_to_map_dom(high);
    lemma_to_map_dom(rest);
    lemma_to_map_dom(done);
    lemma_to_map_concat(seq![x], rest);
    lemma_to_map_concat(seq![x], high);
    lemma_to_map_concat(one, rest);
    lemma_to_map_concat(one, done);
    lemma_to_map_one(x.0, x.1);
    assert(!to_map(rest).contains_key(x.0)) by {
        if has_key(rest, x.0) {
            let i = choose|i: int| 0 <= i < rest.len() && (#[trigger] rest[i]).0 == x.0;
            assert(high[i + 1].0 == x.0);
        }
    }
    assert(to_map(done) =~= to_map(rest));
    assert forall|i: int, j: int|
        #![trigger one[i], done[j]]
        0 <= i < one.len() && 0 <= j < done.len() implies lt(one[i].0, done[j].0) by {
        assert(has_key(done, done[j].0));
        assert(to_map(rest).contains_key(done[j].0));
        let m = choose|m: int| 0 <= m < rest.len() && (#[trigger] rest[m]).0 == done[j].0;
        assert(lt(one[0].0, rest[m].0));
    }
    lemma_sorted_concat(one, done);
    assert(to_map(one + done) =~= to_map(seq![x] + high).remove(x.0));
}

/// A bound on a concatenation is a bound on both parts.
pub proof fn lemma_bound_parts<K: Ord, V>(a: Seq<(K, V)>, b: Seq<(K, V)>, k: K)
    ensures
        all_below(a + b, k) <==> all_below(a, k) && all_below(b, k),
        all_above(a + b, k) <==> all_above(a, k) && all_above(b, k),
{
    let s = a + b;
    if all_below(s, k) {
        assert forall|i: int| 0 <= i < a.len() implies lt((#[trigger] a[i]).0, k) by {
            assert(s[i] == a[i]);
        }
        assert forall|i: int| 0 <= i < b.len() implies lt((#[trigger] b[i]).0, k) by {
            assert(s[a.len() + i] == b[i]);
        }
    }
    if all_above(s, k) {
        assert forall|i: int| 0 <= i < a.len() implies lt(k, (#[trigger] a[i]).0) by {
            assert(s[i] == a[i]);
        }
        assert forall|i: int| 0 <= i < b.len() implies lt(k, (#[trigger] b[i]).0) by {
            assert(s[a.len() + i] == b[i]);
        }
    }
}

/// A bound on a sequence is a bound on its prefixes and suffixes.
pub proof fn lemma_bound_ends<K: Ord, V>(part: Seq<(K, V)>, whole: Seq<(K, V)>, k: K)
    ensures
        part.is_prefix_of(whole) && all_below(whole, k) ==> all_below(part, k),
        part.is_suffix_of(whole) && all_above(whole, k) ==> all_above(part, k),
{
    if part.is_prefix_of(whole) && all_below(whole, k) {
        assert forall|i: int| 0 <= i < part.len() implies lt((#[trigger] part[i]).0, k) by {
            assert(part[i] == whole[i]);
        }
    }
    if part.is_suffix_of(whole) && all_above(whole, k) {
        let off = whole.len() - part.len();
        assert forall|i: int| 0 <= i < part.len() implies lt(k, (#[trigger] part[i]).0) by {
            assert(part[i] == whole[off + i]);
        }
    }
}

/// After the pair `x` has changed places with the last pair of what sorts
/// just below it, that run is still sorted and holds `x`.
pub proof fn lemma_low_swapped<K: Ord, V>(low: Seq<(K, V)>, x: (K, V))
    requires
        total_order::<K>(),
        sorted(low + seq![x]),
        low.len() > 0,
    ensures
        sorted(low.drop_last().push(x)),
        to_map(low.drop_last().push(x)).contains_key(x.0),
        to_map(low.drop_last().push(x))[x.0] == x.1,
{
    let rest = low.drop_last();
    let s = low + seq![x];
    let t = rest.push(x);
    assert forall|i: int, j: int| #![trigger t[i], t[j]] 0 <= i < j < t.len() implies lt(
        t[i].0,
        t[j].0,
    ) by {
        if j < rest.len() {
            assert(lt(s[i].0, s[j].0));
        } else {
            assert(lt(s[i].0, s[s.len() - 1].0));
        }
    }
    lemma_to_map_index(t, t.len() - 1);
}

/// After the pair `x` has changed places with the first pair of what sorts
/// just above it, that run is still sorted and holds `x`.
pub proof fn lemma_high_swapped<K: Ord, V>(high: Seq<(K, V)>, x: (K, V))
    requires
        total_order::<K>(),
        sorted(seq![x] + high),
        high.len() > 0,
    ensures
        sorted(seq![x] + high.drop_first()),
        to_map(seq![x] + high.drop_first()).contains_key(x.0),
        to_map(seq![x] + high.drop_first())[x.0] == x.1,
{
    let s = seq![x] + high;
    let t = seq![x] + high.drop_first();
    assert forall|i: int, j: int| #![trigger t[i], t[j]] 0 <= i < j < t.len() implies lt(
        t[i].0,
        t[j].0,
    ) by {
        if i == 0 {
            assert(lt(s[0].0, s[j + 1].0));
        } else {
            assert(lt(s[i + 1].0, s[j + 1].0));
        }
    }
    lemma_to_map_index(t, 0);
}

/// A sorted sequence has as many pairs as its map has keys.
pub proof fn lemma_to_map_len<K: Ord, V>(s: Seq<(K, V)>)
    requires
        total_order::<K>(),
        sorted(s),
    ensures
        to_map(s).dom().finite(),
        to_map(s).len() == s.len(),
    decreases s.len(),
{
    if s.len() > 0 {
        let t = s.drop_last();
        let p = s.len() - 1;
        assert(s.remove(p) =~= t);
        lemma_remove_at(s, p);
        lemma_to_map_len(t);
        assert(to_map(s).dom() =~= to_map(t).dom().insert(s.last().0));
    }
}

/// Every value of the map stands beside its key somewhere in the sequence.
pub proof fn lemma_to_map_from_pair<K, V>(s: Seq<(K, V)>, k: K)
    requires
        to_map(s).contains_key(k),
    ensures
        exists|i: int| 0 <= i < s.len() && #[trigger] s[i] == (k, to_map(s)[k]),
    decreases s.len(),
{
    if s.len() > 0 {
        let t = s.drop_last();
        if s.last().0 == k {
            assert(s[s.len() - 1] == (k, to_map(s)[k]));
        } else {
            lemma_to_map_from_pair(t, k);
            let i = choose|i: int| 0 <= i < t.len() && #[trigger] t[i] == (k, to_map(t)[k]);
            assert(s[i] == (k, to_map(s)[k]));
        }
    }
}

/// Two sorted sequences that stand for the same map are the same sequence.
pub proof fn lemma_sorted_unique<K: Ord, V>(a: Seq<(K, V)>, b: Seq<(K, V)>)
    requires
        total_order::<K>(),
        sorted(a),
        sorted(b),
        to_map(a) == to_map(b),
    ensures
        a == b,
    decreases a.len(),
{
    lemma_to_map_len(a);
    lemma_to_map_len(b);
    if a.len() > 0 {
        let p = a.len() - 1;
        lemma_to_map_dom(a);
        lemma_to_map_dom(b);
        lemma_to_map_index(a, p);
        lemma_to_map_index(b, p);
        assert(has_key(b, a[p].0));
        assert(has_key(a, b[p].0));
        let j = choose|j: int| 0 <= j < b.len() && (#[trigger] b[j]).0 == a[p].0;
        let i = choose|i: int| 0 <= i < a.len() && (#[trigger] a[i]).0 == b[p].0;
        if j < p {
            assert(lt(b[j].0, b[p].0));
            if i < p {
                assert(lt(a[i].0, a[p].0));
            }
            lemma_lt_asym(b[j].0, b[p].0);
        }
        assert(a[p].0 == b[p].0);
        assert(a[p] == b[p]);
        lemma_remove_at(a, p);
        lemma_remove_at(b, p);
        assert(a.remove(p) =~= a.drop_last());
        assert(b.remove(p) =~= b.drop_last());
        lemma_sorted_unique(a.drop_last(), b.drop_last());
        assert(a =~= a.drop_last().push(a[p]));
        assert(b =~= b.drop_last().push(b[p]));
    } else {
        assert(a =~= b);
    }
}

/// The map that results from inserting the pairs of `s`, first to last,
/// into `m`.
pub open spec fn inserted_all<K, V>(m: Map<K, V>, s: Seq<(K, V)>) -> Map<K, V>
    decreases s.len(),
{
    if s.len() == 0 {
        m
    } else {
        inserted_all(m, s.drop_last()).insert(s.last().0, s.last().1)
    }
}

/// Inserting the pairs of `s` one by one overlays the map of `s` on `m`.
pub proof fn lemma_inserted_all<K, V>(m: Map<K, V>, s: Seq<(K, V)>)
    ensures
        inserted_all(m, s) == m.union_prefer_right(to_map(s)),
    decreases s.len(),
{
    if s.len() == 0 {
        assert(m.union_prefer_right(to_map(s)) =~= m);
    } else {
        lemma_inserted_all(m, s.drop_last());
        assert(inserted_all(m, s) =~= m.union_prefer_right(to_map(s)));
    }
}

} // verus!
