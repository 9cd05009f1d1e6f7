use core::cmp::Ordering;
use vstd::prelude::*;
use vstd::std_specs::cmp::{OrdSpec, PartialOrdSpec};

verus! {

/// How a probe key stands relative to a stored key.
#[derive(Clone, Copy, Debug)]
pub enum KeyOrder {
    Less,
    Equal,
    Greater,
}

/// Strict "less than" on keys, as decided by the key type's `Ord`.
pub open spec fn lt<K: Ord>(a: K, b: K) -> bool {
    a.cmp_spec(&b) == Ordering::Less
}

/// The key type's `Ord` is a strict total order whose notion of equality is
/// plain equality of values, and the executable `cmp` computes it.
#[verifier::opaque]
pub open spec fn total_order<K: Ord>() -> bool {
    &&& K::obeys_cmp_spec()
    &&& forall|a: K, b: K|
        #![trigger a.cmp_spec(&b)]
        (a.cmp_spec(&b) == Ordering::Equal <==> a == b)
    &&& forall|a: K, b: K|
        #![trigger a.cmp_spec(&b)]
        (a.cmp_spec(&b) == Ordering::Greater <==> b.cmp_spec(&a) == Ordering::Less)
    &&& forall|a: K, b: K, c: K|
        #![trigger a.cmp_spec(&b), b.cmp_spec(&c)]
        a.cmp_spec(&b) == Ordering::Less && b.cmp_spec(&c) == Ordering::Less ==> a.cmp_spec(&c)
            == Ordering::Less
}

/// `lt` is transitive.
pub proof fn lemma_lt_trans<K: Ord>(a: K, b: K, c: K)
    requires
        total_order::<K>(),
        lt(a, b),
        lt(b, c),
    ensures
        lt(a, c),
{
    reveal(total_order);
}

/// No key is below itself, and of two keys at most one is below the other.
pub proof fn lemma_lt_asym<K: Ord>(a: K, b: K)
    requires
        total_order::<K>(),
        lt(a, b),
    ensures
        !lt(b, a),
        a != b,
{
    reveal(total_order);
}

/// Three-way comparison of two keys.
pub fn compare<K: Ord>(a: &K, b: &K) -> (r: KeyOrder)
    requires
        total_order::<K>(),
    ensures
        r is Less <==> lt(*a, *b),
        r is Equal <==> *a == *b,
        r is Greater <==> lt(*b, *a),
{
    proof {
        reveal(total_order);
    }
    match a.cmp(b) {
        Ordering::Less => KeyOrder::Less,
        Ordering::Equal => KeyOrder::Equal,
        Ordering::Greater => KeyOrder::Greater,
    }
}

/// A key type that keeps the comparison laws of `vstd` and whose `==` is
/// equality of values is totally ordered. This covers the integer types,
/// and tuples and options of them.
pub proof fn lemma_total_order_from_laws<K: Ord>()
    requires
        vstd::laws_cmp::obeys_cmp::<K>(),
        vstd::laws_eq::obeys_concrete_eq::<K>(),
    ensures
        total_order::<K>(),
{
    reveal(total_order);
    reveal(vstd::laws_cmp::obeys_cmp_partial_ord);
    reveal(vstd::laws_cmp::obeys_cmp_ord);
    reveal(vstd::laws_cmp::obeys_partial_cmp_spec_properties);
    reveal(vstd::laws_eq::obeys_concrete_eq);
    assert forall|a: K, b: K|
        #![trigger a.cmp_spec(&b)]
        (a.cmp_spec(&b) == Ordering::Equal <==> a == b) by {
        assert(a.partial_cmp_spec(&b) == Some(a.cmp_spec(&b)));
    }
    assert forall|a: K, b: K|
        #![trigger a.cmp_spec(&b)]
        (a.cmp_spec(&b) == Ordering::Greater <==> b.cmp_spec(&a) == Ordering::Less) by {
        assert(a.partial_cmp_spec(&b) == Some(a.cmp_spec(&b)));
        assert(b.partial_cmp_spec(&a) == Some(b.cmp_spec(&a)));
    }
    assert forall|a: K, b: K, c: K|
        #![trigger a.cmp_spec(&b), b.cmp_spec(&c)]
        a.cmp_spec(&b) == Ordering::Less && b.cmp_spec(&c) == Ordering::Less implies a.cmp_spec(&c)
            == Ordering::Less by {
        assert(a.partial_cmp_spec(&b) == Some(a.cmp_spec(&b)));
        assert(b.partial_cmp_spec(&c) == Some(b.cmp_spec(&c)));
        assert(a.partial_cmp_spec(&c) == Some(a.cmp_spec(&c)));
    }
}

/// `u64` keys are totally ordered.
pub proof fn lemma_u64_total_order()
    ensures
        total_order::<u64>(),
{
    reveal(total_order);
}

} // verus!
