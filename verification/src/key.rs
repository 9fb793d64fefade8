use crate::lattice::Order;
use core::cmp::Ordering;
use vstd::laws_cmp::{obeys_cmp, obeys_cmp_ord, obeys_cmp_partial_ord, obeys_partial_cmp_spec_properties};
use vstd::laws_eq::{obeys_concrete_eq, obeys_eq_spec_properties};
use vstd::prelude::*;
use vstd::std_specs::cmp::{OrdSpec, PartialEqSpec, PartialOrdSpec};

verus! {

/// What the collections ask of a key type: its `Ord` is a total order in
/// which only identical keys are equal, and its `Clone` hands back the key.
pub open spec fn total_order<K: Ord + Clone>() -> bool {
    &&& obeys_cmp::<K>()
    &&& obeys_concrete_eq::<K>()
    &&& forall|a: K, b: K| cloned(a, b) ==> a == b
}

/// `a` comes strictly before `b` in the order of the key type.
pub open spec fn key_lt<K: Ord>(a: K, b: K) -> bool {
    a.cmp_spec(&b) == Ordering::Less
}

/// Of two keys exactly one holds: the first comes before the second, they
/// are the same key, or the second comes before the first.
pub proof fn lemma_key_trichotomy<K: Ord + Clone>(a: K, b: K)
    requires
        total_order::<K>(),
    ensures
        key_lt(a, b) || a == b || key_lt(b, a),
        !(key_lt(a, b) && a == b),
        !(key_lt(b, a) && a == b),
        !(key_lt(a, b) && key_lt(b, a)),
{
    reveal(obeys_partial_cmp_spec_properties);
    reveal(obeys_cmp_partial_ord);
    reveal(obeys_cmp_ord);
    reveal(obeys_concrete_eq);
    reveal(obeys_eq_spec_properties);
    assert(a.partial_cmp_spec(&b) == Some(a.cmp_spec(&b)));
    assert(b.partial_cmp_spec(&a) == Some(b.cmp_spec(&a)));
    assert(a.partial_cmp_spec(&b) == Some(Ordering::Equal) <==> a.eq_spec(&b));
    assert(a.eq_spec(&b) <==> a == b);
    assert(a.partial_cmp_spec(&b) == Some(Ordering::Less) <==> b.partial_cmp_spec(&a) == Some(
        Ordering::Greater,
    ));
    assert(b.partial_cmp_spec(&a) == Some(Ordering::Less) <==> a.partial_cmp_spec(&b) == Some(
        Ordering::Greater,
    ));
}

/// The order of the keys is transitive.
pub proof fn lemma_key_lt_transitive<K: Ord + Clone>(a: K, b: K, c: K)
    requires
        total_order::<K>(),
        key_lt(a, b),
        key_lt(b, c),
    ensures
        key_lt(a, c),
{
    reveal(obeys_partial_cmp_spec_properties);
    reveal(obeys_cmp_ord);
    assert(a.partial_cmp_spec(&b) == Some(a.cmp_spec(&b)));
    assert(b.partial_cmp_spec(&c) == Some(b.cmp_spec(&c)));
    assert(a.partial_cmp_spec(&c) == Some(a.cmp_spec(&c)));
}

/// Compares two keys.
pub fn key_order<K: Ord + Clone>(a: &K, b: &K) -> (r: Order)
    requires
        total_order::<K>(),
    ensures
        r == Order::Less <==> key_lt(*a, *b),
        r == Order::Equal <==> *a == *b,
        r == Order::Greater <==> key_lt(*b, *a),
{
    proof {
        lemma_key_trichotomy(*a, *b);
        reveal(obeys_cmp_ord);
        reveal(obeys_partial_cmp_spec_properties);
        reveal(obeys_cmp_partial_ord);
        reveal(obeys_concrete_eq);
        assert(a.partial_cmp_spec(b) == Some(a.cmp_spec(b)));
        assert(b.partial_cmp_spec(a) == Some(b.cmp_spec(a)));
    }
    match a.cmp(b) {
        Ordering::Less => Order::Less,
        Ordering::Equal => Order::Equal,
        Ordering::Greater => Order::Greater,
    }
}

/// A copy of a key.
pub fn key_copy<K: Ord + Clone>(a: &K) -> (r: K)
    requires
        total_order::<K>(),
    ensures
        r == *a,
{
    let r = a.clone();
    assert(cloned(*a, r));
    r
}

/// What a register asks of the type of its content: `==` holds of identical
/// values only, and `Clone` hands back the value.
pub open spec fn plain_eq<T: PartialEq + Clone>() -> bool {
    &&& obeys_concrete_eq::<T>()
    &&& forall|a: T, b: T| cloned(a, b) ==> a == b
}

/// Whether two values are the same.
pub fn same_value<T: PartialEq + Clone>(a: &T, b: &T) -> (r: bool)
    requires
        plain_eq::<T>(),
    ensures
        r == (*a == *b),
{
    proof {
        reveal(obeys_concrete_eq);
    }
    a == b
}

/// A copy of a value.
pub fn copy_value<T: PartialEq + Clone>(a: &T) -> (r: T)
    requires
        plain_eq::<T>(),
    ensures
        r == *a,
{
    let r = a.clone();
    assert(cloned(*a, r));
    r
}

/// The integer types order totally, and compare and clone plainly.
pub proof fn lemma_integer_keys()
    ensures
        total_order::<u8>(),
        total_order::<u16>(),
        total_order::<u32>(),
        total_order::<u64>(),
        total_order::<usize>(),
        total_order::<i8>(),
        total_order::<i16>(),
        total_order::<i32>(),
        total_order::<i64>(),
        plain_eq::<u8>(),
        plain_eq::<u16>(),
        plain_eq::<u32>(),
        plain_eq::<u64>(),
        plain_eq::<usize>(),
        plain_eq::<i8>(),
        plain_eq::<i16>(),
        plain_eq::<i32>(),
        plain_eq::<i64>(),
        plain_eq::<bool>(),
{
}

} // verus!
