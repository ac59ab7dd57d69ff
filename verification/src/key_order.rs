use vstd::laws_cmp::{obeys_cmp, obeys_cmp_ord, obeys_cmp_partial_ord, obeys_partial_cmp_spec_properties};
use vstd::laws_eq::obeys_eq_spec_properties;
use vstd::prelude::*;
use vstd::std_specs::cmp::{OrdSpec, PartialEqSpec, PartialOrdSpec};

verus! {

/// The keys of type `K` are compared by a total order.
///
/// This is what `Ord` asks of its implementations; the built-in integers and
/// tuples of them have it.
pub open spec fn totally_ordered<K: Ord>() -> bool {
    obeys_cmp::<K>()
}

/// `a` is ordered strictly before `b`.
pub open spec fn key_lt<K: Ord>(a: K, b: K) -> bool {
    a.partial_cmp_spec(&b) == Some(core::cmp::Ordering::Less)
}

/// `a` is not ordered after `b`.
pub open spec fn key_le<K: Ord>(a: K, b: K) -> bool {
    !key_lt(b, a)
}

/// Whether `a` is ordered strictly before `b`.
pub(crate) fn key_less<K: Ord>(a: &K, b: &K) -> (less: bool)
    requires
        totally_ordered::<K>(),
    ensures
        less == key_lt(*a, *b),
{
    proof {
        reveal(obeys_cmp_partial_ord);
    }
    a < b
}

/// `key_lt` is a strict order, and `key_le` is the total preorder that belongs to it.
pub proof fn lemma_key_order<K: Ord>(a: K, b: K, c: K)
    requires
        totally_ordered::<K>(),
    ensures
        !key_lt(a, a),
        key_lt(a, b) ==> key_le(a, b),
        key_lt(a, b) && key_lt(b, c) ==> key_lt(a, c),
        key_le(a, b) && key_le(b, c) ==> key_le(a, c),
        key_lt(a, b) && key_le(b, c) ==> key_lt(a, c),
        key_le(a, b) && key_lt(b, c) ==> key_lt(a, c),
{
    reveal(obeys_cmp_ord);
    reveal(obeys_cmp_partial_ord);
    reveal(obeys_partial_cmp_spec_properties);
    reveal(obeys_eq_spec_properties);
    assert(a.partial_cmp_spec(&b) == Some(a.cmp_spec(&b)));
    assert(b.partial_cmp_spec(&a) == Some(b.cmp_spec(&a)));
    assert(b.partial_cmp_spec(&c) == Some(b.cmp_spec(&c)));
    assert(c.partial_cmp_spec(&b) == Some(c.cmp_spec(&b)));
    assert(a.partial_cmp_spec(&c) == Some(a.cmp_spec(&c)));
    assert(c.partial_cmp_spec(&a) == Some(c.cmp_spec(&a)));
    assert(a.partial_cmp_spec(&a) == Some(a.cmp_spec(&a)));
    assert(a.eq_spec(&b) <==> b.eq_spec(&a));
    assert(b.eq_spec(&c) <==> c.eq_spec(&b));
    assert(a.eq_spec(&c) <==> c.eq_spec(&a));
}

} // verus!
