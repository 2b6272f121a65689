//! The total order of an element type, as its `Ord` impl states it.
use core::cmp::Ordering;
use vstd::laws_cmp::obeys_cmp;
use vstd::laws_cmp::obeys_cmp_ord;
use vstd::laws_cmp::obeys_cmp_partial_ord;
use vstd::laws_cmp::obeys_partial_cmp_spec_properties;
use vstd::laws_eq::obeys_eq_spec_properties;
use vstd::prelude::*;
use vstd::std_specs::cmp::OrdSpec;
use vstd::std_specs::cmp::PartialOrdSpec;
use vstd::std_specs::cmp::PartialEqSpec;

verus! {

/// `a` comes no later than `b`.
pub open spec fn le<T: Ord>(a: T, b: T) -> bool {
    a.cmp_spec(&b) != Ordering::Greater
}

/// `a` comes strictly before `b`.
pub open spec fn lt<T: Ord>(a: T, b: T) -> bool {
    !le(b, a)
}

/// Slot `a` leaves a merge before slot `b`: by value, then by producer identifier.
pub open spec fn slot_before<T: Ord>(a: (T, usize), b: (T, usize)) -> bool {
    lt(a.0, b.0) || (le(a.0, b.0) && le(b.0, a.0) && a.1 < b.1)
}

/// Every element comes no later than the ones after it.
pub open spec fn sorted<T: Ord>(s: Seq<T>) -> bool {
    forall|i: int, j: int| 0 <= i < j < s.len() ==> le(#[trigger] s[i], #[trigger] s[j])
}

/// `le` is total and transitive for a type whose `Ord` obeys the laws of a total order.
pub proof fn lemma_total_order<T: Ord>()
    requires
        obeys_cmp::<T>(),
    ensures
        T::obeys_cmp_spec(),
        forall|a: T, b: T| #[trigger] le(a, b) || le(b, a),
        forall|a: T, b: T, c: T| #[trigger] le(a, b) && #[trigger] le(b, c) ==> le(a, c),
        forall|a: T, b: T| #[trigger] a.cmp_spec(&b) == Ordering::Less <==> b.cmp_spec(&a) == Ordering::Greater,
{
    reveal(obeys_cmp_ord);
    reveal(obeys_cmp_partial_ord);
    reveal(obeys_partial_cmp_spec_properties);
    reveal(obeys_eq_spec_properties);
    assert forall|a: T, b: T| a.cmp_spec(&b) == Ordering::Less <==> b.cmp_spec(&a) == Ordering::Greater by {
        assert(a.partial_cmp_spec(&b) == Some(a.cmp_spec(&b)));
        assert(b.partial_cmp_spec(&a) == Some(b.cmp_spec(&a)));
    }
    assert forall|a: T, b: T| #[trigger] le(a, b) || le(b, a) by {
        assert(a.partial_cmp_spec(&b) == Some(a.cmp_spec(&b)));
        assert(b.partial_cmp_spec(&a) == Some(b.cmp_spec(&a)));
    }
    assert forall|a: T, b: T, c: T| #[trigger] le(a, b) && #[trigger] le(b, c) implies le(a, c) by {
        assert(a.partial_cmp_spec(&b) == Some(a.cmp_spec(&b)));
        assert(b.partial_cmp_spec(&c) == Some(b.cmp_spec(&c)));
        assert(a.partial_cmp_spec(&c) == Some(a.cmp_spec(&c)));
        assert(c.partial_cmp_spec(&a) == Some(c.cmp_spec(&a)));
        assert(b.partial_cmp_spec(&a) == Some(b.cmp_spec(&a)));
        assert(c.partial_cmp_spec(&b) == Some(c.cmp_spec(&b)));
        if a.cmp_spec(&c) == Ordering::Greater {
            if a.cmp_spec(&b) == Ordering::Equal {
                assert(a.eq_spec(&b));
                if b.cmp_spec(&c) == Ordering::Equal {
                    assert(b.eq_spec(&c));
                    assert(a.eq_spec(&c));
                } else {
                    // b < c < a, so b < a
                    assert(c.cmp_spec(&a) == Ordering::Less);
                    assert(b.cmp_spec(&a) == Ordering::Less);
                    assert(b.eq_spec(&a));
                }
            } else {
                // a < b
                if b.cmp_spec(&c) == Ordering::Equal {
                    assert(b.eq_spec(&c));
                    assert(c.eq_spec(&b));
                    // c < a and a < b give c < b
                    assert(c.cmp_spec(&a) == Ordering::Less);
                    assert(c.cmp_spec(&b) == Ordering::Less);
                } else {
                    assert(a.cmp_spec(&c) == Ordering::Less);
                }
            }
        }
    }
}

} // verus!
