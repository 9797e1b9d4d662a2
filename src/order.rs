//! Orders as spec functions, the link from an executable comparator to such an
//! order, and what it means for a sequence to be sorted in a direction.
use core::cmp::Ordering;
use vstd::prelude::*;
use vstd::std_specs::cmp::OrdSpec;

verus! {

/// `ord` is a total order: `Less` and `Greater` mirror each other, and
/// "not `Greater`" (at most) is transitive.
pub open spec fn is_total_order<T>(ord: spec_fn(T, T) -> Ordering) -> bool {
    &&& forall|a: T, b: T|
        #![trigger ord(a, b), ord(b, a)]
        (ord(a, b) == Ordering::Less) == (ord(b, a) == Ordering::Greater)
    &&& forall|a: T, b: T, c: T|
        #![trigger ord(a, b), ord(b, c), ord(a, c)]
        ord(a, b) != Ordering::Greater && ord(b, c) != Ordering::Greater ==> ord(a, c)
            != Ordering::Greater
}

/// Every result that the comparator `f` can give for `(a, b)` is `ord(a, b)`.
pub open spec fn agrees_with<T, F: Fn(&T, &T) -> Ordering>(
    f: F,
    ord: spec_fn(T, T) -> Ordering,
) -> bool {
    forall|a: T, b: T, o: Ordering| #[trigger] f.ensures((&a, &b), o) ==> o == ord(a, b)
}

/// `a` must come after `b` when sorting by `ord`, ascending when `up` holds and
/// descending otherwise.
pub open spec fn out_of_order<T>(ord: spec_fn(T, T) -> Ordering, up: bool, a: T, b: T) -> bool {
    if up {
        ord(a, b) == Ordering::Greater
    } else {
        ord(a, b) == Ordering::Less
    }
}

/// No two elements of `s` are out of order: `s` is non-decreasing under `ord`
/// when `up` holds, non-increasing otherwise.
pub open spec fn ordered<T>(ord: spec_fn(T, T) -> Ordering, up: bool, s: Seq<T>) -> bool {
    forall|i: int, j: int|
        0 <= i < j < s.len() ==> !out_of_order(ord, up, #[trigger] s[i], #[trigger] s[j])
}

/// The facts about "strictly after" that the sorting proofs use, at given values.
pub proof fn lemma_after<T>(ord: spec_fn(T, T) -> Ordering, up: bool, a: T, b: T, t: T)
    requires
        is_total_order(ord),
    ensures
        out_of_order(ord, up, a, b) && out_of_order(ord, up, b, t) ==> out_of_order(ord, up, a, t),
        !out_of_order(ord, up, a, b) && out_of_order(ord, up, a, t) ==> out_of_order(ord, up, b, t),
        !out_of_order(ord, up, a, a),
        out_of_order(ord, !up, a, b) == out_of_order(ord, up, b, a),
{
    assert((ord(a, b) == Ordering::Less) == (ord(b, a) == Ordering::Greater));
    assert((ord(b, t) == Ordering::Less) == (ord(t, b) == Ordering::Greater));
    assert((ord(a, t) == Ordering::Less) == (ord(t, a) == Ordering::Greater));
    assert((ord(a, a) == Ordering::Less) == (ord(a, a) == Ordering::Greater));
    if up {
        if ord(a, b) != Ordering::Greater && ord(b, t) != Ordering::Greater {
            assert(ord(a, t) != Ordering::Greater);
        }
        if ord(t, a) != Ordering::Greater && ord(a, b) != Ordering::Greater {
            assert(ord(t, b) != Ordering::Greater);
        }
    } else {
        if ord(t, b) != Ordering::Greater && ord(b, a) != Ordering::Greater {
            assert(ord(t, a) != Ordering::Greater);
        }
        if ord(b, a) != Ordering::Greater && ord(a, t) != Ordering::Greater {
            assert(ord(b, t) != Ordering::Greater);
        }
    }
}

/// The order of `T`'s own `Ord` implementation.
pub open spec fn natural<T: Ord>() -> spec_fn(T, T) -> Ordering {
    |a: T, b: T| a.cmp_spec(&b)
}

/// `ord` with its arguments exchanged.
pub open spec fn reversed<T>(ord: spec_fn(T, T) -> Ordering) -> spec_fn(T, T) -> Ordering {
    |a: T, b: T| ord(b, a)
}

/// Reversing a total order gives a total order, and sorting by the reversed
/// order is sorting by `ord` itself in the other direction.
pub proof fn lemma_reversed<T>(ord: spec_fn(T, T) -> Ordering)
    requires
        is_total_order(ord),
    ensures
        is_total_order(reversed(ord)),
        forall|up: bool, s: Seq<T>| #[trigger]
            ordered(reversed(ord), up, s) == ordered(ord, !up, s),
{
    let r = reversed(ord);
    assert forall|a: T, b: T, c: T|
        #![trigger r(a, b), r(b, c)]
        r(a, b) != Ordering::Greater && r(b, c) != Ordering::Greater implies r(a, c)
        != Ordering::Greater by {
        assert(ord(b, a) != Ordering::Greater && ord(c, b) != Ordering::Greater);
        assert(ord(c, a) != Ordering::Greater);
    }
    assert forall|up: bool, s: Seq<T>| #[trigger]
        ordered(r, up, s) == ordered(ord, !up, s) by {
        assert forall|a: T, b: T| #[trigger]
            out_of_order(r, up, a, b) == out_of_order(ord, !up, a, b) by {
            assert((ord(a, b) == Ordering::Less) == (ord(b, a) == Ordering::Greater));
        }
    }
}

} // verus!
