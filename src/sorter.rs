//! The executable bitonic sorter. It works in place on regions `lo..lo + n` of
//! one slice, and each stage is proved to compute the network model of
//! `network.rs` for every order that the comparator agrees with.
use crate::network::{
    bitonic_sort, half_clean, lemma_bitonic_sort_sorts, lemma_swap_multiset, merge,
};
use crate::order::{agrees_with, is_total_order, lemma_reversed, natural, ordered, reversed};
use crate::pow2::{is_pow2, is_power_of_two};
use core::cmp::Ordering;
use vstd::prelude::*;
use vstd::std_specs::cmp::OrdSpec;

verus! {

broadcast use vstd::seq_lib::group_to_multiset_ensures;

/// The two canonical directions of [`sort`].
pub enum SortOrder {
    Ascending,
    Descending,
}

/// The slice handed to the sorter does not have a power-of-two length; `len`
/// is the length it had.
#[derive(Debug, Clone, Copy, PartialEq, Eq)]
pub struct LengthError {
    pub len: usize,
}

/// Relies on `<[T]>::swap`: exchanges the elements at `first` and `second`, and panics
/// when either index is out of bounds.
pub assume_specification<V>[ <[V]>::swap ](items: &mut [V], first: usize, second: usize)
    requires
        first < old(items)@.len(),
        second < old(items)@.len(),
    ensures
        final(items)@ == old(items)@.update(first as int, old(items)@[second as int]).update(
            second as int,
            old(items)@[first as int],
        ),
;

/// What every stage keeps: the length, the elements, and everything outside
/// the region `lo..lo + n`.
pub open spec fn kept_outside<T>(before: Seq<T>, after: Seq<T>, lo: int, n: int) -> bool {
    &&& after.len() == before.len()
    &&& after.to_multiset() == before.to_multiset()
    &&& forall|i: int|
        0 <= i < before.len() && !(lo <= i < lo + n) ==> #[trigger] after[i] == before[i]
}

/// The region `lo..lo + n` of `s`.
pub open spec fn region<T>(s: Seq<T>, lo: int, n: int) -> Seq<T> {
    s.subrange(lo, lo + n)
}

proof fn lemma_kept_trans<T>(s0: Seq<T>, s1: Seq<T>, s2: Seq<T>, lo: int, n: int, lo1: int, n1: int)
    requires
        kept_outside(s0, s1, lo, n),
        kept_outside(s1, s2, lo1, n1),
        lo <= lo1,
        lo1 + n1 <= lo + n,
    ensures
        kept_outside(s0, s2, lo, n),
{
}

/// Compare-and-swap: for each `i < n / 2`, the elements at `lo + i` and
/// `lo + n / 2 + i` trade places when the comparator finds them out of order
/// for the direction `up`.
fn compare_and_swap<T, F: Fn(&T, &T) -> Ordering>(
    x: &mut [T],
    lo: usize,
    n: usize,
    up: bool,
    comparator: &F,
)
    requires
        lo + n <= old(x)@.len(),
        forall|a: T, b: T| comparator.requires((&a, &b)),
    ensures
        kept_outside(old(x)@, final(x)@, lo as int, n as int),
        forall|ord: spec_fn(T, T) -> Ordering|
            #[trigger] agrees_with(*comparator, ord) ==> region(final(x)@, lo as int, n as int)
                == half_clean(ord, up, region(old(x)@, lo as int, n as int)),
{
    let ghost s0 = region(x@, lo as int, n as int);
    let len = x.len();
    let m = n / 2;
    let mut i: usize = 0;
    while i < m
        invariant
            m == n / 2,
            i <= m,
            lo + n <= len,
            len == old(x)@.len(),
            forall|a: T, b: T| comparator.requires((&a, &b)),
            s0 == region(old(x)@, lo as int, n as int),
            kept_outside(old(x)@, x@, lo as int, n as int),
            forall|k: int|
                i <= k < m ==> #[trigger] x@[lo + k] == s0[k] && x@[lo + m + k] == s0[m + k],
            forall|k: int| 2 * m <= k < n ==> #[trigger] x@[lo + k] == s0[k],
            forall|ord: spec_fn(T, T) -> Ordering|
                #[trigger] agrees_with(*comparator, ord) ==> forall|k: int|
                    0 <= k < i ==> #[trigger] x@[lo + k] == half_clean(ord, up, s0)[k] && x@[lo
                        + m + k] == half_clean(ord, up, s0)[m + k],
        decreases m - i,
    {
        let ghost before = x@;
        assert forall|k: int| i <= k < m implies #[trigger] before[lo + k] == s0[k] && before[lo + m
            + k] == s0[m + k] by {
            assert(x@[lo + k] == s0[k]);
        }
        let o = comparator(&x[lo + i], &x[lo + m + i]);
        let swap = match o {
            Ordering::Greater => up,
            Ordering::Less => !up,
            Ordering::Equal => false,
        };
        if swap {
            proof {
                lemma_swap_multiset(x@, lo + i, lo + m + i);
            }
            x.swap(lo + i, lo + m + i);
        }
        assert forall|k: int| i < k < n && k != m + i implies #[trigger] x@[lo + k] == before[lo
            + k] by {}
        assert forall|k: int| i + 1 <= k < m implies #[trigger] x@[lo + k] == s0[k] && x@[lo + m
            + k] == s0[m + k] by {
            assert(before[lo + k] == s0[k]);
            assert(x@[lo + m + k] == before[lo + m + k]);
        }
        assert forall|ord: spec_fn(T, T) -> Ordering| #[trigger]
            agrees_with(*comparator, ord) implies forall|k: int|
            0 <= k < i + 1 ==> #[trigger] x@[lo + k] == half_clean(ord, up, s0)[k] && x@[lo + m
                + k] == half_clean(ord, up, s0)[m + k] by {
            assert(o == ord(s0[i as int], s0[m + i]));
            assert forall|k: int| 0 <= k < i + 1 implies #[trigger] x@[lo + k] == half_clean(
                ord,
                up,
                s0,
            )[k] && x@[lo + m + k] == half_clean(ord, up, s0)[m + k] by {
                if k < i {
                    assert(x@[lo + k] == before[lo + k]);
                    assert(x@[lo + m + k] == before[lo + m + k]);
                }
            }
        }
        i = i + 1;
    }
    proof {
        assert forall|ord: spec_fn(T, T) -> Ordering| #[trigger]
            agrees_with(*comparator, ord) implies region(x@, lo as int, n as int) == half_clean(
            ord,
            up,
            s0,
        ) by {
            let h = half_clean(ord, up, s0);
            assert forall|k: int| 0 <= k < n implies #[trigger] region(x@, lo as int, n as int)[k]
                == h[k] by {
                if k < m {
                    assert(x@[lo + k] == h[k]);
                } else if k < 2 * m {
                    assert(x@[lo + (k - m)] == h[k - m]);
                    assert(x@[lo + m + (k - m)] == h[m + (k - m)]);
                } else {
                    assert(x@[lo + k] == s0[k]);
                }
            }
            assert(region(x@, lo as int, n as int) =~= h);
        }
    }
}

/// The merge stage on the region `lo..lo + n`: one compare-and-swap pass, then
/// each half merged in the same direction.
fn sub_sort<T, F: Fn(&T, &T) -> Ordering>(
    x: &mut [T],
    lo: usize,
    n: usize,
    up: bool,
    comparator: &F,
)
    requires
        lo + n <= old(x)@.len(),
        forall|a: T, b: T| comparator.requires((&a, &b)),
    ensures
        kept_outside(old(x)@, final(x)@, lo as int, n as int),
        forall|ord: spec_fn(T, T) -> Ordering|
            #[trigger] agrees_with(*comparator, ord) ==> region(final(x)@, lo as int, n as int)
                == merge(ord, up, region(old(x)@, lo as int, n as int)),
    decreases n,
{
    if n > 1 {
        let ghost s0 = x@;
        assert(x@.len() == x.len());
        compare_and_swap(x, lo, n, up, comparator);
        let ghost s1 = x@;
        let m = n / 2;
        sub_sort(x, lo, m, up, comparator);
        let ghost s2 = x@;
        sub_sort(x, lo + m, n - m, up, comparator);
        proof {
            lemma_kept_trans(s0, s1, s2, lo as int, n as int, lo as int, m as int);
            lemma_kept_trans(s0, s2, x@, lo as int, n as int, lo + m, n - m);
            assert forall|ord: spec_fn(T, T) -> Ordering| #[trigger]
                agrees_with(*comparator, ord) implies region(x@, lo as int, n as int) == merge(
                ord,
                up,
                region(s0, lo as int, n as int),
            ) by {
                let c = region(s1, lo as int, n as int);
                assert(c == half_clean(ord, up, region(s0, lo as int, n as int)));
                assert(region(s1, lo as int, m as int) =~= c.subrange(0, m as int));
                assert(region(s1, lo + m, n - m) =~= c.subrange(m as int, n as int));
                assert(region(s2, lo + m, n - m) =~= region(s1, lo + m, n - m));
                assert(region(x@, lo as int, m as int) =~= region(s2, lo as int, m as int));
                assert(region(x@, lo as int, n as int) =~= region(x@, lo as int, m as int) + region(
                    x@,
                    lo + m,
                    n - m,
                ));
            }
        }
    }
}

/// The whole sort on the region `lo..lo + n`: the first half ascending, the
/// second half descending, then the merge stage in the direction `up`.
fn do_sort<T, F: Fn(&T, &T) -> Ordering>(
    x: &mut [T],
    lo: usize,
    n: usize,
    up: bool,
    comparator: &F,
)
    requires
        lo + n <= old(x)@.len(),
        forall|a: T, b: T| comparator.requires((&a, &b)),
    ensures
        kept_outside(old(x)@, final(x)@, lo as int, n as int),
        forall|ord: spec_fn(T, T) -> Ordering|
            #[trigger] agrees_with(*comparator, ord) ==> region(final(x)@, lo as int, n as int)
                == bitonic_sort(ord, up, region(old(x)@, lo as int, n as int)),
    decreases n,
{
    if n > 1 {
        let ghost s0 = x@;
        assert(x@.len() == x.len());
        let m = n / 2;
        do_sort(x, lo, m, true, comparator);
        let ghost s1 = x@;
        do_sort(x, lo + m, n - m, false, comparator);
        let ghost s2 = x@;
        sub_sort(x, lo, n, up, comparator);
        proof {
            lemma_kept_trans(s0, s1, s2, lo as int, n as int, lo + m, n - m);
            lemma_kept_trans(s0, s2, x@, lo as int, n as int, lo as int, n as int);
            assert forall|ord: spec_fn(T, T) -> Ordering| #[trigger]
                agrees_with(*comparator, ord) implies region(x@, lo as int, n as int)
                == bitonic_sort(ord, up, region(s0, lo as int, n as int)) by {
                let r0 = region(s0, lo as int, n as int);
                assert(region(s0, lo as int, m as int) =~= r0.subrange(0, m as int));
                assert(region(s1, lo + m, n - m) =~= region(s0, lo + m, n - m));
                assert(region(s0, lo + m, n - m) =~= r0.subrange(m as int, n as int));
                assert(region(s2, lo as int, m as int) =~= region(s1, lo as int, m as int));
                assert(region(s2, lo as int, n as int) =~= region(s2, lo as int, m as int) + region(
                    s2,
                    lo + m,
                    n - m,
                ));
            }
        }
    }
}

/// Sorts `x` in place with `comparator`, ascending under the order that it
/// computes, when the length of `x` is a power of two; otherwise returns the
/// length as an error and leaves `x` as it was.
pub fn sort_by<T, F: Fn(&T, &T) -> Ordering>(x: &mut [T], comparator: &F) -> (r: Result<
    (),
    LengthError,
>)
    requires
        forall|a: T, b: T| comparator.requires((&a, &b)),
    ensures
        r is Ok <==> is_pow2(old(x)@.len()),
        r is Err ==> r == Err::<(), LengthError>(LengthError { len: old(x).len() })
            && final(x)@ == old(x)@,
        final(x)@.len() == old(x)@.len(),
        final(x)@.to_multiset() == old(x)@.to_multiset(),
        r is Ok ==> forall|ord: spec_fn(T, T) -> Ordering|
            is_total_order(ord) && #[trigger] agrees_with(*comparator, ord) ==> ordered(
                ord,
                true,
                final(x)@,
            ) && final(x)@ == bitonic_sort(ord, true, old(x)@),
{
    let len = x.len();
    if is_power_of_two(len) {
        do_sort(x, 0, len, true, comparator);
        proof {
            assert(region(x@, 0, len as int) =~= x@);
            assert(region(old(x)@, 0, len as int) =~= old(x)@);
            assert forall|ord: spec_fn(T, T) -> Ordering|
                is_total_order(ord) && #[trigger] agrees_with(*comparator, ord) implies ordered(
                ord,
                true,
                x@,
            ) && x@ == bitonic_sort(ord, true, old(x)@) by {
                lemma_bitonic_sort_sorts(ord, true, old(x)@);
            }
        }
        Ok(())
    } else {
        Err(LengthError { len })
    }
}

/// Sorts `x` in place by `T`'s own order, ascending or descending, when the
/// length of `x` is a power of two; otherwise returns the length as an error
/// and leaves `x` as it was. The result is sorted whenever `T`'s order is a
/// lawful total order.
pub fn sort<T: Ord>(x: &mut [T], order: &SortOrder) -> (r: Result<(), LengthError>)
    ensures
        r is Ok <==> is_pow2(old(x)@.len()),
        r is Err ==> r == Err::<(), LengthError>(LengthError { len: old(x).len() })
            && final(x)@ == old(x)@,
        final(x)@.len() == old(x)@.len(),
        final(x)@.to_multiset() == old(x)@.to_multiset(),
        r is Ok && T::obeys_cmp_spec() && is_total_order(natural::<T>()) ==> ordered(
            natural::<T>(),
            *order is Ascending,
            final(x)@,
        ),
{
    match *order {
        SortOrder::Ascending => {
            let compare = |a: &T, b: &T| -> (o: Ordering)
                ensures
                    T::obeys_cmp_spec() ==> o == a.cmp_spec(b),
                { a.cmp(b) };
            proof {
                if T::obeys_cmp_spec() {
                    assert(agrees_with(compare, natural::<T>()));
                }
            }
            let r = sort_by(x, &compare);
            r
        },
        SortOrder::Descending => {
            let compare = |a: &T, b: &T| -> (o: Ordering)
                ensures
                    T::obeys_cmp_spec() ==> o == b.cmp_spec(a),
                { b.cmp(a) };
            let r = sort_by(x, &compare);
            proof {
                if T::obeys_cmp_spec() && is_total_order(natural::<T>()) {
                    lemma_reversed(natural::<T>());
                    assert(agrees_with(compare, reversed(natural::<T>())));
                }
            }
            r
        },
    }
}

} // verus!
