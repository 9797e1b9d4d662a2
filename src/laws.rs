//! Laws relating several runs of the sorter: sorting by an order and by its
//! reverse mirror each other, and sorting sorted input changes nothing. Both
//! rest on sorted rearrangements being unique when no distinct values tie.
use crate::network::{bitonic_sort, lemma_bitonic_sort_multiset, lemma_bitonic_sort_sorts};
use crate::order::{is_total_order, lemma_after, lemma_reversed, ordered, out_of_order, reversed};
use crate::pow2::is_pow2;
use core::cmp::Ordering;
use vstd::prelude::*;

verus! {

broadcast use vstd::seq_lib::group_to_multiset_ensures;

/// Any two elements of `s` that `ord` finds equal are the same value.
pub open spec fn no_ties<T>(ord: spec_fn(T, T) -> Ordering, s: Seq<T>) -> bool {
    forall|i: int, j: int|
        0 <= i < s.len() && 0 <= j < s.len() && #[trigger] ord(s[i], s[j]) == Ordering::Equal
            ==> s[i] == s[j]
}

/// A rearrangement of a sequence without ties has no ties.
pub proof fn lemma_no_ties_rearranged<T>(ord: spec_fn(T, T) -> Ordering, s: Seq<T>, a: Seq<T>)
    requires
        no_ties(ord, s),
        a.to_multiset() == s.to_multiset(),
    ensures
        no_ties(ord, a),
{
    assert forall|i: int, j: int|
        0 <= i < a.len() && 0 <= j < a.len() && #[trigger] ord(a[i], a[j])
            == Ordering::Equal implies a[i] == a[j] by {
        assert(a.to_multiset().count(a[i]) > 0);
        assert(a.to_multiset().count(a[j]) > 0);
        assert(s.contains(a[i]));
        assert(s.contains(a[j]));
        let p = choose|p: int| 0 <= p < s.len() && s[p] == a[i];
        let q = choose|q: int| 0 <= q < s.len() && s[q] == a[j];
        assert(ord(s[p], s[q]) == Ordering::Equal);
    }
}

/// Two sorted rearrangements of one another are equal when no distinct
/// values tie.
pub proof fn lemma_sorted_unique<T>(ord: spec_fn(T, T) -> Ordering, up: bool, a: Seq<T>, b: Seq<T>)
    requires
        is_total_order(ord),
        ordered(ord, up, a),
        ordered(ord, up, b),
        a.to_multiset() == b.to_multiset(),
        no_ties(ord, a),
    ensures
        a == b,
    decreases a.len(),
{
    if a.len() == 0 {
        assert(b.to_multiset().len() == 0);
        assert(a =~= b);
    } else {
        assert(a.to_multiset().len() == a.len());
        assert(b.to_multiset().len() == b.len());
        let a0 = a[0];
        let b0 = b[0];
        assert(a.to_multiset().count(a0) > 0);
        assert(b.to_multiset().count(b0) > 0);
        assert(b.contains(a0));
        assert(a.contains(b0));
        let i = choose|i: int| 0 <= i < a.len() && a[i] == b0;
        let j = choose|j: int| 0 <= j < b.len() && b[j] == a0;
        lemma_after(ord, up, a0, b0, a0);
        lemma_after(ord, up, b0, a0, b0);
        if i > 0 {
            assert(!out_of_order(ord, up, a[0], a[i]));
        }
        if j > 0 {
            assert(!out_of_order(ord, up, b[0], b[j]));
        }
        assert((ord(a0, b0) == Ordering::Less) == (ord(b0, a0) == Ordering::Greater));
        assert(ord(a[0], a[i]) == Ordering::Equal);
        assert(a0 == b0);
        let a1 = a.drop_first();
        let b1 = b.drop_first();
        assert(a.remove(0) =~= a1);
        assert(b.remove(0) =~= b1);
        assert(a1.to_multiset() == b1.to_multiset());
        assert forall|p: int, q: int| 0 <= p < q < a1.len() implies !out_of_order(
            ord,
            up,
            #[trigger] a1[p],
            #[trigger] a1[q],
        ) by {
            assert(a1[p] == a[p + 1] && a1[q] == a[q + 1]);
        }
        assert forall|p: int, q: int| 0 <= p < q < b1.len() implies !out_of_order(
            ord,
            up,
            #[trigger] b1[p],
            #[trigger] b1[q],
        ) by {
            assert(b1[p] == b[p + 1] && b1[q] == b[q + 1]);
        }
        assert forall|p: int, q: int|
            0 <= p < a1.len() && 0 <= q < a1.len() && #[trigger] ord(a1[p], a1[q])
                == Ordering::Equal implies a1[p] == a1[q] by {
            assert(a1[p] == a[p + 1] && a1[q] == a[q + 1]);
        }
        lemma_sorted_unique(ord, up, a1, b1);
        assert forall|k: int| 0 < k < a.len() implies a[k] == b[k] by {
            assert(a[k] == a1[k - 1] && b[k] == b1[k - 1]);
        }
        assert(a =~= b);
    }
}

/// Sorting by an order and sorting by its reverse give mirrored results, when
/// no two distinct elements of the input tie.
pub proof fn lemma_reverse_order_mirrors<T>(ord: spec_fn(T, T) -> Ordering, s: Seq<T>)
    requires
        is_total_order(ord),
        is_pow2(s.len()),
        no_ties(ord, s),
    ensures
        bitonic_sort(reversed(ord), true, s) == bitonic_sort(ord, true, s).reverse(),
{
    let a = bitonic_sort(ord, true, s);
    let b = bitonic_sort(reversed(ord), true, s);
    lemma_reversed(ord);
    lemma_bitonic_sort_sorts(ord, true, s);
    lemma_bitonic_sort_sorts(reversed(ord), true, s);
    lemma_bitonic_sort_multiset(ord, true, s);
    lemma_bitonic_sort_multiset(reversed(ord), true, s);
    assert(ordered(ord, false, b));
    let rb = b.reverse();
    assert forall|i: int, j: int| 0 <= i < j < rb.len() implies !out_of_order(
        ord,
        true,
        #[trigger] rb[i],
        #[trigger] rb[j],
    ) by {
        let n = b.len() as int;
        assert(rb[i] == b[n - 1 - i] && rb[j] == b[n - 1 - j]);
        assert(!out_of_order(ord, false, b[n - 1 - j], b[n - 1 - i]));
        lemma_after(ord, true, rb[i], rb[j], rb[j]);
    }
    b.lemma_reverse_to_multiset();
    lemma_no_ties_rearranged(ord, s, a);
    lemma_sorted_unique(ord, true, a, rb);
    assert(b =~= a.reverse());
}

/// Sorting a sequence that is already sorted in the requested direction leaves
/// it as it was, when no two distinct elements of it tie.
pub proof fn lemma_sorted_input_unchanged<T>(ord: spec_fn(T, T) -> Ordering, up: bool, s: Seq<T>)
    requires
        is_total_order(ord),
        is_pow2(s.len()),
        no_ties(ord, s),
        ordered(ord, up, s),
    ensures
        bitonic_sort(ord, up, s) == s,
{
    lemma_bitonic_sort_sorts(ord, up, s);
    lemma_bitonic_sort_multiset(ord, up, s);
    lemma_sorted_unique(ord, up, s, bitonic_sort(ord, up, s));
}

} // verus!
