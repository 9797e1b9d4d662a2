//! Helpers around the sorter: checks that a slice is sorted by `T`'s own
//! order, and a reproducible source of pseudo-random test data.
use crate::order::{is_total_order, lemma_after, natural, ordered, out_of_order};
use core::cmp::Ordering;
use rand::distributions::Standard;
use rand::{Rng, SeedableRng};
use rand_pcg::Pcg64Mcg;
use vstd::prelude::*;
use vstd::std_specs::cmp::OrdSpec;

verus! {

/// No two neighbouring elements of `s` are out of order.
pub open spec fn neighbours_ordered<T>(ord: spec_fn(T, T) -> Ordering, up: bool, s: Seq<T>) -> bool {
    forall|i: int| 0 <= i < s.len() - 1 ==> !out_of_order(ord, up, #[trigger] s[i], s[i + 1])
}

proof fn lemma_chain<T>(ord: spec_fn(T, T) -> Ordering, up: bool, s: Seq<T>, i: int, j: int)
    requires
        is_total_order(ord),
        neighbours_ordered(ord, up, s),
        0 <= i < j < s.len(),
    ensures
        !out_of_order(ord, up, s[i], s[j]),
    decreases j - i,
{
    if j > i + 1 {
        lemma_chain(ord, up, s, i, j - 1);
        assert(!out_of_order(ord, up, s[j - 1], s[j]));
        lemma_after(ord, up, s[i], s[j - 1], s[j]);
    }
}

/// Under a total order, checking neighbours is checking every pair.
pub proof fn lemma_neighbours_ordered<T>(ord: spec_fn(T, T) -> Ordering, up: bool, s: Seq<T>)
    requires
        is_total_order(ord),
    ensures
        neighbours_ordered(ord, up, s) == ordered(ord, up, s),
{
    if neighbours_ordered(ord, up, s) {
        assert forall|i: int, j: int| 0 <= i < j < s.len() implies !out_of_order(
            ord,
            up,
            #[trigger] s[i],
            #[trigger] s[j],
        ) by {
            lemma_chain(ord, up, s, i, j);
        }
    }
    if ordered(ord, up, s) {
        assert forall|i: int| 0 <= i < s.len() - 1 implies !out_of_order(
            ord,
            up,
            #[trigger] s[i],
            s[i + 1],
        ) by {
            assert(!out_of_order(ord, up, s[i], s[i + 1]));
        }
    }
}

fn is_sorted_in<T: Ord>(x: &[T], up: bool) -> (r: bool)
    ensures
        T::obeys_cmp_spec() ==> r == neighbours_ordered(natural::<T>(), up, x@),
{
    let n = x.len();
    let mut i: usize = 1;
    while i < n
        invariant
            n == x@.len(),
            1 <= i,
            T::obeys_cmp_spec() ==> forall|k: int|
                0 <= k < i - 1 ==> !out_of_order(natural::<T>(), up, #[trigger] x@[k], x@[k + 1]),
        decreases n - i,
    {
        let o = x[i - 1].cmp(&x[i]);
        let wrong = match o {
            Ordering::Greater => up,
            Ordering::Less => !up,
            Ordering::Equal => false,
        };
        if wrong {
            return false;
        }
        i = i + 1;
    }
    true
}

/// Whether `x` is non-decreasing under `T`'s own order.
pub fn is_sorted_ascending<T: Ord>(x: &[T]) -> (r: bool)
    ensures
        T::obeys_cmp_spec() ==> r == neighbours_ordered(natural::<T>(), true, x@),
        T::obeys_cmp_spec() && is_total_order(natural::<T>()) ==> r == ordered(
            natural::<T>(),
            true,
            x@,
        ),
{
    proof {
        if T::obeys_cmp_spec() && is_total_order(natural::<T>()) {
            lemma_neighbours_ordered(natural::<T>(), true, x@);
        }
    }
    is_sorted_in(x, true)
}

/// Whether `x` is non-increasing under `T`'s own order.
pub fn is_sorted_descending<T: Ord>(x: &[T]) -> (r: bool)
    ensures
        T::obeys_cmp_spec() ==> r == neighbours_ordered(natural::<T>(), false, x@),
        T::obeys_cmp_spec() && is_total_order(natural::<T>()) ==> r == ordered(
            natural::<T>(),
            false,
            x@,
        ),
{
    proof {
        if T::obeys_cmp_spec() && is_total_order(natural::<T>()) {
            lemma_neighbours_ordered(natural::<T>(), false, x@);
        }
    }
    is_sorted_in(x, false)
}

/// The first `n` values of the `u32` stream drawn from a `Pcg64Mcg` seeded with
/// sixteen zero bytes.
pub uninterp spec fn seeded_u32s(n: nat) -> Seq<u32>;

/// Relies on `rand_pcg::Pcg64Mcg::from_seed` and `rand::Rng::sample_iter` with
/// the `Standard` distribution: the stream is endless, so `take(n)` yields
/// exactly `n` values, and with a fixed seed it is the same on every run.
#[verifier::external_body]
pub fn new_u32_vec(n: usize) -> (r: Vec<u32>)
    ensures
        r@ == seeded_u32s(n as nat),
        r@.len() == n,
{
    let rng = Pcg64Mcg::from_seed([0; 16]);
    rng.sample_iter(&Standard).take(n).collect()
}

} // verus!
